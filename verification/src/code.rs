//! Classification of raw code values.

use vstd::prelude::*;

verus! {

/// Number of command codes: raw values below this are commands.
pub const COMMAND_LIMIT: u32 = 8;

/// First raw value that denotes a dictionary index.
pub const INDEX_BASE: u32 = 0x108;

/// The reset command: it starts the stream and every further segment, and
/// restarts the reader's framing.
pub const RESET: u8 = 1;

/// The widen command: every following code is one bit wider.
pub const WIDEN: u8 = 2;

/// The realign command: the next code starts at a byte boundary. Inside a
/// segment it also announces the final literal.
pub const REALIGN: u8 = 3;

/// One decoded unit of the stream.
#[derive(Copy, Clone, Debug, PartialEq, Eq, Structural)]
pub enum Code {
    /// A control code.
    Command(u8),
    /// A literal output byte.
    Value(u8),
    /// A reference to a dictionary slot.
    Index(usize),
}

/// The code that a raw value stands for.
pub open spec fn classify(raw: nat) -> Code {
    if raw < 8 {
        Code::Command(raw as u8)
    } else if raw >= 0x108 {
        Code::Index((raw - 0x108) as usize)
    } else {
        Code::Value((raw - 8) as u8)
    }
}

impl Code {
    /// Classifies a raw code value by its numeric range alone.
    pub fn from_u32(code: u32) -> (result: Code)
        ensures
            result == classify(code as nat),
    {
        if code < COMMAND_LIMIT {
            Code::Command(code as u8)
        } else if code >= INDEX_BASE {
            Code::Index((code - INDEX_BASE) as usize)
        } else {
            Code::Value((code - COMMAND_LIMIT) as u8)
        }
    }
}

/// Classification is total and its three ranges do not overlap: every raw
/// value is a command, a literal or an index, which one depends on its range
/// alone, and within its range the code keeps the value's offset.
pub proof fn lemma_classify_partition(raw: nat)
    ensures
        classify(raw) is Command <==> raw < 8,
        classify(raw) is Value <==> 8 <= raw < 0x108,
        classify(raw) is Index <==> 0x108 <= raw,
        classify(raw) matches Code::Command(n) ==> n == raw,
        classify(raw) matches Code::Value(b) ==> b == raw - 8,
        raw <= u32::MAX ==> (classify(raw) matches Code::Index(i) ==> i == raw - 0x108),
{
}

/// Two raw values have the same code only if they are the same value, as
/// long as both fit in 32 bits.
pub proof fn lemma_classify_injective(a: nat, b: nat)
    requires
        a <= u32::MAX,
        b <= u32::MAX,
        classify(a) == classify(b),
    ensures
        a == b,
{
    lemma_classify_partition(a);
    lemma_classify_partition(b);
}

} // verus!
