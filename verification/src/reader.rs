//! The variable-width bit reader: bytes in, classified codes out.

use vstd::prelude::*;
use vstd::arithmetic::div_mod::{lemma_multiply_divide_lt, lemma_mod_bound};
use vstd::arithmetic::mul::{lemma_mul_is_associative, lemma_mul_is_distributive_add_other_way};
use vstd::arithmetic::power2::{
    pow2,
    lemma2_to64,
    lemma_pow2_adds,
    lemma_pow2_pos,
    lemma_pow2_strictly_increases,
};
use vstd::bits::{
    low_bits_mask,
    lemma_u64_low_bits_mask_is_mod,
    lemma_u64_shl_is_mul,
    lemma_u64_shr_is_div,
};
use crate::code::{classify, Code, REALIGN, RESET, WIDEN};
use crate::error::DecodeError;
use crate::source::ByteStream;

verus! {

/// Width of a code, in bits, at the start of a stream and after a reset.
pub const INITIAL_WIDTH: u8 = 9;

/// Widest code that the reader accepts, in bits.
pub const MAX_WIDTH: u8 = 32;

/// The reader's state as numbers: the buffered bits read as one number, how
/// many bits are buffered, and how many bits the next code takes.
pub struct ReaderState {
    pub buffer: nat,
    pub available: nat,
    pub width: nat,
}

/// What one read does: the code or the failure, the state it leaves, and the
/// number of input bytes it takes.
pub struct ReadOutcome {
    pub result: Result<Code, DecodeError>,
    pub state: ReaderState,
    pub consumed: nat,
}

/// The bytes read as one number, first byte least significant:
/// the sum of `bytes[i] * 2^(8 * i)`.
pub open spec fn le_value(bytes: Seq<u8>) -> nat
    decreases bytes.len(),
{
    if bytes.len() == 0 {
        0
    } else {
        le_value(bytes.drop_last()) + bytes.last() as nat * pow2((8 * (bytes.len() - 1)) as nat)
    }
}

impl ReaderState {
    /// The state at the start of a stream and after a reset.
    pub open spec fn initial() -> ReaderState {
        ReaderState { buffer: 0, available: 0, width: 9 }
    }

    /// Between reads fewer bits are buffered than a code takes, the buffer
    /// holds nothing beyond them, and the width is within its limits.
    pub open spec fn wf(self) -> bool {
        &&& 9 <= self.width <= 32
        &&& self.available < self.width
        &&& self.buffer < pow2(self.available)
    }

    /// How many bytes must be taken before a code can be cut from the buffer.
    pub open spec fn bytes_needed(self) -> nat {
        if self.available >= self.width {
            0
        } else {
            ((self.width - self.available + 7) / 8) as nat
        }
    }

    /// The state after `bytes` were put on top of the buffered bits.
    pub open spec fn absorb(self, bytes: Seq<u8>) -> ReaderState {
        ReaderState {
            buffer: self.buffer + le_value(bytes) * pow2(self.available),
            available: self.available + 8 * bytes.len(),
            width: self.width,
        }
    }

    /// The low `width` bits of the buffer: the raw value of the next code.
    pub open spec fn raw(self) -> nat {
        self.buffer % pow2(self.width)
    }

    /// The state after the low `width` bits were cut from the buffer.
    pub open spec fn cut(self) -> ReaderState {
        ReaderState {
            buffer: self.buffer / pow2(self.width),
            available: (self.available - self.width) as nat,
            width: self.width,
        }
    }

    /// Whether `code` asks for a wider code than the reader accepts.
    pub open spec fn overflows(self, code: Code) -> bool {
        code == Code::Command(2) && self.width >= 32
    }

    /// The effect of a code on the reader: reset, widen and realign change it,
    /// every other code leaves it alone.
    pub open spec fn after(self, code: Code) -> ReaderState {
        if code == Code::Command(1) {
            ReaderState::initial()
        } else if code == Code::Command(2) {
            ReaderState { width: self.width + 1, ..self }
        } else if code == Code::Command(3) {
            ReaderState { buffer: 0, available: 0, width: self.width }
        } else {
            self
        }
    }

    /// One read from `input`, the bytes that the source still holds.
    ///
    /// With too few bytes left the read fails and has taken them all. Otherwise
    /// it takes exactly the bytes needed, cuts one code from the buffer,
    /// classifies it and applies its effect.
    pub open spec fn read(self, input: Seq<u8>) -> ReadOutcome {
        let need = self.bytes_needed();
        if input.len() < need {
            ReadOutcome {
                result: Err(DecodeError::TruncatedStream),
                state: self.absorb(input),
                consumed: input.len(),
            }
        } else {
            let filled = self.absorb(input.take(need as int));
            let code = classify(filled.raw());
            if filled.overflows(code) {
                ReadOutcome {
                    result: Err(DecodeError::WidthOverflow),
                    state: filled.cut(),
                    consumed: need,
                }
            } else {
                ReadOutcome { result: Ok(code), state: filled.cut().after(code), consumed: need }
            }
        }
    }
}

/// Putting one more byte on top adds it at the position of the first free bit.
pub proof fn lemma_absorb_push(state: ReaderState, bytes: Seq<u8>, byte: u8)
    ensures
        state.absorb(bytes.push(byte)) == (ReaderState {
            buffer: state.absorb(bytes).buffer + byte as nat * pow2(state.absorb(bytes).available),
            available: state.absorb(bytes).available + 8,
            width: state.width,
        }),
{
    let longer = bytes.push(byte);
    assert(longer.drop_last() =~= bytes);
    assert(longer.last() == byte);
    let high = pow2((8 * bytes.len()) as nat);
    let low = pow2(state.available);
    assert(le_value(longer) == le_value(bytes) + byte as nat * high);
    lemma_pow2_adds((8 * bytes.len()) as nat, state.available);
    assert(pow2(state.absorb(bytes).available) == high * low);
    lemma_mul_is_distributive_add_other_way(
        low as int,
        le_value(bytes) as int,
        (byte as nat * high) as int,
    );
    lemma_mul_is_associative(byte as int, high as int, low as int);
}

/// Absorbing no bytes changes nothing.
pub proof fn lemma_absorb_nothing(state: ReaderState)
    ensures
        state.absorb(Seq::<u8>::empty()) == state,
{
    assert(le_value(Seq::<u8>::empty()) * pow2(state.available) == 0) by (nonlinear_arith)
        requires
            le_value(Seq::<u8>::empty()) == 0,
    ;
}

/// A number of `n` bytes is below `2^(8 * n)`.
pub proof fn lemma_le_value_bound(bytes: Seq<u8>)
    ensures
        le_value(bytes) < pow2((8 * bytes.len()) as nat),
    decreases bytes.len(),
{
    if bytes.len() == 0 {
        lemma_pow2_pos(0);
    } else {
        let shorter = bytes.drop_last();
        let high = pow2((8 * shorter.len()) as nat);
        lemma_le_value_bound(shorter);
        lemma_pow2_adds((8 * shorter.len()) as nat, 8);
        lemma2_to64();
        assert(bytes.last() as nat * high <= 255 * high) by (nonlinear_arith)
            requires
                bytes.last() as nat <= 255,
                high >= 0,
        ;
    }
}

/// Absorbing bytes keeps the buffer within the bits that it then holds.
pub proof fn lemma_absorb_bound(state: ReaderState, bytes: Seq<u8>)
    requires
        state.buffer < pow2(state.available),
    ensures
        state.absorb(bytes).buffer < pow2(state.absorb(bytes).available),
{
    let low = pow2(state.available);
    let high = pow2((8 * bytes.len()) as nat);
    lemma_le_value_bound(bytes);
    lemma_pow2_adds((8 * bytes.len()) as nat, state.available);
    assert(le_value(bytes) * low <= (high - 1) * low) by (nonlinear_arith)
        requires
            le_value(bytes) <= high - 1,
            low >= 0,
    ;
    assert((high - 1) * low == high * low - low) by (nonlinear_arith);
}

/// A read leaves the reader as it must be between reads. It never takes
/// more bytes than there are; where it yields a code it has taken at least
/// one byte, and fewer than eight bits stay buffered.
pub proof fn lemma_read_wf(state: ReaderState, input: Seq<u8>)
    requires
        state.wf(),
    ensures
        state.read(input).state.wf(),
        state.read(input).consumed <= input.len(),
        state.read(input).result is Ok ==> state.read(input).consumed >= 1 && state.read(
            input,
        ).state.available < 8,
        state.read(input).result == Err::<Code, DecodeError>(DecodeError::TruncatedStream)
            <==> input.len() < state.bytes_needed(),
{
    let need = state.bytes_needed();
    if input.len() < need {
        lemma_absorb_bound(state, input);
    } else {
        let filled = state.absorb(input.take(need as int));
        let size = pow2(state.width);
        lemma_absorb_bound(state, input.take(need as int));
        lemma_pow2_pos(state.width);
        lemma_pow2_pos(0);
        lemma_pow2_adds(state.width, (filled.available - state.width) as nat);
        lemma_multiply_divide_lt(
            filled.buffer as int,
            size as int,
            pow2((filled.available - state.width) as nat) as int,
        );
        assert(filled.cut().wf());
    }
}

/// The width changes on two commands only: a reset sets it back to the
/// initial width, a widen command adds one bit. Between resets it therefore
/// never falls.
pub proof fn lemma_width_changes_on_command(state: ReaderState, input: Seq<u8>)
    ensures
        state.read(input).result == Ok::<Code, DecodeError>(Code::Command(1)) ==> state.read(
            input,
        ).state == ReaderState::initial(),
        state.read(input).result == Ok::<Code, DecodeError>(Code::Command(2)) ==> state.read(
            input,
        ).state.width == state.width + 1,
        state.read(input).result != Ok::<Code, DecodeError>(Code::Command(1)) && state.read(
            input,
        ).result != Ok::<Code, DecodeError>(Code::Command(2)) ==> state.read(input).state.width
            == state.width,
        state.read(input).result != Ok::<Code, DecodeError>(Code::Command(1)) ==> state.read(
            input,
        ).state.width >= state.width,
{
}

/// The raw value of the first code of a stream: the low nine bits of its
/// first two bytes, the first byte least significant.
pub open spec fn first_raw(input: Seq<u8>) -> nat {
    ((input[0] as nat + 256 * input[1] as nat) % 512) as nat
}

/// With fewer than two bytes the first read fails and takes what is there;
/// otherwise it takes two bytes and yields the code of their low nine bits.
pub proof fn lemma_first_read(input: Seq<u8>)
    ensures
        input.len() < 2 ==> ReaderState::initial().read(input).result == Err::<Code, DecodeError>(
            DecodeError::TruncatedStream,
        ) && ReaderState::initial().read(input).consumed == input.len(),
        input.len() >= 2 ==> ReaderState::initial().read(input).result == Ok::<Code, DecodeError>(
            classify(first_raw(input)),
        ) && ReaderState::initial().read(input).consumed == 2,
{
    if input.len() >= 2 {
        let pair = input.take(2);
        let single = pair.drop_last();
        let low = input[0] as nat;
        let high = input[1] as nat;
        lemma2_to64();
        assert(le_value(single.drop_last()) == 0);
        assert(single.last() == input[0]);
        assert(pow2((8 * (single.len() - 1)) as nat) == 1);
        assert(low * 1 == low) by (nonlinear_arith);
        assert(le_value(single) == low);
        assert(pair.last() == input[1]);
        assert(pow2((8 * (pair.len() - 1)) as nat) == 256);
        assert(le_value(pair) == low + high * 256);
        assert(le_value(pair) * 1 == le_value(pair)) by (nonlinear_arith);
        assert(ReaderState::initial().absorb(pair).buffer == low + high * 256);
    }
}

/// Or-ing a byte in above the buffered bits adds it, shifted, to the buffer.
proof fn lemma_or_is_add(buffer: u64, byte: u8, available: u8)
    requires
        available < 32,
        buffer < pow2(available as nat),
    ensures
        buffer | ((byte as u64) << (available as u64)) == buffer + byte as nat * pow2(
            available as nat,
        ),
        buffer + byte as nat * pow2(available as nat) < pow2((available + 8) as nat),
{
    let low = pow2(available as nat);
    let wide: u64 = byte as u64;
    let shift: u64 = available as u64;
    lemma2_to64();
    lemma_pow2_strictly_increases(available as nat, 32);
    assert(wide * low <= 255 * low) by (nonlinear_arith)
        requires
            wide <= 255,
            low >= 0,
    ;
    lemma_u64_shl_is_mul(wide, shift);
    lemma_u64_shl_is_mul(1, shift);
    let shifted: u64 = wide << shift;
    let bound: u64 = 1u64 << shift;
    assert(buffer | shifted == buffer + shifted) by (bit_vector)
        requires
            buffer < bound,
            bound == 1u64 << shift,
            shifted == wide << shift,
            shift < 32,
            wide < 256,
    ;
    lemma_pow2_adds(available as nat, 8);
}

/// Masking gives the low bits as a remainder, shifting gives the rest as a
/// quotient, and both stay within their bounds.
proof fn lemma_cut(buffer: u64, available: u8, width: u8)
    requires
        9 <= width <= 32,
        width <= available < 40,
        buffer < pow2(available as nat),
    ensures
        1u64 << (width as u64) == pow2(width as nat),
        1 <= pow2(width as nat) <= 0x1_0000_0000,
        buffer & (((1u64 << (width as u64)) - 1) as u64) == buffer as nat % pow2(width as nat),
        buffer >> (width as u64) == buffer as nat / pow2(width as nat),
        buffer as nat % pow2(width as nat) < pow2(width as nat),
        buffer as nat / pow2(width as nat) < pow2((available - width) as nat),
{
    let size = pow2(width as nat);
    lemma2_to64();
    lemma_pow2_pos(width as nat);
    if width < 32 {
        lemma_pow2_strictly_increases(width as nat, 32);
    }
    lemma_u64_shl_is_mul(1, width as u64);
    assert(low_bits_mask(width as nat) == size - 1);
    lemma_u64_low_bits_mask_is_mod(buffer, width as nat);
    lemma_u64_shr_is_div(buffer, width as u64);
    lemma_mod_bound(buffer as int, size as int);
    lemma_pow2_adds(width as nat, (available - width) as nat);
    lemma_multiply_divide_lt(buffer as int, size as int, pow2((available - width) as nat) as int);
}

/// The bit reader. It buffers bytes of the source and cuts codes from the
/// buffer, least significant bit first, at a width that the codes themselves
/// can change.
pub struct Reader {
    bit_buffer: u64,
    available: u8,
    read_width: u8,
}

impl View for Reader {
    type V = ReaderState;

    closed spec fn view(&self) -> ReaderState {
        ReaderState {
            buffer: self.bit_buffer as nat,
            available: self.available as nat,
            width: self.read_width as nat,
        }
    }
}

impl Reader {
    /// Every reader is in a state that `ReaderState::wf` accepts.
    #[verifier::type_invariant]
    pub open spec fn inv(&self) -> bool {
        self@.wf()
    }

    /// A reader with an empty buffer and the initial width.
    pub fn new() -> (reader: Reader)
        ensures
            reader@ == ReaderState::initial(),
    {
        proof {
            lemma_pow2_pos(0);
        }
        Reader { bit_buffer: 0, available: 0, read_width: INITIAL_WIDTH }
    }

    /// The number of bits that the next code takes.
    pub fn code_width(&self) -> (width: u8)
        ensures
            width == self@.width,
            9 <= width <= 32,
    {
        proof {
            use_type_invariant(self);
        }
        self.read_width
    }

    /// The number of bits that are buffered and not yet part of a code.
    pub fn available_bits(&self) -> (available: u8)
        ensures
            available == self@.available,
            available < self@.width,
    {
        proof {
            use_type_invariant(self);
        }
        self.available
    }

    /// Reads the next code from `stream` and applies its effect on the reader.
    ///
    /// Fails with `TruncatedStream` when the source runs out before the code
    /// is complete, and with `WidthOverflow` on a widen command at the
    /// greatest width.
    pub fn read(&mut self, stream: &mut ByteStream) -> (result: Result<Code, DecodeError>)
        ensures
            final(stream).bytes() == old(stream).bytes(),
            final(stream).consumed() == old(stream).consumed() + old(self)@.read(
                old(stream).remaining(),
            ).consumed,
            final(self)@ == old(self)@.read(old(stream).remaining()).state,
            result == old(self)@.read(old(stream).remaining()).result,
    {
        proof {
            use_type_invariant(&*self);
            use_type_invariant(&*stream);
        }
        let ghost start = self@;
        let ghost input = stream.remaining();
        let width = self.read_width;
        let mut buffer = self.bit_buffer;
        let mut available = self.available;
        let ghost mut taken: Seq<u8> = Seq::empty();
        proof {
            lemma_absorb_nothing(start);
        }
        while available < width
            invariant
                stream.bytes() == old(stream).bytes(),
                stream.consumed() == old(stream).consumed() + taken.len(),
                stream.consumed() <= stream.bytes().len(),
                input == old(stream).remaining(),
                taken == input.take(taken.len() as int),
                (ReaderState {
                    buffer: buffer as nat,
                    available: available as nat,
                    width: width as nat,
                }) == start.absorb(taken),
                start.width == width,
                start.available < width,
                9 <= width <= 32,
                buffer < pow2(available as nat),
                available < width + 8,
                taken.len() > 0 ==> available - 8 < width,
                self@ == start,
                start == old(self)@,
            decreases width + 8 - available,
        {
            match stream.next_byte() {
                None => {
                    assert(taken.len() == input.len());
                    assert(taken =~= input);
                    assert(taken.len() < start.bytes_needed());
                    *self = Reader { bit_buffer: buffer, available, read_width: width };
                    return Err(DecodeError::TruncatedStream);
                },
                Some(byte) => {
                    proof {
                        lemma_or_is_add(buffer, byte, available);
                        lemma_absorb_push(start, taken, byte);
                        assert(input.take(taken.len() as int + 1) =~= taken.push(byte));
                        taken = taken.push(byte);
                    }
                    buffer = buffer | ((byte as u64) << (available as u64));
                    available = available + 8;
                },
            }
        }
        proof {
            lemma_cut(buffer, available, width);
        }
        let mask: u64 = (1u64 << (width as u64)) - 1;
        let data: u64 = buffer & mask;
        let rest: u64 = buffer >> (width as u64);
        let left: u8 = available - width;
        let code = Code::from_u32(data as u32);
        proof {
            assert(taken.len() == start.bytes_needed());
            lemma_pow2_pos(0);
            lemma_pow2_strictly_increases(left as nat, width as nat);
        }
        match code {
            Code::Command(n) => {
                if n == RESET {
                    *self = Reader { bit_buffer: 0, available: 0, read_width: INITIAL_WIDTH };
                } else if n == WIDEN {
                    if width >= MAX_WIDTH {
                        *self = Reader { bit_buffer: rest, available: left, read_width: width };
                        return Err(DecodeError::WidthOverflow);
                    }
                    *self = Reader { bit_buffer: rest, available: left, read_width: width + 1 };
                } else if n == REALIGN {
                    *self = Reader { bit_buffer: 0, available: 0, read_width: width };
                } else {
                    *self = Reader { bit_buffer: rest, available: left, read_width: width };
                }
            },
            _ => {
                *self = Reader { bit_buffer: rest, available: left, read_width: width };
            },
        }
        Ok(code)
    }
}

} // verus!
