//! An in-memory byte source that is read front to back.

use vstd::prelude::*;

verus! {

/// A sequence of input bytes together with the number of bytes already taken
/// from its front.
pub struct ByteStream {
    data: Vec<u8>,
    pos: usize,
}

impl ByteStream {
    /// All bytes of the source, taken or not.
    pub closed spec fn bytes(&self) -> Seq<u8> {
        self.data@
    }

    /// How many bytes have been taken.
    pub closed spec fn consumed(&self) -> nat {
        self.pos as nat
    }

    /// No more bytes have been taken than the source holds.
    #[verifier::type_invariant]
    pub open spec fn inv(&self) -> bool {
        self.consumed() <= self.bytes().len()
    }

    /// The bytes that have not been taken yet.
    pub open spec fn remaining(&self) -> Seq<u8> {
        self.bytes().skip(self.consumed() as int)
    }

    /// A source positioned before the first byte of `data`.
    pub fn new(data: Vec<u8>) -> (stream: ByteStream)
        ensures
            stream.bytes() == data@,
            stream.consumed() == 0,
    {
        ByteStream { data, pos: 0 }
    }

    /// Takes the next byte, or reports that the source is exhausted.
    pub fn next_byte(&mut self) -> (byte: Option<u8>)
        ensures
            final(self).bytes() == old(self).bytes(),
            old(self).consumed() < old(self).bytes().len() ==> byte == Some(
                old(self).bytes()[old(self).consumed() as int],
            ) && final(self).consumed() == old(self).consumed() + 1,
            old(self).consumed() >= old(self).bytes().len() ==> byte.is_none()
                && final(self).consumed() == old(self).consumed(),
    {
        proof {
            use_type_invariant(&*self);
        }
        if self.pos < self.data.len() {
            let byte = self.data[self.pos];
            self.pos = self.pos + 1;
            Some(byte)
        } else {
            None
        }
    }

    /// The number of bytes taken so far.
    pub fn position(&self) -> (pos: usize)
        ensures
            pos == self.consumed(),
            pos <= self.bytes().len(),
    {
        proof {
            use_type_invariant(self);
        }
        self.pos
    }

    /// The number of bytes the source holds in all.
    pub fn len(&self) -> (len: usize)
        ensures
            len == self.bytes().len(),
    {
        self.data.len()
    }
}

} // verus!
