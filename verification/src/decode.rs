//! Decoding a whole stream: the reader and the decoder run in turn until the
//! stream ends or fails.

use vstd::prelude::*;
use vstd::arithmetic::power2::lemma_pow2_pos;
use crate::code::Code;
use crate::decoder::{Decoder, DecoderState};
use crate::error::DecodeError;
use crate::reader::{first_raw, lemma_first_read, lemma_read_wf, Reader, ReaderState};
use crate::source::ByteStream;

verus! {

/// How a decode ends: with the output or the failure, after taking
/// `consumed` bytes of the input.
pub struct Decoded {
    pub result: Result<Seq<u8>, DecodeError>,
    pub consumed: nat,
}

impl Decoded {
    /// The same end, reached after `out` was already written and `taken`
    /// bytes were already consumed.
    pub open spec fn after(self, out: Seq<u8>, taken: nat) -> Decoded {
        Decoded {
            result: match self.result {
                Ok(rest) => Ok(out + rest),
                Err(error) => Err(error),
            },
            consumed: taken + self.consumed,
        }
    }
}

/// Decoding `input` from the given states of the reader and the decoder.
///
/// A terminated decoder reads nothing more. Otherwise one code is read and
/// handed to the decoder; a failure of either ends the decode, and after a
/// success the rest of the input is decoded from the new states.
pub open spec fn decode_from(reader: ReaderState, decoder: DecoderState, input: Seq<u8>) -> Decoded
    decreases input.len(),
    when reader.wf()
{
    if decoder is Terminated {
        Decoded { result: Ok(Seq::empty()), consumed: 0 }
    } else {
        let read = reader.read(input);
        match read.result {
            Err(error) => Decoded { result: Err(error), consumed: read.consumed },
            Ok(code) => match decoder.step(code) {
                Err(error) => Decoded { result: Err(error), consumed: read.consumed },
                Ok((next, emitted)) => decode_from(
                    read.state,
                    next,
                    input.skip(read.consumed as int),
                ).after(emitted, read.consumed),
            },
        }
    }
}

/// Decoding `input` from the start of a stream.
pub open spec fn decode(input: Seq<u8>) -> Decoded {
    decode_from(ReaderState::initial(), DecoderState::AwaitStart, input)
}

/// A stream of fewer than two bytes is truncated: its first code needs nine
/// bits.
pub proof fn lemma_short_stream_is_truncated(input: Seq<u8>)
    requires
        input.len() < 2,
    ensures
        decode(input) == (Decoded {
            result: Err(DecodeError::TruncatedStream),
            consumed: input.len(),
        }),
{
    lemma_pow2_pos(0);
    lemma_first_read(input);
}

/// A stream whose first code is not the reset command fails after the two
/// bytes of that code, whatever follows them.
pub proof fn lemma_stream_starts_with_reset(input: Seq<u8>)
    requires
        input.len() >= 2,
        first_raw(input) != 1,
    ensures
        decode(input) == (Decoded { result: Err(DecodeError::MissingStartMarker), consumed: 2 }),
{
    lemma_pow2_pos(0);
    lemma_first_read(input);
}

/// A reset separates segments: when the next code is a reset, the rest of
/// the decode is that of a fresh segment with a reader in its initial state,
/// whatever dictionary and previous code the decoder held before.
pub proof fn lemma_reset_starts_afresh(
    reader: ReaderState,
    a: DecoderState,
    b: DecoderState,
    input: Seq<u8>,
)
    requires
        reader.wf(),
        a is Streaming,
        b is Streaming,
        reader.read(input).result == Ok::<Code, DecodeError>(Code::Command(1)),
    ensures
        decode_from(reader, a, input) == decode_from(reader, b, input),
        decode_from(reader, a, input) == decode_from(
            ReaderState::initial(),
            DecoderState::AwaitFirstLiteral,
            input.skip(reader.read(input).consumed as int),
        ).after(Seq::empty(), reader.read(input).consumed),
{
    lemma_pow2_pos(0);
}

/// Decodes the stream that `stream` holds from its current position on.
///
/// Returns the whole output once the stream has ended, and the failure
/// otherwise. Either way `stream` has then given up exactly the bytes that
/// were read; bytes behind the end of the stream stay untouched.
pub fn decompress(stream: &mut ByteStream) -> (result: Result<Vec<u8>, DecodeError>)
    ensures
        final(stream).bytes() == old(stream).bytes(),
        final(stream).consumed() == old(stream).consumed() + decode(
            old(stream).remaining(),
        ).consumed,
        match result {
            Ok(bytes) => decode(old(stream).remaining()).result == Ok::<Seq<u8>, DecodeError>(
                bytes@,
            ),
            Err(error) => decode(old(stream).remaining()).result == Err::<Seq<u8>, DecodeError>(
                error,
            ),
        },
{
    let mut reader = Reader::new();
    let mut decoder = Decoder::new();
    let mut out: Vec<u8> = Vec::new();
    let ghost whole = decode(stream.remaining());
    proof {
        use_type_invariant(&*stream);
        lemma_pow2_pos(0);
        assert(whole =~= whole.after(out@, 0)) by {
            if let Ok(rest) = whole.result {
                assert(out@ + rest =~= rest);
            }
        }
    }
    while !decoder.is_terminated()
        invariant
            stream.bytes() == old(stream).bytes(),
            old(stream).consumed() <= stream.consumed() <= stream.bytes().len(),
            reader@.wf(),
            whole == decode(old(stream).remaining()),
            whole == decode_from(reader@, decoder@, stream.remaining()).after(
                out@,
                (stream.consumed() - old(stream).consumed()) as nat,
            ),
        decreases stream.bytes().len() - stream.consumed(),
    {
        let ghost input = stream.remaining();
        let ghost before = reader@;
        let ghost written = out@;
        proof {
            lemma_read_wf(before, input);
        }
        let code = match reader.read(stream) {
            Ok(code) => code,
            Err(error) => {
                return Err(error);
            },
        };
        let ghost state = decoder@;
        decoder = match decoder.step(code, &mut out) {
            Ok(next) => next,
            Err(error) => {
                return Err(error);
            },
        };
        proof {
            let taken = before.read(input).consumed;
            let emitted = state.step(code).unwrap().1;
            let rest = decode_from(reader@, decoder@, input.skip(taken as int));
            assert(stream.remaining() =~= input.skip(taken as int));
            if let Ok(tail) = rest.result {
                assert(written + (emitted + tail) =~= (written + emitted) + tail);
            }
        }
    }
    Ok(out)
}

} // verus!
