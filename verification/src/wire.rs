//! The wire format: where in the input's bits each code lies.
//!
//! The reader is defined by what it does to its buffer. The laws here say
//! what that comes to on the wire: the input is one string of bits, bit `i`
//! of it is bit `i % 8` of byte `i / 8`, and each code is the next `width`
//! bits of that string, except that a reset and a realign command skip to
//! the next byte boundary.

use vstd::prelude::*;
use vstd::arithmetic::div_mod::{
    lemma_basic_div,
    lemma_div_denominator,
    lemma_hoist_over_denominator,
    lemma_mod_multiples_vanish,
};
use vstd::arithmetic::power2::{lemma2_to64, lemma_pow2_adds, lemma_pow2_pos, pow2};
use crate::code::{classify, Code};
use crate::decode::{decode, decode_from, Decoded};
use crate::decoder::DecoderState;
use crate::error::DecodeError;
use crate::reader::{le_value, lemma_le_value_bound, lemma_read_wf, ReaderState};

verus! {

/// The `count` bits of `input` that start at bit `from`, as a number whose
/// least significant bit is the first of them.
pub open spec fn bits_at(input: Seq<u8>, from: nat, count: nat) -> nat {
    (le_value(input) / pow2(from)) % pow2(count)
}

/// The number of bytes that hold the first `bits` bits.
pub open spec fn bytes_for(bits: nat) -> nat {
    (bits + 7) / 8
}

/// The reader stands at bit `position` of `input`: it has taken the bytes
/// that hold the bits before that position, and it buffers the bits of the
/// last of these bytes that lie behind the position.
pub open spec fn reads_at(state: ReaderState, input: Seq<u8>, position: nat) -> bool {
    let taken = bytes_for(position);
    &&& taken <= input.len()
    &&& state.available + position == 8 * taken
    &&& state.buffer == le_value(input.take(taken as int)) / pow2(position)
}

/// Adding a multiple of the divisor adds to the quotient and leaves the
/// remainder.
pub(crate) proof fn lemma_add_multiple(x: nat, y: nat, d: nat)
    requires
        d > 0,
    ensures
        (x + y * d) / d == x / d + y,
        (x + y * d) % d == x % d,
{
    lemma_hoist_over_denominator(x as int, y as int, d);
    lemma_mod_multiples_vanish(y as int, x as int, d as int);
    assert(y * d == d * y) by (nonlinear_arith);
}

/// A number of bytes is its first `m` bytes plus the rest, shifted up by
/// `8 * m` bits.
pub proof fn lemma_le_value_split(bytes: Seq<u8>, m: nat)
    requires
        m <= bytes.len(),
    ensures
        le_value(bytes) == le_value(bytes.take(m as int)) + le_value(bytes.skip(m as int)) * pow2(
            8 * m,
        ),
    decreases bytes.len(),
{
    if m == bytes.len() {
        assert(bytes.take(m as int) =~= bytes);
        assert(bytes.skip(m as int).len() == 0);
        assert(0 * pow2(8 * m) == 0) by (nonlinear_arith);
    } else {
        let shorter = bytes.drop_last();
        let tail = bytes.skip(m as int);
        lemma_le_value_split(shorter, m);
        assert(shorter.take(m as int) =~= bytes.take(m as int));
        assert(shorter.skip(m as int) =~= tail.drop_last());
        assert(tail.last() == bytes.last());
        let last = bytes.last() as nat;
        let inner = le_value(tail.drop_last());
        let up = pow2(8 * m);
        let high = pow2((8 * (tail.len() - 1)) as nat);
        lemma_pow2_adds((8 * (tail.len() - 1)) as nat, 8 * m);
        assert(pow2((8 * (bytes.len() - 1)) as nat) == high * up);
        assert((inner + last * high) * up == inner * up + last * (high * up)) by (nonlinear_arith);
    }
}

/// Bit `i` of the input is bit `i % 8` of byte `i / 8`: within a byte the
/// least significant bit comes first.
pub proof fn lemma_bits_are_least_significant_first(input: Seq<u8>, i: nat)
    requires
        i < 8 * input.len(),
    ensures
        bits_at(input, i, 1) == (input[(i / 8) as int] as nat / pow2(i % 8)) % 2,
{
    let k = i / 8;
    let j = i % 8;
    let front = le_value(input.take(k as int));
    let back = input.skip(k as int);
    let byte = input[k as int] as nat;
    let above = le_value(back.skip(1));
    let whole = pow2(8 * k);
    let part = pow2(j);
    lemma2_to64();
    lemma_pow2_pos(8 * k);
    lemma_pow2_pos(j);
    // Everything below byte k falls away.
    lemma_le_value_split(input, k);
    lemma_le_value_bound(input.take(k as int));
    lemma_basic_div(front as int, whole as int);
    lemma_add_multiple(front, le_value(back), whole);
    assert(le_value(input) / whole == le_value(back));
    // Byte k is at the bottom of what is left.
    lemma_le_value_split(back, 1);
    assert(back.take(1).drop_last().len() == 0);
    assert(back.take(1).last() == input[k as int]);
    assert(le_value(back.take(1)) == byte) by {
        assert(le_value(back.take(1).drop_last()) == 0);
        assert(byte * 1 == byte) by (nonlinear_arith);
    }
    assert(le_value(back) == byte + above * 256);
    // Shift down by the bits of byte k that come first.
    lemma_pow2_adds(8 * k, j);
    lemma_div_denominator(le_value(input) as int, whole as int, part as int);
    assert(le_value(input) / pow2(i) == le_value(back) / part);
    let rest = pow2((7 - j) as nat);
    lemma_pow2_adds(j, (7 - j) as nat);
    assert(above * 256 == (above * rest * 2) * part) by (nonlinear_arith)
        requires
            part * rest == 128,
    ;
    lemma_add_multiple(byte, above * rest * 2, part);
    lemma_add_multiple(byte / part, above * rest, 2);
}

/// Each read cuts the next `width` bits from the input.
///
/// A reader that stands at a bit position fails as truncated if and only if
/// the input ends before the code does. Otherwise the code it yields is the
/// one of the next `width` bits, it has then taken the bytes that hold them,
/// and it stands behind them: at the next bit after any code but a reset or
/// a realign command, and at the next byte boundary after these two.
pub proof fn lemma_read_cuts_the_next_bits(state: ReaderState, input: Seq<u8>, position: nat)
    requires
        state.wf(),
        reads_at(state, input, position),
    ensures
        ({
            let taken = bytes_for(position);
            let end = position + state.width;
            let outcome = state.read(input.skip(taken as int));
            let code = classify(bits_at(input, position, state.width));
            &&& 8 * input.len() < end ==> outcome.result == Err::<Code, DecodeError>(
                DecodeError::TruncatedStream,
            ) && taken + outcome.consumed == input.len()
            &&& 8 * input.len() >= end ==> {
                &&& taken + outcome.consumed == bytes_for(end)
                &&& outcome.result == if state.overflows(code) {
                    Err::<Code, DecodeError>(DecodeError::WidthOverflow)
                } else {
                    Ok::<Code, DecodeError>(code)
                }
                &&& reads_at(
                    outcome.state,
                    input,
                    if code == Code::Command(1) || code == Code::Command(3) {
                        8 * bytes_for(end)
                    } else {
                        end
                    },
                )
            }
        }),
{
    let w = state.width;
    let a = state.available;
    let p = position;
    let c = bytes_for(p);
    let rest = input.skip(c as int);
    let need = state.bytes_needed();
    let end = p + w;
    assert(c + need == bytes_for(end));
    if 8 * input.len() >= end {
        let m = c + need;
        let chunk = rest.take(need as int);
        let head = input.take(m as int);
        let vc = le_value(input.take(c as int));
        let vm = le_value(head);
        let k = le_value(chunk);
        let t = le_value(input.skip(m as int));
        let pp = pow2(p);
        let pa = pow2(a);
        let pw = pow2(w);
        let extra = (8 * m - end) as nat;
        let pe = pow2(extra);
        lemma_pow2_pos(p);
        lemma_pow2_pos(w);
        // The bytes taken so far and the bytes of this read, as one number.
        lemma_le_value_split(head, c);
        assert(head.take(c as int) =~= input.take(c as int));
        assert(head.skip(c as int) =~= chunk);
        lemma_pow2_adds(p, a);
        assert(k * (pp * pa) == (k * pa) * pp) by (nonlinear_arith);
        lemma_add_multiple(vc, k * pa, pp);
        let filled = state.absorb(chunk);
        assert(filled.buffer == vm / pp);
        // What lies behind these bytes does not reach the code.
        lemma_le_value_split(input, m);
        lemma_pow2_adds(p, w + extra);
        lemma_pow2_adds(w, extra);
        assert(t * (pp * (pw * pe)) == ((t * pe) * pw) * pp) by (nonlinear_arith);
        lemma_add_multiple(vm, (t * pe) * pw, pp);
        lemma_add_multiple(vm / pp, t * pe, pw);
        assert(filled.raw() == bits_at(input, p, w));
        // Behind the code.
        lemma_pow2_adds(p, w);
        lemma_div_denominator(vm as int, pp as int, pw as int);
        assert(reads_at(filled.cut(), input, end));
        // At the byte boundary nothing is buffered.
        lemma_le_value_bound(head);
        lemma_basic_div(vm as int, pow2(8 * m) as int);
        assert(bytes_for(8 * m) == m);
    }
}

/// A reader in its initial state stands at the first bit of any input.
pub proof fn lemma_initial_reader_stands_at_start(input: Seq<u8>)
    ensures
        ReaderState::initial().wf(),
        reads_at(ReaderState::initial(), input, 0),
{
    lemma2_to64();
    assert(input.take(0).len() == 0);
}

/// The width of the codes that follow `code`.
pub open spec fn width_after(width: nat, code: Code) -> nat {
    if code == Code::Command(1) {
        9
    } else if code == Code::Command(2) {
        width + 1
    } else {
        width
    }
}

/// The bit at which the code after `code` starts, where `code` ends before
/// bit `end`.
pub open spec fn position_after(end: nat, code: Code) -> nat {
    if code == Code::Command(1) || code == Code::Command(3) {
        8 * bytes_for(end)
    } else {
        end
    }
}

/// Decoding stated over the input's bits alone: from bit `position` on, at
/// `width` bits a code, with the decoder in state `decoder`. The count of
/// bytes taken is that from the start of `input`.
pub open spec fn decode_bits(
    width: nat,
    decoder: DecoderState,
    input: Seq<u8>,
    position: nat,
) -> Decoded
    decreases 8 * input.len() - position,
    when width > 0
{
    let end = position + width;
    let code = classify(bits_at(input, position, width));
    if decoder is Terminated {
        Decoded { result: Ok(Seq::empty()), consumed: bytes_for(position) }
    } else if 8 * input.len() < end {
        Decoded { result: Err(DecodeError::TruncatedStream), consumed: input.len() }
    } else if code == Code::Command(2) && width >= 32 {
        Decoded { result: Err(DecodeError::WidthOverflow), consumed: bytes_for(end) }
    } else {
        match decoder.step(code) {
            Err(error) => Decoded { result: Err(error), consumed: bytes_for(end) },
            Ok((next, emitted)) => decode_bits(
                width_after(width, code),
                next,
                input,
                position_after(end, code),
            ).after(emitted, 0),
        }
    }
}

/// Decoding with the reader is decoding the input's bits: from a reader that
/// stands at a bit position, the decode ends as `decode_bits` says.
pub proof fn lemma_decode_follows_the_bits(
    reader: ReaderState,
    decoder: DecoderState,
    input: Seq<u8>,
    position: nat,
)
    requires
        reader.wf(),
        reads_at(reader, input, position),
    ensures
        decode_from(reader, decoder, input.skip(bytes_for(position) as int)).after(
            Seq::empty(),
            bytes_for(position),
        ) == decode_bits(reader.width, decoder, input, position),
    decreases 8 * input.len() - position,
{
    let taken = bytes_for(position);
    let rest = input.skip(taken as int);
    let end = position + reader.width;
    let here = decode_from(reader, decoder, rest);
    if decoder is Terminated {
        assert(Seq::<u8>::empty() + Seq::<u8>::empty() =~= Seq::<u8>::empty());
    } else {
        lemma_read_cuts_the_next_bits(reader, input, position);
        lemma_read_wf(reader, rest);
        let outcome = reader.read(rest);
        if let Ok(code) = outcome.result {
            if let Ok((next, emitted)) = decoder.step(code) {
                let onward = position_after(end, code);
                let tail = decode_from(outcome.state, next, rest.skip(outcome.consumed as int));
                assert(bytes_for(onward) == taken + outcome.consumed);
                assert(rest.skip(outcome.consumed as int) =~= input.skip(bytes_for(onward) as int));
                lemma_decode_follows_the_bits(outcome.state, next, input, onward);
                assert(outcome.state.width == width_after(reader.width, code));
                if let Ok(bytes) = tail.result {
                    assert(Seq::<u8>::empty() + (emitted + bytes) =~= emitted + (Seq::<u8>::empty()
                        + bytes));
                }
            }
        }
    }
}

/// Decoding a stream is decoding its bits from the first one on, at nine
/// bits a code.
pub proof fn lemma_decode_is_decode_bits(input: Seq<u8>)
    ensures
        decode(input) == decode_bits(9, DecoderState::AwaitStart, input, 0),
{
    lemma_initial_reader_stands_at_start(input);
    lemma_decode_follows_the_bits(ReaderState::initial(), DecoderState::AwaitStart, input, 0);
    assert(input.skip(0) =~= input);
    let whole = decode(input);
    if let Ok(bytes) = whole.result {
        assert(Seq::<u8>::empty() + bytes =~= bytes);
    }
}

/// The input holds the codes with the raw values `raws`, one after the
/// other, from bit `position` on and at `width` bits for the first: each in
/// full, each where the code before it says the next one starts, and none of
/// them a widen command that the reader refuses.
pub open spec fn lays_out(input: Seq<u8>, width: nat, position: nat, raws: Seq<nat>) -> bool
    decreases raws.len(),
{
    raws.len() > 0 ==> {
        let code = classify(raws[0]);
        &&& position + width <= 8 * input.len()
        &&& bits_at(input, position, width) == raws[0]
        &&& !(code == Code::Command(2) && width >= 32)
        &&& lays_out(
            input,
            width_after(width, code),
            position_after(position + width, code),
            raws.drop_first(),
        )
    }
}

/// The codes of the raw values `raws`.
pub open spec fn codes_of(raws: Seq<nat>) -> Seq<Code> {
    Seq::new(raws.len(), |i: int| classify(raws[i]))
}

/// A decoder that has terminated takes any codes and stays as it is.
pub proof fn lemma_terminated_takes_anything(codes: Seq<Code>)
    ensures
        DecoderState::Terminated.steps(codes) == Ok::<(DecoderState, Seq<u8>), DecodeError>(
            (DecoderState::Terminated, Seq::empty()),
        ),
    decreases codes.len(),
{
    if codes.len() > 0 {
        lemma_terminated_takes_anything(codes.drop_first());
        assert(Seq::<u8>::empty() + Seq::<u8>::empty() =~= Seq::<u8>::empty());
    }
}

/// Decoding is the decoder's steps on the codes that the input holds: where
/// the steps on these codes end the stream, the decode yields what they
/// wrote, and where they fail, the decode fails in the same way.
pub proof fn lemma_decode_of_laid_out_codes(
    width: nat,
    decoder: DecoderState,
    input: Seq<u8>,
    position: nat,
    raws: Seq<nat>,
)
    requires
        width > 0,
        lays_out(input, width, position, raws),
    ensures
        decoder.steps(codes_of(raws)) matches Ok((last, out)) ==> last is Terminated
            ==> decode_bits(width, decoder, input, position).result == Ok::<Seq<u8>, DecodeError>(
            out,
        ),
        decoder.steps(codes_of(raws)) matches Err(error) ==> decode_bits(
            width,
            decoder,
            input,
            position,
        ).result == Err::<Seq<u8>, DecodeError>(error),
    decreases raws.len(),
{
    let codes = codes_of(raws);
    if decoder is Terminated {
        lemma_terminated_takes_anything(codes);
    } else if raws.len() > 0 {
        let code = classify(raws[0]);
        assert(codes[0] == code);
        assert(codes.drop_first() =~= codes_of(raws.drop_first()));
        if let Ok((next, emitted)) = decoder.step(code) {
            lemma_decode_of_laid_out_codes(
                width_after(width, code),
                next,
                input,
                position_after(position + width, code),
                raws.drop_first(),
            );
        }
    }
}

} // verus!
