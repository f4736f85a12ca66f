//! The other side of the wire: how codes are laid out into bytes, and that
//! what is laid out decodes again.
//!
//! Nothing here runs. The layout is the yardstick for the decoder: it writes
//! each code at the width and the position at which the reader expects it,
//! and the laws say that decoding a layout gives back what the decoder's
//! steps make of its codes.

use vstd::prelude::*;
use vstd::arithmetic::div_mod::{lemma_basic_div, lemma_fundamental_div_mod, lemma_mod_bound, lemma_small_mod};
use vstd::arithmetic::power2::{lemma2_to64, lemma_pow2_adds, lemma_pow2_pos, pow2};
use crate::code::{classify, Code};
use crate::decode::decode;
use crate::decoder::{lemma_literal_stream_decodes, literal_stream, DecoderState};
use crate::error::DecodeError;
use crate::reader::le_value;
use crate::wire::{
    bytes_for,
    codes_of,
    lays_out,
    lemma_add_multiple,
    lemma_decode_is_decode_bits,
    lemma_decode_of_laid_out_codes,
    position_after,
    width_after,
};

verus! {

/// Whether the raw values can be written from `width` bits on: each fits
/// the width that the codes before it have set, and none is a widen command
/// at the greatest width.
pub open spec fn fits(raws: Seq<nat>, width: nat) -> bool
    decreases raws.len(),
{
    raws.len() > 0 ==> {
        let code = classify(raws[0]);
        &&& raws[0] < pow2(width)
        &&& !(code == Code::Command(2) && width >= 32)
        &&& fits(raws.drop_first(), width_after(width, code))
    }
}

/// The bit position behind the last of the codes, where the first starts at
/// `position`.
pub open spec fn end_of(raws: Seq<nat>, width: nat, position: nat) -> nat
    decreases raws.len(),
{
    if raws.len() == 0 {
        position
    } else {
        let code = classify(raws[0]);
        end_of(
            raws.drop_first(),
            width_after(width, code),
            position_after(position + width, code),
        )
    }
}

/// The codes written one after the other, as one number whose lowest bit is
/// the bit at `position`: each raw value at its place, zero bits in the gaps
/// that lead up to a byte boundary.
pub open spec fn laid(raws: Seq<nat>, width: nat, position: nat) -> nat
    decreases raws.len(),
{
    if raws.len() == 0 {
        0
    } else {
        let code = classify(raws[0]);
        let next = position_after(position + width, code);
        raws[0] + pow2((next - position) as nat) * laid(
            raws.drop_first(),
            width_after(width, code),
            next,
        )
    }
}

/// The `len` low bytes of `n`, least significant first.
pub open spec fn le_bytes(n: nat, len: nat) -> Seq<u8>
    decreases len,
{
    if len == 0 {
        Seq::empty()
    } else {
        let high = pow2((8 * (len - 1)) as nat);
        le_bytes(n % high, (len - 1) as nat).push((n / high) as u8)
    }
}

/// The bytes of a stream with the raw values `raws`, from the initial width
/// on.
pub open spec fn pack(raws: Seq<nat>) -> Seq<u8> {
    le_bytes(laid(raws, 9, 0), bytes_for(end_of(raws, 9, 0)))
}

/// Codes that fit take no more bits than lie between their start and
/// their end.
pub proof fn lemma_laid_bound(raws: Seq<nat>, width: nat, position: nat)
    requires
        fits(raws, width),
    ensures
        position <= end_of(raws, width, position),
        raws.len() > 0 ==> position + width <= end_of(raws, width, position),
        laid(raws, width, position) < pow2((end_of(raws, width, position) - position) as nat),
    decreases raws.len(),
{
    if raws.len() == 0 {
        lemma_pow2_pos(0);
    } else {
        let code = classify(raws[0]);
        let next = position_after(position + width, code);
        let after = width_after(width, code);
        let rest = raws.drop_first();
        let end = end_of(raws, width, position);
        lemma_laid_bound(rest, after, next);
        let gap = (next - position) as nat;
        let span = (end - next) as nat;
        let above = laid(rest, after, next);
        let pg = pow2(gap);
        let ps = pow2(span);
        let pw = pow2(width);
        lemma_pow2_adds(width, (gap - width) as nat);
        lemma_pow2_pos((gap - width) as nat);
        assert(pw <= pg) by (nonlinear_arith)
            requires
                pg == pw * pow2((gap - width) as nat),
                pow2((gap - width) as nat) >= 1,
                pw >= 0,
        ;
        lemma_pow2_adds(gap, span);
        assert(raws[0] + pg * above < pg * ps) by (nonlinear_arith)
            requires
                raws[0] < pg,
                above < ps,
                pg >= 0,
        ;
    }
}

/// The low bytes of a number that they can hold are that number.
pub proof fn lemma_le_bytes_value(n: nat, len: nat)
    requires
        n < pow2(8 * len),
    ensures
        le_bytes(n, len).len() == len,
        le_value(le_bytes(n, len)) == n,
    decreases len,
{
    if len > 0 {
        let high = pow2((8 * (len - 1)) as nat);
        lemma_pow2_pos((8 * (len - 1)) as nat);
        lemma_pow2_adds((8 * (len - 1)) as nat, 8);
        lemma2_to64();
        lemma_mod_bound(n as int, high as int);
        lemma_fundamental_div_mod(n as int, high as int);
        assert(n / high < 256) by (nonlinear_arith)
            requires
                n < high * 256,
                high > 0,
                n == high * (n / high) + n % high,
                n % high >= 0,
        ;
        lemma_le_bytes_value(n % high, (len - 1) as nat);
        let shorter = le_bytes(n % high, (len - 1) as nat);
        let whole = le_bytes(n, len);
        assert(whole.drop_last() =~= shorter);
        assert(whole.last() == (n / high) as u8);
        assert((n / high) * high == high * (n / high)) by (nonlinear_arith);
    } else {
        lemma2_to64();
    }
}

/// Where an input's bits from `position` on are the layout of `raws`, the
/// input holds these codes.
pub proof fn lemma_layout_holds_the_codes(
    input: Seq<u8>,
    width: nat,
    position: nat,
    raws: Seq<nat>,
    low: nat,
)
    requires
        fits(raws, width),
        low < pow2(position),
        le_value(input) == low + pow2(position) * laid(raws, width, position),
        end_of(raws, width, position) <= 8 * input.len(),
    ensures
        lays_out(input, width, position, raws),
    decreases raws.len(),
{
    if raws.len() > 0 {
        let raw = raws[0];
        let code = classify(raw);
        let next = position_after(position + width, code);
        let after = width_after(width, code);
        let rest = raws.drop_first();
        let above = laid(rest, after, next);
        let gap = (next - position) as nat;
        let pp = pow2(position);
        let pw = pow2(width);
        let pg = pow2(gap);
        let slack = pow2((gap - width) as nat);
        lemma_laid_bound(rest, after, next);
        lemma_pow2_pos(position);
        lemma_pow2_pos(width);
        lemma_pow2_adds(width, (gap - width) as nat);
        lemma_pow2_adds(position, gap);
        lemma_pow2_adds(position, width);
        lemma_pow2_pos((gap - width) as nat);
        // The code itself.
        let here = raw + pg * above;
        assert(pp * here == here * pp) by (nonlinear_arith);
        lemma_add_multiple(low, here, pp);
        lemma_basic_div(low as int, pp as int);
        assert(pg * above == (slack * above) * pw) by (nonlinear_arith)
            requires
                pg == pw * slack,
        ;
        lemma_add_multiple(raw, slack * above, pw);
        lemma_small_mod(raw, pw);
        // What follows it.
        let below = low + pp * raw;
        assert(below < pp * pw) by (nonlinear_arith)
            requires
                below == low + pp * raw,
                low < pp,
                raw < pw,
        ;
        assert(pp * pw <= pp * pg) by (nonlinear_arith)
            requires
                pg == pw * slack,
                slack >= 1,
                pp >= 0,
                pw >= 0,
        ;
        assert(pp * (raw + pg * above) == pp * raw + (pp * pg) * above) by (nonlinear_arith);
        lemma_layout_holds_the_codes(input, after, next, rest, below);
    }
}

/// The packed bytes hold the codes that were packed.
pub proof fn lemma_pack_lays_out(raws: Seq<nat>)
    requires
        fits(raws, 9),
    ensures
        lays_out(pack(raws), 9, 0, raws),
        pack(raws).len() == bytes_for(end_of(raws, 9, 0)),
{
    let end = end_of(raws, 9, 0);
    let len = bytes_for(end);
    let number = laid(raws, 9, 0);
    lemma_laid_bound(raws, 9, 0);
    lemma_pow2_adds(end, (8 * len - end) as nat);
    lemma_pow2_pos((8 * len - end) as nat);
    assert(number < pow2(8 * len)) by (nonlinear_arith)
        requires
            number < pow2(end),
            pow2(8 * len) == pow2(end) * pow2((8 * len - end) as nat),
            pow2((8 * len - end) as nat) >= 1,
    ;
    lemma_le_bytes_value(number, len);
    lemma2_to64();
    assert(pow2(0) * number == number) by (nonlinear_arith)
        requires
            pow2(0) == 1,
    ;
    lemma_layout_holds_the_codes(pack(raws), 9, 0, raws, 0);
}

/// Packing and decoding is running the decoder on the codes: where the
/// decoder's steps on the codes end the stream, decoding the packed bytes
/// yields what they wrote, and where they fail, it fails in the same way.
pub proof fn lemma_pack_round_trip(raws: Seq<nat>)
    requires
        fits(raws, 9),
    ensures
        DecoderState::AwaitStart.steps(codes_of(raws)) matches Ok((last, out))
            ==> last is Terminated ==> decode(pack(raws)).result == Ok::<Seq<u8>, DecodeError>(
            out,
        ),
        DecoderState::AwaitStart.steps(codes_of(raws)) matches Err(error) ==> decode(
            pack(raws),
        ).result == Err::<Seq<u8>, DecodeError>(error),
{
    lemma_pack_lays_out(raws);
    lemma_decode_of_laid_out_codes(9, DecoderState::AwaitStart, pack(raws), 0, raws);
    lemma_decode_is_decode_bits(pack(raws));
}

/// The raw values of the plainest stream of codes for `bytes`: a reset,
/// every byte but the last as a literal, the end-of-stream command, the
/// last byte as a literal.
pub open spec fn literal_raws(bytes: Seq<u8>) -> Seq<nat> {
    Seq::new(
        bytes.len() + 1,
        |i: int|
            if i == 0 {
                1nat
            } else if i == bytes.len() {
                3nat
            } else {
                bytes[i - 1] as nat + 8
            },
    ).push(bytes.last() as nat + 8)
}

/// Raw values of nine bits with no widen command among them fit the
/// initial width.
pub proof fn lemma_narrow_codes_fit(raws: Seq<nat>)
    requires
        forall|i: int| 0 <= i < raws.len() ==> #[trigger] raws[i] < 512 && raws[i] != 2,
    ensures
        fits(raws, 9),
    decreases raws.len(),
{
    if raws.len() > 0 {
        lemma2_to64();
        let rest = raws.drop_first();
        assert forall|i: int| 0 <= i < rest.len() implies #[trigger] rest[i] < 512 && rest[i]
            != 2 by {
            assert(rest[i] == raws[i + 1]);
        }
        lemma_narrow_codes_fit(rest);
    }
}

/// Round trip: every sequence of two bytes or more, packed as a stream of
/// literals, decodes to itself.
pub proof fn lemma_literal_stream_round_trip(bytes: Seq<u8>)
    requires
        bytes.len() >= 2,
    ensures
        decode(pack(literal_raws(bytes))).result == Ok::<Seq<u8>, DecodeError>(bytes),
{
    let raws = literal_raws(bytes);
    assert(codes_of(raws) =~= literal_stream(bytes));
    lemma_literal_stream_decodes(bytes);
    lemma_narrow_codes_fit(raws);
    lemma_pack_round_trip(raws);
}

} // verus!
