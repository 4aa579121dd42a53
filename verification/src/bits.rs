//! Bit fields of a frame payload.

use crate::dbc::ByteOrder;
use vstd::arithmetic::power2::{
    lemma2_to64, lemma_pow2_pos, lemma_pow2_strictly_increases, lemma_pow2_unfold, pow2,
};
use vstd::prelude::*;

verus! {

/// Bit number `pos` of the payload, where bit 0 of each byte is its least
/// significant bit.
pub open spec fn payload_bit(data: Seq<u8>, pos: int) -> int {
    (data[pos / 8] as int / pow2((pos % 8) as nat) as int) % 2
}

/// The number in the `length` bits from `start` on, the least significant
/// bit first.
pub open spec fn intel_value(data: Seq<u8>, start: int, length: int) -> int
    decreases length,
{
    if length <= 0 {
        0
    } else {
        intel_value(data, start, length - 1) + payload_bit(data, start + length - 1) * pow2(
            (length - 1) as nat,
        )
    }
}

/// The place of bit number `pos` when the bits of the payload are counted
/// from the most significant bit of the first byte on. It is its own inverse.
#[verifier::opaque]
pub open spec fn mirrored(pos: int) -> int {
    pos - pos % 8 + 7 - pos % 8
}

/// Walking from a bit to the next less significant one of a Motorola field
/// is one step in the mirrored count.
pub proof fn lemma_mirrored(pos: int)
    requires
        pos >= 0,
    ensures
        mirrored(mirrored(pos)) == pos,
        8 * (pos / 8) <= mirrored(pos) < 8 * (pos / 8) + 8,
        mirrored(if pos % 8 == 0 {
            pos + 15
        } else {
            pos - 1
        }) == mirrored(pos) + 1,
{
    reveal(mirrored);
}

/// The number in `length` bits, the most significant first, from place `from`
/// on, counted from the most significant bit of the first byte.
pub open spec fn motorola_value(data: Seq<u8>, from: int, length: int) -> int
    decreases length,
{
    if length <= 0 {
        0
    } else {
        2 * motorola_value(data, from, length - 1) + payload_bit(
            data,
            mirrored(from + length - 1),
        )
    }
}

/// The raw (unscaled) number of a bit field, or `None` where it does not fit
/// inside the payload. The start is the least significant bit of an Intel
/// field and the most significant bit of a Motorola field.
pub open spec fn raw_value(
    data: Seq<u8>,
    byte_order: ByteOrder,
    start: int,
    length: int,
) -> Option<int> {
    match byte_order {
        ByteOrder::Intel => if start + length > 8 * data.len() {
            None
        } else {
            Some(intel_value(data, start, length))
        },
        ByteOrder::Motorola => if length > 0 && mirrored(start) + length > 8 * data.len() {
            None
        } else {
            Some(motorola_value(data, mirrored(start), length))
        },
    }
}

/// A field of `length` bits holds a number below 2 to the `length`.
pub proof fn lemma_value_range(data: Seq<u8>, start: int, length: int)
    requires
        length >= 0,
    ensures
        0 <= intel_value(data, start, length) < pow2(length as nat),
        0 <= motorola_value(data, start, length) < pow2(length as nat),
    decreases length,
{
    lemma2_to64();
    if length > 0 {
        lemma_value_range(data, start, length - 1);
        lemma_pow2_unfold(length as nat);
        let bit = payload_bit(data, start + length - 1);
        let weight = pow2((length - 1) as nat) as int;
        assert(bit == 0 || bit == 1);
        assert(bit * weight == (if bit == 0 {
            0
        } else {
            weight
        })) by (nonlinear_arith)
            requires
                bit == 0 || bit == 1,
        ;
    }
}

/// Read bit number `pos`.
fn bit_at(data: &[u8], pos: usize) -> (r: u64)
    requires
        pos / 8 < data@.len(),
    ensures
        r == payload_bit(data@, pos as int),
        r <= 1,
{
    let byte: u8 = data[pos / 8];
    let shift: u8 = (pos % 8) as u8;
    proof {
        lemma2_to64();
        assert(shift < 8 ==> (byte >> shift) & 1 == (byte >> shift) % 2) by (bit_vector);
        vstd::bits::lemma_u8_shr_is_div(byte, shift);
    }
    ((byte >> shift) & 1) as u64
}

/// Extract the raw bits of a field. Returns `None` when the field does not
/// fit inside the payload.
pub fn extract_bits(
    data: &[u8],
    byte_order: ByteOrder,
    start_bit: u16,
    bit_length: u16,
) -> (r: Option<u64>)
    requires
        bit_length <= 64,
        data@.len() <= 64,
    ensures
        match r {
            Some(raw) => raw_value(data@, byte_order, start_bit as int, bit_length as int) == Some(
                raw as int,
            ),
            None => raw_value(data@, byte_order, start_bit as int, bit_length as int) is None,
        },
{
    let len: usize = data.len();
    let start: usize = start_bit as usize;
    let length: usize = bit_length as usize;
    let mut raw: u64 = 0;
    let mut i: usize = 0;
    match byte_order {
        ByteOrder::Intel => {
            if start + length > 8 * len {
                return None;
            }
            while i < length
                invariant
                    start == start_bit,
                    length == bit_length,
                    i <= length <= 64,
                    len == data@.len() <= 64,
                    start + length <= 8 * len,
                    raw == intel_value(data@, start as int, i as int),
                decreases length - i,
            {
                let bit: u64 = bit_at(data, start + i);
                proof {
                    lemma_value_range(data@, start as int, i + 1);
                    lemma2_to64();
                    if i + 1 < 64 {
                        lemma_pow2_strictly_increases((i + 1) as nat, 64);
                    }
                    assert(bit * pow2(i as nat) <= u64::MAX);
                    vstd::bits::lemma_u64_shl_is_mul(bit, i as u64);
                }
                raw = raw + (bit << i);
                i += 1;
            }
        },
        ByteOrder::Motorola => {
            // The start is the most significant bit; walk toward the least
            // significant one in "sawtooth" numbering.
            let mut pos: usize = start;
            while i < length
                invariant
                    start == start_bit,
                    length == bit_length,
                    i <= length <= 64,
                    len == data@.len() <= 64,
                    start <= u16::MAX,
                    byte_order == ByteOrder::Motorola,
                    0 <= pos <= start + 15 * i,
                    mirrored(pos as int) == mirrored(start as int) + i,
                    i > 0 ==> mirrored(start as int) + i <= 8 * len,
                    raw == motorola_value(data@, mirrored(start as int), i as int),
                decreases length - i,
            {
                proof {
                    lemma_mirrored(pos as int);
                }
                if pos / 8 >= len {
                    return None;
                }
                let bit: u64 = bit_at(data, pos);
                proof {
                    lemma_value_range(data@, mirrored(start as int), i + 1);
                    lemma2_to64();
                    if i + 1 < 64 {
                        lemma_pow2_strictly_increases((i + 1) as nat, 64);
                    }
                }
                raw = 2 * raw + bit;
                if pos % 8 == 0 {
                    pos = pos + 15;
                } else {
                    pos = pos - 1;
                }
                i += 1;
            }
        },
    }
    Some(raw)
}

/// The number that the lowest `length` bits of `raw` stand for in two's
/// complement.
pub open spec fn signed_value(raw: int, length: int) -> int {
    let low = raw % pow2(length as nat) as int;
    if low < pow2((length - 1) as nat) {
        low
    } else {
        low - pow2(length as nat)
    }
}

/// Take the lowest `length` bits as a number in two's complement.
pub fn sign_extend(raw: u64, length: u16) -> (r: i64)
    requires
        1 <= length <= 64,
    ensures
        r == signed_value(raw as int, length as int),
{
    proof {
        lemma2_to64();
        lemma_pow2_unfold(length as nat);
        lemma_pow2_pos(length as nat);
        if length < 64 {
            lemma_pow2_strictly_increases(length as nat, 64);
        }
        assert(1u64 * pow2((length - 1) as nat) <= u64::MAX);
        vstd::bits::lemma_u64_shl_is_mul(1, (length - 1) as u64);
        if length < 64 {
            assert(1u64 * pow2(length as nat) <= u64::MAX);
            vstd::bits::lemma_u64_shl_is_mul(1, length as u64);
        }
    }
    let half: u64 = 1u64 << (length - 1);
    let low: u64 = if length < 64 {
        raw % (1u64 << length)
    } else {
        raw
    };
    if low < half {
        low as i64
    } else {
        ((low as i128 - half as i128) - half as i128) as i64
    }
}

/// The number of the bit that comes `k` bits behind the start of a field.
pub open spec fn field_bit(byte_order: ByteOrder, start: int, k: int) -> int {
    match byte_order {
        ByteOrder::Intel => start + k,
        ByteOrder::Motorola => mirrored(mirrored(start) + k),
    }
}

/// A field says nothing about the bits outside it: payloads of one length
/// that agree on its bits hold the same number.
pub proof fn law_field_depends_on_its_bits(
    a: Seq<u8>,
    b: Seq<u8>,
    byte_order: ByteOrder,
    start: int,
    length: int,
)
    requires
        a.len() == b.len(),
        forall|k: int|
            0 <= k < length ==> payload_bit(a, #[trigger] field_bit(byte_order, start, k))
                == payload_bit(b, field_bit(byte_order, start, k)),
    ensures
        raw_value(a, byte_order, start, length) == raw_value(b, byte_order, start, length),
{
    match byte_order {
        ByteOrder::Intel => {
            assert forall|pos: int| start <= pos < start + length implies #[trigger] payload_bit(
                a,
                pos,
            ) == payload_bit(b, pos) by {
                assert(field_bit(byte_order, start, pos - start) == pos);
            }
            lemma_same_intel(a, b, start, length);
        },
        ByteOrder::Motorola => {
            let from = mirrored(start);
            assert forall|k: int| from <= k < from + length implies payload_bit(
                a,
                #[trigger] mirrored(k),
            ) == payload_bit(b, mirrored(k)) by {
                assert(field_bit(byte_order, start, k - from) == mirrored(k));
            }
            lemma_same_motorola(a, b, from, length);
        },
    }
}

proof fn lemma_same_intel(a: Seq<u8>, b: Seq<u8>, start: int, length: int)
    requires
        forall|pos: int| start <= pos < start + length ==> #[trigger] payload_bit(a, pos)
            == payload_bit(b, pos),
    ensures
        intel_value(a, start, length) == intel_value(b, start, length),
    decreases length,
{
    if length > 0 {
        lemma_same_intel(a, b, start, length - 1);
    }
}

proof fn lemma_same_motorola(a: Seq<u8>, b: Seq<u8>, from: int, length: int)
    requires
        forall|k: int| from <= k < from + length ==> payload_bit(a, #[trigger] mirrored(k))
            == payload_bit(b, mirrored(k)),
    ensures
        motorola_value(a, from, length) == motorola_value(b, from, length),
    decreases length,
{
    if length > 0 {
        lemma_same_motorola(a, b, from, length - 1);
        assert(payload_bit(a, mirrored(from + length - 1)) == payload_bit(
            b,
            mirrored(from + length - 1),
        ));
    }
}

/// A field of `length` bits holds a number below 2 to the `length`, and as a
/// signed one between minus and plus half of that; the two differ by 2 to the
/// `length` or not at all.
pub proof fn law_numbers_fit_their_fields(
    data: Seq<u8>,
    byte_order: ByteOrder,
    start: int,
    length: int,
)
    requires
        length >= 1,
    ensures
        raw_value(data, byte_order, start, length) matches Some(raw) ==> {
            let signed = signed_value(raw, length);
            let whole = pow2(length as nat) as int;
            &&& 0 <= raw < whole
            &&& -whole <= 2 * signed < whole
            &&& signed == raw || signed == raw - whole
        },
{
    lemma_value_range(data, start, length);
    lemma_value_range(data, mirrored(start), length);
    lemma_pow2_unfold(length as nat);
    lemma_pow2_pos(length as nat);
    if let Some(raw) = raw_value(data, byte_order, start, length) {
        vstd::arithmetic::div_mod::lemma_small_mod(raw as nat, pow2(length as nat));
    }
}

/// Inside one byte the byte orders differ only in which end of the field its
/// start names.
pub proof fn law_orders_agree_inside_a_byte(data: Seq<u8>, start: int, length: int)
    requires
        0 <= start,
        1 <= length,
        start % 8 + length <= 8,
    ensures
        raw_value(data, ByteOrder::Motorola, start + length - 1, length) == raw_value(
            data,
            ByteOrder::Intel,
            start,
            length,
        ),
{
    let top = start + length - 1;
    lemma_mirror_inside(start, top);
    lemma_same_number(data, start, length);
}

proof fn lemma_mirror_inside(start: int, top: int)
    requires
        0 <= start <= top,
        start / 8 == top / 8,
    ensures
        mirrored(top) == mirrored(start) - (top - start),
        mirrored(mirrored(start)) == start,
        8 * (start / 8) <= mirrored(start) < 8 * (start / 8) + 8,
{
    reveal(mirrored);
}

/// The bits below the topmost one make the rest of the number.
proof fn lemma_same_number(data: Seq<u8>, start: int, length: int)
    requires
        0 <= start,
        1 <= length,
        start % 8 + length <= 8,
    ensures
        motorola_value(data, mirrored(start + length - 1), length) == intel_value(
            data,
            start,
            length,
        ),
    decreases length,
{
    lemma_tail(data, mirrored(start + length - 1), length);
    let top = start + length - 1;
    lemma_mirrored(top);
    lemma2_to64();
    if length == 1 {
        reveal_with_fuel(motorola_value, 2);
        reveal_with_fuel(intel_value, 2);
    } else {
        lemma_same_number(data, start, length - 1);
        lemma_mirror_inside(top - 1, top);
        assert(mirrored(top - 1) == mirrored(top) + 1);
    }
}

/// Split off the most significant bit.
proof fn lemma_tail(data: Seq<u8>, from: int, length: int)
    requires
        length >= 1,
    ensures
        motorola_value(data, from, length) == payload_bit(data, mirrored(from)) * pow2(
            (length - 1) as nat,
        ) + motorola_value(data, from + 1, length - 1),
    decreases length,
{
    lemma2_to64();
    let bit = payload_bit(data, mirrored(from));
    if length == 1 {
        reveal_with_fuel(motorola_value, 2);
        assert(bit * 1 == bit);
        assert(from + length - 1 == from);
        assert(pow2((length - 1) as nat) == 1);
    } else {
        lemma_tail(data, from, length - 1);
        lemma_pow2_unfold((length - 1) as nat);
        let w = pow2((length - 2) as nat) as int;
        assert(2 * (bit * w) == bit * (2 * w)) by (nonlinear_arith);
        assert(pow2((length - 1) as nat) == 2 * w);
        assert(bit * pow2((length - 1) as nat) == bit * (2 * w));
        assert(from + 1 + (length - 1) - 1 == from + length - 1);
    }
}

} // verus!
