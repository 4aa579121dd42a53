//! What holds of bit fields, bit by bit.

use crate::bits::{
    intel_value, lemma_value_range, mirrored, motorola_value, payload_bit, raw_value, signed_value,
};
use crate::dbc::ByteOrder;
use vstd::arithmetic::div_mod::{
    lemma_div_denominator, lemma_fundamental_div_mod_converse, lemma_mod_multiples_basic,
};
use vstd::arithmetic::power2::{
    lemma2_to64, lemma_pow2_adds, lemma_pow2_pos, lemma_pow2_unfold, pow2,
};
use vstd::prelude::*;

verus! {

/// A multiple of a higher power of two does not change a bit.
proof fn lemma_high_part(v: int, bit: int, k: int, top: int)
    requires
        0 <= v,
        0 <= k < top,
    ensures
        ((v + bit * pow2(top as nat)) / pow2(k as nat) as int) % 2 == (v / pow2(k as nat) as int)
            % 2,
{
    let p = pow2(k as nat) as int;
    let rest = pow2((top - k - 1) as nat) as int;
    lemma_pow2_pos(k as nat);
    lemma_pow2_adds(k as nat, (top - k) as nat);
    lemma_pow2_unfold((top - k) as nat);
    let c = 2 * (bit * rest);
    assert(bit * pow2(top as nat) == p * c) by (nonlinear_arith)
        requires
            pow2(top as nat) == p * (2 * rest),
            c == 2 * (bit * rest),
    ;
    vstd::arithmetic::div_mod::lemma_hoist_over_denominator(v, c, p as nat);
    assert((v + p * c) / p == v / p + c) by {
        assert(v / p + c == (v + c * p) / p);
        assert(c * p == p * c) by (nonlinear_arith);
    }
    assert((v / p + c) % 2 == (v / p) % 2);
}

proof fn lemma_intel_bit(data: Seq<u8>, start: int, length: int, k: int)
    requires
        0 <= k < length,
    ensures
        (intel_value(data, start, length) / pow2(k as nat) as int) % 2 == payload_bit(
            data,
            start + k,
        ),
    decreases length,
{
    let top = length - 1;
    let v = intel_value(data, start, top);
    let bit = payload_bit(data, start + top);
    lemma_value_range(data, start, top);
    if k == top {
        let p = pow2(k as nat) as int;
        assert(bit * p == p * bit) by (nonlinear_arith);
        lemma_fundamental_div_mod_converse(v + bit * p, p, bit, v);
        assert(bit == 0 || bit == 1);
    } else {
        lemma_intel_bit(data, start, top, k);
        lemma_high_part(v, bit, k, top);
    }
}

proof fn lemma_motorola_bit(data: Seq<u8>, from: int, length: int, k: int)
    requires
        0 <= k < length,
    ensures
        (motorola_value(data, from, length) / pow2((length - 1 - k) as nat) as int) % 2
            == payload_bit(data, mirrored(from + k)),
    decreases length,
{
    lemma2_to64();
    let v = motorola_value(data, from, length - 1);
    let bit = payload_bit(data, mirrored(from + length - 1));
    lemma_value_range(data, from, length - 1);
    assert(bit == 0 || bit == 1);
    if k == length - 1 {
        assert((2 * v + bit) / 1 == 2 * v + bit);
    } else {
        lemma_motorola_bit(data, from, length - 1, k);
        let j = length - 1 - k;
        let p = pow2((j - 1) as nat) as int;
        lemma_pow2_pos((j - 1) as nat);
        lemma_pow2_unfold(j as nat);
        lemma_div_denominator(2 * v + bit, 2, p);
        assert((2 * v + bit) / 2 == v);
    }
}

/// An Intel field lies in the payload if its last bit does; bit `k` of its
/// number is then the payload's bit `k` places above the start, where the bits
/// of each byte count from the least significant one. It has no other bits.
pub proof fn law_intel_field(data: Seq<u8>, start: int, length: int, k: int)
    requires
        0 <= start,
        0 <= k < length,
    ensures
        match raw_value(data, ByteOrder::Intel, start, length) {
            Some(raw) => {
                &&& start + length <= 8 * data.len()
                &&& 0 <= raw < pow2(length as nat)
                &&& (raw / pow2(k as nat) as int) % 2 == (data[(start + k) / 8] as int / pow2(
                    ((start + k) % 8) as nat,
                ) as int) % 2
            },
            None => start + length > 8 * data.len(),
        },
{
    lemma_value_range(data, start, length);
    lemma_intel_bit(data, start, length, k);
}

/// A Motorola field starts at its most significant bit and goes on towards
/// less significant bits, from the lowest bit of a byte to the highest one of
/// the next. It lies in the payload if its last bit does; the bit `k` places
/// below the top of its number is then `k` steps on. It has no other bits.
pub proof fn law_motorola_field(data: Seq<u8>, start: int, length: int, k: int)
    requires
        0 <= start,
        0 <= k < length,
    ensures
        ({
            let first = 8 * (start / 8) + 7 - start % 8;
            let place = first + k;
            match raw_value(data, ByteOrder::Motorola, start, length) {
                Some(raw) => {
                    &&& first + length <= 8 * data.len()
                    &&& 0 <= raw < pow2(length as nat)
                    &&& (raw / pow2((length - 1 - k) as nat) as int) % 2 == (data[place / 8] as int
                        / pow2((7 - place % 8) as nat) as int) % 2
                },
                None => first + length > 8 * data.len(),
            }
        }),
{
    reveal(mirrored);
    let first = 8 * (start / 8) + 7 - start % 8;
    assert(mirrored(start) == first);
    let place = first + k;
    let pos = mirrored(place);
    assert(pos / 8 == place / 8 && pos % 8 == 7 - place % 8);
    lemma_value_range(data, first, length);
    lemma_motorola_bit(data, first, length, k);
}

/// Two's complement: the number of `length` bits is the only one in its range
/// that differs from the bits by a multiple of 2 to the `length`.
pub proof fn law_twos_complement(raw: int, length: int)
    requires
        length >= 1,
    ensures
        ({
            let v = signed_value(raw, length);
            let half = pow2((length - 1) as nat) as int;
            &&& -half <= v < half
            &&& (v - raw) % (2 * half) == 0
        }),
{
    let whole = pow2(length as nat) as int;
    let half = pow2((length - 1) as nat) as int;
    lemma_pow2_unfold(length as nat);
    lemma_pow2_pos((length - 1) as nat);
    let low = raw % whole;
    let q = raw / whole;
    vstd::arithmetic::div_mod::lemma_fundamental_div_mod(raw, whole);
    let v = signed_value(raw, length);
    if low < half {
        assert(v - raw == (-q) * whole) by (nonlinear_arith)
            requires
                raw == whole * q + low,
                v == low,
        ;
        lemma_mod_multiples_basic(-q, whole);
    } else {
        assert(v - raw == (-q - 1) * whole) by (nonlinear_arith)
            requires
                raw == whole * q + low,
                v == low - whole,
        ;
        lemma_mod_multiples_basic(-q - 1, whole);
    }
}

} // verus!
