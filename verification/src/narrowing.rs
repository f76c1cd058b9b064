//! Narrowing binary64 to binary32 rounds to nearest: the binary32 result is within half
//! of its own spacing of the binary64 value, and exact when the value fits.
use crate::binary64::{
    b32_exponent, b32_fraction, b32_from_b64, b32_is_infinite, b32_is_nan, b32_negative,
    b32_quantum, b32_scale, b32_significand, b64_is_infinite, b64_is_nan, b64_negative,
    b64_scale, b64_significand, bit_len, lemma_b64_fields, lemma_bit_len,
    lemma_round_shift_bound, round_shift, two_52,
};
use vstd::arithmetic::div_mod::*;
use vstd::arithmetic::mul::*;
use vstd::arithmetic::power2::*;
use vstd::bits::*;
use vstd::prelude::*;

verus! {

proof fn lemma_pow2_mono(a: nat, b: nat)
    requires
        a <= b,
    ensures
        pow2(a) <= pow2(b),
{
    if a < b {
        lemma_pow2_strictly_increases(a, b);
    }
}

/// The fields of a binary32 pattern assembled from a sign, an exponent and a fraction.
proof fn lemma_b32_assemble(neg: bool, e: nat, f: nat)
    requires
        e < 0x100,
        f < 0x80_0000,
    ensures
        ({
            let bits = ((if neg {
                0x8000_0000nat
            } else {
                0
            }) + e * 0x80_0000 + f) as u32;
            &&& b32_negative(bits) == neg
            &&& b32_exponent(bits) == e
            &&& b32_fraction(bits) == f
        }),
{
    let s: nat = if neg {
        0x8000_0000
    } else {
        0
    };
    let top: nat = if neg {
        1
    } else {
        0
    };
    let x: nat = s + e * 0x80_0000 + f;
    assert(x < 0x1_0000_0000);
    assert(e * 0x80_0000 + f < 0x8000_0000);
    lemma_fundamental_div_mod_converse(x as int, 0x80_0000, (top * 0x100 + e) as int, f as int);
    lemma_fundamental_div_mod_converse((top * 0x100 + e) as int, 0x100, top as int, e as int);
}

/// `round_shift` rounds to nearest, ties to even.
pub proof fn lemma_round_shift_nearest(a: nat, k: nat)
    requires
        k > 0,
    ensures
        2 * (round_shift(a, k) * pow2(k) - a) <= pow2(k),
        2 * (a - round_shift(a, k) * pow2(k)) <= pow2(k),
        (2 * (round_shift(a, k) * pow2(k) - a) == pow2(k) || 2 * (a - round_shift(a, k) * pow2(k))
            == pow2(k)) ==> round_shift(a, k) % 2 == 0,
        round_shift(a, k) >= a / pow2(k),
{
    let pk = pow2(k);
    lemma_pow2_pos(k);
    lemma_pow2_unfold(k);
    lemma_fundamental_div_mod(a as int, pk as int);
    let q = a / pk;
    assert((q + 1) * pk == q * pk + pk) by (nonlinear_arith);
    assert(pk * q == q * pk) by (nonlinear_arith);
}

/// A value of `len > 24` digits shifted right by `len - 24` digits keeps at least 24.
proof fn lemma_shift_keeps_24(m: nat, k: nat)
    requires
        bit_len(m) == k + 24,
    ensures
        m / pow2(k) >= 0x80_0000,
{
    lemma_bit_len(m);
    lemma_pow2_adds(23, k);
    lemma_pow2_pos(k);
    lemma2_to64();
    lemma_div_by_multiple(0x80_0000, pow2(k) as int);
    lemma_div_is_ordered((pow2(23) * pow2(k)) as int, m as int, pow2(k) as int);
}

/// Narrowing a finite binary64 number to a finite binary32 number keeps its sign and
/// rounds to nearest: with `S * 2^Q` the binary32 value and `m * 2^e` the binary64
/// value, the result is exact when `Q <= e`, and otherwise lies within half of `2^Q`
/// of the binary64 value.
pub proof fn lemma_narrowing_nearest(bits: u64)
    requires
        !b64_is_nan(bits),
        !b64_is_infinite(bits),
        !b32_is_infinite(b32_from_b64(bits)),
    ensures
        ({
            let r = b32_from_b64(bits);
            let m = b64_significand(bits);
            let e = b64_scale(bits);
            let s = b32_significand(r);
            let q = b32_scale(r);
            &&& !b32_is_nan(r)
            &&& b32_negative(r) == b64_negative(bits)
            &&& q <= e ==> s == m * pow2((e - q) as nat)
            &&& q > e ==> 2 * (s * pow2((q - e) as nat) - m) <= pow2((q - e) as nat)
            &&& q > e ==> 2 * (m - s * pow2((q - e) as nat)) <= pow2((q - e) as nat)
        }),
{
    lemma2_to64();
    lemma2_to64_rest();
    lemma_b64_fields(bits);
    let neg = b64_negative(bits);
    let m = b64_significand(bits);
    let e = b64_scale(bits);
    let qt = b32_quantum(m, e);
    let len = bit_len(m);
    lemma_bit_len(m);
    if len > 53 {
        lemma_pow2_mono(53, (len - 1) as nat);
    }
    let r = b32_from_b64(bits);
    if m == 0 {
        assert(bit_len(0) == 0);
        let k: nat = (qt - e) as nat;
        lemma_pow2_pos(k);
        lemma_pow2_pos((k - 1) as nat);
        lemma_basic_div(0, pow2(k) as int);
        lemma_small_mod(0, pow2(k));
        assert(round_shift(0, k) == 0);
        lemma_b32_assemble(neg, 0, 0);
        assert(b32_significand(r) == 0);
        return;
    }
    if qt <= e {
        let j = (e - qt) as nat;
        let ri = m * pow2(j);
        // 2^(len - 1 + j) <= ri < 2^(len + j) <= 2^24
        lemma_pow2_adds(len, j);
        lemma_pow2_adds((len - 1) as nat, j);
        lemma_pow2_pos(j);
        lemma_mul_strict_inequality(m as int, pow2(len) as int, pow2(j) as int);
        lemma_mul_inequality(pow2((len - 1) as nat) as int, m as int, pow2(j) as int);
        lemma_pow2_mono(len + j, 24);
        if ri < 0x80_0000 {
            // a subnormal result: the quantum is the smallest one
            if qt > -149 {
                assert(len + j == 24);
                assert(pow2(23) == 0x80_0000);
                assert(false);
            }
            lemma_b32_assemble(neg, 0, ri);
        } else {
            lemma_b32_assemble(neg, (qt + 150) as nat, (ri - 0x80_0000) as nat);
        }
    } else {
        let k = (qt - e) as nat;
        let ri = round_shift(m, k);
        lemma_round_shift_bound(m, k, len);
        lemma_round_shift_nearest(m, k);
        lemma_pow2_pos(k);
        if ri < 0x80_0000 {
            if qt > -149 {
                assert(len == k + 24);
                lemma_shift_keeps_24(m, k);
                assert(false);
            }
            lemma_b32_assemble(neg, 0, ri);
            if ri == 0 {
                assert(r == (if neg {
                    0x8000_0000nat
                } else {
                    0
                }) as u32);
            }
        } else if ri < 0x100_0000 {
            lemma_b32_assemble(neg, (qt + 150) as nat, (ri - 0x80_0000) as nat);
        } else {
            lemma_b32_assemble(neg, (qt + 151) as nat, 0);
            assert(b32_significand(r) == 0x80_0000);
            assert(b32_scale(r) == qt + 1);
            assert(((qt + 1) - e) as nat == k + 1);
            lemma_pow2_unfold(k + 1);
            assert(0x80_0000 * pow2(k + 1) == 0x100_0000 * pow2(k)) by (nonlinear_arith)
                requires
                    pow2(k + 1) == 2 * pow2(k),
            ;
            lemma_pow2_mono(k, k + 1);
        }
    }
}

} // verus!
