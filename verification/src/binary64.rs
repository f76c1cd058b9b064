//! IEEE 754 binary64 / binary32 bit patterns, handled as plain integers.
//!
//! The wire protocol carries every number as the eight little-endian bytes of a
//! binary64 value. This module converts between those bit patterns and the
//! integers of the value model, with the rounding and saturation rules of
//! Rust's numeric `as` conversions.
use vstd::arithmetic::div_mod::*;
use vstd::arithmetic::mul::*;
use vstd::arithmetic::power2::*;
use vstd::bits::*;
use vstd::prelude::*;

verus! {

/// 2^52: the weight of the hidden bit of a binary64 significand.
pub open spec fn two_52() -> nat {
    0x10_0000_0000_0000
}

/// 2^63: the weight of the sign bit of a binary64 pattern.
pub open spec fn two_63() -> nat {
    0x8000_0000_0000_0000
}

/// The sign bit of a binary64 pattern.
pub open spec fn b64_negative(bits: u64) -> bool {
    bits as nat >= two_63()
}

/// The biased exponent field (11 bits) of a binary64 pattern.
pub open spec fn b64_exponent(bits: u64) -> nat {
    ((bits as nat) / two_52()) % 0x800
}

/// The fraction field (52 bits) of a binary64 pattern.
pub open spec fn b64_fraction(bits: u64) -> nat {
    (bits as nat) % two_52()
}

pub open spec fn b64_is_nan(bits: u64) -> bool {
    b64_exponent(bits) == 0x7ff && b64_fraction(bits) != 0
}

pub open spec fn b64_is_infinite(bits: u64) -> bool {
    b64_exponent(bits) == 0x7ff && b64_fraction(bits) == 0
}

/// The integer significand of a finite pattern (hidden bit included for normal numbers).
pub open spec fn b64_significand(bits: u64) -> nat {
    if b64_exponent(bits) == 0 {
        b64_fraction(bits)
    } else {
        b64_fraction(bits) + two_52()
    }
}

/// The power of two that scales the significand of a finite pattern.
pub open spec fn b64_scale(bits: u64) -> int {
    if b64_exponent(bits) == 0 {
        -1074
    } else {
        b64_exponent(bits) - 1075
    }
}

/// Magnitude of a finite pattern's value, truncated toward zero.
pub open spec fn b64_trunc_magnitude(bits: u64) -> nat {
    let s = b64_scale(bits);
    if s >= 0 {
        b64_significand(bits) * pow2(s as nat)
    } else {
        b64_significand(bits) / pow2((-s) as nat)
    }
}

/// A finite pattern's value truncated toward zero.
pub open spec fn b64_trunc(bits: u64) -> int {
    if b64_negative(bits) {
        -b64_trunc_magnitude(bits)
    } else {
        b64_trunc_magnitude(bits) as int
    }
}

pub open spec fn clamp(x: int, lo: int, hi: int) -> int {
    if x < lo {
        lo
    } else if x > hi {
        hi
    } else {
        x
    }
}

/// The integer that a saturating conversion of a binary64 value into `lo..=hi` yields:
/// NaN gives 0, infinities give the nearer bound, finite values are truncated toward
/// zero and then clamped.
pub open spec fn b64_to_int_saturating(bits: u64, lo: int, hi: int) -> int {
    if b64_is_nan(bits) {
        0
    } else if b64_is_infinite(bits) {
        if b64_negative(bits) {
            lo
        } else {
            hi
        }
    } else {
        clamp(b64_trunc(bits), lo, hi)
    }
}

/// Number of binary digits of `a` (0 for 0).
pub open spec fn bit_len(a: nat) -> nat
    decreases a,
{
    if a == 0 {
        0
    } else {
        1 + bit_len(a / 2)
    }
}

/// The integer nearest to `n` among the integers that binary64 represents exactly,
/// ties going to the value with an even significand.
pub open spec fn round_to_b64(n: int) -> int {
    let a: nat = if n < 0 {
        (-n) as nat
    } else {
        n as nat
    };
    let m: nat = if bit_len(a) <= 53 {
        a
    } else {
        let k = (bit_len(a) - 53) as nat;
        let q = a / pow2(k);
        let r = a % pow2(k);
        let h = pow2((k - 1) as nat);
        if r > h || (r == h && q % 2 == 1) {
            (q + 1) * pow2(k)
        } else {
            q * pow2(k)
        }
    };
    if n < 0 {
        -m
    } else {
        m as int
    }
}

/// `bits` is a finite binary64 pattern whose value is exactly the integer `v`,
/// with the sign bit set exactly when `v` is negative.
pub open spec fn b64_denotes_int(bits: u64, v: int) -> bool {
    let a: nat = if v < 0 {
        (-v) as nat
    } else {
        v as nat
    };
    let s = b64_scale(bits);
    &&& b64_exponent(bits) != 0x7ff
    &&& b64_negative(bits) == (v < 0)
    &&& if s >= 0 {
        b64_significand(bits) * pow2(s as nat) == a
    } else {
        b64_significand(bits) == a * pow2((-s) as nat)
    }
}

/// The binary64 pattern that Rust's `as` conversion produces from the integer `n`:
/// the pattern of `round_to_b64(n)`, with +0 for 0.
pub open spec fn b64_from_int(n: int) -> u64 {
    let r = round_to_b64(n);
    let a: nat = if r < 0 {
        (-r) as nat
    } else {
        r as nat
    };
    if a == 0 {
        0
    } else {
        let len = bit_len(a);
        let sig: nat = if len <= 53 {
            a * pow2((53 - len) as nat)
        } else {
            a / pow2((len - 53) as nat)
        };
        let sign: nat = if r < 0 {
            two_63()
        } else {
            0
        };
        (sign + (len + 1022) * two_52() + (sig - two_52())) as u64
    }
}

// ---------------------------------------------------------------------------
// binary32
// ---------------------------------------------------------------------------
pub open spec fn b32_negative(bits: u32) -> bool {
    bits >= 0x8000_0000
}

pub open spec fn b32_exponent(bits: u32) -> nat {
    ((bits as nat) / 0x80_0000) % 0x100
}

pub open spec fn b32_fraction(bits: u32) -> nat {
    (bits as nat) % 0x80_0000
}

pub open spec fn b32_is_nan(bits: u32) -> bool {
    b32_exponent(bits) == 0xff && b32_fraction(bits) != 0
}

pub open spec fn b32_is_infinite(bits: u32) -> bool {
    b32_exponent(bits) == 0xff && b32_fraction(bits) == 0
}

pub open spec fn b32_significand(bits: u32) -> nat {
    if b32_exponent(bits) == 0 {
        b32_fraction(bits)
    } else {
        b32_fraction(bits) + 0x80_0000
    }
}

pub open spec fn b32_scale(bits: u32) -> int {
    if b32_exponent(bits) == 0 {
        -149
    } else {
        b32_exponent(bits) - 150
    }
}

/// `m1 * 2^e1 == m2 * 2^e2` as exact rationals.
pub open spec fn same_dyadic(m1: nat, e1: int, m2: nat, e2: int) -> bool {
    if e1 >= e2 {
        m1 * pow2((e1 - e2) as nat) == m2
    } else {
        m2 * pow2((e2 - e1) as nat) == m1
    }
}

/// A binary32 NaN payload with its quiet bit (the top fraction bit) set.
pub open spec fn quiet_payload(f: nat) -> nat {
    if f >= 0x40_0000 {
        f
    } else {
        f + 0x40_0000
    }
}

/// The binary64 pattern that widening a binary32 pattern produces. Finite values and
/// infinities keep their value and sign; a NaN keeps its sign and payload and has its
/// quiet bit set (the behaviour of x86-64 and AArch64 hardware).
pub open spec fn b64_from_b32(bits: u32) -> u64 {
    let sign: nat = if b32_negative(bits) {
        two_63()
    } else {
        0
    };
    let e = b32_exponent(bits);
    let f = b32_fraction(bits);
    if e == 0xff {
        if f == 0 {
            (sign + 0x7ff * two_52()) as u64
        } else {
            (sign + 0x7ff * two_52() + quiet_payload(f) * 0x2000_0000) as u64
        }
    } else if e == 0 {
        if f == 0 {
            sign as u64
        } else {
            let len = bit_len(f);
            (sign + (len + 873) * two_52() + (f * pow2((53 - len) as nat) - two_52())) as u64
        }
    } else {
        (sign + (e + 896) * two_52() + f * 0x2000_0000) as u64
    }
}


/// `a / 2^k` rounded to the nearest integer, ties to even.
pub open spec fn round_shift(a: nat, k: nat) -> nat {
    if k == 0 {
        a
    } else {
        let q = a / pow2(k);
        let r = a % pow2(k);
        let h = pow2((k - 1) as nat);
        if r > h || (r == h && q % 2 == 1) {
            q + 1
        } else {
            q
        }
    }
}

/// The exponent of the last significand digit that binary32 keeps for a value whose
/// significand `m` (of `bit_len(m)` digits) is scaled by `2^e`: 24 digits, but none
/// below the subnormal quantum `2^-149`.
pub open spec fn b32_quantum(m: nat, e: int) -> int {
    if bit_len(m) + e - 24 > -149 {
        bit_len(m) + e - 24
    } else {
        -149
    }
}

/// The binary32 pattern that narrowing a binary64 pattern produces (Rust's
/// `f64 as f32`): finite values are rounded to the nearest binary32 value, ties to
/// even, and become infinite when that exceeds the binary32 range; infinities keep
/// their sign; a NaN keeps its sign and the top of its payload and has its quiet bit
/// set (the behaviour of x86-64 and AArch64 hardware).
pub open spec fn b32_from_b64(bits: u64) -> u32 {
    let sign: nat = if b64_negative(bits) {
        0x8000_0000
    } else {
        0
    };
    if b64_is_nan(bits) {
        (sign + 0x7fc0_0000 + (b64_fraction(bits) / 0x2000_0000) % 0x40_0000) as u32
    } else if b64_is_infinite(bits) {
        (sign + 0x7f80_0000) as u32
    } else {
        let m = b64_significand(bits);
        let e = b64_scale(bits);
        let q = b32_quantum(m, e);
        let r: nat = if q <= e {
            m * pow2((e - q) as nat)
        } else {
            round_shift(m, (q - e) as nat)
        };
        if r == 0 {
            sign as u32
        } else if r < 0x80_0000 {
            (sign + r) as u32
        } else {
            let ex: int = if r == 0x100_0000 {
                q + 151
            } else {
                q + 150
            };
            let f: nat = if r == 0x100_0000 {
                0
            } else {
                (r - 0x80_0000) as nat
            };
            if ex >= 255 {
                (sign + 0x7f80_0000) as u32
            } else {
                (sign + ex * 0x80_0000 + f) as u32
            }
        }
    }
}

// ---------------------------------------------------------------------------
// Lemmas
// ---------------------------------------------------------------------------
proof fn lemma_pow2_mono(a: nat, b: nat)
    requires
        a <= b,
    ensures
        pow2(a) <= pow2(b),
{
    if a < b {
        lemma_pow2_strictly_increases(a, b);
    }
}

/// `bit_len` brackets its argument between consecutive powers of two.
pub proof fn lemma_bit_len(a: nat)
    ensures
        a < pow2(bit_len(a)),
        a > 0 ==> pow2((bit_len(a) - 1) as nat) <= a,
        a > 0 ==> bit_len(a) >= 1,
    decreases a,
{
    lemma2_to64();
    if a == 0 {
    } else {
        let h = a / 2;
        lemma_bit_len(h);
        lemma_pow2_unfold(bit_len(a));
        assert(pow2(bit_len(a)) == 2 * pow2(bit_len(h)));
        assert(a < pow2(bit_len(a)));
        if h > 0 {
            lemma_pow2_unfold(bit_len(h));
            assert(pow2((bit_len(a) - 1) as nat) == pow2(bit_len(h)));
        }
    }
}

/// Two numbers bracketed by the same powers of two have the same `bit_len`.
pub proof fn lemma_bit_len_unique(a: nat, l: nat)
    requires
        l >= 1,
        pow2((l - 1) as nat) <= a < pow2(l),
    ensures
        bit_len(a) == l,
{
    lemma_bit_len(a);
    let b = bit_len(a);
    if b < l {
        lemma_pow2_mono(b, (l - 1) as nat);
    } else if b > l {
        lemma_pow2_mono(l, (b - 1) as nat);
    }
}

proof fn lemma_div_small(x: nat, d: nat)
    requires
        x < d,
    ensures
        x / d == 0,
{
    lemma_basic_div(x as int, d as int);
}

/// Facts about the fields of a binary64 pattern.
pub proof fn lemma_b64_fields(bits: u64)
    ensures
        b64_exponent(bits) < 0x800,
        b64_fraction(bits) < two_52(),
        bits as nat == (if b64_negative(bits) {
            two_63()
        } else {
            0
        }) + b64_exponent(bits) * two_52() + b64_fraction(bits),
        b64_significand(bits) < 2 * two_52(),
{
}

/// The fields of a pattern assembled from a sign, an exponent and a fraction.
pub proof fn lemma_b64_assemble(neg: bool, e: nat, f: nat)
    requires
        e < 0x800,
        f < two_52(),
    ensures
        ({
            let bits = ((if neg {
                two_63()
            } else {
                0
            }) + e * two_52() + f) as u64;
            &&& b64_negative(bits) == neg
            &&& b64_exponent(bits) == e
            &&& b64_fraction(bits) == f
        }),
{
    let s: nat = if neg {
        two_63()
    } else {
        0
    };
    let x: nat = s + e * two_52() + f;
    assert(x < 0x1_0000_0000_0000_0000);
    assert(x / two_52() == (if neg {
        0x800nat
    } else {
        0nat
    }) + e) by {
        lemma_fundamental_div_mod_converse(
            x as int,
            two_52() as int,
            ((if neg {
                0x800int
            } else {
                0
            }) + e) as int,
            f as int,
        );
    }
    assert(x % two_52() == f) by {
        lemma_fundamental_div_mod_converse(
            x as int,
            two_52() as int,
            ((if neg {
                0x800int
            } else {
                0
            }) + e) as int,
            f as int,
        );
    }
}

// ---------------------------------------------------------------------------
// Executable conversions
// ---------------------------------------------------------------------------
/// 2^k as a u64.
fn pow2_u64(k: u64) -> (p: u64)
    requires
        k < 64,
    ensures
        p == pow2(k as nat),
{
    proof {
        lemma_u64_pow2_no_overflow(k as nat);
        lemma_u64_shl_is_mul(1, k);
    }
    1u64 << k
}

/// Number of binary digits of `a`.
fn bit_length(a: u64) -> (l: u64)
    ensures
        l == bit_len(a as nat),
        l <= 64,
{
    proof {
        lemma_bit_len_u64(a);
    }
    let mut t = a;
    let mut l: u64 = 0;
    while t > 0
        invariant
            l + bit_len(t as nat) == bit_len(a as nat),
            l <= 64 - bit_len(t as nat),
            bit_len(a as nat) <= 64,
        decreases t,
    {
        t = t / 2;
        l = l + 1;
    }
    l
}

proof fn lemma_bit_len_u64(a: u64)
    ensures
        bit_len(a as nat) <= 64,
{
    lemma_bit_len(a as nat);
    lemma2_to64();
    if bit_len(a as nat) > 64 {
        lemma_pow2_mono(64, (bit_len(a as nat) - 1) as nat);
    }
}

/// Magnitude of a finite binary64 value truncated toward zero, capped at `cap`.
fn trunc_magnitude_capped(bits: u64, cap: u64) -> (m: u64)
    requires
        !b64_is_nan(bits),
        !b64_is_infinite(bits),
        cap <= two_63(),
    ensures
        m == clamp(b64_trunc_magnitude(bits) as int, 0, cap as int),
{
    let exp: u64 = bits / 0x10_0000_0000_0000 % 0x800;
    let frac: u64 = bits % 0x10_0000_0000_0000;
    proof {
        lemma2_to64();
        lemma2_to64_rest();
        lemma_pow2_pos(1074);
    }
    if exp < 1023 {
        proof {
            if exp == 0 {
                lemma_pow2_mono(53, 1074);
                lemma_div_small(frac as nat, pow2(1074));
            } else {
                lemma_pow2_mono(53, (1075 - exp) as nat);
                lemma_div_small(b64_significand(bits), pow2((1075 - exp) as nat));
            }
        }
        return 0;
    }
    let sig: u64 = frac + 0x10_0000_0000_0000;
    if exp >= 1086 {
        proof {
            lemma_pow2_mono(11, (exp - 1075) as nat);
            lemma_mul_inequality(
                two_52() as int,
                sig as int,
                pow2((exp - 1075) as nat) as int,
            );
            lemma_mul_inequality(
                2048,
                pow2((exp - 1075) as nat) as int,
                two_52() as int,
            );
        }
        return cap;
    }
    if exp >= 1075 {
        let shift = exp - 1075;
        let p = pow2_u64(shift);
        proof {
            lemma_pow2_mono(shift as nat, 10);
            lemma_mul_inequality(sig as int, 0x20_0000_0000_0000, p as int);
            lemma_mul_inequality(p as int, 1024, 0x20_0000_0000_0000);
        }
        let v = sig * p;
        if v > cap {
            cap
        } else {
            v
        }
    } else {
        let shift = 1075 - exp;
        let p = pow2_u64(shift);
        proof {
            lemma_pow2_pos(shift as nat);
            lemma_div_is_ordered(sig as int, 0x20_0000_0000_0000, p as int);
        }
        let v = sig / p;
        if v > cap {
            cap
        } else {
            v
        }
    }
}

/// The result of converting a binary64 value to `i64` with Rust's saturating `as`.
pub fn b64_to_i64(bits: u64) -> (r: i64)
    ensures
        r == b64_to_int_saturating(bits, i64::MIN as int, i64::MAX as int),
{
    let exp: u64 = bits / 0x10_0000_0000_0000 % 0x800;
    let frac: u64 = bits % 0x10_0000_0000_0000;
    if exp == 0x7ff {
        if frac != 0 {
            return 0;
        }
        if bits >= 0x8000_0000_0000_0000 {
            return i64::MIN;
        } else {
            return i64::MAX;
        }
    }
    if bits >= 0x8000_0000_0000_0000 {
        let m = trunc_magnitude_capped(bits, 0x8000_0000_0000_0000);
        if m == 0x8000_0000_0000_0000 {
            i64::MIN
        } else {
            -(m as i64)
        }
    } else {
        let m = trunc_magnitude_capped(bits, 0x7fff_ffff_ffff_ffff);
        m as i64
    }
}

/// The result of converting a binary64 value to `i32` with Rust's saturating `as`.
pub fn b64_to_i32(bits: u64) -> (r: i32)
    ensures
        r == b64_to_int_saturating(bits, i32::MIN as int, i32::MAX as int),
{
    let exp: u64 = bits / 0x10_0000_0000_0000 % 0x800;
    let frac: u64 = bits % 0x10_0000_0000_0000;
    if exp == 0x7ff {
        if frac != 0 {
            return 0;
        }
        if bits >= 0x8000_0000_0000_0000 {
            return i32::MIN;
        } else {
            return i32::MAX;
        }
    }
    if bits >= 0x8000_0000_0000_0000 {
        let m = trunc_magnitude_capped(bits, 0x8000_0000);
        if m == 0x8000_0000 {
            i32::MIN
        } else {
            -(m as i32)
        }
    } else {
        let m = trunc_magnitude_capped(bits, 0x7fff_ffff);
        m as i32
    }
}

/// The result of converting a binary64 value to `u32` with Rust's saturating `as`.
pub fn b64_to_u32(bits: u64) -> (r: u32)
    ensures
        r == b64_to_int_saturating(bits, 0, u32::MAX as int),
{
    let exp: u64 = bits / 0x10_0000_0000_0000 % 0x800;
    let frac: u64 = bits % 0x10_0000_0000_0000;
    if exp == 0x7ff {
        if frac != 0 {
            return 0;
        }
        if bits >= 0x8000_0000_0000_0000 {
            return 0;
        } else {
            return u32::MAX;
        }
    }
    if bits >= 0x8000_0000_0000_0000 {
        0
    } else {
        let m = trunc_magnitude_capped(bits, 0xffff_ffff);
        m as u32
    }
}

/// Rounding facts for an integer magnitude `a` of `len > 53` binary digits.
pub proof fn lemma_round_split(a: nat, len: nat, q: nat, r: nat)
    requires
        len > 53,
        len <= 64,
        bit_len(a) == len,
        q == a / pow2((len - 53) as nat),
        r == a % pow2((len - 53) as nat),
    ensures
        two_52() <= q < 2 * two_52(),
        a == q * pow2((len - 53) as nat) + r,
        r < pow2((len - 53) as nat),
        pow2((len - 53) as nat) == 2 * pow2((len - 54) as nat),
        pow2(len) == 2 * two_52() * pow2((len - 53) as nat),
        pow2((len - 1) as nat) == two_52() * pow2((len - 53) as nat),
{
    let k = (len - 53) as nat;
    lemma2_to64();
    lemma2_to64_rest();
    lemma_bit_len(a);
    lemma_pow2_pos(k);
    lemma_fundamental_div_mod(a as int, pow2(k) as int);
    lemma_pow2_adds(53, k);
    lemma_pow2_adds(52, k);
    lemma_pow2_unfold(k);
    assert(pow2((len - 1) as nat) == two_52() * pow2(k));
    assert(pow2(len) == 2 * two_52() * pow2(k)) by {
        assert(len == 53 + k);
    }
    // lower bound on q
    lemma_div_by_multiple(two_52() as int, pow2(k) as int);
    lemma_div_is_ordered((two_52() * pow2(k)) as int, a as int, pow2(k) as int);
    // upper bound on q
    if q >= 2 * two_52() {
        lemma_mul_inequality(2 * two_52() as int, q as int, pow2(k) as int);
        assert(false);
    }
}

/// Bracketing of `a * 2^(53 - len)` for an `a` of `len <= 53` binary digits.
proof fn lemma_scale_up(a: nat, len: nat)
    requires
        1 <= len <= 53,
        bit_len(a) == len,
        a > 0,
    ensures
        two_52() <= a * pow2((53 - len) as nat) < 2 * two_52(),
{
    lemma2_to64();
    lemma2_to64_rest();
    lemma_bit_len(a);
    let s = (53 - len) as nat;
    lemma_pow2_adds((len - 1) as nat, s);
    lemma_pow2_adds(len, s);
    lemma_pow2_pos(s);
    lemma_mul_inequality(pow2((len - 1) as nat) as int, a as int, pow2(s) as int);
    lemma_mul_strict_inequality(a as int, pow2(len) as int, pow2(s) as int);
}

/// `b64_from_int(n)` is a finite pattern whose value is `round_to_b64(n)`.
pub proof fn lemma_b64_from_int(n: int)
    requires
        i64::MIN <= n <= i64::MAX,
    ensures
        b64_denotes_int(b64_from_int(n), round_to_b64(n)),
{
    lemma2_to64();
    lemma2_to64_rest();
    if n == 0 {
        assert(bit_len(0) == 0);
        assert(round_to_b64(0) == 0);
        lemma_b64_assemble(false, 0, 0);
        return;
    }
    let neg = n < 0;
    let a: nat = if neg {
        (-n) as nat
    } else {
        n as nat
    };
    let sign: nat = if neg {
        two_63()
    } else {
        0
    };
    let len = bit_len(a);
    lemma_bit_len(a);
    if len > 64 {
        lemma_pow2_mono(64, (len - 1) as nat);
        assert(false);
    }
    if len <= 53 {
        lemma_scale_up(a, len);
        let p = pow2((53 - len) as nat);
        let sig: nat = a * p;
        let e: nat = len + 1022;
        assert(round_to_b64(n) == n);
        let bits = (sign + e * two_52() + (sig - two_52())) as u64;
        assert(b64_from_int(n) == bits);
        lemma_b64_assemble(neg, e, (sig - two_52()) as nat);
        assert(b64_significand(bits) == sig);
        assert(b64_scale(bits) == len - 53);
        if len == 53 {
            assert(pow2(0) == 1);
            assert(p == 1);
            assert(sig == a * 1);
            assert(sig == a);
            assert(b64_significand(bits) * pow2(0) == a);
        } else {
            assert((-b64_scale(bits)) as nat == (53 - len) as nat);
        }
        assert(b64_denotes_int(bits, round_to_b64(n)));
    } else {
        let k = (len - 53) as nat;
        let pk = pow2(k);
        let q = a / pk;
        let rem = a % pk;
        let h = pow2((k - 1) as nat);
        lemma_round_split(a, len, q, rem);
        lemma_pow2_unfold(k);
        let q2: nat = if rem > h || (rem == h && q % 2 == 1) {
            q + 1
        } else {
            q
        };
        let m: nat = q2 * pk;
        assert(round_to_b64(n) == (if neg {
            -m
        } else {
            m as int
        }));
        if q2 == 2 * two_52() {
            let e: nat = len + 1023;
            let bits = (sign + e * two_52()) as u64;
            lemma_b64_assemble(neg, e, 0);
            lemma_pow2_adds(k, 1);
            lemma_pow2_adds(53, k);
            assert(m == pow2(len));
            lemma_pow2_strictly_increases(len, len + 1);
            lemma_bit_len_unique(m, len + 1);
            lemma_pow2_adds(52, k + 1);
            lemma_pow2_pos(k + 1);
            lemma_div_by_multiple(two_52() as int, pow2(k + 1) as int);
            assert(m / pow2(k + 1) == two_52());
            assert(b64_from_int(n) == bits);
            assert(b64_scale(bits) == k + 1);
            assert(b64_significand(bits) == two_52());
            assert(b64_denotes_int(bits, round_to_b64(n)));
        } else {
            let e: nat = len + 1022;
            let bits = (sign + e * two_52() + (q2 - two_52())) as u64;
            lemma_b64_assemble(neg, e, (q2 - two_52()) as nat);
            lemma_pow2_pos(k);
            lemma_mul_inequality(two_52() as int, q2 as int, pk as int);
            lemma_mul_strict_inequality(q2 as int, 2 * two_52() as int, pk as int);
            lemma_bit_len_unique(m, len);
            lemma_div_by_multiple(q2 as int, pk as int);
            assert(m / pow2(k) == q2);
            assert(b64_from_int(n) == bits);
            assert(b64_scale(bits) == k);
            assert(b64_significand(bits) == q2);
            assert(b64_denotes_int(bits, round_to_b64(n)));
        }
    }
}

/// A finite pattern that denotes the integer `v` truncates to `v`.
pub proof fn lemma_denotes_trunc(bits: u64, v: int)
    requires
        b64_denotes_int(bits, v),
    ensures
        !b64_is_nan(bits),
        !b64_is_infinite(bits),
        b64_trunc(bits) == v,
{
    let s = b64_scale(bits);
    if s < 0 {
        let a: nat = if v < 0 {
            (-v) as nat
        } else {
            v as nat
        };
        let d = pow2((-s) as nat);
        lemma_pow2_pos((-s) as nat);
        lemma_div_by_multiple(a as int, d as int);
        assert(b64_significand(bits) / d == a);
    }
}

/// Integers of magnitude below 2^53 are represented exactly.
pub proof fn lemma_round_small(n: int)
    requires
        -0x20_0000_0000_0000 < n < 0x20_0000_0000_0000,
    ensures
        round_to_b64(n) == n,
{
    let a: nat = if n < 0 {
        (-n) as nat
    } else {
        n as nat
    };
    lemma2_to64();
    lemma2_to64_rest();
    lemma_bit_len(a);
    if bit_len(a) > 53 {
        lemma_pow2_mono(53, (bit_len(a) - 1) as nat);
    }
}


/// Converting an `i64` to binary64 and back with a saturating conversion gives the
/// integer that binary64 represents nearest to it, clamped to `lo..=hi`.
pub proof fn lemma_int_b64_int(n: int, lo: int, hi: int)
    requires
        i64::MIN <= n <= i64::MAX,
    ensures
        b64_to_int_saturating(b64_from_int(n), lo, hi) == clamp(round_to_b64(n), lo, hi),
{
    lemma_b64_from_int(n);
    lemma_denotes_trunc(b64_from_int(n), round_to_b64(n));
}

/// The binary64 pattern of the integer `n`, rounded to nearest with ties to even
/// (the result of Rust's `n as f64`).
pub fn b64_of_i64(n: i64) -> (r: u64)
    ensures
        r == b64_from_int(n as int),
        b64_denotes_int(r, round_to_b64(n as int)),
{
    proof {
        lemma2_to64();
        lemma2_to64_rest();
    }
    if n == 0 {
        proof {
            assert(bit_len(0) == 0);
            lemma_b64_assemble(false, 0, 0);
        }
        return 0;
    }
    let neg = n < 0;
    let a: u64 = if neg {
        if n == i64::MIN {
            0x8000_0000_0000_0000
        } else {
            (-n) as u64
        }
    } else {
        n as u64
    };
    let sign: u64 = if neg {
        0x8000_0000_0000_0000
    } else {
        0
    };
    let len = bit_length(a);
    proof {
        lemma_bit_len(a as nat);
    }
    if len <= 53 {
        let p = pow2_u64(53 - len);
        proof {
            lemma_scale_up(a as nat, len as nat);
        }
        let sig = a * p;
        let e = len + 1022;
        let bits = sign + e * 0x10_0000_0000_0000 + (sig - 0x10_0000_0000_0000);
        proof {
            assert(round_to_b64(n as int) == n as int);
            lemma_b64_assemble(neg, e as nat, (sig - two_52()) as nat);
            assert(b64_significand(bits) == sig);
            assert(b64_scale(bits) == len - 53);
            let ghost av: nat = if n < 0 {
                (-n) as nat
            } else {
                n as nat
            };
            assert(av == a);
            if len == 53 {
                assert(pow2(0) == 1);
                assert(p == 1);
                assert(sig == a * 1);
                assert(sig == a);
                assert(b64_significand(bits) * pow2(0) == av);
            } else {
                assert((-b64_scale(bits)) as nat == (53 - len) as nat);
                assert(b64_significand(bits) == av * pow2((-b64_scale(bits)) as nat));
            }
            assert(b64_exponent(bits) != 0x7ff);
            assert(b64_negative(bits) == (n < 0));
            assert(b64_denotes_int(bits, round_to_b64(n as int)));
        }
        bits
    } else {
        let k = len - 53;
        let p = pow2_u64(k);
        let q = a / p;
        let rem = a % p;
        let h = p / 2;
        proof {
            lemma_round_split(a as nat, len as nat, q as nat, rem as nat);
            lemma_pow2_unfold(k as nat);
        }
        let q2 = if rem > h || (rem == h && q % 2 == 1) {
            q + 1
        } else {
            q
        };
        let ghost m: nat = (q2 * pow2(k as nat)) as nat;
        proof {
            assert(round_to_b64(n as int) == (if neg {
                -m
            } else {
                m as int
            }));
        }
        if q2 == 0x20_0000_0000_0000 {
            let e = len + 1023;
            let bits = sign + e * 0x10_0000_0000_0000;
            proof {
                lemma_b64_assemble(neg, e as nat, 0);
                assert(bits == sign + e * two_52() + 0);
                lemma_pow2_adds(k as nat, 1);
                lemma_pow2_adds(len as nat, 0);
                lemma_pow2_adds(53, k as nat);
                assert(m == pow2(len as nat));
                lemma_pow2_strictly_increases(len as nat, (len + 1) as nat);
                lemma_bit_len_unique(m, (len + 1) as nat);
                lemma_pow2_adds(52, (k + 1) as nat);
                lemma_pow2_pos((k + 1) as nat);
                lemma_div_by_multiple(two_52() as int, pow2((k + 1) as nat) as int);
                assert(b64_scale(bits) == k + 1);
                assert(b64_significand(bits) == two_52());
                assert(b64_denotes_int(bits, round_to_b64(n as int)));
            }
            bits
        } else {
            let e = len + 1022;
            let bits = sign + e * 0x10_0000_0000_0000 + (q2 - 0x10_0000_0000_0000);
            proof {
                lemma_b64_assemble(neg, e as nat, (q2 - two_52()) as nat);
                lemma_pow2_pos(k as nat);
                lemma_mul_inequality(two_52() as int, q2 as int, pow2(k as nat) as int);
                lemma_mul_strict_inequality(q2 as int, 2 * two_52() as int, pow2(k as nat) as int);
                lemma_bit_len_unique(m, len as nat);
                lemma_div_by_multiple(q2 as int, pow2(k as nat) as int);
                assert(b64_scale(bits) == k);
                assert(b64_significand(bits) == q2);
                assert(b64_denotes_int(bits, round_to_b64(n as int)));
            }
            bits
        }
    }
}

/// The binary64 pattern of a binary32 value (Rust's lossless widening): finite values
/// and infinities keep their value and sign, and a NaN stays a NaN of the same sign.
pub fn b64_of_b32(bits: u32) -> (r: u64)
    ensures
        r == b64_from_b32(bits),
        b64_is_nan(r) == b32_is_nan(bits),
        b64_is_infinite(r) == b32_is_infinite(bits),
        b64_negative(r) == b32_negative(bits),
        !b32_is_nan(bits) && !b32_is_infinite(bits) ==> same_dyadic(
            b64_significand(r),
            b64_scale(r),
            b32_significand(bits),
            b32_scale(bits),
        ),
{
    proof {
        lemma2_to64();
        lemma2_to64_rest();
    }
    let neg = bits >= 0x8000_0000;
    let sign: u64 = if neg {
        0x8000_0000_0000_0000
    } else {
        0
    };
    let e: u64 = (bits / 0x80_0000 % 0x100) as u64;
    let f: u64 = (bits % 0x80_0000) as u64;
    if e == 0xff {
        if f == 0 {
            proof {
                lemma_b64_assemble(neg, 0x7ff, 0);
            }
            sign + 0x7ff * 0x10_0000_0000_0000
        } else {
            let payload = if f >= 0x40_0000 {
                f
            } else {
                f + 0x40_0000
            };
            let r = sign + 0x7ff * 0x10_0000_0000_0000 + payload * 0x2000_0000;
            proof {
                lemma_b64_assemble(neg, 0x7ff, (payload * 0x2000_0000) as nat);
            }
            r
        }
    } else if e == 0 {
        if f == 0 {
            proof {
                lemma_b64_assemble(neg, 0, 0);
            }
            sign
        } else {
            let len = bit_length(f);
            proof {
                lemma_bit_len(f as nat);
                if len > 23 {
                    lemma_pow2_mono(23, (len - 1) as nat);
                }
                lemma_scale_up(f as nat, len as nat);
            }
            let p = pow2_u64(53 - len);
            let sig = f * p;
            let r = sign + (len + 873) * 0x10_0000_0000_0000 + (sig - 0x10_0000_0000_0000);
            proof {
                lemma_b64_assemble(neg, (len + 873) as nat, (sig - two_52()) as nat);
                assert(b64_significand(r) == sig);
                assert(b64_scale(r) == len - 202);
                if len == 53 {
                    assert(false);
                }
                assert(b32_scale(bits) - b64_scale(r) == 53 - len);
                assert(same_dyadic(b64_significand(r), b64_scale(r), b32_significand(bits), b32_scale(bits)));
            }
            r
        }
    } else {
        let r = sign + (e + 896) * 0x10_0000_0000_0000 + f * 0x2000_0000;
        proof {
            lemma_b64_assemble(neg, (e + 896) as nat, (f * 0x2000_0000) as nat);
            assert(b64_significand(r) == (f + 0x80_0000) * 0x2000_0000);
            assert(b64_scale(r) == e - 179);
            assert(pow2(29) == 0x2000_0000);
            assert(b32_scale(bits) - b64_scale(r) == 29);
            assert(same_dyadic(b64_significand(r), b64_scale(r), b32_significand(bits), b32_scale(bits)));
        }
        r
    }
}



/// Rounding away `k` digits of a number below `2^(24 + k)` leaves at most `2^24`.
pub proof fn lemma_round_shift_bound(a: nat, k: nat, l: nat)
    requires
        k > 0,
        a < pow2(l),
        l <= 24 + k,
    ensures
        round_shift(a, k) <= 0x100_0000,
{
    lemma2_to64();
    lemma_pow2_pos(k);
    lemma_pow2_mono(l, 24 + k);
    lemma_pow2_adds(24, k);
    lemma_fundamental_div_mod(a as int, pow2(k) as int);
    let q = a / pow2(k);
    if q >= 0x100_0000 {
        lemma_mul_inequality(0x100_0000, q as int, pow2(k) as int);
        lemma_mul_is_commutative(q as int, pow2(k) as int);
        assert(false);
    }
}


/// The fields of a binary32 pattern add up to it.
proof fn lemma_b32_fields(bits: u32)
    ensures
        b32_exponent(bits) < 0x100,
        b32_fraction(bits) < 0x80_0000,
        bits as nat == (if b32_negative(bits) {
            0x8000_0000nat
        } else {
            0
        }) + b32_exponent(bits) * 0x80_0000 + b32_fraction(bits),
{
    let x = bits as nat;
    lemma_fundamental_div_mod(x as int, 0x80_0000);
    lemma_fundamental_div_mod((x / 0x80_0000) as int, 0x100);
    assert(x / 0x80_0000 < 0x200) by {
        lemma_div_is_ordered(x as int, 0x1_0000_0000, 0x80_0000);
    }
    assert((x / 0x80_0000) / 0x100 == if x >= 0x8000_0000 { 1nat } else { 0 }) by {
        if x >= 0x8000_0000 {
            lemma_div_is_ordered(0x8000_0000, x as int, 0x80_0000);
        } else {
            lemma_div_is_ordered(x as int, 0x7fff_ffff, 0x80_0000);
        }
    }
}

/// The fields of a binary32 pattern are in range and add up to it.
pub proof fn lemma_b32_fields_pub(bits: u32)
    ensures
        b32_exponent(bits) < 0x100,
        b32_fraction(bits) < 0x80_0000,
        bits as nat == (if b32_negative(bits) {
            0x8000_0000nat
        } else {
            0
        }) + b32_exponent(bits) * 0x80_0000 + b32_fraction(bits),
{
    lemma_b32_fields(bits);
}

/// `(x * 2^k) / 2^k == x` with no remainder.
proof fn lemma_shift_exact(x: nat, k: nat)
    ensures
        (x * pow2(k)) / pow2(k) == x,
        (x * pow2(k)) % pow2(k) == 0,
{
    lemma_pow2_pos(k);
    lemma_div_by_multiple(x as int, pow2(k) as int);
    lemma_mod_multiples_basic(x as int, pow2(k) as int);
}

/// Widening a binary32 value to binary64 and narrowing it back gives it unchanged,
/// except that a NaN comes back with its quiet bit set.
pub proof fn lemma_b32_b64_b32(bits: u32)
    ensures
        b32_from_b64(b64_from_b32(bits)) == (if b32_is_nan(bits) {
            ((if b32_negative(bits) {
                0x8000_0000nat
            } else {
                0
            }) + 0x7f80_0000 + quiet_payload(b32_fraction(bits))) as u32
        } else {
            bits
        }),
{
    lemma2_to64();
    lemma2_to64_rest();
    lemma_b32_fields(bits);
    let neg = b32_negative(bits);
    let e = b32_exponent(bits);
    let f = b32_fraction(bits);
    let w = b64_from_b32(bits);
    if e == 0xff {
        if f == 0 {
            lemma_b64_assemble(neg, 0x7ff, 0);
        } else {
            let qp = quiet_payload(f);
            lemma_b64_assemble(neg, 0x7ff, qp * 0x2000_0000);
            assert(pow2(29) == 0x2000_0000);
            lemma_shift_exact(qp, 29);
        }
    } else if e == 0 {
        if f == 0 {
            lemma_b64_assemble(neg, 0, 0);
            assert(bit_len(0) == 0);
            let k: nat = (b32_quantum(0, -1074) + 1074) as nat;
            lemma_pow2_pos(k);
            lemma_pow2_pos((k - 1) as nat);
            lemma_div_small(0, pow2(k));
            lemma_small_mod(0, pow2(k));
        } else {
            let len = bit_len(f);
            lemma_bit_len(f);
            if len > 23 {
                lemma_pow2_mono(23, (len - 1) as nat);
            }
            let k = (53 - len) as nat;
            let m = f * pow2(k);
            lemma_scale_up(f, len);
            lemma_b64_assemble(neg, len + 873, (m - two_52()) as nat);
            assert(b64_significand(w) == m);
            assert(b64_scale(w) == len - 202);
            lemma_bit_len_unique(m, 53);
            assert(b32_quantum(m, len - 202) == -149);
            lemma_shift_exact(f, k);
            lemma_pow2_pos((k - 1) as nat);
            assert(round_shift(m, k) == f);
        }
    } else {
        let m = (f + 0x80_0000) * 0x2000_0000;
        lemma_b64_assemble(neg, e + 896, f * 0x2000_0000);
        assert(b64_significand(w) == m);
        assert(b64_scale(w) == e - 179);
        lemma_bit_len_unique(m, 53);
        assert(b32_quantum(m, e - 179) == e - 150);
        assert(pow2(29) == 0x2000_0000);
        lemma_shift_exact(f + 0x80_0000, 29);
        lemma_pow2_pos(28);
        assert(round_shift(m, 29) == f + 0x80_0000);
    }
}

/// `a / 2^k` rounded to nearest, ties to even, for a 53-digit `a`.
fn round_shift_u64(a: u64, k: u64) -> (r: u64)
    requires
        a < 2 * two_52(),
        k > 0,
    ensures
        r == round_shift(a as nat, k as nat),
{
    proof {
        lemma2_to64();
        lemma2_to64_rest();
    }
    if k > 54 {
        proof {
            lemma_pow2_mono(54, (k - 1) as nat);
            lemma_pow2_mono(54, k as nat);
            lemma_div_small(a as nat, pow2(k as nat));
            lemma_small_mod(a as nat, pow2(k as nat));
        }
        return 0;
    }
    let p = pow2_u64(k);
    let q = a / p;
    let rem = a % p;
    let h = p / 2;
    proof {
        lemma_pow2_unfold(k as nat);
        lemma_pow2_pos(k as nat);
        assert(h == pow2((k - 1) as nat));
        lemma_div_is_ordered_by_denominator(a as int, 1, p as int);
        assert(a / 1 == a);
    }
    if rem > h || (rem == h && q % 2 == 1) {
        q + 1
    } else {
        q
    }
}

/// The binary32 pattern of a binary64 value, rounded to nearest with ties to even
/// (the result of Rust's `f64 as f32`).
pub fn b32_of_b64(bits: u64) -> (r: u32)
    ensures
        r == b32_from_b64(bits),
{
    proof {
        lemma2_to64();
        lemma2_to64_rest();
        lemma_b64_fields(bits);
    }
    let sign: u32 = if bits >= 0x8000_0000_0000_0000 {
        0x8000_0000
    } else {
        0
    };
    let exp: u64 = bits / 0x10_0000_0000_0000 % 0x800;
    let frac: u64 = bits % 0x10_0000_0000_0000;
    if exp == 0x7ff {
        if frac != 0 {
            return sign + 0x7fc0_0000 + ((frac / 0x2000_0000) % 0x40_0000) as u32;
        }
        return sign + 0x7f80_0000;
    }
    let m: u64 = if exp == 0 {
        frac
    } else {
        frac + 0x10_0000_0000_0000
    };
    let e: i64 = if exp == 0 {
        -1074
    } else {
        exp as i64 - 1075
    };
    assert(m == b64_significand(bits));
    assert(e == b64_scale(bits));
    if m == 0 {
        proof {
            assert(bit_len(0) == 0);
            let k: nat = (b32_quantum(0, e as int) - e) as nat;
            lemma_pow2_pos(k);
            lemma_pow2_pos((k - 1) as nat);
            lemma_div_small(0, pow2(k));
            lemma_small_mod(0, pow2(k));
            assert(round_shift(0, k) == 0);
        }
        return sign;
    }
    let l = bit_length(m) as i64;
    proof {
        lemma_bit_len(m as nat);
        if l > 53 {
            lemma_pow2_mono(53, (l - 1) as nat);
        }
    }
    let q: i64 = if l + e - 24 > -149 {
        l + e - 24
    } else {
        -149
    };
    assert(q == b32_quantum(m as nat, e as int));
    let r: u64 = if q <= e {
        let p = pow2_u64((e - q) as u64);
        proof {
            // m < 2^l and e - q <= 24 - l, so m * 2^(e - q) < 2^24
            lemma_pow2_adds(l as nat, (e - q) as nat);
            lemma_pow2_mono((l + (e - q)) as nat, 24);
            lemma_mul_strict_inequality(m as int, pow2(l as nat) as int, p as int);
        }
        m * p
    } else {
        round_shift_u64(m, (q - e) as u64)
    };
    proof {
        if q > e {
            // the rounded value has at most 24 digits plus a carry
            lemma_round_shift_bound(m as nat, (q - e) as nat, l as nat);
        }
        assert(r <= 0x100_0000);
    }
    if r == 0 {
        return sign;
    }
    if r < 0x80_0000 {
        return sign + r as u32;
    }
    let ex: i64 = if r == 0x100_0000 {
        q + 151
    } else {
        q + 150
    };
    let f: u64 = if r == 0x100_0000 {
        0
    } else {
        r - 0x80_0000
    };
    if ex >= 255 {
        return sign + 0x7f80_0000;
    }
    sign + (ex as u32) * 0x80_0000 + f as u32
}

} // verus!
