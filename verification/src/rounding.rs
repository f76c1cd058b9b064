//! Rounding integers to binary64 is idempotent: the facts behind a second trip over
//! the wire changing nothing.
use crate::binary64::{
    bit_len, clamp, lemma_bit_len, lemma_bit_len_unique, lemma_round_split, round_to_b64, two_52,
};
use vstd::arithmetic::div_mod::*;
use vstd::arithmetic::mul::*;
use vstd::arithmetic::power2::*;
use vstd::bits::*;
use vstd::prelude::*;

verus! {

proof fn lemma_pow2_mono(a: nat, b: nat)
    requires
        a <= b,
    ensures
        pow2(a) <= pow2(b),
{
    if a < b {
        lemma_pow2_strictly_increases(a, b);
    }
}

/// Rounding a magnitude of `len > 53` digits gives a multiple of `2^(len - 53)` of
/// at most `2^len` that rounds to itself.
proof fn lemma_round_magnitude(a: nat)
    requires
        53 < bit_len(a) <= 64,
    ensures
        ({
            let k = (bit_len(a) - 53) as nat;
            let q = a / pow2(k);
            let r = a % pow2(k);
            let h = pow2((k - 1) as nat);
            let m = if r > h || (r == h && q % 2 == 1) {
                (q + 1) * pow2(k)
            } else {
                q * pow2(k)
            };
            &&& m <= pow2(bit_len(a))
            &&& m > 0
            &&& round_to_b64(m as int) == m
        }),
{
    lemma2_to64();
    lemma2_to64_rest();
    let len = bit_len(a);
    let k = (len - 53) as nat;
    let pk = pow2(k);
    let q = a / pk;
    let r = a % pk;
    let h = pow2((k - 1) as nat);
    lemma_bit_len(a);
    lemma_pow2_pos(k);
    lemma_round_split(a, len, q, r);
    let q2: nat = if r > h || (r == h && q % 2 == 1) {
        q + 1
    } else {
        q
    };
    let m = q2 * pk;
    lemma_mul_inequality(q2 as int, 2 * two_52() as int, pk as int);
    lemma_mul_inequality(two_52() as int, q2 as int, pk as int);
    assert(m <= pow2(len));
    if q2 < 2 * two_52() {
        // m has len digits and is a multiple of 2^k: it is its own rounding
        lemma_mul_strict_inequality(q2 as int, 2 * two_52() as int, pk as int);
        lemma_bit_len_unique(m, len);
        lemma_div_by_multiple(q2 as int, pk as int);
        lemma_mod_multiples_basic(q2 as int, pk as int);
        lemma_pow2_pos((k - 1) as nat);
    } else {
        // m == 2^len: len + 1 digits, a multiple of 2^(k + 1)
        lemma_pow2_unfold(len + 1);
        lemma_pow2_strictly_increases(len, len + 1);
        lemma_bit_len_unique(m, len + 1);
        lemma_pow2_adds(52, k + 1);
        lemma_pow2_pos(k + 1);
        lemma_pow2_pos(k);
        assert(m == two_52() * pow2(k + 1));
        lemma_div_by_multiple(two_52() as int, pow2(k + 1) as int);
        lemma_mod_multiples_basic(two_52() as int, pow2(k + 1) as int);
    }
}

/// Rounding to binary64 is idempotent, and keeps magnitudes of at most `2^63` within
/// `2^63`.
pub proof fn lemma_round_idempotent(n: int)
    requires
        -0x8000_0000_0000_0000 <= n <= 0x8000_0000_0000_0000,
    ensures
        round_to_b64(round_to_b64(n)) == round_to_b64(n),
        -0x8000_0000_0000_0000 <= round_to_b64(n) <= 0x8000_0000_0000_0000,
{
    lemma2_to64();
    lemma2_to64_rest();
    let a: nat = if n < 0 {
        (-n) as nat
    } else {
        n as nat
    };
    lemma_bit_len(a);
    if bit_len(a) > 64 {
        lemma_pow2_mono(64, (bit_len(a) - 1) as nat);
        assert(false);
    }
    if bit_len(a) > 53 {
        lemma_round_magnitude(a);
        if bit_len(a) == 64 {
            lemma_pow2_mono(63, (bit_len(a) - 1) as nat);
            assert(a == pow2(63));
            lemma_pow2_adds(52, 11);
            lemma_pow2_pos(11);
            lemma_div_by_multiple(two_52() as int, pow2(11) as int);
            lemma_mod_multiples_basic(two_52() as int, pow2(11) as int);
            assert(a / pow2(11) == two_52());
            assert(a % pow2(11) == 0);
            lemma_pow2_pos(10);
            assert(round_to_b64(n) == n);
        } else {
            lemma_pow2_mono(bit_len(a), 63);
        }
    }
}

/// The last kept binary digit of an integer of magnitude `a` in binary64: binary64
/// keeps 53 significant digits, so integers are spaced `2^k` apart there.
pub open spec fn b64_spacing_exp(a: nat) -> nat {
    if bit_len(a) > 53 {
        (bit_len(a) - 53) as nat
    } else {
        0
    }
}

/// `round_to_b64` rounds to nearest, ties to even: the result has the sign of `n`,
/// is a multiple of the spacing `2^k` of binary64 integers around `n`, lies within
/// half a spacing of `n`, and on a tie is an even multiple.
pub proof fn lemma_round_nearest(n: int)
    requires
        -0x8000_0000_0000_0000 <= n <= 0x8000_0000_0000_0000,
    ensures
        ({
            let a: nat = if n < 0 {
                (-n) as nat
            } else {
                n as nat
            };
            let p = pow2(b64_spacing_exp(a));
            let r = round_to_b64(n);
            let m: int = if n < 0 {
                -r
            } else {
                r
            };
            &&& m >= 0
            &&& m % (p as int) == 0
            &&& 2 * (m - a) <= p
            &&& 2 * (a - m) <= p
            &&& (2 * (m - a) == p || 2 * (a - m) == p) ==> (m / (p as int)) % 2 == 0
        }),
{
    lemma2_to64();
    lemma2_to64_rest();
    let a: nat = if n < 0 {
        (-n) as nat
    } else {
        n as nat
    };
    lemma_bit_len(a);
    if bit_len(a) > 64 {
        lemma_pow2_mono(64, (bit_len(a) - 1) as nat);
        assert(false);
    }
    if bit_len(a) > 53 {
        let len = bit_len(a);
        let k = (len - 53) as nat;
        let pk = pow2(k);
        let q = a / pk;
        let rem = a % pk;
        lemma_round_split(a, len, q, rem);
        lemma_pow2_pos(k);
        let h = pow2((k - 1) as nat);
        lemma_mod_multiples_basic(q as int, pk as int);
        lemma_mod_multiples_basic((q + 1) as int, pk as int);
        lemma_div_by_multiple(q as int, pk as int);
        lemma_div_by_multiple((q + 1) as int, pk as int);
        assert((q + 1) * pk == q * pk + pk) by (nonlinear_arith);
    } else {
        assert(pow2(0) == 1);
    }
}

/// A date already rounded through binary64 and clamped to the `i64` range rounds and
/// clamps to itself.
pub proof fn lemma_clamp_round_fixed(n: int)
    requires
        i64::MIN <= n <= i64::MAX,
    ensures
        ({
            let c = clamp(round_to_b64(n), i64::MIN as int, i64::MAX as int);
            clamp(round_to_b64(c), i64::MIN as int, i64::MAX as int) == c
        }),
{
    lemma_round_idempotent(n);
    let r = round_to_b64(n);
    if r > i64::MAX {
        // r == 2^63, and i64::MAX rounds to 2^63 as well
        lemma2_to64();
        lemma2_to64_rest();
        let mx: nat = 0x7fff_ffff_ffff_ffff;
        lemma_bit_len_unique(mx, 63);
        assert(bit_len(mx) == 63);
        assert(pow2(10) == 1024);
        assert(pow2(9) == 512);
        assert(mx / 1024 == 0x1f_ffff_ffff_ffff);
        assert(mx % 1024 == 1023);
        assert(mx / pow2(10) == 0x1f_ffff_ffff_ffff);
        assert(mx % pow2(10) == 1023);
        assert((0x1f_ffff_ffff_ffffnat + 1) * pow2(10) == 0x8000_0000_0000_0000);
        assert(round_to_b64(mx as int) == 0x8000_0000_0000_0000);
    }
}

} // verus!
