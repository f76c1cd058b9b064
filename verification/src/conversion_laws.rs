//! Properties of the conversions between Rust values and CLR values, including the
//! integers that cross the wire as binary64 numbers.
use crate::binary64::{
    b32_exponent, b32_fraction, b32_from_b64, b32_is_nan, b32_negative, b64_denotes_int,
    b64_from_b32, b64_from_int, b64_is_infinite, b64_is_nan, b64_negative, b64_trunc, clamp,
    lemma_b32_b64_b32, lemma_b64_assemble, lemma_b64_from_int, lemma_denotes_trunc,
    lemma_int_b64_int, lemma_round_small, quiet_payload, round_to_b64, two_52, two_63,
};
use crate::convert::{double_of, single_of, FromClrValue, ToClrValue};
use crate::laws::lemma_decode_encode;
use crate::marshal::ClrModel;
use crate::wire::{decode, encode, normalize, Decoded};
use vstd::prelude::*;

verus! {

// ---------------------------------------------------------------------------
// Integers that cross the wire as binary64
// ---------------------------------------------------------------------------
/// A date crosses the wire as its binary64 rendering: it comes back as the nearest
/// instant that binary64 holds, clamped to the `i64` range, and so unchanged whenever
/// its magnitude is below 2^53 milliseconds.
pub proof fn lemma_datetime_round_trip(n: i64, rest: Seq<u8>)
    ensures
        decode(encode(ClrModel::DateTime(n)) + rest) == Decoded::Value(
            ClrModel::DateTime(clamp(round_to_b64(n as int), i64::MIN as int, i64::MAX as int) as i64),
            12,
        ),
        -0x20_0000_0000_0000 < n < 0x20_0000_0000_0000 ==> decode(
            encode(ClrModel::DateTime(n)) + rest,
        ) == Decoded::Value(ClrModel::DateTime(n), 12),
{
    lemma_decode_encode(ClrModel::DateTime(n), rest);
    lemma_int_b64_int(n as int, i64::MIN as int, i64::MAX as int);
    if -0x20_0000_0000_0000 < n < 0x20_0000_0000_0000 {
        lemma_round_small(n as int);
    }
}

/// An `i64` sent as a CLR value and read back as an `i64` is the integer that binary64
/// holds nearest to it, clamped to the `i64` range, and so unchanged whenever its
/// magnitude is below 2^53.
pub proof fn lemma_i64_wire_round_trip(n: i64, r: i64)
    ensures
        <i64 as FromClrValue>::from_clr_accepts(normalize(n.to_clr_spec())),
        <i64 as FromClrValue>::from_clr_gives(normalize(n.to_clr_spec()), r) <==> r == clamp(
            round_to_b64(n as int),
            i64::MIN as int,
            i64::MAX as int,
        ),
        -0x20_0000_0000_0000 < n < 0x20_0000_0000_0000 ==> (<i64 as FromClrValue>::from_clr_gives(
            normalize(n.to_clr_spec()),
            r,
        ) <==> r == n),
{
    lemma_int_b64_int(n as int, i64::MIN as int, i64::MAX as int);
    if -0x20_0000_0000_0000 < n < 0x20_0000_0000_0000 {
        lemma_round_small(n as int);
    }
}

/// A single-precision number crosses the wire as binary64; read back as a
/// single-precision number it is unchanged, except that a NaN comes back quiet.
pub proof fn lemma_float_wire_round_trip(f: u32)
    ensures
        single_of(normalize(ClrModel::Float(f))) == Some(
            if b32_is_nan(f) {
                ((if b32_negative(f) {
                    0x8000_0000nat
                } else {
                    0
                }) + 0x7f80_0000 + quiet_payload(b32_fraction(f))) as u32
            } else {
                f
            },
        ),
{
    lemma_b32_b64_b32(f);
}

// ---------------------------------------------------------------------------
// What each numeric conversion gives
// ---------------------------------------------------------------------------
/// How a binary64 number converts to an integer of the range `lo..=hi` (as Rust's
/// `as` does): an integer it denotes within the range is kept exactly; otherwise a
/// finite number is truncated toward zero and saturated to the range, an infinity
/// gives the nearer bound and NaN gives 0.
pub open spec fn saturates_to(b: u64, lo: int, hi: int, r: int) -> bool {
    &&& forall|v: int| #[trigger] b64_denotes_int(b, v) && lo <= v <= hi ==> r == v
    &&& b64_is_nan(b) ==> r == 0
    &&& b64_is_infinite(b) && b64_negative(b) ==> r == lo
    &&& b64_is_infinite(b) && !b64_negative(b) ==> r == hi
    &&& !b64_is_nan(b) && !b64_is_infinite(b) ==> r == (if b64_trunc(b) < lo {
        lo
    } else if b64_trunc(b) > hi {
        hi
    } else {
        b64_trunc(b)
    })
}

/// The saturating conversion of a binary64 number into `lo..=hi` behaves as
/// `saturates_to` describes.
pub proof fn lemma_saturating(b: u64, lo: int, hi: int)
    requires
        lo <= 0 <= hi,
    ensures
        saturates_to(b, lo, hi, crate::binary64::b64_to_int_saturating(b, lo, hi)),
{
    assert forall|v: int| #[trigger] b64_denotes_int(b, v) && lo <= v <= hi implies
        crate::binary64::b64_to_int_saturating(b, lo, hi) == v by {
        lemma_denotes_trunc(b, v);
    }
}

/// Converting to `i64`: an `Int64` or `Int32` keeps its value (an `Int32` is
/// sign-extended), and a `Double` converts as Rust's `as` does.
pub proof fn lemma_i64_from_clr(n32: i32, n64: i64, b: u64, r: i64)
    ensures
        <i64 as FromClrValue>::from_clr_accepts(ClrModel::Int32(n32)),
        <i64 as FromClrValue>::from_clr_gives(ClrModel::Int32(n32), r) <==> r as int == n32 as int,
        <i64 as FromClrValue>::from_clr_accepts(ClrModel::Int64(n64)),
        <i64 as FromClrValue>::from_clr_gives(ClrModel::Int64(n64), r) <==> r == n64,
        <i64 as FromClrValue>::from_clr_accepts(ClrModel::Double(b)),
        <i64 as FromClrValue>::from_clr_gives(ClrModel::Double(b), r) ==> saturates_to(
            b,
            i64::MIN as int,
            i64::MAX as int,
            r as int,
        ),
{
    lemma_saturating(b, i64::MIN as int, i64::MAX as int);
}

/// Converting to `i32`: an `Int32` keeps its value, an `Int64` keeps its low 32 bits
/// (it is congruent to the result modulo 2^32), and a `Double` converts as Rust's
/// `as` does.
pub proof fn lemma_i32_from_clr(n32: i32, n64: i64, b: u64, r: i32)
    ensures
        <i32 as FromClrValue>::from_clr_gives(ClrModel::Int32(n32), r) <==> r == n32,
        <i32 as FromClrValue>::from_clr_accepts(ClrModel::Int64(n64)),
        <i32 as FromClrValue>::from_clr_gives(ClrModel::Int64(n64), r) ==> (r - n64) % 0x1_0000_0000
            == 0,
        <i32 as FromClrValue>::from_clr_gives(ClrModel::Double(b), r) ==> saturates_to(
            b,
            i32::MIN as int,
            i32::MAX as int,
            r as int,
        ),
{
    lemma_saturating(b, i32::MIN as int, i32::MAX as int);
    if <i32 as FromClrValue>::from_clr_gives(ClrModel::Int64(n64), r) {
        let q = n64 / 0x1_0000_0000;
        let m = n64 % 0x1_0000_0000;
        vstd::arithmetic::div_mod::lemma_fundamental_div_mod(n64 as int, 0x1_0000_0000);
        assert(0 <= m < 0x1_0000_0000);
        if m >= 0x8000_0000 {
            assert(r - n64 == (-q - 1) * 0x1_0000_0000);
            vstd::arithmetic::div_mod::lemma_mod_multiples_basic(-q - 1, 0x1_0000_0000);
        } else {
            assert(r - n64 == (-q) * 0x1_0000_0000);
            vstd::arithmetic::div_mod::lemma_mod_multiples_basic(-q, 0x1_0000_0000);
        }
    }
}

/// Converting to `u32`: a `UInt32` keeps its value, an `Int32` keeps its bit pattern
/// (it is congruent to the result modulo 2^32), and a `Double` converts as Rust's `as`
/// does, saturating to `0..=u32::MAX`.
pub proof fn lemma_u32_from_clr(n: u32, i: i32, b: u64, r: u32)
    ensures
        <u32 as FromClrValue>::from_clr_gives(ClrModel::UInt32(n), r) <==> r == n,
        <u32 as FromClrValue>::from_clr_accepts(ClrModel::Int32(i)),
        <u32 as FromClrValue>::from_clr_gives(ClrModel::Int32(i), r) <==> (r - i) % 0x1_0000_0000
            == 0,
        <u32 as FromClrValue>::from_clr_accepts(ClrModel::Double(b)),
        <u32 as FromClrValue>::from_clr_gives(ClrModel::Double(b), r) ==> saturates_to(
            b,
            0,
            u32::MAX as int,
            r as int,
        ),
{
    lemma_saturating(b, 0, u32::MAX as int);
    if (r - i) % 0x1_0000_0000 == 0 {
        let d = r - i;
        assert(d == (d / 0x1_0000_0000) * 0x1_0000_0000) by (nonlinear_arith)
            requires
                d % 0x1_0000_0000 == 0,
        ;
        assert(-0x8000_0000 < d / 0x1_0000_0000 + 1) by (nonlinear_arith)
            requires
                d == (d / 0x1_0000_0000) * 0x1_0000_0000,
                -0x7fff_ffff <= d <= 0x1_7fff_ffff,
        ;
        if i < 0 {
            assert(d / 0x1_0000_0000 == 1) by (nonlinear_arith)
                requires
                    d == (d / 0x1_0000_0000) * 0x1_0000_0000,
                    0x1 <= d <= 0x1_7fff_ffff,
            ;
        } else {
            assert(d / 0x1_0000_0000 == 0) by (nonlinear_arith)
                requires
                    d == (d / 0x1_0000_0000) * 0x1_0000_0000,
                    -0x7fff_ffff <= d <= 0xffff_ffff,
            ;
        }
    }
}

/// Converting to a double-precision float: a `Double` is kept, an `Int32` is
/// represented exactly, an `Int64` becomes the binary64 integer nearest to it (exactly
/// itself below 2^53 in magnitude), a `Float` keeps its value (narrowing gives it
/// back) and stays NaN when it is one; every other variant is refused.
pub proof fn lemma_double_of(v: ClrModel)
    ensures
        v is Double || v is Float || v is Int32 || v is Int64 <==> double_of(v) is Some,
        v matches ClrModel::Double(b) ==> double_of(v) == Some(b),
        v matches ClrModel::Int32(n) ==> b64_denotes_int(double_of(v)->0, n as int),
        v matches ClrModel::Int64(n) ==> b64_denotes_int(double_of(v)->0, round_to_b64(n as int)),
        v matches ClrModel::Int64(n) ==> (-0x20_0000_0000_0000 < n < 0x20_0000_0000_0000
            ==> b64_denotes_int(double_of(v)->0, n as int)),
        v matches ClrModel::Float(f) ==> (!b32_is_nan(f) ==> b32_from_b64(double_of(v)->0) == f),
        v matches ClrModel::Float(f) ==> (b32_is_nan(f) ==> b64_is_nan(double_of(v)->0)),
{
    match v {
        ClrModel::Int32(n) => {
            lemma_b64_from_int(n as int);
            lemma_round_small(n as int);
        },
        ClrModel::Int64(n) => {
            lemma_b64_from_int(n as int);
            if -0x20_0000_0000_0000 < n < 0x20_0000_0000_0000 {
                lemma_round_small(n as int);
            }
        },
        ClrModel::Float(f) => {
            lemma_b32_b64_b32(f);
            if b32_is_nan(f) {
                crate::binary64::lemma_b32_fields_pub(f);
                lemma_b64_assemble(b32_negative(f), 0x7ff, quiet_payload(b32_fraction(f)) * 0x2000_0000);
            }
        },
        _ => {},
    }
}

/// Converting to a single-precision float: a `Float` is kept, a `Double` that widens
/// a non-NaN `Float` narrows back to it, and every variant other than these two is
/// refused.
pub proof fn lemma_single_of(v: ClrModel, f: u32)
    ensures
        v is Double || v is Float <==> single_of(v) is Some,
        v matches ClrModel::Float(g) ==> single_of(v) == Some(g),
        !b32_is_nan(f) ==> single_of(ClrModel::Double(b64_from_b32(f))) == Some(f),
{
    lemma_b32_b64_b32(f);
}

// ---------------------------------------------------------------------------
// Conversions to a CLR value and back
// ---------------------------------------------------------------------------
/// `x` converts to a CLR value that converts back to `x`, and to nothing else.
pub open spec fn converts_back<T: ToClrValue + FromClrValue>(x: T) -> bool {
    &&& T::from_clr_accepts(x.to_clr_spec())
    &&& forall|y: T| #[trigger] T::from_clr_gives(x.to_clr_spec(), y) <==> y == x
}

/// Booleans and 32- and 64-bit integers convert to CLR values and back unchanged.
pub proof fn lemma_scalars_convert_back(b: bool, i: i32, u: u32, l: i64)
    ensures
        converts_back(b),
        converts_back(i),
        converts_back(u),
        converts_back(l),
{
}

/// A string converts to a CLR value that converts back to the same text.
pub proof fn lemma_string_converts_back(s: String, t: String)
    ensures
        <String as FromClrValue>::from_clr_accepts(s.to_clr_spec()),
        <String as FromClrValue>::from_clr_gives(s.to_clr_spec(), t) <==> t@ == s@,
{
}

/// A byte vector converts to a buffer that converts back to the same bytes.
pub proof fn lemma_bytes_convert_back(b: Vec<u8>, c: Vec<u8>)
    ensures
        <Vec<u8> as FromClrValue>::from_clr_accepts(b.to_clr_spec()),
        <Vec<u8> as FromClrValue>::from_clr_gives(b.to_clr_spec(), c) <==> c@ == b@,
{
}

/// A vector whose elements convert back converts to an array that converts back to a
/// vector of the same elements.
pub proof fn lemma_vec_converts_back<T: ToClrValue + FromClrValue>(xs: Vec<T>, ys: Vec<T>)
    requires
        forall|i: int| 0 <= i < xs@.len() ==> converts_back(#[trigger] xs@[i]),
    ensures
        <Vec<T> as FromClrValue>::from_clr_accepts(xs.to_clr_spec()),
        <Vec<T> as FromClrValue>::from_clr_gives(xs.to_clr_spec(), ys) <==> ys@ == xs@,
{
    let items = Seq::new(xs@.len(), |i: int| xs@[i].to_clr_spec());
    assert(xs.to_clr_spec() == ClrModel::Array(items));
    assert forall|i: int| 0 <= i < items.len() implies T::from_clr_accepts(#[trigger] items[i]) by {
        assert(converts_back(xs@[i]));
    }
    if <Vec<T> as FromClrValue>::from_clr_gives(xs.to_clr_spec(), ys) {
        assert forall|i: int| 0 <= i < xs@.len() implies ys@[i] == xs@[i] by {
            assert(converts_back(xs@[i]));
            assert(T::from_clr_gives(items[i], ys@[i]));
        }
        assert(ys@ =~= xs@);
    }
    if ys@ == xs@ {
        assert forall|i: int| 0 <= i < items.len() implies T::from_clr_gives(#[trigger] items[i], ys@[i]) by {
            assert(converts_back(xs@[i]));
        }
    }
}

/// `Some(x)` converts back when `x` does and does not convert to `Null`; `None`
/// converts to `Null` and back.
pub proof fn lemma_option_converts_back<T: ToClrValue + FromClrValue>(x: Option<T>)
    requires
        x matches Some(v) ==> converts_back(v) && v.to_clr_spec() !is Null,
    ensures
        converts_back(x),
{
    if let Some(v) = x {
        assert(converts_back(v));
        assert forall|y: Option<T>| #[trigger] <Option<T> as FromClrValue>::from_clr_gives(x.to_clr_spec(), y) <==> y == x by {
            if let Some(w) = y {
                assert(T::from_clr_gives(v.to_clr_spec(), w) <==> w == v);
            }
        }
    }
}

} // verus!
