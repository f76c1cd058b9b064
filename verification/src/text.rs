//! Text helpers: UTF-8 decoding, decimal and hexadecimal renderings of integers.
use vstd::prelude::*;
use vstd::string::*;
use vstd::utf8::*;

verus! {

/// The display text of the error that `std::str::from_utf8` reports for `bytes`.
pub uninterp spec fn utf8_error_text(bytes: Seq<u8>) -> Seq<char>;

/// Decodes UTF-8 bytes with `std::str::from_utf8`.
///
/// Trusted: `from_utf8` succeeds exactly on valid UTF-8 (as `vstd::utf8::valid_utf8`
/// defines it) and then yields the string those bytes encode; on failure the
/// error's display text is returned, named `utf8_error_text`.
#[verifier::external_body]
pub(crate) fn utf8_decode(bytes: &[u8]) -> (r: Result<String, String>)
    ensures
        r is Ok <==> valid_utf8(bytes@),
        r matches Ok(s) ==> s@ == decode_utf8(bytes@),
        r matches Err(m) ==> m@ == utf8_error_text(bytes@),
{
    match std::str::from_utf8(bytes) {
        Ok(s) => Ok(s.to_string()),
        Err(e) => Err(e.to_string()),
    }
}

/// The text that `String::from_utf8_lossy` makes of `bytes`.
pub uninterp spec fn lossy_utf8_text(bytes: Seq<u8>) -> Seq<char>;

/// Decodes bytes with `String::from_utf8_lossy` (invalid sequences become U+FFFD).
///
/// Trusted: the result is named `lossy_utf8_text`; on valid UTF-8 it is the decoded
/// string, and since every byte either belongs to a decoded character or is replaced
/// by U+FFFD, non-empty bytes give non-empty text, as the documentation of
/// `from_utf8_lossy` states.
#[verifier::external_body]
pub(crate) fn utf8_decode_lossy(bytes: &[u8]) -> (r: String)
    ensures
        r@ == lossy_utf8_text(bytes@),
        valid_utf8(bytes@) ==> r@ == decode_utf8(bytes@),
        bytes@.len() > 0 ==> r@.len() > 0,
{
    String::from_utf8_lossy(bytes).into_owned()
}

/// The character of a decimal digit.
pub open spec fn digit_char(d: nat) -> char {
    if d == 0 {
        '0'
    } else if d == 1 {
        '1'
    } else if d == 2 {
        '2'
    } else if d == 3 {
        '3'
    } else if d == 4 {
        '4'
    } else if d == 5 {
        '5'
    } else if d == 6 {
        '6'
    } else if d == 7 {
        '7'
    } else if d == 8 {
        '8'
    } else {
        '9'
    }
}

/// The character of an uppercase hexadecimal digit.
pub open spec fn hex_char(d: nat) -> char {
    if d < 10 {
        digit_char(d)
    } else if d == 10 {
        'A'
    } else if d == 11 {
        'B'
    } else if d == 12 {
        'C'
    } else if d == 13 {
        'D'
    } else if d == 14 {
        'E'
    } else {
        'F'
    }
}

/// Decimal digits of `n`, without leading zeros ("0" for zero).
pub open spec fn decimal_digits(n: nat) -> Seq<char>
    decreases n,
{
    if n < 10 {
        seq![digit_char(n)]
    } else {
        decimal_digits(n / 10).push(digit_char(n % 10))
    }
}

/// Decimal text of an integer, with a leading '-' when negative (as `{}` formats it).
pub open spec fn decimal_text(n: int) -> Seq<char> {
    if n < 0 {
        seq!['-'] + decimal_digits((-n) as nat)
    } else {
        decimal_digits(n as nat)
    }
}

/// The last `k` uppercase hexadecimal digits of `n`, zero padded (as `{:0kX}` formats a
/// value below 16^k).
pub open spec fn hex_digits(n: nat, k: nat) -> Seq<char>
    decreases k,
{
    if k == 0 {
        seq![]
    } else {
        hex_digits(n / 16, (k - 1) as nat).push(hex_char(n % 16))
    }
}

/// The two's-complement bit pattern of a 32-bit signed integer.
pub open spec fn u32_pattern(n: int) -> nat {
    if n < 0 {
        (n + 0x1_0000_0000) as nat
    } else {
        n as nat
    }
}

/// The value of a digit character: `0`..`9` and then `A`..`F`; -1 for any other.
pub open spec fn digit_value(c: char) -> int {
    if '0' <= c && c <= '9' {
        c as int - 48
    } else if 'A' <= c && c <= 'F' {
        c as int - 55
    } else {
        -1
    }
}

/// The number that the digits `s` write in base `base`, most significant first.
pub open spec fn digits_value(s: Seq<char>, base: int) -> int
    decreases s.len(),
{
    if s.len() == 0 {
        0
    } else {
        digits_value(s.drop_last(), base) * base + digit_value(s.last())
    }
}

proof fn lemma_digit_chars(d: nat)
    requires
        d < 16,
    ensures
        digit_value(hex_char(d)) == d,
        d < 10 ==> digit_value(digit_char(d)) == d && '0' <= digit_char(d) <= '9',
{
}

/// The decimal digits of `n` are decimal digit characters, without a leading zero
/// (unless `n` is 0), and read back as `n`.
pub proof fn lemma_decimal_digits(n: nat)
    ensures
        digits_value(decimal_digits(n), 10) == n,
        forall|i: int|
            0 <= i < decimal_digits(n).len() ==> '0' <= #[trigger] decimal_digits(n)[i] <= '9',
        decimal_digits(n).len() >= 1,
        n > 0 ==> decimal_digits(n)[0] != '0',
    decreases n,
{
    if n < 10 {
        lemma_digit_chars(n);
        assert(seq![digit_char(n)].drop_last() =~= Seq::<char>::empty());
        assert(digits_value(Seq::<char>::empty(), 10) == 0);
        assert(digits_value(seq![digit_char(n)], 10) == 0 * 10 + digit_value(digit_char(n)));
    } else {
        lemma_decimal_digits(n / 10);
        lemma_digit_chars(n % 10);
        let s = decimal_digits(n / 10);
        assert(s.push(digit_char(n % 10)).drop_last() =~= s);
        assert(n == (n / 10) * 10 + n % 10);
        assert(s.push(digit_char(n % 10))[0] == s[0]);
        assert(digits_value(s.push(digit_char(n % 10)), 10) == digits_value(s, 10) * 10
            + digit_value(digit_char(n % 10)));
    }
}

/// The `k` hexadecimal digits of `n` are `k` digit characters that read back as `n`
/// modulo `16^k`.
pub proof fn lemma_hex_digits(n: nat, k: nat)
    ensures
        hex_digits(n, k).len() == k,
        digits_value(hex_digits(n, k), 16) == n % vstd::arithmetic::power::pow(16, k) as nat,
    decreases k,
{
    vstd::arithmetic::power::lemma_pow_positive(16, k);
    if k == 0 {
        vstd::arithmetic::power::lemma_pow0(16);
        vstd::arithmetic::div_mod::lemma_mod_is_mod_recursive(n as int, 1);
    } else {
        lemma_hex_digits(n / 16, (k - 1) as nat);
        lemma_digit_chars(n % 16);
        let s = hex_digits(n / 16, (k - 1) as nat);
        assert(s.push(hex_char(n % 16)).drop_last() =~= s);
        let p = vstd::arithmetic::power::pow(16, (k - 1) as nat);
        vstd::arithmetic::power::lemma_pow_positive(16, (k - 1) as nat);
        vstd::arithmetic::power::lemma_pow_adds(16, 1, (k - 1) as nat);
        vstd::arithmetic::power::lemma_pow1(16);
        assert(vstd::arithmetic::power::pow(16, k) == 16 * p);
        vstd::arithmetic::div_mod::lemma_breakdown(n as int, 16, p);
    }
}

/// The pattern of a 32-bit signed integer is the unsigned 32-bit integer congruent to
/// it modulo 2^32.
pub proof fn lemma_u32_pattern(n: i32)
    ensures
        0 <= u32_pattern(n as int) < 0x1_0000_0000,
        (u32_pattern(n as int) - n) % 0x1_0000_0000 == 0,
{
    if n < 0 {
        vstd::arithmetic::div_mod::lemma_mod_self_0(0x1_0000_0000);
    }
}

fn digit_str(d: u64) -> (s: &'static str)
    requires
        d < 16,
    ensures
        s@ == seq![hex_char(d as nat)],
{
    proof {
        reveal_strlit("0");
        reveal_strlit("1");
        reveal_strlit("2");
        reveal_strlit("3");
        reveal_strlit("4");
        reveal_strlit("5");
        reveal_strlit("6");
        reveal_strlit("7");
        reveal_strlit("8");
        reveal_strlit("9");
        reveal_strlit("A");
        reveal_strlit("B");
        reveal_strlit("C");
        reveal_strlit("D");
        reveal_strlit("E");
        reveal_strlit("F");
    }
    if d == 0 {
        "0"
    } else if d == 1 {
        "1"
    } else if d == 2 {
        "2"
    } else if d == 3 {
        "3"
    } else if d == 4 {
        "4"
    } else if d == 5 {
        "5"
    } else if d == 6 {
        "6"
    } else if d == 7 {
        "7"
    } else if d == 8 {
        "8"
    } else if d == 9 {
        "9"
    } else if d == 10 {
        "A"
    } else if d == 11 {
        "B"
    } else if d == 12 {
        "C"
    } else if d == 13 {
        "D"
    } else if d == 14 {
        "E"
    } else {
        "F"
    }
}

/// Appends the decimal digits of `n`.
pub fn push_decimal_digits(s: &mut String, n: u64)
    ensures
        final(s)@ == old(s)@ + decimal_digits(n as nat),
    decreases n,
{
    if n >= 10 {
        push_decimal_digits(s, n / 10);
    }
    s.append(digit_str(n % 10));
    proof {
        if n < 10 {
            assert(decimal_digits(n as nat) == seq![digit_char(n as nat)]);
        }
    }
}

/// Appends the decimal text of `n` (as `{}` formats it).
pub fn push_decimal(s: &mut String, n: i64)
    ensures
        final(s)@ == old(s)@ + decimal_text(n as int),
{
    proof {
        reveal_strlit("-");
    }
    if n < 0 {
        s.append("-");
        let a: u64 = if n == i64::MIN {
            0x8000_0000_0000_0000
        } else {
            (-n) as u64
        };
        push_decimal_digits(s, a);
    } else {
        push_decimal_digits(s, n as u64);
    }
}

/// Appends the last `k` uppercase hexadecimal digits of `n`.
pub fn push_hex_digits(s: &mut String, n: u64, k: u64)
    ensures
        final(s)@ == old(s)@ + hex_digits(n as nat, k as nat),
    decreases k,
{
    if k > 0 {
        push_hex_digits(s, n / 16, k - 1);
        s.append(digit_str(n % 16));
    }
}

/// Appends `0x` and the 8-digit uppercase hexadecimal pattern of `n` (as `0x{:08X}`
/// formats a 32-bit signed integer).
pub fn push_status_hex(s: &mut String, n: i32)
    ensures
        final(s)@ == old(s)@ + seq!['0', 'x'] + hex_digits(u32_pattern(n as int), 8),
{
    proof {
        reveal_strlit("0x");
    }
    s.append("0x");
    let p: u64 = if n < 0 {
        (n as i64 + 0x1_0000_0000) as u64
    } else {
        n as u64
    };
    push_hex_digits(s, p, 8);
}

/// The characters of a string slice.
pub fn chars_of(s: &str) -> (v: Vec<char>)
    ensures
        v@ == s@,
{
    broadcast use vstd::string::group_string_axioms;

    let mut v: Vec<char> = Vec::new();
    for c in it: s.chars()
        invariant
            v@ == it.seq().take(it.index() as int),
    {
        v.push(c);
    }
    assert(v@ =~= s@);
    v
}

} // verus!
