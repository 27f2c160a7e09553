//! Decimal notation of integers: writing `u64`/`i64` values the way `Display`
//! does, and reading a `u32` the way `str::parse::<u32>` does.
use vstd::prelude::*;
use vstd::string::*;

verus! {

broadcast use vstd::string::group_string_axioms;

/// The ASCII digit for `d < 10`.
pub open spec fn digit_char(d: nat) -> char {
    (d + 48) as char
}

/// `c` is one of the ASCII digits `0`..`9`.
pub open spec fn is_digit(c: char) -> bool {
    '0' <= c && c <= '9'
}

/// The value `0..=9` of an ASCII digit.
pub open spec fn digit_value(c: char) -> nat {
    (c as int - 48) as nat
}

/// Decimal notation of `n` without leading zeros (`"0"` for zero).
pub open spec fn decimal_digits(n: nat) -> Seq<char>
    decreases n,
{
    if n < 10 {
        seq![digit_char(n)]
    } else {
        decimal_digits(n / 10).push(digit_char(n % 10))
    }
}

/// Decimal notation of a signed integer, with a leading `-` when negative.
pub open spec fn decimal_int(n: int) -> Seq<char> {
    if n < 0 {
        seq!['-'] + decimal_digits((-n) as nat)
    } else {
        decimal_digits(n as nat)
    }
}

/// Every character is an ASCII digit.
pub open spec fn all_digits(s: Seq<char>) -> bool {
    forall|i: int| 0 <= i < s.len() ==> is_digit(#[trigger] s[i])
}

/// The number that a string of decimal digits denotes.
pub open spec fn digits_value(s: Seq<char>) -> nat
    decreases s.len(),
{
    if s.len() == 0 {
        0
    } else {
        digits_value(s.drop_last()) * 10 + digit_value(s.last())
    }
}

/// What `str::parse::<u32>` accepts and gives back: an optional `+` sign, then
/// one or more ASCII digits whose value fits in a `u32`.
pub open spec fn parse_u32_spec(s: Seq<char>) -> Option<u32> {
    let digits = if s.len() > 0 && s[0] == '+' { s.drop_first() } else { s };
    if digits.len() > 0 && all_digits(digits) && digits_value(digits) <= u32::MAX {
        Some(digits_value(digits) as u32)
    } else {
        None
    }
}

/// Decimal notation consists of digits only and reads back as the number.
pub proof fn lemma_decimal_digits_roundtrip(n: nat)
    ensures
        decimal_digits(n).len() > 0,
        all_digits(decimal_digits(n)),
        digits_value(decimal_digits(n)) == n,
    decreases n,
{
    let d = decimal_digits(n);
    assert(n == (n / 10) * 10 + n % 10) by (nonlinear_arith);
    assert(digit_value(digit_char(n % 10)) == n % 10);
    if n >= 10 {
        lemma_decimal_digits_roundtrip(n / 10);
        assert(d.drop_last() =~= decimal_digits(n / 10));
        assert(d.last() == digit_char(n % 10));
        assert(digits_value(d) == digits_value(decimal_digits(n / 10)) * 10 + n % 10);
    } else {
        assert(d.drop_last() =~= Seq::<char>::empty());
        assert(digits_value(Seq::<char>::empty()) == 0);
        assert(d.last() == digit_char(n % 10));
        assert(digits_value(d) == n % 10);
    }
}

/// Decimal notation has no leading zero: it is `"0"` itself or starts with a
/// digit other than `0`, and it is as long as the number needs.
pub proof fn decimal_digits_have_no_leading_zero(n: nat)
    ensures
        decimal_digits(n) == seq!['0'] || decimal_digits(n)[0] != '0',
        n == 0 <==> decimal_digits(n) == seq!['0'],
    decreases n,
{
    if n >= 10 {
        decimal_digits_have_no_leading_zero(n / 10);
        lemma_decimal_digits_roundtrip(n / 10);
        let d = decimal_digits(n / 10);
        assert(decimal_digits(n)[0] == d[0]);
        if d == seq!['0'] {
            assert(n / 10 == 0);
        }
        assert(decimal_digits(n).len() >= 2);
    } else {
        assert(decimal_digits(n) == seq![digit_char(n)]);
        if n != 0 {
            assert(digit_char(n) != '0');
            assert(decimal_digits(n)[0] != '0');
        }
    }
}

/// A `u32` written in decimal parses back to itself.
pub proof fn lemma_parse_decimal_u32(n: u32)
    ensures
        parse_u32_spec(decimal_digits(n as nat)) == Some(n),
{
    lemma_decimal_digits_roundtrip(n as nat);
    let d = decimal_digits(n as nat);
    assert(is_digit(d[0]));
}

/// The single-digit string for `d`.
fn digit_str(d: u64) -> (r: &'static str)
    requires
        d < 10,
    ensures
        r@ == seq![digit_char(d as nat)],
{
    let r = match d {
        0 => "0",
        1 => "1",
        2 => "2",
        3 => "3",
        4 => "4",
        5 => "5",
        6 => "6",
        7 => "7",
        8 => "8",
        _ => "9",
    };
    proof {
        reveal_strlit("0");
        reveal_strlit("1");
        reveal_strlit("2");
        reveal_strlit("3");
        reveal_strlit("4");
        reveal_strlit("5");
        reveal_strlit("6");
        reveal_strlit("7");
        reveal_strlit("8");
        reveal_strlit("9");
    }
    assert(r@ =~= seq![digit_char(d as nat)]);
    r
}

/// Appends the decimal notation of `n` to `out`.
pub fn push_decimal_u64(out: &mut String, n: u64)
    ensures
        final(out)@ == old(out)@ + decimal_digits(n as nat),
    decreases n,
{
    if n >= 10 {
        push_decimal_u64(out, n / 10);
    }
    out.append(digit_str(n % 10));
    assert(decimal_digits(n as nat) =~= if n < 10 {
        seq![digit_char(n as nat)]
    } else {
        decimal_digits((n / 10) as nat).push(digit_char((n % 10) as nat))
    });
}

/// Appends the decimal notation of `n` (with `-` when negative) to `out`.
pub fn push_decimal_i64(out: &mut String, n: i64)
    ensures
        final(out)@ == old(out)@ + decimal_int(n as int),
{
    if n < 0 {
        let ghost before = out@;
        out.append("-");
        proof {
            reveal_strlit("-");
        }
        let magnitude: u64 = (-(n as i128)) as u64;
        push_decimal_u64(out, magnitude);
        assert(out@ =~= before + decimal_int(n as int));
    } else {
        push_decimal_u64(out, n as u64);
    }
}

/// Reads `s` the way `str::parse::<u32>` does.
pub fn parse_u32(s: &[char]) -> (r: Option<u32>)
    ensures
        r == parse_u32_spec(s@),
{
    let n = s.len();
    let start: usize = if n > 0 && s[0] == '+' { 1 } else { 0 };
    let ghost digits = if s@.len() > 0 && s@[0] == '+' { s@.drop_first() } else { s@ };
    assert(digits =~= s@.subrange(start as int, n as int));
    if start == n {
        return None;
    }
    let mut value: u64 = 0;
    let mut i: usize = start;
    while i < n
        invariant
            start <= i <= n,
            n == s@.len(),
            start < n,
            digits == s@.subrange(start as int, n as int),
            digits == (if s@.len() > 0 && s@[0] == '+' { s@.drop_first() } else { s@ }),
            value <= u32::MAX,
            all_digits(s@.subrange(start as int, i as int)),
            value == digits_value(s@.subrange(start as int, i as int)),
        decreases n - i,
    {
        let c = s[i];
        if !('0' <= c && c <= '9') {
            assert(digits[i - start] == c);
            assert(!is_digit(c));
            assert(!all_digits(digits));
            return None;
        }
        let d: u64 = (c as u32 - 48) as u64;
        let ghost prefix = s@.subrange(start as int, i + 1);
        assert(prefix.drop_last() =~= s@.subrange(start as int, i as int));
        assert(prefix.last() == c);
        assert(d == digit_value(c));
        assert(all_digits(prefix));
        value = value * 10 + d;
        if value > 0xffff_ffff {
            proof {
                lemma_digits_value_prefix_bound(digits, (i + 1 - start) as int);
                assert(digits.subrange(0, (i + 1 - start) as int) =~= prefix);
            }
            return None;
        }
        i = i + 1;
    }
    assert(s@.subrange(start as int, n as int) =~= digits);
    Some(value as u32)
}

/// The value of a digit string is at least the value of each of its prefixes.
proof fn lemma_digits_value_prefix_bound(s: Seq<char>, k: int)
    requires
        0 <= k <= s.len(),
    ensures
        digits_value(s.subrange(0, k)) <= digits_value(s),
    decreases s.len() - k,
{
    if k < s.len() {
        let longer = s.subrange(0, k + 1);
        assert(longer.drop_last() =~= s.subrange(0, k));
        lemma_digits_value_prefix_bound(s, k + 1);
    } else {
        assert(s.subrange(0, k) =~= s);
    }
}

} // verus!
