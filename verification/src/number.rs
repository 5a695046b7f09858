//! Numbers as text.

use crate::text::to_chars;
use vstd::prelude::*;
use vstd::string::*;

verus! {

/// The digit for a value below sixteen, letters in lower case.
pub open spec fn digit(n: int) -> char {
    if n < 10 {
        (48 + n) as char
    } else {
        (87 + n) as char
    }
}

/// The digit for a value below sixteen, letters in upper case.
pub open spec fn upper_digit(n: int) -> char {
    if n < 10 {
        (48 + n) as char
    } else {
        (55 + n) as char
    }
}

/// `n` in positional notation to the base `base`, without leading zeros.
pub open spec fn numeral(n: nat, base: nat) -> Seq<char>
    decreases n,
{
    if base < 2 || n < base {
        seq![digit(n as int)]
    } else {
        proof {
            assert(n / base < n) by (nonlinear_arith)
                requires
                    2 <= base <= n,
            ;
        }
        numeral(n / base, base).push(digit((n % base) as int))
    }
}

/// `n` in decimal notation.
pub open spec fn decimal(n: int) -> Seq<char> {
    if n < 0 {
        seq!['-'] + numeral((-n) as nat, 10)
    } else {
        numeral(n as nat, 10)
    }
}

/// Two lower-case hexadecimal digits for each byte.
pub open spec fn hex(bytes: Seq<u8>) -> Seq<char> {
    Seq::new(
        2 * bytes.len(),
        |i: int|
            if i % 2 == 0 {
                digit(bytes[i / 2] as int / 16)
            } else {
                digit(bytes[i / 2] as int % 16)
            },
    )
}

/// Whether `c` is a decimal digit.
pub open spec fn is_digit(c: char) -> bool {
    '0' <= c <= '9'
}

/// The value of a run of decimal digits.
pub open spec fn digits_value(s: Seq<char>) -> nat
    decreases s.len(),
{
    if s.len() == 0 {
        0
    } else {
        (digits_value(s.drop_last()) * 10 + (s.last() as int - '0' as int)) as nat
    }
}

/// Whether `s` is a run of one or more decimal digits.
pub open spec fn all_digits(s: Seq<char>) -> bool {
    s.len() > 0 && forall|i: int| 0 <= i < s.len() ==> is_digit(#[trigger] s[i])
}

/// The number that `s` writes in decimal notation: digits, with one sign before
/// them or none.
pub open spec fn parsed_int(s: Seq<char>) -> Option<int> {
    if s.len() > 0 && (s[0] == '-' || s[0] == '+') {
        if !all_digits(s.skip(1)) {
            None
        } else if s[0] == '-' {
            Some(-digits_value(s.skip(1)))
        } else {
            Some(digits_value(s.skip(1)) as int)
        }
    } else if all_digits(s) {
        Some(digits_value(s) as int)
    } else {
        None
    }
}

/// The 64-bit number that `s` writes, if it writes one.
pub open spec fn parsed_i64(s: Seq<char>) -> Option<i64> {
    match parsed_int(s) {
        Some(n) => if i64::MIN <= n <= i64::MAX {
            Some(n as i64)
        } else {
            None
        },
        None => None,
    }
}

/// The digit for `n`, letters in lower case.
pub fn digit_char(n: u8) -> (r: char)
    requires
        n < 16,
    ensures
        r == digit(n as int),
{
    if n < 10 {
        (48 + n) as char
    } else {
        (87 + n) as char
    }
}

/// The digit for `n`, letters in upper case.
pub fn upper_digit_char(n: u8) -> (r: char)
    requires
        n < 16,
    ensures
        r == upper_digit(n as int),
{
    if n < 10 {
        (48 + n) as char
    } else {
        (55 + n) as char
    }
}

/// Appends `n` to the base `base`.
pub fn push_numeral(out: &mut String, n: u128, base: u128)
    requires
        2 <= base <= 16,
    ensures
        final(out)@ == old(out)@ + numeral(n as nat, base as nat),
    decreases n,
{
    if n < base {
        let d: char = digit_char(n as u8);
        out.push(d);
        assert(out@ =~= old(out)@ + numeral(n as nat, base as nat));
    } else {
        let q: u128 = n / base;
        let m: u128 = n % base;
        assert(q < n && m < base) by (nonlinear_arith)
            requires
                q == n / base,
                m == n % base,
                2 <= base <= n,
        ;
        push_numeral(out, q, base);
        let d: char = digit_char(m as u8);
        out.push(d);
        assert(out@ =~= old(out)@ + numeral(n as nat, base as nat));
    }
}

/// `n` in decimal notation.
pub fn count_text(n: usize) -> (r: String)
    ensures
        r@ == decimal(n as int),
{
    let mut out: String = String::new();
    push_numeral(&mut out, n as u128, 10);
    assert(out@ =~= decimal(n as int));
    out
}

/// `n` in decimal notation.
pub fn int_text(n: i64) -> (r: String)
    ensures
        r@ == decimal(n as int),
{
    let mut out: String = String::new();
    if n < 0 {
        out.push('-');
        push_numeral(&mut out, (-(n as i128)) as u128, 10);
    } else {
        push_numeral(&mut out, n as u128, 10);
    }
    assert(out@ =~= decimal(n as int));
    out
}

/// `n` in hexadecimal notation, without leading zeros.
pub fn hex_number(n: u128) -> (r: String)
    ensures
        r@ == numeral(n as nat, 16),
{
    let mut out: String = String::new();
    push_numeral(&mut out, n, 16);
    assert(out@ =~= numeral(n as nat, 16));
    out
}

/// Two lower-case hexadecimal digits for each byte.
pub fn hex_text(bytes: &Vec<u8>) -> (r: String)
    ensures
        r@ == hex(bytes@),
{
    let mut out: String = String::new();
    let mut i: usize = 0;
    while i < bytes.len()
        invariant
            i <= bytes@.len(),
            out@ =~= hex(bytes@.take(i as int)),
        decreases bytes@.len() - i,
    {
        let b: u8 = bytes[i];
        out.push(digit_char(b / 16));
        out.push(digit_char(b % 16));
        i += 1;
    }
    assert(bytes@.take(i as int) =~= bytes@);
    out
}

/// The 64-bit number that `s` writes (`str::parse`).
pub fn parse_i64(s: &str) -> (r: Option<i64>)
    ensures
        r == parsed_i64(s@),
{
    let v: Vec<char> = to_chars(s);
    let signed: bool = v.len() > 0 && (v[0] == '-' || v[0] == '+');
    let negative: bool = v.len() > 0 && v[0] == '-';
    let from: usize = if signed { 1 } else { 0 };
    let ghost digits = s@.skip(from as int);
    proof {
        if !signed {
            assert(digits =~= s@);
        }
    }
    if v.len() == from {
        return None;
    }
    let mut i: usize = from;
    let mut value: u128 = 0;
    let mut over: bool = false;
    while i < v.len()
        invariant
            v@ == s@,
            from <= i <= v@.len(),
            digits == s@.skip(from as int),
            signed == (s@.len() > 0 && (s@[0] == '-' || s@[0] == '+')),
            from == (if signed {
                1int
            } else {
                0int
            }),
            !signed ==> digits == s@,
            digits.len() > 0,
            forall|j: int| 0 <= j < i - from ==> is_digit(#[trigger] digits[j]),
            !over ==> value == digits_value(digits.take(i - from)) && value <= 0x8000_0000_0000_0000,
            over ==> digits_value(digits.take(i - from)) > 0x8000_0000_0000_0000,
        decreases v@.len() - i,
    {
        let c: char = v[i];
        assert(digits[i - from] == c);
        if !('0' <= c && c <= '9') {
            assert(!is_digit(digits[i - from]));
            assert(!all_digits(digits));
            return None;
        }
        proof {
            assert(digits.take(i - from + 1).drop_last() =~= digits.take(i - from));
            assert(digits.take(i - from + 1).last() == c);
        }
        if !over {
            value = value * 10 + (c as u32 - '0' as u32) as u128;
            if value > 0x8000_0000_0000_0000 {
                over = true;
            }
        }
        i += 1;
    }
    assert(digits.take(i - from) =~= digits);
    if over {
        return None;
    }
    if negative {
        Some((-(value as i128)) as i64)
    } else if value > 0x7fff_ffff_ffff_ffff {
        None
    } else {
        Some(value as i64)
    }
}

proof fn lemma_numeral_digits(n: nat)
    ensures
        numeral(n, 10).len() > 0,
        forall|i: int| 0 <= i < numeral(n, 10).len() ==> is_digit(#[trigger] numeral(n, 10)[i]),
        digits_value(numeral(n, 10)) == n,
    decreases n,
{
    let t = numeral(n, 10);
    if n < 10 {
        assert(t.drop_last() =~= seq![]);
        assert(digits_value(seq![]) == 0);
    } else {
        lemma_numeral_digits(n / 10);
        assert(t.drop_last() =~= numeral(n / 10, 10));
    }
}

/// Reading a number back from its decimal notation gives the number.
pub proof fn law_decimal_parses(n: i64)
    ensures
        parsed_i64(decimal(n as int)) == Some(n),
{
    let s = decimal(n as int);
    if n < 0 {
        lemma_numeral_digits((-n) as nat);
        assert(s.skip(1) =~= numeral((-n) as nat, 10));
    } else {
        lemma_numeral_digits(n as nat);
        assert(is_digit(s[0]));
    }
}

/// The digits are those from zero to nine and then the letters from a on.
pub proof fn law_digits(n: int)
    requires
        0 <= n < 16,
    ensures
        digit(n) == "0123456789abcdef"@[n],
        upper_digit(n) == "0123456789ABCDEF"@[n],
{
    reveal_strlit("0123456789abcdef");
    reveal_strlit("0123456789ABCDEF");
}

/// A number below the base is written as its digit, and another one as what it is written
/// as without its last digit, with that digit behind it.
pub proof fn law_numeral(n: nat, d: nat, base: nat)
    requires
        2 <= base <= 16,
        d < base,
    ensures
        numeral(d, base) == seq![digit(d as int)],
        n > 0 ==> numeral(n * base + d, base) == numeral(n, base).push(digit(d as int)),
{
    if n > 0 {
        let m = n * base + d;
        assert(m >= base && m / base == n && m % base == d) by (nonlinear_arith)
            requires
                m == n * base + d,
                n > 0,
                d < base,
        ;
    }
}

/// In decimal notation a digit stands for itself, ten times a number and a digit are the
/// number with the digit behind it, and a negative number has a sign before it.
pub proof fn law_decimal(n: nat, d: nat)
    requires
        d < 10,
    ensures
        decimal(d as int) == seq!["0123456789"@[d as int]],
        n > 0 ==> decimal((10 * n + d) as int) == decimal(n as int).push("0123456789"@[d as int]),
        n > 0 ==> decimal(-(n as int)) == seq!['-'] + decimal(n as int),
{
    reveal_strlit("0123456789");
    law_numeral(n, d, 10);
}

/// Two digits stand for each byte, the first for its upper half.
pub proof fn law_hex(bytes: Seq<u8>)
    ensures
        hex(bytes).len() == 2 * bytes.len(),
        forall|i: int|
            0 <= i < bytes.len() ==> hex(bytes)[2 * i] == "0123456789abcdef"@[(#[trigger] bytes[i])
                as int / 16] && hex(bytes)[2 * i + 1] == "0123456789abcdef"@[bytes[i] as int % 16],
{
    assert forall|i: int| 0 <= i < bytes.len() implies hex(bytes)[2 * i]
        == "0123456789abcdef"@[(#[trigger] bytes[i]) as int / 16] && hex(bytes)[2 * i + 1]
        == "0123456789abcdef"@[bytes[i] as int % 16] by {
        law_digits(bytes[i] as int / 16);
        law_digits(bytes[i] as int % 16);
    }
}

/// Numbers that are written alike are the same.
pub proof fn law_numerals_differ(a: nat, b: nat, base: nat)
    requires
        2 <= base <= 16,
        numeral(a, base) == numeral(b, base),
    ensures
        a == b,
    decreases a,
{
    lemma_numeral_len(a, base);
    lemma_numeral_len(b, base);
    let s = numeral(a, base);
    assert(numeral(b, base).last() == s.last());
    if a < base && b < base {
        assert(s[0] == digit(a as int) && s[0] == digit(b as int));
    } else if a >= base && b >= base {
        assert(a / base < a && a % base < base && b % base < base && a == (a / base) * base + a
            % base && b == (b / base) * base + b % base) by (nonlinear_arith)
            requires
                2 <= base <= a,
                2 <= base <= b,
        ;
        assert(s.drop_last() =~= numeral(a / base, base));
        assert(s.drop_last() =~= numeral(b / base, base));
        law_numerals_differ(a / base, b / base, base);
        assert(digit((a % base) as int) == digit((b % base) as int));
    }
}

proof fn lemma_numeral_len(n: nat, base: nat)
    requires
        2 <= base,
    ensures
        numeral(n, base).len() >= 1,
        n >= base ==> numeral(n, base).len() >= 2,
    decreases n,
{
    if n >= base {
        assert(n / base < n) by (nonlinear_arith)
            requires
                2 <= base <= n,
        ;
        lemma_numeral_len(n / base, base);
    }
}

/// What is read as a number is made of digits, with one sign before them or none; a plus
/// sign says nothing, and a minus sign turns the number round.
pub proof fn law_parsed(s: Seq<char>)
    ensures
        parsed_i64(s) is Some ==> s.len() > 0 && (s[0] == '-' || s[0] == '+' || '0' <= s[0] <= '9')
            && (forall|i: int| 1 <= i < s.len() ==> '0' <= #[trigger] s[i] <= '9') && '0' <= s.last()
            <= '9',
        (parsed_i64(s) is Some && '0' <= s[0] <= '9') ==> parsed_i64(s)->0 >= 0 && parsed_i64(
            seq!['+'] + s,
        ) == parsed_i64(s) && parsed_i64(seq!['-'] + s) == Some((-(parsed_i64(s)->0)) as i64),
{
    if parsed_i64(s) is Some {
        if s[0] == '-' || s[0] == '+' {
            let t = s.skip(1);
            assert forall|i: int| 1 <= i < s.len() implies '0' <= #[trigger] s[i] <= '9' by {
                assert(is_digit(t[i - 1]));
            }
        } else {
            assert forall|i: int| 0 <= i < s.len() implies '0' <= #[trigger] s[i] <= '9' by {
                assert(is_digit(s[i]));
            }
            assert((seq!['+'] + s).skip(1) =~= s);
            assert((seq!['-'] + s).skip(1) =~= s);
        }
    }
}

/// Digits are read from left to right: one more of them counts for itself, and those before
/// it for ten times as much.
pub proof fn law_parsed_digit(s: Seq<char>, d: int)
    requires
        0 <= d < 10,
        s.len() > 0,
        forall|i: int| 0 <= i < s.len() ==> '0' <= #[trigger] s[i] <= '9',
    ensures
        parsed_int(s) is Some,
        parsed_int(s.push("0123456789"@[d])) == Some(10 * parsed_int(s)->0 + d),
        parsed_int(seq!["0123456789"@[d]]) == Some(d),
        parsed_i64(s) is Some <==> parsed_int(s)->0 <= i64::MAX,
        parsed_i64(s) matches Some(n) ==> n == parsed_int(s)->0,
{
    reveal_strlit("0123456789");
    let c = "0123456789"@[d];
    let t = s.push(c);
    assert(is_digit(s[0]));
    assert(all_digits(s));
    assert(all_digits(t)) by {
        assert forall|i: int| 0 <= i < t.len() implies is_digit(#[trigger] t[i]) by {
            if i < s.len() {
                assert(t[i] == s[i]);
            }
        }
    }
    assert(t[0] == s[0]);
    assert(t.drop_last() =~= s);
    assert(all_digits(seq![c]));
    reveal_with_fuel(digits_value, 2);
    assert(seq![c].drop_last() =~= seq![]);
}

} // verus!
