//! Numbers in text: reading unsigned numbers and writing decimals.

use crate::text;
use vstd::prelude::*;

verus! {

/// `char::from_u32`: the character with the given scalar value, and none for a
/// surrogate or a value beyond the last character.
pub assume_specification[ char::from_u32 ](i: u32) -> (r: Option<char>)
    ensures
        r is Some <==> (i < 0xd800 || 0xdfff < i <= 0x10ffff),
        r matches Some(c) ==> c as int == i,
;

/// The value of a digit of the radix.
pub open spec fn digit_value(c: char, radix: nat) -> Option<nat> {
    let v = if '0' <= c <= '9' {
        (c as int - '0' as int) as nat
    } else if 'a' <= c <= 'z' {
        (c as int - 'a' as int + 10) as nat
    } else if 'A' <= c <= 'Z' {
        (c as int - 'A' as int + 10) as nat
    } else {
        radix
    };
    if v < radix {
        Some(v)
    } else {
        None
    }
}

/// The value of a sequence of digits; none where a character is no digit.
pub open spec fn digits_value(s: Seq<char>, radix: nat) -> Option<nat>
    decreases s.len(),
{
    if s.len() == 0 {
        Some(0)
    } else {
        match (digits_value(s.drop_last(), radix), digit_value(s.last(), radix)) {
            (Some(v), Some(d)) => Some(v * radix + d),
            _ => None,
        }
    }
}

/// An optional plus sign followed by at least one digit, with a value of at
/// most `max`.
pub open spec fn unsigned(s: Seq<char>, radix: nat, max: nat) -> Option<nat> {
    let digits = if s.len() > 0 && s[0] == '+' {
        s.skip(1)
    } else {
        s
    };
    match digits_value(digits, radix) {
        Some(v) if digits.len() > 0 && v <= max => Some(v),
        _ => None,
    }
}

/// The value of a digit of the radix.
fn digit(c: char, radix: u64) -> (r: Option<u64>)
    requires
        2 <= radix <= 36,
    ensures
        (match r {
            Some(v) => Some(v as nat),
            None => None,
        }) == digit_value(c, radix as nat),
        r matches Some(v) ==> v < radix,
{
    let v: u64 = if '0' <= c && c <= '9' {
        (c as u64) - ('0' as u64)
    } else if 'a' <= c && c <= 'z' {
        (c as u64) - ('a' as u64) + 10
    } else if 'A' <= c && c <= 'Z' {
        (c as u64) - ('A' as u64) + 10
    } else {
        radix
    };
    if v < radix {
        Some(v)
    } else {
        None
    }
}

proof fn lemma_prefix_too_large(s: Seq<char>, i: int, radix: nat, max: nat)
    requires
        0 <= i <= s.len(),
        radix >= 1,
        digits_value(s.take(i), radix) matches Some(v) ==> v > max,
    ensures
        digits_value(s, radix) matches Some(v) ==> v > max,
    decreases s.len(),
{
    if i < s.len() {
        assert(s.drop_last().take(i) =~= s.take(i));
        lemma_prefix_too_large(s.drop_last(), i, radix, max);
        match (digits_value(s.drop_last(), radix), digit_value(s.last(), radix)) {
            (Some(v), Some(d)) => {
                assert(v * radix >= v) by (nonlinear_arith)
                    requires
                        radix >= 1,
                        v >= 0,
                ;
            },
            _ => {},
        }
    } else {
        assert(s.take(i) =~= s);
    }
}

/// Reads an unsigned number of at most `max`.
pub fn parse_unsigned(s: &[char], radix: u64, max: u64) -> (r: Option<u64>)
    requires
        2 <= radix <= 36,
    ensures
        (match r {
            Some(v) => Some(v as nat),
            None => None,
        }) == unsigned(s@, radix as nat, max as nat),
{
    let start: usize = if s.len() > 0 && s[0] == '+' {
        1
    } else {
        0
    };
    let digits: &[char] = &s[start..s.len()];
    proof {
        if start == 0 {
            assert(digits@ =~= s@);
        } else {
            assert(digits@ =~= s@.skip(1));
        }
    }
    if digits.len() == 0 {
        return None;
    }
    let mut acc: u64 = 0;
    for i in 0..digits.len()
        invariant
            2 <= radix <= 36,
            acc <= max,
            digits_value(digits@.take(i as int), radix as nat) == Some(acc as nat),
            unsigned(s@, radix as nat, max as nat) == (match digits_value(
                digits@,
                radix as nat,
            ) {
                Some(v) if v <= max => Some(v),
                _ => None,
            }),
    {
        proof {
            assert(digits@.take(i + 1).drop_last() =~= digits@.take(i as int));
        }
        match digit(digits[i], radix) {
            Some(d) => {
                assert(acc as nat * radix as nat + d <= 0xffff_ffff_ffff_ffff * 36 + 36)
                    by (nonlinear_arith)
                    requires
                        acc <= 0xffff_ffff_ffff_ffff,
                        radix <= 36,
                        d < 36,
                ;
                assert(acc as u128 * radix as u128 == acc as nat * radix as nat);
                let next: u128 = acc as u128 * radix as u128 + d as u128;
                if next > max as u128 {
                    proof {
                        lemma_prefix_too_large(digits@, i + 1, radix as nat, max as nat);
                    }
                    return None;
                }
                acc = next as u64;
            },
            None => {
                proof {
                    lemma_prefix_too_large(digits@, i + 1, radix as nat, max as nat);
                }
                return None;
            },
        }
    }
    assert(digits@.take(digits@.len() as int) =~= digits@);
    Some(acc)
}

/// Reads a decimal `usize`.
pub fn parse_usize(s: &str) -> (r: Option<usize>)
    ensures
        (match r {
            Some(v) => Some(v as nat),
            None => None,
        }) == unsigned(s@, 10, usize::MAX as nat),
{
    let c = text::chars_of(s);
    match parse_unsigned(c.as_slice(), 10, usize::MAX as u64) {
        Some(v) => Some(v as usize),
        None => None,
    }
}

/// The decimal digit of a value below ten.
pub open spec fn decimal_digit(d: nat) -> char {
    (('0' as u8) + d) as char
}

/// The decimal digits of a number, without leading zeros.
pub open spec fn decimal(n: nat) -> Seq<char>
    decreases n,
{
    if n < 10 {
        seq![decimal_digit(n)]
    } else {
        decimal(n / 10).push(decimal_digit(n % 10))
    }
}

/// Appends the decimal digits of a number.
pub fn push_decimal(out: &mut Vec<char>, n: u64)
    ensures
        final(out)@ == old(out)@ + decimal(n as nat),
    decreases n,
{
    if n >= 10 {
        push_decimal(out, n / 10);
    }
    let d: u8 = (n % 10) as u8;
    out.push((('0' as u8) + d) as char);
    assert(out@ =~= old(out)@ + decimal(n as nat));
}

/// Reading the decimal digits of a number gives the number back.
pub proof fn lemma_decimal_reads_back(n: nat, max: nat)
    requires
        n <= max,
    ensures
        unsigned(decimal(n), 10, max) == Some(n),
{
    lemma_decimal_value(n);
}

proof fn lemma_decimal_value(n: nat)
    ensures
        digits_value(decimal(n), 10) == Some(n),
        decimal(n).len() > 0,
        decimal(n)[0] != '+',
    decreases n,
{
    if n < 10 {
        assert(decimal(n).drop_last() =~= Seq::<char>::empty());
        assert(digits_value(decimal(n).drop_last(), 10) == Some(0nat));
        assert(digit_value(decimal_digit(n), 10) == Some(n));
    } else {
        lemma_decimal_value(n / 10);
        assert(decimal(n).drop_last() =~= decimal(n / 10));
        assert(digit_value(decimal_digit(n % 10), 10) == Some(n % 10));
        assert(n == (n / 10) * 10 + n % 10);
    }
}

/// The digits of a radix: the decimal digits for the values below ten, then the
/// letters, large or small. Nothing else is a digit.
pub proof fn lemma_digit_values(c: char, radix: nat)
    requires
        2 <= radix <= 36,
    ensures
        digit_value(c, radix) matches Some(v) ==> v < radix && (c as int == 48 + v && v < 10 || v
            >= 10 && (c as int == 87 + v || c as int == 55 + v)),
        forall|v: int|
            0 <= v < 10 && v < radix && c as int == #[trigger] (48 + v) ==> digit_value(c, radix)
                == Some(v as nat),
        forall|v: int|
            10 <= v < radix && (c as int == #[trigger] (87 + v) || c as int == 55 + v)
                ==> digit_value(c, radix) == Some(v as nat),
{
}

/// A number is read digit by digit: a digit behind a number adds its value to the
/// number times the radix.
pub proof fn lemma_digit_behind(s: Seq<char>, c: char, radix: nat)
    ensures
        digits_value(Seq::empty(), radix) == Some(0nat),
        digits_value(s.push(c), radix) is Some <==> digits_value(s, radix) is Some && digit_value(
            c,
            radix,
        ) is Some,
        digits_value(s.push(c), radix) matches Some(v) ==> v == digits_value(s, radix)->0 * radix
            + digit_value(c, radix)->0,
{
    assert(s.push(c).drop_last() =~= s);
}

/// A sign in front makes no difference, zeros in front do not either, and a text
/// with another character is no number.
pub proof fn lemma_reads_as(s: Seq<char>, radix: nat, max: nat)
    requires
        2 <= radix <= 36,
    ensures
        s.len() > 0 && s[0] != '+' ==> unsigned(seq!['+'] + s, radix, max) == unsigned(
            s,
            radix,
            max,
        ),
        s.len() > 0 && s[0] != '+' ==> unsigned(seq!['0'] + s, radix, max) == unsigned(
            s,
            radix,
            max,
        ),
        unsigned(Seq::empty(), radix, max) is None,
        unsigned(s, radix, max) matches Some(v) ==> v <= max,
        forall|i: int|
            0 <= i < s.len() && digit_value(#[trigger] s[i], radix) is None && (i > 0 || s[i] != '+')
                ==> unsigned(s, radix, max) is None,
{
    let t = seq!['+'] + s;
    assert(t.skip(1) =~= s);
    lemma_zero_in_front(s, radix);
    assert forall|i: int|
        0 <= i < s.len() && digit_value(#[trigger] s[i], radix) is None && (i > 0 || s[i]
            != '+') implies unsigned(s, radix, max) is None by {
        lemma_no_digit(s, radix, i);
        if s[0] == '+' {
            assert(s.skip(1)[i - 1] == s[i]);
            lemma_no_digit(s.skip(1), radix, i - 1);
        }
    }
}

proof fn lemma_zero_in_front(s: Seq<char>, radix: nat)
    requires
        2 <= radix <= 36,
    ensures
        digits_value(seq!['0'] + s, radix) == digits_value(s, radix),
    decreases s.len(),
{
    let t = seq!['0'] + s;
    if s.len() > 0 {
        lemma_zero_in_front(s.drop_last(), radix);
        assert(t.drop_last() =~= seq!['0'] + s.drop_last());
    } else {
        assert(t.drop_last() =~= s);
        assert(0 * radix == 0);
        assert(digits_value(t.drop_last(), radix) == Some(0nat));
    }
}

proof fn lemma_no_digit(s: Seq<char>, radix: nat, i: int)
    requires
        0 <= i < s.len(),
        digit_value(s[i], radix) is None,
    ensures
        digits_value(s, radix) is None,
    decreases s.len(),
{
    if i < s.len() - 1 {
        lemma_no_digit(s.drop_last(), radix, i);
    }
}

} // verus!
