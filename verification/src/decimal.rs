//! Decimal text of unsigned integers, as ASCII bytes: spelling numbers out
//! and reading them back.

use vstd::prelude::*;

verus! {

/// The ASCII code of the digit `d` (0..=9).
pub open spec fn digit_char(d: nat) -> u8 {
    (48 + d) as u8
}

/// The shortest decimal spelling of `n`: no sign, no leading zeros
/// (zero is spelled "0").
pub open spec fn decimal_text(n: nat) -> Seq<u8>
    decreases n,
{
    if n < 10 {
        seq![digit_char(n)]
    } else {
        decimal_text(n / 10).push(digit_char(n % 10))
    }
}

/// Appends the decimal spelling of `n` to `out`.
pub fn push_decimal(out: &mut Vec<u8>, n: u64)
    ensures
        final(out)@ == old(out)@ + decimal_text(n as nat),
    decreases n,
{
    if n >= 10 {
        push_decimal(out, n / 10);
    }
    let d: u8 = (n % 10) as u8;
    out.push(48u8 + d);
    proof {
        assert(old(out)@ + decimal_text(n as nat) =~= if n >= 10 {
            (old(out)@ + decimal_text((n / 10) as nat)).push(digit_char((n % 10) as nat))
        } else {
            old(out)@.push(digit_char(n as nat))
        });
    }
}

/// A number below one thousand takes one to three digits.
pub proof fn lemma_decimal_text_short(n: nat)
    requires
        n < 1000,
    ensures
        1 <= decimal_text(n).len() <= 3,
        n < 10 ==> decimal_text(n).len() == 1,
        n < 100 ==> decimal_text(n).len() <= 2,
    decreases n,
{
    if n >= 10 {
        lemma_decimal_text_short(n / 10);
    }
}

/// The spelling holds nothing but the digits `0` to `9`, and starts with a
/// non-zero digit unless the number is zero.
pub proof fn lemma_decimal_text_digits(n: nat)
    ensures
        decimal_text(n).len() >= 1,
        forall|i: int| 0 <= i < decimal_text(n).len() ==> 48 <= #[trigger] decimal_text(n)[i] <= 57,
        n > 0 ==> decimal_text(n)[0] != 48,
    decreases n,
{
    if n >= 10 {
        lemma_decimal_text_digits(n / 10);
        let prefix = decimal_text(n / 10);
        assert forall|i: int| 0 <= i < decimal_text(n).len() implies 48 <= #[trigger] decimal_text(
            n,
        )[i] <= 57 by {
            if i < prefix.len() {
                assert(decimal_text(n)[i] == prefix[i]);
            }
        }
        assert(decimal_text(n)[0] == prefix[0]);
    }
}

/// Whether `b` is an ASCII digit.
pub open spec fn is_digit(b: u8) -> bool {
    48 <= b <= 57
}

/// The number that a string of decimal digits spells, most significant first.
pub open spec fn digits_value(digits: Seq<u8>) -> nat
    decreases digits.len(),
{
    if digits.len() == 0 {
        0
    } else {
        digits_value(digits.drop_last()) * 10 + (digits.last() - 48) as nat
    }
}

/// The digits of an unsigned number's text: the text without one leading `+`.
pub open spec fn unsigned_digits(text: Seq<u8>) -> Seq<u8> {
    if text.len() > 0 && text[0] == 43 {
        text.drop_first()
    } else {
        text
    }
}

/// Reading an unsigned number no larger than `max`: an optional `+`, then one
/// or more decimal digits (leading zeros allowed) whose value is at most `max`.
pub open spec fn parse_unsigned(text: Seq<u8>, max: nat) -> Option<nat> {
    let digits = unsigned_digits(text);
    if digits.len() > 0 && (forall|i: int| 0 <= i < digits.len() ==> is_digit(#[trigger] digits[i]))
        && digits_value(digits) <= max {
        Some(digits_value(digits))
    } else {
        None
    }
}

proof fn lemma_digits_value_prefix(digits: Seq<u8>, k: int)
    requires
        0 <= k <= digits.len(),
        forall|i: int| 0 <= i < digits.len() ==> is_digit(#[trigger] digits[i]),
    ensures
        digits_value(digits.take(k)) <= digits_value(digits),
    decreases digits.len() - k,
{
    if k < digits.len() {
        let next = digits.take(k + 1);
        assert(next.drop_last() =~= digits.take(k));
        assert(next.last() == digits[k]);
        lemma_digits_value_prefix(digits, k + 1);
    } else {
        assert(digits.take(k) =~= digits);
    }
}

/// Reads an unsigned decimal number from `text`; `None` when the text is not
/// an optional `+` followed by digits, or when the number exceeds `max`.
pub fn parse_decimal(text: &[u8], max: u64) -> (r: Option<u64>)
    ensures
        match r {
            Some(v) => parse_unsigned(text@, max as nat) == Some(v as nat),
            None => parse_unsigned(text@, max as nat) is None,
        },
{
    let ghost digits = unsigned_digits(text@);
    let len = text.len();
    let mut i: usize = 0;
    if len > 0 && text[0] == 43u8 {
        i = 1;
    }
    let first = i;
    assert(digits =~= text@.skip(first as int));
    if first == len {
        return None;
    }
    let mut value: u64 = 0;
    while i < len
        invariant
            first <= i <= len,
            len == text@.len(),
            first < len,
            digits == text@.skip(first as int),
            digits == unsigned_digits(text@),
            forall|k: int| 0 <= k < i - first ==> is_digit(#[trigger] digits[k]),
            value as nat == digits_value(digits.take(i - first)),
            value <= max,
        decreases len - i,
    {
        let b = text[i];
        assert(digits[i - first] == b);
        if b < 48u8 || b > 57u8 {
            assert(!is_digit(digits[i - first]));
            return None;
        }
        let d: u64 = (b - 48u8) as u64;
        proof {
            let next = digits.take(i - first + 1);
            assert(next.drop_last() =~= digits.take(i - first));
            assert(next.last() == b);
            assert(digits_value(next) == value * 10 + d);
            // A digit string is worth at least as much as any of its prefixes,
            // so once a prefix exceeds the bound the whole number does too.
            if forall|k: int| 0 <= k < digits.len() ==> is_digit(#[trigger] digits[k]) {
                lemma_digits_value_prefix(digits, i - first + 1);
            }
        }
        match value.checked_mul(10) {
            None => {
                return None;
            },
            Some(m) => match m.checked_add(d) {
                None => {
                    return None;
                },
                Some(n) => {
                    if n > max {
                        return None;
                    }
                    value = n;
                },
            },
        }
        i = i + 1;
    }
    assert(digits.take(len - first) =~= digits);
    Some(value)
}

/// Reads a `usize` the way the command line does: an optional `+`, then digits.
pub fn parse_usize(text: &[u8]) -> (r: Option<usize>)
    ensures
        match r {
            Some(v) => parse_unsigned(text@, usize::MAX as nat) == Some(v as nat),
            None => parse_unsigned(text@, usize::MAX as nat) is None,
        },
{
    match parse_decimal(text, usize::MAX as u64) {
        Some(v) => Some(v as usize),
        None => None,
    }
}

/// Reads a `u32` the way the command line does: an optional `+`, then digits.
pub fn parse_u32(text: &[u8]) -> (r: Option<u32>)
    ensures
        match r {
            Some(v) => parse_unsigned(text@, u32::MAX as nat) == Some(v as nat),
            None => parse_unsigned(text@, u32::MAX as nat) is None,
        },
{
    match parse_decimal(text, u32::MAX as u64) {
        Some(v) => Some(v as u32),
        None => None,
    }
}

/// Reading back the spelling of a number gives the number, as long as it
/// does not exceed the bound being read against.
pub proof fn lemma_parse_reads_decimal_text(n: nat, max: nat)
    requires
        n <= max,
    ensures
        parse_unsigned(decimal_text(n), max) == Some(n),
    decreases n,
{
    lemma_decimal_text_digits(n);
    lemma_digits_value_of_text(n);
    assert(unsigned_digits(decimal_text(n)) == decimal_text(n));
}

/// The digits of a number's spelling are worth the number.
pub proof fn lemma_digits_value_of_text(n: nat)
    ensures
        digits_value(decimal_text(n)) == n,
    decreases n,
{
    if n >= 10 {
        lemma_digits_value_of_text(n / 10);
        let t = decimal_text(n);
        assert(t.drop_last() =~= decimal_text(n / 10));
        assert(t.last() == digit_char(n % 10));
    } else {
        let t = decimal_text(n);
        assert(t.drop_last() =~= Seq::<u8>::empty());
        assert(t.last() == digit_char(n));
        assert(digits_value(t.drop_last()) == 0);
    }
}

proof fn lemma_leading_zero_value(t: Seq<u8>)
    ensures
        digits_value(seq![48u8] + t) == digits_value(t),
    decreases t.len(),
{
    if t.len() == 0 {
        let z = seq![48u8] + t;
        assert(z.drop_last() =~= Seq::<u8>::empty());
        assert(z.last() == 48u8);
        assert(digits_value(z.drop_last()) == 0);
        assert(digits_value(z) == 0);
    } else {
        lemma_leading_zero_value(t.drop_last());
        assert((seq![48u8] + t).drop_last() =~= seq![48u8] + t.drop_last());
        assert((seq![48u8] + t).last() == t.last());
        assert(digits_value(seq![48u8] + t) == digits_value(seq![48u8] + t.drop_last()) * 10 + (
        t.last() - 48) as nat);
    }
}

/// How the command line reads numbers, stated against their spellings: a
/// number's spelling reads back as the number, also behind one `+` or a
/// leading zero, unless it exceeds the bound; a minus sign, an empty text and
/// a lone `+` are refused.
pub proof fn lemma_parse_accepts_and_refuses(n: nat, max: nat)
    ensures
        n <= max ==> parse_unsigned(decimal_text(n), max) == Some(n),
        n <= max ==> parse_unsigned(seq![43u8] + decimal_text(n), max) == Some(n),
        n <= max ==> parse_unsigned(seq![48u8] + decimal_text(n), max) == Some(n),
        n > max ==> parse_unsigned(decimal_text(n), max) is None,
        parse_unsigned(seq![45u8] + decimal_text(n), max) is None,
        parse_unsigned(Seq::<u8>::empty(), max) is None,
        parse_unsigned(seq![43u8], max) is None,
{
    let t = decimal_text(n);
    lemma_decimal_text_digits(n);
    lemma_digits_value_of_text(n);
    assert(unsigned_digits(t) == t);
    let plus = seq![43u8] + t;
    assert(unsigned_digits(plus) =~= t);
    let zero = seq![48u8] + t;
    lemma_leading_zero_value(t);
    assert(unsigned_digits(zero) == zero);
    assert forall|i: int| 0 <= i < zero.len() implies is_digit(#[trigger] zero[i]) by {
        if i > 0 {
            assert(zero[i] == t[i - 1]);
        }
    }
    let minus = seq![45u8] + t;
    assert(unsigned_digits(minus) == minus);
    assert(!is_digit(minus[0]));
    assert(unsigned_digits(seq![43u8]).len() == 0);
}

} // verus!
