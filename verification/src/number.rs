//! Decimal text of integers, written and read as std's formatting and `FromStr` do.
use vstd::prelude::*;

verus! {

/// Whether a character is an ASCII decimal digit.
pub open spec fn is_digit(c: char) -> bool {
    48 <= (c as u32) <= 57
}

/// The character of a decimal digit value.
pub open spec fn digit_char(d: int) -> char {
    (48 + d) as char
}

/// The shortest decimal text of a natural number.
pub open spec fn decimal(n: nat) -> Seq<char>
    decreases n,
{
    if n < 10 {
        seq![digit_char(n as int)]
    } else {
        decimal(n / 10).push(digit_char((n % 10) as int))
    }
}

/// Decimal text of a signed number: a minus sign before the magnitude when negative.
pub open spec fn signed_decimal(n: int) -> Seq<char> {
    if n < 0 {
        seq!['-'] + decimal((-n) as nat)
    } else {
        decimal(n as nat)
    }
}

/// The value of a run of decimal digits.
pub open spec fn digits_value(s: Seq<char>) -> nat
    decreases s.len(),
{
    if s.len() == 0 {
        0
    } else {
        digits_value(s.drop_last()) * 10 + ((s.last() as u32) - 48) as nat
    }
}

/// Whether every character is a decimal digit.
pub open spec fn all_digits(s: Seq<char>) -> bool {
    forall|i: int| 0 <= i < s.len() ==> is_digit(#[trigger] s[i])
}

/// `usize::from_str`: an optional `+`, then one or more decimal digits whose value fits.
pub open spec fn parse_usize(s: Seq<char>) -> Option<usize> {
    let d = if s.len() > 0 && s[0] == '+' {
        s.drop_first()
    } else {
        s
    };
    if d.len() > 0 && all_digits(d) && digits_value(d) <= usize::MAX {
        Some(digits_value(d) as usize)
    } else {
        None
    }
}

/// The character of a digit value is a digit whose code is 48 above the value.
pub proof fn lemma_digit_char(d: int)
    requires
        0 <= d < 10,
    ensures
        digit_char(d) as u32 == 48 + d,
        is_digit(digit_char(d)),
        digit_char(d) != '+',
{
}

/// Decimal text is made of digits, is not empty, and reads back as the number.
pub proof fn lemma_decimal(n: nat)
    ensures
        decimal(n).len() >= 1,
        all_digits(decimal(n)),
        digits_value(decimal(n)) == n,
        decimal(n)[0] != '+',
    decreases n,
{
    lemma_digit_char((n % 10) as int);
    if n < 10 {
        assert(decimal(n).drop_last().len() == 0);
        assert(digits_value(decimal(n).drop_last()) == 0);
    }
    if n >= 10 {
        lemma_decimal(n / 10);
        let s = decimal(n);
        assert(s.drop_last() == decimal(n / 10));
        assert forall|i: int| 0 <= i < s.len() implies is_digit(#[trigger] s[i]) by {
            if i < s.len() - 1 {
                assert(s[i] == decimal(n / 10)[i]);
            }
        }
    }
}

/// A prefix of a run of digits has no larger value than the run.
proof fn lemma_digits_prefix(s: Seq<char>, i: int)
    requires
        0 <= i <= s.len(),
        all_digits(s),
    ensures
        digits_value(s.take(i)) <= digits_value(s),
    decreases s.len() - i,
{
    if i < s.len() {
        assert(s.drop_last().take(i) == s.take(i));
        assert(all_digits(s.drop_last())) by {
            assert forall|j: int| 0 <= j < s.drop_last().len() implies is_digit(
                #[trigger] s.drop_last()[j],
            ) by {
                assert(s.drop_last()[j] == s[j]);
            }
        }
        lemma_digits_prefix(s.drop_last(), i);
    } else {
        assert(s.take(i) == s);
    }
}

/// The decimal digit character of a value below ten.
fn digit(d: usize) -> (res: char)
    requires
        d < 10,
    ensures
        res == digit_char(d as int),
{
    let b: u8 = 48 + d as u8;
    b as char
}

/// The message of the error `usize::from_str` gives for a text (empty, an invalid digit,
/// or too large), or empty text where it succeeds.
pub uninterp spec fn usize_error_text(s: Seq<char>) -> Seq<char>;

/// The message of `usize::from_str`'s error for the text, as its `Display` writes it;
/// empty where the text parses.
#[verifier::external_body]
pub fn usize_error_message(s: &str) -> (res: String)
    ensures
        res@ == usize_error_text(s@),
{
    match s.parse::<usize>() {
        Ok(_) => String::new(),
        Err(e) => e.to_string(),
    }
}

/// The decimal text of a `usize`.
pub fn usize_decimal(n: usize) -> (res: Vec<char>)
    ensures
        res@ == decimal(n as nat),
    decreases n,
{
    if n < 10 {
        let mut v: Vec<char> = Vec::new();
        v.push(digit(n));
        v
    } else {
        let mut v = usize_decimal(n / 10);
        v.push(digit(n % 10));
        v
    }
}

/// The decimal text of an `i64`.
pub fn i64_decimal(n: i64) -> (res: Vec<char>)
    ensures
        res@ == signed_decimal(n as int),
{
    if n < 0 {
        let m: u64 = (0i128 - n as i128) as u64;
        let mut v: Vec<char> = Vec::new();
        v.push('-');
        let d = usize_decimal_u64(m);
        let mut i: usize = 0;
        while i < d.len()
            invariant
                i <= d@.len(),
                v@ == seq!['-'] + d@.take(i as int),
            decreases d@.len() - i,
        {
            v.push(d[i]);
            i = i + 1;
            assert(d@.take(i as int) == d@.take(i - 1).push(d@[i - 1]));
        }
        assert(d@.take(d@.len() as int) == d@);
        v
    } else {
        usize_decimal_u64(n as u64)
    }
}

/// The decimal text of a `u64`.
fn usize_decimal_u64(n: u64) -> (res: Vec<char>)
    ensures
        res@ == decimal(n as nat),
    decreases n,
{
    if n < 10 {
        let mut v: Vec<char> = Vec::new();
        v.push(digit(n as usize));
        v
    } else {
        let mut v = usize_decimal_u64(n / 10);
        v.push(digit((n % 10) as usize));
        v
    }
}

/// Reads a `usize` as `usize::from_str` does.
pub fn parse_usize_chars(s: &[char]) -> (res: Option<usize>)
    ensures
        res == parse_usize(s@),
{
    let n = s.len();
    let start: usize = if n > 0 && s[0] == '+' {
        1
    } else {
        0
    };
    let ghost d = s@.skip(start as int);
    assert(d == (if s@.len() > 0 && s@[0] == '+' {
        s@.drop_first()
    } else {
        s@
    }));
    if start >= n {
        return None;
    }
    let mut acc: usize = 0;
    let mut i: usize = start;
    while i < n
        invariant
            start <= i <= n,
            n == s@.len(),
            d == s@.skip(start as int),
            d == (if s@.len() > 0 && s@[0] == '+' {
                s@.drop_first()
            } else {
                s@
            }),
            forall|j: int| 0 <= j < i - start ==> is_digit(#[trigger] d[j]),
            acc as nat == digits_value(d.take(i - start)),
        decreases n - i,
    {
        let c = s[i];
        let u = c as u32;
        if u < 48 || u > 57 {
            assert(d[i - start] == c);
            assert(!is_digit(d[i - start]));
            assert(!all_digits(d));
            assert(parse_usize(s@) is None);
            return None;
        }
        let ghost pre = d.take(i - start);
        assert(d.take(i - start + 1).drop_last() == pre);
        assert(d.take(i - start + 1).last() == c);
        if acc > (usize::MAX - (u - 48) as usize) / 10 {
            proof {
                if all_digits(d) {
                    lemma_digits_prefix(d, i - start + 1);
                    assert(digits_value(d.take(i - start + 1)) == acc * 10 + (u - 48));
                    assert(acc * 10 + (u - 48) > usize::MAX);
                }
            }
            return None;
        }
        acc = acc * 10 + (u - 48) as usize;
        i = i + 1;
    }
    assert(d.take(d.len() as int) == d);
    Some(acc)
}

} // verus!
