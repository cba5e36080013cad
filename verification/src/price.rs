use vstd::prelude::*;
use vstd::string::StrSliceExecFns;
use crate::text::split_parts;
use crate::text::split_on;
use crate::text::views_of;

verus! {

/// Why an extraction run was abandoned: the fatal conditions of the
/// pipeline.  A token in price position that is not a well-formed
/// decimal-comma numeral aborts the run, as does an amount too large to
/// measure in hundredths within machine bounds.
#[derive(Clone, Copy, Debug, PartialEq, Eq, Structural)]
pub enum ExtractError {
    MalformedPrice,
    PriceOutOfRange,
}

/// An ASCII decimal digit (code points 48 through 57).
pub open spec fn digit(c: char) -> bool {
    48 <= c as u32 && c as u32 <= 57
}

/// The value of an ASCII decimal digit; 0 for any other character.
pub open spec fn digit_val(c: char) -> int {
    if digit(c) {
        c as u32 - 48
    } else {
        0
    }
}

/// Every character of `s` is an ASCII decimal digit.
pub open spec fn all_digits(s: Seq<char>) -> bool {
    forall|i: int| 0 <= i < s.len() ==> digit(s[i])
}

/// The number written in `s` read as base-ten digits.
pub open spec fn digits_val(s: Seq<char>) -> int
    decreases s.len(),
{
    if s.len() == 0 {
        0
    } else {
        digits_val(s.drop_last()) * 10 + digit_val(s.last())
    }
}

pub proof fn lemma_digits_val_nonneg(s: Seq<char>)
    ensures
        digits_val(s) >= 0,
    decreases s.len(),
{
    if s.len() != 0 {
        lemma_digits_val_nonneg(s.drop_last());
    }
}

/// Reading more digits never makes the number smaller.
pub proof fn lemma_digits_val_take(s: Seq<char>, k: int)
    requires
        0 <= k <= s.len(),
    ensures
        digits_val(s.take(k)) <= digits_val(s),
    decreases s.len(),
{
    if k == s.len() {
        assert(s.take(k) =~= s);
    } else {
        assert(s.drop_last().take(k) =~= s.take(k));
        lemma_digits_val_take(s.drop_last(), k);
        lemma_digits_val_nonneg(s.drop_last());
    }
}

/// A string of at most two digits reads as at most 99.
pub proof fn lemma_digits_val_two(s: Seq<char>)
    requires
        s.len() <= 2,
    ensures
        digits_val(s) <= 99,
{
    if s.len() == 1 {
        assert(digits_val(s.drop_last()) == 0);
        assert(digit_val(s.last()) <= 9);
    } else if s.len() == 2 {
        assert(digits_val(s.drop_last().drop_last()) == 0);
        assert(digit_val(s.drop_last().last()) <= 9);
        assert(digits_val(s.drop_last()) <= 9);
        assert(digit_val(s.last()) <= 9);
    }
}

/// The amount a price token denotes, in hundredths: one or more digits,
/// optionally followed by a comma and one or two fraction digits, as on a
/// receipt printed with the decimal-comma convention.  Any other shape
/// denotes nothing.
pub open spec fn numeral_cents(tok: Seq<char>) -> Option<int> {
    let parts = split_parts(tok, ',');
    if parts.len() == 1 && parts[0].len() >= 1 && all_digits(parts[0]) {
        Some(digits_val(parts[0]) * 100)
    } else if parts.len() == 2 && parts[0].len() >= 1 && all_digits(parts[0]) && 1 <= parts[1].len()
        <= 2 && all_digits(parts[1]) {
        let scale: int = if parts[1].len() == 1 {
            10
        } else {
            1
        };
        Some(digits_val(parts[0]) * 100 + digits_val(parts[1]) * scale)
    } else {
        None
    }
}

/// A numeral never denotes a negative amount.
pub proof fn lemma_numeral_cents_nonneg(tok: Seq<char>)
    ensures
        numeral_cents(tok) is Some ==> numeral_cents(tok)->Some_0 >= 0,
{
    let parts = split_parts(tok, ',');
    if parts.len() >= 1 {
        lemma_digits_val_nonneg(parts[0]);
    }
    if parts.len() >= 2 {
        lemma_digits_val_nonneg(parts[1]);
    }
}

/// Whether every character of `s` is an ASCII decimal digit.
pub fn all_digits_check(s: &str) -> (b: bool)
    ensures
        b == all_digits(s@),
{
    let n = s.unicode_len();
    let mut i: usize = 0;
    while i < n
        invariant
            n == s@.len(),
            i <= n,
            forall|k: int| 0 <= k < i ==> digit(s@[k]),
        decreases n - i,
    {
        let c = s.get_char(i);
        let u = c as u32;
        if u < 48 || u > 57 {
            return false;
        }
        i += 1;
    }
    true
}

/// Reads a string of digits as a base-ten number; `None` when the number
/// does not fit the machine word.
pub fn digits_value(s: &str) -> (r: Option<u64>)
    requires
        all_digits(s@),
    ensures
        match r {
            Some(v) => v as int == digits_val(s@),
            None => digits_val(s@) > u64::MAX,
        },
{
    let n = s.unicode_len();
    let mut acc: u64 = 0;
    let mut i: usize = 0;
    while i < n
        invariant
            all_digits(s@),
            n == s@.len(),
            i <= n,
            acc as int == digits_val(s@.take(i as int)),
        decreases n - i,
    {
        let c = s.get_char(i);
        proof {
            assert(digit(s@[i as int]));
        }
        let d = (c as u32 - 48) as u64;
        let step = match acc.checked_mul(10) {
            Some(t) => t.checked_add(d),
            None => None,
        };
        proof {
            assert(s@.take(i + 1).drop_last() =~= s@.take(i as int));
            assert(s@.take(i + 1).last() == s@[i as int]);
        }
        match step {
            Some(t) => {
                acc = t;
            },
            None => {
                proof {
                    lemma_digits_val_take(s@, i + 1);
                }
                return None;
            },
        }
        i += 1;
    }
    proof {
        assert(s@.take(n as int) =~= s@);
    }
    Some(acc)
}

/// Reads a price token as an amount in hundredths.  Exactly the tokens
/// that [`numeral_cents`] gives an amount are accepted; an amount beyond
/// the machine word is out of range, anything else is malformed.
pub fn parse_price(tok: &str) -> (r: Result<u64, ExtractError>)
    ensures
        match numeral_cents(tok@) {
            Some(v) => (v <= u64::MAX ==> r == Ok::<u64, ExtractError>(v as u64)) && (v > u64::MAX
                ==> r == Err::<u64, ExtractError>(ExtractError::PriceOutOfRange)),
            None => r == Err::<u64, ExtractError>(ExtractError::MalformedPrice),
        },
{
    let parts = split_on(tok, ',');
    if parts.len() == 1 {
        let intpart = parts[0].as_str();
        proof {
            assert(intpart@ == split_parts(tok@, ',')[0]);
        }
        if intpart.unicode_len() == 0 || !all_digits_check(intpart) {
            return Err(ExtractError::MalformedPrice);
        }
        match digits_value(intpart) {
            None => {
                proof {
                    lemma_digits_val_nonneg(intpart@);
                }
                Err(ExtractError::PriceOutOfRange)
            },
            Some(v) => match v.checked_mul(100) {
                None => Err(ExtractError::PriceOutOfRange),
                Some(c) => Ok(c),
            },
        }
    } else if parts.len() == 2 {
        let intpart = parts[0].as_str();
        let frac = parts[1].as_str();
        proof {
            assert(intpart@ == split_parts(tok@, ',')[0]);
            assert(frac@ == split_parts(tok@, ',')[1]);
        }
        let fl = frac.unicode_len();
        if intpart.unicode_len() == 0 || !all_digits_check(intpart) || fl == 0 || fl > 2
            || !all_digits_check(frac) {
            return Err(ExtractError::MalformedPrice);
        }
        let scale: u64 = if fl == 1 {
            10
        } else {
            1
        };
        match digits_value(intpart) {
            None => {
                proof {
                    lemma_digits_val_nonneg(intpart@);
                    lemma_digits_val_nonneg(frac@);
                }
                Err(ExtractError::PriceOutOfRange)
            },
            Some(v) => {
                proof {
                    lemma_digits_val_two(frac@);
                    lemma_digits_val_nonneg(frac@);
                }
                let f = match digits_value(frac) {
                    Some(f) => f,
                    None => {
                        return Err(ExtractError::PriceOutOfRange);
                    },
                };
                match v.checked_mul(100) {
                    None => {
                        proof {
                            lemma_digits_val_nonneg(frac@);
                        }
                        Err(ExtractError::PriceOutOfRange)
                    },
                    Some(t) => match t.checked_add(f * scale) {
                        None => Err(ExtractError::PriceOutOfRange),
                        Some(c) => Ok(c),
                    },
                }
            },
        }
    } else {
        Err(ExtractError::MalformedPrice)
    }
}

} // verus!
