//! Integer and rational literals.

use vstd::prelude::*;

use num_bigint::BigInt;

use crate::bigint::{
    digit_value, digits_num, from_str_radix, int_value, negate, radix_accepts, radix_value,
    sign_split, unsigned_body,
};
use crate::error::Error;
use crate::lexer::copy_range;

verus! {

/// A parsed literal: an integer, or a numerator and a denominator.
pub struct ImmediateInt {
    pub num: BigInt,
    pub denom: Option<BigInt>,
}

pub open spec fn is_ascii_digit(c: char) -> bool {
    '0' <= c && c <= '9'
}

pub open spec fn starts_with2(s: Seq<char>, a: char, b: char) -> bool {
    s.len() >= 2 && s[0] == a && s[1] == b
}

/// The sign and the digits that follow it.
pub open spec fn minus_split(s: Seq<char>) -> (bool, Seq<char>) {
    if s.len() > 0 && s[0] == '-' {
        (true, s.drop_first())
    } else {
        (false, s)
    }
}

/// Radix and digits of an unsigned literal: after `0x` base 16, after `0b`
/// base 2, otherwise base 10.
pub open spec fn radix_split(t: Seq<char>) -> (u32, Seq<char>) {
    if starts_with2(t, '0', 'x') {
        (16, t.subrange(2, t.len() as int))
    } else if starts_with2(t, '0', 'b') {
        (2, t.subrange(2, t.len() as int))
    } else {
        (10, t)
    }
}

/// Every character is a digit of the radix.
pub open spec fn all_radix_digits(d: Seq<char>, radix: u32) -> bool {
    forall|i: int| 0 <= i < d.len() ==> digit_value(#[trigger] d[i]) < radix
}

/// What one number (no `/`) reads as: an optional `-`, then `0x` and hex
/// digits, `0b` and binary digits, or decimal digits. `None` for an invalid
/// number (no digits, or a character after `0x`/`0b` that is no digit of the
/// base), `Some(None)` for text that is no number, `Some(Some(v))` for the
/// value.
pub open spec fn single_number(s: Seq<char>) -> Option<Option<int>> {
    let (neg, t) = minus_split(s);
    let (radix, d) = radix_split(t);
    if radix == 10 && !(forall|i: int| 0 <= i < t.len() ==> is_ascii_digit(#[trigger] t[i])) {
        Some(None)
    } else if d.len() == 0 || !all_radix_digits(d, radix) {
        None
    } else if neg {
        Some(Some(-digits_num(d, radix)))
    } else {
        Some(Some(digits_num(d, radix)))
    }
}

/// The value of a digit character, 36 for any other character.
pub fn char_digit(c: char) -> (r: u32)
    ensures
        r == digit_value(c),
{
    if c >= '0' && c <= '9' {
        c as u32 - '0' as u32
    } else if c >= 'a' && c <= 'z' {
        c as u32 - 'a' as u32 + 10
    } else if c >= 'A' && c <= 'Z' {
        c as u32 - 'A' as u32 + 10
    } else {
        36
    }
}

/// Index of the first `/`, if any.
pub open spec fn first_slash(s: Seq<char>, i: int) -> bool {
    0 <= i < s.len() && s[i] == '/' && forall|j: int| 0 <= j < i ==> s[j] != '/'
}

pub open spec fn has_slash(s: Seq<char>) -> bool {
    exists|i: int| 0 <= i < s.len() && s[i] == '/'
}

/// What a literal reads as: `None` for an invalid number, `Some(None)` for
/// text that is no number, `Some(Some((n, d)))` for numerator and optional
/// denominator. `N/D` splits at the first `/`; where `N` is a number, `D`
/// must be one too.
pub open spec fn literal(s: Seq<char>) -> Option<Option<(int, Option<int>)>> {
    if has_slash(s) {
        let i = choose|i: int| first_slash(s, i);
        let left = s.subrange(0, i);
        let right = s.subrange(i + 1, s.len() as int);
        match single_number(left) {
            None => None,
            Some(None) => Some(None),
            Some(Some(n)) => match single_number(right) {
                Some(Some(d)) => Some(Some((n, Some(d)))),
                _ => None,
            },
        }
    } else {
        match single_number(s) {
            None => None,
            Some(None) => Some(None),
            Some(Some(n)) => Some(Some((n, None))),
        }
    }
}

pub open spec fn opt_value(b: Option<BigInt>) -> Option<int> {
    match b {
        Some(v) => Some(int_value(v)),
        None => None,
    }
}

impl ImmediateInt {
    /// Parses a literal; `Ok(None)` where the text is no number.
    pub fn try_from_str(s: &Vec<char>) -> (r: Result<Option<ImmediateInt>, Error>)
        ensures
            match literal(s@) {
                None => r == Err::<Option<ImmediateInt>, Error>(Error::InvalidNumber),
                Some(None) => r matches Ok(None),
                Some(Some((n, d))) => r matches Ok(Some(v)) && int_value(v.num) == n
                    && opt_value(v.denom) == d,
            },
    {
        let mut i: usize = 0;
        while i < s.len()
            invariant
                i <= s@.len(),
                forall|j: int| 0 <= j < i ==> s@[j] != '/',
            ensures
                i < s@.len() ==> s@[i as int] == '/',
            decreases s.len() - i,
        {
            if s[i] == '/' {
                break;
            }
            i += 1;
        }
        if i < s.len() {
            assert(s@[i as int] == '/');
            assert(first_slash(s@, i as int));
            proof {
                let k = choose|k: int| first_slash(s@, k);
                if k < i {
                    assert(s@[k] != '/');
                } else if k > i {
                    assert(s@[i as int] != '/');
                }
            }
            let left = copy_range(s, 0, i);
            let right = copy_range(s, i + 1, s.len());
            let num = match Self::parse_single_number(&left) {
                Err(e) => return Err(e),
                Ok(None) => return Ok(None),
                Ok(Some(n)) => n,
            };
            let denom = match Self::parse_single_number(&right) {
                Err(e) => return Err(e),
                Ok(None) => return Err(Error::InvalidNumber),
                Ok(Some(d)) => d,
            };
            Ok(Some(ImmediateInt { num, denom: Some(denom) }))
        } else {
            assert(!has_slash(s@));
            match Self::parse_single_number(s) {
                Err(e) => Err(e),
                Ok(None) => Ok(None),
                Ok(Some(num)) => Ok(Some(ImmediateInt { num, denom: None })),
            }
        }
    }

    /// Parses one number: optional `-`, then `0x` hex digits, `0b` binary
    /// digits or decimal digits.
    fn parse_single_number(s: &Vec<char>) -> (r: Result<Option<BigInt>, Error>)
        ensures
            match single_number(s@) {
                None => r == Err::<Option<BigInt>, Error>(Error::InvalidNumber),
                Some(None) => r matches Ok(None),
                Some(Some(v)) => r matches Ok(Some(b)) && int_value(b) == v,
            },
    {
        let neg = s.len() > 0 && s[0] == '-';
        let t = if neg {
            copy_range(s, 1, s.len())
        } else {
            copy_range(s, 0, s.len())
        };
        assert(t@ == minus_split(s@).1);
        let hex = t.len() >= 2 && t[0] == '0' && t[1] == 'x';
        let bin = t.len() >= 2 && t[0] == '0' && t[1] == 'b';
        let radix: u32 = if hex {
            16
        } else if bin {
            2
        } else {
            10
        };
        if !hex && !bin {
            let mut j: usize = 0;
            while j < t.len()
                invariant
                    j <= t@.len(),
                    t@ == minus_split(s@).1,
                    hex == starts_with2(t@, '0', 'x'),
                    bin == starts_with2(t@, '0', 'b'),
                    !hex && !bin,
                    forall|k: int| 0 <= k < j ==> is_ascii_digit(#[trigger] t@[k]),
                decreases t.len() - j,
            {
                if !(t[j] >= '0' && t[j] <= '9') {
                    assert(radix_split(t@).0 == 10);
                    assert(!is_ascii_digit(t@[j as int]));
                    return Ok(None);
                }
                j += 1;
            }
        }
        let d = if hex || bin {
            copy_range(&t, 2, t.len())
        } else {
            t
        };
        assert(d@ == radix_split(t@).1);
        assert(radix == radix_split(t@).0);
        let mut j: usize = 0;
        while j < d.len()
            invariant
                j <= d@.len(),
                forall|k: int| 0 <= k < j ==> digit_value(#[trigger] d@[k]) < radix,
                d@ == radix_split(t@).1,
                t@ == minus_split(s@).1,
                radix == radix_split(t@).0,
                radix == 10 ==> forall|k: int| 0 <= k < t@.len() ==> is_ascii_digit(#[trigger] t@[k]),
            decreases d.len() - j,
        {
            if char_digit(d[j]) >= radix {
                return Err(Error::InvalidNumber);
            }
            j += 1;
        }
        if d.len() == 0 {
            return Err(Error::InvalidNumber);
        }
        proof {
            assert(digit_value(d@[0]) < radix);
            assert(sign_split(d@) == (false, d@));
            assert(unsigned_body(d@) == d@);
        }
        let num = match from_str_radix(&d, radix) {
            None => return Err(Error::InvalidNumber),
            Some(n) => n,
        };
        if neg {
            Ok(Some(negate(num)))
        } else {
            Ok(Some(num))
        }
    }
}

} // verus!
