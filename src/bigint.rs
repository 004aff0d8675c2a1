//! Arbitrary-precision integers, as num-bigint provides them.

use vstd::prelude::*;

use num_bigint::BigInt;

verus! {

#[verifier::external_type_specification]
#[verifier::external_body]
pub struct ExBigInt(BigInt);

/// The integer that a `BigInt` holds.
pub uninterp spec fn int_value(b: BigInt) -> int;

/// The value of a digit character in bases up to 36; 36 for any other
/// character.
pub open spec fn digit_value(c: char) -> int {
    if '0' <= c && c <= '9' {
        c as int - '0' as int
    } else if 'a' <= c && c <= 'z' {
        c as int - 'a' as int + 10
    } else if 'A' <= c && c <= 'Z' {
        c as int - 'A' as int + 10
    } else {
        36
    }
}

/// The digits with one leading `+` removed, unless a second one follows.
pub open spec fn unsigned_body(s: Seq<char>) -> Seq<char> {
    if s.len() > 0 && s[0] == '+' && !(s.len() > 1 && s[1] == '+') {
        s.drop_first()
    } else {
        s
    }
}

/// Whether the text is a leading `-` (not followed by `+`), and the rest.
pub open spec fn sign_split(s: Seq<char>) -> (bool, Seq<char>) {
    if s.len() > 0 && s[0] == '-' && !(s.len() > 1 && s[1] == '+') {
        (true, s.drop_first())
    } else {
        (false, s)
    }
}

/// Digits of the radix, with `_` anywhere but in front.
pub open spec fn digits_ok(t: Seq<char>, radix: u32) -> bool {
    &&& t.len() > 0
    &&& t[0] != '_'
    &&& forall|i: int| 0 <= i < t.len() ==> #[trigger] t[i] == '_' || digit_value(t[i]) < radix
}

/// The value of a run of digits, `_` skipped.
pub open spec fn digits_num(t: Seq<char>, radix: u32) -> int
    decreases t.len(),
{
    if t.len() == 0 {
        0
    } else if t.last() == '_' {
        digits_num(t.drop_last(), radix)
    } else {
        digits_num(t.drop_last(), radix) * radix + digit_value(t.last())
    }
}

/// Whether `BigInt::from_str_radix` accepts the text.
pub open spec fn radix_accepts(s: Seq<char>, radix: u32) -> bool {
    digits_ok(unsigned_body(sign_split(s).1), radix)
}

/// The value that `BigInt::from_str_radix` reads from accepted text.
pub open spec fn radix_value(s: Seq<char>, radix: u32) -> int {
    let v = digits_num(unsigned_body(sign_split(s).1), radix);
    if sign_split(s).0 {
        -v
    } else {
        v
    }
}

/// Relies on `<BigInt as Num>::from_str_radix`: an optional sign, then digits
/// of the radix that may be separated by `_`.
#[verifier::external_body]
pub(crate) fn from_str_radix(digits: &Vec<char>, radix: u32) -> (r: Option<BigInt>)
    requires
        2 <= radix <= 36,
    ensures
        r.is_some() == radix_accepts(digits@, radix),
        r matches Some(b) ==> int_value(b) == radix_value(digits@, radix),
{
    let s: String = digits.iter().collect();
    <BigInt as num_traits::Num>::from_str_radix(&s, radix).ok()
}

/// The decimal digits of a natural number.
pub open spec fn nat_decimal(n: nat) -> Seq<char>
    decreases n,
{
    if n < 10 {
        seq![(n + '0' as nat) as char]
    } else {
        nat_decimal(n / 10) + seq![((n % 10) + '0' as nat) as char]
    }
}

/// An integer in decimal, with a leading `-` where it is negative.
pub open spec fn int_decimal(n: int) -> Seq<char> {
    if n < 0 {
        seq!['-'] + nat_decimal((-n) as nat)
    } else {
        nat_decimal(n as nat)
    }
}

/// Relies on `<BigInt as Display>::fmt` (via `to_string`): the value in decimal.
#[verifier::external_body]
pub(crate) fn to_decimal(b: &BigInt) -> (r: Vec<char>)
    ensures
        r@ == int_decimal(int_value(*b)),
{
    b.to_string().chars().collect()
}

/// Relies on `<BigInt as Neg>::neg`.
#[verifier::external_body]
pub(crate) fn negate(b: BigInt) -> (r: BigInt)
    ensures
        int_value(r) == -int_value(b),
{
    -b
}

/// Relies on `<BigInt as From<u64>>::from`.
#[verifier::external_body]
pub(crate) fn from_u64(n: u64) -> (r: BigInt)
    ensures
        int_value(r) == n,
{
    BigInt::from(n)
}

/// Relies on `<BigInt as ToPrimitive>::to_u64`: the value where it fits.
#[verifier::external_body]
pub(crate) fn to_u64(b: &BigInt) -> (r: Option<u64>)
    ensures
        r == if 0 <= int_value(*b) <= u64::MAX {
            Some(int_value(*b) as u64)
        } else {
            None::<u64>
        },
{
    num_traits::ToPrimitive::to_u64(b)
}

/// Relies on `<BigInt as Zero>::is_zero`.
#[verifier::external_body]
pub(crate) fn is_zero(b: &BigInt) -> (r: bool)
    ensures
        r == (int_value(*b) == 0),
{
    num_traits::Zero::is_zero(b)
}

/// Relies on `<&BigInt as Add>::add`.
#[verifier::external_body]
pub(crate) fn big_add(a: &BigInt, b: &BigInt) -> (r: BigInt)
    ensures
        int_value(r) == int_value(*a) + int_value(*b),
{
    a + b
}

/// Relies on `<&BigInt as Sub>::sub`.
#[verifier::external_body]
pub(crate) fn big_sub(a: &BigInt, b: &BigInt) -> (r: BigInt)
    ensures
        int_value(r) == int_value(*a) - int_value(*b),
{
    a - b
}

/// Relies on `<&BigInt as Mul>::mul`.
#[verifier::external_body]
pub(crate) fn big_mul(a: &BigInt, b: &BigInt) -> (r: BigInt)
    ensures
        int_value(r) == int_value(*a) * int_value(*b),
{
    a * b
}

/// The quotient of `a` by `b`, rounded down.
pub open spec fn floor_div(a: int, b: int) -> int {
    if b > 0 {
        a / b
    } else {
        (-a) / (-b)
    }
}

/// Relies on `<BigInt as Integer>::div_floor`: the quotient rounded down.
#[verifier::external_body]
pub(crate) fn div_floor(a: &BigInt, b: &BigInt) -> (r: BigInt)
    requires
        int_value(*b) != 0,
    ensures
        int_value(r) == floor_div(int_value(*a), int_value(*b)),
{
    num_integer::Integer::div_floor(a, b)
}

/// Relies on `<BigInt as PartialOrd>::lt`.
#[verifier::external_body]
pub(crate) fn less(a: &BigInt, b: &BigInt) -> (r: bool)
    ensures
        r == (int_value(*a) < int_value(*b)),
{
    a < b
}

} // verus!
