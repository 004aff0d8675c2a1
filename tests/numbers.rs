use fift_core::error::Error;
use fift_core::number::ImmediateInt;
use num_bigint::BigInt;

fn parse(s: &str) -> Result<Option<(BigInt, Option<BigInt>)>, Error> {
    let v: Vec<char> = s.chars().collect();
    ImmediateInt::try_from_str(&v).map(|o| o.map(|i| (i.num, i.denom)))
}

fn big(n: i64) -> BigInt {
    BigInt::from(n)
}

#[test]
fn decimal_literals() {
    assert_eq!(parse("42").ok().unwrap(), Some((big(42), None)));
    assert_eq!(parse("-42").ok().unwrap(), Some((big(-42), None)));
    assert_eq!(parse("007").ok().unwrap(), Some((big(7), None)));
}

#[test]
fn hex_and_binary_literals() {
    assert_eq!(parse("0x10").ok().unwrap(), Some((big(16), None)));
    assert_eq!(parse("0xfF").ok().unwrap(), Some((big(255), None)));
    assert_eq!(parse("-0b101").ok().unwrap(), Some((big(-5), None)));
    assert_eq!(parse("0XFF").ok().unwrap(), None);
    assert_eq!(parse("0xAbC").ok().unwrap(), Some((big(0xabc), None)));
}

#[test]
fn rational_literals() {
    assert_eq!(parse("1/2").ok().unwrap(), Some((big(1), Some(big(2)))));
    assert_eq!(parse("-3/0x10").ok().unwrap(), Some((big(-3), Some(big(16)))));
    assert_eq!(parse("1/-2").ok().unwrap(), Some((big(1), Some(big(-2)))));
}

#[test]
fn words_are_not_numbers() {
    assert_eq!(parse("abc").ok().unwrap(), None);
    assert_eq!(parse("1a").ok().unwrap(), None);
    assert_eq!(parse("x/1").ok().unwrap(), None);
}

#[test]
fn malformed_numbers_are_errors() {
    assert!(matches!(parse("0x"), Err(Error::InvalidNumber)));
    assert!(matches!(parse("0b12"), Err(Error::InvalidNumber)));
    assert!(matches!(parse("-"), Err(Error::InvalidNumber)));
    assert!(matches!(parse("1/"), Err(Error::InvalidNumber)));
    assert!(matches!(parse("1/z"), Err(Error::InvalidNumber)));
    assert!(matches!(parse("/1"), Err(Error::InvalidNumber)));
}

#[test]
fn decimal_text_reads_back() {
    for n in [0i64, 9, 10, 12345, -1, -987654321] {
        assert_eq!(parse(&n.to_string()).ok().unwrap(), Some((big(n), None)));
    }
}

#[test]
fn rational_and_prefixed_texts_read_back() {
    for (n, d) in [(3i64, 4i64), (-10, 7), (0, -5)] {
        let text = format!("{}/{}", n, d);
        assert_eq!(parse(&text).ok().unwrap(), Some((big(n), Some(big(d)))));
    }
    for n in [0i64, 1, 255, 4096] {
        assert_eq!(parse(&format!("0x{:x}", n)).ok().unwrap(), Some((big(n), None)));
        assert_eq!(parse(&format!("0b{:b}", n)).ok().unwrap(), Some((big(n), None)));
    }
}

#[test]
fn base_prefix_takes_only_digits_of_the_base() {
    for bad in ["0x1_0", "0x+1", "0x-1", "-0x-5", "0b2", "0b+1", "1/0x-1", "0x_1"] {
        assert!(matches!(parse(bad), Err(Error::InvalidNumber)), "{}", bad);
    }
}
