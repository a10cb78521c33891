//! Tests of the combinator engine and the primitive value parsers.

use parsekit::parsers::and_then;
use parsekit::parsers::eq_bytes;
use parsekit::parsers::identifier;
use parsekit::parsers::identifier_first;
use parsekit::parsers::left;
use parsekit::parsers::match_literal;
use parsekit::parsers::maybe;
use parsekit::parsers::null_identifier;
use parsekit::parsers::one_or_more;
use parsekit::parsers::or;
use parsekit::parsers::pair;
use parsekit::parsers::right;
use parsekit::parsers::skip_whitespace;
use parsekit::parsers::skip_whitespace_left;
use parsekit::parsers::zero_or_more;
use parsekit::parsers::Parser;
use parsekit::parsers::ParserResult;
use parsekit::types::boolean;
use parsekit::types::decimal;
use parsekit::types::number;
use parsekit::types::string;
use parsekit::types::Decimal;

fn bar<'a>(input: &'a [u8]) -> ParserResult<'a, ()> {
    match_literal(b"bar", input)
}

fn foo<'a>(input: &'a [u8]) -> ParserResult<'a, ()> {
    match_literal(b"foo", input)
}

#[test]
fn test_match_literal() {
    assert_eq!(Ok((&b"bar"[..], ())), match_literal(b"foo", b"foobar"));
    assert_eq!(
        Err("match literal failed"),
        match_literal(b"foo", b"fobar")
    );
}

#[test]
fn test_identifier() {
    let alnum = |b: u8| b.is_ascii_alphanumeric();
    assert_eq!(Ok((&b""[..], &b"foo"[..])), identifier(&alnum, b"foo"));
    assert_eq!(Err("identifier failed"), identifier(&alnum, b" foo"));
    assert_eq!(Err("identifier failed"), identifier(&alnum, b""));
}

#[test]
fn test_one_or_more() {
    assert_eq!(
        Ok((&b"foo"[..], vec![(), (), ()])),
        one_or_more(&bar, b"barbarbarfoo")
    );
    assert_eq!(Err("match literal failed"), one_or_more(&bar, b"foo"));
}

#[test]
fn test_string() {
    assert_eq!(Ok((&b""[..], &b"fizz"[..])), string(b"\"fizz\""));
}

#[test]
fn test_string_unterminated_fails() {
    assert!(string(b"\"fizz").is_err());
    assert!(string(b"fizz\"").is_err());
}

#[test]
fn test_null_identifier_never_fails() {
    let alpha = |b: u8| b.is_ascii_alphabetic();
    assert_eq!(
        Ok((&b"123"[..], &b"ab"[..])),
        null_identifier(&alpha, b"ab123")
    );
    assert_eq!(Ok((&b"123"[..], &b""[..])), null_identifier(&alpha, b"123"));
    assert_eq!(Ok((&b""[..], &b""[..])), null_identifier(&alpha, b""));
}

#[test]
fn test_identifier_first_distinct_predicates() {
    let rest_pred = |b: u8| b.is_ascii_alphanumeric() || b == b'_' || b == b':';
    let first_pred = |b: u8| b.is_ascii_alphabetic() || b == b'_';
    assert_eq!(
        Ok((&b" x"[..], &b"_a1:b"[..])),
        identifier_first(&rest_pred, &first_pred, b"_a1:b x")
    );
    assert_eq!(
        Err("identifier failed"),
        identifier_first(&rest_pred, &first_pred, b"1ab")
    );
}

#[test]
fn test_identifier_first_judges_first_byte_alone() {
    // the first byte is accepted by the first predicate even where the
    // continuation predicate rejects it; the rest of the run follows the
    // continuation predicate
    let digits = |b: u8| b.is_ascii_digit();
    let hash = |b: u8| b == b'#';
    assert_eq!(
        Ok((&b"x"[..], &b"#12"[..])),
        identifier_first(&digits, &hash, b"#12x")
    );
    assert_eq!(Ok((&b"ab"[..], &b"#"[..])), identifier_first(&digits, &hash, b"#ab"));
}

#[test]
fn test_zero_or_more_empty_is_ok() {
    assert_eq!(Ok((&b"foo"[..], vec![])), zero_or_more(&bar, b"foo"));
    assert_eq!(
        Ok((&b""[..], vec![(), ()])),
        zero_or_more(&bar, b"barbar")
    );
}

#[test]
fn test_map_transforms_value() {
    let to_one = |_: ()| 1u32;
    assert_eq!(Ok((&b"bar"[..], 1u32)), parsekit::parsers::map(&foo, &to_one, b"foobar"));
    assert!(parsekit::parsers::map(&foo, &to_one, b"bar").is_err());
}

#[test]
fn test_and_then_can_fail() {
    let check = |_: ()| -> Result<u32, &'static str> { Err("rejected") };
    assert_eq!(Err("rejected"), and_then(&foo, &check, b"foobar"));
    let accept = |_: ()| -> Result<u32, &'static str> { Ok(7) };
    assert_eq!(Ok((&b"bar"[..], 7u32)), and_then(&foo, &accept, b"foobar"));
}

#[test]
fn test_pair_left_right() {
    assert_eq!(Ok((&b"!"[..], ((), ()))), pair(&foo, &bar, b"foobar!"));
    assert_eq!(Ok((&b"!"[..], ())), left(&foo, &bar, b"foobar!"));
    assert_eq!(Ok((&b"!"[..], ())), right(&foo, &bar, b"foobar!"));
    assert!(pair(&foo, &bar, b"foofoo").is_err());
}

#[test]
fn test_or_backtracks_to_original_view() {
    // the first branch consumes nothing visible to the second: `bar` is
    // attempted on the very same view after `foo` fails
    assert_eq!(Ok((&b"rest"[..], ())), or(&foo, &bar, b"barrest"));
    assert_eq!(Ok((&b"rest"[..], ())), or(&foo, &bar, b"foorest"));
    assert_eq!(Err("match literal failed"), or(&foo, &bar, b"bazrest"));
}

#[test]
fn test_maybe_never_fails() {
    let default = || 9i32;
    assert_eq!(Ok((&b"x"[..], 5i32)), maybe(&number, &default, b"5x"));
    assert_eq!(Ok((&b"x"[..], 9i32)), maybe(&number, &default, b"x"));
}

#[test]
fn test_skip_whitespace() {
    assert_eq!(Ok((&b"a b"[..], ())), skip_whitespace(b" \t\r\n a b"));
    assert_eq!(Ok((&b"a"[..], ())), skip_whitespace(b"a"));
    assert_eq!(Ok((&b"foo"[..], ())), skip_whitespace_left(&foo, b"  foofoo").map(|(r, _)| (r, ())));
}

#[test]
fn test_parser_trait_dispatch() {
    assert_eq!(Ok((&b"bar"[..], ())), foo.parse(b"foobar"));
    assert!(bar.parse(b"foobar").is_err());
}

#[test]
fn test_eq_bytes() {
    assert!(eq_bytes(b"abc", b"abc"));
    assert!(!eq_bytes(b"abc", b"abd"));
    assert!(!eq_bytes(b"abc", b"ab"));
}

#[test]
fn test_boolean_literals() {
    assert_eq!(Ok((&b""[..], true)), boolean(b"true"));
    assert_eq!(Ok((&b""[..], false)), boolean(b"false"));
    assert_eq!(Ok((&b" x"[..], true)), boolean(b"true x"));
    assert!(boolean(b"tru").is_err());
    assert!(boolean(b"yes").is_err());
}

#[test]
fn test_number_values() {
    assert_eq!(Ok((&b""[..], 42)), number(b"42"));
    assert_eq!(Ok((&b""[..], -17)), number(b"-17"));
    assert_eq!(Ok((&b"x"[..], 0)), number(b"0x"));
    assert!(number(b"-").is_err());
    assert!(number(b"x").is_err());
    assert_eq!(Err("number overflow"), number(b"99999999999999999999"));
}

#[test]
fn test_decimal_exact_parts() {
    assert_eq!(
        Ok((
            &b""[..],
            Decimal { neg: false, int_part: 1, frac_part: 5, frac_digits: 2 }
        )),
        decimal(b"1.05")
    );
    assert_eq!(
        Ok((
            &b""[..],
            Decimal { neg: true, int_part: 2, frac_part: 25, frac_digits: 2 }
        )),
        decimal(b"-2.25")
    );
    // a fractional part that is all zeroes keeps its digit count as scale
    assert_eq!(
        Ok((
            &b""[..],
            Decimal { neg: false, int_part: 1, frac_part: 0, frac_digits: 1 }
        )),
        decimal(b"1.0")
    );
    assert!(decimal(b"1").is_err());
    assert!(decimal(b"1.").is_err());
    assert!(decimal(b".5").is_err());
}

#[test]
fn test_decimal_reconstructs_exact_values() {
    let cases: [(&[u8], f64); 3] = [(b"1.05", 1.05), (b"-2.25", -2.25), (b"1.0", 1.0)];
    for (text, expected) in cases {
        let (_, d) = decimal(text).unwrap();
        let scale = 10f64.powi(d.frac_digits as i32);
        let mut v = d.int_part as f64 + d.frac_part as f64 / scale;
        if d.neg {
            v = -v;
        }
        assert!(v.is_finite());
        assert_eq!(expected, v);
    }
}
