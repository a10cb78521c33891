//! Tests of the three concrete grammars.

use parsekit::dotenv;
use parsekit::json;
use parsekit::json::JsonValue;
use parsekit::types::Decimal;
use parsekit::xml;
use parsekit::xml::Element;
use parsekit::xml::XmlValue;

fn num(i: u32) -> JsonValue<'static> {
    JsonValue::Number(Decimal { neg: false, int_part: i, frac_part: 0, frac_digits: 0 })
}

#[test]
fn test_dotenv() {
    let dotenv = b"
            S3_BUCKET=YOURS3BUCKET
            SECRET_KEY=\"YOURSECRETKEYGOESHERE\"
        ";

    let result = dotenv::parser(dotenv);

    let env: Vec<(&[u8], &[u8])> = vec![
        (&b"S3_BUCKET"[..], &b"YOURS3BUCKET"[..]),
        (&b"SECRET_KEY"[..], &b"YOURSECRETKEYGOESHERE"[..]),
    ];

    assert_eq!(Ok(env), result);
}

#[test]
fn test_dotenv_quoted_and_bare() {
    let input = b"KEY=value\nKEY2=\"quoted value\"\n";
    let result = dotenv::parser(input).unwrap();
    let expected: Vec<(&[u8], &[u8])> = vec![
        (&b"KEY"[..], &b"value"[..]),
        (&b"KEY2"[..], &b"quoted value"[..]),
    ];
    assert_eq!(expected, result);
}

#[test]
fn test_dotenv_last_write_wins() {
    let input = b"A=1\nB=2\nA=3\n";
    let result = dotenv::parser(input).unwrap();
    let expected: Vec<(&[u8], &[u8])> =
        vec![(&b"A"[..], &b"3"[..]), (&b"B"[..], &b"2"[..])];
    assert_eq!(expected, result);
}

#[test]
fn test_json() {
    let json = b"
        {
            \"userId\": 1,
            \"id\": 1,
            \"title\": \"delectus aut autem\",
            \"completed\": false
        }
        ";

    let result = json::parse(json);

    let obj = vec![
        (&b"userId"[..], num(1)),
        (&b"id"[..], num(1)),
        (&b"title"[..], JsonValue::String(&b"delectus aut autem"[..])),
        (&b"completed"[..], JsonValue::Boolean(false)),
    ];

    assert_eq!(Ok(JsonValue::Object(obj)), result);
}

#[test]
fn test_json_object_members() {
    let result = json::parse(b"{\"a\":1,\"b\":2}").unwrap();
    let expected = JsonValue::Object(vec![(&b"a"[..], num(1)), (&b"b"[..], num(2))]);
    assert_eq!(expected, result);
}

#[test]
fn test_json_array_and_empty_array() {
    let result = json::parse(b"[1,2,3]").unwrap();
    assert_eq!(JsonValue::Array(vec![num(1), num(2), num(3)]), result);
    // an empty array is a parse failure: at least one element is required
    assert!(json::parse(b"[]").is_err());
    assert!(json::parse(b"{}").is_err());
}

#[test]
fn test_json_scalars_and_nesting() {
    assert_eq!(JsonValue::Null, json::parse(b" null").unwrap());
    assert_eq!(JsonValue::Boolean(true), json::parse(b"true").unwrap());
    assert_eq!(
        JsonValue::Number(Decimal { neg: true, int_part: 2, frac_part: 25, frac_digits: 2 }),
        json::parse(b"-2.25").unwrap()
    );
    let nested = json::parse(b"{\"a\": [1, {\"b\": \"x\"}]}").unwrap();
    let inner = JsonValue::Object(vec![(&b"b"[..], JsonValue::String(&b"x"[..]))]);
    let expected = JsonValue::Object(vec![(
        &b"a"[..],
        JsonValue::Array(vec![num(1), inner]),
    )]);
    assert_eq!(expected, nested);
}

#[test]
fn test_json_duplicate_keys_last_write_wins() {
    let result = json::parse(b"{\"a\":1,\"a\":2}").unwrap();
    assert_eq!(JsonValue::Object(vec![(&b"a"[..], num(2))]), result);
}

#[test]
fn test_json_trailing_input_is_ignored() {
    assert_eq!(num(1), json::parse(b"1 trailing garbage").unwrap());
}

#[test]
fn test_xml() {
    let xml = b"
        <note>
            <to>Tove</to>
            <from>Jani</from>
            <heading>Reminder</heading>
            <body>Don't forget me this weekend!</body>
            <short foo=\"bar\" />
        </note>
      ";

    let result = xml::parse(xml);

    assert_eq!(
        Ok(vec![Element {
            name: &b"note"[..],
            attrs: vec![],
            children: vec![
                XmlValue::Element(Element {
                    name: &b"to"[..],
                    attrs: vec![],
                    children: vec![XmlValue::Text(&b"Tove"[..])],
                }),
                XmlValue::Element(Element {
                    name: &b"from"[..],
                    attrs: vec![],
                    children: vec![XmlValue::Text(&b"Jani"[..])],
                }),
                XmlValue::Element(Element {
                    name: &b"heading"[..],
                    attrs: vec![],
                    children: vec![XmlValue::Text(&b"Reminder"[..])],
                }),
                XmlValue::Element(Element {
                    name: &b"body"[..],
                    attrs: vec![],
                    children: vec![XmlValue::Text(&b"Don't forget me this weekend!"[..])],
                }),
                XmlValue::Element(Element {
                    name: &b"short"[..],
                    attrs: vec![(&b"foo"[..], &b"bar"[..])],
                    children: vec![],
                }),
            ],
        }]),
        result
    );
}

#[test]
fn test_xml_self_closing_with_attributes() {
    let result = xml::parse(b"<x a=\"1\" b=\"2\"/>").unwrap();
    assert_eq!(
        vec![Element {
            name: &b"x"[..],
            attrs: vec![(&b"a"[..], &b"1"[..]), (&b"b"[..], &b"2"[..])],
            children: vec![],
        }],
        result
    );
}

#[test]
fn test_xml_tag_mismatch_is_distinct() {
    // a closing tag with the wrong name fails with the dedicated reason,
    // which differs from a purely structural failure such as a missing
    // closing tag
    let mismatch = xml::element(b"<a></b>");
    assert_eq!(Err("ending tag does not match"), mismatch);
    let structural = xml::element(b"<a>");
    assert!(structural.is_err());
    assert_ne!(mismatch, structural);
}

#[test]
fn test_xml_tag_parsers_exact() {
    // an opening tag does not accept the self-closing form
    assert!(xml::element_start(b"<a/>").is_err());
    assert_eq!(
        Ok((&b"x"[..], Element { name: &b"a"[..], attrs: vec![], children: vec![] })),
        xml::element_start(b"<a>x")
    );
    assert_eq!(Ok((&b"rest"[..], &b"a"[..])), xml::element_end(b"</ a >rest"));
    assert!(xml::element_end(b"<a>").is_err());
    assert_eq!(
        Ok((&b""[..], Element { name: &b"b"[..], attrs: vec![], children: vec![] })),
        xml::element_short(b"< b />")
    );
}

#[test]
fn test_xml_trailing_input_is_ignored() {
    let result = xml::parse(b"<a></a> loose text").unwrap();
    assert_eq!(
        vec![Element { name: &b"a"[..], attrs: vec![], children: vec![] }],
        result
    );
}
