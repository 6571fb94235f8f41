use json_parser::node::LeptValue;
use json_parser::parser::{LeptParser, ParseStatus};

/// Reading `json` fails with `error`, and leaves the node null.
fn check_error(error: ParseStatus, json: &str) {
    let mut node = LeptValue::new_bool(true);
    assert_eq!(error, LeptParser::parse(&mut node, json));
    assert_eq!(LeptValue::Null, node);
}

/// Reading `json` gives a number that reads as `expected`.
fn check_number(expected: f64, json: &str) {
    let mut node = LeptValue::default();
    LeptParser::parse(&mut node, json);
    assert_eq!(ParseStatus::Success, LeptParser::parse(&mut node, json));
    assert_eq!(expected, node.get_number().parse::<f64>().unwrap());
}

/// Reading `json` gives the string `expected`.
fn check_string(expected: &str, json: &str) {
    let mut node = LeptValue::default();
    LeptParser::parse(&mut node, json);
    assert_eq!(ParseStatus::Success, LeptParser::parse(&mut node, json));
    assert_eq!(expected, node.get_string());
}

fn number(text: &str) -> LeptValue {
    LeptValue::new_number(text.to_string())
}

#[test]
fn test_parse_null() {
    let mut node = LeptValue::new_bool(true);
    assert_eq!(ParseStatus::Success, LeptParser::parse(&mut node, "null"));
    assert_eq!(LeptValue::Null, node);
}

#[test]
fn test_parse_true() {
    let mut node = LeptValue::default();
    assert_eq!(ParseStatus::Success, LeptParser::parse(&mut node, "true"));
    assert_eq!(LeptValue::True, node);
}

#[test]
fn test_parse_false() {
    let mut node = LeptValue::default();
    assert_eq!(ParseStatus::Success, LeptParser::parse(&mut node, "false"));
    assert_eq!(LeptValue::False, node);
}

#[test]
fn test_parse_expect_value() {
    check_error(ParseStatus::ExpectValue, "");
    check_error(ParseStatus::ExpectValue, " ");
}

#[test]
fn test_parse_invalid_value() {
    check_error(ParseStatus::InvalidValue, "nul");
    check_error(ParseStatus::InvalidValue, "?");

    // invalid numbers
    check_error(ParseStatus::InvalidValue, "+0");
    check_error(ParseStatus::InvalidValue, "+1");
    check_error(ParseStatus::InvalidValue, ".123"); // at least one digit before '.'
    check_error(ParseStatus::InvalidValue, "1."); // at least one digit after '.'
    check_error(ParseStatus::InvalidValue, "INF");
    check_error(ParseStatus::InvalidValue, "inf");
    check_error(ParseStatus::InvalidValue, "NAN");
    check_error(ParseStatus::InvalidValue, "nan");
}

#[test]
fn test_parse_root_not_singular() {
    check_error(ParseStatus::RootNotSingular, "null x");

    // invalid numbers
    check_error(ParseStatus::RootNotSingular, "0123"); // after zero should be '.' or nothing
    check_error(ParseStatus::RootNotSingular, "0x0");
    check_error(ParseStatus::RootNotSingular, "0x123");
}

#[test]
fn test_parse_number() {
    check_number(0.0, "0");
    check_number(0.0, "-0");
    check_number(0.0, "-0.0");
    check_number(1.0, "1");
    check_number(-1.0, "-1");
    check_number(1.5, "1.5");
    check_number(-1.5, "-1.5");
    check_number(3.1416, "3.1416");
    check_number(1E10, "1E10");
    check_number(1e10, "1e10");
    check_number(1E+10, "1E+10");
    check_number(1E-10, "1E-10");
    check_number(-1E10, "-1E10");
    check_number(-1e10, "-1e10");
    check_number(-1E+10, "-1E+10");
    check_number(-1E-10, "-1E-10");
    check_number(1.234E+10, "1.234E+10");
    check_number(1.234E-10, "1.234E-10");
    check_number(0.0, "1e-10000"); // must underflow

    check_number(1.0000000000000002, "1.0000000000000002"); // the smallest number > 1
    check_number(4.9406564584124654e-324, "4.9406564584124654e-324"); // minimum denormal
    check_number(-4.9406564584124654e-324, "-4.9406564584124654e-324");
    check_number(2.2250738585072009e-308, "2.2250738585072009e-308"); // max subnormal double
    check_number(-2.2250738585072009e-308, "-2.2250738585072009e-308");
    check_number(2.2250738585072014e-308, "2.2250738585072014e-308"); // min normal positive double
    check_number(-2.2250738585072014e-308, "-2.2250738585072014e-308");
    check_number(1.7976931348623157e+308, "1.7976931348623157e+308"); // max double
    check_number(-1.7976931348623157e+308, "-1.7976931348623157e+308");
}

#[test]
fn test_parse_string() {
    check_string("", "\"\"");
    check_string("Hello", "\"Hello\"");
    check_string("Hello\nWorld", "\"Hello\\nWorld\"");

    check_error(ParseStatus::MissingQuotationMark, "\"");
    check_error(ParseStatus::MissingQuotationMark, "\"abc");

    check_error(ParseStatus::InvalidStringEscape, "\"\\v\"");
    check_error(ParseStatus::InvalidStringEscape, "\"\\'\"");
    check_error(ParseStatus::InvalidStringEscape, "\"\\0\"");
    check_error(ParseStatus::InvalidStringEscape, "\"\\x12\"");

    check_error(ParseStatus::InvalidStringChar, "\"\x01\"");
    check_error(ParseStatus::InvalidStringChar, "\"\x1F\"");

    check_string("Hello\0World", "\"Hello\\u0000World\"");
    check_string("\x24", "\"\\u0024\""); // Dollar sign U+0024
    check_error(ParseStatus::InvalidUnicodeHex, "\"\\u\"");
    check_error(ParseStatus::InvalidUnicodeHex, "\"\\u0\"");
    check_error(ParseStatus::InvalidUnicodeHex, "\"\\u01\"");
    check_error(ParseStatus::InvalidUnicodeHex, "\"\\u012\"");
    check_error(ParseStatus::InvalidUnicodeHex, "\"\\u/000\"");
    check_error(ParseStatus::InvalidUnicodeHex, "\"\\uG000\"");
    check_error(ParseStatus::InvalidUnicodeHex, "\"\\u0/00\"");
    check_error(ParseStatus::InvalidUnicodeHex, "\"\\u0G00\"");
    check_error(ParseStatus::InvalidUnicodeHex, "\"\\u00/0\"");
    check_error(ParseStatus::InvalidUnicodeHex, "\"\\u00G0\"");
    check_error(ParseStatus::InvalidUnicodeHex, "\"\\u000/\"");
    check_error(ParseStatus::InvalidUnicodeHex, "\"\\u000G\"");
    check_error(ParseStatus::InvalidUnicodeHex, "\"\\u 123\"");
}

#[test]
fn test_parse_array() {
    let mut node = LeptValue::default();

    // an empty array
    LeptParser::parse(&mut node, "[  ]");
    assert_eq!(LeptValue::new_array(vec![]), node);

    // an array of values of each kind
    LeptParser::parse(&mut node, "[ null , false , true , 123 , \"abc\" ]");
    assert_eq!(
        LeptValue::new_array(vec![
            LeptValue::default(),
            LeptValue::new_bool(false),
            LeptValue::new_bool(true),
            number("123"),
            LeptValue::new_string("abc".to_string())
        ]),
        node
    );

    // nested arrays
    LeptParser::parse(&mut node, "[ [ ] , [ 0 ] , [ 0 , 1 ] , [ 0 , 1 , 2 ] ]");
    assert_eq!(
        LeptValue::new_array(vec![
            LeptValue::new_array(vec![]),
            LeptValue::new_array(vec![number("0")]),
            LeptValue::new_array(vec![number("0"), number("1")]),
            LeptValue::new_array(vec![number("0"), number("1"), number("2")]),
        ]),
        node
    );

    // errors
    check_error(ParseStatus::MissCommaOrSquareBracket, "[");
    check_error(ParseStatus::MissCommaOrSquareBracket, "[1");
    check_error(ParseStatus::MissCommaOrSquareBracket, "[1}");
    check_error(ParseStatus::MissCommaOrSquareBracket, "[1,2");
    check_error(ParseStatus::MissCommaOrSquareBracket, "[1 2");
    check_error(ParseStatus::MissCommaOrSquareBracket, "[ [  ]");
    check_error(ParseStatus::InvalidValue, "[,]");
    check_error(ParseStatus::InvalidValue, "[1,]");
    check_error(ParseStatus::InvalidValue, "[\"a\", nul]");
}

#[test]
fn test_parse_object() {
    let mut node = LeptValue::default();

    // an empty object
    let status = LeptParser::parse(&mut node, "{  }");
    assert_eq!(ParseStatus::Success, status);
    // an object with members of each kind
    let status = LeptParser::parse(
        &mut node,
        " { 
                \"n\" : null , 
                \"f\" : false , 
                \"t\" : true , 
                \"i\" : 123 , 
                \"s\" : \"abc\", 
                \"a\" : [ 1, 2, 3 ],
                \"o\" : { \"1\" : 1, \"2\" : 2, \"3\" : 3 }
            } ",
    );
    assert_eq!(ParseStatus::Success, status);

    // errors
    let status = LeptParser::parse(&mut node, "{ 1 }");
    assert_eq!(ParseStatus::MissKey, status);
    let status = LeptParser::parse(&mut node, "{ \"a\" }");
    assert_eq!(ParseStatus::MissColon, status);
    let status = LeptParser::parse(&mut node, "{ \"a\": }");
    assert_eq!(ParseStatus::InvalidValue, status);
    let status = LeptParser::parse(&mut node, "{ \"a\": 1");
    assert_eq!(ParseStatus::MissCommaOrCurlyBracket, status);
}
