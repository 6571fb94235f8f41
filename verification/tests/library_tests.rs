use json_parser::node::LeptValue;
use json_parser::parser::{is_digit_19, LeptParser, ParseStatus};

fn read(json: &str) -> (ParseStatus, LeptValue) {
    let mut node = LeptValue::new_bool(true);
    let status = LeptParser::parse(&mut node, json);
    (status, node)
}

fn text(s: &str) -> LeptValue {
    LeptValue::new_string(s.to_string())
}

fn number(s: &str) -> LeptValue {
    LeptValue::new_number(s.to_string())
}

#[test]
fn blank_texts_expect_a_value() {
    for json in ["", " ", "\t\n\r ", "\x0B\x0C", "  \n\n  "] {
        assert_eq!(read(json), (ParseStatus::ExpectValue, LeptValue::Null));
    }
}

#[test]
fn surrounding_whitespace_is_skipped() {
    assert_eq!(read(" \t\r\n null \n"), (ParseStatus::Success, LeptValue::Null));
    assert_eq!(read("\x0Btrue\x0C"), (ParseStatus::Success, LeptValue::True));
}

#[test]
fn plain_strings_read_as_themselves() {
    assert_eq!(read("\"Hello World!\""), (ParseStatus::Success, text("Hello World!")));
    assert_eq!(read("\" ~'{}[]:,\""), (ParseStatus::Success, text(" ~'{}[]:,")));
}

#[test]
fn numbers_keep_their_text() {
    for json in ["0", "-0", "-1.5e+3", "12.000", "1E-07", "9007199254740993"] {
        let (status, node) = read(json);
        assert_eq!(status, ParseStatus::Success);
        assert_eq!(node.get_number(), json);
    }
    let (status, node) = read("  1e400 ");
    assert_eq!(status, ParseStatus::Success);
    assert_eq!(node.get_number(), "1e400");
}

#[test]
fn number_errors() {
    for json in ["-", "01x", "1e", "1e+", "1.e5", "-a", "--1", "1.5E"] {
        let (status, node) = read(json);
        assert!(status == ParseStatus::InvalidValue || status == ParseStatus::RootNotSingular);
        assert_eq!(node, LeptValue::Null);
    }
    assert_eq!(read("-").0, ParseStatus::InvalidValue);
    assert_eq!(read("1e").0, ParseStatus::InvalidValue);
    assert_eq!(read("01x").0, ParseStatus::RootNotSingular);
}

#[test]
fn one_letter_escapes() {
    assert_eq!(
        read("\"\\\"\\\\\\/\\b\\f\\n\\r\\t\""),
        (ParseStatus::Success, text("\"\\/\x08\x0c\n\r\t"))
    );
}

#[test]
fn unicode_escapes_give_any_character() {
    assert_eq!(read("\"\\u00A2\""), (ParseStatus::Success, text("\u{a2}")));
    assert_eq!(read("\"\\u20AC\""), (ParseStatus::Success, text("\u{20ac}")));
    assert_eq!(read("\"\\u4e2d\\u6587\""), (ParseStatus::Success, text("\u{4e2d}\u{6587}")));
    assert_eq!(read("\"a\\u0041b\""), (ParseStatus::Success, text("aAb")));
}

#[test]
fn characters_outside_ascii_are_read_as_characters() {
    assert_eq!(read("\"\u{e9}\u{4e2d}\""), (ParseStatus::Success, text("\u{e9}\u{4e2d}")));
    assert_eq!(read("\"\u{1D11E}!\""), (ParseStatus::Success, text("\u{1D11E}!")));
    assert_eq!(read("\u{a0}1"), (ParseStatus::Success, number("1")));
    assert_eq!(read("null\u{3000}"), (ParseStatus::Success, LeptValue::Null));
    assert_eq!(
        read("[1,\u{2028}2]"),
        (ParseStatus::Success, LeptValue::new_array(vec![number("1"), number("2")]))
    );
    assert_eq!(read("[1 \u{4e2d}]"), (ParseStatus::MissCommaOrSquareBracket, LeptValue::Null));
    assert_eq!(read("\u{4e2d}"), (ParseStatus::InvalidValue, LeptValue::Null));
    assert_eq!(read("\"\\\u{e9}\""), (ParseStatus::InvalidStringEscape, LeptValue::Null));
    assert_eq!(read("null \u{4e2d}"), (ParseStatus::RootNotSingular, LeptValue::Null));
}

#[test]
fn surrogate_pairs_read_as_one_character() {
    assert_eq!(read("\"\\uD834\\uDD1E\""), (ParseStatus::Success, text("\u{1D11E}")));
    assert_eq!(read("\"\\ud834\\udd1e\""), (ParseStatus::Success, text("\u{1D11E}")));
    assert_eq!(read("\"\\uD800\\uDC00\""), (ParseStatus::Success, text("\u{10000}")));
    assert_eq!(read("\"\\uDBFF\\uDFFF\""), (ParseStatus::Success, text("\u{10FFFF}")));
    assert_eq!(
        read("\"a\\uD83D\\uDE00b\""),
        (ParseStatus::Success, text("a\u{1F600}b"))
    );
}

#[test]
fn unpaired_surrogates() {
    for json in [
        "\"\\uD800\"",
        "\"\\uDC00\"",
        "\"\\udfff\"",
        "\"\\uD800\\u0041\"",
        "\"\\uD800x\"",
        "\"\\uD800\\n\"",
        "\"\\uDBFF\\uDBFF\"",
        "\"\\uD800",
        "\"\\uD800\\",
    ] {
        assert_eq!(read(json), (ParseStatus::InvalidUnicodeSurrogate, LeptValue::Null), "{}", json);
    }
}

#[test]
fn a_bad_second_half_of_a_pair() {
    assert_eq!(read("\"\\uD800\\u12\""), (ParseStatus::InvalidUnicodeHex, LeptValue::Null));
    assert_eq!(read("\"\\uD800\\uzzzz\""), (ParseStatus::InvalidUnicodeHex, LeptValue::Null));
}

#[test]
fn a_cloned_value_equals_its_source() {
    let (status, node) = read("{\"a\": [1, \"x\", {\"b\": null}], \"c\": true}");
    assert_eq!(status, ParseStatus::Success);
    let copy = node.clone();
    assert_eq!(copy, node);
}

#[test]
fn an_element_is_required_after_a_comma() {
    assert_eq!(read("[1,"), (ParseStatus::ExpectValue, LeptValue::Null));
    assert_eq!(read("[1, "), (ParseStatus::ExpectValue, LeptValue::Null));
    assert_eq!(read("{\"a\":"), (ParseStatus::ExpectValue, LeptValue::Null));
}

#[test]
fn a_later_member_replaces_an_earlier_one() {
    let (status, node) = read("{ \"a\" : 1, \"b\" : 2, \"a\" : [ true ] }");
    assert_eq!(status, ParseStatus::Success);
    let members = node.get_object();
    assert_eq!(members.len(), 2);
    for (key, value) in members {
        if key == "a" {
            assert_eq!(*value, LeptValue::new_array(vec![LeptValue::True]));
        } else {
            assert_eq!(key, "b");
            assert_eq!(*value, number("2"));
        }
    }
}

#[test]
fn nested_values() {
    let (status, node) = read("{\"x\": [[], {\"y\": null}], \"z\": \"w\"}");
    assert_eq!(status, ParseStatus::Success);
    let members = node.get_object();
    assert_eq!(members.len(), 2);
    let x = &members.iter().find(|(k, _)| k == "x").unwrap().1;
    let items = x.get_array();
    assert_eq!(items[0], LeptValue::new_array(vec![]));
    assert_eq!(
        items[1],
        LeptValue::new_object(vec![("y".to_string(), LeptValue::Null)])
    );
}

#[test]
fn object_errors() {
    assert_eq!(read("{"), (ParseStatus::MissCommaOrCurlyBracket, LeptValue::Null));
    assert_eq!(read("{\"a\":1 \"b\":2}"), (ParseStatus::MissCommaOrCurlyBracket, LeptValue::Null));
    assert_eq!(read("{\"a\":1,}"), (ParseStatus::MissKey, LeptValue::Null));
    assert_eq!(read("{\"a\" 1}"), (ParseStatus::MissColon, LeptValue::Null));
    assert_eq!(read("{\"a\x01\":1}"), (ParseStatus::InvalidStringChar, LeptValue::Null));
    assert_eq!(read("{\"a"), (ParseStatus::MissingQuotationMark, LeptValue::Null));
}

#[test]
fn escapes_outside_the_surrogate_range() {
    assert_eq!(read("\"\\u12\""), (ParseStatus::InvalidUnicodeHex, LeptValue::Null));
    assert_eq!(read("\"\\uzzzz\""), (ParseStatus::InvalidUnicodeHex, LeptValue::Null));
    assert_eq!(read("\"\\u0000\""), (ParseStatus::Success, text("\u{0}")));
    assert_eq!(read("\"\\uFFFF\""), (ParseStatus::Success, text("\u{FFFF}")));
    assert_eq!(read("\"\\uD7FF\\uE000\""), (ParseStatus::Success, text("\u{D7FF}\u{E000}")));
}

#[test]
fn a_prior_node_does_not_count() {
    let mut node = LeptValue::new_array(vec![LeptValue::True]);
    assert_eq!(LeptParser::parse(&mut node, "false"), ParseStatus::Success);
    assert_eq!(node, LeptValue::False);
    assert_eq!(LeptParser::parse(&mut node, "[x"), ParseStatus::InvalidValue);
    assert_eq!(node, LeptValue::Null);
}

#[test]
fn node_constructors_and_getters() {
    assert!(LeptValue::new_bool(true).get_bool());
    assert!(!LeptValue::new_bool(false).get_bool());
    assert_eq!(LeptValue::new_bool(true), LeptValue::True);
    assert_eq!(number("2.5").get_number(), "2.5");
    assert_eq!(text("abc").get_string(), "abc");
    assert_eq!(LeptValue::new_array(vec![LeptValue::Null]).get_array(), &vec![LeptValue::Null]);
    let members = vec![("k".to_string(), LeptValue::True)];
    assert_eq!(LeptValue::new_object(members).get_object()[0].0, "k");
    assert_eq!(LeptValue::default(), LeptValue::Null);
}

#[test]
fn node_setters() {
    let mut node = LeptValue::Null;
    node.set(LeptValue::True);
    assert_eq!(node, LeptValue::True);
    node.set_array(vec![LeptValue::False]);
    assert_eq!(node, LeptValue::Array(vec![LeptValue::False]));
    node.set_object(vec![("a".to_string(), LeptValue::Null)]);
    assert_eq!(node, LeptValue::Object(vec![("a".to_string(), LeptValue::Null)]));
}

#[test]
fn digits_from_one_to_nine() {
    for c in '1'..='9' {
        assert!(is_digit_19(c));
    }
    for c in ['0', 'a', ' ', '-', '\u{661}'] {
        assert!(!is_digit_19(c));
    }
}

#[test]
fn written_text() {
    let node = LeptValue::new_array(vec![
        LeptValue::Null,
        LeptValue::True,
        LeptValue::False,
        number("-1.5e3"),
        text("a b"),
        LeptValue::new_array(vec![]),
        LeptValue::new_object(vec![
            ("k".to_string(), number("1")),
            ("l".to_string(), LeptValue::new_object(vec![])),
        ]),
    ]);
    assert_eq!(
        node.to_json_string(),
        "[null, true, false, -1.5e3, \"a b\", [], {\"k\": 1, \"l\": {}}]"
    );
    assert_eq!(LeptValue::Null.to_json_string(), "null");
    assert_eq!(text("").to_json_string(), "\"\"");
}

#[test]
fn written_text_reads_back() {
    for json in [
        "null",
        " [ 1 , \"x\" , { \"a\" : [ true , false ] , \"b\" : -0.5E-3 } ] ",
        "{}",
        "[[], [[]], {\"\": \"\"}]",
        "\"plain text\"",
        "[\"caf\u{e9}\", {\"\u{4e2d}\u{6587}\": \"\u{1F600}\"}]",
        "\"\\uD834\\uDD1E\"",
    ] {
        let (status, node) = read(json);
        assert_eq!(status, ParseStatus::Success);
        let written = node.to_json_string();
        let (status2, node2) = read(&written);
        assert_eq!(status2, ParseStatus::Success);
        assert_eq!(node2, node);
        assert_eq!(node2.to_json_string(), written);
    }
}

#[test]
fn strings_are_written_without_escapes() {
    assert_eq!(text("a\"b").to_json_string(), "\"a\"b\"");
    let (status, _) = read(&text("a\"b").to_json_string());
    assert_eq!(status, ParseStatus::RootNotSingular);
}

#[test]
fn whitespace_before_a_text_changes_nothing() {
    for json in ["null", "[1, 2", "{\"a\" 1}", "\"abc", "tru", "1.", "[]x", "\"\\uD800\""] {
        let plain = read(json);
        for prefix in [" ", "\t\n", "\u{a0}\u{3000} "] {
            assert_eq!(read(&format!("{}{}", prefix, json)), plain, "{:?}", json);
        }
    }
}

#[test]
fn whitespace_after_a_text_changes_nothing_but_an_open_string() {
    for json in ["null", "[1, 2", "{\"a\" 1}", "tru", "1.", "[]x", "-0.5E+2", "\"\\u12", "[1,", "\"\\"] {
        let plain = read(json);
        for suffix in [" ", "\t\n", "\u{2028} \r"] {
            assert_eq!(read(&format!("{}{}", json, suffix)), plain, "{:?}", json);
        }
    }
    assert_eq!(read("\"abc"), (ParseStatus::MissingQuotationMark, LeptValue::Null));
    assert_eq!(read("\"abc \u{3000}"), (ParseStatus::MissingQuotationMark, LeptValue::Null));
    assert_eq!(read("\"abc\n"), (ParseStatus::InvalidStringChar, LeptValue::Null));
}

#[test]
fn a_minus_sign_before_a_number() {
    for json in ["0", "12", "1.5", "3e-7", "0.25E+10"] {
        let signed = format!("-{}", json);
        assert_eq!(read(&signed), (ParseStatus::Success, number(&signed)));
    }
    assert_eq!(read("--1"), (ParseStatus::InvalidValue, LeptValue::Null));
}

#[test]
fn members_in_any_order_read_alike() {
    let (status1, a) = read("{\"b\": 1, \"a\": [true], \"ab\": null}");
    let (status2, b) = read("{\"ab\": null, \"a\": [true], \"b\": 1}");
    assert_eq!(status1, ParseStatus::Success);
    assert_eq!(status2, ParseStatus::Success);
    assert_eq!(a, b);
    assert_eq!(a.to_json_string(), "{\"a\": [true], \"ab\": null, \"b\": 1}");
    let keys: Vec<&str> = a.get_object().iter().map(|(k, _)| k.as_str()).collect();
    assert_eq!(keys, vec!["a", "ab", "b"]);
    let (_, c) = read("{\"a\": [true], \"b\": 2, \"ab\": null}");
    assert_ne!(a, c);
}
