//! What holds of every reading, beyond single examples.
use vstd::prelude::*;
use crate::grammar::{
    lemma_number_end, lemma_scan_value_fits, lemma_skip_whitespace_range, number_end,
    scan_document, scan_fits, scan_value, sign_end, skip_whitespace, ValueScan,
};
use crate::prefix::{lemma_number_shift, lemma_skip_shift, lemma_value_shift, shifted};
use crate::print::render;
use crate::suffix::{lemma_skip_ext, lemma_value_ext};
use crate::locality::{lemma_skip_local, lemma_value_local};
use crate::roundtrip::printable;
use crate::layout::{law_any_layout_reads_back, lemma_render_one_space};
use crate::node::{well_formed, JsonValue, LeptValue};
use crate::parser::{parse_outcome, ParseStatus};
use crate::text::spec_is_whitespace;

verus! {

/// A document that is read without error is read to its last character,
/// and a document that fails never reports success.
pub proof fn law_document_outcome(s: Seq<char>)
    ensures
        scan_document(s) matches ValueScan::Parsed(_, r) ==> r == s.len(),
        scan_document(s) matches ValueScan::Failed(st) ==> st != ParseStatus::Success,
{
    lemma_skip_whitespace_range(s, 0);
    let p = skip_whitespace(s, 0);
    lemma_scan_value_fits(s, p);
    assert(scan_fits(scan_value(s, p), p, s.len() as int));
    if let ValueScan::Parsed(v, q) = scan_value(s, p) {
        lemma_skip_whitespace_range(s, q);
    }
}

/// What `LeptParser::parse` reports, it reports of the text alone: a
/// reading that fails leaves the node `Null`, and one that succeeds leaves
/// a well-formed node holding the text's value.
pub proof fn law_failed_reading_leaves_null(s: Seq<char>, status: ParseStatus, node: LeptValue)
    requires
        parse_outcome(scan_document(s), status, node),
    ensures
        status != ParseStatus::Success ==> node == LeptValue::Null,
        status == ParseStatus::Success ==> scan_document(s) == ValueScan::Parsed(
            node@,
            s.len() as int,
        ) && well_formed(node),
{
    law_document_outcome(s);
}

/// Two readings of the same text, into nodes that held anything before,
/// report the same status and leave nodes with the same value: a second
/// reading repeats the first.
pub proof fn law_reading_is_determined(
    s: Seq<char>,
    status1: ParseStatus,
    node1: LeptValue,
    status2: ParseStatus,
    node2: LeptValue,
)
    requires
        parse_outcome(scan_document(s), status1, node1),
        parse_outcome(scan_document(s), status2, node2),
    ensures
        status1 == status2,
        node1@ == node2@,
{
}

/// Whitespace characters only, or nothing at all: no value, and the
/// reading asks for one.
pub proof fn law_blank_text_expects_value(s: Seq<char>)
    requires
        forall|i: int| 0 <= i < s.len() ==> spec_is_whitespace(#[trigger] s[i]),
    ensures
        scan_document(s) == ValueScan::Failed(ParseStatus::ExpectValue),
{
    lemma_skip_over(s, 0, s.len() as int);
}

/// A run of whitespace from `a` to `b` is stepped over alike from either
/// end.
proof fn lemma_skip_over(s: Seq<char>, a: int, b: int)
    requires
        0 <= a <= b <= s.len(),
        forall|i: int| a <= i < b ==> spec_is_whitespace(#[trigger] s[i]),
    ensures
        skip_whitespace(s, a) == skip_whitespace(s, b),
    decreases b - a,
{
    if a < b {
        assert(spec_is_whitespace(s[a]));
        lemma_skip_over(s, a + 1, b);
    }
}

/// Where whitespace runs to the end of the text, all that follows is
/// whitespace.
proof fn lemma_blank_tail(s: Seq<char>, q: int)
    requires
        0 <= q <= s.len(),
        skip_whitespace(s, q) == s.len(),
    ensures
        forall|i: int| q <= i < s.len() ==> spec_is_whitespace(#[trigger] s[i]),
    decreases s.len() - q,
{
    if q < s.len() {
        lemma_blank_tail(s, q + 1);
    }
}

/// A document holds exactly one value: put anything but whitespace after a
/// document that reads as a value, with or without whitespace between,
/// whatever the kind of the value and whatever follows, and the text is
/// refused as holding more than one value.  Only after a number must some
/// whitespace come between, since a digit, a point or an exponent would
/// prolong the number.
pub proof fn law_nothing_may_follow_the_value(s: Seq<char>, w: Seq<char>, c: char, rest: Seq<char>)
    requires
        scan_document(s) is Parsed,
        forall|i: int| 0 <= i < w.len() ==> spec_is_whitespace(#[trigger] w[i]),
        !spec_is_whitespace(c),
        w.len() > 0 || !(scan_document(s)->Parsed_0 is Number),
    ensures
        scan_document(s + w + seq![c] + rest) == ValueScan::Failed(ParseStatus::RootNotSingular),
{
    let t = s + w + seq![c] + rest;
    let n = s.len() as int;
    let m = n + w.len();
    law_document_outcome(s);
    lemma_skip_whitespace_range(s, 0);
    let p0 = skip_whitespace(s, 0);
    lemma_scan_value_fits(s, p0);
    let q = scan_value(s, p0)->Parsed_1;
    assert forall|i: int| 0 <= i < n implies t[i + 0] == #[trigger] s[i] by {}
    assert(t[m] == c);
    lemma_skip_local(s, t, 0, 0);
    if q == n && w.len() > 0 {
        assert(t[q] == w[0]);
    }
    lemma_value_local(s, t, 0, p0);
    lemma_skip_whitespace_range(s, q);
    lemma_blank_tail(s, q);
    assert forall|i: int| q <= i < m implies spec_is_whitespace(#[trigger] t[i]) by {
        if i < n {
            assert(t[i] == s[i]);
        } else {
            assert(t[i] == w[i - n]);
        }
    }
    lemma_skip_over(t, q, m);
}

/// Whitespace put before a document changes nothing: the document reads
/// as it did, as the same value, read to its end, or with the same error.
pub proof fn law_leading_whitespace(w: Seq<char>, s: Seq<char>)
    requires
        forall|i: int| 0 <= i < w.len() ==> spec_is_whitespace(#[trigger] w[i]),
    ensures
        scan_document(w + s) == shifted(scan_document(s), w.len() as int),
{
    let t = w + s;
    let k = w.len() as int;
    assert forall|i: int| 0 <= i < s.len() implies t[i + k] == #[trigger] s[i] by {}
    assert forall|i: int| 0 <= i < k implies spec_is_whitespace(#[trigger] t[i]) by {
        assert(t[i] == w[i]);
    }
    lemma_skip_over(t, 0, k);
    lemma_skip_shift(s, t, k, 0);
    lemma_skip_whitespace_range(s, 0);
    let p0 = skip_whitespace(s, 0);
    lemma_value_shift(s, t, k, p0);
    if let ValueScan::Parsed(v, q) = scan_value(s, p0) {
        lemma_scan_value_fits(s, p0);
        lemma_skip_shift(s, t, k, q);
    }
}

/// Whitespace put after a document changes nothing: the document reads as
/// it did, as the same value, now read to the new end, or with the same
/// error.  This holds of every document but one that ends inside a string
/// (it lacks its closing quotation mark), where the whitespace holds a
/// control character: the string then reads on to that character.
pub proof fn law_trailing_whitespace(s: Seq<char>, w: Seq<char>)
    requires
        forall|i: int| 0 <= i < w.len() ==> spec_is_whitespace(#[trigger] w[i]),
        !(scan_document(s) == ValueScan::Failed(ParseStatus::MissingQuotationMark) && exists|i: int|
            0 <= i < w.len() && (#[trigger] w[i] as u32) < 0x20),
    ensures
        scan_document(s + w) == (match scan_document(s) {
            ValueScan::Parsed(v, _) => ValueScan::Parsed(v, (s + w).len() as int),
            other => other,
        }),
{
    let t = s + w;
    let n = s.len() as int;
    assert forall|i: int| 0 <= i < n implies t[i] == #[trigger] s[i] by {}
    assert forall|i: int| n <= i < t.len() implies spec_is_whitespace(#[trigger] t[i]) by {
        assert(t[i] == w[i - n]);
    }
    if scan_document(s) == ValueScan::Failed(ParseStatus::MissingQuotationMark) {
        assert forall|i: int| n <= i < t.len() implies (#[trigger] t[i] as u32) >= 0x20 by {
            assert(t[i] == w[i - n]);
            if (w[i - n] as u32) < 0x20 {
                assert(exists|j: int| 0 <= j < w.len() && (#[trigger] w[j] as u32) < 0x20);
            }
        }
    }
    lemma_skip_whitespace_range(s, 0);
    lemma_skip_ext(s, t, 0);
    let p0 = skip_whitespace(s, 0);
    if p0 < n {
        lemma_value_ext(s, t, p0);
        if let ValueScan::Parsed(v, q) = scan_value(s, p0) {
            lemma_scan_value_fits(s, p0);
            lemma_skip_ext(s, t, q);
            lemma_skip_whitespace_range(s, q);
        }
    } else {
        assert(scan_value(t, t.len() as int) == ValueScan::Failed(ParseStatus::ExpectValue));
    }
}

/// Whitespace put before and after a document changes nothing: the
/// document reads as it did, as the same value, now read to the new end, or
/// with the same error; but for a document that ends inside a string, where
/// the whitespace after it holds a control character.
pub proof fn law_whitespace_around(w1: Seq<char>, s: Seq<char>, w2: Seq<char>)
    requires
        forall|i: int| 0 <= i < w1.len() ==> spec_is_whitespace(#[trigger] w1[i]),
        forall|i: int| 0 <= i < w2.len() ==> spec_is_whitespace(#[trigger] w2[i]),
        !(scan_document(s) == ValueScan::Failed(ParseStatus::MissingQuotationMark) && exists|i: int|
            0 <= i < w2.len() && (#[trigger] w2[i] as u32) < 0x20),
    ensures
        scan_document(w1 + s + w2) == (match scan_document(s) {
            ValueScan::Parsed(v, _) => ValueScan::Parsed(v, (w1 + s + w2).len() as int),
            other => other,
        }),
{
    law_leading_whitespace(w1, s);
    law_trailing_whitespace(w1 + s, w2);
}

/// A number text that does not start with a minus sign reads, with a
/// minus sign put before it, as the number whose text is the signed text.
pub proof fn law_minus_sign(s: Seq<char>)
    requires
        number_end(s, 0) == Some(s.len() as int),
        s[0] != '-',
    ensures
        scan_document(seq!['-'] + s) == ValueScan::Parsed(
            JsonValue::Number(seq!['-'] + s),
            s.len() + 1int,
        ),
{
    let t = seq!['-'] + s;
    lemma_number_end(s, 0);
    assert forall|i: int| 0 <= i < s.len() implies t[i + 1] == #[trigger] s[i] by {}
    lemma_number_shift(s, t, 1, 0);
    assert(t[1] == s[0]);
    assert(sign_end(t, 0) == 1);
    assert(sign_end(t, 1) == 1);
    assert(number_end(t, 0) == number_end(t, 1));
    law_number_keeps_text(t);
}

/// The whitespace of JSON, space, tab, line feed and carriage return, is
/// stepped over, and so is nothing that starts a value or closes one.
pub proof fn law_json_whitespace(c: char)
    ensures
        (c == ' ' || c == '\t' || c == '\n' || c == '\r') ==> skip_whitespace(seq![c], 0) == 1,
        (c == '"' || c == '[' || c == '{' || c == ']' || c == '}' || c == ',' || c == ':'
            || c == '-' || ('0' <= c <= '9') || ('a' <= c <= 'z')) ==> skip_whitespace(
            seq![c],
            0,
        ) == 0,
{
    assert(skip_whitespace(seq![c], 1) == 1);
}

/// Stepping over whitespace a second time does not move.
pub proof fn law_whitespace_skip_settles(s: Seq<char>, p: int)
    ensures
        skip_whitespace(s, skip_whitespace(s, p)) == skip_whitespace(s, p),
{
    lemma_skip_whitespace_range(s, p);
}

/// What the library writes, it reads back: the text of a node whose
/// numbers hold number texts and whose strings and keys hold plain
/// characters reads, as a whole document, as the node's value.
pub proof fn law_written_text_reads_back(v: LeptValue)
    requires
        printable(v),
    ensures
        scan_document(render(v)) == ValueScan::Parsed(v@, render(v).len() as int),
{
    lemma_render_one_space(v);
    assert forall|i: int| 0 <= i < 1 implies spec_is_whitespace(#[trigger] seq![' '][i]) by {}
    law_any_layout_reads_back(v, seq![' ']);
}

/// The text of a number, alone, reads as a number that keeps that text.
pub proof fn law_number_keeps_text(s: Seq<char>)
    requires
        number_end(s, 0) == Some(s.len() as int),
    ensures
        scan_document(s) == ValueScan::Parsed(JsonValue::Number(s), s.len() as int),
{
    assert(s.len() > 0);
    assert(s[0] == '-' || ('0' <= s[0] <= '9'));
    assert(skip_whitespace(s, 0) == 0);
    assert(s.subrange(0, s.len() as int) =~= s);
}

/// Each getter of a node gives back what the matching constructor was
/// given.
pub proof fn law_constructors_and_getters(b: bool, t: String, items: Vec<LeptValue>, entries: Vec<(String, LeptValue)>)
    ensures
        ((if b {
            LeptValue::True
        } else {
            LeptValue::False
        }) is True) == b,
        LeptValue::Number(t)->Number_0@ == t@,
        LeptValue::String(t)->String_0@ == t@,
        LeptValue::Array(items)->Array_0 == items,
        LeptValue::Object(entries)->Object_0 == entries,
{
}

} // verus!
