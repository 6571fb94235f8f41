//! The pieces of reading back what was written: which nodes have a text
//! that reads back, and how a number or a string reads where its text
//! stands in a longer one.
use vstd::prelude::*;
use crate::grammar::{
    digits_end, exp_part_end, frac_part_end, int_part_end, number_end, scan_string_body,
    sign_end, skip_whitespace, str_done,
};
use crate::node::LeptValue;
use crate::parser::ParseStatus;
use crate::text::spec_is_ascii_digit;

verus! {

/// A character that a string may hold as itself: no control character
/// (below U+0020), neither a quotation mark nor a backslash.
pub open spec fn is_plain_char(c: char) -> bool {
    &&& 0x20 <= (c as u32)
    &&& c != '"'
    &&& c != '\\'
}

pub open spec fn is_plain_text(t: Seq<char>) -> bool {
    forall|i: int| 0 <= i < t.len() ==> is_plain_char(#[trigger] t[i])
}

/// A text that is one number and nothing else.
pub open spec fn is_number_text(t: Seq<char>) -> bool {
    number_end(t, 0) == Some(t.len() as int)
}

/// A node whose text reads back as itself: every number holds a number
/// text, and every string and key holds plain characters only.
pub open spec fn printable(v: LeptValue) -> bool
    decreases v, 0int,
{
    match v {
        LeptValue::Number(t) => is_number_text(t@),
        LeptValue::String(t) => is_plain_text(t@),
        LeptValue::Array(items) => items_printable(items@, 0),
        LeptValue::Object(entries) => entries_printable(entries@, 0),
        _ => true,
    }
}

pub open spec fn items_printable(items: Seq<LeptValue>, k: int) -> bool
    decreases items, items.len() - k,
{
    if k < 0 || k >= items.len() {
        true
    } else {
        printable(items[k]) && items_printable(items, k + 1)
    }
}

pub open spec fn entries_printable(entries: Seq<(String, LeptValue)>, k: int) -> bool
    decreases entries, entries.len() - k,
{
    if k < 0 || k >= entries.len() {
        true
    } else {
        is_plain_text(entries[k].0@) && printable(entries[k].1) && entries_printable(
            entries,
            k + 1,
        )
    }
}

/// A character that may start the text of a value.
pub open spec fn starts_value(c: char) -> bool {
    c == 'n' || c == 't' || c == 'f' || c == '"' || c == '[' || c == '{' || c == '-' || ('0'
        <= c <= '9')
}

/// A place where a value's text may end: the end of the text, or a comma
/// or a closing bracket or brace.
pub open spec fn closes(s: Seq<char>, i: int) -> bool {
    i == s.len() || (0 <= i < s.len() && (s[i] == ',' || s[i] == ']' || s[i] == '}'))
}

/// `t` stands in `s` at `p`.
pub open spec fn stands_at(s: Seq<char>, p: int, t: Seq<char>) -> bool {
    0 <= p && p + t.len() <= s.len() && s.subrange(p, p + t.len()) == t
}

pub proof fn lemma_number_text_start(t: Seq<char>)
    requires
        is_number_text(t),
    ensures
        t.len() > 0,
        t[0] == '-' || ('0' <= t[0] <= '9'),
{
}

/// Two stretches of text that stand next to each other.
pub proof fn lemma_stands_split(s: Seq<char>, p: int, x: Seq<char>, y: Seq<char>)
    requires
        stands_at(s, p, x + y),
    ensures
        stands_at(s, p, x),
        stands_at(s, p + x.len(), y),
{
    assert(s.subrange(p, p + x.len()) =~= (x + y).subrange(0, x.len() as int));
    assert((x + y).subrange(0, x.len() as int) =~= x);
    assert((x + y).subrange(x.len() as int, (x.len() + y.len()) as int) =~= y);
    assert(s.subrange(p + x.len(), p + x.len() + y.len()) =~= (x + y).subrange(
        x.len() as int,
        (x.len() + y.len()) as int,
    ));
}

/// A run of digits within a number text ends at the same place where the
/// text stands in a longer one that closes after it.
proof fn lemma_digits_in_context(t: Seq<char>, s: Seq<char>, p: int, i: int)
    requires
        stands_at(s, p, t),
        closes(s, p + t.len()),
        0 <= i <= t.len(),
    ensures
        digits_end(s, p + i) == p + digits_end(t, i),
    decreases t.len() - i,
{
    if i < t.len() {
        assert(s[p + i] == t[i]) by {
            assert(s.subrange(p, p + t.len())[i] == s[p + i]);
        }
        if spec_is_ascii_digit(t[i]) {
            lemma_digits_in_context(t, s, p, i + 1);
        }
    }
}

/// A number text reads as the same number where it stands in a longer text
/// that closes after it.
pub proof fn lemma_number_in_context(t: Seq<char>, s: Seq<char>, p: int)
    requires
        is_number_text(t),
        stands_at(s, p, t),
        closes(s, p + t.len()),
    ensures
        number_end(s, p) == Some(p + t.len()),
{
    let n = t.len() as int;
    assert forall|i: int| 0 <= i < n implies #[trigger] s[p + i] == t[i] by {
        assert(s.subrange(p, p + n)[i] == s[p + i]);
    }
    let a = sign_end(t, 0);
    assert(sign_end(s, p) == p + a);
    if 0 <= a < n && '1' <= t[a] <= '9' {
        lemma_digits_in_context(t, s, p, a);
    }
    let b = int_part_end(t, a).unwrap();
    assert(int_part_end(s, p + a) == Some(p + b));
    if 0 <= b < n && t[b] == '.' && b + 1 < n {
        lemma_digits_in_context(t, s, p, b + 1);
    }
    let c = frac_part_end(t, b).unwrap();
    assert(frac_part_end(s, p + b) == Some(p + c));
    if 0 <= c < n && (t[c] == 'e' || t[c] == 'E') {
        let d = if c + 1 < n && (t[c + 1] == '+' || t[c + 1] == '-') {
            c + 2
        } else {
            c + 1
        };
        if d < n {
            lemma_digits_in_context(t, s, p, d);
        }
    }
    assert(exp_part_end(s, p + c) == Some(p + n));
}

/// Plain characters between quotation marks, where they stand in a text,
/// read as a string of exactly those characters.
pub proof fn lemma_plain_string_in_context(t: Seq<char>, s: Seq<char>, p: int, i: int)
    requires
        is_plain_text(t),
        stands_at(s, p, seq!['"'] + t + seq!['"']),
        0 <= i <= t.len(),
    ensures
        scan_string_body(s, p + 1 + i, t.take(i)) == str_done(
            ParseStatus::Success,
            t,
            p + t.len() + 2,
        ),
    decreases t.len() - i,
{
    let w = seq!['"'] + t + seq!['"'];
    assert(s[p + 1 + i] == w[1 + i]) by {
        assert(s.subrange(p, p + w.len())[1 + i] == s[p + 1 + i]);
    }
    if i < t.len() {
        let c = t[i];
        assert(w[1 + i] == c);
        assert(is_plain_char(c));
        assert(t.take(i).push(c) =~= t.take(i + 1));
        lemma_plain_string_in_context(t, s, p, i + 1);
    } else {
        assert(w[1 + i] == '"');
        assert(t.take(i) =~= t);
    }
}

/// The place after whitespace that is followed by a character that starts
/// a value, or a comma, colon, or closing bracket or brace.
pub proof fn lemma_no_whitespace_at(s: Seq<char>, i: int)
    requires
        0 <= i < s.len(),
        starts_value(s[i]) || s[i] == ',' || s[i] == ':' || s[i] == ']' || s[i] == '}',
    ensures
        skip_whitespace(s, i) == i,
{
}

} // verus!
