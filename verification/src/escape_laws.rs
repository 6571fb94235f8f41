//! What a `\u` escape reads as, stated by the digits of the escape.
use vstd::prelude::*;
use crate::grammar::{scan_document, scan_hex, scan_string_body, skip_whitespace, ValueScan};
use crate::node::JsonValue;
use crate::parser::ParseStatus;
use crate::roundtrip::{is_plain_char, is_plain_text};

verus! {

/// A hexadecimal digit, of either case.
pub open spec fn is_hex_char(c: char) -> bool {
    ||| '0' <= c <= '9'
    ||| 'a' <= c <= 'f'
    ||| 'A' <= c <= 'F'
}

/// The value of a hexadecimal digit: `0`–`9`, then `a`–`f` or `A`–`F` for
/// ten to fifteen.
pub open spec fn hex_char_value(c: char) -> int {
    if '0' <= c <= '9' {
        c as int - '0' as int
    } else if 'a' <= c <= 'f' {
        c as int - 'a' as int + 10
    } else {
        c as int - 'A' as int + 10
    }
}

/// Four hexadecimal digits.
pub open spec fn is_hex4(h: Seq<char>) -> bool {
    h.len() == 4 && forall|i: int| 0 <= i < 4 ==> is_hex_char(#[trigger] h[i])
}

/// The number that four hexadecimal digits spell, the first digit the
/// highest.
pub open spec fn hex4_value(h: Seq<char>) -> int {
    hex_char_value(h[0]) * 4096 + hex_char_value(h[1]) * 256 + hex_char_value(h[2]) * 16
        + hex_char_value(h[3])
}

/// The text of a string that holds one `\u` escape with the digits `h`.
pub open spec fn one_escape(h: Seq<char>) -> Seq<char> {
    seq!['"', '\\', 'u'] + h + seq!['"']
}

/// The text of a string that holds two `\u` escapes, with the digits `h`
/// and then `l`.
pub open spec fn two_escapes(h: Seq<char>, l: Seq<char>) -> Seq<char> {
    seq!['"', '\\', 'u'] + h + seq!['\\', 'u'] + l + seq!['"']
}

proof fn lemma_hex4(s: Seq<char>, p: int, h: Seq<char>)
    requires
        is_hex4(h),
        0 <= p,
        p + 4 <= s.len(),
        forall|i: int| 0 <= i < 4 ==> s[p + i] == #[trigger] h[i],
    ensures
        scan_hex(s, p, 0, 0) == crate::grammar::HexScan::Code(hex4_value(h) as nat),
{
    assert(is_hex_char(h[0]) && is_hex_char(h[1]) && is_hex_char(h[2]) && is_hex_char(h[3]));
    assert(s[p] == h[0] && s[p + 1] == h[1] && s[p + 2] == h[2] && s[p + 3] == h[3]);
    reveal_with_fuel(scan_hex, 5);
}

/// A `\u` escape whose four digits, of either case, spell a code outside
/// the surrogate range reads as the character with that code.
pub proof fn law_escape_reads_as_its_code(h: Seq<char>)
    requires
        is_hex4(h),
        !(0xD800 <= hex4_value(h) <= 0xDFFF),
    ensures
        scan_document(one_escape(h)) == ValueScan::Parsed(
            JsonValue::String(seq![hex4_value(h) as char]),
            8,
        ),
{
    let s = one_escape(h);
    assert(s.len() == 8);
    assert forall|i: int| 0 <= i < 4 implies s[3 + i] == #[trigger] h[i] by {}
    lemma_hex4(s, 3, h);
    assert(s[0] == '"' && s[1] == '\\' && s[2] == 'u' && s[7] == '"');
    assert(skip_whitespace(s, 0) == 0);
    assert(scan_string_body(s, 7, Seq::empty().push(hex4_value(h) as nat as char)).status
        == ParseStatus::Success);
    assert(seq![hex4_value(h) as char] =~= Seq::empty().push(hex4_value(h) as nat as char));
    assert(skip_whitespace(s, 8) == 8);
}

/// A `\u` escape of a first half of a surrogate pair, followed by one of a
/// second half, reads as the one character that the pair encodes.
pub proof fn law_pair_reads_as_one_character(h: Seq<char>, l: Seq<char>)
    requires
        is_hex4(h),
        is_hex4(l),
        0xD800 <= hex4_value(h) <= 0xDBFF,
        0xDC00 <= hex4_value(l) <= 0xDFFF,
    ensures
        scan_document(two_escapes(h, l)) == ValueScan::Parsed(
            JsonValue::String(
                seq![(0x10000 + (hex4_value(h) - 0xD800) * 0x400 + (hex4_value(l) - 0xDC00)) as char],
            ),
            14,
        ),
{
    let s = two_escapes(h, l);
    assert(s.len() == 14);
    assert forall|i: int| 0 <= i < 4 implies s[3 + i] == #[trigger] h[i] by {}
    assert forall|i: int| 0 <= i < 4 implies s[9 + i] == #[trigger] l[i] by {}
    lemma_hex4(s, 3, h);
    lemma_hex4(s, 9, l);
    assert(s[0] == '"' && s[1] == '\\' && s[2] == 'u' && s[7] == '\\' && s[8] == 'u' && s[13]
        == '"');
    let c = (0x10000 + (hex4_value(h) - 0xD800) * 0x400 + (hex4_value(l) - 0xDC00)) as char;
    assert(scan_string_body(s, 13, Seq::empty().push(c)).status == ParseStatus::Success);
    assert(seq![c] =~= Seq::empty().push(c));
    assert(skip_whitespace(s, 0) == 0);
    assert(skip_whitespace(s, 14) == 14);
}

/// A `\u` escape of a second half of a surrogate pair, with no first half
/// before it, is refused.
pub proof fn law_lone_second_half_is_refused(h: Seq<char>)
    requires
        is_hex4(h),
        0xDC00 <= hex4_value(h) <= 0xDFFF,
    ensures
        scan_document(one_escape(h)) == ValueScan::Failed(ParseStatus::InvalidUnicodeSurrogate),
{
    let s = one_escape(h);
    assert forall|i: int| 0 <= i < 4 implies s[3 + i] == #[trigger] h[i] by {}
    lemma_hex4(s, 3, h);
    assert(s[0] == '"' && s[1] == '\\' && s[2] == 'u');
    assert(skip_whitespace(s, 0) == 0);
}

/// A `\u` escape of a first half of a surrogate pair that the string closes
/// right after is refused.
pub proof fn law_lone_first_half_is_refused(h: Seq<char>)
    requires
        is_hex4(h),
        0xD800 <= hex4_value(h) <= 0xDBFF,
    ensures
        scan_document(one_escape(h)) == ValueScan::Failed(ParseStatus::InvalidUnicodeSurrogate),
{
    let s = one_escape(h);
    assert forall|i: int| 0 <= i < 4 implies s[3 + i] == #[trigger] h[i] by {}
    lemma_hex4(s, 3, h);
    assert(s[0] == '"' && s[1] == '\\' && s[2] == 'u' && s[7] == '"');
    assert(skip_whitespace(s, 0) == 0);
}

/// The character that a one-letter escape stands for: `\"`, `\\`, `\/`,
/// and `\b`, `\f`, `\n`, `\r`, `\t` for backspace, form feed, line feed,
/// carriage return and tab.
pub open spec fn short_escape(e: char) -> Option<char> {
    if e == '"' || e == '\\' || e == '/' {
        Some(e)
    } else if e == 'b' {
        Some('\u{8}')
    } else if e == 'f' {
        Some('\u{c}')
    } else if e == 'n' {
        Some('\u{a}')
    } else if e == 'r' {
        Some('\u{d}')
    } else if e == 't' {
        Some('\u{9}')
    } else {
        None
    }
}

/// The text of a string that holds the plain characters `a`, a backslash
/// and `e`, and the plain characters `b`.
pub open spec fn escaped_between(a: Seq<char>, e: char, b: Seq<char>) -> Seq<char> {
    seq!['"'] + a + seq!['\\', e] + b + seq!['"']
}

/// Plain characters in a string body are read as themselves.
proof fn lemma_plain_run(s: Seq<char>, p: int, t: Seq<char>, acc: Seq<char>, j: int)
    requires
        is_plain_text(t),
        0 <= p,
        p + t.len() <= s.len(),
        forall|i: int| 0 <= i < t.len() ==> s[p + i] == #[trigger] t[i],
        0 <= j <= t.len(),
    ensures
        scan_string_body(s, p + j, acc + t.take(j)) == scan_string_body(s, p + t.len(), acc + t),
    decreases t.len() - j,
{
    if j < t.len() {
        assert(s[p + j] == t[j]);
        assert(is_plain_char(t[j]));
        assert((acc + t.take(j)).push(t[j]) =~= acc + t.take(j + 1));
        lemma_plain_run(s, p, t, acc, j + 1);
    } else {
        assert(t.take(j) =~= t);
    }
}

/// A one-letter escape between plain characters reads as the character it
/// stands for.
pub proof fn law_short_escape_reads_as_its_character(a: Seq<char>, e: char, b: Seq<char>)
    requires
        is_plain_text(a),
        is_plain_text(b),
        short_escape(e) is Some,
    ensures
        scan_document(escaped_between(a, e, b)) == ValueScan::Parsed(
            JsonValue::String(a + seq![short_escape(e)->0] + b),
            escaped_between(a, e, b).len() as int,
        ),
{
    let s = escaped_between(a, e, b);
    let n = s.len() as int;
    let i = 1 + a.len() as int;
    let d = short_escape(e)->0;
    assert forall|j: int| 0 <= j < a.len() implies s[1 + j] == #[trigger] a[j] by {}
    assert forall|j: int| 0 <= j < b.len() implies s[i + 2 + j] == #[trigger] b[j] by {}
    assert(s[0] == '"' && s[i] == '\\' && s[i + 1] == e && s[n - 1] == '"');
    lemma_plain_run(s, 1, a, Seq::empty(), 0);
    assert(Seq::<char>::empty() + a.take(0) =~= Seq::<char>::empty());
    assert(Seq::<char>::empty() + a =~= a);
    lemma_plain_run(s, i + 2, b, a.push(d), 0);
    assert(a.push(d) + b.take(0) =~= a.push(d));
    assert(a.push(d) + b =~= a + seq![d] + b);
    assert(skip_whitespace(s, 0) == 0);
    assert(skip_whitespace(s, n) == n);
}

/// A backslash followed by a letter that names no escape is refused.
pub proof fn law_unknown_escape_is_refused(a: Seq<char>, e: char, b: Seq<char>)
    requires
        is_plain_text(a),
        short_escape(e) is None,
        e != 'u',
    ensures
        scan_document(escaped_between(a, e, b)) == ValueScan::Failed(
            ParseStatus::InvalidStringEscape,
        ),
{
    let s = escaped_between(a, e, b);
    let i = 1 + a.len() as int;
    assert forall|j: int| 0 <= j < a.len() implies s[1 + j] == #[trigger] a[j] by {}
    assert(s[0] == '"' && s[i] == '\\' && s[i + 1] == e);
    lemma_plain_run(s, 1, a, Seq::empty(), 0);
    assert(skip_whitespace(s, 0) == 0);
}

} // verus!
