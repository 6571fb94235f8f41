//! What the parser reads from a text: a function of the characters that
//! says, for each place in the text, which value starts there, where it
//! ends, or which error stops the reading.
use vstd::prelude::*;
use crate::node::JsonValue;
use crate::parser::ParseStatus;
use crate::text::{hex_digit_value, spec_is_ascii_digit, spec_is_ascii_hexdigit, spec_is_whitespace};

verus! {

/// The outcome of reading a value.
pub enum ValueScan {
    /// A value, and the place right after it.
    Parsed(JsonValue, int),
    /// The reading stops with an error.
    Failed(ParseStatus),
}

/// The outcome of reading the body of a string: the status, the characters
/// read so far (all of them when the status is `Success`), and the place
/// where the reading stopped.
pub struct StrScan {
    pub status: ParseStatus,
    pub chars: Seq<char>,
    pub end: int,
}

/// The outcome of reading the four digits of a `\u` escape.
pub enum HexScan {
    /// The code that the four digits spell.
    Code(nat),
    /// A character that is no hexadecimal digit (or the end of the text)
    /// stands before the fourth digit; the reading stops right after it.
    Stop(int),
}

/// The place after the whitespace that starts at `p`.
pub open spec fn skip_whitespace(s: Seq<char>, p: int) -> int
    decreases s.len() - p,
{
    if 0 <= p < s.len() && spec_is_whitespace(s[p]) {
        skip_whitespace(s, p + 1)
    } else {
        p
    }
}

/// The text `lit` stands at `p`.
pub open spec fn starts_with_at(s: Seq<char>, p: int, lit: Seq<char>) -> bool {
    0 <= p && p + lit.len() <= s.len() && s.subrange(p, p + lit.len()) == lit
}

/// The place after the run of decimal digits that starts at `p`.
pub open spec fn digits_end(s: Seq<char>, p: int) -> int
    decreases s.len() - p,
{
    if 0 <= p < s.len() && spec_is_ascii_digit(s[p]) {
        digits_end(s, p + 1)
    } else {
        p
    }
}

/// The place after an optional minus sign.
pub open spec fn sign_end(s: Seq<char>, p: int) -> int {
    if 0 <= p < s.len() && s[p] == '-' {
        p + 1
    } else {
        p
    }
}

/// The place after the integer part of a number: a single `0`, or a digit
/// from 1 to 9 followed by any digits.
pub open spec fn int_part_end(s: Seq<char>, p: int) -> Option<int> {
    if 0 <= p < s.len() && s[p] == '0' {
        Some(p + 1)
    } else if 0 <= p < s.len() && '1' <= s[p] <= '9' {
        Some(digits_end(s, p))
    } else {
        None
    }
}

/// The place after an optional fraction: a point and at least one digit.
pub open spec fn frac_part_end(s: Seq<char>, p: int) -> Option<int> {
    if 0 <= p < s.len() && s[p] == '.' {
        if p + 1 < s.len() && spec_is_ascii_digit(s[p + 1]) {
            Some(digits_end(s, p + 1))
        } else {
            None
        }
    } else {
        Some(p)
    }
}

/// The place after an optional exponent: `e` or `E`, an optional sign, and
/// at least one digit.
pub open spec fn exp_part_end(s: Seq<char>, p: int) -> Option<int> {
    if 0 <= p < s.len() && (s[p] == 'e' || s[p] == 'E') {
        let d = if p + 1 < s.len() && (s[p + 1] == '+' || s[p + 1] == '-') {
            p + 2
        } else {
            p + 1
        };
        if d < s.len() && spec_is_ascii_digit(s[d]) {
            Some(digits_end(s, d))
        } else {
            None
        }
    } else {
        Some(p)
    }
}

/// The place after the number that starts at `p`, or `None` where no
/// number starts there.
pub open spec fn number_end(s: Seq<char>, p: int) -> Option<int> {
    match int_part_end(s, sign_end(s, p)) {
        None => None,
        Some(a) => match frac_part_end(s, a) {
            None => None,
            Some(b) => exp_part_end(s, b),
        },
    }
}

/// The character that a one-letter escape (`\n`, `\"`, ...) stands for.
pub open spec fn escape_char(e: char) -> Option<char> {
    if e == '"' {
        Some('"')
    } else if e == '\\' {
        Some('\\')
    } else if e == '/' {
        Some('/')
    } else if e == 'n' {
        Some('\n')
    } else if e == 'r' {
        Some('\r')
    } else if e == 't' {
        Some('\t')
    } else if e == 'b' {
        Some('\x08')
    } else if e == 'f' {
        Some('\x0c')
    } else {
        None
    }
}

/// Reads the digits of a `\u` escape that start at `p`, of which `i` are
/// read, with value `acc` so far.
pub open spec fn scan_hex(s: Seq<char>, p: int, i: int, acc: nat) -> HexScan
    decreases 4 - i,
{
    if i >= 4 {
        HexScan::Code(acc)
    } else if 0 <= p + i < s.len() && spec_is_ascii_hexdigit(s[p + i]) {
        scan_hex(s, p, i + 1, acc * 16 + hex_digit_value(s[p + i]))
    } else {
        HexScan::Stop(p + i + 1)
    }
}

/// A code of the first half of a UTF-16 surrogate pair.
pub open spec fn is_high_surrogate(n: nat) -> bool {
    0xD800 <= n <= 0xDBFF
}

/// A code of the second half of a UTF-16 surrogate pair.
pub open spec fn is_low_surrogate(n: nat) -> bool {
    0xDC00 <= n <= 0xDFFF
}

/// The code that a surrogate pair stands for.
pub open spec fn pair_code(high: nat, low: nat) -> nat {
    (0x10000 + (high - 0xD800) * 0x400 + (low - 0xDC00)) as nat
}

pub open spec fn str_done(status: ParseStatus, chars: Seq<char>, end: int) -> StrScan {
    StrScan { status, chars, end }
}

/// Reads the body of a string from `p` (right after the opening quote, or
/// after some characters of the body), with the characters `acc` read so
/// far, up to the closing quote.
///
/// A `\u` escape spells a character by four hexadecimal digits; a first
/// half of a surrogate pair must be followed by a `\u` escape of a second
/// half, and the two spell one character together.
pub open spec fn scan_string_body(s: Seq<char>, p: int, acc: Seq<char>) -> StrScan
    decreases s.len() - p,
{
    if p < 0 || p >= s.len() {
        str_done(ParseStatus::MissingQuotationMark, acc, p + 1)
    } else {
        let c = s[p];
        if c == '"' {
            str_done(ParseStatus::Success, acc, p + 1)
        } else if c == '\\' {
            if p + 1 >= s.len() {
                str_done(ParseStatus::InvalidStringEscape, acc, p + 2)
            } else {
                let e = s[p + 1];
                match escape_char(e) {
                    Some(d) => scan_string_body(s, p + 2, acc.push(d)),
                    None => if e == 'u' {
                        proof {
                            lemma_scan_hex(s, p + 2, 0, 0);
                        }
                        match scan_hex(s, p + 2, 0, 0) {
                            HexScan::Stop(q) => str_done(ParseStatus::InvalidUnicodeHex, acc, q),
                            HexScan::Code(n) => if is_high_surrogate(n) {
                                let f = p + 6;
                                if !(f < s.len() && s[f] == '\\') {
                                    str_done(ParseStatus::InvalidUnicodeSurrogate, acc, f + 1)
                                } else if !(f + 1 < s.len() && s[f + 1] == 'u') {
                                    str_done(ParseStatus::InvalidUnicodeSurrogate, acc, f + 2)
                                } else {
                                    proof {
                                        lemma_scan_hex(s, f + 2, 0, 0);
                                    }
                                    match scan_hex(s, f + 2, 0, 0) {
                                        HexScan::Stop(q) => str_done(
                                            ParseStatus::InvalidUnicodeHex,
                                            acc,
                                            q,
                                        ),
                                        HexScan::Code(m) => if is_low_surrogate(m) {
                                            scan_string_body(
                                                s,
                                                f + 6,
                                                acc.push(pair_code(n, m) as char),
                                            )
                                        } else {
                                            str_done(
                                                ParseStatus::InvalidUnicodeSurrogate,
                                                acc,
                                                f + 6,
                                            )
                                        },
                                    }
                                }
                            } else if is_low_surrogate(n) {
                                str_done(ParseStatus::InvalidUnicodeSurrogate, acc, p + 6)
                            } else {
                                scan_string_body(s, p + 6, acc.push(n as char))
                            },
                        }
                    } else {
                        str_done(ParseStatus::InvalidStringEscape, acc, p + 2)
                    },
                }
            }
        } else if (c as u32) < 0x20 {
            str_done(ParseStatus::InvalidStringChar, acc, p + 1)
        } else {
            scan_string_body(s, p + 1, acc.push(c))
        }
    }
}

/// Reads the literal `lit` at `p`, giving the value `v`.
pub open spec fn scan_literal(s: Seq<char>, p: int, lit: Seq<char>, v: JsonValue) -> ValueScan {
    if starts_with_at(s, p, lit) {
        ValueScan::Parsed(v, p + lit.len())
    } else {
        ValueScan::Failed(ParseStatus::InvalidValue)
    }
}

/// Reads the number at `p`; its value is its text.
pub open spec fn scan_number(s: Seq<char>, p: int) -> ValueScan {
    match number_end(s, p) {
        Some(q) => ValueScan::Parsed(JsonValue::Number(s.subrange(p, q)), q),
        None => ValueScan::Failed(ParseStatus::InvalidValue),
    }
}

/// Reads the string whose opening quote stands at `p`.
pub open spec fn scan_string(s: Seq<char>, p: int) -> ValueScan {
    let r = scan_string_body(s, p + 1, Seq::empty());
    if r.status == ParseStatus::Success {
        ValueScan::Parsed(JsonValue::String(r.chars), r.end)
    } else {
        ValueScan::Failed(r.status)
    }
}

/// Reads the value that starts at `p`, chosen by its first character.
pub open spec fn scan_value(s: Seq<char>, p: int) -> ValueScan
    decreases s.len() - p, 2int,
{
    if p < 0 || p >= s.len() {
        ValueScan::Failed(ParseStatus::ExpectValue)
    } else {
        let c = s[p];
        if c == 'n' {
            scan_literal(s, p, seq!['n', 'u', 'l', 'l'], JsonValue::Null)
        } else if c == 't' {
            scan_literal(s, p, seq!['t', 'r', 'u', 'e'], JsonValue::True)
        } else if c == 'f' {
            scan_literal(s, p, seq!['f', 'a', 'l', 's', 'e'], JsonValue::False)
        } else if c == '"' {
            scan_string(s, p)
        } else if c == '[' {
            scan_array(s, p)
        } else if c == '{' {
            scan_object(s, p)
        } else {
            scan_number(s, p)
        }
    }
}

/// Reads the array whose opening bracket stands at `p`.
pub open spec fn scan_array(s: Seq<char>, p: int) -> ValueScan
    decreases s.len() - p, 1int,
{
    let q = skip_whitespace(s, p + 1);
    if q >= s.len() {
        ValueScan::Failed(ParseStatus::MissCommaOrSquareBracket)
    } else if s[q] == ']' {
        ValueScan::Parsed(JsonValue::Array(Seq::empty()), q + 1)
    } else {
        proof {
            lemma_skip_whitespace_range(s, p + 1);
        }
        scan_elements(s, q, Seq::empty())
    }
}

/// Reads the elements of an array from `q`, where an element starts, with
/// the elements `acc` read so far, up to the closing bracket.
pub open spec fn scan_elements(s: Seq<char>, q: int, acc: Seq<JsonValue>) -> ValueScan
    decreases s.len() - q, 3int,
{
    match scan_value(s, q) {
        ValueScan::Failed(st) => ValueScan::Failed(st),
        ValueScan::Parsed(v, r) => {
            let t = skip_whitespace(s, r);
            if 0 <= t < s.len() && s[t] == ',' {
                let u = skip_whitespace(s, t + 1);
                if u > q {
                    proof {
                        lemma_skip_whitespace_range(s, t + 1);
                    }
                    scan_elements(s, u, acc.push(v))
                } else {
                    // never taken: an element is never empty
                    ValueScan::Failed(ParseStatus::MissCommaOrSquareBracket)
                }
            } else if 0 <= t < s.len() && s[t] == ']' {
                ValueScan::Parsed(JsonValue::Array(acc.push(v)), t + 1)
            } else {
                ValueScan::Failed(ParseStatus::MissCommaOrSquareBracket)
            }
        },
    }
}

/// Reads the object whose opening brace stands at `p`.
pub open spec fn scan_object(s: Seq<char>, p: int) -> ValueScan
    decreases s.len() - p, 1int,
{
    let q = skip_whitespace(s, p + 1);
    if q >= s.len() {
        ValueScan::Failed(ParseStatus::MissCommaOrCurlyBracket)
    } else if s[q] == '}' {
        ValueScan::Parsed(JsonValue::Object(Map::empty()), q + 1)
    } else {
        proof {
            lemma_skip_whitespace_range(s, p + 1);
        }
        scan_members(s, q, Map::empty())
    }
}

/// Reads the members of an object from `q`, with the members `acc` read so
/// far, up to the closing brace.  A member is a string, a colon and a
/// value, with whitespace around each.
pub open spec fn scan_members(s: Seq<char>, q: int, acc: Map<Seq<char>, JsonValue>) -> ValueScan
    decreases s.len() - q, 3int,
{
    let k = skip_whitespace(s, q);
    if !(0 <= k < s.len() && s[k] == '"') {
        ValueScan::Failed(ParseStatus::MissKey)
    } else {
        let key = scan_string_body(s, k + 1, Seq::empty());
        if key.status != ParseStatus::Success {
            ValueScan::Failed(key.status)
        } else {
            let c = skip_whitespace(s, key.end);
            if !(0 <= c < s.len() && s[c] == ':') {
                ValueScan::Failed(ParseStatus::MissColon)
            } else {
                proof {
                    lemma_skip_whitespace_range(s, q);
                    lemma_scan_string_body_end(s, k + 1, Seq::empty());
                    lemma_skip_whitespace_range(s, key.end);
                    lemma_skip_whitespace_range(s, c + 1);
                }
                scan_member_value(s, skip_whitespace(s, c + 1), key.chars, acc)
            }
        }
    }
}

/// Reads the value of a member with key `key` at `v0`, then what follows
/// it: a comma and further members, or the closing brace.
pub open spec fn scan_member_value(
    s: Seq<char>,
    v0: int,
    key: Seq<char>,
    acc: Map<Seq<char>, JsonValue>,
) -> ValueScan
    decreases s.len() - v0, 3int,
{
    match scan_value(s, v0) {
        ValueScan::Failed(st) => ValueScan::Failed(st),
        ValueScan::Parsed(v, r2) => {
            let t = skip_whitespace(s, r2);
            if 0 <= t < s.len() && s[t] == ',' {
                let u = skip_whitespace(s, t + 1);
                if u > v0 {
                    proof {
                        lemma_skip_whitespace_range(s, t + 1);
                    }
                    scan_members(s, u, acc.insert(key, v))
                } else {
                    // never taken: a value is never empty
                    ValueScan::Failed(ParseStatus::MissCommaOrCurlyBracket)
                }
            } else if 0 <= t < s.len() && s[t] == '}' {
                ValueScan::Parsed(JsonValue::Object(acc.insert(key, v)), t + 1)
            } else {
                ValueScan::Failed(ParseStatus::MissCommaOrCurlyBracket)
            }
        },
    }
}

/// Reads a whole document: whitespace, one value, whitespace, and nothing
/// after it.
pub open spec fn scan_document(s: Seq<char>) -> ValueScan {
    match scan_value(s, skip_whitespace(s, 0)) {
        ValueScan::Parsed(v, q) => {
            let r = skip_whitespace(s, q);
            if r < s.len() {
                ValueScan::Failed(ParseStatus::RootNotSingular)
            } else {
                ValueScan::Parsed(v, r)
            }
        },
        other => other,
    }
}

/// Whitespace ends at or after where it starts, and within the text when
/// it starts within it; no whitespace stands where it ends.
pub proof fn lemma_skip_whitespace_range(s: Seq<char>, p: int)
    ensures
        p <= skip_whitespace(s, p),
        p <= s.len() ==> skip_whitespace(s, p) <= s.len(),
        !(0 <= skip_whitespace(s, p) < s.len() && spec_is_whitespace(s[skip_whitespace(s, p)])),
    decreases s.len() - p,
{
    if 0 <= p < s.len() && spec_is_whitespace(s[p]) {
        lemma_skip_whitespace_range(s, p + 1);
    }
}

/// A run of digits ends at or after where it starts.
pub proof fn lemma_digits_end(s: Seq<char>, p: int)
    ensures
        p <= digits_end(s, p),
        p <= s.len() ==> digits_end(s, p) <= s.len(),
    decreases s.len() - p,
{
    if 0 <= p < s.len() && spec_is_ascii_digit(s[p]) {
        lemma_digits_end(s, p + 1);
    }
}

/// The four digits of a `\u` escape stand within the text, and spell a code
/// below `0x10000`.
pub proof fn lemma_scan_hex(s: Seq<char>, p: int, i: int, acc: nat)
    requires
        0 <= i <= 4,
        acc < pow16(i),
    ensures
        scan_hex(s, p, i, acc) matches HexScan::Code(n) ==> (i < 4 ==> 0 <= p + 3 < s.len()) && n
            < 0x10000,
        scan_hex(s, p, i, acc) matches HexScan::Stop(q) ==> p + i < q <= p + 4 && (p + i <= s.len()
            ==> q <= s.len() + 1),
    decreases 4 - i,
{
    if i < 4 && 0 <= p + i < s.len() && spec_is_ascii_hexdigit(s[p + i]) {
        let d = hex_digit_value(s[p + i]);
        assert(d < 16);
        assert(acc * 16 + d < pow16(i + 1)) by (nonlinear_arith)
            requires
                acc < pow16(i),
                d < 16,
                pow16(i + 1) == pow16(i) * 16,
        ;
        lemma_scan_hex(s, p, i + 1, acc * 16 + d);
    }
}

/// The reading of a string body ends after where it starts, and within the
/// text on success; it never ends with the statuses that only a document
/// gives.
pub proof fn lemma_scan_string_body_end(s: Seq<char>, p: int, acc: Seq<char>)
    ensures
        scan_string_body(s, p, acc).end > p,
        scan_string_body(s, p, acc).status == ParseStatus::Success ==> 0 < scan_string_body(
            s,
            p,
            acc,
        ).end <= s.len(),
        scan_string_body(s, p, acc).status != ParseStatus::RootNotSingular,
        0 <= p <= s.len() ==> scan_string_body(s, p, acc).end <= s.len() + 1,
    decreases s.len() - p,
{
    if 0 <= p < s.len() {
        let c = s[p];
        if c == '\\' && p + 1 < s.len() {
            let e = s[p + 1];
            match escape_char(e) {
                Some(d) => lemma_scan_string_body_end(s, p + 2, acc.push(d)),
                None => if e == 'u' {
                    lemma_scan_hex(s, p + 2, 0, 0);
                    if let HexScan::Code(n) = scan_hex(s, p + 2, 0, 0) {
                        let f = p + 6;
                        if is_high_surrogate(n) {
                            if f + 1 < s.len() && s[f] == '\\' && s[f + 1] == 'u' {
                                lemma_scan_hex(s, f + 2, 0, 0);
                                if let HexScan::Code(m) = scan_hex(s, f + 2, 0, 0) {
                                    if is_low_surrogate(m) {
                                        lemma_scan_string_body_end(
                                            s,
                                            f + 6,
                                            acc.push(pair_code(n, m) as char),
                                        );
                                    }
                                }
                            }
                        } else if !is_low_surrogate(n) {
                            lemma_scan_string_body_end(s, p + 6, acc.push(n as char));
                        }
                    }
                },
            }
        } else if c != '"' && c != '\\' && !((c as u32) < 0x20) {
            lemma_scan_string_body_end(s, p + 1, acc.push(c));
        }
    }
}

/// Sixteen to the power `i`, for `i` up to four.
pub open spec fn pow16(i: int) -> nat {
    if i <= 0 {
        1
    } else if i == 1 {
        16
    } else if i == 2 {
        256
    } else if i == 3 {
        4096
    } else {
        65536
    }
}

/// An error that reading a value can end with: never success, and never
/// the status that only a whole document gives.
pub open spec fn is_value_error(st: ParseStatus) -> bool {
    &&& st != ParseStatus::Success
    &&& st != ParseStatus::RootNotSingular
}

/// A value read from `p` ends after `p`, within the text; an error is a
/// value error.
pub open spec fn scan_fits(outcome: ValueScan, p: int, len: int) -> bool {
    match outcome {
        ValueScan::Parsed(_, q) => p < q <= len,
        ValueScan::Failed(st) => is_value_error(st),
    }
}

pub proof fn lemma_scan_value_fits(s: Seq<char>, p: int)
    ensures
        scan_fits(scan_value(s, p), p, s.len() as int),
    decreases s.len() - p, 2int,
{
    if 0 <= p < s.len() {
        let c = s[p];
        if c == '"' {
            lemma_scan_string_body_end(s, p + 1, Seq::empty());
        } else if c == '[' {
            lemma_scan_array_fits(s, p);
        } else if c == '{' {
            lemma_scan_object_fits(s, p);
        } else if c != 'n' && c != 't' && c != 'f' {
            lemma_number_end(s, p);
        }
    }
}

pub proof fn lemma_scan_array_fits(s: Seq<char>, p: int)
    requires
        0 <= p < s.len(),
    ensures
        scan_fits(scan_array(s, p), p, s.len() as int),
    decreases s.len() - p, 1int,
{
    lemma_skip_whitespace_range(s, p + 1);
    let q = skip_whitespace(s, p + 1);
    if q < s.len() && s[q] != ']' {
        lemma_scan_elements_fits(s, q, Seq::empty());
    }
}

pub proof fn lemma_scan_elements_fits(s: Seq<char>, q: int, acc: Seq<JsonValue>)
    requires
        0 <= q < s.len(),
    ensures
        scan_fits(scan_elements(s, q, acc), q, s.len() as int),
    decreases s.len() - q, 3int,
{
    lemma_scan_value_fits(s, q);
    if let ValueScan::Parsed(v, r) = scan_value(s, q) {
        lemma_skip_whitespace_range(s, r);
        let t = skip_whitespace(s, r);
        if 0 <= t < s.len() && s[t] == ',' {
            lemma_skip_whitespace_range(s, t + 1);
            let u = skip_whitespace(s, t + 1);
            if u < s.len() {
                lemma_scan_elements_fits(s, u, acc.push(v));
            } else {
                assert(scan_value(s, u) == ValueScan::Failed(ParseStatus::ExpectValue));
            }
        }
    }
}

pub proof fn lemma_scan_object_fits(s: Seq<char>, p: int)
    requires
        0 <= p < s.len(),
    ensures
        scan_fits(scan_object(s, p), p, s.len() as int),
    decreases s.len() - p, 1int,
{
    lemma_skip_whitespace_range(s, p + 1);
    let q = skip_whitespace(s, p + 1);
    if q < s.len() && s[q] != '}' {
        lemma_scan_members_fits(s, q, Map::empty());
    }
}

pub proof fn lemma_scan_members_fits(s: Seq<char>, q: int, acc: Map<Seq<char>, JsonValue>)
    requires
        0 <= q <= s.len(),
    ensures
        scan_fits(scan_members(s, q, acc), q, s.len() as int),
    decreases s.len() - q, 3int,
{
    lemma_skip_whitespace_range(s, q);
    let k = skip_whitespace(s, q);
    if 0 <= k < s.len() && s[k] == '"' {
        lemma_scan_string_body_end(s, k + 1, Seq::empty());
        let key = scan_string_body(s, k + 1, Seq::empty());
        if key.status == ParseStatus::Success {
            lemma_skip_whitespace_range(s, key.end);
            let c = skip_whitespace(s, key.end);
            if 0 <= c < s.len() && s[c] == ':' {
                lemma_skip_whitespace_range(s, c + 1);
                lemma_scan_member_value_fits(s, skip_whitespace(s, c + 1), key.chars, acc);
            }
        }
    }
}

pub proof fn lemma_scan_member_value_fits(
    s: Seq<char>,
    v0: int,
    key: Seq<char>,
    acc: Map<Seq<char>, JsonValue>,
)
    requires
        0 <= v0 <= s.len(),
    ensures
        scan_fits(scan_member_value(s, v0, key, acc), v0, s.len() as int),
    decreases s.len() - v0, 3int,
{
    lemma_scan_value_fits(s, v0);
    if let ValueScan::Parsed(v, r2) = scan_value(s, v0) {
        lemma_skip_whitespace_range(s, r2);
        let t = skip_whitespace(s, r2);
        if 0 <= t < s.len() && s[t] == ',' {
            lemma_skip_whitespace_range(s, t + 1);
            let u = skip_whitespace(s, t + 1);
            if u > v0 {
                lemma_scan_members_fits(s, u, acc.insert(key, v));
            }
        }
    }
}

/// A number ends after where it starts, within the text.
pub proof fn lemma_number_end(s: Seq<char>, p: int)
    requires
        0 <= p,
    ensures
        number_end(s, p) matches Some(q) ==> p < q <= s.len(),
{
    let a = sign_end(s, p);
    if 0 <= a < s.len() && '1' <= s[a] <= '9' {
        lemma_digits_end(s, a + 1);
    }
    if let Some(b) = int_part_end(s, a) {
        if 0 <= b < s.len() && s[b] == '.' && b + 1 < s.len() {
            lemma_digits_end(s, b + 2);
        }
        if let Some(c) = frac_part_end(s, b) {
            lemma_digits_end(s, c + 1);
            lemma_digits_end(s, c + 2);
            lemma_digits_end(s, c + 3);
        }
    }
}

} // verus!
