//! Reads JSON text into a tree of nodes.
use vstd::prelude::*;
use crate::grammar::{
    digits_end, exp_part_end, frac_part_end, int_part_end, lemma_digits_end, lemma_scan_hex,
    lemma_scan_string_body_end, lemma_skip_whitespace_range, pair_code, pow16, scan_array,
    scan_document, scan_elements, scan_hex, scan_literal, scan_members, scan_number,
    scan_object, scan_string, scan_string_body, scan_value, sign_end, skip_whitespace,
    starts_with_at, str_done, HexScan, ValueScan,
};
use crate::node::{
    entries_value, entries_well_formed, items_value, items_well_formed, key_less, keys_sorted,
    lemma_entries_insert, lemma_entries_push, lemma_entries_replace, lemma_items_push,
    lemma_key_less_irreflexive, lemma_key_less_total, lemma_key_less_transitive,
    lemma_sorted_distinct, well_formed, JsonValue, LeptValue,
};
use crate::text::{
    char_from_u32, chars_of, hex_value, is_ascii_digit, is_ascii_hexdigit, is_whitespace,
    string_push,
};

verus! {

/// The outcome of reading a JSON text.
#[derive(Copy, Clone, Debug, PartialEq, Eq, Structural)]
pub enum ParseStatus {
    /// The text holds exactly one value, read in full.
    Success,
    /// The text, or the place after a comma, holds no value.
    ExpectValue,
    /// No value starts as the text does: a misspelt literal, or a malformed number.
    InvalidValue,
    /// Something other than whitespace follows the value.
    RootNotSingular,
    /// A string lacks its closing quotation mark.
    MissingQuotationMark,
    /// A string holds an escape that is not allowed.
    InvalidStringEscape,
    /// A string holds a character that is not allowed.
    InvalidStringChar,
    /// A `\u` escape lacks one of its four hexadecimal digits.
    InvalidUnicodeHex,
    /// A `\u` escape names half of a surrogate pair without its other half:
    /// a low half on its own, or a high half not followed by a `\u` escape
    /// of a low half.
    InvalidUnicodeSurrogate,
    /// An array element is followed by neither a comma nor a closing bracket.
    MissCommaOrSquareBracket,
    /// An object member lacks its key.
    MissKey,
    /// An object member lacks the colon after its key.
    MissColon,
    /// An object member is followed by neither a comma nor a closing brace.
    MissCommaOrCurlyBracket,
}

/// The digits from 1 to 9.
pub fn is_digit_19(c: char) -> (r: bool)
    ensures
        r == ('1' <= c <= '9'),
{
    c >= '1' && c <= '9'
}

/// A JSON parser.
/// The grammar of JSON is simple enough to be read character by
/// character, with no separate tokenizer.
pub struct LeptParser {
    /// The characters of the text being read.
    chars: Vec<char>,
    /// The place of the next character to read.
    pos: usize,
}

/// The character at `p`, if there is one.
pub open spec fn char_at(s: Seq<char>, p: int) -> Option<char> {
    if 0 <= p < s.len() {
        Some(s[p])
    } else {
        None
    }
}

/// What a reading function reports: for a value read in full, success, the
/// node holding it, and the place after it; for an error, the error, with
/// the node left as it was.
pub open spec fn reports(
    outcome: ValueScan,
    start: int,
    r: ParseStatus,
    before: LeptValue,
    after: LeptValue,
    end: int,
    len: int,
) -> bool {
    match outcome {
        ValueScan::Parsed(v, q) => {
            &&& r == ParseStatus::Success
            &&& after@ == v
            &&& well_formed(after)
            &&& end == q
            &&& start < q <= len
        },
        ValueScan::Failed(st) => r == st && st != ParseStatus::Success && after == before,
    }
}

/// What reading a document gives: for a value, success and a node
/// holding it; for an error, the error and a `Null` node.
pub open spec fn parse_outcome(outcome: ValueScan, status: ParseStatus, node: LeptValue) -> bool {
    match outcome {
        ValueScan::Parsed(v, _) => {
            &&& status == ParseStatus::Success
            &&& node@ == v
            &&& well_formed(node)
        },
        ValueScan::Failed(st) => status == st && node == LeptValue::Null,
    }
}

impl LeptParser {
    /// Reads the JSON text `json` into `node`, and says whether it holds
    /// exactly one value.  Whatever `node` held before does not count: on
    /// an error it is left `Null`.
    pub fn parse(node: &mut LeptValue, json: &str) -> (status: ParseStatus)
        requires
            json@.len() < usize::MAX,
        ensures
            parse_outcome(scan_document(json@), status, *final(node)),
    {
        let mut parser = LeptParser { chars: chars_of(json), pos: 0 };
        // whatever comes, the node starts out null
        node.set(LeptValue::default());
        parser.parse_whitespace();
        let status = parser.parse_value(node);
        if status == ParseStatus::Success {
            // after the value, only whitespace may follow
            parser.parse_whitespace();
            if !parser.eof() {
                node.set(LeptValue::default());
                return ParseStatus::RootNotSingular;
            }
        }
        status
    }

    /// The characters being read.
    pub closed spec fn text(&self) -> Seq<char> {
        self.chars@
    }

    /// The place of the next character to read.
    pub closed spec fn position(&self) -> int {
        self.pos as int
    }

    /// The place is never before the start of the text.
    pub broadcast proof fn lemma_position_nonnegative(parser: &LeptParser)
        ensures
            0 <= #[trigger] parser.position(),
    {
    }

    /// The character at the current place, or `None` at the end; the
    /// place does not move.
    pub fn next(&mut self) -> (r: Option<char>)
        requires
            old(self).position() <= old(self).text().len(),
        ensures
            *final(self) == *old(self),
            r == char_at(old(self).text(), old(self).position()),
    {
        if self.pos < self.chars.len() {
            Some(self.chars[self.pos])
        } else {
            None
        }
    }

    /// All characters are read.
    pub fn eof(&self) -> (r: bool)
        ensures
            r == (self.position() >= self.text().len()),
    {
        self.pos >= self.chars.len()
    }

    /// The text `s` stands at the current place.
    pub fn starts_with(&self, s: &str) -> (r: bool)
        requires
            self.position() <= self.text().len(),
        ensures
            r == starts_with_at(self.text(), self.position(), s@),
    {
        let lit = chars_of(s);
        if lit.len() > self.chars.len() - self.pos {
            return false;
        }
        let mut i: usize = 0;
        while i < lit.len()
            invariant
                i <= lit.len(),
                self.pos + lit.len() <= self.chars.len(),
                lit@ == s@,
                forall|j: int| 0 <= j < i ==> self.chars@[self.pos + j] == lit@[j],
            decreases lit.len() - i,
        {
            if self.chars[self.pos + i] != lit[i] {
                assert(self.chars@.subrange(self.pos as int, self.pos + lit.len())[i as int]
                    != lit@[i as int]);
                return false;
            }
            i += 1;
        }
        assert(self.chars@.subrange(self.pos as int, self.pos + lit.len()) =~= lit@);
        true
    }

    /// Steps over the text `s`, which stands at the current place.
    pub fn expect(&mut self, s: &str)
        requires
            old(self).text().len() < usize::MAX,
            starts_with_at(old(self).text(), old(self).position(), s@),
        ensures
            final(self).text() == old(self).text(),
            final(self).position() == old(self).position() + s@.len(),
    {
        let lit = chars_of(s);
        self.pos += lit.len();
    }

    /// Steps over whitespace: the characters for which `char::is_whitespace`
    /// holds.
    pub fn parse_whitespace(&mut self)
        requires
            old(self).text().len() < usize::MAX,
            old(self).position() <= old(self).text().len(),
        ensures
            final(self).text() == old(self).text(),
            final(self).position() == skip_whitespace(old(self).text(), old(self).position()),
            old(self).position() <= final(self).position() <= final(self).text().len(),
    {
        while !self.eof() && is_whitespace(self.chars[self.pos])
            invariant
                self.text() == old(self).text(),
                self.text().len() < usize::MAX,
                old(self).position() <= self.pos <= self.text().len(),
                skip_whitespace(self.text(), self.pos as int) == skip_whitespace(
                    old(self).text(),
                    old(self).position(),
                ),
            decreases self.text().len() - self.pos,
        {
            self.pos += 1;
        }
    }

    /// Reads the four hexadecimal digits of a `\u` escape at the current
    /// place, giving their code; `None` where one of them is missing.
    fn read_hex4(&mut self) -> (r: Option<u32>)
        requires
            old(self).text().len() < usize::MAX,
            old(self).position() <= old(self).text().len(),
        ensures
            final(self).text() == old(self).text(),
            final(self).position() <= final(self).text().len() + 1,
            match scan_hex(old(self).text(), old(self).position(), 0, 0) {
                HexScan::Code(n) => r == Some(n as u32) && n < 0x10000 && final(self).position()
                    == old(self).position() + 4 && final(self).position() <= final(self).text().len(),
                HexScan::Stop(q) => r is None && final(self).position() == q,
            },
    {
        let mut code: u32 = 0;
        let mut i: usize = 0;
        proof {
            lemma_scan_hex(old(self).text(), old(self).position(), 0, 0);
        }
        while i < 4
            invariant
                self.text() == old(self).text(),
                self.text().len() < usize::MAX,
                i <= 4,
                self.pos == old(self).position() + i,
                self.pos <= self.text().len(),
                code < pow16(i as int),
                scan_hex(self.text(), old(self).position(), 0, 0) == scan_hex(
                    self.text(),
                    old(self).position(),
                    i as int,
                    code as nat,
                ),
            decreases 4 - i,
        {
            let current = self.next();
            self.pos += 1;
            match current {
                Some(c) => {
                    if is_ascii_hexdigit(c) {
                        code = code * 16 + hex_value(c);
                    } else {
                        return None;
                    }
                },
                None => {
                    return None;
                },
            }
            i += 1;
        }
        Some(code)
    }

    /// Reads a string whose opening quote stands at the current place,
    /// appending its characters to `result`.  This serves both string
    /// values and the keys of object members.
    pub fn parse_raw_string(&mut self, result: &mut String) -> (status: ParseStatus)
        requires
            old(self).text().len() < usize::MAX,
            old(self).position() < old(self).text().len(),
            old(self).text()[old(self).position()] == '"',
        ensures
            final(self).text() == old(self).text(),
            scan_string_body(old(self).text(), old(self).position() + 1, old(result)@)
                == str_done(status, final(result)@, final(self).position()),
            final(self).position() <= final(self).text().len() + 1,
    {
        proof {
            lemma_scan_string_body_end(old(self).text(), old(self).position() + 1, old(result)@);
            reveal_strlit("\"");
            assert(self.text().subrange(self.position(), self.position() + 1) =~= "\""@);
        }
        self.expect("\"");
        loop
            invariant
                self.text() == old(self).text(),
                self.text().len() < usize::MAX,
                old(self).position() < self.pos <= self.text().len(),
                scan_string_body(old(self).text(), old(self).position() + 1, old(result)@)
                    == scan_string_body(self.text(), self.pos as int, result@),
            decreases self.text().len() - self.pos,
        {
            let ghost p = self.pos as int;
            let current = self.next();
            self.pos += 1;
            match current {
                Some('"') => return ParseStatus::Success,
                Some('\\') => {
                    let current = self.next();
                    self.pos += 1;
                    match current {
                        Some('"') => string_push(result, '"'),
                        Some('\\') => string_push(result, '\\'),
                        Some('/') => string_push(result, '/'),
                        Some('n') => string_push(result, '\n'),
                        Some('r') => string_push(result, '\r'),
                        Some('t') => string_push(result, '\t'),
                        Some('b') => string_push(result, '\x08'),
                        Some('f') => string_push(result, '\x0c'),
                        Some('u') => {
                            match self.read_hex4() {
                                None => {
                                    return ParseStatus::InvalidUnicodeHex;
                                },
                                Some(code) => {
                                    if 0xD800 <= code && code <= 0xDBFF {
                                        // the first half of a pair: the second must follow
                                        let c1 = self.next();
                                        self.pos += 1;
                                        if c1 != Some('\\') {
                                            return ParseStatus::InvalidUnicodeSurrogate;
                                        }
                                        let c2 = self.next();
                                        self.pos += 1;
                                        if c2 != Some('u') {
                                            return ParseStatus::InvalidUnicodeSurrogate;
                                        }
                                        match self.read_hex4() {
                                            None => {
                                                return ParseStatus::InvalidUnicodeHex;
                                            },
                                            Some(low) => {
                                                if !(0xDC00 <= low && low <= 0xDFFF) {
                                                    return ParseStatus::InvalidUnicodeSurrogate;
                                                }
                                                let pair = 0x10000 + (code - 0xD800) * 0x400 + (
                                                low - 0xDC00);
                                                assert(pair as nat == pair_code(
                                                    code as nat,
                                                    low as nat,
                                                ));
                                                match char_from_u32(pair) {
                                                    Some(c) => string_push(result, c),
                                                    None => {
                                                        return ParseStatus::InvalidUnicodeSurrogate;
                                                    },
                                                }
                                            },
                                        }
                                    } else if 0xDC00 <= code && code <= 0xDFFF {
                                        // a second half with no first half before it
                                        return ParseStatus::InvalidUnicodeSurrogate;
                                    } else {
                                        match char_from_u32(code) {
                                            Some(c) => string_push(result, c),
                                            None => {
                                                return ParseStatus::InvalidUnicodeSurrogate;
                                            },
                                        }
                                    }
                                },
                            }
                        },
                        _ => {
                            return ParseStatus::InvalidStringEscape;
                        },
                    }
                },
                Some(c) => {
                    if (c as u32) < 0x20 {
                        return ParseStatus::InvalidStringChar;
                    }
                    string_push(result, c);
                },
                None => {
                    return ParseStatus::MissingQuotationMark;
                },
            }
        }
    }

    /// Reads the literal `literal` (`null`, `true` or `false`), which gives
    /// the node `literal_value`.
    fn parse_literal(
        &mut self,
        node: &mut LeptValue,
        literal: &str,
        literal_value: LeptValue,
    ) -> (r: ParseStatus)
        requires
            old(self).text().len() < usize::MAX,
            old(self).position() <= old(self).text().len(),
            literal@.len() > 0,
            well_formed(literal_value),
        ensures
            final(self).text() == old(self).text(),
            final(self).position() <= final(self).text().len(),
            reports(
                scan_literal(old(self).text(), old(self).position(), literal@, literal_value@),
                old(self).position(),
                r,
                *old(node),
                *final(node),
                final(self).position(),
                old(self).text().len() as int,
            ),
            r != ParseStatus::Success ==> final(self).position() == old(self).position(),
    {
        if self.starts_with(literal) {
            self.expect(literal);
            node.set(literal_value);
            return ParseStatus::Success;
        } else {
            return ParseStatus::InvalidValue;
        }
    }

    /// Steps over a run of decimal digits, appending them to `num`; gives
    /// the character after them.
    fn read_digits(&mut self, num: &mut String) -> (current: Option<char>)
        requires
            old(self).text().len() < usize::MAX,
            old(self).position() <= old(self).text().len(),
        ensures
            final(self).text() == old(self).text(),
            final(self).position() == digits_end(old(self).text(), old(self).position()),
            old(self).position() <= final(self).position() <= final(self).text().len(),
            final(num)@ == old(num)@ + old(self).text().subrange(
                old(self).position(),
                final(self).position(),
            ),
            current == char_at(final(self).text(), final(self).position()),
    {
        let mut current = self.next();
        while !self.eof()
            invariant
                self.text() == old(self).text(),
                self.text().len() < usize::MAX,
                old(self).position() <= self.pos <= self.text().len(),
                digits_end(self.text(), self.pos as int) == digits_end(
                    old(self).text(),
                    old(self).position(),
                ),
                num@ == old(num)@ + self.text().subrange(old(self).position(), self.pos as int),
                current == char_at(self.text(), self.pos as int),
            ensures
                self.text() == old(self).text(),
                self.pos == digits_end(old(self).text(), old(self).position()),
                old(self).position() <= self.pos <= self.text().len(),
                num@ == old(num)@ + self.text().subrange(old(self).position(), self.pos as int),
                current == char_at(self.text(), self.pos as int),
            decreases self.text().len() - self.pos,
        {
            if current.is_none() || !is_ascii_digit(current.unwrap()) {
                break;
            }
            let c = current.unwrap();
            string_push(num, c);
            proof {
                assert(self.text().subrange(old(self).position(), self.pos + 1) =~= self.text().subrange(
                    old(self).position(),
                    self.pos as int,
                ).push(c));
            }
            self.pos += 1;
            current = self.next();
        }
        current
    }

    /// Steps over the character `c`, which stands at the current place,
    /// appending it to `num`; gives the character after it.
    fn take_char(&mut self, num: &mut String, c: char) -> (current: Option<char>)
        requires
            old(self).text().len() < usize::MAX,
            old(self).position() < old(self).text().len(),
            old(self).text()[old(self).position()] == c,
        ensures
            final(self).text() == old(self).text(),
            final(self).position() == old(self).position() + 1,
            final(num)@ == old(num)@ + old(self).text().subrange(
                old(self).position(),
                final(self).position(),
            ),
            current == char_at(final(self).text(), final(self).position()),
    {
        string_push(num, c);
        proof {
            assert(old(self).text().subrange(old(self).position(), old(self).position() + 1)
                =~= seq![c]);
        }
        self.pos += 1;
        self.next()
    }

    /// Reads the integer part of a number: `0`, or a digit from 1 to 9 and
    /// any digits after it; `false` where there is none.
    fn read_int_part(&mut self, num: &mut String, current: Option<char>) -> (r: (bool, Option<char>))
        requires
            old(self).text().len() < usize::MAX,
            old(self).position() <= old(self).text().len(),
            current == char_at(old(self).text(), old(self).position()),
        ensures
            final(self).text() == old(self).text(),
            old(self).position() <= final(self).position() <= final(self).text().len(),
            r.0 ==> old(self).position() < final(self).position(),
            r.0 == int_part_end(old(self).text(), old(self).position()) is Some,
            r.0 ==> {
                &&& int_part_end(old(self).text(), old(self).position()) == Some(
                    final(self).position(),
                )
                &&& final(num)@ == old(num)@ + old(self).text().subrange(
                    old(self).position(),
                    final(self).position(),
                )
                &&& r.1 == char_at(final(self).text(), final(self).position())
            },
    {
        if current == Some('0') {
            let current = self.take_char(num, '0');
            (true, current)
        } else {
            if current.is_none() || !is_digit_19(current.unwrap()) {
                return (false, current);
            }
            proof {
                lemma_digits_end(old(self).text(), old(self).position() + 1);
            }
            let current = self.read_digits(num);
            (true, current)
        }
    }

    /// Reads the fraction of a number, if there is one: a point and at
    /// least one digit; `false` where a point has no digit after it.
    fn read_frac_part(&mut self, num: &mut String, current: Option<char>) -> (r: (bool, Option<char>))
        requires
            old(self).text().len() < usize::MAX,
            old(self).position() <= old(self).text().len(),
            current == char_at(old(self).text(), old(self).position()),
        ensures
            final(self).text() == old(self).text(),
            old(self).position() <= final(self).position() <= final(self).text().len(),
            r.0 == frac_part_end(old(self).text(), old(self).position()) is Some,
            r.0 ==> {
                &&& frac_part_end(old(self).text(), old(self).position()) == Some(
                    final(self).position(),
                )
                &&& final(num)@ == old(num)@ + old(self).text().subrange(
                    old(self).position(),
                    final(self).position(),
                )
                &&& r.1 == char_at(final(self).text(), final(self).position())
            },
    {
        let ghost s = old(self).text();
        let ghost p0 = old(self).position();
        let ghost n0 = old(num)@;
        if current == Some('.') {
            let current = self.take_char(num, '.');
            if current.is_none() || !is_ascii_digit(current.unwrap()) {
                return (false, current);
            }
            let ghost pd = self.position();
            let ghost n1 = num@;
            let current = self.read_digits(num);
            proof {
                assert(n1 == n0 + s.subrange(p0, pd));
                assert(s.subrange(p0, pd) + s.subrange(pd, self.pos as int) =~= s.subrange(
                    p0,
                    self.pos as int,
                ));
                assert(num@ =~= n0 + s.subrange(p0, self.pos as int));
            }
            (true, current)
        } else {
            proof {
                assert(s.subrange(p0, p0) =~= Seq::<char>::empty());
                assert(num@ =~= n0 + s.subrange(p0, p0));
            }
            (true, current)
        }
    }

    /// Reads the exponent of a number, if there is one: `e` or `E`, an
    /// optional sign and at least one digit; `false` where the digits
    /// are missing.
    fn read_exp_part(&mut self, num: &mut String, current: Option<char>) -> (r: (bool, Option<char>))
        requires
            old(self).text().len() < usize::MAX,
            old(self).position() <= old(self).text().len(),
            current == char_at(old(self).text(), old(self).position()),
        ensures
            final(self).text() == old(self).text(),
            old(self).position() <= final(self).position() <= final(self).text().len(),
            r.0 == exp_part_end(old(self).text(), old(self).position()) is Some,
            r.0 ==> {
                &&& exp_part_end(old(self).text(), old(self).position()) == Some(
                    final(self).position(),
                )
                &&& final(num)@ == old(num)@ + old(self).text().subrange(
                    old(self).position(),
                    final(self).position(),
                )
                &&& r.1 == char_at(final(self).text(), final(self).position())
            },
    {
        let ghost s = old(self).text();
        let ghost p0 = old(self).position();
        let ghost n0 = old(num)@;
        if current == Some('e') || current == Some('E') {
            let mut current = self.take_char(num, current.unwrap());
            if current == Some('+') || current == Some('-') {
                let ghost n1 = num@;
                current = self.take_char(num, current.unwrap());
                proof {
                    assert(n1 == n0 + s.subrange(p0, p0 + 1));
                    assert(s.subrange(p0, p0 + 1) + s.subrange(p0 + 1, p0 + 2) =~= s.subrange(
                        p0,
                        p0 + 2,
                    ));
                    assert(num@ =~= n0 + s.subrange(p0, p0 + 2));
                }
            }
            if current.is_none() || !is_ascii_digit(current.unwrap()) {
                return (false, current);
            }
            let ghost pd = self.position();
            let ghost n1 = num@;
            let current = self.read_digits(num);
            proof {
                assert(n1 == n0 + s.subrange(p0, pd));
                assert(s.subrange(p0, pd) + s.subrange(pd, self.pos as int) =~= s.subrange(
                    p0,
                    self.pos as int,
                ));
                assert(num@ =~= n0 + s.subrange(p0, self.pos as int));
            }
            (true, current)
        } else {
            proof {
                assert(num@ =~= n0 + s.subrange(p0, p0));
            }
            (true, current)
        }
    }

    /// Reads a number: an optional minus sign, an integer part, an optional
    /// fraction and an optional exponent.  The node keeps the number's text.
    fn parse_number(&mut self, node: &mut LeptValue) -> (r: ParseStatus)
        requires
            old(self).text().len() < usize::MAX,
            old(self).position() <= old(self).text().len(),
        ensures
            final(self).text() == old(self).text(),
            final(self).position() <= final(self).text().len() + 1,
            reports(
                scan_number(old(self).text(), old(self).position()),
                old(self).position(),
                r,
                *old(node),
                *final(node),
                final(self).position(),
                old(self).text().len() as int,
            ),
    {
        let ghost s = old(self).text();
        let ghost p0 = old(self).position();
        let mut num = String::new();
        let mut current = self.next();
        if current == Some('-') {
            current = self.take_char(&mut num, '-');
        } else {
            proof {
                assert(num@ =~= s.subrange(p0, p0));
            }
        }
        let ghost p1 = self.position();
        let (ok, current) = self.read_int_part(&mut num, current);
        if !ok {
            return ParseStatus::InvalidValue;
        }
        let ghost p2 = self.position();
        let (ok, current) = self.read_frac_part(&mut num, current);
        if !ok {
            return ParseStatus::InvalidValue;
        }
        let ghost p3 = self.position();
        let (ok, current) = self.read_exp_part(&mut num, current);
        if !ok {
            return ParseStatus::InvalidValue;
        }
        proof {
            assert(s.subrange(p0, p1) + s.subrange(p1, p2) + s.subrange(p2, p3) + s.subrange(
                p3,
                self.pos as int,
            ) =~= s.subrange(p0, self.pos as int));
            assert(num@ =~= s.subrange(p0, self.pos as int));
        }
        node.set(LeptValue::new_number(num));
        ParseStatus::Success
    }

    /// Reads a string value whose opening quote stands at the current place.
    fn parse_string(&mut self, node: &mut LeptValue) -> (r: ParseStatus)
        requires
            old(self).text().len() < usize::MAX,
            old(self).position() < old(self).text().len(),
            old(self).text()[old(self).position()] == '"',
        ensures
            final(self).text() == old(self).text(),
            final(self).position() == scan_string_body(
                old(self).text(),
                old(self).position() + 1,
                Seq::empty(),
            ).end,
            final(self).position() <= final(self).text().len() + 1,
            reports(
                scan_string(old(self).text(), old(self).position()),
                old(self).position(),
                r,
                *old(node),
                *final(node),
                final(self).position(),
                old(self).text().len() as int,
            ),
    {
        let mut result = String::new();
        let status = self.parse_raw_string(&mut result);
        proof {
            lemma_scan_string_body_end(old(self).text(), old(self).position() + 1, Seq::empty());
        }
        if status == ParseStatus::Success {
            node.set(LeptValue::new_string(result));
        }
        status
    }

    /// Reads the value that starts at the current place, chosen by its
    /// first character:
    /// `n` for null, `t` for true, `f` for false, `"` for a string,
    /// `[` for an array, `{` for an object, anything else for a number.
    fn parse_value(&mut self, node: &mut LeptValue) -> (r: ParseStatus)
        requires
            old(self).text().len() < usize::MAX,
            old(self).position() <= old(self).text().len(),
        ensures
            final(self).text() == old(self).text(),
            final(self).position() <= final(self).text().len() + 1,
            reports(
                scan_value(old(self).text(), old(self).position()),
                old(self).position(),
                r,
                *old(node),
                *final(node),
                final(self).position(),
                old(self).text().len() as int,
            ),
        decreases old(self).text().len() - old(self).position(), 2int,
    {
        if self.eof() {
            return ParseStatus::ExpectValue;
        }
        proof {
            reveal_strlit("null");
            reveal_strlit("true");
            reveal_strlit("false");
            assert("null"@ =~= seq!['n', 'u', 'l', 'l']);
            assert("true"@ =~= seq!['t', 'r', 'u', 'e']);
            assert("false"@ =~= seq!['f', 'a', 'l', 's', 'e']);
        }
        match self.next().unwrap() {
            'n' => self.parse_literal(node, "null", LeptValue::Null),
            't' => self.parse_literal(node, "true", LeptValue::new_bool(true)),
            'f' => self.parse_literal(node, "false", LeptValue::new_bool(false)),
            '"' => self.parse_string(node),
            '[' => self.parse_array(node),
            '{' => self.parse_object(node),
            _ => self.parse_number(node),
        }
    }

    /// Reads an array whose opening bracket stands at the current place.
    fn parse_array(&mut self, node: &mut LeptValue) -> (r: ParseStatus)
        requires
            old(self).text().len() < usize::MAX,
            old(self).position() < old(self).text().len(),
            old(self).text()[old(self).position()] == '[',
        ensures
            final(self).text() == old(self).text(),
            final(self).position() <= final(self).text().len() + 1,
            reports(
                scan_array(old(self).text(), old(self).position()),
                old(self).position(),
                r,
                *old(node),
                *final(node),
                final(self).position(),
                old(self).text().len() as int,
            ),
        decreases old(self).text().len() - old(self).position(), 1int,
    {
        let mut result: Vec<LeptValue> = Vec::new();
        proof {
            reveal_strlit("[");
            assert(self.text().subrange(self.position(), self.position() + 1) =~= "["@);
        }
        self.expect("[");
        self.parse_whitespace();
        match self.next() {
            Some(']') => {
                self.pos += 1;
                node.set_array(result);
                return ParseStatus::Success;
            },
            Some(_) => {},
            None => {
                return ParseStatus::MissCommaOrSquareBracket;
            },
        }
        proof {
            lemma_skip_whitespace_range(old(self).text(), old(self).position() + 1);
            assert(items_value(result@) =~= Seq::<JsonValue>::empty());
        }
        loop
            invariant
                self.text() == old(self).text(),
                self.text().len() < usize::MAX,
                old(self).position() < self.pos <= self.text().len(),
                scan_array(old(self).text(), old(self).position()) == scan_elements(
                    self.text(),
                    self.pos as int,
                    items_value(result@),
                ),
                items_well_formed(result@),
                *node == *old(node),
            decreases self.text().len() - self.pos,
        {
            let ghost q = self.position();
            let mut value = LeptValue::default();
            let status = self.parse_value(&mut value);
            if status != ParseStatus::Success {
                return status;
            }
            proof {
                lemma_items_push(result@, value);
            }
            result.push(value);
            self.parse_whitespace();
            let ghost t = self.position();
            let current = self.next();
            self.pos += 1;
            match current {
                Some(',') => {
                    self.parse_whitespace();
                    proof {
                        lemma_skip_whitespace_range(self.text(), t + 1);
                    }
                },
                Some(']') => {
                    node.set_array(result);
                    return ParseStatus::Success;
                },
                _ => {
                    return ParseStatus::MissCommaOrSquareBracket;
                },
            }
        }
    }

    /// Reads an object whose opening brace stands at the current place.
    fn parse_object(&mut self, node: &mut LeptValue) -> (r: ParseStatus)
        requires
            old(self).text().len() < usize::MAX,
            old(self).position() < old(self).text().len(),
            old(self).text()[old(self).position()] == '{',
        ensures
            final(self).text() == old(self).text(),
            final(self).position() <= final(self).text().len() + 1,
            reports(
                scan_object(old(self).text(), old(self).position()),
                old(self).position(),
                r,
                *old(node),
                *final(node),
                final(self).position(),
                old(self).text().len() as int,
            ),
        decreases old(self).text().len() - old(self).position(), 1int,
    {
        let mut result: Vec<(String, LeptValue)> = Vec::new();
        proof {
            reveal_strlit("{");
            assert(self.text().subrange(self.position(), self.position() + 1) =~= "{"@);
        }
        self.expect("{");
        self.parse_whitespace();
        match self.next() {
            Some('}') => {
                self.pos += 1;
                node.set_object(result);
                return ParseStatus::Success;
            },
            Some(_) => {},
            None => {
                return ParseStatus::MissCommaOrCurlyBracket;
            },
        }
        proof {
            lemma_skip_whitespace_range(old(self).text(), old(self).position() + 1);
            assert(entries_value(result@) =~= Map::<Seq<char>, JsonValue>::empty());
        }
        loop
            invariant
                self.text() == old(self).text(),
                self.text().len() < usize::MAX,
                old(self).position() < self.pos <= self.text().len(),
                scan_object(old(self).text(), old(self).position()) == scan_members(
                    self.text(),
                    self.pos as int,
                    entries_value(result@),
                ),
                keys_sorted(result@),
                entries_well_formed(result@),
                *node == *old(node),
            decreases self.text().len() - self.pos,
        {
            let ghost q = self.position();
            let mut key = String::new();
            self.parse_whitespace();
            let ghost k = self.position();
            match self.next() {
                Some('"') => {
                    let status = self.parse_raw_string(&mut key);
                    if status != ParseStatus::Success {
                        return status;
                    }
                },
                _ => {
                    return ParseStatus::MissKey;
                },
            }
            proof {
                lemma_skip_whitespace_range(self.text(), q);
                lemma_scan_string_body_end(self.text(), k + 1, Seq::empty());
            }
            self.parse_whitespace();
            match self.next() {
                Some(':') => {
                    self.pos += 1;
                },
                _ => {
                    return ParseStatus::MissColon;
                },
            }
            let mut value = LeptValue::default();
            self.parse_whitespace();
            let status = self.parse_value(&mut value);
            if status != ParseStatus::Success {
                return status;
            }
            insert_member(&mut result, key, value);
            self.parse_whitespace();
            let ghost t = self.position();
            let current = self.next();
            self.pos += 1;
            match current {
                Some(',') => {
                    self.parse_whitespace();
                    proof {
                        lemma_skip_whitespace_range(self.text(), t + 1);
                    }
                },
                Some('}') => {
                    node.set_object(result);
                    return ParseStatus::Success;
                },
                _ => {
                    return ParseStatus::MissCommaOrCurlyBracket;
                },
            }
        }
    }
}

/// The key `a` comes before the key `b`.
fn key_before(a: &String, b: &String) -> (r: bool)
    ensures
        r == key_less(a@, b@),
{
    let av = chars_of(a.as_str());
    let bv = chars_of(b.as_str());
    let mut i: usize = 0;
    proof {
        assert(a@.skip(0) =~= a@);
        assert(b@.skip(0) =~= b@);
    }
    while i < av.len() && i < bv.len()
        invariant
            av@ == a@,
            bv@ == b@,
            i <= av@.len(),
            i <= bv@.len(),
            key_less(a@, b@) == key_less(a@.skip(i as int), b@.skip(i as int)),
        decreases av@.len() - i,
    {
        if av[i] != bv[i] {
            proof {
                assert(a@.skip(i as int)[0] == av@[i as int]);
                assert(b@.skip(i as int)[0] == bv@[i as int]);
            }
            return av[i] < bv[i];
        }
        proof {
            assert(a@.skip(i as int).drop_first() =~= a@.skip(i + 1));
            assert(b@.skip(i as int).drop_first() =~= b@.skip(i + 1));
        }
        i += 1;
    }
    i == av.len() && i < bv.len()
}

/// Puts a member into a list that stands in the order of its keys: the
/// value of the member with the same key is replaced, or else the member
/// goes in before the first member whose key comes after its own.
fn insert_member(entries: &mut Vec<(String, LeptValue)>, key: String, value: LeptValue)
    requires
        keys_sorted(old(entries)@),
    ensures
        entries_value(final(entries)@) == entries_value(old(entries)@).insert(key@, value@),
        keys_sorted(final(entries)@),
        entries_well_formed(old(entries)@) && well_formed(value) ==> entries_well_formed(
            final(entries)@,
        ),
{
    let mut i: usize = 0;
    while i < entries.len()
        invariant
            entries@ == old(entries)@,
            keys_sorted(entries@),
            i <= entries@.len(),
            forall|j: int| 0 <= j < i ==> key_less(#[trigger] entries@[j].0@, key@),
        decreases entries@.len() - i,
    {
        if entries[i].0 == key {
            proof {
                lemma_sorted_distinct(entries@);
                lemma_entries_replace(entries@, i as int, key, value);
                let updated = entries@.update(i as int, (key, value));
                assert forall|a: int, b: int| 0 <= a < b < updated.len() implies key_less(
                    #[trigger] updated[a].0@,
                    #[trigger] updated[b].0@,
                ) by {
                    assert(key_less(entries@[a].0@, entries@[b].0@));
                }
            }
            entries.set(i, (key, value));
            return;
        }
        if key_before(&key, &entries[i].0) {
            proof {
                let s = entries@;
                let x = (key, value);
                let n = s.len();
                assert forall|m: int| i <= m < n implies key_less(key@, #[trigger] s[m].0@) by {
                    if m > i {
                        assert(key_less(s[i as int].0@, s[m].0@));
                        lemma_key_less_transitive(key@, s[i as int].0@, s[m].0@);
                    }
                }
                assert forall|j: int| 0 <= j < n implies #[trigger] s[j].0@ != key@ by {
                    lemma_key_less_irreflexive(key@);
                    if j < i {
                        assert(key_less(s[j].0@, key@));
                    } else {
                        assert(key_less(key@, s[j].0@));
                    }
                }
                lemma_entries_insert(s, i as int, key, value);
                let t = s.insert(i as int, x);
                s.insert_ensures(i as int, x);
                assert forall|a: int, b: int| 0 <= a < b < t.len() implies key_less(
                    #[trigger] t[a].0@,
                    #[trigger] t[b].0@,
                ) by {
                    if b < i {
                        assert(key_less(s[a].0@, s[b].0@));
                    } else if b == i {
                        assert(key_less(s[a].0@, key@));
                    } else if a < i {
                        assert(t[b] == s[b - 1]);
                        assert(key_less(s[a].0@, key@));
                        assert(key_less(key@, s[b - 1].0@));
                        lemma_key_less_transitive(s[a].0@, key@, s[b - 1].0@);
                    } else if a == i {
                        assert(t[b] == s[b - 1]);
                    } else {
                        assert(t[a] == s[a - 1]);
                        assert(t[b] == s[b - 1]);
                        assert(key_less(s[a - 1].0@, s[b - 1].0@));
                    }
                }
            }
            entries.insert(i, (key, value));
            return;
        }
        proof {
            lemma_key_less_total(key@, entries@[i as int].0@);
        }
        i += 1;
    }
    proof {
        let s = entries@;
        assert forall|j: int| 0 <= j < s.len() implies #[trigger] s[j].0@ != key@ by {
            lemma_key_less_irreflexive(key@);
            assert(key_less(s[j].0@, key@));
        }
        lemma_entries_insert(s, s.len() as int, key, value);
        assert(s.insert(s.len() as int, (key, value)) =~= s.push((key, value)));
        let t = s.push((key, value));
        assert forall|a: int, b: int| 0 <= a < b < t.len() implies key_less(
            #[trigger] t[a].0@,
            #[trigger] t[b].0@,
        ) by {
            if b < s.len() {
                assert(key_less(s[a].0@, s[b].0@));
            } else {
                assert(key_less(s[a].0@, key@));
            }
        }
    }
    entries.push((key, value));
}

} // verus!
