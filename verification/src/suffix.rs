//! What whitespace put after a text changes in its reading: nothing, but
//! for a string that runs to the end of the text, which reads on into that
//! whitespace.
use vstd::prelude::*;
use crate::grammar::{
    digits_end, escape_char, frac_part_end, int_part_end, is_high_surrogate, lemma_digits_end,
    lemma_scan_hex, lemma_scan_string_body_end, lemma_scan_value_fits,
    lemma_skip_whitespace_range, number_end, pair_code, scan_array, scan_elements, scan_hex,
    scan_member_value, scan_members, scan_object, scan_string_body, scan_value, sign_end,
    skip_whitespace, starts_with_at, HexScan, ValueScan,
};
use crate::node::JsonValue;
use crate::parser::ParseStatus;
use crate::text::spec_is_whitespace;

verus! {

/// `t` is `s` with whitespace put after it.
pub open spec fn blank_after(s: Seq<char>, t: Seq<char>) -> bool {
    &&& s.len() <= t.len()
    &&& forall|i: int| 0 <= i < s.len() ==> t[i] == #[trigger] s[i]
    &&& forall|i: int| s.len() <= i < t.len() ==> spec_is_whitespace(#[trigger] t[i])
}

/// No character that `t` holds after the end of `s` is a control character.
pub open spec fn plain_after(s: Seq<char>, t: Seq<char>) -> bool {
    forall|i: int| s.len() <= i < t.len() ==> (#[trigger] t[i] as u32) >= 0x20
}

/// A place of `s`, as a place of `t`: the same place within `s`, the end
/// of `t` at the end of `s`.
pub open spec fn place_in(s: Seq<char>, t: Seq<char>, q: int) -> int {
    if q < s.len() {
        q
    } else {
        t.len() as int
    }
}

/// `ot`, read from `t`, is what `o`, read from `s`, gives: the same value,
/// ending at the same place, or the same error, but for a string that runs
/// to the end of `s` where a control character follows it in `t`.
pub open spec fn reads_on(o: ValueScan, ot: ValueScan, plain: bool) -> bool {
    match o {
        ValueScan::Parsed(v, q) => ot == ValueScan::Parsed(v, q),
        ValueScan::Failed(st) => (st != ParseStatus::MissingQuotationMark || plain) ==> ot
            == ValueScan::Failed(st),
    }
}

proof fn lemma_blank_to_end(t: Seq<char>, p: int)
    requires
        0 <= p <= t.len(),
        forall|i: int| p <= i < t.len() ==> spec_is_whitespace(#[trigger] t[i]),
    ensures
        skip_whitespace(t, p) == t.len(),
    decreases t.len() - p,
{
    if p < t.len() {
        assert(spec_is_whitespace(t[p]));
        lemma_blank_to_end(t, p + 1);
    }
}

pub proof fn lemma_skip_ext(s: Seq<char>, t: Seq<char>, p: int)
    requires
        blank_after(s, t),
        0 <= p <= s.len(),
    ensures
        skip_whitespace(t, p) == place_in(s, t, skip_whitespace(s, p)),
    decreases s.len() - p,
{
    if p < s.len() {
        assert(t[p] == s[p]);
        lemma_skip_ext(s, t, p + 1);
    } else {
        lemma_blank_to_end(t, p);
    }
}

proof fn lemma_digits_ext(s: Seq<char>, t: Seq<char>, p: int)
    requires
        blank_after(s, t),
        0 <= p <= s.len(),
    ensures
        digits_end(t, p) == digits_end(s, p),
    decreases s.len() - p,
{
    if p < s.len() {
        assert(t[p] == s[p]);
        lemma_digits_ext(s, t, p + 1);
    } else if p < t.len() {
        assert(spec_is_whitespace(t[p]));
    }
}

/// What stands at `x` in `t`: the character of `s`, or whitespace.
proof fn lemma_at(s: Seq<char>, t: Seq<char>, x: int)
    requires
        blank_after(s, t),
        0 <= x,
    ensures
        x < s.len() ==> t[x] == s[x],
        s.len() <= x < t.len() ==> spec_is_whitespace(t[x]),
{
    if x < s.len() {
        assert(t[x] == s[x]);
    } else if x < t.len() {
        assert(spec_is_whitespace(t[x]));
    }
}

proof fn lemma_number_ext(s: Seq<char>, t: Seq<char>, p: int)
    requires
        blank_after(s, t),
        0 <= p <= s.len(),
    ensures
        number_end(t, p) == number_end(s, p),
{
    lemma_at(s, t, p);
    let a = sign_end(s, p);
    assert(sign_end(t, p) == a);
    lemma_at(s, t, a);
    if a < s.len() {
        lemma_digits_ext(s, t, a);
    }
    if let Some(b) = int_part_end(s, a) {
        lemma_digits_end(s, a);
        assert(int_part_end(t, a) == Some(b));
        lemma_at(s, t, b);
        lemma_at(s, t, b + 1);
        if b + 1 <= s.len() {
            lemma_digits_ext(s, t, b + 1);
        }
        if let Some(c) = frac_part_end(s, b) {
            lemma_digits_end(s, b + 1);
            assert(frac_part_end(t, b) == Some(c));
            lemma_at(s, t, c);
            lemma_at(s, t, c + 1);
            lemma_at(s, t, c + 2);
            if c + 1 <= s.len() {
                lemma_digits_ext(s, t, c + 1);
            }
            if c + 2 <= s.len() {
                lemma_digits_ext(s, t, c + 2);
            }
        } else {
            assert(frac_part_end(t, b) is None);
        }
    } else {
        assert(int_part_end(t, a) is None);
    }
}

proof fn lemma_hex_ext(s: Seq<char>, t: Seq<char>, p: int, i: int, acc: nat)
    requires
        blank_after(s, t),
        0 <= p,
        0 <= i,
    ensures
        scan_hex(t, p, i, acc) == scan_hex(s, p, i, acc),
    decreases 4 - i,
{
    if i < 4 {
        lemma_at(s, t, p + i);
        if p + i < s.len() {
            lemma_hex_ext(s, t, p, i + 1, acc * 16 + crate::text::hex_digit_value(s[p + i]));
        }
    }
}

/// A string body that runs over whitespace without control characters to
/// the end of the text lacks its closing quotation mark.
proof fn lemma_plain_tail(t: Seq<char>, p: int, acc: Seq<char>)
    requires
        0 <= p,
        forall|i: int| p <= i < t.len() ==> spec_is_whitespace(#[trigger] t[i]),
        forall|i: int| p <= i < t.len() ==> (#[trigger] t[i] as u32) >= 0x20,
    ensures
        scan_string_body(t, p, acc).status == ParseStatus::MissingQuotationMark,
    decreases t.len() - p,
{
    if p < t.len() {
        assert(spec_is_whitespace(t[p]));
        assert((t[p] as u32) >= 0x20);
        lemma_plain_tail(t, p + 1, acc.push(t[p]));
    }
}

/// A string body reads alike in `t`, but for one that runs to the end of
/// `s`.
pub proof fn lemma_string_body_ext(s: Seq<char>, t: Seq<char>, p: int, acc: Seq<char>)
    requires
        blank_after(s, t),
        0 <= p,
    ensures
        scan_string_body(s, p, acc).status != ParseStatus::MissingQuotationMark
            ==> scan_string_body(t, p, acc) == scan_string_body(s, p, acc),
        plain_after(s, t) ==> scan_string_body(t, p, acc).status == scan_string_body(
            s,
            p,
            acc,
        ).status,
    decreases s.len() - p,
{
    if p < s.len() {
        let c = s[p];
        assert(t[p] == s[p]);
        if c == '\\' {
            lemma_at(s, t, p + 1);
            if p + 1 < s.len() {
                let e = s[p + 1];
                match escape_char(e) {
                    Some(d) => lemma_string_body_ext(s, t, p + 2, acc.push(d)),
                    None => if e == 'u' {
                        lemma_hex_ext(s, t, p + 2, 0, 0);
                        lemma_scan_hex(s, p + 2, 0, 0);
                        if let HexScan::Code(n) = scan_hex(s, p + 2, 0, 0) {
                            let f = p + 6;
                            lemma_at(s, t, f);
                            lemma_at(s, t, f + 1);
                            if is_high_surrogate(n) {
                                lemma_hex_ext(s, t, f + 2, 0, 0);
                                lemma_scan_hex(s, f + 2, 0, 0);
                                if let HexScan::Code(m) = scan_hex(s, f + 2, 0, 0) {
                                    if f + 6 <= s.len() {
                                        lemma_string_body_ext(
                                            s,
                                            t,
                                            f + 6,
                                            acc.push(pair_code(n, m) as char),
                                        );
                                    }
                                }
                            } else {
                                lemma_string_body_ext(s, t, p + 6, acc.push(n as char));
                            }
                        }
                    },
                }
            }
        } else if c != '"' && !((c as u32) < 0x20) {
            lemma_string_body_ext(s, t, p + 1, acc.push(c));
        }
    } else {
        if plain_after(s, t) {
            lemma_plain_tail(t, p, acc);
        }
    }
}

proof fn lemma_literal_ext(s: Seq<char>, t: Seq<char>, p: int, lit: Seq<char>)
    requires
        blank_after(s, t),
        0 <= p < s.len(),
        forall|j: int| 0 <= j < lit.len() ==> !spec_is_whitespace(#[trigger] lit[j]),
    ensures
        starts_with_at(t, p, lit) == starts_with_at(s, p, lit),
{
    if p + lit.len() <= s.len() {
        assert(t.subrange(p, p + lit.len()) =~= s.subrange(p, p + lit.len()));
    } else if starts_with_at(t, p, lit) {
        let j = s.len() - p;
        assert(t.subrange(p, p + lit.len())[j] == t[s.len() as int]);
        assert(spec_is_whitespace(t[s.len() as int]));
        assert(!spec_is_whitespace(lit[j]));
    }
}

/// A value reads alike in `t`, but for a string that runs to the end of
/// `s`.
pub proof fn lemma_value_ext(s: Seq<char>, t: Seq<char>, p: int)
    requires
        blank_after(s, t),
        0 <= p < s.len(),
    ensures
        reads_on(scan_value(s, p), scan_value(t, p), plain_after(s, t)),
    decreases s.len() - p, 2int,
{
    let c = s[p];
    assert(t[p] == s[p]);
    if c == 'n' || c == 't' || c == 'f' {
        let lit = if c == 'n' {
            seq!['n', 'u', 'l', 'l']
        } else if c == 't' {
            seq!['t', 'r', 'u', 'e']
        } else {
            seq!['f', 'a', 'l', 's', 'e']
        };
        lemma_literal_ext(s, t, p, lit);
    } else if c == '"' {
        lemma_string_body_ext(s, t, p + 1, Seq::empty());
    } else if c == '[' {
        lemma_array_ext(s, t, p);
    } else if c == '{' {
        lemma_object_ext(s, t, p);
    } else {
        lemma_number_ext(s, t, p);
        lemma_number_end_within(s, p);
        if let Some(q) = number_end(s, p) {
            assert(t.subrange(p, q) =~= s.subrange(p, q));
        }
    }
}

proof fn lemma_number_end_within(s: Seq<char>, p: int)
    requires
        0 <= p,
    ensures
        number_end(s, p) matches Some(q) ==> p < q <= s.len(),
{
    crate::grammar::lemma_number_end(s, p);
}

proof fn lemma_array_ext(s: Seq<char>, t: Seq<char>, p: int)
    requires
        blank_after(s, t),
        0 <= p < s.len(),
    ensures
        reads_on(scan_array(s, p), scan_array(t, p), plain_after(s, t)),
    decreases s.len() - p, 1int,
{
    lemma_skip_whitespace_range(s, p + 1);
    lemma_skip_ext(s, t, p + 1);
    let q0 = skip_whitespace(s, p + 1);
    if q0 < s.len() {
        assert(t[q0] == s[q0]);
        if s[q0] != ']' {
            lemma_elements_ext(s, t, q0, Seq::empty());
        }
    }
}

proof fn lemma_elements_ext(s: Seq<char>, t: Seq<char>, q: int, acc: Seq<JsonValue>)
    requires
        blank_after(s, t),
        0 <= q <= s.len(),
    ensures
        reads_on(
            scan_elements(s, q, acc),
            scan_elements(t, place_in(s, t, q), acc),
            plain_after(s, t),
        ),
    decreases s.len() - q, 3int,
{
    if q < s.len() {
        lemma_value_ext(s, t, q);
        if let ValueScan::Parsed(v, r) = scan_value(s, q) {
            lemma_scan_value_fits(s, q);
            lemma_skip_whitespace_range(s, r);
            lemma_skip_ext(s, t, r);
            let t1 = skip_whitespace(s, r);
            if t1 < s.len() {
                assert(t[t1] == s[t1]);
                if s[t1] == ',' {
                    lemma_skip_whitespace_range(s, t1 + 1);
                    lemma_skip_ext(s, t, t1 + 1);
                    let u = skip_whitespace(s, t1 + 1);
                    lemma_elements_ext(s, t, u, acc.push(v));
                }
            }
        }
    } else {
        assert(scan_value(t, t.len() as int) == ValueScan::Failed(ParseStatus::ExpectValue));
    }
}

proof fn lemma_object_ext(s: Seq<char>, t: Seq<char>, p: int)
    requires
        blank_after(s, t),
        0 <= p < s.len(),
    ensures
        reads_on(scan_object(s, p), scan_object(t, p), plain_after(s, t)),
    decreases s.len() - p, 1int,
{
    lemma_skip_whitespace_range(s, p + 1);
    lemma_skip_ext(s, t, p + 1);
    let q0 = skip_whitespace(s, p + 1);
    if q0 < s.len() {
        assert(t[q0] == s[q0]);
        if s[q0] != '}' {
            lemma_members_ext(s, t, q0, Map::empty());
        }
    }
}

proof fn lemma_members_ext(s: Seq<char>, t: Seq<char>, q: int, acc: Map<Seq<char>, JsonValue>)
    requires
        blank_after(s, t),
        0 <= q <= s.len(),
    ensures
        reads_on(
            scan_members(s, q, acc),
            scan_members(t, place_in(s, t, q), acc),
            plain_after(s, t),
        ),
    decreases s.len() - q, 3int,
{
    lemma_skip_whitespace_range(s, q);
    lemma_skip_ext(s, t, q);
    let k0 = skip_whitespace(s, q);
    if k0 < s.len() {
        assert(t[k0] == s[k0]);
        if s[k0] == '"' {
            lemma_string_body_ext(s, t, k0 + 1, Seq::empty());
            lemma_scan_string_body_end(s, k0 + 1, Seq::empty());
            let key = scan_string_body(s, k0 + 1, Seq::empty());
            if key.status == ParseStatus::Success {
                lemma_skip_whitespace_range(s, key.end);
                lemma_skip_ext(s, t, key.end);
                let c = skip_whitespace(s, key.end);
                if c < s.len() {
                    assert(t[c] == s[c]);
                    if s[c] == ':' {
                        lemma_skip_whitespace_range(s, c + 1);
                        lemma_skip_ext(s, t, c + 1);
                        let v0 = skip_whitespace(s, c + 1);
                        lemma_member_value_ext(s, t, v0, key.chars, acc);
                    }
                }
            }
        }
    }
}

proof fn lemma_member_value_ext(
    s: Seq<char>,
    t: Seq<char>,
    v0: int,
    key: Seq<char>,
    acc: Map<Seq<char>, JsonValue>,
)
    requires
        blank_after(s, t),
        0 <= v0 <= s.len(),
    ensures
        reads_on(
            scan_member_value(s, v0, key, acc),
            scan_member_value(t, place_in(s, t, v0), key, acc),
            plain_after(s, t),
        ),
    decreases s.len() - v0, 3int,
{
    if v0 < s.len() {
        lemma_value_ext(s, t, v0);
        if let ValueScan::Parsed(v, r) = scan_value(s, v0) {
            lemma_scan_value_fits(s, v0);
            lemma_skip_whitespace_range(s, r);
            lemma_skip_ext(s, t, r);
            let t1 = skip_whitespace(s, r);
            if t1 < s.len() {
                assert(t[t1] == s[t1]);
                if s[t1] == ',' {
                    lemma_skip_whitespace_range(s, t1 + 1);
                    lemma_skip_ext(s, t, t1 + 1);
                    let u = skip_whitespace(s, t1 + 1);
                    if u > v0 {
                        lemma_members_ext(s, t, u, acc.insert(key, v));
                    }
                }
            }
        }
    } else {
        assert(scan_value(t, t.len() as int) == ValueScan::Failed(ParseStatus::ExpectValue));
    }
}

} // verus!
