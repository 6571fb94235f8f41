//! What characters put before a text change in its reading: nothing but
//! the places, which all move by as many characters.
use vstd::prelude::*;
use crate::grammar::{
    digits_end, escape_char, frac_part_end, int_part_end, is_high_surrogate, lemma_digits_end,
    lemma_number_end, lemma_scan_hex, lemma_scan_string_body_end, lemma_scan_value_fits,
    lemma_skip_whitespace_range, number_end, pair_code, scan_array, scan_elements, scan_hex,
    scan_member_value, scan_members, scan_object, scan_string_body, scan_value, sign_end,
    skip_whitespace, str_done, HexScan, ValueScan,
};
use crate::node::JsonValue;
use crate::parser::ParseStatus;

verus! {

/// `t` is `s` with `k` characters put before it.
pub open spec fn ends_with(s: Seq<char>, t: Seq<char>, k: int) -> bool {
    &&& 0 <= k
    &&& t.len() == s.len() + k
    &&& forall|i: int| 0 <= i < s.len() ==> t[i + k] == #[trigger] s[i]
}

/// An outcome of reading `s`, as read from `t`, in which everything
/// stands `k` places later: a value ends `k` places later, an error is the
/// same.
pub open spec fn shifted(o: ValueScan, k: int) -> ValueScan {
    match o {
        ValueScan::Parsed(v, q) => ValueScan::Parsed(v, q + k),
        ValueScan::Failed(st) => ValueScan::Failed(st),
    }
}

pub open spec fn shifted_hex(o: HexScan, k: int) -> HexScan {
    match o {
        HexScan::Code(n) => HexScan::Code(n),
        HexScan::Stop(q) => HexScan::Stop(q + k),
    }
}

pub proof fn lemma_skip_shift(s: Seq<char>, t: Seq<char>, k: int, p: int)
    requires
        ends_with(s, t, k),
        0 <= p,
    ensures
        skip_whitespace(t, p + k) == skip_whitespace(s, p) + k,
    decreases s.len() - p,
{
    if p < s.len() {
        assert(t[p + k] == s[p]);
        lemma_skip_shift(s, t, k, p + 1);
    }
}

proof fn lemma_digits_shift(s: Seq<char>, t: Seq<char>, k: int, p: int)
    requires
        ends_with(s, t, k),
        0 <= p,
    ensures
        digits_end(t, p + k) == digits_end(s, p) + k,
    decreases s.len() - p,
{
    if p < s.len() {
        assert(t[p + k] == s[p]);
        lemma_digits_shift(s, t, k, p + 1);
    }
}

pub proof fn lemma_number_shift(s: Seq<char>, t: Seq<char>, k: int, p: int)
    requires
        ends_with(s, t, k),
        0 <= p,
    ensures
        number_end(t, p + k) == (match number_end(s, p) {
            Some(q) => Some(q + k),
            None => None,
        }),
{
    let a = sign_end(s, p);
    if p < s.len() {
        assert(t[p + k] == s[p]);
    }
    assert(sign_end(t, p + k) == a + k);
    if a < s.len() {
        assert(t[a + k] == s[a]);
    }
    lemma_digits_shift(s, t, k, a);
    lemma_digits_end(s, a);
    if let Some(b) = int_part_end(s, a) {
        assert(int_part_end(t, a + k) == Some(b + k));
        if b < s.len() {
            assert(t[b + k] == s[b]);
        }
        if b + 1 < s.len() {
            assert(t[b + 1 + k] == s[b + 1]);
        }
        lemma_digits_shift(s, t, k, b + 1);
        lemma_digits_end(s, b + 1);
        if let Some(c) = frac_part_end(s, b) {
            assert(frac_part_end(t, b + k) == Some(c + k));
            if c < s.len() {
                assert(t[c + k] == s[c]);
            }
            if c + 1 < s.len() {
                assert(t[c + 1 + k] == s[c + 1]);
            }
            if c + 2 < s.len() {
                assert(t[c + 2 + k] == s[c + 2]);
            }
            lemma_digits_shift(s, t, k, c + 1);
            lemma_digits_shift(s, t, k, c + 2);
        } else {
            assert(frac_part_end(t, b + k) is None);
        }
    } else {
        assert(int_part_end(t, a + k) is None);
    }
}

proof fn lemma_hex_shift(s: Seq<char>, t: Seq<char>, k: int, p: int, i: int, acc: nat)
    requires
        ends_with(s, t, k),
        0 <= p,
        0 <= i,
    ensures
        scan_hex(t, p + k, i, acc) == shifted_hex(scan_hex(s, p, i, acc), k),
    decreases 4 - i,
{
    if i < 4 {
        if p + i < s.len() {
            assert(t[p + i + k] == s[p + i]);
            lemma_hex_shift(s, t, k, p, i + 1, acc * 16 + crate::text::hex_digit_value(s[p + i]));
        }
    }
}

proof fn lemma_string_body_shift(s: Seq<char>, t: Seq<char>, k: int, p: int, acc: Seq<char>)
    requires
        ends_with(s, t, k),
        0 <= p,
    ensures
        scan_string_body(t, p + k, acc) == str_done(
            scan_string_body(s, p, acc).status,
            scan_string_body(s, p, acc).chars,
            scan_string_body(s, p, acc).end + k,
        ),
    decreases s.len() - p,
{
    if p < s.len() {
        let c = s[p];
        assert(t[p + k] == s[p]);
        if c == '\\' && p + 1 < s.len() {
            let e = s[p + 1];
            assert(t[p + 1 + k] == s[p + 1]);
            match escape_char(e) {
                Some(d) => lemma_string_body_shift(s, t, k, p + 2, acc.push(d)),
                None => if e == 'u' {
                    lemma_hex_shift(s, t, k, p + 2, 0, 0);
                    lemma_scan_hex(s, p + 2, 0, 0);
                    if let HexScan::Code(n) = scan_hex(s, p + 2, 0, 0) {
                        let f = p + 6;
                        if is_high_surrogate(n) {
                            if f < s.len() {
                                assert(t[f + k] == s[f]);
                            }
                            if f + 1 < s.len() {
                                assert(t[f + 1 + k] == s[f + 1]);
                            }
                            lemma_hex_shift(s, t, k, f + 2, 0, 0);
                            lemma_scan_hex(s, f + 2, 0, 0);
                            if let HexScan::Code(m) = scan_hex(s, f + 2, 0, 0) {
                                lemma_string_body_shift(
                                    s,
                                    t,
                                    k,
                                    f + 6,
                                    acc.push(pair_code(n, m) as char),
                                );
                            }
                        } else {
                            lemma_string_body_shift(s, t, k, p + 6, acc.push(n as char));
                        }
                    }
                },
            }
        } else if c != '"' && c != '\\' {
            lemma_string_body_shift(s, t, k, p + 1, acc.push(c));
        }
    }
}

/// The reading of a value does not depend on what stands before it: in a
/// text with characters put before it, it gives the same value, ending as
/// many places later, or the same error.
pub proof fn lemma_value_shift(s: Seq<char>, t: Seq<char>, k: int, p: int)
    requires
        ends_with(s, t, k),
        0 <= p,
    ensures
        scan_value(t, p + k) == shifted(scan_value(s, p), k),
    decreases s.len() - p, 2int,
{
    if p < s.len() {
        let c = s[p];
        assert(t[p + k] == s[p]);
        if c == 'n' || c == 't' || c == 'f' {
            let lit = if c == 'n' {
                seq!['n', 'u', 'l', 'l']
            } else if c == 't' {
                seq!['t', 'r', 'u', 'e']
            } else {
                seq!['f', 'a', 'l', 's', 'e']
            };
            if p + lit.len() <= s.len() {
                assert(t.subrange(p + k, p + k + lit.len()) =~= s.subrange(p, p + lit.len()));
            }
        } else if c == '"' {
            lemma_string_body_shift(s, t, k, p + 1, Seq::empty());
        } else if c == '[' {
            lemma_array_shift(s, t, k, p);
        } else if c == '{' {
            lemma_object_shift(s, t, k, p);
        } else {
            lemma_number_shift(s, t, k, p);
            lemma_number_end(s, p);
            if let Some(q) = number_end(s, p) {
                assert(t.subrange(p + k, q + k) =~= s.subrange(p, q));
            }
        }
    }
}

proof fn lemma_array_shift(s: Seq<char>, t: Seq<char>, k: int, p: int)
    requires
        ends_with(s, t, k),
        0 <= p < s.len(),
    ensures
        scan_array(t, p + k) == shifted(scan_array(s, p), k),
    decreases s.len() - p, 1int,
{
    lemma_skip_whitespace_range(s, p + 1);
    lemma_skip_shift(s, t, k, p + 1);
    let q0 = skip_whitespace(s, p + 1);
    if q0 < s.len() {
        assert(t[q0 + k] == s[q0]);
        if s[q0] != ']' {
            lemma_elements_shift(s, t, k, q0, Seq::empty());
        }
    }
}

proof fn lemma_elements_shift(s: Seq<char>, t: Seq<char>, k: int, q: int, acc: Seq<JsonValue>)
    requires
        ends_with(s, t, k),
        0 <= q <= s.len(),
    ensures
        scan_elements(t, q + k, acc) == shifted(scan_elements(s, q, acc), k),
    decreases s.len() - q, 3int,
{
    lemma_value_shift(s, t, k, q);
    if let ValueScan::Parsed(v, r) = scan_value(s, q) {
        lemma_scan_value_fits(s, q);
        lemma_skip_whitespace_range(s, r);
        lemma_skip_shift(s, t, k, r);
        let t1 = skip_whitespace(s, r);
        if t1 < s.len() {
            assert(t[t1 + k] == s[t1]);
            if s[t1] == ',' {
                lemma_skip_whitespace_range(s, t1 + 1);
                lemma_skip_shift(s, t, k, t1 + 1);
                let u = skip_whitespace(s, t1 + 1);
                if u > q {
                    lemma_elements_shift(s, t, k, u, acc.push(v));
                }
            }
        }
    }
}

proof fn lemma_object_shift(s: Seq<char>, t: Seq<char>, k: int, p: int)
    requires
        ends_with(s, t, k),
        0 <= p < s.len(),
    ensures
        scan_object(t, p + k) == shifted(scan_object(s, p), k),
    decreases s.len() - p, 1int,
{
    lemma_skip_whitespace_range(s, p + 1);
    lemma_skip_shift(s, t, k, p + 1);
    let q0 = skip_whitespace(s, p + 1);
    if q0 < s.len() {
        assert(t[q0 + k] == s[q0]);
        if s[q0] != '}' {
            lemma_members_shift(s, t, k, q0, Map::empty());
        }
    }
}

proof fn lemma_members_shift(
    s: Seq<char>,
    t: Seq<char>,
    k: int,
    q: int,
    acc: Map<Seq<char>, JsonValue>,
)
    requires
        ends_with(s, t, k),
        0 <= q <= s.len(),
    ensures
        scan_members(t, q + k, acc) == shifted(scan_members(s, q, acc), k),
    decreases s.len() - q, 3int,
{
    lemma_skip_whitespace_range(s, q);
    lemma_skip_shift(s, t, k, q);
    let k0 = skip_whitespace(s, q);
    if k0 < s.len() {
        assert(t[k0 + k] == s[k0]);
        if s[k0] == '"' {
            lemma_string_body_shift(s, t, k, k0 + 1, Seq::empty());
            lemma_scan_string_body_end(s, k0 + 1, Seq::empty());
            let key = scan_string_body(s, k0 + 1, Seq::empty());
            if key.status == ParseStatus::Success {
                lemma_skip_whitespace_range(s, key.end);
                lemma_skip_shift(s, t, k, key.end);
                let c = skip_whitespace(s, key.end);
                if c < s.len() {
                    assert(t[c + k] == s[c]);
                    if s[c] == ':' {
                        lemma_skip_whitespace_range(s, c + 1);
                        lemma_skip_shift(s, t, k, c + 1);
                        let v0 = skip_whitespace(s, c + 1);
                        lemma_member_value_shift(s, t, k, v0, key.chars, acc);
                    }
                }
            }
        }
    }
}

proof fn lemma_member_value_shift(
    s: Seq<char>,
    t: Seq<char>,
    k: int,
    v0: int,
    key: Seq<char>,
    acc: Map<Seq<char>, JsonValue>,
)
    requires
        ends_with(s, t, k),
        0 <= v0 <= s.len(),
    ensures
        scan_member_value(t, v0 + k, key, acc) == shifted(scan_member_value(s, v0, key, acc), k),
    decreases s.len() - v0, 3int,
{
    lemma_value_shift(s, t, k, v0);
    if let ValueScan::Parsed(v, r) = scan_value(s, v0) {
        lemma_scan_value_fits(s, v0);
        lemma_skip_whitespace_range(s, r);
        lemma_skip_shift(s, t, k, r);
        let t1 = skip_whitespace(s, r);
        if t1 < s.len() {
            assert(t[t1 + k] == s[t1]);
            if s[t1] == ',' {
                lemma_skip_whitespace_range(s, t1 + 1);
                lemma_skip_shift(s, t, k, t1 + 1);
                let u = skip_whitespace(s, t1 + 1);
                if u > v0 {
                    lemma_members_shift(s, t, k, u, acc.insert(key, v));
                }
            }
        }
    }
}

} // verus!
