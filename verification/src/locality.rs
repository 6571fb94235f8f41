//! A value read in full reads alike wherever its characters stand: put in
//! another text, at another place, it gives the same value, so long as what
//! follows a number does not prolong it.
use vstd::prelude::*;
use crate::grammar::{
    digits_end, escape_char, frac_part_end, int_part_end, is_high_surrogate, lemma_digits_end,
    lemma_number_end, lemma_scan_hex, lemma_scan_member_value_fits, lemma_scan_members_fits,
    lemma_scan_elements_fits, lemma_scan_string_body_end, lemma_scan_value_fits,
    lemma_skip_whitespace_range, number_end, pair_code, scan_array, scan_elements, scan_hex,
    scan_member_value, scan_members, scan_object, scan_string_body, scan_value, sign_end,
    skip_whitespace, starts_with_at, str_done, ValueScan,
};
use crate::node::JsonValue;
use crate::parser::ParseStatus;
use crate::text::spec_is_whitespace;

verus! {

/// From `p + k` up to `q + k`, `t` holds the characters that `s` holds
/// from `p` up to `q`.
pub open spec fn agrees(s: Seq<char>, t: Seq<char>, k: int, p: int, q: int) -> bool {
    &&& 0 <= p
    &&& 0 <= p + k
    &&& q <= s.len()
    &&& q + k <= t.len()
    &&& forall|i: int| p <= i < q ==> t[i + k] == #[trigger] s[i]
}

/// Where a reading of `s` stops at `q`, a reading of `t` stops at `q + k`
/// alike: on the same character, or, at the end of `s`, at the end of `t`
/// or on whitespace.
pub open spec fn stops_alike(s: Seq<char>, t: Seq<char>, k: int, q: int) -> bool {
    if q < s.len() {
        0 <= q + k < t.len() && t[q + k] == s[q]
    } else {
        q + k >= t.len() || spec_is_whitespace(t[q + k])
    }
}

proof fn lemma_stops_within(s: Seq<char>, t: Seq<char>, k: int, p: int, q: int, x: int)
    requires
        agrees(s, t, k, p, q),
        stops_alike(s, t, k, q),
        p <= x <= q,
    ensures
        stops_alike(s, t, k, x),
{
    if x < q {
        assert(t[x + k] == s[x]);
    }
}

/// Whitespace that ends on a character of `s` ends alike in `t`.
pub proof fn lemma_skip_local(s: Seq<char>, t: Seq<char>, k: int, p: int)
    requires
        skip_whitespace(s, p) < s.len(),
        agrees(s, t, k, p, skip_whitespace(s, p) + 1),
    ensures
        skip_whitespace(t, p + k) == skip_whitespace(s, p) + k,
    decreases s.len() - p,
{
    lemma_skip_whitespace_range(s, p);
    assert(t[p + k] == s[p]);
    if 0 <= p < s.len() && spec_is_whitespace(s[p]) {
        lemma_skip_local(s, t, k, p + 1);
    }
}

proof fn lemma_digits_local(s: Seq<char>, t: Seq<char>, k: int, p: int)
    requires
        p <= s.len(),
        agrees(s, t, k, p, digits_end(s, p)),
        stops_alike(s, t, k, digits_end(s, p)),
    ensures
        digits_end(t, p + k) == digits_end(s, p) + k,
    decreases s.len() - p,
{
    lemma_digits_end(s, p);
    if 0 <= p < s.len() && '0' <= s[p] <= '9' {
        assert(t[p + k] == s[p]);
        lemma_digits_local(s, t, k, p + 1);
    }
}

proof fn lemma_number_local(s: Seq<char>, t: Seq<char>, k: int, p: int, q: int)
    requires
        number_end(s, p) == Some(q),
        agrees(s, t, k, p, q),
        stops_alike(s, t, k, q),
    ensures
        number_end(t, p + k) == Some(q + k),
{
    lemma_number_end(s, p);
    let a = sign_end(s, p);
    assert(t[p + k] == s[p]);
    assert(sign_end(t, p + k) == a + k);
    let b = int_part_end(s, a)->0;
    let c = frac_part_end(s, b)->0;
    lemma_digits_end(s, a);
    lemma_digits_end(s, b + 1);
    assert(a < b);
    assert(b <= c);
    if s[a] == '0' {
        assert(t[a + k] == s[a]);
    } else {
        assert(t[a + k] == s[a]);
        lemma_digits_end(s, c + 1);
        lemma_digits_end(s, c + 2);
        assert(c <= q);
        lemma_stops_within(s, t, k, p, q, b);
        lemma_digits_local(s, t, k, a);
    }
    assert(int_part_end(t, a + k) == Some(b + k));
    lemma_digits_end(s, c + 1);
    lemma_digits_end(s, c + 2);
    assert(c <= q);
    if 0 <= b < s.len() && s[b] == '.' {
        assert(t[b + k] == s[b]);
        assert(t[b + 1 + k] == s[b + 1]);
        lemma_stops_within(s, t, k, p, q, c);
        lemma_digits_local(s, t, k, b + 1);
    } else {
        lemma_stops_within(s, t, k, p, q, b);
    }
    assert(frac_part_end(t, b + k) == Some(c + k));
    if 0 <= c < s.len() && (s[c] == 'e' || s[c] == 'E') {
        assert(t[c + k] == s[c]);
        let d = if c + 1 < s.len() && (s[c + 1] == '+' || s[c + 1] == '-') {
            c + 2
        } else {
            c + 1
        };
        assert(t[c + 1 + k] == s[c + 1]);
        assert(t[d + k] == s[d]);
        lemma_digits_local(s, t, k, d);
    } else {
        lemma_stops_within(s, t, k, p, q, c);
    }
}

proof fn lemma_hex_local(s: Seq<char>, t: Seq<char>, k: int, p: int, i: int, acc: nat)
    requires
        0 <= i <= 4,
        0 <= p,
        scan_hex(s, p, i, acc) is Code,
        agrees(s, t, k, p + i, p + 4),
    ensures
        scan_hex(t, p + k, i, acc) == scan_hex(s, p, i, acc),
    decreases 4 - i,
{
    if i < 4 {
        assert(t[p + i + k] == s[p + i]);
        lemma_hex_local(s, t, k, p, i + 1, acc * 16 + crate::text::hex_digit_value(s[p + i]));
    }
}

proof fn lemma_string_body_local(s: Seq<char>, t: Seq<char>, k: int, p: int, acc: Seq<char>)
    requires
        0 <= p,
        scan_string_body(s, p, acc).status == ParseStatus::Success,
        agrees(s, t, k, p, scan_string_body(s, p, acc).end),
    ensures
        scan_string_body(t, p + k, acc) == str_done(
            ParseStatus::Success,
            scan_string_body(s, p, acc).chars,
            scan_string_body(s, p, acc).end + k,
        ),
    decreases s.len() - p,
{
    lemma_scan_string_body_end(s, p, acc);
    let c = s[p];
    assert(t[p + k] == s[p]);
    if c == '\\' {
        let e = s[p + 1];
        match escape_char(e) {
            Some(d) => {
                lemma_scan_string_body_end(s, p + 2, acc.push(d));
                assert(t[p + 1 + k] == s[p + 1]);
                lemma_string_body_local(s, t, k, p + 2, acc.push(d));
            },
            None => {
                lemma_scan_hex(s, p + 2, 0, 0);
                let n = scan_hex(s, p + 2, 0, 0)->Code_0;
                let f = p + 6;
                if is_high_surrogate(n) {
                    lemma_scan_hex(s, f + 2, 0, 0);
                    let m = scan_hex(s, f + 2, 0, 0)->Code_0;
                    lemma_scan_string_body_end(s, f + 6, acc.push(pair_code(n, m) as char));
                    assert(t[p + 1 + k] == s[p + 1]);
                    assert(t[f + k] == s[f]);
                    assert(t[f + 1 + k] == s[f + 1]);
                    lemma_hex_local(s, t, k, p + 2, 0, 0);
                    lemma_hex_local(s, t, k, f + 2, 0, 0);
                    lemma_string_body_local(s, t, k, f + 6, acc.push(pair_code(n, m) as char));
                } else {
                    lemma_scan_string_body_end(s, p + 6, acc.push(n as char));
                    assert(t[p + 1 + k] == s[p + 1]);
                    lemma_hex_local(s, t, k, p + 2, 0, 0);
                    lemma_string_body_local(s, t, k, p + 6, acc.push(n as char));
                }
            },
        }
    } else if c != '"' {
        lemma_scan_string_body_end(s, p + 1, acc.push(c));
        lemma_string_body_local(s, t, k, p + 1, acc.push(c));
    }
}

proof fn lemma_literal_local(s: Seq<char>, t: Seq<char>, k: int, p: int, lit: Seq<char>)
    requires
        starts_with_at(s, p, lit),
        agrees(s, t, k, p, p + lit.len()),
    ensures
        starts_with_at(t, p + k, lit),
{
    assert(t.subrange(p + k, p + k + lit.len()) =~= s.subrange(p, p + lit.len()));
}

/// A value read in full reads alike wherever its characters stand; after a
/// number, the reading must stop alike too.
#[verifier::rlimit(40)]
pub proof fn lemma_value_local(s: Seq<char>, t: Seq<char>, k: int, p: int)
    requires
        scan_value(s, p) is Parsed,
        agrees(s, t, k, p, scan_value(s, p)->Parsed_1),
        scan_value(s, p)->Parsed_0 is Number ==> stops_alike(s, t, k, scan_value(s, p)->Parsed_1),
    ensures
        scan_value(t, p + k) == ValueScan::Parsed(
            scan_value(s, p)->Parsed_0,
            scan_value(s, p)->Parsed_1 + k,
        ),
    decreases s.len() - p, 2int,
{
    lemma_scan_value_fits(s, p);
    let q = scan_value(s, p)->Parsed_1;
    let c = s[p];
    assert(t[p + k] == s[p]);
    if c == 'n' {
        lemma_literal_local(s, t, k, p, seq!['n', 'u', 'l', 'l']);
    } else if c == 't' {
        lemma_literal_local(s, t, k, p, seq!['t', 'r', 'u', 'e']);
    } else if c == 'f' {
        lemma_literal_local(s, t, k, p, seq!['f', 'a', 'l', 's', 'e']);
    } else if c == '"' {
        lemma_scan_string_body_end(s, p + 1, Seq::empty());
        lemma_string_body_local(s, t, k, p + 1, Seq::empty());
    } else if c == '[' {
        lemma_array_local(s, t, k, p);
    } else if c == '{' {
        lemma_object_local(s, t, k, p);
    } else {
        lemma_number_local(s, t, k, p, q);
        assert(t.subrange(p + k, q + k) =~= s.subrange(p, q));
    }
}

proof fn lemma_array_local(s: Seq<char>, t: Seq<char>, k: int, p: int)
    requires
        0 <= p < s.len(),
        scan_array(s, p) is Parsed,
        agrees(s, t, k, p, scan_array(s, p)->Parsed_1),
    ensures
        scan_array(t, p + k) == ValueScan::Parsed(
            scan_array(s, p)->Parsed_0,
            scan_array(s, p)->Parsed_1 + k,
        ),
    decreases s.len() - p, 1int,
{
    lemma_skip_whitespace_range(s, p + 1);
    let q0 = skip_whitespace(s, p + 1);
    if s[q0] == ']' {
        lemma_skip_local(s, t, k, p + 1);
        assert(t[q0 + k] == s[q0]);
    } else {
        lemma_scan_elements_fits(s, q0, Seq::empty());
        lemma_skip_local(s, t, k, p + 1);
        assert(t[q0 + k] == s[q0]);
        lemma_elements_local(s, t, k, q0, Seq::empty());
    }
}

proof fn lemma_elements_local(s: Seq<char>, t: Seq<char>, k: int, q: int, acc: Seq<JsonValue>)
    requires
        0 <= q < s.len(),
        scan_elements(s, q, acc) is Parsed,
        agrees(s, t, k, q, scan_elements(s, q, acc)->Parsed_1),
    ensures
        scan_elements(t, q + k, acc) == ValueScan::Parsed(
            scan_elements(s, q, acc)->Parsed_0,
            scan_elements(s, q, acc)->Parsed_1 + k,
        ),
    decreases s.len() - q, 3int,
{
    lemma_scan_value_fits(s, q);
    let v = scan_value(s, q)->Parsed_0;
    let r = scan_value(s, q)->Parsed_1;
    lemma_skip_whitespace_range(s, r);
    let t1 = skip_whitespace(s, r);
    if s[t1] == ',' {
        lemma_skip_whitespace_range(s, t1 + 1);
        let u = skip_whitespace(s, t1 + 1);
        assert(scan_elements(s, u, acc.push(v)) is Parsed);
        if u >= s.len() {
            assert(scan_value(s, u) is Failed);
        }
        lemma_scan_elements_fits(s, u, acc.push(v));
        assert(t[r + k] == s[r]);
        lemma_value_local(s, t, k, q);
        lemma_skip_local(s, t, k, r);
        assert(t[t1 + k] == s[t1]);
        lemma_skip_local(s, t, k, t1 + 1);
        lemma_elements_local(s, t, k, u, acc.push(v));
    } else {
        assert(t[r + k] == s[r]);
        lemma_value_local(s, t, k, q);
        lemma_skip_local(s, t, k, r);
        assert(t[t1 + k] == s[t1]);
    }
}

proof fn lemma_object_local(s: Seq<char>, t: Seq<char>, k: int, p: int)
    requires
        0 <= p < s.len(),
        scan_object(s, p) is Parsed,
        agrees(s, t, k, p, scan_object(s, p)->Parsed_1),
    ensures
        scan_object(t, p + k) == ValueScan::Parsed(
            scan_object(s, p)->Parsed_0,
            scan_object(s, p)->Parsed_1 + k,
        ),
    decreases s.len() - p, 1int,
{
    lemma_skip_whitespace_range(s, p + 1);
    let q0 = skip_whitespace(s, p + 1);
    if s[q0] == '}' {
        lemma_skip_local(s, t, k, p + 1);
        assert(t[q0 + k] == s[q0]);
    } else {
        lemma_scan_members_fits(s, q0, Map::empty());
        lemma_skip_local(s, t, k, p + 1);
        assert(t[q0 + k] == s[q0]);
        lemma_members_local(s, t, k, q0, Map::empty());
    }
}

proof fn lemma_members_local(
    s: Seq<char>,
    t: Seq<char>,
    k: int,
    q: int,
    acc: Map<Seq<char>, JsonValue>,
)
    requires
        0 <= q <= s.len(),
        scan_members(s, q, acc) is Parsed,
        agrees(s, t, k, q, scan_members(s, q, acc)->Parsed_1),
    ensures
        scan_members(t, q + k, acc) == ValueScan::Parsed(
            scan_members(s, q, acc)->Parsed_0,
            scan_members(s, q, acc)->Parsed_1 + k,
        ),
    decreases s.len() - q, 3int,
{
    lemma_skip_whitespace_range(s, q);
    let k0 = skip_whitespace(s, q);
    lemma_scan_string_body_end(s, k0 + 1, Seq::empty());
    let key = scan_string_body(s, k0 + 1, Seq::empty());
    lemma_skip_whitespace_range(s, key.end);
    let c = skip_whitespace(s, key.end);
    lemma_skip_whitespace_range(s, c + 1);
    let v0 = skip_whitespace(s, c + 1);
    lemma_scan_member_value_fits(s, v0, key.chars, acc);
    lemma_skip_local(s, t, k, q);
    assert(t[k0 + k] == s[k0]);
    lemma_string_body_local(s, t, k, k0 + 1, Seq::empty());
    lemma_skip_local(s, t, k, key.end);
    assert(t[c + k] == s[c]);
    assert(v0 < s.len());
    lemma_skip_local(s, t, k, c + 1);
    lemma_member_value_local(s, t, k, v0, key.chars, acc);
}

proof fn lemma_member_value_local(
    s: Seq<char>,
    t: Seq<char>,
    k: int,
    v0: int,
    key: Seq<char>,
    acc: Map<Seq<char>, JsonValue>,
)
    requires
        0 <= v0 <= s.len(),
        scan_member_value(s, v0, key, acc) is Parsed,
        agrees(s, t, k, v0, scan_member_value(s, v0, key, acc)->Parsed_1),
    ensures
        scan_member_value(t, v0 + k, key, acc) == ValueScan::Parsed(
            scan_member_value(s, v0, key, acc)->Parsed_0,
            scan_member_value(s, v0, key, acc)->Parsed_1 + k,
        ),
    decreases s.len() - v0, 3int,
{
    lemma_scan_value_fits(s, v0);
    let v = scan_value(s, v0)->Parsed_0;
    let r = scan_value(s, v0)->Parsed_1;
    lemma_skip_whitespace_range(s, r);
    let t1 = skip_whitespace(s, r);
    if s[t1] == ',' {
        lemma_skip_whitespace_range(s, t1 + 1);
        let u = skip_whitespace(s, t1 + 1);
        lemma_scan_members_fits(s, u, acc.insert(key, v));
        assert(t[r + k] == s[r]);
        lemma_value_local(s, t, k, v0);
        lemma_skip_local(s, t, k, r);
        assert(t[t1 + k] == s[t1]);
        assert(t[u + k] == s[u]);
        lemma_skip_local(s, t, k, t1 + 1);
        lemma_members_local(s, t, k, u, acc.insert(key, v));
    } else {
        assert(t[r + k] == s[r]);
        lemma_value_local(s, t, k, v0);
        lemma_skip_local(s, t, k, r);
        assert(t[t1 + k] == s[t1]);
    }
}

} // verus!
