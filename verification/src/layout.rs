//! The layout of a written text does not matter: with any whitespace after
//! its commas and colons, or none, the text of a node reads as the node.
use vstd::prelude::*;
use crate::grammar::{
    lemma_skip_whitespace_range, scan_document, scan_elements, scan_members, scan_value,
    skip_whitespace, ValueScan,
};
use crate::node::{entries_value, items_value, value_of, JsonValue, LeptValue};
use crate::print::{render, render_entries, render_items, render_member};
use crate::roundtrip::{
    closes, entries_printable, items_printable, lemma_no_whitespace_at, lemma_number_in_context,
    lemma_number_text_start, lemma_plain_string_in_context, lemma_stands_split, printable,
    stands_at, starts_value,
};
use crate::text::spec_is_whitespace;

verus! {

/// Whitespace characters only, or nothing.
pub open spec fn is_blank(w: Seq<char>) -> bool {
    forall|i: int| 0 <= i < w.len() ==> spec_is_whitespace(#[trigger] w[i])
}

/// The text of a node laid out with the whitespace `w` after every comma
/// and every colon (`render` puts one space there).
pub open spec fn render_spaced(v: LeptValue, w: Seq<char>) -> Seq<char>
    decreases v, 0int,
{
    match v {
        LeptValue::Null => seq!['n', 'u', 'l', 'l'],
        LeptValue::False => seq!['f', 'a', 'l', 's', 'e'],
        LeptValue::True => seq!['t', 'r', 'u', 'e'],
        LeptValue::Number(t) => t@,
        LeptValue::String(t) => seq!['"'] + t@ + seq!['"'],
        LeptValue::Array(items) => seq!['['] + render_items_spaced(items@, 0, w) + seq![']'],
        LeptValue::Object(entries) => seq!['{'] + render_entries_spaced(entries@, 0, w) + seq![
            '}',
        ],
    }
}

/// The text of the elements from the `k`-th on, each comma followed by `w`.
pub open spec fn render_items_spaced(items: Seq<LeptValue>, k: int, w: Seq<char>) -> Seq<char>
    decreases items, items.len() - k,
{
    if k < 0 || k >= items.len() {
        Seq::empty()
    } else if k == items.len() - 1 {
        render_spaced(items[k], w)
    } else {
        render_spaced(items[k], w) + seq![','] + w + render_items_spaced(items, k + 1, w)
    }
}

/// The text of one member, its colon followed by `w`.
pub open spec fn render_member_spaced(key: Seq<char>, value: Seq<char>, w: Seq<char>) -> Seq<
    char,
> {
    seq!['"'] + key + seq!['"', ':'] + w + value
}

/// The text of the members from the `k`-th on, each comma followed by `w`.
pub open spec fn render_entries_spaced(
    entries: Seq<(String, LeptValue)>,
    k: int,
    w: Seq<char>,
) -> Seq<char>
    decreases entries, entries.len() - k,
{
    if k < 0 || k >= entries.len() {
        Seq::empty()
    } else {
        let member = render_member_spaced(entries[k].0@, render_spaced(entries[k].1, w), w);
        if k == entries.len() - 1 {
            member
        } else {
            member + seq![','] + w + render_entries_spaced(entries, k + 1, w)
        }
    }
}

/// `render` is the layout with one space.
pub proof fn lemma_render_one_space(v: LeptValue)
    ensures
        render(v) == render_spaced(v, seq![' ']),
    decreases v, 0int,
{
    match v {
        LeptValue::Array(items) => {
            assert(decreases_to!(v => v->Array_0));
            lemma_items_one_space(items@, 0);
        },
        LeptValue::Object(entries) => {
            assert(decreases_to!(v => v->Object_0));
            lemma_entries_one_space(entries@, 0);
        },
        _ => {},
    }
}

proof fn lemma_items_one_space(items: Seq<LeptValue>, k: int)
    ensures
        render_items(items, k) == render_items_spaced(items, k, seq![' ']),
    decreases items, items.len() - k,
{
    if 0 <= k < items.len() {
        lemma_render_one_space(items[k]);
        if k < items.len() - 1 {
            lemma_items_one_space(items, k + 1);
            assert(render_items(items, k) =~= render_items_spaced(items, k, seq![' ']));
        }
    }
}

proof fn lemma_entries_one_space(entries: Seq<(String, LeptValue)>, k: int)
    ensures
        render_entries(entries, k) == render_entries_spaced(entries, k, seq![' ']),
    decreases entries, entries.len() - k,
{
    if 0 <= k < entries.len() {
        lemma_render_one_space(entries[k].1);
        let key = entries[k].0@;
        let x = render(entries[k].1);
        assert(render_member(key, x) =~= render_member_spaced(key, x, seq![' ']));
        if k < entries.len() - 1 {
            lemma_entries_one_space(entries, k + 1);
            assert(render_entries(entries, k) =~= render_entries_spaced(entries, k, seq![' ']));
        }
    }
}

/// The text of a printable node is not empty, and starts as a value does.
proof fn lemma_spaced_start(v: LeptValue, w: Seq<char>)
    requires
        printable(v),
    ensures
        render_spaced(v, w).len() > 0,
        starts_value(render_spaced(v, w)[0]),
{
    if let LeptValue::Number(t) = v {
        lemma_number_text_start(t@);
    }
}

/// Whitespace `w` standing at `i`, then a character that starts a value: the
/// reading steps over `w`.
proof fn lemma_blank_then_value(s: Seq<char>, i: int, w: Seq<char>, j: int)
    requires
        is_blank(w),
        stands_at(s, i, w),
        i + w.len() < s.len(),
        starts_value(s[i + w.len()]),
        0 <= j <= w.len(),
    ensures
        skip_whitespace(s, i + j) == i + w.len(),
    decreases w.len() - j,
{
    if j < w.len() {
        assert(s[i + j] == w[j]) by {
            assert(s.subrange(i, i + w.len())[j] == s[i + j]);
        }
        lemma_blank_then_value(s, i, w, j + 1);
    } else {
        lemma_no_whitespace_at(s, i + w.len());
    }
}

/// The text of a printable node, laid out with whitespace `w`, where it
/// stands in a text that closes after it, reads as the node's value.
proof fn lemma_read_spaced(v: LeptValue, w: Seq<char>, s: Seq<char>, p: int)
    requires
        printable(v),
        is_blank(w),
        stands_at(s, p, render_spaced(v, w)),
        closes(s, p + render_spaced(v, w).len()),
    ensures
        scan_value(s, p) == ValueScan::Parsed(v@, p + render_spaced(v, w).len()),
    decreases v, 0int,
{
    let n = render_spaced(v, w).len() as int;
    lemma_spaced_start(v, w);
    assert(s[p] == render_spaced(v, w)[0]) by {
        assert(s.subrange(p, p + n)[0] == s[p]);
    }
    match v {
        LeptValue::Null => {},
        LeptValue::False => {},
        LeptValue::True => {},
        LeptValue::Number(t) => {
            lemma_number_in_context(t@, s, p);
        },
        LeptValue::String(t) => {
            lemma_plain_string_in_context(t@, s, p, 0);
            assert(t@.take(0) =~= Seq::<char>::empty());
        },
        LeptValue::Array(items) => {
            let body = render_items_spaced(items@, 0, w);
            lemma_stands_split(s, p, seq!['['] + body, seq![']']);
            lemma_stands_split(s, p, seq!['['], body);
            assert(s[p + 1 + body.len()] == ']') by {
                assert(s.subrange(p + 1 + body.len(), p + 2 + body.len())[0] == ']');
            }
            if items@.len() == 0 {
                lemma_no_whitespace_at(s, p + 1);
                assert(items_value(items@) =~= Seq::<JsonValue>::empty());
            } else {
                assert(decreases_to!(v => v->Array_0));
                lemma_spaced_start(items@[0], w);
                assert(s[p + 1] == body[0]) by {
                    assert(s.subrange(p + 1, p + 1 + body.len())[0] == s[p + 1]);
                }
                lemma_no_whitespace_at(s, p + 1);
                lemma_skip_whitespace_range(s, p + 1);
                lemma_read_items_spaced(items@, 0, w, s, p + 1);
                assert(items@.take(0) =~= Seq::<LeptValue>::empty());
                assert(items_value(items@.take(0)) =~= Seq::<JsonValue>::empty());
            }
        },
        LeptValue::Object(entries) => {
            let body = render_entries_spaced(entries@, 0, w);
            lemma_stands_split(s, p, seq!['{'] + body, seq!['}']);
            lemma_stands_split(s, p, seq!['{'], body);
            assert(s[p + 1 + body.len()] == '}') by {
                assert(s.subrange(p + 1 + body.len(), p + 2 + body.len())[0] == '}');
            }
            if entries@.len() == 0 {
                lemma_no_whitespace_at(s, p + 1);
                assert(entries_value(entries@) =~= Map::<Seq<char>, JsonValue>::empty());
            } else {
                assert(decreases_to!(v => v->Object_0));
                assert(body[0] == '"');
                assert(s[p + 1] == body[0]) by {
                    assert(s.subrange(p + 1, p + 1 + body.len())[0] == s[p + 1]);
                }
                lemma_no_whitespace_at(s, p + 1);
                lemma_skip_whitespace_range(s, p + 1);
                lemma_read_entries_spaced(entries@, 0, w, s, p + 1);
                assert(entries@.take(0) =~= Seq::<(String, LeptValue)>::empty());
                assert(entries_value(entries@.take(0)) =~= Map::<Seq<char>, JsonValue>::empty());
            }
        },
    }
}

proof fn lemma_read_items_spaced(items: Seq<LeptValue>, k: int, w: Seq<char>, s: Seq<char>, q: int)
    requires
        0 <= k < items.len(),
        items_printable(items, k),
        is_blank(w),
        stands_at(s, q, render_items_spaced(items, k, w)),
        q + render_items_spaced(items, k, w).len() < s.len(),
        s[q + render_items_spaced(items, k, w).len()] == ']',
    ensures
        scan_elements(s, q, items_value(items.take(k))) == ValueScan::Parsed(
            JsonValue::Array(items_value(items)),
            q + render_items_spaced(items, k, w).len() + 1,
        ),
    decreases items, items.len() - k,
{
    let x = render_spaced(items[k], w);
    let e = q + x.len();
    let acc = items_value(items.take(k));
    assert(items.take(k + 1).subrange(0, k) =~= items.take(k));
    assert(items.take(k + 1)[k] == items[k]);
    assert(items_value(items.take(k + 1)) == acc.push(value_of(items[k])));
    if k == items.len() - 1 {
        assert(render_items_spaced(items, k, w) == x);
        lemma_read_spaced(items[k], w, s, q);
        lemma_no_whitespace_at(s, e);
        assert(items.take(k + 1) =~= items);
    } else {
        let rest = render_items_spaced(items, k + 1, w);
        let sep = seq![','] + w;
        assert(render_items_spaced(items, k, w) =~= x + sep + rest);
        lemma_stands_split(s, q, x + sep, rest);
        lemma_stands_split(s, q, x, sep);
        lemma_stands_split(s, e, seq![','], w);
        assert(s[e] == ',') by {
            assert(s.subrange(e, e + 1)[0] == s[e]);
        }
        lemma_read_spaced(items[k], w, s, q);
        lemma_no_whitespace_at(s, e);
        assert(items_printable(items, k + 1));
        assert(printable(items[k + 1]));
        lemma_spaced_start(items[k + 1], w);
        let f = e + 1 + w.len();
        assert(rest[0] == render_spaced(items[k + 1], w)[0]);
        assert(s[f] == rest[0]) by {
            assert(s.subrange(f, f + rest.len())[0] == s[f]);
        }
        lemma_blank_then_value(s, e + 1, w, 0);
        lemma_read_items_spaced(items, k + 1, w, s, f);
    }
}

proof fn lemma_read_entries_spaced(
    entries: Seq<(String, LeptValue)>,
    k: int,
    w: Seq<char>,
    s: Seq<char>,
    q: int,
)
    requires
        0 <= k < entries.len(),
        entries_printable(entries, k),
        is_blank(w),
        stands_at(s, q, render_entries_spaced(entries, k, w)),
        q + render_entries_spaced(entries, k, w).len() < s.len(),
        s[q + render_entries_spaced(entries, k, w).len()] == '}',
    ensures
        scan_members(s, q, entries_value(entries.take(k))) == ValueScan::Parsed(
            JsonValue::Object(entries_value(entries)),
            q + render_entries_spaced(entries, k, w).len() + 1,
        ),
    decreases entries, entries.len() - k,
{
    let key = entries[k].0@;
    let value = entries[k].1;
    let x = render_spaced(value, w);
    let quoted = seq!['"'] + key + seq!['"'];
    let colon = seq![':'] + w;
    let member = render_member_spaced(key, x, w);
    let r1 = q + quoted.len();
    let v0 = r1 + 1 + w.len();
    let e = v0 + x.len();
    let acc = entries_value(entries.take(k));
    assert(entries.take(k + 1).subrange(0, k) =~= entries.take(k));
    assert(entries.take(k + 1)[k] == entries[k]);
    assert(entries_value(entries.take(k + 1)) == acc.insert(key, value_of(value)));
    assert(member =~= quoted + colon + x);
    let after = if k == entries.len() - 1 {
        Seq::<char>::empty()
    } else {
        seq![','] + w + render_entries_spaced(entries, k + 1, w)
    };
    assert(render_entries_spaced(entries, k, w) =~= quoted + colon + x + after);
    lemma_stands_split(s, q, quoted + colon + x, after);
    lemma_stands_split(s, q, quoted + colon, x);
    lemma_stands_split(s, q, quoted, colon);
    lemma_stands_split(s, r1, seq![':'], w);
    assert(s[q] == '"') by {
        assert(s.subrange(q, q + quoted.len())[0] == s[q]);
    }
    assert(s[r1] == ':') by {
        assert(s.subrange(r1, r1 + 1)[0] == s[r1]);
    }
    lemma_no_whitespace_at(s, q);
    lemma_plain_string_in_context(key, s, q, 0);
    assert(key.take(0) =~= Seq::<char>::empty());
    lemma_no_whitespace_at(s, r1);
    lemma_spaced_start(value, w);
    assert(s[v0] == x[0]) by {
        assert(s.subrange(v0, v0 + x.len())[0] == s[v0]);
    }
    lemma_blank_then_value(s, r1 + 1, w, 0);
    if k == entries.len() - 1 {
        assert(s[e] == '}');
        lemma_read_spaced(value, w, s, v0);
        lemma_no_whitespace_at(s, e);
        assert(entries.take(k + 1) =~= entries);
    } else {
        let rest = render_entries_spaced(entries, k + 1, w);
        lemma_stands_split(s, e, seq![','] + w, rest);
        lemma_stands_split(s, e, seq![','], w);
        assert(s[e] == ',') by {
            assert(s.subrange(e, e + 1)[0] == s[e]);
        }
        lemma_read_spaced(value, w, s, v0);
        lemma_no_whitespace_at(s, e);
        let f = e + 1 + w.len();
        assert(rest[0] == '"');
        assert(s[f] == rest[0]) by {
            assert(s.subrange(f, f + rest.len())[0] == s[f]);
        }
        lemma_blank_then_value(s, e + 1, w, 0);
        lemma_read_entries_spaced(entries, k + 1, w, s, f);
    }
}

/// What the library writes reads back whatever its layout: the text of a
/// node whose numbers hold number texts and whose strings and keys hold
/// plain characters, with any whitespace, or none, after each comma and
/// each colon, reads as a whole document as the node's value.
pub proof fn law_any_layout_reads_back(v: LeptValue, w: Seq<char>)
    requires
        printable(v),
        is_blank(w),
    ensures
        scan_document(render_spaced(v, w)) == ValueScan::Parsed(
            v@,
            render_spaced(v, w).len() as int,
        ),
{
    let s = render_spaced(v, w);
    lemma_spaced_start(v, w);
    assert(s.subrange(0, s.len() as int) =~= s);
    lemma_read_spaced(v, w, s, 0);
    assert(skip_whitespace(s, 0) == 0);
}

} // verus!
