//! Writes a JSON tree as text.
use vstd::prelude::*;
use crate::node::LeptValue;
use crate::text::string_push;

verus! {

/// The text of a node: literals by name, a number by its text, a string
/// between quotation marks as it is (with no escapes), the elements of an
/// array and the members of an object separated by a comma and a space,
/// and each member as its quoted key, a colon, a space and its value.
pub open spec fn render(v: LeptValue) -> Seq<char>
    decreases v, 0int,
{
    match v {
        LeptValue::Null => seq!['n', 'u', 'l', 'l'],
        LeptValue::False => seq!['f', 'a', 'l', 's', 'e'],
        LeptValue::True => seq!['t', 'r', 'u', 'e'],
        LeptValue::Number(t) => t@,
        LeptValue::String(t) => seq!['"'] + t@ + seq!['"'],
        LeptValue::Array(items) => seq!['['] + render_items(items@, 0) + seq![']'],
        LeptValue::Object(entries) => seq!['{'] + render_entries(entries@, 0) + seq!['}'],
    }
}

/// The text of the elements from the `k`-th on, separated by `", "`.
pub open spec fn render_items(items: Seq<LeptValue>, k: int) -> Seq<char>
    decreases items, items.len() - k,
{
    if k < 0 || k >= items.len() {
        Seq::empty()
    } else if k == items.len() - 1 {
        render(items[k])
    } else {
        render(items[k]) + seq![',', ' '] + render_items(items, k + 1)
    }
}

/// The text of one member: its quoted key, a colon, a space and its value.
pub open spec fn render_member(key: Seq<char>, value: Seq<char>) -> Seq<char> {
    seq!['"'] + key + seq!['"', ':', ' '] + value
}

/// The text of the members from the `k`-th on, separated by `", "`.
pub open spec fn render_entries(entries: Seq<(String, LeptValue)>, k: int) -> Seq<char>
    decreases entries, entries.len() - k,
{
    if k < 0 || k >= entries.len() {
        Seq::empty()
    } else {
        let member = render_member(entries[k].0@, render(entries[k].1));
        if k == entries.len() - 1 {
            member
        } else {
            member + seq![',', ' '] + render_entries(entries, k + 1)
        }
    }
}

/// The text of the elements from the `i`-th on, as it follows the first
/// `i` elements: after a separating comma and space where some come
/// before it and some after.
pub open spec fn separated(rest: Seq<char>, i: int, n: int) -> Seq<char> {
    if 0 < i < n {
        seq![',', ' '] + rest
    } else {
        rest
    }
}

fn push_str(out: &mut String, s: &str)
    ensures
        final(out)@ == old(out)@ + s@,
{
    let chars = crate::text::chars_of(s);
    let mut i: usize = 0;
    while i < chars.len()
        invariant
            chars@ == s@,
            i <= chars@.len(),
            out@ == old(out)@ + chars@.take(i as int),
        decreases chars@.len() - i,
    {
        string_push(out, chars[i]);
        proof {
            assert(chars@.take(i + 1) =~= chars@.take(i as int).push(chars@[i as int]));
        }
        i += 1;
    }
    proof {
        assert(chars@.take(chars@.len() as int) =~= chars@);
    }
}

/// Appends the text of `v` to `out`.
fn write_value(v: &LeptValue, out: &mut String)
    ensures
        final(out)@ == old(out)@ + render(*v),
    decreases *v,
{
    match v {
        LeptValue::Null => {
            proof {
                reveal_strlit("null");
                assert("null"@ =~= seq!['n', 'u', 'l', 'l']);
            }
            push_str(out, "null");
            proof {
                assert(final(out)@ =~= old(out)@ + render(*v));
            }
        },
        LeptValue::False => {
            proof {
                reveal_strlit("false");
                assert("false"@ =~= seq!['f', 'a', 'l', 's', 'e']);
            }
            push_str(out, "false");
            proof {
                assert(final(out)@ =~= old(out)@ + render(*v));
            }
        },
        LeptValue::True => {
            proof {
                reveal_strlit("true");
                assert("true"@ =~= seq!['t', 'r', 'u', 'e']);
            }
            push_str(out, "true");
            proof {
                assert(final(out)@ =~= old(out)@ + render(*v));
            }
        },
        LeptValue::Number(t) => {
            push_str(out, t.as_str());
        },
        LeptValue::String(t) => {
            string_push(out, '"');
            push_str(out, t.as_str());
            string_push(out, '"');
            proof {
                assert(final(out)@ =~= old(out)@ + render(*v));
            }
        },
        LeptValue::Array(items) => {
            string_push(out, '[');
            let ghost start = out@;
            let mut i: usize = 0;
            while i < items.len()
                invariant
                    *v == LeptValue::Array(*items),
                    i <= items@.len(),
                    out@ + separated(render_items(items@, i as int), i as int, items@.len() as int)
                        == start + render_items(items@, 0),
                decreases items@.len() - i,
            {
                let ghost before = out@;
                if i != 0 {
                    string_push(out, ',');
                    string_push(out, ' ');
                }
                let ghost middle = out@;
                proof {
                    assert(decreases_to!(*v => (*v)->Array_0));
                    assert(decreases_to!(*items => items@));
                    assert(decreases_to!(items@ => items@[i as int]));
                }
                write_value(&items[i], out);
                proof {
                    let rest = separated(
                        render_items(items@, i + 1),
                        i + 1,
                        items@.len() as int,
                    );
                    assert(render_items(items@, i as int) =~= render(items@[i as int]) + rest);
                    assert(middle =~= before + (if i == 0 {
                        Seq::<char>::empty()
                    } else {
                        seq![',', ' ']
                    }));
                    assert(out@ + rest =~= before + separated(
                        render_items(items@, i as int),
                        i as int,
                        items@.len() as int,
                    ));
                }
                i += 1;
            }
            string_push(out, ']');
            proof {
                assert(final(out)@ =~= old(out)@ + render(*v));
            }
        },
        LeptValue::Object(entries) => {
            string_push(out, '{');
            let ghost start = out@;
            let mut i: usize = 0;
            while i < entries.len()
                invariant
                    *v == LeptValue::Object(*entries),
                    i <= entries@.len(),
                    out@ + separated(
                        render_entries(entries@, i as int),
                        i as int,
                        entries@.len() as int,
                    ) == start + render_entries(entries@, 0),
                decreases entries@.len() - i,
            {
                let ghost before = out@;
                if i != 0 {
                    string_push(out, ',');
                    string_push(out, ' ');
                }
                let ghost middle = out@;
                string_push(out, '"');
                push_str(out, entries[i].0.as_str());
                string_push(out, '"');
                string_push(out, ':');
                string_push(out, ' ');
                let ghost key_end = out@;
                proof {
                    assert(decreases_to!(*v => (*v)->Object_0));
                    assert(decreases_to!(*entries => entries@));
                    assert(decreases_to!(entries@ => entries@[i as int]));
                    assert(decreases_to!(entries@[i as int] => entries@[i as int].1));
                }
                write_value(&entries[i].1, out);
                proof {
                    let rest = separated(
                        render_entries(entries@, i + 1),
                        i + 1,
                        entries@.len() as int,
                    );
                    let member = render_member(
                        entries@[i as int].0@,
                        render(entries@[i as int].1),
                    );
                    assert(render_entries(entries@, i as int) =~= member + rest);
                    assert(middle =~= before + (if i == 0 {
                        Seq::<char>::empty()
                    } else {
                        seq![',', ' ']
                    }));
                    assert(key_end =~= middle + seq!['"'] + entries@[i as int].0@ + seq![
                        '"',
                        ':',
                        ' ',
                    ]);
                    assert(out@ =~= middle + member);
                    assert(out@ + rest =~= before + separated(
                        render_entries(entries@, i as int),
                        i as int,
                        entries@.len() as int,
                    ));
                }
                i += 1;
            }
            string_push(out, '}');
            proof {
                assert(final(out)@ =~= old(out)@ + render(*v));
            }
        },
    }
}

impl LeptValue {
    /// The JSON text of the node (see `render`).
    pub fn to_json_string(&self) -> (r: String)
        ensures
            r@ == render(*self),
    {
        let mut out = String::new();
        write_value(self, &mut out);
        proof {
            assert(out@ =~= render(*self));
        }
        out
    }
}

} // verus!
