//! The JSON tree: its nodes, and the value each node stands for.
use vstd::prelude::*;

verus! {

/// A node of a JSON tree.
///
/// A number keeps the text it was written with, its digits, sign, decimal
/// point and exponent exactly as in the document; what it reads as a
/// binary floating-point value is for the caller to compute.
/// An object keeps its members in a list; in a tree that `well_formed`
/// describes, as the parser leaves it, the list stands in the order of the
/// keys (`key_less`), each key once.  So `==` between two trees that the
/// parser read does not depend on the order in which the members were
/// written; it compares numbers by their text.
#[derive(Debug, PartialEq, Eq)]
pub enum LeptValue {
    Null,
    False,
    True,
    Number(String),
    String(String),
    Array(Vec<LeptValue>),
    Object(Vec<(String, LeptValue)>),
}

/// The value that a JSON node stands for.
pub enum JsonValue {
    Null,
    False,
    True,
    /// The text of a number.
    Number(Seq<char>),
    String(Seq<char>),
    Array(Seq<JsonValue>),
    /// An object maps each key to one value; where a key was given more
    /// than once, the last value given counts.
    Object(Map<Seq<char>, JsonValue>),
}

/// The value of a node.
pub open spec fn value_of(v: LeptValue) -> JsonValue
    decreases v,
{
    match v {
        LeptValue::Null => JsonValue::Null,
        LeptValue::False => JsonValue::False,
        LeptValue::True => JsonValue::True,
        LeptValue::Number(s) => JsonValue::Number(s@),
        LeptValue::String(s) => JsonValue::String(s@),
        LeptValue::Array(items) => JsonValue::Array(items_value(items@)),
        LeptValue::Object(entries) => JsonValue::Object(entries_value(entries@)),
    }
}

/// The values of a list of nodes.
pub open spec fn items_value(items: Seq<LeptValue>) -> Seq<JsonValue>
    decreases items,
{
    if items.len() == 0 {
        Seq::empty()
    } else {
        items_value(items.subrange(0, items.len() - 1)).push(value_of(items[items.len() - 1]))
    }
}

/// The map that a list of members stands for: each member is inserted in
/// turn, so that a later member replaces an earlier one with the same key.
pub open spec fn entries_value(entries: Seq<(String, LeptValue)>) -> Map<Seq<char>, JsonValue>
    decreases entries,
{
    if entries.len() == 0 {
        Map::empty()
    } else {
        let last = entries[entries.len() - 1];
        entries_value(entries.subrange(0, entries.len() - 1)).insert(last.0@, value_of(last.1))
    }
}

/// No two members of the list have the same key.
pub open spec fn keys_distinct(entries: Seq<(String, LeptValue)>) -> bool {
    forall|i: int, j: int|
        0 <= i < entries.len() && 0 <= j < entries.len() && i != j ==> entries[i].0@
            != entries[j].0@
}

/// The order of keys: the character codes compared in turn, and a key
/// before every longer key that it begins.
pub open spec fn key_less(a: Seq<char>, b: Seq<char>) -> bool
    decreases a.len(),
{
    if a.len() == 0 {
        b.len() > 0
    } else if b.len() == 0 {
        false
    } else if a[0] != b[0] {
        a[0] < b[0]
    } else {
        key_less(a.drop_first(), b.drop_first())
    }
}

/// The members of the list stand in the order of their keys, each key
/// once.
pub open spec fn keys_sorted(entries: Seq<(String, LeptValue)>) -> bool {
    forall|i: int, j: int|
        0 <= i < j < entries.len() ==> key_less(#[trigger] entries[i].0@, #[trigger] entries[j].0@)
}

/// No key comes before itself.
pub proof fn lemma_key_less_irreflexive(a: Seq<char>)
    ensures
        !key_less(a, a),
    decreases a.len(),
{
    if a.len() > 0 {
        lemma_key_less_irreflexive(a.drop_first());
    }
}

/// Of two different keys, one comes before the other.
pub proof fn lemma_key_less_total(a: Seq<char>, b: Seq<char>)
    ensures
        a == b || key_less(a, b) || key_less(b, a),
    decreases a.len(),
{
    if a.len() > 0 && b.len() > 0 && a[0] == b[0] {
        lemma_key_less_total(a.drop_first(), b.drop_first());
        if a.drop_first() == b.drop_first() {
            assert(a =~= b) by {
                assert forall|i: int| 0 <= i < a.len() implies a[i] == b[i] by {
                    if i > 0 {
                        assert(a[i] == a.drop_first()[i - 1]);
                        assert(b[i] == b.drop_first()[i - 1]);
                    }
                }
            }
        }
    } else if a.len() == 0 && b.len() == 0 {
        assert(a =~= b);
    }
}

/// The order of keys is transitive.
pub proof fn lemma_key_less_transitive(a: Seq<char>, b: Seq<char>, c: Seq<char>)
    requires
        key_less(a, b),
        key_less(b, c),
    ensures
        key_less(a, c),
    decreases a.len(),
{
    if a.len() > 0 && b.len() > 0 && c.len() > 0 && a[0] == b[0] && b[0] == c[0] {
        lemma_key_less_transitive(a.drop_first(), b.drop_first(), c.drop_first());
    }
}

/// Keys in order are distinct.
pub proof fn lemma_sorted_distinct(entries: Seq<(String, LeptValue)>)
    requires
        keys_sorted(entries),
    ensures
        keys_distinct(entries),
{
    assert forall|i: int, j: int|
        0 <= i < entries.len() && 0 <= j < entries.len() && i != j implies entries[i].0@
        != entries[j].0@ by {
        lemma_key_less_irreflexive(entries[i].0@);
        if i < j {
            assert(key_less(entries[i].0@, entries[j].0@));
        } else {
            assert(key_less(entries[j].0@, entries[i].0@));
        }
    }
}

/// Every object of the tree holds its members in the order of their keys,
/// each key once.
pub open spec fn well_formed(v: LeptValue) -> bool
    decreases v,
{
    match v {
        LeptValue::Array(items) => items_well_formed(items@),
        LeptValue::Object(entries) => keys_sorted(entries@) && entries_well_formed(entries@),
        _ => true,
    }
}

pub open spec fn items_well_formed(items: Seq<LeptValue>) -> bool
    decreases items,
{
    if items.len() == 0 {
        true
    } else {
        items_well_formed(items.subrange(0, items.len() - 1)) && well_formed(
            items[items.len() - 1],
        )
    }
}

pub open spec fn entries_well_formed(entries: Seq<(String, LeptValue)>) -> bool
    decreases entries,
{
    if entries.len() == 0 {
        true
    } else {
        entries_well_formed(entries.subrange(0, entries.len() - 1)) && well_formed(
            entries[entries.len() - 1].1,
        )
    }
}

impl View for LeptValue {
    type V = JsonValue;

    open spec fn view(&self) -> JsonValue {
        value_of(*self)
    }
}

/// Appending a node appends its value.
pub proof fn lemma_items_push(items: Seq<LeptValue>, v: LeptValue)
    ensures
        items_value(items.push(v)) == items_value(items).push(value_of(v)),
        items_well_formed(items.push(v)) == (items_well_formed(items) && well_formed(v)),
{
    assert(items.push(v).subrange(0, items.len() as int) =~= items);
}

/// Appending a member inserts it into the map.
pub proof fn lemma_entries_push(entries: Seq<(String, LeptValue)>, k: String, v: LeptValue)
    ensures
        entries_value(entries.push((k, v))) == entries_value(entries).insert(k@, value_of(v)),
        entries_well_formed(entries.push((k, v))) == (entries_well_formed(entries) && well_formed(
            v,
        )),
{
    assert(entries.push((k, v)).subrange(0, entries.len() as int) =~= entries);
}

/// A key that no member has is not in the map; one that some member has is.
pub proof fn lemma_entries_domain(entries: Seq<(String, LeptValue)>, k: Seq<char>)
    ensures
        entries_value(entries).dom().contains(k) <==> exists|i: int|
            0 <= i < entries.len() && #[trigger] entries[i].0@ == k,
    decreases entries.len(),
{
    if entries.len() > 0 {
        let prefix = entries.subrange(0, entries.len() - 1);
        lemma_entries_domain(prefix, k);
        if entries_value(entries).dom().contains(k) {
            if entries[entries.len() - 1].0@ != k {
                let i = choose|i: int| 0 <= i < prefix.len() && #[trigger] prefix[i].0@ == k;
                assert(entries[i].0@ == k);
            }
        } else {
            assert forall|i: int| 0 <= i < entries.len() implies #[trigger] entries[i].0@ != k by {
                if i < entries.len() - 1 {
                    assert(prefix[i] == entries[i]);
                }
            }
        }
    }
}

/// Putting a member whose key no member has anywhere into the list inserts
/// it into the map.
pub proof fn lemma_entries_insert(
    entries: Seq<(String, LeptValue)>,
    p: int,
    k: String,
    v: LeptValue,
)
    requires
        0 <= p <= entries.len(),
        forall|j: int| 0 <= j < entries.len() ==> #[trigger] entries[j].0@ != k@,
    ensures
        entries_value(entries.insert(p, (k, v))) == entries_value(entries).insert(k@, value_of(v)),
        entries_well_formed(entries) && well_formed(v) ==> entries_well_formed(
            entries.insert(p, (k, v)),
        ),
    decreases entries.len(),
{
    let inserted = entries.insert(p, (k, v));
    if p == entries.len() {
        assert(inserted =~= entries.push((k, v)));
        lemma_entries_push(entries, k, v);
    } else {
        let n = entries.len() - 1;
        let prefix = entries.subrange(0, n);
        let last = entries[n];
        assert(inserted =~= prefix.insert(p, (k, v)).push(last));
        assert(entries =~= prefix.push(last));
        assert forall|j: int| 0 <= j < prefix.len() implies #[trigger] prefix[j].0@ != k@ by {
            assert(prefix[j] == entries[j]);
        }
        lemma_entries_insert(prefix, p, k, v);
        lemma_entries_push(prefix.insert(p, (k, v)), last.0, last.1);
        lemma_entries_push(prefix, last.0, last.1);
        assert(last.0@ != k@);
        assert(entries_value(inserted) =~= entries_value(entries).insert(k@, value_of(v)));
    }
}

/// Replacing the value of the member with a given key, in a list whose keys
/// are distinct, inserts the new value under that key.
pub proof fn lemma_entries_replace(
    entries: Seq<(String, LeptValue)>,
    i: int,
    k: String,
    v: LeptValue,
)
    requires
        keys_distinct(entries),
        0 <= i < entries.len(),
        entries[i].0@ == k@,
    ensures
        entries_value(entries.update(i, (k, v))) == entries_value(entries).insert(k@, value_of(v)),
        keys_distinct(entries.update(i, (k, v))),
        entries_well_formed(entries) && well_formed(v) ==> entries_well_formed(
            entries.update(i, (k, v)),
        ),
    decreases entries.len(),
{
    let n = entries.len() - 1;
    let updated = entries.update(i, (k, v));
    let prefix = entries.subrange(0, n);
    assert(updated.subrange(0, n) =~= (if i == n {
        prefix
    } else {
        prefix.update(i, (k, v))
    }));
    if i == n {
        lemma_entries_domain(prefix, k@);
        assert(!entries_value(prefix).dom().contains(k@)) by {
            if entries_value(prefix).dom().contains(k@) {
                let j = choose|j: int| 0 <= j < prefix.len() && #[trigger] prefix[j].0@ == k@;
                assert(entries[j].0@ == entries[n].0@);
            }
        }
        assert(entries_value(updated) =~= entries_value(entries).insert(k@, value_of(v)));
    } else {
        lemma_entries_replace(prefix, i, k, v);
        assert(entries[n].0@ != k@);
        assert(entries_value(updated) =~= entries_value(entries).insert(k@, value_of(v)));
    }
    assert(keys_distinct(updated)) by {
        assert forall|a: int, b: int|
            0 <= a < updated.len() && 0 <= b < updated.len() && a != b implies updated[a].0@
            != updated[b].0@ by {
            assert(entries[a].0@ != entries[b].0@);
        }
    }
}

impl Default for LeptValue {
    fn default() -> (r: Self)
        ensures
            r == LeptValue::Null,
    {
        LeptValue::Null
    }
}

impl Clone for LeptValue {
    /// A copy of the node, with the same value and, where the node is well
    /// formed, well formed too.
    fn clone(&self) -> (r: Self)
        ensures
            r@ == self@,
            well_formed(*self) ==> well_formed(r),
        decreases self,
    {
        match self {
            LeptValue::Null => LeptValue::Null,
            LeptValue::False => LeptValue::False,
            LeptValue::True => LeptValue::True,
            LeptValue::Number(t) => LeptValue::Number(t.clone()),
            LeptValue::String(t) => LeptValue::String(t.clone()),
            LeptValue::Array(items) => {
                let mut copy: Vec<LeptValue> = Vec::new();
                let mut i: usize = 0;
                while i < items.len()
                    invariant
                        *self == LeptValue::Array(*items),
                        i <= items@.len(),
                        items_value(copy@) == items_value(items@.take(i as int)),
                        items_well_formed(items@) ==> items_well_formed(copy@),
                        copy@.len() == i,
                    decreases items@.len() - i,
                {
                    proof {
                        assert(decreases_to!(*self => (*self)->Array_0));
                        assert(decreases_to!(*items => items@));
                        assert(decreases_to!(items@ => items@[i as int]));
                    }
                    let item = items[i].clone();
                    proof {
                        lemma_items_push(copy@, item);
                        lemma_items_push(items@.take(i as int), items@[i as int]);
                        assert(items@.take(i + 1) =~= items@.take(i as int).push(items@[i as int]));
                        if items_well_formed(items@) {
                            lemma_items_well_formed_at(items@, i as int);
                        }
                    }
                    copy.push(item);
                    i += 1;
                }
                proof {
                    assert(items@.take(items@.len() as int) =~= items@);
                }
                LeptValue::Array(copy)
            },
            LeptValue::Object(entries) => {
                let mut copy: Vec<(String, LeptValue)> = Vec::new();
                let mut i: usize = 0;
                while i < entries.len()
                    invariant
                        *self == LeptValue::Object(*entries),
                        i <= entries@.len(),
                        entries_value(copy@) == entries_value(entries@.take(i as int)),
                        entries_well_formed(entries@) ==> entries_well_formed(copy@),
                        copy@.len() == i,
                        forall|j: int| 0 <= j < i ==> #[trigger] copy@[j].0 == entries@[j].0,
                    decreases entries@.len() - i,
                {
                    proof {
                        assert(decreases_to!(*self => (*self)->Object_0));
                        assert(decreases_to!(*entries => entries@));
                        assert(decreases_to!(entries@ => entries@[i as int]));
                        assert(decreases_to!(entries@[i as int] => entries@[i as int].1));
                    }
                    let key = entries[i].0.clone();
                    let value = entries[i].1.clone();
                    proof {
                        lemma_entries_push(copy@, key, value);
                        lemma_entries_push(entries@.take(i as int), entries@[i as int].0, entries@[i as int].1);
                        assert(entries@.take(i + 1) =~= entries@.take(i as int).push(entries@[i as int]));
                        if entries_well_formed(entries@) {
                            lemma_entries_well_formed_at(entries@, i as int);
                        }
                    }
                    copy.push((key, value));
                    i += 1;
                }
                proof {
                    assert(entries@.take(entries@.len() as int) =~= entries@);
                    if keys_sorted(entries@) {
                        assert forall|a: int, b: int|
                            0 <= a < b < copy@.len() implies key_less(
                            #[trigger] copy@[a].0@,
                            #[trigger] copy@[b].0@,
                        ) by {
                            assert(copy@[a].0 == entries@[a].0);
                            assert(copy@[b].0 == entries@[b].0);
                            assert(key_less(entries@[a].0@, entries@[b].0@));
                        }
                    }
                }
                LeptValue::Object(copy)
            },
        }
    }
}

/// Each element of a well-formed list is well formed.
pub proof fn lemma_items_well_formed_at(items: Seq<LeptValue>, i: int)
    requires
        items_well_formed(items),
        0 <= i < items.len(),
    ensures
        well_formed(items[i]),
    decreases items.len(),
{
    let n = items.len() - 1;
    if i < n {
        let prefix = items.subrange(0, n);
        lemma_items_well_formed_at(prefix, i);
        assert(prefix[i] == items[i]);
    }
}

/// Each value of a well-formed member list is well formed.
pub proof fn lemma_entries_well_formed_at(entries: Seq<(String, LeptValue)>, i: int)
    requires
        entries_well_formed(entries),
        0 <= i < entries.len(),
    ensures
        well_formed(entries[i].1),
    decreases entries.len(),
{
    let n = entries.len() - 1;
    if i < n {
        let prefix = entries.subrange(0, n);
        lemma_entries_well_formed_at(prefix, i);
        assert(prefix[i] == entries[i]);
    }
}

impl LeptValue {
    /// A boolean node: `True` or `False`.
    pub fn new_bool(v: bool) -> (r: Self)
        ensures
            r == (if v {
                LeptValue::True
            } else {
                LeptValue::False
            }),
    {
        if v {
            LeptValue::True
        } else {
            LeptValue::False
        }
    }

    /// The boolean that a `True` or `False` node holds.
    pub fn get_bool(&self) -> (r: bool)
        requires
            *self is True || *self is False,
        ensures
            r == (*self is True),
    {
        match self {
            LeptValue::True => true,
            _ => false,
        }
    }

    /// A number node with the given text.
    pub fn new_number(v: String) -> (r: Self)
        ensures
            r == LeptValue::Number(v),
    {
        LeptValue::Number(v)
    }

    /// The text of a number node.
    pub fn get_number(&self) -> (r: &str)
        requires
            *self is Number,
        ensures
            r@ == self->Number_0@,
    {
        match self {
            LeptValue::Number(v) => v.as_str(),
            _ => unreached(),
        }
    }

    /// A string node.
    pub fn new_string(s: String) -> (r: Self)
        ensures
            r == LeptValue::String(s),
    {
        LeptValue::String(s)
    }

    /// The characters of a string node.
    pub fn get_string(&self) -> (r: &str)
        requires
            *self is String,
        ensures
            r@ == self->String_0@,
    {
        match self {
            LeptValue::String(s) => s.as_str(),
            _ => unreached(),
        }
    }

    /// An array node.
    pub fn new_array(v: Vec<LeptValue>) -> (r: Self)
        ensures
            r == LeptValue::Array(v),
    {
        LeptValue::Array(v)
    }

    /// The elements of an array node.
    pub fn get_array(&self) -> (r: &Vec<LeptValue>)
        requires
            *self is Array,
        ensures
            *r == self->Array_0,
    {
        match self {
            LeptValue::Array(v) => v,
            _ => unreached(),
        }
    }

    /// An object node.
    pub fn new_object(v: Vec<(String, LeptValue)>) -> (r: Self)
        ensures
            r == LeptValue::Object(v),
    {
        LeptValue::Object(v)
    }

    /// The members of an object node.
    pub fn get_object(&self) -> (r: &Vec<(String, LeptValue)>)
        requires
            *self is Object,
        ensures
            *r == self->Object_0,
    {
        match self {
            LeptValue::Object(v) => v,
            _ => unreached(),
        }
    }

    /// Replaces the node.
    pub fn set(&mut self, v: LeptValue)
        ensures
            *final(self) == v,
    {
        *self = v
    }

    /// Replaces the node by an array node.
    pub fn set_array(&mut self, v: Vec<LeptValue>)
        ensures
            *final(self) == LeptValue::Array(v),
    {
        *self = LeptValue::new_array(v)
    }

    /// Replaces the node by an object node.
    pub fn set_object(&mut self, v: Vec<(String, LeptValue)>)
        ensures
            *final(self) == LeptValue::Object(v),
    {
        *self = LeptValue::new_object(v)
    }
}

} // verus!
