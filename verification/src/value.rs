//! The argument payload attached to a leaf invocation in source text.

use vstd::prelude::*;

verus! {

/// An arithmetic operator of the expression mini-language.
#[derive(Debug, Clone, Copy, PartialEq, Eq, Structural)]
pub enum Operator {
    Plus,
    Minus,
    Multiply,
    Divide,
}

/// The argument of a leaf invocation.  Values are produced only by the
/// parser and are immutable once constructed.  A map is kept as its
/// entry list in source order; lookups take the first hit.
#[derive(Debug)]
pub enum Value {
    String(String),
    Dict(Vec<(String, Value)>),
    Array(Vec<Value>),
    Integer(i64),
    Operator(Operator),
    Unknown(char),
}

/// The mathematical value of a `Value`: strings become character
/// sequences, integers become unbounded, and a map becomes its entry
/// sequence in source order.
pub enum ValueV {
    Str(Seq<char>),
    Dict(Seq<(Seq<char>, ValueV)>),
    List(Seq<ValueV>),
    Int(int),
    Op(Operator),
    Unk(char),
}

/// The mathematical value of a `Value`.
pub open spec fn value_view(v: Value) -> ValueV
    decreases v,
{
    match v {
        Value::String(s) => ValueV::Str(s@),
        Value::Dict(entries) => ValueV::Dict(entry_views(entries@)),
        Value::Array(items) => ValueV::List(value_views(items@)),
        Value::Integer(n) => ValueV::Int(n as int),
        Value::Operator(op) => ValueV::Op(op),
        Value::Unknown(c) => ValueV::Unk(c),
    }
}

/// The mathematical values of a list of `Value`s, in order.
pub open spec fn value_views(items: Seq<Value>) -> Seq<ValueV>
    decreases items,
{
    if items.len() == 0 {
        Seq::empty()
    } else {
        seq![value_view(items[0])] + value_views(items.drop_first())
    }
}

/// The mathematical values of a map's entries, in order.
pub open spec fn entry_views(entries: Seq<(String, Value)>) -> Seq<(Seq<char>, ValueV)>
    decreases entries,
{
    if entries.len() == 0 {
        Seq::empty()
    } else {
        seq![(entries[0].0@, value_view(entries[0].1))] + entry_views(entries.drop_first())
    }
}

pub proof fn lemma_value_views(items: Seq<Value>)
    ensures
        value_views(items).len() == items.len(),
        forall|i: int|
            0 <= i < items.len() ==> value_views(items)[i] == value_view(items[i]),
    decreases items,
{
    if items.len() > 0 {
        lemma_value_views(items.drop_first());
    }
}

pub proof fn lemma_entry_views(entries: Seq<(String, Value)>)
    ensures
        entry_views(entries).len() == entries.len(),
        forall|i: int|
            0 <= i < entries.len() ==> entry_views(entries)[i] == (
                entries[i].0@,
                value_view(entries[i].1),
            ),
    decreases entries,
{
    if entries.len() > 0 {
        lemma_entry_views(entries.drop_first());
    }
}

/// The recursive value views coincide with the element-wise deep view.
pub proof fn lemma_value_views_deep(items: &Vec<Value>)
    ensures
        value_views(items@) == items.deep_view(),
{
    lemma_value_views(items@);
    assert(value_views(items@) =~= items.deep_view());
}

impl View for Value {
    type V = ValueV;

    open spec fn view(&self) -> ValueV {
        value_view(*self)
    }
}

impl DeepView for Value {
    type V = ValueV;

    open spec fn deep_view(&self) -> ValueV {
        self.view()
    }
}

/// The first entry of a map value with the given key, in entry order.
pub open spec fn dict_lookup(entries: Seq<(Seq<char>, ValueV)>, key: Seq<char>) -> Option<ValueV>
    decreases entries.len(),
{
    if entries.len() == 0 {
        None
    } else if entries[0].0 == key {
        Some(entries[0].1)
    } else {
        dict_lookup(entries.drop_first(), key)
    }
}

/// Looks a key up among a map value's entries, taking the first hit.
pub fn map_get<'a>(entries: &'a Vec<(String, Value)>, key: &str) -> (r: Option<&'a Value>)
    ensures
        ({
            match dict_lookup(entry_views(entries@), key@) {
                Some(v) => r matches Some(rv) && rv@ == v,
                None => r is None,
            }
        }),
{
    let ghost entries_v = entry_views(entries@);
    proof {
        lemma_entry_views(entries@);
        assert(entries_v.skip(0) =~= entries_v);
    }
    let mut i: usize = 0;
    while i < entries.len()
        invariant
            0 <= i <= entries@.len(),
            entries_v == entry_views(entries@),
            entries_v.len() == entries@.len(),
            forall|j: int|
                0 <= j < entries@.len() ==> entries_v[j] == (
                    entries@[j].0@,
                    value_view(entries@[j].1),
                ),
            dict_lookup(entries_v.skip(i as int), key@) == dict_lookup(entries_v, key@),
        decreases entries@.len() - i,
    {
        proof {
            assert(entries_v.skip(i as int).len() > 0);
            assert(entries_v.skip(i as int)[0] == entries_v[i as int]);
        }
        if crate::chars::str_eq(entries[i].0.as_str(), key) {
            return Some(&entries[i].1);
        }
        proof {
            assert(entries_v.skip(i as int).drop_first() =~= entries_v.skip(i as int + 1));
        }
        i += 1;
    }
    proof {
        assert(entries_v.skip(i as int).len() == 0);
    }
    None
}

/// Whether any entry of a map value holds the key.
pub open spec fn dict_has_key(entries: Seq<(Seq<char>, ValueV)>, key: Seq<char>) -> bool {
    exists|i: int| 0 <= i < entries.len() && entries[i].0 == key
}

/// How many distinct keys a map value holds: an entry counts only when
/// no earlier entry holds its key.
pub open spec fn distinct_key_count(entries: Seq<(Seq<char>, ValueV)>) -> int
    decreases entries.len(),
{
    if entries.len() == 0 {
        0
    } else {
        distinct_key_count(entries.drop_last()) + (
        if dict_has_key(entries.drop_last(), entries.last().0) {
            0int
        } else {
            1int
        })
    }
}

/// Counts a map value's distinct keys.
pub fn count_distinct_keys(entries: &Vec<(String, Value)>) -> (r: usize)
    ensures
        r as int == distinct_key_count(entry_views(entries@)),
{
    let ghost evs = entry_views(entries@);
    proof {
        lemma_entry_views(entries@);
        assert(evs.take(0) =~= Seq::<(Seq<char>, ValueV)>::empty());
    }
    let mut count: usize = 0;
    let mut i: usize = 0;
    while i < entries.len()
        invariant
            0 <= i <= entries@.len(),
            evs == entry_views(entries@),
            evs.len() == entries@.len(),
            forall|j: int|
                0 <= j < entries@.len() ==> evs[j] == (
                    entries@[j].0@,
                    value_view(entries@[j].1),
                ),
            count as int == distinct_key_count(evs.take(i as int)),
            count <= i,
        decreases entries@.len() - i,
    {
        let mut seen = false;
        let mut j: usize = 0;
        while j < i
            invariant
                0 <= j <= i < entries@.len(),
                evs == entry_views(entries@),
                evs.len() == entries@.len(),
                forall|k: int|
                    0 <= k < entries@.len() ==> evs[k] == (
                        entries@[k].0@,
                        value_view(entries@[k].1),
                    ),
                seen ==> dict_has_key(evs.take(i as int), evs[i as int].0),
                !seen ==> forall|k: int| 0 <= k < j ==> evs[k].0 != evs[i as int].0,
            decreases i - j,
        {
            if crate::chars::str_eq(entries[j].0.as_str(), entries[i].0.as_str()) {
                proof {
                    assert(evs.take(i as int)[j as int] == evs[j as int]);
                }
                seen = true;
            }
            j += 1;
        }
        proof {
            let taken = evs.take(i as int + 1);
            assert(taken.drop_last() =~= evs.take(i as int));
            assert(taken.last() == evs[i as int]);
            if !seen {
                assert(!dict_has_key(evs.take(i as int), evs[i as int].0)) by {
                    assert(forall|k: int|
                        0 <= k < i ==> #[trigger] evs.take(i as int)[k] == evs[k]);
                }
            }
        }
        if !seen {
            count += 1;
        }
        i += 1;
    }
    proof {
        assert(evs.take(i as int) =~= evs);
    }
    count
}

} // verus!
