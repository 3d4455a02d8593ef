//! The values of the format: what they are, and how the library holds them.

use vstd::prelude::*;
use crate::bytes::same_bytes;
use crate::float::Float;

verus! {

/// A value as the contracts see it.
pub ghost enum Value {
    /// A string of bytes; it need not be text.
    Str(Seq<u8>),
    /// An integer.
    Int(int),
    /// A floating-point number.
    Float(Float),
    /// A boolean.
    Bool(bool),
    /// Null.
    Null,
    /// A map from byte strings to values, as its entries in the order in
    /// which their keys first came.
    Dict(Seq<(Seq<u8>, Value)>),
    /// A list of values.
    List(Seq<Value>),
}

/// The index of the first entry at or after `from` whose key is `key`; the
/// number of entries where there is none.
pub open spec fn key_index(entries: Seq<(Seq<u8>, Value)>, key: Seq<u8>, from: int) -> int
    decreases entries.len() - from,
{
    if 0 <= from < entries.len() && entries[from].0 != key {
        key_index(entries, key, from + 1)
    } else {
        from
    }
}

/// The value that the entries give to `key`.
pub open spec fn lookup(entries: Seq<(Seq<u8>, Value)>, key: Seq<u8>) -> Option<Value> {
    let i = key_index(entries, key, 0);
    if i < entries.len() {
        Some(entries[i].1)
    } else {
        None
    }
}

/// The entries after `key` was given `value`: the entry of `key` holds the
/// new value in its old place, or a new entry stands at the end.
pub open spec fn insert_entry(entries: Seq<(Seq<u8>, Value)>, key: Seq<u8>, value: Value) -> Seq<
    (Seq<u8>, Value),
> {
    let i = key_index(entries, key, 0);
    if i < entries.len() {
        entries.update(i, (key, value))
    } else {
        entries.push((key, value))
    }
}

/// Whether no two entries have the same key.
pub open spec fn distinct_keys(entries: Seq<(Seq<u8>, Value)>) -> bool {
    forall|i: int, j: int|
        0 <= i < j < entries.len() ==> (#[trigger] entries[i]).0 != (#[trigger] entries[j]).0
}

impl Value {
    /// Whether the value is one that the library can hold: its integers fit
    /// the machine, its floating-point numbers are in their accepted form,
    /// and no map has a key twice.
    pub open spec fn wf(self) -> bool
        decreases self,
    {
        match self {
            Value::Str(_) => true,
            Value::Int(i) => i64::MIN <= i <= i64::MAX,
            Value::Float(f) => f.wf(),
            Value::Bool(_) => true,
            Value::Null => true,
            Value::Dict(entries) => distinct_keys(entries) && forall|i: int|
                0 <= i < entries.len() ==> (#[trigger] entries[i]).1.wf(),
            Value::List(items) => forall|i: int| 0 <= i < items.len() ==> (#[trigger] items[i]).wf(),
        }
    }

    /// Whether lists and maps nest at most `depth` levels deep in the
    /// value: none at all for zero, and for one, a list or a map of values
    /// that are neither.
    pub open spec fn nests_within(self, depth: nat) -> bool
        decreases self,
    {
        match self {
            Value::Dict(entries) => depth > 0 && forall|i: int|
                0 <= i < entries.len() ==> (#[trigger] entries[i]).1.nests_within((depth - 1) as nat),
            Value::List(items) => depth > 0 && forall|i: int|
                0 <= i < items.len() ==> (#[trigger] items[i]).nests_within((depth - 1) as nat),
            _ => true,
        }
    }
}

/// `key_index` finds the first entry with the key, if there is one.
pub proof fn lemma_key_index(entries: Seq<(Seq<u8>, Value)>, key: Seq<u8>, from: int)
    requires
        0 <= from <= entries.len(),
    ensures
        from <= key_index(entries, key, from) <= entries.len(),
        forall|i: int| from <= i < key_index(entries, key, from) ==> (#[trigger] entries[i]).0 != key,
        key_index(entries, key, from) < entries.len() ==> entries[key_index(entries, key, from)].0
            == key,
    decreases entries.len() - from,
{
    if from < entries.len() && entries[from].0 != key {
        lemma_key_index(entries, key, from + 1);
    }
}

/// Giving a key a value keeps the keys distinct.
pub proof fn lemma_insert_distinct(entries: Seq<(Seq<u8>, Value)>, key: Seq<u8>, value: Value)
    requires
        distinct_keys(entries),
    ensures
        distinct_keys(insert_entry(entries, key, value)),
{
    lemma_key_index(entries, key, 0);
    let after = insert_entry(entries, key, value);
    let k = key_index(entries, key, 0);
    assert forall|i: int, j: int| 0 <= i < j < after.len() implies (#[trigger] after[i]).0 != (
    #[trigger] after[j]).0 by {
        if k < entries.len() {
            assert(after[i].0 == entries[i].0);
            assert(after[j].0 == entries[j].0);
        } else if j < entries.len() {
            assert(after[i] == entries[i]);
            assert(after[j] == entries[j]);
        } else {
            assert(after[i] == entries[i]);
        }
    }
}

/// A key that no entry has gets a new entry at the end.
pub proof fn lemma_insert_fresh(entries: Seq<(Seq<u8>, Value)>, key: Seq<u8>, value: Value)
    requires
        forall|i: int| 0 <= i < entries.len() ==> (#[trigger] entries[i]).0 != key,
    ensures
        insert_entry(entries, key, value) == entries.push((key, value)),
{
    lemma_key_index(entries, key, 0);
}

/// A map from byte strings to values. It keeps its entries in the order in
/// which their keys were first inserted.
#[derive(Debug)]
pub struct Dict {
    entries: Vec<(Vec<u8>, TNetString)>,
}

/// A value of the format.
#[derive(Debug)]
pub enum TNetString {
    /// A string of bytes; it need not be text.
    Str(Vec<u8>),
    /// An integer.
    Int(i64),
    /// A floating-point number.
    Float(Float),
    /// A boolean.
    Bool(bool),
    /// Null.
    Null,
    /// A map from byte strings to values.
    Dict(Dict),
    /// A list of values.
    Vec(Vec<TNetString>),
}

impl View for Dict {
    type V = Seq<(Seq<u8>, Value)>;

    closed spec fn view(&self) -> Seq<(Seq<u8>, Value)>
        decreases self,
    {
        Seq::new(
            self.entries.len() as nat,
            |i: int|
                if 0 <= i < self.entries.len() {
                    (self.entries[i].0@, self.entries[i].1@)
                } else {
                    (Seq::empty(), Value::Null)
                },
        )
    }
}

impl View for TNetString {
    type V = Value;

    open spec fn view(&self) -> Value
        decreases self,
    {
        match self {
            TNetString::Str(s) => Value::Str(s@),
            TNetString::Int(i) => Value::Int(*i as int),
            TNetString::Float(f) => Value::Float(*f),
            TNetString::Bool(b) => Value::Bool(*b),
            TNetString::Null => Value::Null,
            TNetString::Dict(d) => Value::Dict(d@),
            TNetString::Vec(items) => Value::List(
                Seq::new(
                    items.len() as nat,
                    |i: int| if 0 <= i < items.len() { items[i]@ } else { Value::Null },
                ),
            ),
        }
    }
}

/// The values that the items of a list stand for.
pub open spec fn views(items: Seq<TNetString>) -> Seq<Value> {
    Seq::new(items.len(), |i: int| items[i]@)
}

/// The value that an optional item stands for.
pub open spec fn view_of(item: Option<TNetString>) -> Option<Value> {
    match item {
        Some(t) => Some(t@),
        None => None,
    }
}

/// A list stands for the values of its items.
pub proof fn lemma_view_of_list(items: Vec<TNetString>)
    ensures
        TNetString::Vec(items)@ == Value::List(views(items@)),
{
    assert(TNetString::Vec(items)@->List_0 =~= views(items@));
}

impl Dict {
    /// A map without entries.
    pub fn new() -> (d: Dict)
        ensures
            d@ == Seq::<(Seq<u8>, Value)>::empty(),
    {
        let d = Dict { entries: Vec::new() };
        assert(d@ =~= Seq::<(Seq<u8>, Value)>::empty());
        d
    }

    /// The number of entries.
    pub fn len(&self) -> (n: usize)
        ensures
            n == self@.len(),
    {
        self.entries.len()
    }

    /// Whether the map has no entry.
    pub fn is_empty(&self) -> (r: bool)
        ensures
            r == (self@.len() == 0),
    {
        self.entries.len() == 0
    }

    /// The key and the value of the entry at `index`, counted from zero in
    /// the order of insertion; `None` past the last entry.
    pub fn entry(&self, index: usize) -> (r: Option<(&Vec<u8>, &TNetString)>)
        ensures
            r is Some <==> index < self@.len(),
            r matches Some(e) ==> e.0@ == self@[index as int].0 && e.1@ == self@[index as int].1,
    {
        if index < self.entries.len() {
            let e = &self.entries[index];
            Some((&e.0, &e.1))
        } else {
            None
        }
    }

    /// The index of the entry of `key`, or the number of entries.
    fn find(&self, key: &[u8]) -> (i: usize)
        ensures
            i == key_index(self@, key@, 0),
            i <= self@.len(),
    {
        let mut i: usize = 0;
        while i < self.entries.len()
            invariant
                0 <= i <= self.entries.len(),
                key_index(self@, key@, 0) == key_index(self@, key@, i as int),
            decreases self.entries.len() - i,
        {
            if same_bytes(self.entries[i].0.as_slice(), key) {
                return i;
            }
            i = i + 1;
        }
        i
    }

    /// The value of `key`, if the map has one.
    pub fn get(&self, key: &[u8]) -> (r: Option<&TNetString>)
        ensures
            view_of_ref(r) == lookup(self@, key@),
    {
        let i = self.find(key);
        if i < self.entries.len() {
            Some(&self.entries[i].1)
        } else {
            None
        }
    }

    /// Gives `key` the value `value`. A key that the map has keeps its
    /// place and loses its old value; a new key goes to the end.
    pub fn insert(&mut self, key: Vec<u8>, value: TNetString)
        ensures
            final(self)@ == insert_entry(old(self)@, key@, value@),
            distinct_keys(old(self)@) ==> distinct_keys(final(self)@),
    {
        let i = self.find(key.as_slice());
        proof {
            if distinct_keys(old(self)@) {
                lemma_insert_distinct(old(self)@, key@, value@);
            }
        }
        if i < self.entries.len() {
            self.entries.set(i, (key, value));
        } else {
            self.entries.push((key, value));
        }
        assert(final(self)@ =~= insert_entry(old(self)@, key@, value@));
    }
}

/// The value that an optional reference to an item stands for.
pub open spec fn view_of_ref(item: Option<&TNetString>) -> Option<Value> {
    match item {
        Some(t) => Some(t@),
        None => None,
    }
}

impl Clone for Dict {
    /// A map with the same entries.
    fn clone(&self) -> (r: Dict)
        ensures
            r@ == self@,
        decreases self@,
    {
        let mut entries: Vec<(Vec<u8>, TNetString)> = Vec::new();
        let n: usize = self.entries.len();
        let mut i: usize = 0;
        while i < n
            invariant
                0 <= i <= n,
                n == self.entries.len(),
                entries.len() == i,
                forall|j: int|
                    0 <= j < i ==> (#[trigger] entries[j]).0@ == self.entries[j].0@ && entries[j].1@
                        == self.entries[j].1@,
            decreases n - i,
        {
            let key: Vec<u8> = vstd::slice::slice_to_vec(self.entries[i].0.as_slice());
            proof {
                assert(decreases_to!(self@ => self@[i as int]));
                assert(decreases_to!(self@[i as int] => self@[i as int].1));
            }
            let value: TNetString = self.entries[i].1.clone();
            entries.push((key, value));
            i = i + 1;
        }
        let r = Dict { entries };
        assert(r@ =~= self@);
        r
    }
}

impl Clone for TNetString {
    /// The same value once more.
    fn clone(&self) -> (r: TNetString)
        ensures
            r@ == self@,
        decreases self@,
    {
        match self {
            TNetString::Str(s) => TNetString::Str(vstd::slice::slice_to_vec(s.as_slice())),
            TNetString::Int(i) => TNetString::Int(*i),
            TNetString::Float(f) => TNetString::Float(*f),
            TNetString::Bool(b) => TNetString::Bool(*b),
            TNetString::Null => TNetString::Null,
            TNetString::Dict(d) => {
                proof {
                    assert(decreases_to!(self@ => self@->Dict_0));
                }
                TNetString::Dict(d.clone())
            },
            TNetString::Vec(items) => {
                let ghost values = self@->List_0;
                let mut copies: Vec<TNetString> = Vec::new();
                let n: usize = items.len();
                let mut i: usize = 0;
                while i < n
                    invariant
                        0 <= i <= n,
                        n == items.len(),
                        copies.len() == i,
                        self@ == Value::List(values),
                        values.len() == n,
                        forall|j: int| 0 <= j < n ==> values[j] == (#[trigger] items[j])@,
                        forall|j: int| 0 <= j < i ==> (#[trigger] copies[j])@ == items[j]@,
                    decreases n - i,
                {
                    proof {
                        assert(decreases_to!(self@ => self@->List_0));
                        assert(decreases_to!(values => values[i as int]));
                    }
                    let copy: TNetString = items[i].clone();
                    copies.push(copy);
                    i = i + 1;
                }
                let r = TNetString::Vec(copies);
                assert(r@->List_0 =~= self@->List_0);
                r
            },
        }
    }
}

} // verus!
