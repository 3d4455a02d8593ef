//! When two values are the same value.

use vstd::prelude::*;
use vstd::std_specs::cmp::PartialEqSpecImpl;
use crate::float::{same_number, Float};
use crate::bytes::same_bytes;
use crate::value::{distinct_keys, key_index, lemma_key_index, lookup, Dict, TNetString, Value};

verus! {

/// Whether `a` and `b` are the same value. Values of two kinds never are.
/// Two lists are the same where they have the same length and the same items
/// in the same order. Two maps are the same where they have the same number
/// of entries and each key of the first has, in the second, a value that is
/// the same as its own; the order of the entries does not count.
pub open spec fn equal(a: Value, b: Value) -> bool
    decreases a,
{
    match (a, b) {
        (Value::Str(x), Value::Str(y)) => x == y,
        (Value::Int(x), Value::Int(y)) => x == y,
        (Value::Float(x), Value::Float(y)) => same_number(x, y),
        (Value::Bool(x), Value::Bool(y)) => x == y,
        (Value::Null, Value::Null) => true,
        (Value::Dict(x), Value::Dict(y)) => x.len() == y.len() && forall|i: int|
            0 <= i < x.len() ==> match lookup(y, (#[trigger] x[i]).0) {
                Some(v) => equal(x[i].1, v),
                None => false,
            },
        (Value::List(x), Value::List(y)) => x.len() == y.len() && forall|i: int|
            0 <= i < x.len() ==> equal(#[trigger] x[i], y[i]),
        _ => false,
    }
}

/// Every value that the library can hold is the same as itself.
pub proof fn lemma_equal_reflexive(v: Value)
    requires
        v.wf(),
    ensures
        equal(v, v),
    decreases v,
{
    match v {
        Value::Dict(x) => {
            assert forall|i: int| 0 <= i < x.len() implies match lookup(x, (#[trigger] x[i]).0) {
                Some(w) => equal(x[i].1, w),
                None => false,
            } by {
                lemma_key_index(x, x[i].0, 0);
                let k = crate::value::key_index(x, x[i].0, 0);
                assert(k == i) by {
                    if k < i {
                        assert(x[k].0 != x[i].0);
                    }
                }
                lemma_equal_reflexive(x[i].1);
            }
        },
        Value::List(x) => {
            assert forall|i: int| 0 <= i < x.len() implies equal(#[trigger] x[i], x[i]) by {
                lemma_equal_reflexive(x[i]);
            }
        },
        _ => {},
    }
}

/// The keys of the entries, in their order.
pub open spec fn keys_of(entries: Seq<(Seq<u8>, Value)>) -> Seq<Seq<u8>> {
    entries.map_values(|e: (Seq<u8>, Value)| e.0)
}

/// Where each key of some entries is a key of as many others, and no key
/// comes twice in either, each key of the others is a key of the first.
pub proof fn lemma_same_keys(x: Seq<(Seq<u8>, Value)>, y: Seq<(Seq<u8>, Value)>, j: int)
    requires
        distinct_keys(x),
        distinct_keys(y),
        x.len() == y.len(),
        forall|i: int| 0 <= i < x.len() ==> lookup(y, (#[trigger] x[i]).0) is Some,
        0 <= j < y.len(),
    ensures
        lookup(x, y[j].0) is Some,
{
    let kx = keys_of(x);
    let ky = keys_of(y);
    assert(kx.no_duplicates()) by {
        assert forall|a: int, b: int| 0 <= a < kx.len() && 0 <= b < kx.len() && a != b implies kx[a]
            != kx[b] by {
            if a < b {
                assert(x[a].0 != x[b].0);
            } else {
                assert(x[b].0 != x[a].0);
            }
        }
    }
    assert(ky.no_duplicates()) by {
        assert forall|a: int, b: int| 0 <= a < ky.len() && 0 <= b < ky.len() && a != b implies ky[a]
            != ky[b] by {
            if a < b {
                assert(y[a].0 != y[b].0);
            } else {
                assert(y[b].0 != y[a].0);
            }
        }
    }
    kx.unique_seq_to_set();
    ky.unique_seq_to_set();
    assert(kx.to_set().subset_of(ky.to_set())) by {
        assert forall|k: Seq<u8>| kx.to_set().contains(k) implies ky.to_set().contains(k) by {
            let i = choose|i: int| 0 <= i < kx.len() && kx[i] == k;
            assert(x[i].0 == k);
            lemma_key_index(y, k, 0);
            let m = key_index(y, k, 0);
            assert(ky[m] == k);
        }
    }
    vstd::set_lib::lemma_subset_equality(kx.to_set(), ky.to_set());
    assert(ky.to_set().contains(ky[j]));
    assert(kx.to_set().contains(y[j].0));
    let i = choose|i: int| 0 <= i < kx.len() && kx[i] == y[j].0;
    assert(x[i].0 == y[j].0);
    lemma_key_index(x, y[j].0, 0);
}

/// Values that the library can hold are the same in both directions.
pub proof fn lemma_equal_symmetric(a: Value, b: Value)
    requires
        a.wf(),
        b.wf(),
        equal(a, b),
    ensures
        equal(b, a),
    decreases a,
{
    match (a, b) {
        (Value::Float(x), Value::Float(y)) => {
            crate::float::lemma_float_parts(x);
            crate::float::lemma_float_parts(y);
        },
        (Value::Dict(x), Value::Dict(y)) => {
            assert(Value::Dict(x)->Dict_0 == x);
            assert(Value::Dict(y)->Dict_0 == y);
            assert forall|j: int| 0 <= j < y.len() implies match lookup(x, (#[trigger] y[j]).0) {
                Some(v) => equal(y[j].1, v),
                None => false,
            } by {
                assert forall|i: int| 0 <= i < x.len() implies lookup(y, (#[trigger] x[i]).0)
                    is Some by {}
                lemma_same_keys(x, y, j);
                lemma_key_index(x, y[j].0, 0);
                let i = key_index(x, y[j].0, 0);
                lemma_key_index(y, x[i].0, 0);
                let back = key_index(y, x[i].0, 0);
                assert(back == j) by {
                    if back < j {
                        assert(y[back].0 != y[j].0);
                    }
                }
                lemma_equal_symmetric(x[i].1, y[j].1);
            }
        },
        (Value::List(x), Value::List(y)) => {
            assert(Value::List(x)->List_0 == x);
            assert(Value::List(y)->List_0 == y);
            assert forall|i: int| 0 <= i < y.len() implies equal(#[trigger] y[i], x[i]) by {
                assert(equal(x[i], y[i]));
                lemma_equal_symmetric(x[i], y[i]);
            }
        },
        _ => {},
    }
}

/// Values that are the same as a third are the same.
pub proof fn lemma_equal_transitive(a: Value, b: Value, c: Value)
    requires
        equal(a, b),
        equal(b, c),
    ensures
        equal(a, c),
    decreases a,
{
    match (a, b, c) {
        (Value::Float(x), Value::Float(y), Value::Float(z)) => {
            crate::float::lemma_float_parts(x);
            crate::float::lemma_float_parts(y);
            crate::float::lemma_float_parts(z);
        },
        (Value::Dict(x), Value::Dict(y), Value::Dict(z)) => {
            assert forall|i: int| 0 <= i < x.len() implies match lookup(z, (#[trigger] x[i]).0) {
                Some(v) => equal(x[i].1, v),
                None => false,
            } by {
                lemma_key_index(y, x[i].0, 0);
                let j = key_index(y, x[i].0, 0);
                assert(lookup(y, x[i].0) == Some(y[j].1));
                assert(lookup(z, y[j].0) is Some);
                lemma_equal_transitive(x[i].1, y[j].1, lookup(z, y[j].0)->Some_0);
            }
        },
        (Value::List(x), Value::List(y), Value::List(z)) => {
            assert forall|i: int| 0 <= i < x.len() implies equal(#[trigger] x[i], z[i]) by {
                assert(equal(x[i], y[i]));
                assert(equal(y[i], z[i]));
                lemma_equal_transitive(x[i], y[i], z[i]);
            }
        },
        _ => {},
    }
}

impl Float {
    /// Whether the two numbers are the same number.
    pub fn equals(&self, other: &Float) -> (r: bool)
        ensures
            r == same_number(*self, *other),
    {
        let a = *self;
        let b = *other;
        proof {
            crate::float::lemma_float_parts(a);
            crate::float::lemma_float_parts(b);
        }
        if a.digits() == 0 {
            b.digits() == 0
        } else {
            a.negative() == b.negative() && a.digits() == b.digits() && a.exponent()
                == b.exponent()
        }
    }
}

impl Dict {
    /// Whether the two maps are the same map: they have the same number of
    /// entries, and each key of the first has the same value in both.
    pub fn equals(&self, other: &Dict) -> (r: bool)
        ensures
            r == equal(Value::Dict(self@), Value::Dict(other@)),
        decreases self@,
    {
        if self.len() != other.len() {
            return false;
        }
        let ghost x = self@;
        let ghost y = other@;
        let n: usize = self.len();
        let mut i: usize = 0;
        while i < n
            invariant
                0 <= i <= n,
                x == self@,
                y == other@,
                n == x.len(),
                forall|j: int|
                    0 <= j < i ==> match lookup(y, (#[trigger] x[j]).0) {
                        Some(v) => equal(x[j].1, v),
                        None => false,
                    },
            decreases n - i,
        {
            match self.entry(i) {
                Some((key, v0)) => {
                    match other.get(key.as_slice()) {
                        Some(v1) => {
                            proof {
                                assert(decreases_to!(x => x[i as int]));
                                assert(decreases_to!(x[i as int] => x[i as int].1));
                            }
                            if !v0.equals(v1) {
                                return false;
                            }
                        },
                        None => {
                            return false;
                        },
                    }
                },
                None => {},
            }
            i = i + 1;
        }
        true
    }
}

impl TNetString {
    /// Whether the two values are the same value.
    pub fn equals(&self, other: &TNetString) -> (r: bool)
        ensures
            r == equal(self@, other@),
        decreases self@,
    {
        match (self, other) {
            (TNetString::Str(s0), TNetString::Str(s1)) => same_bytes(s0.as_slice(), s1.as_slice()),
            (TNetString::Int(i0), TNetString::Int(i1)) => *i0 == *i1,
            (TNetString::Float(f0), TNetString::Float(f1)) => f0.equals(f1),
            (TNetString::Bool(b0), TNetString::Bool(b1)) => *b0 == *b1,
            (TNetString::Null, TNetString::Null) => true,
            (TNetString::Dict(d0), TNetString::Dict(d1)) => {
                proof {
                    assert(decreases_to!(self@ => self@->Dict_0));
                }
                d0.equals(d1)
            },
            (TNetString::Vec(l0), TNetString::Vec(l1)) => {
                if l0.len() != l1.len() {
                    return false;
                }
                let ghost x = self@->List_0;
                let ghost y = other@->List_0;
                let n: usize = l0.len();
                let mut i: usize = 0;
                while i < n
                    invariant
                        0 <= i <= n,
                        n == l0.len(),
                        n == l1.len(),
                        x.len() == n,
                        y.len() == n,
                        self@ == Value::List(x),
                        other@ == Value::List(y),
                        forall|j: int| 0 <= j < n ==> x[j] == (#[trigger] l0[j])@,
                        forall|j: int| 0 <= j < n ==> y[j] == (#[trigger] l1[j])@,
                        forall|j: int| 0 <= j < i ==> equal(#[trigger] x[j], y[j]),
                    decreases n - i,
                {
                    proof {
                        assert(decreases_to!(self@ => self@->List_0));
                        assert(decreases_to!(x => x[i as int]));
                    }
                    if !l0[i].equals(&l1[i]) {
                        assert(!equal(x[i as int], y[i as int]));
                        return false;
                    }
                    i = i + 1;
                }
                true
            },
            _ => false,
        }
    }
}

impl PartialEq for Float {
    fn eq(&self, other: &Float) -> (r: bool) {
        self.equals(other)
    }
}

impl PartialEqSpecImpl for Float {
    open spec fn obeys_eq_spec() -> bool {
        true
    }

    open spec fn eq_spec(&self, other: &Float) -> bool {
        same_number(*self, *other)
    }
}

impl PartialEq for TNetString {
    fn eq(&self, other: &TNetString) -> (r: bool) {
        self.equals(other)
    }
}

impl PartialEqSpecImpl for TNetString {
    open spec fn obeys_eq_spec() -> bool {
        true
    }

    open spec fn eq_spec(&self, other: &TNetString) -> bool {
        equal(self@, other@)
    }
}

impl PartialEq for Dict {
    fn eq(&self, other: &Dict) -> (r: bool) {
        self.equals(other)
    }
}

impl PartialEqSpecImpl for Dict {
    open spec fn obeys_eq_spec() -> bool {
        true
    }

    open spec fn eq_spec(&self, other: &Dict) -> bool {
        equal(Value::Dict(self@), Value::Dict(other@))
    }
}

} // verus!
