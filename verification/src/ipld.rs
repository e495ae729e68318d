//! The structured values that blocks hold.

use vstd::prelude::*;
use crate::cid::{Cid, CidView};
use crate::sorted_map::{has_key, in_prefix, lemma_in_prefix_all, lemma_in_prefix_step, lemma_same_names, lemma_sorted_entries, sorted_keys, SortedMap};
use crate::text::names_equal;
use crate::cid::bytes_equal;

verus! {

broadcast use crate::sorted_map::SortedMap::lemma_value_decreases;

/// A structured value.
#[derive(Debug, PartialEq, Eq)]
pub enum Ipld {
    /// The absence of a value.
    Null,
    /// A truth value.
    Bool(bool),
    /// An integer.
    Integer(i128),
    /// A 64-bit floating point number, held by its IEEE 754 bits.
    Float(u64),
    /// A text.
    String(String),
    /// A byte string.
    Bytes(Vec<u8>),
    /// A list of values.
    List(Vec<Ipld>),
    /// A map from names to values.
    Dict(SortedMap<Ipld>),
    /// A link to another block.
    Link(Cid),
}

/// What a structured value is.
pub enum IpldView {
    Null,
    Bool(bool),
    Integer(i128),
    Float(u64),
    String(Seq<char>),
    Bytes(Seq<u8>),
    List(Seq<IpldView>),
    Dict(Map<Seq<char>, IpldView>),
    Link(CidView),
}

/// The views of the values of a map.
pub open spec fn dict_view(m: Map<Seq<char>, Ipld>) -> Map<Seq<char>, IpldView> {
    Map::new(
        |k: Seq<char>| m.contains_key(k),
        |k: Seq<char>| m[k]@,
    )
}

/// What a value is, part by part.
pub open spec fn ipld_view(v: Ipld) -> IpldView
    decreases v,
{
    match v {
        Ipld::Null => IpldView::Null,
        Ipld::Bool(b) => IpldView::Bool(b),
        Ipld::Integer(i) => IpldView::Integer(i),
        Ipld::Float(bits) => IpldView::Float(bits),
        Ipld::String(s) => IpldView::String(s@),
        Ipld::Bytes(b) => IpldView::Bytes(b@),
        Ipld::List(items) => IpldView::List(
            Seq::new(
                items@.len(),
                |i: int|
                    if 0 <= i < items@.len() {
                        ipld_view(items@[i])
                    } else {
                        IpldView::Null
                    },
            ),
        ),
        Ipld::Dict(m) => IpldView::Dict(
            Map::new(
                |k: Seq<char>| m@.contains_key(k),
                |k: Seq<char>|
                    if m@.contains_key(k) {
                        ipld_view(m@[k])
                    } else {
                        IpldView::Null
                    },
            ),
        ),
        Ipld::Link(cid) => IpldView::Link(cid@),
    }
}

impl View for Ipld {
    type V = IpldView;

    open spec fn view(&self) -> IpldView {
        ipld_view(*self)
    }
}

/// The views of the values of a list.
pub open spec fn list_view(items: Seq<Ipld>) -> Seq<IpldView> {
    Seq::new(items.len(), |i: int| items[i]@)
}

/// The view of a list value is the list of its values' views.
pub proof fn lemma_list_view(items: Vec<Ipld>)
    ensures
        Ipld::List(items)@ == IpldView::List(list_view(items@)),
{
    assert(ipld_view(Ipld::List(items))->List_0 =~= list_view(items@));
}

/// The view of a map value is the map of its values' views.
pub proof fn lemma_dict_view(m: SortedMap<Ipld>)
    ensures
        Ipld::Dict(m)@ == IpldView::Dict(dict_view(m@)),
{
    assert(ipld_view(Ipld::Dict(m))->Dict_0 =~= dict_view(m@));
}

/// Putting a value into a map puts its view into the map's view.
pub proof fn lemma_dict_view_insert(m: Map<Seq<char>, Ipld>, k: Seq<char>, v: Ipld)
    ensures
        dict_view(m.insert(k, v)) == dict_view(m).insert(k, v@),
{
    assert(dict_view(m.insert(k, v)) =~= dict_view(m).insert(k, v@));
}

/// Taking a name out of a map takes it out of the map's view.
pub proof fn lemma_dict_view_remove(m: Map<Seq<char>, Ipld>, k: Seq<char>)
    ensures
        dict_view(m.remove(k)) == dict_view(m).remove(k),
{
    assert(dict_view(m.remove(k)) =~= dict_view(m).remove(k));
}

/// The view of the map without entries has no entries.
pub proof fn lemma_dict_view_empty()
    ensures
        dict_view(Map::<Seq<char>, Ipld>::empty()) == Map::<Seq<char>, IpldView>::empty(),
{
    assert(dict_view(Map::<Seq<char>, Ipld>::empty()) =~= Map::<Seq<char>, IpldView>::empty());
}

/// A copy of a map of values.
pub fn clone_dict(m: &SortedMap<Ipld>) -> (r: SortedMap<Ipld>)
    ensures
        dict_view(r@) == dict_view(m@),
    decreases m,
{
    let n = m.len();
    let mut out: SortedMap<Ipld> = SortedMap::new();
    let mut i: usize = 0;
    proof {
        if n > 0 {
            lemma_in_prefix_step(m.seq(), 0);
        }
    }
    while i < n
        invariant
            i <= n,
            n == m.seq().len(),
            sorted_keys(m.seq()),
            forall|k: Seq<char>| #[trigger] out@.contains_key(k) <==> in_prefix(m.seq(), i as int, k),
            forall|k: Seq<char>| #[trigger] out@.contains_key(k) ==> out@[k]@ == m@[k]@,
        decreases n - i,
    {
        proof {
            lemma_in_prefix_step(m.seq(), i as int);
        }
        let key = m.key_at(i).clone();
        let value = m.value_at(i).clone();
        out.push_back(key, value);
        i = i + 1;
    }
    proof {
        lemma_in_prefix_all(m.seq());
        assert(dict_view(out@) =~= dict_view(m@));
    }
    out
}

/// A copy of a list of values.
pub fn clone_list(items: &Vec<Ipld>) -> (r: Vec<Ipld>)
    ensures
        r@.len() == items@.len(),
        forall|i: int| 0 <= i < r@.len() ==> (#[trigger] r@[i])@ == items@[i]@,
    decreases items,
{
    let n = items.len();
    let mut out: Vec<Ipld> = Vec::new();
    let mut i: usize = 0;
    while i < n
        invariant
            i <= n,
            n == items@.len(),
            out@.len() == i,
            forall|j: int| 0 <= j < i ==> (#[trigger] out@[j])@ == items@[j]@,
        decreases n - i,
    {
        let value = items[i].clone();
        out.push(value);
        i = i + 1;
    }
    out
}

/// Whether two maps of values hold the same values under the same names.
pub fn dict_equal(a: &SortedMap<Ipld>, b: &SortedMap<Ipld>) -> (r: bool)
    ensures
        r == (dict_view(a@) == dict_view(b@)),
    decreases a,
{
    let n = a.len();
    let m = b.len();
    proof {
        lemma_sorted_entries(a.seq());
        lemma_sorted_entries(b.seq());
        lemma_in_prefix_all(a.seq());
        lemma_in_prefix_all(b.seq());
        if dict_view(a@) == dict_view(b@) {
            assert forall|k: Seq<char>| has_key(a.seq(), k) == has_key(b.seq(), k) by {
                assert(dict_view(a@).contains_key(k) == a@.contains_key(k));
                assert(dict_view(b@).contains_key(k) == b@.contains_key(k));
            }
            lemma_same_names(a.seq(), b.seq());
        }
    }
    if n != m {
        return false;
    }
    let mut i: usize = 0;
    while i < n
        invariant
            i <= n,
            n == a.seq().len(),
            n == b.seq().len(),
            sorted_keys(a.seq()),
            sorted_keys(b.seq()),
            dict_view(a@) == dict_view(b@) ==> forall|j: int| 0 <= j < n ==> (#[trigger] a.seq()[j]).0 == b.seq()[j].0,
            forall|j: int| 0 <= j < i ==> (#[trigger] a.seq()[j]).0 == b.seq()[j].0 && a.seq()[j].1@ == b.seq()[j].1@,
        decreases n - i,
    {
        proof {
            lemma_sorted_entries(a.seq());
            lemma_sorted_entries(b.seq());
        }
        if !names_equal(a.key_at(i).as_str(), b.key_at(i).as_str()) {
            return false;
        }
        if !ipld_equal(a.value_at(i), b.value_at(i)) {
            proof {
                let k = a.seq()[i as int].0;
                assert(a@[k]@ == dict_view(a@)[k]);
                assert(b@[k]@ == dict_view(b@)[k]);
            }
            return false;
        }
        i = i + 1;
    }
    proof {
        lemma_sorted_entries(a.seq());
        lemma_sorted_entries(b.seq());
        lemma_in_prefix_all(a.seq());
        lemma_in_prefix_all(b.seq());
        assert forall|k: Seq<char>| a@.contains_key(k) == b@.contains_key(k) by {
            if a@.contains_key(k) {
                let j = choose|j: int| 0 <= j < n && j < a.seq().len() && (#[trigger] a.seq()[j]).0 == k;
                assert(b.seq()[j].0 == k);
                assert(in_prefix(b.seq(), n as int, k));
            }
            if b@.contains_key(k) {
                let j = choose|j: int| 0 <= j < n && j < b.seq().len() && (#[trigger] b.seq()[j]).0 == k;
                assert(a.seq()[j].0 == k);
                assert(in_prefix(a.seq(), n as int, k));
            }
        }
        assert forall|k: Seq<char>| a@.contains_key(k) implies a@[k]@ == b@[k]@ by {
            let j = choose|j: int| 0 <= j < n && j < a.seq().len() && (#[trigger] a.seq()[j]).0 == k;
            assert(a.seq()[j].0 == b.seq()[j].0);
        }
        assert(dict_view(a@) =~= dict_view(b@));
    }
    true
}

/// Whether two lists of values hold the same values in the same order.
pub fn list_equal(a: &Vec<Ipld>, b: &Vec<Ipld>) -> (r: bool)
    ensures
        r == (list_view(a@) == list_view(b@)),
    decreases a,
{
    if a.len() != b.len() {
        proof {
            assert(list_view(a@).len() != list_view(b@).len());
        }
        return false;
    }
    let n = a.len();
    let mut i: usize = 0;
    while i < n
        invariant
            i <= n,
            n == a@.len(),
            n == b@.len(),
            forall|j: int| 0 <= j < i ==> (#[trigger] a@[j])@ == b@[j]@,
        decreases n - i,
    {
        if !ipld_equal(&a[i], &b[i]) {
            proof {
                assert(list_view(a@)[i as int] == a@[i as int]@);
                assert(list_view(b@)[i as int] == b@[i as int]@);
            }
            return false;
        }
        i = i + 1;
    }
    proof {
        assert(list_view(a@) =~= list_view(b@));
    }
    true
}

/// Whether two values are the same.
pub fn ipld_equal(a: &Ipld, b: &Ipld) -> (r: bool)
    ensures
        r == (a@ == b@),
    decreases a,
{
    match (a, b) {
        (Ipld::Null, Ipld::Null) => true,
        (Ipld::Bool(x), Ipld::Bool(y)) => *x == *y,
        (Ipld::Integer(x), Ipld::Integer(y)) => *x == *y,
        (Ipld::Float(x), Ipld::Float(y)) => *x == *y,
        (Ipld::String(x), Ipld::String(y)) => names_equal(x.as_str(), y.as_str()),
        (Ipld::Bytes(x), Ipld::Bytes(y)) => bytes_equal(x, y),
        (Ipld::List(x), Ipld::List(y)) => {
            proof {
                lemma_list_view(*x);
                lemma_list_view(*y);
            }
            list_equal(x, y)
        },
        (Ipld::Dict(x), Ipld::Dict(y)) => {
            proof {
                lemma_dict_view(*x);
                lemma_dict_view(*y);
            }
            dict_equal(x, y)
        },
        (Ipld::Link(x), Ipld::Link(y)) => x.same(y),
        _ => false,
    }
}

impl Clone for Ipld {
    fn clone(&self) -> (r: Self)
        ensures
            r@ == self@,
        decreases self,
    {
        match self {
            Ipld::Null => Ipld::Null,
            Ipld::Bool(b) => Ipld::Bool(*b),
            Ipld::Integer(i) => Ipld::Integer(*i),
            Ipld::Float(bits) => Ipld::Float(*bits),
            Ipld::String(s) => Ipld::String(s.clone()),
            Ipld::Bytes(b) => Ipld::Bytes(b.clone()),
            Ipld::List(items) => {
                let copy = clone_list(items);
                proof {
                    lemma_list_view(copy);
                    lemma_list_view(*items);
                    assert(list_view(copy@) =~= list_view(items@));
                }
                Ipld::List(copy)
            },
            Ipld::Dict(m) => {
                let copy = clone_dict(m);
                proof {
                    lemma_dict_view(copy);
                    lemma_dict_view(*m);
                }
                Ipld::Dict(copy)
            },
            Ipld::Link(cid) => Ipld::Link(cid.clone()),
        }
    }
}

} // verus!
