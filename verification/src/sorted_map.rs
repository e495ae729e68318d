//! A map from names to values, held in the order of the names.

use vstd::prelude::*;
use crate::text::{compare_names, name_lt, Order};
use crate::text::{lemma_name_lt_asymmetric, lemma_name_lt_transitive};

verus! {

/// The names of `s` rise strictly from entry to entry.
pub open spec fn sorted_keys<V>(s: Seq<(Seq<char>, V)>) -> bool {
    forall|i: int, j: int| 0 <= i < j < s.len() ==> name_lt((#[trigger] s[i]).0, (#[trigger] s[j]).0)
}

/// Whether some entry of `s` has the name `k`.
pub open spec fn has_key<V>(s: Seq<(Seq<char>, V)>, k: Seq<char>) -> bool {
    exists|i: int| 0 <= i < s.len() && (#[trigger] s[i]).0 == k
}

/// The place of an entry of `s` named `k`.
pub open spec fn index_of<V>(s: Seq<(Seq<char>, V)>, k: Seq<char>) -> int {
    choose|i: int| 0 <= i < s.len() && (#[trigger] s[i]).0 == k
}

/// The mapping that a sequence of entries stands for.
pub open spec fn seq_to_map<V>(s: Seq<(Seq<char>, V)>) -> Map<Seq<char>, V> {
    Map::new(|k: Seq<char>| has_key(s, k), |k: Seq<char>| s[index_of(s, k)].1)
}

/// The mapping of a sorted sequence has as many names as the sequence has
/// entries.
pub proof fn lemma_map_len<V>(s: Seq<(Seq<char>, V)>)
    requires
        sorted_keys(s),
    ensures
        seq_to_map(s).dom().finite(),
        seq_to_map(s).dom().len() == s.len(),
    decreases s.len(),
{
    if s.len() == 0 {
        assert(seq_to_map(s).dom() =~= Set::<Seq<char>>::empty());
    } else {
        let t = s.drop_last();
        let last = s.last();
        assert forall|i: int, j: int| 0 <= i < j < t.len() implies name_lt((#[trigger] t[i]).0, (#[trigger] t[j]).0) by {
            assert(t[i] == s[i] && t[j] == s[j]);
        }
        lemma_map_len(t);
        assert(!seq_to_map(t).dom().contains(last.0)) by {
            if has_key(t, last.0) {
                let i = choose|i: int| 0 <= i < t.len() && (#[trigger] t[i]).0 == last.0;
                assert(t[i] == s[i]);
                assert(name_lt(s[i].0, s[s.len() - 1].0));
                lemma_name_lt_asymmetric(s[i].0, last.0);
            }
        }
        assert(seq_to_map(s).dom() =~= seq_to_map(t).dom().insert(last.0)) by {
            assert forall|k: Seq<char>| has_key(s, k) <==> has_key(t, k) || k == last.0 by {
                if has_key(s, k) {
                    let i = choose|i: int| 0 <= i < s.len() && (#[trigger] s[i]).0 == k;
                    if i < t.len() {
                        assert(t[i] == s[i]);
                    }
                }
                if has_key(t, k) {
                    let i = choose|i: int| 0 <= i < t.len() && (#[trigger] t[i]).0 == k;
                    assert(t[i] == s[i]);
                }
                if k == last.0 {
                    assert(s[s.len() - 1].0 == k);
                }
            }
        }
    }
}

/// In a sorted sequence each name stands once, and the mapping gives each
/// entry's value at its name.
pub proof fn lemma_sorted_entries<V>(s: Seq<(Seq<char>, V)>)
    requires
        sorted_keys(s),
    ensures
        forall|i: int, j: int| 0 <= i < s.len() && 0 <= j < s.len() && (#[trigger] s[i]).0 == (#[trigger] s[j]).0 ==> i == j,
        forall|i: int| 0 <= i < s.len() ==> seq_to_map(s).contains_key((#[trigger] s[i]).0) && seq_to_map(s)[s[i].0] == s[i].1,
{
    assert forall|i: int, j: int| 0 <= i < s.len() && 0 <= j < s.len() && (#[trigger] s[i]).0 == (#[trigger] s[j]).0 implies i == j by {
        if i < j {
            lemma_name_lt_asymmetric(s[i].0, s[j].0);
        } else if j < i {
            lemma_name_lt_asymmetric(s[j].0, s[i].0);
        }
    }
    assert forall|i: int| 0 <= i < s.len() implies seq_to_map(s).contains_key((#[trigger] s[i]).0) && seq_to_map(s)[s[i].0] == s[i].1 by {
        let k = s[i].0;
        assert(has_key(s, k));
        let j = index_of(s, k);
        assert(s[j].0 == s[i].0);
    }
}

/// Putting a new name at its place in a sorted sequence adds it to the mapping.
pub proof fn lemma_insert_entry<V>(s: Seq<(Seq<char>, V)>, at: int, k: Seq<char>, v: V)
    requires
        sorted_keys(s),
        0 <= at <= s.len(),
        forall|i: int| 0 <= i < at ==> name_lt((#[trigger] s[i]).0, k),
        forall|i: int| at <= i < s.len() ==> name_lt(k, (#[trigger] s[i]).0),
    ensures
        sorted_keys(s.insert(at, (k, v))),
        seq_to_map(s.insert(at, (k, v))) == seq_to_map(s).insert(k, v),
{
    let t = s.insert(at, (k, v));
    assert forall|i: int, j: int| 0 <= i < j < t.len() implies name_lt((#[trigger] t[i]).0, (#[trigger] t[j]).0) by {
        if j < at {
            assert(t[i] == s[i] && t[j] == s[j]);
        } else if j == at {
            assert(t[i] == s[i]);
        } else if i < at {
            assert(t[i] == s[i] && t[j] == s[j - 1]);
            if at <= j - 1 {
                lemma_name_lt_transitive(s[i].0, k, s[j - 1].0);
            }
        } else if i == at {
            assert(t[j] == s[j - 1]);
        } else {
            assert(t[i] == s[i - 1] && t[j] == s[j - 1]);
        }
    }
    lemma_sorted_entries(s);
    lemma_sorted_entries(t);
    assert(t[at] == (k, v));
    assert forall|x: Seq<char>| seq_to_map(t).contains_key(x) == seq_to_map(s).insert(k, v).contains_key(x) by {
        if has_key(t, x) {
            let i = index_of(t, x);
            if i < at {
                assert(s[i].0 == x);
            } else if i > at {
                assert(s[i - 1].0 == x);
            }
        }
        if has_key(s, x) {
            let i = index_of(s, x);
            if i < at {
                assert(t[i].0 == x);
            } else {
                assert(t[i + 1].0 == x);
            }
        }
        if x == k {
            assert(t[at].0 == x);
        }
    }
    assert forall|x: Seq<char>| seq_to_map(t).contains_key(x) implies seq_to_map(t)[x] == seq_to_map(s).insert(k, v)[x] by {
        let i = index_of(t, x);
        if i < at {
            assert(t[i] == s[i]);
        } else if i > at {
            assert(t[i] == s[i - 1]);
        }
    }
    assert(seq_to_map(t) =~= seq_to_map(s).insert(k, v));
}

/// Taking an entry out takes its name out of the mapping.
pub proof fn lemma_remove_entry<V>(s: Seq<(Seq<char>, V)>, at: int)
    requires
        sorted_keys(s),
        0 <= at < s.len(),
    ensures
        sorted_keys(s.remove(at)),
        seq_to_map(s.remove(at)) == seq_to_map(s).remove(s[at].0),
{
    let k = s[at].0;
    let t = s.remove(at);
    assert forall|i: int, j: int| 0 <= i < j < t.len() implies name_lt((#[trigger] t[i]).0, (#[trigger] t[j]).0) by {
        let a = if i < at { i } else { i + 1 };
        let b = if j < at { j } else { j + 1 };
        assert(t[i] == s[a] && t[j] == s[b]);
    }
    lemma_sorted_entries(s);
    lemma_sorted_entries(t);
    assert forall|x: Seq<char>| seq_to_map(t).contains_key(x) == seq_to_map(s).remove(k).contains_key(x) by {
        if has_key(t, x) {
            let i = index_of(t, x);
            let a = if i < at { i } else { i + 1 };
            assert(t[i] == s[a]);
            assert(s[a].0 == x);
        }
        if has_key(s, x) && x != k {
            let i = index_of(s, x);
            let a = if i < at { i } else { i - 1 };
            assert(t[a] == s[i]);
            assert(t[a].0 == x);
        }
    }
    assert forall|x: Seq<char>| seq_to_map(t).contains_key(x) implies seq_to_map(t)[x] == seq_to_map(s).remove(k)[x] by {
        let i = index_of(t, x);
        let a = if i < at { i } else { i + 1 };
        assert(t[i] == s[a]);
    }
    assert(seq_to_map(t) =~= seq_to_map(s).remove(k));
}

/// A name that lies between two neighbours of a sorted sequence, or outside
/// it, is none of its names.
pub proof fn lemma_absent_key<V>(s: Seq<(Seq<char>, V)>, at: int, k: Seq<char>)
    requires
        sorted_keys(s),
        0 <= at <= s.len(),
        forall|i: int| 0 <= i < at ==> name_lt((#[trigger] s[i]).0, k),
        forall|i: int| at <= i < s.len() ==> name_lt(k, (#[trigger] s[i]).0),
    ensures
        !seq_to_map(s).contains_key(k),
{
    if has_key(s, k) {
        let i = index_of(s, k);
        if i < at {
            lemma_name_lt_asymmetric(s[i].0, k);
        } else {
            lemma_name_lt_asymmetric(k, s[i].0);
        }
    }
}

/// Whether `k` is the name of one of the first `i` entries of `s`.
pub open spec fn in_prefix<V>(s: Seq<(Seq<char>, V)>, i: int, k: Seq<char>) -> bool {
    exists|j: int| 0 <= j < i && j < s.len() && (#[trigger] s[j]).0 == k
}

/// The names of the first `i + 1` entries are those of the first `i` and the
/// name at `i`, which lies above them all.
pub proof fn lemma_in_prefix_step<V>(s: Seq<(Seq<char>, V)>, i: int)
    requires
        sorted_keys(s),
        0 <= i < s.len(),
    ensures
        forall|k: Seq<char>| #[trigger] in_prefix(s, i + 1, k) <==> in_prefix(s, i, k) || k == s[i].0,
        forall|k: Seq<char>| #[trigger] in_prefix(s, i, k) ==> name_lt(k, s[i].0) && seq_to_map(s).contains_key(k),
        !in_prefix(s, i, s[i].0),
        seq_to_map(s).contains_key(s[i].0),
        seq_to_map(s)[s[i].0] == s[i].1,
        forall|k: Seq<char>| !#[trigger] in_prefix(s, 0, k),
{
    lemma_sorted_entries(s);
    assert forall|k: Seq<char>| #[trigger] in_prefix(s, i + 1, k) <==> in_prefix(s, i, k) || k == s[i].0 by {
        if in_prefix(s, i + 1, k) {
            let j = choose|j: int| 0 <= j < i + 1 && j < s.len() && (#[trigger] s[j]).0 == k;
            if j < i {
                assert(in_prefix(s, i, k));
            }
        }
        if in_prefix(s, i, k) {
            let j = choose|j: int| 0 <= j < i && j < s.len() && (#[trigger] s[j]).0 == k;
            assert(0 <= j < i + 1 && s[j].0 == k);
        }
        if k == s[i].0 {
            assert(0 <= i < i + 1 && s[i].0 == k);
        }
    }
    assert forall|k: Seq<char>| #[trigger] in_prefix(s, i, k) implies name_lt(k, s[i].0) && seq_to_map(s).contains_key(k) by {
        let j = choose|j: int| 0 <= j < i && j < s.len() && (#[trigger] s[j]).0 == k;
        assert(name_lt(s[j].0, s[i].0));
    }
    if in_prefix(s, i, s[i].0) {
        crate::text::lemma_name_lt_irreflexive(s[i].0);
    }
}

/// The names of all the entries are the names of the mapping.
pub proof fn lemma_in_prefix_all<V>(s: Seq<(Seq<char>, V)>)
    requires
        sorted_keys(s),
    ensures
        forall|k: Seq<char>| #[trigger] in_prefix(s, s.len() as int, k) <==> seq_to_map(s).contains_key(k),
{
    assert forall|k: Seq<char>| #[trigger] in_prefix(s, s.len() as int, k) <==> seq_to_map(s).contains_key(k) by {
        if in_prefix(s, s.len() as int, k) {
            let j = choose|j: int| 0 <= j < s.len() && j < s.len() && (#[trigger] s[j]).0 == k;
            assert(has_key(s, k));
        }
        if has_key(s, k) {
            let j = index_of(s, k);
            assert(0 <= j < s.len() && s[j].0 == k);
        }
    }
}

/// Two sorted sequences with the same names hold them at the same places.
pub proof fn lemma_same_names<A, B>(s: Seq<(Seq<char>, A)>, t: Seq<(Seq<char>, B)>)
    requires
        sorted_keys(s),
        sorted_keys(t),
        forall|k: Seq<char>| has_key(s, k) == has_key(t, k),
    ensures
        s.len() == t.len(),
        forall|i: int| 0 <= i < s.len() ==> (#[trigger] s[i]).0 == t[i].0,
    decreases s.len(),
{
    if s.len() == 0 {
        if t.len() > 0 {
            assert(has_key(t, t[0].0));
            let j = index_of(s, t[0].0);
        }
    } else {
        assert(has_key(s, s[0].0));
        let j = index_of(t, s[0].0);
        assert(has_key(t, t[0].0));
        let i = index_of(s, t[0].0);
        if i > 0 && j > 0 {
            assert(name_lt(s[0].0, s[i].0));
            assert(name_lt(t[0].0, t[j].0));
            lemma_name_lt_asymmetric(s[0].0, s[i].0);
        }
        if i > 0 && j == 0 {
            assert(name_lt(s[0].0, s[i].0));
            crate::text::lemma_name_lt_irreflexive(s[0].0);
        }
        if i == 0 && j > 0 {
            assert(name_lt(t[0].0, t[j].0));
            crate::text::lemma_name_lt_irreflexive(t[0].0);
        }
        assert(s[0].0 == t[0].0);
        let s1 = s.skip(1);
        let t1 = t.skip(1);
        assert forall|a: int, b: int| 0 <= a < b < s1.len() implies name_lt((#[trigger] s1[a]).0, (#[trigger] s1[b]).0) by {
            assert(s1[a] == s[a + 1] && s1[b] == s[b + 1]);
        }
        assert forall|a: int, b: int| 0 <= a < b < t1.len() implies name_lt((#[trigger] t1[a]).0, (#[trigger] t1[b]).0) by {
            assert(t1[a] == t[a + 1] && t1[b] == t[b + 1]);
        }
        assert forall|k: Seq<char>| has_key(s1, k) == has_key(t1, k) by {
            if has_key(s1, k) {
                let a = index_of(s1, k);
                assert(s1[a] == s[a + 1]);
                assert(name_lt(s[0].0, s[a + 1].0));
                lemma_name_lt_asymmetric(s[0].0, k);
                assert(has_key(s, k));
                let b = index_of(t, k);
                assert(b > 0);
                assert(t1[b - 1] == t[b]);
                assert(has_key(t1, k));
            }
            if has_key(t1, k) {
                let a = index_of(t1, k);
                assert(t1[a] == t[a + 1]);
                assert(name_lt(t[0].0, t[a + 1].0));
                lemma_name_lt_asymmetric(t[0].0, k);
                assert(has_key(t, k));
                let b = index_of(s, k);
                assert(b > 0);
                assert(s1[b - 1] == s[b]);
                assert(has_key(s1, k));
            }
        }
        lemma_same_names(s1, t1);
        assert forall|i: int| 0 <= i < s.len() implies (#[trigger] s[i]).0 == t[i].0 by {
            if i > 0 {
                assert(s1[i - 1] == s[i]);
                assert(t1[i - 1] == t[i]);
            }
        }
    }
}

spec fn entries_seq<V>(entries: Vec<(String, V)>) -> Seq<(Seq<char>, V)> {
    Seq::new(entries@.len(), |i: int| (entries@[i].0@, entries@[i].1))
}

/// A map from names to values. Its entries stand in the order of their names,
/// each name once.
#[derive(Debug, PartialEq, Eq)]
pub struct SortedMap<V> {
    entries: Vec<(String, V)>,
}

impl<V> View for SortedMap<V> {
    type V = Map<Seq<char>, V>;

    open spec fn view(&self) -> Map<Seq<char>, V> {
        seq_to_map(self.seq())
    }
}

impl<V> SortedMap<V> {
    /// The entries in order, each name by its characters.
    pub closed spec fn seq(&self) -> Seq<(Seq<char>, V)> {
        entries_seq(self.entries)
    }

    #[verifier::type_invariant]
    spec fn inv(&self) -> bool {
        sorted_keys(self.seq())
    }

    /// A value of the map is a smaller thing than the map.
    pub broadcast proof fn lemma_value_decreases(self, k: Seq<char>)
        requires
            self@.contains_key(k),
        ensures
            #[trigger] (decreases_to!(self => self@[k])),
    {
        let i = index_of(self.seq(), k);
        assert(self.seq()[i].1 == self.entries@[i].1);
        assert(decreases_to!(self => self.entries));
        assert(decreases_to!(self.entries => self.entries@));
        assert(decreases_to!(self.entries@ => self.entries@[i]));
        assert(decreases_to!(self.entries@[i] => self.entries@[i].1));
    }

    /// The map without entries.
    pub fn new() -> (m: Self)
        ensures
            m.seq() == Seq::<(Seq<char>, V)>::empty(),
            m@ == Map::<Seq<char>, V>::empty(),
    {
        let m = SortedMap { entries: Vec::new() };
        proof {
            assert(m.seq() =~= Seq::<(Seq<char>, V)>::empty());
            assert(m@ =~= Map::<Seq<char>, V>::empty());
        }
        m
    }

    /// The entries in the order of their names.
    pub fn entries(&self) -> (r: &Vec<(String, V)>)
        ensures
            r@.len() == self.seq().len(),
            forall|i: int| 0 <= i < r@.len() ==> (#[trigger] r@[i]).0@ == self.seq()[i].0 && r@[i].1 == self.seq()[i].1,
    {
        &self.entries
    }

    /// The number of entries. The entries are known to be sorted.
    pub fn len(&self) -> (n: usize)
        ensures
            n == self.seq().len(),
            sorted_keys(self.seq()),
            self@.dom().finite(),
            n == self@.len(),
    {
        proof {
            use_type_invariant(self);
            lemma_map_len(self.seq());
        }
        self.entries.len()
    }

    /// The name of the entry at `i`.
    pub fn key_at(&self, i: usize) -> (k: &String)
        requires
            i < self.seq().len(),
        ensures
            k@ == self.seq()[i as int].0,
            self@.contains_key(k@),
    {
        proof {
            use_type_invariant(self);
            lemma_sorted_entries(self.seq());
        }
        &self.entries[i].0
    }

    /// The value of the entry at `i`.
    pub fn value_at(&self, i: usize) -> (v: &V)
        requires
            i < self.seq().len(),
        ensures
            *v == self.seq()[i as int].1,
            self@.contains_key(self.seq()[i as int].0),
            self@[self.seq()[i as int].0] == *v,
    {
        proof {
            use_type_invariant(self);
            lemma_sorted_entries(self.seq());
        }
        &self.entries[i].1
    }

    /// Adds an entry whose name lies above every name of the map.
    pub fn push_back(&mut self, key: String, value: V)
        requires
            forall|k: Seq<char>| #[trigger] old(self)@.contains_key(k) ==> name_lt(k, key@),
        ensures
            final(self)@ == old(self)@.insert(key@, value),
            !old(self)@.contains_key(key@),
    {
        proof {
            use_type_invariant(&*self);
            lemma_sorted_entries(self.seq());
        }
        let ghost before = self.seq();
        let ghost k = key@;
        let mut entries: Vec<(String, V)> = Vec::new();
        proof {
            assert(entries_seq(entries) =~= Seq::<(Seq<char>, V)>::empty());
        }
        core::mem::swap(&mut self.entries, &mut entries);
        entries.push((key, value));
        proof {
            assert(entries_seq(entries) =~= before.insert(before.len() as int, (k, value)));
            assert forall|i: int| 0 <= i < before.len() implies name_lt((#[trigger] before[i]).0, k) by {
                assert(old(self)@.contains_key(before[i].0));
            }
            lemma_insert_entry(before, before.len() as int, k, value);
            lemma_absent_key(before, before.len() as int, k);
        }
        core::mem::swap(&mut self.entries, &mut entries);
    }

    /// The first place whose name is not below `key`, and whether `key` stands
    /// there: found by halving the stretch in which the place can lie.
    fn find(&self, key: &str) -> (r: (usize, bool))
        ensures
            r.0 <= self.seq().len(),
            forall|i: int| 0 <= i < r.0 ==> name_lt((#[trigger] self.seq()[i]).0, key@),
            r.1 ==> r.0 < self.seq().len() && self.seq()[r.0 as int].0 == key@,
            !r.1 ==> forall|i: int| r.0 <= i < self.seq().len() ==> name_lt(key@, (#[trigger] self.seq()[i]).0),
            r.1 == self@.contains_key(key@),
    {
        proof {
            use_type_invariant(self);
        }
        let n = self.entries.len();
        let mut lo: usize = 0;
        let mut hi: usize = n;
        while lo < hi
            invariant
                lo <= hi <= n,
                n == self.seq().len(),
                n == self.entries@.len(),
                sorted_keys(self.seq()),
                forall|j: int| 0 <= j < lo ==> name_lt((#[trigger] self.seq()[j]).0, key@),
                forall|j: int| hi <= j < n ==> name_lt(key@, (#[trigger] self.seq()[j]).0),
            decreases hi - lo,
        {
            let mid = lo + (hi - lo) / 2;
            let ghost at = self.seq()[mid as int].0;
            match compare_names(self.entries[mid].0.as_str(), key) {
                Order::Less => {
                    proof {
                        assert forall|j: int| 0 <= j < mid + 1 implies name_lt((#[trigger] self.seq()[j]).0, key@) by {
                            if j < mid {
                                lemma_name_lt_transitive(self.seq()[j].0, at, key@);
                            }
                        }
                    }
                    lo = mid + 1;
                },
                Order::Equal => {
                    proof {
                        lemma_sorted_entries(self.seq());
                        assert forall|j: int| 0 <= j < mid implies name_lt((#[trigger] self.seq()[j]).0, key@) by {
                            assert(name_lt(self.seq()[j].0, self.seq()[mid as int].0));
                        }
                    }
                    return (mid, true);
                },
                Order::Greater => {
                    proof {
                        crate::text::lemma_name_lt_total(at, key@);
                        assert forall|j: int| mid <= j < n implies name_lt(key@, (#[trigger] self.seq()[j]).0) by {
                            if mid < j {
                                lemma_name_lt_transitive(key@, at, self.seq()[j].0);
                            }
                        }
                    }
                    hi = mid;
                },
            }
        }
        proof {
            lemma_absent_key(self.seq(), lo as int, key@);
        }
        (lo, false)
    }

    /// Whether `key` is a name of the map.
    pub fn contains_key(&self, key: &str) -> (r: bool)
        ensures
            r == self@.contains_key(key@),
    {
        self.find(key).1
    }

    /// The value at `key`, if `key` is a name of the map.
    pub fn get(&self, key: &str) -> (r: Option<&V>)
        ensures
            r is Some == self@.contains_key(key@),
            r is Some ==> *r->0 == self@[key@],
    {
        let (at, found) = self.find(key);
        if found {
            proof {
                use_type_invariant(self);
                lemma_sorted_entries(self.seq());
            }
            Some(&self.entries[at].1)
        } else {
            None
        }
    }

    /// Puts `value` at `key`, and hands back what stood there.
    pub fn insert(&mut self, key: String, value: V) -> (r: Option<V>)
        ensures
            final(self)@ == old(self)@.insert(key@, value),
            r is Some == old(self)@.contains_key(key@),
            r is Some ==> r->0 == old(self)@[key@],
    {
        let (at, found) = self.find(key.as_str());
        proof {
            use_type_invariant(&*self);
            lemma_sorted_entries(self.seq());
        }
        let ghost before = self.seq();
        let ghost k = key@;
        let mut entries: Vec<(String, V)> = Vec::new();
        proof {
            assert(entries_seq(entries) =~= Seq::<(Seq<char>, V)>::empty());
        }
        core::mem::swap(&mut self.entries, &mut entries);
        let mut gone: Option<V> = None;
        if found {
            let taken = entries.remove(at);
            gone = Some(taken.1);
            proof {
                assert(entries_seq(entries) =~= before.remove(at as int));
                lemma_remove_entry(before, at as int);
                assert forall|i: int| at <= i < entries_seq(entries).len() implies name_lt(k, (#[trigger] entries_seq(entries)[i]).0) by {
                    assert(entries_seq(entries)[i] == before[i + 1]);
                }
                assert forall|i: int| 0 <= i < at implies name_lt((#[trigger] entries_seq(entries)[i]).0, k) by {
                    assert(entries_seq(entries)[i] == before[i]);
                }
            }
        }
        let ghost mid = entries_seq(entries);
        entries.insert(at, (key, value));
        proof {
            assert(entries_seq(entries) =~= mid.insert(at as int, (k, value)));
            lemma_insert_entry(mid, at as int, k, value);
            if found {
                assert(seq_to_map(entries_seq(entries)) =~= seq_to_map(before).insert(k, value));
            }
        }
        core::mem::swap(&mut self.entries, &mut entries);
        gone
    }

    /// Takes `key` out of the map, and hands back what stood there.
    pub fn remove(&mut self, key: &str) -> (r: Option<V>)
        ensures
            final(self)@ == old(self)@.remove(key@),
            r is Some == old(self)@.contains_key(key@),
            r is Some ==> r->0 == old(self)@[key@],
    {
        let (at, found) = self.find(key);
        proof {
            use_type_invariant(&*self);
            lemma_sorted_entries(self.seq());
        }
        let ghost before = self.seq();
        if found {
            let mut entries: Vec<(String, V)> = Vec::new();
            proof {
                assert(entries_seq(entries) =~= Seq::<(Seq<char>, V)>::empty());
            }
            core::mem::swap(&mut self.entries, &mut entries);
            let taken = entries.remove(at);
            proof {
                assert(entries_seq(entries) =~= before.remove(at as int));
                lemma_remove_entry(before, at as int);
            }
            core::mem::swap(&mut self.entries, &mut entries);
            Some(taken.1)
        } else {
            proof {
                assert(self@ =~= old(self)@.remove(key@));
            }
            None
        }
    }
}

} // verus!
