//! The block cache: the structured blocks of a mount that are held in
//! memory, each under the identifier of its own block.

use vstd::prelude::*;
use crate::cid::{Cid, CidView};
use crate::codec::{ipld_cid, ipld_to_cid, structured_cid};
use crate::ipld::{ipld_equal, Ipld, IpldView};

verus! {

/// Whether each value of a cache stands under the identifier of its own block.
pub open spec fn cache_exact(cache: Map<CidView, IpldView>) -> bool {
    forall|k: CidView| #[trigger] cache.contains_key(k) ==> ipld_cid(cache[k]) == Some(k)
}

/// Why a value cannot be put into a cache.
#[derive(Debug, Clone, Copy, PartialEq, Eq, Structural)]
pub enum CacheError {
    /// The value has no block.
    Encoding,
    /// Another value stands under the identifier of the value's block.
    Collision,
}

/// The cache after `value` is put into it, with the identifier under which
/// it then stands; or why it cannot be put. A cache never gives up a value
/// for another.
pub open spec fn cache_put(cache: Map<CidView, IpldView>, value: IpldView) -> Result<(Map<CidView, IpldView>, CidView), CacheError> {
    match ipld_cid(value) {
        None => Err(CacheError::Encoding),
        Some(k) => if cache.contains_key(k) && cache[k] != value {
            Err(CacheError::Collision)
        } else {
            Ok((cache.insert(k, value), k))
        },
    }
}

/// Whether the first `i` entries hold the identifier `k`.
pub open spec fn held_before<V>(s: Seq<(CidView, V)>, i: int, k: CidView) -> bool {
    exists|j: int| 0 <= j < i && j < s.len() && (#[trigger] s[j]).0 == k
}

/// The mapping that the entries of a cache stand for.
pub open spec fn entries_map<V>(s: Seq<(CidView, V)>) -> Map<CidView, V> {
    Map::new(
        |k: CidView| held_before(s, s.len() as int, k),
        |k: CidView| s[choose|j: int| 0 <= j < s.len() && j < s.len() && (#[trigger] s[j]).0 == k].1,
    )
}

/// Whether no identifier stands twice in the entries.
pub open spec fn distinct_keys<V>(s: Seq<(CidView, V)>) -> bool {
    forall|i: int, j: int| 0 <= i < s.len() && 0 <= j < s.len() && (#[trigger] s[i]).0 == (#[trigger] s[j]).0 ==> i == j
}

/// The entries of a cache without doubles give each entry's value at its identifier.
pub proof fn lemma_entries_map<V>(s: Seq<(CidView, V)>)
    requires
        distinct_keys(s),
    ensures
        forall|i: int| 0 <= i < s.len() ==> entries_map(s).contains_key((#[trigger] s[i]).0) && entries_map(s)[s[i].0] == s[i].1,
{
    assert forall|i: int| 0 <= i < s.len() implies entries_map(s).contains_key((#[trigger] s[i]).0) && entries_map(s)[s[i].0] == s[i].1 by {
        let k = s[i].0;
        assert(held_before(s, s.len() as int, k));
        let j = choose|j: int| 0 <= j < s.len() && j < s.len() && (#[trigger] s[j]).0 == k;
        assert(s[j].0 == s[i].0);
    }
}

/// A new identifier at the end of the entries is a new entry of the mapping.
pub proof fn lemma_entries_push<V>(s: Seq<(CidView, V)>, k: CidView, v: V)
    requires
        distinct_keys(s),
        !entries_map(s).contains_key(k),
    ensures
        distinct_keys(s.push((k, v))),
        entries_map(s.push((k, v))) == entries_map(s).insert(k, v),
{
    let t = s.push((k, v));
    lemma_entries_map(s);
    assert forall|i: int, j: int| 0 <= i < t.len() && 0 <= j < t.len() && (#[trigger] t[i]).0 == (#[trigger] t[j]).0 implies i == j by {
        if i < s.len() {
            assert(t[i] == s[i]);
        }
        if j < s.len() {
            assert(t[j] == s[j]);
        }
    }
    lemma_entries_map(t);
    assert forall|x: CidView| entries_map(t).contains_key(x) == entries_map(s).insert(k, v).contains_key(x) by {
        if entries_map(t).contains_key(x) {
            let j = choose|j: int| 0 <= j < t.len() && j < t.len() && (#[trigger] t[j]).0 == x;
            if j < s.len() {
                assert(t[j] == s[j]);
                assert(held_before(s, s.len() as int, x));
            }
        }
        if entries_map(s).contains_key(x) {
            let j = choose|j: int| 0 <= j < s.len() && j < s.len() && (#[trigger] s[j]).0 == x;
            assert(t[j] == s[j]);
            assert(held_before(t, t.len() as int, x));
        }
        if x == k {
            assert(t[s.len() as int].0 == k);
            assert(held_before(t, t.len() as int, x));
        }
    }
    assert forall|x: CidView| entries_map(t).contains_key(x) implies entries_map(t)[x] == entries_map(s).insert(k, v)[x] by {
        let j = choose|j: int| 0 <= j < t.len() && j < t.len() && (#[trigger] t[j]).0 == x;
        if j < s.len() {
            assert(t[j] == s[j]);
        }
    }
    assert(entries_map(t) =~= entries_map(s).insert(k, v));
}

spec fn entries_view(entries: Vec<(Cid, Ipld)>) -> Seq<(CidView, IpldView)> {
    Seq::new(entries@.len(), |i: int| (entries@[i].0@, entries@[i].1@))
}

/// The structured blocks of a mount that are held in memory.
#[derive(Debug, PartialEq, Eq)]
pub struct BlockCache {
    entries: Vec<(Cid, Ipld)>,
}

impl View for BlockCache {
    type V = Map<CidView, IpldView>;

    open spec fn view(&self) -> Map<CidView, IpldView> {
        entries_map(self.seq())
    }
}

impl BlockCache {
    /// The entries in the order in which they came.
    pub closed spec fn seq(&self) -> Seq<(CidView, IpldView)> {
        entries_view(self.entries)
    }

    #[verifier::type_invariant]
    spec fn inv(&self) -> bool {
        &&& distinct_keys(self.seq())
        &&& forall|i: int| 0 <= i < self.seq().len() ==> ipld_cid((#[trigger] self.seq()[i]).1) == Some(self.seq()[i].0)
    }

    /// The cache without blocks.
    pub fn new() -> (r: Self)
        ensures
            r@ == Map::<CidView, IpldView>::empty(),
    {
        let r = BlockCache { entries: Vec::new() };
        proof {
            assert(r.seq() =~= Seq::<(CidView, IpldView)>::empty());
            assert(r@ =~= Map::<CidView, IpldView>::empty());
        }
        r
    }

    /// The number of blocks. Each is known to stand under the identifier of
    /// its own block, and none twice.
    pub fn len(&self) -> (n: usize)
        ensures
            n == self.seq().len(),
            distinct_keys(self.seq()),
            cache_exact(self@),
    {
        proof {
            use_type_invariant(self);
            lemma_entries_map(self.seq());
            assert forall|k: CidView| #[trigger] self@.contains_key(k) implies ipld_cid(self@[k]) == Some(k) by {
                let j = choose|j: int| 0 <= j < self.seq().len() && j < self.seq().len() && (#[trigger] self.seq()[j]).0 == k;
                assert(self@[self.seq()[j].0] == self.seq()[j].1);
            }
        }
        self.entries.len()
    }

    /// The identifier of the block at `i`.
    pub fn cid_at(&self, i: usize) -> (r: &Cid)
        requires
            i < self.seq().len(),
        ensures
            r@ == self.seq()[i as int].0,
            self@.contains_key(r@),
    {
        proof {
            use_type_invariant(self);
            lemma_entries_map(self.seq());
        }
        &self.entries[i].0
    }

    /// The value of the block at `i`.
    pub fn value_at(&self, i: usize) -> (r: &Ipld)
        requires
            i < self.seq().len(),
        ensures
            r@ == self.seq()[i as int].1,
            self@.contains_key(self.seq()[i as int].0),
            self@[self.seq()[i as int].0] == r@,
            ipld_cid(r@) == Some(self.seq()[i as int].0),
    {
        proof {
            use_type_invariant(self);
            lemma_entries_map(self.seq());
        }
        &self.entries[i].1
    }

    /// The place of the block with identifier `cid`, if the cache holds it.
    fn find(&self, cid: &Cid) -> (r: Option<usize>)
        ensures
            r is Some == self@.contains_key(cid@),
            r is Some ==> r->0 < self.seq().len() && self.seq()[r->0 as int].0 == cid@,
    {
        let n = self.entries.len();
        let mut i: usize = 0;
        while i < n
            invariant
                i <= n,
                n == self.seq().len(),
                n == self.entries@.len(),
                !held_before(self.seq(), i as int, cid@),
            decreases n - i,
        {
            if self.entries[i].0.same(cid) {
                proof {
                    assert(self.seq()[i as int].0 == cid@);
                    assert(held_before(self.seq(), n as int, cid@));
                }
                return Some(i);
            }
            proof {
                if held_before(self.seq(), i as int + 1, cid@) {
                    let j = choose|j: int| 0 <= j < i + 1 && j < self.seq().len() && (#[trigger] self.seq()[j]).0 == cid@;
                    if j < i {
                        assert(held_before(self.seq(), i as int, cid@));
                    }
                }
            }
            i = i + 1;
        }
        None
    }

    /// The value of the block with identifier `cid`, if the cache holds it.
    pub fn get(&self, cid: &Cid) -> (r: Option<&Ipld>)
        ensures
            r is Some == self@.contains_key(cid@),
            r is Some ==> r->0@ == self@[cid@],
    {
        match self.find(cid) {
            Some(i) => {
                proof {
                    use_type_invariant(self);
                    lemma_entries_map(self.seq());
                }
                Some(&self.entries[i].1)
            },
            None => None,
        }
    }

    /// Whether the cache holds the block with identifier `cid`.
    pub fn contains(&self, cid: &Cid) -> (r: bool)
        ensures
            r == self@.contains_key(cid@),
    {
        self.find(cid).is_some()
    }

    /// Puts a value into the cache, under the identifier of its block.
    pub fn put(&mut self, value: Ipld) -> (r: Result<Cid, CacheError>)
        ensures
            match cache_put(old(self)@, value@) {
                Ok((cache, cid)) => r is Ok && r->Ok_0@ == cid && final(self)@ == cache && structured_cid(cid),
                Err(e) => r == Err::<Cid, CacheError>(e) && final(self)@ == old(self)@,
            },
    {
        let cid = match ipld_to_cid(&value) {
            Ok(cid) => cid,
            Err(_) => {
                return Err(CacheError::Encoding);
            },
        };
        proof {
            use_type_invariant(&*self);
            lemma_entries_map(self.seq());
        }
        match self.find(&cid) {
            Some(i) => {
                if ipld_equal(&self.entries[i].1, &value) {
                    proof {
                        assert(self@ =~= self@.insert(cid@, value@));
                    }
                    Ok(cid)
                } else {
                    Err(CacheError::Collision)
                }
            },
            None => {
                let ghost before = self.seq();
                let ghost k = cid@;
                let ghost v = value@;
                let mut entries: Vec<(Cid, Ipld)> = Vec::new();
                proof {
                    assert(entries_view(entries) =~= Seq::<(CidView, IpldView)>::empty());
                }
                core::mem::swap(&mut self.entries, &mut entries);
                entries.push((cid.clone(), value));
                proof {
                    assert(entries_view(entries) =~= before.push((k, v)));
                    lemma_entries_push(before, k, v);
                }
                core::mem::swap(&mut self.entries, &mut entries);
                Ok(cid)
            },
        }
    }
}

impl Clone for BlockCache {
    fn clone(&self) -> (r: Self)
        ensures
            r@ == self@,
    {
        proof {
            use_type_invariant(self);
        }
        let n = self.entries.len();
        let mut entries: Vec<(Cid, Ipld)> = Vec::new();
        let mut i: usize = 0;
        while i < n
            invariant
                i <= n,
                n == self.entries@.len(),
                entries@.len() == i,
                forall|j: int| 0 <= j < i ==> (#[trigger] entries@[j]).0@ == self.entries@[j].0@ && entries@[j].1@ == self.entries@[j].1@,
            decreases n - i,
        {
            entries.push((self.entries[i].0.clone(), self.entries[i].1.clone()));
            i = i + 1;
        }
        proof {
            assert(entries_view(entries) =~= self.seq());
        }
        BlockCache { entries }
    }
}

impl Default for BlockCache {
    fn default() -> (r: Self)
        ensures
            r@ == Map::<CidView, IpldView>::empty(),
    {
        BlockCache::new()
    }
}

} // verus!
