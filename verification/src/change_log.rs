//! The change log of a working directory: for each file that the mount or
//! the directory knows, the identifier of its payload and what has happened
//! to it since the last push.

use vstd::prelude::*;
use crate::cid::{default_cid, Cid, CidView};
use crate::sorted_map::{in_prefix, lemma_in_prefix_all, lemma_in_prefix_step, sorted_keys, SortedMap};
use crate::text::{compare_names, lemma_name_lt_asymmetric, lemma_name_lt_irreflexive, lemma_name_lt_total, lemma_name_lt_transitive, name_lt, Order};

verus! {

/// What is staged for a file.
#[derive(Debug, Clone, Copy, PartialEq, Eq, Structural)]
pub enum StagedType {
    Added,
    Modified,
    Removed,
}

/// What has happened to a file since the last push.
#[derive(Debug, Clone, Copy, PartialEq, Eq, Structural)]
pub enum ChangeType {
    /// Nothing: the file is as the mount has it.
    Base,
    /// The file is new; `modified` says that the mount has not taken it yet.
    Added { modified: bool },
    /// The file has changed; `processed` says that the mount has taken the change.
    Modified { processed: bool },
    /// The file is gone; `processed` says that the mount has taken it away.
    Removed { processed: bool },
}

/// Whether the mount has yet to take a change.
pub open spec fn awaits_mount(change: ChangeType) -> bool {
    match change {
        ChangeType::Base => false,
        ChangeType::Added { modified } => modified,
        ChangeType::Modified { processed } => !processed,
        ChangeType::Removed { processed } => !processed,
    }
}

/// A change after the mount has taken it.
pub open spec fn taken(change: ChangeType) -> ChangeType {
    match change {
        ChangeType::Base => ChangeType::Base,
        ChangeType::Added { .. } => ChangeType::Added { modified: false },
        ChangeType::Modified { .. } => ChangeType::Modified { processed: true },
        ChangeType::Removed { .. } => ChangeType::Removed { processed: true },
    }
}

impl ChangeType {
    /// Whether the mount has yet to take the change.
    pub fn needs_work(&self) -> (r: bool)
        ensures
            r == awaits_mount(*self),
    {
        match self {
            ChangeType::Base => false,
            ChangeType::Added { modified } => *modified,
            ChangeType::Modified { processed } => !*processed,
            ChangeType::Removed { processed } => !*processed,
        }
    }

    /// The change after the mount has taken it.
    pub fn done(&self) -> (r: ChangeType)
        ensures
            r == taken(*self),
            !awaits_mount(r),
    {
        match self {
            ChangeType::Base => ChangeType::Base,
            ChangeType::Added { .. } => ChangeType::Added { modified: false },
            ChangeType::Modified { .. } => ChangeType::Modified { processed: true },
            ChangeType::Removed { .. } => ChangeType::Removed { processed: true },
        }
    }
}

/// What a change log knows of a file, as plain values.
pub type ChangeView = (CidView, ChangeType);

/// The value under a name of a map, if the map holds one.
pub open spec fn at_name<V>(m: Map<Seq<char>, V>, k: Seq<char>) -> Option<V> {
    if m.contains_key(k) {
        Some(m[k])
    } else {
        None
    }
}

/// What a change log knows of a file after the working directory is looked
/// at: `base` is what it knew, `found` the identifier of the file's payload
/// where the file is there. A new file is added; a file that is gone is
/// removed, or forgotten where the mount never took it; a file with another
/// payload is modified, or still added where the mount never took it.
pub open spec fn diff_entry(base: Option<ChangeView>, found: Option<CidView>) -> Option<ChangeView> {
    match (base, found) {
        (None, None) => None,
        (None, Some(now)) => Some((now, ChangeType::Added { modified: true })),
        (Some((known, change)), None) => match change {
            ChangeType::Added { .. } => None,
            ChangeType::Removed { .. } => Some((known, change)),
            _ => Some((default_cid(), ChangeType::Removed { processed: false })),
        },
        (Some((known, change)), Some(now)) => if known == now {
            Some((known, change))
        } else {
            match change {
                ChangeType::Added { .. } => Some((now, ChangeType::Added { modified: true })),
                _ => Some((now, ChangeType::Modified { processed: false })),
            }
        },
    }
}

/// The change log after the working directory is looked at.
pub open spec fn diff_spec(base: Map<Seq<char>, ChangeView>, tree: Map<Seq<char>, CidView>) -> Map<Seq<char>, ChangeView> {
    Map::new(
        |k: Seq<char>| diff_entry(at_name(base, k), at_name(tree, k)) is Some,
        |k: Seq<char>| diff_entry(at_name(base, k), at_name(tree, k))->0,
    )
}

/// The change log after a push: what was removed is forgotten, and every
/// other file is as the mount has it.
pub open spec fn settled_spec(log: Map<Seq<char>, ChangeView>) -> Map<Seq<char>, ChangeView> {
    Map::new(
        |k: Seq<char>| log.contains_key(k) && !(log[k].1 is Removed),
        |k: Seq<char>| (log[k].0, ChangeType::Base),
    )
}

/// The views of the entries of a change log.
pub open spec fn changes_view(m: Map<Seq<char>, (Cid, ChangeType)>) -> Map<Seq<char>, ChangeView> {
    Map::new(|k: Seq<char>| m.contains_key(k), |k: Seq<char>| (m[k].0@, m[k].1))
}

/// The views of the entries of a listing of files.
pub open spec fn tree_view(m: Map<Seq<char>, Cid>) -> Map<Seq<char>, CidView> {
    Map::new(|k: Seq<char>| m.contains_key(k), |k: Seq<char>| m[k]@)
}

/// The change log of a working directory, in the order of the paths.
#[derive(Debug, PartialEq, Eq)]
pub struct ChangeLog {
    entries: SortedMap<(Cid, ChangeType)>,
}

impl View for ChangeLog {
    type V = Map<Seq<char>, ChangeView>;

    closed spec fn view(&self) -> Map<Seq<char>, ChangeView> {
        changes_view(self.entries@)
    }
}

impl ChangeLog {
    /// The change log that knows no file.
    pub fn new() -> (r: Self)
        ensures
            r@ == Map::<Seq<char>, ChangeView>::empty(),
            r.spec_len() == 0,
    {
        let r = ChangeLog { entries: SortedMap::new() };
        proof {
            assert(r@ =~= Map::<Seq<char>, ChangeView>::empty());
        }
        r
    }

    /// The number of files that the change log knows.
    pub fn len(&self) -> (r: usize)
        ensures
            r == self.spec_len(),
    {
        self.entries.len()
    }

    /// The number of files that the change log knows.
    pub closed spec fn spec_len(&self) -> nat {
        self.entries.seq().len()
    }

    /// The path at `i`, in the order of the paths.
    pub closed spec fn spec_path(&self, i: int) -> Seq<char> {
        self.entries.seq()[i].0
    }

    /// The path at `i`, in the order of the paths.
    pub fn path_at(&self, i: usize) -> (r: &String)
        requires
            i < self.spec_len(),
        ensures
            r@ == self.spec_path(i as int),
            self@.contains_key(r@),
    {
        self.entries.key_at(i)
    }

    /// What the change log knows of the file at `i`.
    pub fn entry_at(&self, i: usize) -> (r: (&Cid, ChangeType))
        requires
            i < self.spec_len(),
        ensures
            self@.contains_key(self.spec_path(i as int)),
            (r.0@, r.1) == self@[self.spec_path(i as int)],
    {
        let entry = self.entries.value_at(i);
        (&entry.0, entry.1)
    }

    /// What the change log knows of the file at `path`.
    pub fn get(&self, path: &str) -> (r: Option<(&Cid, ChangeType)>)
        ensures
            match r {
                Some((cid, change)) => self@.contains_key(path@) && (cid@, change) == self@[path@],
                None => !self@.contains_key(path@),
            },
    {
        match self.entries.get(path) {
            Some(entry) => Some((&entry.0, entry.1)),
            None => None,
        }
    }

    /// Lets the change log know `cid` and `change` of the file at `path`.
    pub fn insert(&mut self, path: String, cid: Cid, change: ChangeType)
        ensures
            final(self)@ == old(self)@.insert(path@, (cid@, change)),
    {
        self.entries.insert(path, (cid, change));
        proof {
            assert(self@ =~= old(self)@.insert(path@, (cid@, change)));
        }
    }

    /// Lets the change log forget the file at `path`.
    pub fn remove(&mut self, path: &str)
        ensures
            final(self)@ == old(self)@.remove(path@),
    {
        self.entries.remove(path);
        proof {
            assert(self@ =~= old(self)@.remove(path@));
        }
    }

    /// The change log after a push: what was removed is forgotten, and
    /// every other file is as the mount has it.
    pub fn settled(&self) -> (r: ChangeLog)
        ensures
            r@ == settled_spec(self@),
    {
        let n = self.entries.len();
        let mut out: SortedMap<(Cid, ChangeType)> = SortedMap::new();
        let mut i: usize = 0;
        proof {
            if n > 0 {
                lemma_in_prefix_step(self.entries.seq(), 0);
            }
        }
        while i < n
            invariant
                i <= n,
                n == self.entries.seq().len(),
                sorted_keys(self.entries.seq()),
                forall|k: Seq<char>| #[trigger] out@.contains_key(k) <==> in_prefix(self.entries.seq(), i as int, k) && !(self@[k].1 is Removed),
                forall|k: Seq<char>| #[trigger] out@.contains_key(k) ==> out@[k].0@ == self@[k].0 && out@[k].1 == ChangeType::Base,
            decreases n - i,
        {
            proof {
                lemma_in_prefix_step(self.entries.seq(), i as int);
            }
            let entry = self.entries.value_at(i);
            match entry.1 {
                ChangeType::Removed { .. } => {},
                _ => {
                    out.push_back(self.entries.key_at(i).clone(), (entry.0.clone(), ChangeType::Base));
                },
            }
            i = i + 1;
        }
        let r = ChangeLog { entries: out };
        proof {
            lemma_in_prefix_all(self.entries.seq());
            assert(r@ =~= settled_spec(self@));
        }
        r
    }
}

impl Clone for ChangeLog {
    fn clone(&self) -> (r: Self)
        ensures
            r@ == self@,
    {
        let n = self.entries.len();
        let mut out: SortedMap<(Cid, ChangeType)> = SortedMap::new();
        let mut i: usize = 0;
        proof {
            if n > 0 {
                lemma_in_prefix_step(self.entries.seq(), 0);
            }
        }
        while i < n
            invariant
                i <= n,
                n == self.entries.seq().len(),
                sorted_keys(self.entries.seq()),
                forall|k: Seq<char>| #[trigger] out@.contains_key(k) <==> in_prefix(self.entries.seq(), i as int, k),
                forall|k: Seq<char>| #[trigger] out@.contains_key(k) ==> out@[k].0@ == self@[k].0 && out@[k].1 == self@[k].1,
            decreases n - i,
        {
            proof {
                lemma_in_prefix_step(self.entries.seq(), i as int);
            }
            let entry = self.entries.value_at(i);
            out.push_back(self.entries.key_at(i).clone(), (entry.0.clone(), entry.1));
            i = i + 1;
        }
        let r = ChangeLog { entries: out };
        proof {
            lemma_in_prefix_all(self.entries.seq());
            assert(r@ =~= self@);
        }
        r
    }
}

impl Default for ChangeLog {
    fn default() -> (r: Self)
        ensures
            r@ == Map::<Seq<char>, ChangeView>::empty(),
    {
        ChangeLog::new()
    }
}

/// What a change log knows of a file after the working directory is looked at.
fn diff_one(base: Option<(&Cid, ChangeType)>, found: Option<&Cid>) -> (r: Option<(Cid, ChangeType)>)
    ensures
        (match r {
            Some((cid, change)) => Some((cid@, change)),
            None => None,
        }) == diff_entry(
            match base {
                Some((cid, change)) => Some((cid@, change)),
                None => None,
            },
            match found {
                Some(cid) => Some(cid@),
                None => None,
            },
        ),
{
    match (base, found) {
        (None, None) => None,
        (None, Some(now)) => Some((now.clone(), ChangeType::Added { modified: true })),
        (Some((known, change)), None) => match change {
            ChangeType::Added { .. } => None,
            ChangeType::Removed { .. } => Some((known.clone(), change)),
            _ => Some((Cid::default(), ChangeType::Removed { processed: false })),
        },
        (Some((known, change)), Some(now)) => if known.same(now) {
            Some((known.clone(), change))
        } else {
            match change {
                ChangeType::Added { .. } => Some((now.clone(), ChangeType::Added { modified: true })),
                _ => Some((now.clone(), ChangeType::Modified { processed: false })),
            }
        },
    }
}

/// Whether the names of the first `j` entries of `t` lie below the name at
/// `i` of `s`, where `s` has one.
pub open spec fn all_below<A, B>(t: Seq<(Seq<char>, A)>, j: int, s: Seq<(Seq<char>, B)>, i: int) -> bool {
    i < s.len() ==> forall|k: Seq<char>| #[trigger] in_prefix(t, j, k) ==> name_lt(k, s[i].0)
}

/// A name that lies below the name at `i` of a sorted sequence, and is the
/// name of none of the first `i` entries, is no name of the sequence; and
/// so is any name where `i` is the length of the sequence.
proof fn lemma_not_ahead<A>(s: Seq<(Seq<char>, A)>, i: int, k: Seq<char>)
    requires
        sorted_keys(s),
        0 <= i <= s.len(),
        !in_prefix(s, i, k),
        i < s.len() ==> name_lt(k, s[i].0),
    ensures
        !crate::sorted_map::seq_to_map(s).contains_key(k),
{
    lemma_in_prefix_all(s);
    if in_prefix(s, s.len() as int, k) {
        let j = choose|j: int| 0 <= j < s.len() && j < s.len() && (#[trigger] s[j]).0 == k;
        if j < i {
            assert(in_prefix(s, i, k));
        } else if j == i {
            lemma_name_lt_irreflexive(k);
        } else {
            lemma_name_lt_asymmetric(s[i].0, s[j].0);
        }
    }
}

/// Looks at a working directory: `tree` holds the identifier of the payload
/// of each file that is there. Both are gone through in the order of the
/// paths, side by side.
pub fn diff(base: &ChangeLog, tree: &SortedMap<Cid>) -> (r: ChangeLog)
    ensures
        r@ == diff_spec(base@, tree_view(tree@)),
{
    let n = base.entries.len();
    let m = tree.len();
    let ghost bs = base.entries.seq();
    let ghost ts = tree.seq();
    let ghost known = base@;
    let ghost there = tree_view(tree@);
    let mut out: SortedMap<(Cid, ChangeType)> = SortedMap::new();
    let mut i: usize = 0;
    let mut j: usize = 0;
    proof {
        if n > 0 {
            lemma_in_prefix_step(bs, 0);
        }
        if m > 0 {
            lemma_in_prefix_step(ts, 0);
        }
        lemma_in_prefix_all(bs);
        lemma_in_prefix_all(ts);
    }
    while i < n || j < m
        invariant
            i <= n,
            j <= m,
            n == bs.len(),
            m == ts.len(),
            bs == base.entries.seq(),
            ts == tree.seq(),
            known == base@,
            there == tree_view(tree@),
            sorted_keys(bs),
            sorted_keys(ts),
            all_below(ts, j as int, bs, i as int),
            all_below(bs, i as int, ts, j as int),
            forall|k: Seq<char>| #[trigger] out@.contains_key(k) <==> (in_prefix(bs, i as int, k) || in_prefix(ts, j as int, k)) && diff_spec(known, there).contains_key(k),
            forall|k: Seq<char>| #[trigger] out@.contains_key(k) ==> (out@[k].0@, out@[k].1) == diff_spec(known, there)[k],
        decreases (n - i) + (m - j),
    {
        let side = if i >= n {
            Order::Greater
        } else if j >= m {
            Order::Less
        } else {
            compare_names(base.entries.key_at(i).as_str(), tree.key_at(j).as_str())
        };
        proof {
            if i < n {
                lemma_in_prefix_step(bs, i as int);
            }
            if j < m {
                lemma_in_prefix_step(ts, j as int);
            }
            if i < n && j < m {
                lemma_name_lt_total(bs[i as int].0, ts[j as int].0);
            }
        }
        match side {
            Order::Less => {
                let path = base.entries.key_at(i);
                let entry = base.entries.value_at(i);
                proof {
                    if in_prefix(ts, j as int, path@) {
                        lemma_name_lt_irreflexive(path@);
                    }
                    lemma_not_ahead(ts, j as int, path@);
                    assert(at_name(there, path@) is None);
                    assert(at_name(known, path@) == Some((entry.0@, entry.1)));
                    assert forall|k: Seq<char>| #[trigger] in_prefix(ts, j as int, k) && i + 1 < n implies name_lt(k, bs[i as int + 1].0) by {
                        if i + 1 < n {
                            lemma_name_lt_transitive(k, bs[i as int].0, bs[i as int + 1].0);
                        }
                    }
                    assert forall|k: Seq<char>| #[trigger] in_prefix(bs, i as int + 1, k) && j < m implies name_lt(k, ts[j as int].0) by {
                        if j < m && !in_prefix(bs, i as int, k) {
                            assert(k == bs[i as int].0);
                        }
                    }
                }
                match diff_one(Some((&entry.0, entry.1)), None) {
                    Some(next) => {
                        out.push_back(path.clone(), next);
                    },
                    None => {},
                }
                i = i + 1;
            },
            Order::Greater => {
                let path = tree.key_at(j);
                let found = tree.value_at(j);
                proof {
                    if in_prefix(bs, i as int, path@) {
                        lemma_name_lt_irreflexive(path@);
                    }
                    lemma_not_ahead(bs, i as int, path@);
                    assert(at_name(known, path@) is None);
                    assert(at_name(there, path@) == Some(found@));
                    if i < n && j < m {
                        lemma_name_lt_irreflexive(bs[i as int].0);
                    }
                    assert forall|k: Seq<char>| #[trigger] in_prefix(bs, i as int, k) && j + 1 < m implies name_lt(k, ts[j as int + 1].0) by {
                        if j + 1 < m {
                            lemma_name_lt_transitive(k, ts[j as int].0, ts[j as int + 1].0);
                        }
                    }
                    assert forall|k: Seq<char>| #[trigger] in_prefix(ts, j as int + 1, k) && i < n implies name_lt(k, bs[i as int].0) by {
                        if i < n && !in_prefix(ts, j as int, k) {
                            assert(k == ts[j as int].0);
                        }
                    }
                }
                match diff_one(None, Some(found)) {
                    Some(next) => {
                        out.push_back(path.clone(), next);
                    },
                    None => {},
                }
                j = j + 1;
            },
            Order::Equal => {
                let path = base.entries.key_at(i);
                let entry = base.entries.value_at(i);
                let found = tree.value_at(j);
                proof {
                    assert(at_name(known, path@) == Some((entry.0@, entry.1)));
                    assert(at_name(there, path@) == Some(found@));
                    assert forall|k: Seq<char>| #[trigger] in_prefix(ts, j as int + 1, k) && i + 1 < n implies name_lt(k, bs[i as int + 1].0) by {
                        if i + 1 < n {
                            if in_prefix(ts, j as int, k) {
                                lemma_name_lt_transitive(k, bs[i as int].0, bs[i as int + 1].0);
                            } else {
                                assert(k == ts[j as int].0);
                            }
                        }
                    }
                    assert forall|k: Seq<char>| #[trigger] in_prefix(bs, i as int + 1, k) && j + 1 < m implies name_lt(k, ts[j as int + 1].0) by {
                        if j + 1 < m {
                            if in_prefix(bs, i as int, k) {
                                lemma_name_lt_transitive(k, ts[j as int].0, ts[j as int + 1].0);
                            } else {
                                assert(k == bs[i as int].0);
                            }
                        }
                    }
                }
                match diff_one(Some((&entry.0, entry.1)), Some(found)) {
                    Some(next) => {
                        out.push_back(path.clone(), next);
                    },
                    None => {},
                }
                i = i + 1;
                j = j + 1;
            },
        }
    }
    let r = ChangeLog { entries: out };
    proof {
        assert forall|k: Seq<char>| diff_spec(known, there).contains_key(k) implies in_prefix(bs, n as int, k) || in_prefix(ts, m as int, k) by {
            if !known.contains_key(k) && !there.contains_key(k) {
                assert(diff_entry(at_name(known, k), at_name(there, k)) is None);
            }
            if known.contains_key(k) {
                assert(base.entries@.contains_key(k));
            }
            if there.contains_key(k) {
                assert(tree@.contains_key(k));
            }
        }
        assert(r@ =~= diff_spec(known, there));
    }
    r
}

} // verus!
