//! The block store: where blocks go to stay. Its operations are the store's
//! own business; a mount relies on none of their answers, and says of each
//! what it makes of it.

use vstd::prelude::*;
use crate::cache::{distinct_keys, entries_map, held_before, lemma_entries_map, lemma_entries_push};
use crate::cid::{Cid, CidView, BLAKE3_256_CODE, RAW_CODEC};
use libipld::multihash::{Code, MultihashDigest};

verus! {

/// Why a store does not answer.
#[derive(Debug, Clone, Copy, PartialEq, Eq, Structural)]
pub enum StoreError {
    /// The store does not hold the block.
    NotFound,
    /// The store could not be reached, or did not answer as a store does.
    Transport,
}

/// One question to a store, with what the store answered.
pub enum StoreCall {
    /// For the identifier of a payload, without keeping it.
    Hash(Seq<u8>, Result<CidView, StoreError>),
    /// To keep a payload.
    Add(Seq<u8>, Result<CidView, StoreError>),
    /// For the bytes of a block.
    Get(CidView, Result<Seq<u8>, StoreError>),
    /// To keep the bytes of a block of the codec and hash of an identifier.
    PutBlock(CidView, Seq<u8>, Result<CidView, StoreError>),
    /// Whether the store holds a block.
    Pinned(CidView, Result<bool, StoreError>),
}

/// An answer that holds an identifier, as plain values.
pub open spec fn cid_answer(r: Result<Cid, StoreError>) -> Result<CidView, StoreError> {
    match r {
        Ok(cid) => Ok(cid@),
        Err(e) => Err(e),
    }
}

/// An answer that holds bytes, as plain values.
pub open spec fn bytes_answer(r: Result<Vec<u8>, StoreError>) -> Result<Seq<u8>, StoreError> {
    match r {
        Ok(data) => Ok(data@),
        Err(e) => Err(e),
    }
}

/// Whether the record `after` goes on from the record `before`.
pub open spec fn went_on(before: Seq<StoreCall>, after: Seq<StoreCall>) -> bool {
    before.len() <= after.len() && after.take(before.len() as int) == before
}

/// What a record holds beyond the record `before` from which it goes on.
pub open spec fn asked_since(before: Seq<StoreCall>, after: Seq<StoreCall>) -> Seq<StoreCall> {
    after.skip(before.len() as int)
}

/// Whether the record `after` holds one question more than the record
/// `before`, and is the same up to there.
pub open spec fn asked_one(before: Seq<StoreCall>, after: Seq<StoreCall>) -> bool {
    after.len() == before.len() + 1 && after.drop_last() == before
}

/// A content-addressed block store. What an operation answers is up to the
/// store: a mount says of each answer what it does with it.
pub trait BlockStore {
    /// The identifier that the store gives a payload, without keeping it.
    fn hash(&mut self, data: &Vec<u8>) -> Result<Cid, StoreError>;

    /// Keeps a payload, and gives its identifier.
    fn add(&mut self, data: &Vec<u8>) -> Result<Cid, StoreError>;

    /// The bytes of a block.
    fn get(&mut self, cid: &Cid) -> Result<Vec<u8>, StoreError>;

    /// Keeps the bytes of a block of the codec and hash of `cid`, and gives
    /// the identifier that the store finds for them.
    fn put_block(&mut self, cid: &Cid, data: &Vec<u8>) -> Result<Cid, StoreError>;

    /// Whether the store holds a block.
    fn pinned(&mut self, cid: &Cid) -> Result<bool, StoreError>;
}

/// A store together with the record of what it was asked through this
/// handle: the questions, each with the store's answer, the latest last.
/// The record says nothing of what a store answers. It is what the
/// contracts of the functions that ask a store speak of: which questions
/// they ask, and what they make of the answers.
pub struct Recorded<S> {
    store: S,
    record: Ghost<Seq<StoreCall>>,
}

impl<S: BlockStore> Recorded<S> {
    /// The questions that the store was asked through this handle, each
    /// with its answer.
    pub closed spec fn asked(&self) -> Seq<StoreCall> {
        self.record@
    }

    /// The store itself.
    pub closed spec fn held(&self) -> S {
        self.store
    }

    /// A store that was asked nothing yet.
    pub fn new(store: S) -> (r: Self)
        ensures
            r.asked() == Seq::<StoreCall>::empty(),
            r.held() == store,
    {
        Recorded { store, record: Ghost(Seq::empty()) }
    }

    /// The store, to look at.
    pub fn inner(&self) -> (r: &S)
        ensures
            *r == self.held(),
    {
        &self.store
    }

    /// The store, given back.
    pub fn into_inner(self) -> (r: S)
        ensures
            r == self.held(),
    {
        self.store
    }

    /// Asks the store for the identifier of a payload, without leaving the
    /// payload there.
    pub fn hash(&mut self, data: &Vec<u8>) -> (r: Result<Cid, StoreError>)
        ensures
            final(self).asked() == old(self).asked().push(StoreCall::Hash(data@, cid_answer(r))),
    {
        let r = self.store.hash(data);
        self.record = Ghost(self.record@.push(StoreCall::Hash(data@, cid_answer(r))));
        r
    }

    /// Asks the store to keep a payload.
    pub fn add(&mut self, data: &Vec<u8>) -> (r: Result<Cid, StoreError>)
        ensures
            final(self).asked() == old(self).asked().push(StoreCall::Add(data@, cid_answer(r))),
    {
        let r = self.store.add(data);
        self.record = Ghost(self.record@.push(StoreCall::Add(data@, cid_answer(r))));
        r
    }

    /// Asks the store for the bytes of a block.
    pub fn get(&mut self, cid: &Cid) -> (r: Result<Vec<u8>, StoreError>)
        ensures
            final(self).asked() == old(self).asked().push(StoreCall::Get(cid@, bytes_answer(r))),
    {
        let r = self.store.get(cid);
        self.record = Ghost(self.record@.push(StoreCall::Get(cid@, bytes_answer(r))));
        r
    }

    /// Asks the store to keep the bytes of a block of the codec and hash of
    /// `cid`.
    pub fn put_block(&mut self, cid: &Cid, data: &Vec<u8>) -> (r: Result<Cid, StoreError>)
        ensures
            final(self).asked() == old(self).asked().push(StoreCall::PutBlock(cid@, data@, cid_answer(r))),
    {
        let r = self.store.put_block(cid, data);
        self.record = Ghost(self.record@.push(StoreCall::PutBlock(cid@, data@, cid_answer(r))));
        r
    }

    /// Asks the store whether it holds a block.
    pub fn pinned(&mut self, cid: &Cid) -> (r: Result<bool, StoreError>)
        ensures
            final(self).asked() == old(self).asked().push(StoreCall::Pinned(cid@, r)),
    {
        let r = self.store.pinned(cid);
        self.record = Ghost(self.record@.push(StoreCall::Pinned(cid@, r)));
        r
    }
}

/// The identifier that BLAKE3 gives the bytes of a block of a codec.
pub uninterp spec fn blake3_cid(codec: u64, data: Seq<u8>) -> CidView;

/// `Code::Blake3_256.digest` of `libipld::multihash`, made an identifier of
/// version 1 for the codec. The contract names the identifier after the codec
/// and the bytes, and states of it what the call fixes: the version, the
/// codec, the hash's code and the length of its digest.
#[verifier::external_body]
fn hash_block(codec: u64, data: &Vec<u8>) -> (r: Cid)
    ensures
        r@ == blake3_cid(codec, data@),
        r@.version == 1,
        r@.codec == codec,
        r@.hash_code == BLAKE3_256_CODE,
        r@.digest.len() == 32,
{
    let hash = Code::Blake3_256.digest(data.as_slice());
    Cid::new_v1(codec, hash.code(), hash.digest().to_vec()).unwrap()
}

/// The identifier of a payload: BLAKE3 over its bytes, under the raw codec.
pub fn raw_cid(data: &Vec<u8>) -> (r: Cid)
    ensures
        r@ == blake3_cid(RAW_CODEC, data@),
        r@.codec == RAW_CODEC,
{
    hash_block(RAW_CODEC, data)
}

/// The blocks of a store after `data` is kept under `cid`: as they were
/// where the store held a block under `cid`, else with the new block.
pub open spec fn kept(blocks: Map<CidView, Seq<u8>>, cid: CidView, data: Seq<u8>) -> Map<CidView, Seq<u8>> {
    if blocks.contains_key(cid) {
        blocks
    } else {
        blocks.insert(cid, data)
    }
}

spec fn blocks_view(blocks: Vec<(Cid, Vec<u8>)>) -> Seq<(CidView, Seq<u8>)> {
    Seq::new(blocks@.len(), |i: int| (blocks@[i].0@, blocks@[i].1@))
}

/// A block store in memory. It names blocks by BLAKE3.
#[derive(Debug)]
pub struct MemoryStore {
    blocks: Vec<(Cid, Vec<u8>)>,
}

impl View for MemoryStore {
    type V = Map<CidView, Seq<u8>>;

    closed spec fn view(&self) -> Map<CidView, Seq<u8>> {
        entries_map(self.seq())
    }
}

impl MemoryStore {
    /// The entries in the order in which they came.
    pub closed spec fn seq(&self) -> Seq<(CidView, Seq<u8>)> {
        blocks_view(self.blocks)
    }

    #[verifier::type_invariant]
    spec fn inv(&self) -> bool {
        distinct_keys(self.seq())
    }

    /// The store without blocks.
    pub fn new() -> (r: Self)
        ensures
            r@ == Map::<CidView, Seq<u8>>::empty(),
    {
        let r = MemoryStore { blocks: Vec::new() };
        proof {
            assert(r.seq() =~= Seq::<(CidView, Seq<u8>)>::empty());
            assert(r@ =~= Map::<CidView, Seq<u8>>::empty());
        }
        r
    }

    /// The number of blocks.
    pub fn len(&self) -> (r: usize)
        ensures
            r == self.seq().len(),
    {
        self.blocks.len()
    }

    /// The place of the block with identifier `cid`, if the store holds it.
    fn find(&self, cid: &Cid) -> (r: Option<usize>)
        ensures
            r is Some == self@.contains_key(cid@),
            r is Some ==> r->0 < self.seq().len() && self.seq()[r->0 as int].0 == cid@ && self@[cid@] == self.seq()[r->0 as int].1,
    {
        proof {
            use_type_invariant(self);
            lemma_entries_map(self.seq());
        }
        let n = self.blocks.len();
        let mut i: usize = 0;
        while i < n
            invariant
                i <= n,
                n == self.seq().len(),
                n == self.blocks@.len(),
                !held_before(self.seq(), i as int, cid@),
                forall|j: int| 0 <= j < self.seq().len() ==> self@.contains_key((#[trigger] self.seq()[j]).0) && self@[self.seq()[j].0] == self.seq()[j].1,
            decreases n - i,
        {
            if self.blocks[i].0.same(cid) {
                proof {
                    assert(self.seq()[i as int].0 == cid@);
                }
                return Some(i);
            }
            proof {
                if held_before(self.seq(), i as int + 1, cid@) {
                    let j = choose|j: int| 0 <= j < i + 1 && j < self.seq().len() && (#[trigger] self.seq()[j]).0 == cid@;
                    if j < i {
                        assert(held_before(self.seq(), i as int, cid@));
                    }
                }
            }
            i = i + 1;
        }
        None
    }

    /// Keeps `data` under `cid`, unless the store holds a block under `cid` already.
    fn keep(&mut self, cid: Cid, data: &Vec<u8>)
        ensures
            final(self)@ == kept(old(self)@, cid@, data@),
    {
        match self.find(&cid) {
            Some(_) => {},
            None => {
                proof {
                    use_type_invariant(&*self);
                }
                let ghost before = self.seq();
                let ghost k = cid@;
                let mut blocks: Vec<(Cid, Vec<u8>)> = Vec::new();
                proof {
                    assert(blocks_view(blocks) =~= Seq::<(CidView, Seq<u8>)>::empty());
                }
                core::mem::swap(&mut self.blocks, &mut blocks);
                blocks.push((cid, data.clone()));
                proof {
                    assert(blocks_view(blocks) =~= before.push((k, data@)));
                    lemma_entries_push(before, k, data@);
                }
                core::mem::swap(&mut self.blocks, &mut blocks);
            },
        }
    }
}

impl BlockStore for MemoryStore {
    fn hash(&mut self, data: &Vec<u8>) -> (r: Result<Cid, StoreError>)
        ensures
            r is Ok,
            r->Ok_0@ == blake3_cid(RAW_CODEC, data@),
            final(self)@ == old(self)@,
    {
        Ok(raw_cid(data))
    }

    fn add(&mut self, data: &Vec<u8>) -> (r: Result<Cid, StoreError>)
        ensures
            r is Ok,
            r->Ok_0@ == blake3_cid(RAW_CODEC, data@),
            final(self)@ == kept(old(self)@, r->Ok_0@, data@),
    {
        let cid = raw_cid(data);
        self.keep(cid.clone(), data);
        Ok(cid)
    }

    fn get(&mut self, cid: &Cid) -> (r: Result<Vec<u8>, StoreError>)
        ensures
            final(self)@ == old(self)@,
            match r {
                Ok(data) => old(self)@.contains_key(cid@) && data@ == old(self)@[cid@],
                Err(e) => !old(self)@.contains_key(cid@) && e == StoreError::NotFound,
            },
    {
        match self.find(cid) {
            Some(i) => Ok(self.blocks[i].1.clone()),
            None => Err(StoreError::NotFound),
        }
    }

    fn put_block(&mut self, cid: &Cid, data: &Vec<u8>) -> (r: Result<Cid, StoreError>)
        ensures
            r is Ok,
            r->Ok_0@ == blake3_cid(cid@.codec, data@),
            final(self)@ == kept(old(self)@, r->Ok_0@, data@),
    {
        let found = hash_block(cid.codec(), data);
        self.keep(found.clone(), data);
        Ok(found)
    }

    fn pinned(&mut self, cid: &Cid) -> (r: Result<bool, StoreError>)
        ensures
            final(self)@ == old(self)@,
            r == Ok::<bool, StoreError>(old(self)@.contains_key(cid@)),
    {
        Ok(self.find(cid).is_some())
    }
}

impl Default for MemoryStore {
    fn default() -> (r: Self)
        ensures
            r@ == Map::<CidView, Seq<u8>>::empty(),
    {
        MemoryStore::new()
    }
}

} // verus!
