//! The chain of roots: which manifest is the current root of a mount that
//! several writers share, and which roots came before it. A writer moves the
//! chain on by naming the root that it knows as the current one.

use vstd::prelude::*;
use crate::cid::{default_cid, Cid, CidError, CidView};

verus! {

/// An entry of the chain: a root, and the root before it.
#[derive(Debug, PartialEq, Eq)]
pub struct RootCid {
    cid: Cid,
    previous_cid: Cid,
}

/// What an entry of the chain is.
pub struct RootCidView {
    pub cid: CidView,
    pub previous_cid: CidView,
}

impl View for RootCid {
    type V = RootCidView;

    closed spec fn view(&self) -> RootCidView {
        RootCidView { cid: self.cid@, previous_cid: self.previous_cid@ }
    }
}

impl RootCid {
    /// The root.
    pub fn cid(&self) -> (r: &Cid)
        ensures
            r@ == self@.cid,
    {
        &self.cid
    }

    /// The root before it.
    pub fn previous_cid(&self) -> (r: &Cid)
        ensures
            r@ == self@.previous_cid,
    {
        &self.previous_cid
    }
}

impl Clone for RootCid {
    fn clone(&self) -> (r: Self)
        ensures
            r@ == self@,
    {
        RootCid { cid: self.cid.clone(), previous_cid: self.previous_cid.clone() }
    }
}

/// Why the chain does not move on.
#[derive(Debug, PartialEq, Eq)]
pub enum RootCidError {
    /// The manifest of the new root names another manifest before it than
    /// the writer does: what the manifest names, then what the writer names.
    InvalidLink(Cid, Cid),
    /// The writer names another root than the current one: what the writer
    /// names, then the current root.
    Conflict(Cid, Cid),
}

/// Why the chain does not move on, as plain values.
pub enum RootCidErrorView {
    InvalidLink(CidView, CidView),
    Conflict(CidView, CidView),
}

impl View for RootCidError {
    type V = RootCidErrorView;

    open spec fn view(&self) -> RootCidErrorView {
        match self {
            RootCidError::InvalidLink(a, b) => RootCidErrorView::InvalidLink(a@, b@),
            RootCidError::Conflict(a, b) => RootCidErrorView::Conflict(a@, b@),
        }
    }
}

/// The current root of a chain: the root of its last entry, or the
/// identifier for "none" where the chain has no entry.
pub open spec fn chain_head(chain: Seq<RootCidView>) -> CidView {
    if chain.len() == 0 {
        default_cid()
    } else {
        chain.last().cid
    }
}

/// The chain after a writer, who knows `previous_cid` as the current root,
/// moves it on to `cid`, whose manifest names `linked` as the manifest before
/// it; or why it does not move.
pub open spec fn push_root_spec(
    chain: Seq<RootCidView>,
    cid: CidView,
    previous_cid: CidView,
    linked: CidView,
) -> Result<Seq<RootCidView>, RootCidErrorView> {
    if previous_cid != chain_head(chain) {
        Err(RootCidErrorView::Conflict(previous_cid, chain_head(chain)))
    } else if linked != previous_cid {
        Err(RootCidErrorView::InvalidLink(linked, previous_cid))
    } else {
        Ok(chain.push(RootCidView { cid, previous_cid }))
    }
}

/// Whether each entry of a chain names the root of the entry before it, and
/// the first names none.
pub open spec fn chain_linked(chain: Seq<RootCidView>) -> bool {
    forall|i: int| 0 <= i < chain.len() ==> (#[trigger] chain[i]).previous_cid == chain_head(chain.take(i))
}

/// Where the chain moves on, the manifest of the new root names the root
/// that was current before, the new root is current after, and each entry
/// still names the root of the entry before it.
pub proof fn law_chain_moves_on(chain: Seq<RootCidView>, cid: CidView, previous_cid: CidView, linked: CidView)
    requires
        chain_linked(chain),
        push_root_spec(chain, cid, previous_cid, linked) is Ok,
    ensures
        linked == chain_head(chain),
        chain_head(push_root_spec(chain, cid, previous_cid, linked)->Ok_0) == cid,
        chain_linked(push_root_spec(chain, cid, previous_cid, linked)->Ok_0),
{
    let moved = push_root_spec(chain, cid, previous_cid, linked)->Ok_0;
    assert forall|i: int| 0 <= i < moved.len() implies (#[trigger] moved[i]).previous_cid == chain_head(moved.take(i)) by {
        if i < chain.len() {
            assert(moved.take(i) =~= chain.take(i));
            assert(moved[i] == chain[i]);
        } else {
            assert(moved.take(i) =~= chain);
        }
    }
}

/// Of two writers who know the same root as the current one, and move the
/// chain on one after the other, the first wins and the second is told of
/// the conflict.
pub proof fn law_one_writer_wins(
    chain: Seq<RootCidView>,
    first: CidView,
    second: CidView,
    known: CidView,
    first_linked: CidView,
    second_linked: CidView,
)
    requires
        first != known,
        push_root_spec(chain, first, known, first_linked) is Ok,
    ensures
        push_root_spec(push_root_spec(chain, first, known, first_linked)->Ok_0, second, known, second_linked)
            == Err::<Seq<RootCidView>, RootCidErrorView>(RootCidErrorView::Conflict(known, first)),
{
}

/// The chain of roots.
#[derive(Debug, PartialEq, Eq)]
pub struct RootChain {
    entries: Vec<RootCid>,
}

impl View for RootChain {
    type V = Seq<RootCidView>;

    closed spec fn view(&self) -> Seq<RootCidView> {
        Seq::new(self.entries@.len(), |i: int| self.entries@[i]@)
    }
}

impl RootChain {
    /// The chain without entries.
    pub fn new() -> (r: Self)
        ensures
            r@ == Seq::<RootCidView>::empty(),
    {
        let r = RootChain { entries: Vec::new() };
        proof {
            assert(r@ =~= Seq::<RootCidView>::empty());
        }
        r
    }

    /// The number of entries.
    pub fn len(&self) -> (r: usize)
        ensures
            r == self@.len(),
    {
        self.entries.len()
    }

    /// The last entry, if the chain has one.
    pub fn pull(&self) -> (r: Option<&RootCid>)
        ensures
            r is Some == (self@.len() > 0),
            r is Some ==> r->0@ == self@.last(),
    {
        let n = self.entries.len();
        if n == 0 {
            None
        } else {
            Some(&self.entries[n - 1])
        }
    }

    /// The current root.
    pub fn pull_root(&self) -> (r: Cid)
        ensures
            r@ == chain_head(self@),
    {
        match self.pull() {
            Some(entry) => entry.cid().clone(),
            None => Cid::default(),
        }
    }

    /// Moves the chain on to `cid` for a writer who knows `previous_cid` as
    /// the current root, where `linked` is what the manifest of `cid` names
    /// as the manifest before it.
    pub fn push(&mut self, cid: &Cid, previous_cid: &Cid, linked: &Cid) -> (r: Result<RootCid, RootCidError>)
        ensures
            match push_root_spec(old(self)@, cid@, previous_cid@, linked@) {
                Ok(chain) => r is Ok && final(self)@ == chain && r->Ok_0@ == chain.last(),
                Err(e) => r is Err && r->Err_0@ == e && final(self)@ == old(self)@,
            },
    {
        let head = self.pull_root();
        if !previous_cid.same(&head) {
            return Err(RootCidError::Conflict(previous_cid.clone(), head));
        }
        if !linked.same(previous_cid) {
            return Err(RootCidError::InvalidLink(linked.clone(), previous_cid.clone()));
        }
        let entry = RootCid { cid: cid.clone(), previous_cid: previous_cid.clone() };
        self.entries.push(entry.clone());
        proof {
            assert(self@ =~= old(self)@.push(entry@));
        }
        Ok(entry)
    }
}

impl Default for RootChain {
    fn default() -> (r: Self)
        ensures
            r@ == Seq::<RootCidView>::empty(),
    {
        RootChain::new()
    }
}

/// What a writer sends to learn the current root.
#[derive(Debug, Clone, Copy, PartialEq, Eq)]
pub struct PullRoot;

/// The answer to `PullRoot`: the current root, in its text form.
#[derive(Debug, PartialEq, Eq)]
pub struct PullRootResponse {
    pub cid: String,
}

/// What a writer sends to move the chain on: the new root and the root that
/// the writer knows as the current one, in their text forms.
#[derive(Debug, PartialEq, Eq)]
pub struct PushRoot {
    pub cid: String,
    pub previous_cid: String,
}

/// What the keeper of the chain gets from a writer who moves the chain on.
#[derive(Debug, PartialEq, Eq)]
pub struct PushRootRequest {
    pub cid: String,
    pub previous_cid: String,
}

/// The answer to a writer who has moved the chain on.
#[derive(Debug, PartialEq, Eq)]
pub struct PushRootResponse {
    pub previous_cid: String,
    pub cid: String,
}

/// Why a request to move the chain on is refused.
#[derive(Debug, PartialEq, Eq)]
pub enum PushRootError {
    /// The request holds a text that is no identifier.
    Cid(CidError),
    /// The chain does not move on.
    RootCid(RootCidError),
    /// The keeper cannot read the manifest of the new root, or its own records.
    Unavailable,
}

/// The status that answers a request that is refused.
pub open spec fn refusal_status(e: PushRootError) -> u16 {
    match e {
        PushRootError::Cid(_) => 400,
        PushRootError::RootCid(RootCidError::InvalidLink(_, _)) => 400,
        PushRootError::RootCid(RootCidError::Conflict(_, _)) => 409,
        PushRootError::Unavailable => 500,
    }
}

impl PullRoot {
    /// Whether the request must be signed.
    pub fn requires_authentication(&self) -> (r: bool)
        ensures
            !r,
    {
        false
    }
}

impl PullRootResponse {
    /// The answer that names `cid` as the current root.
    pub fn new(cid: &Cid) -> (r: PullRootResponse)
        ensures
            r.cid@ == crate::cid::cid_text(cid@),
    {
        PullRootResponse { cid: cid.to_string() }
    }

    /// The current root that the answer names.
    pub fn cid(&self) -> (r: Result<Cid, CidError>)
        ensures
            r is Ok == crate::cid::cid_from_text(self.cid@) is Some,
            r is Ok ==> r->Ok_0@ == crate::cid::cid_from_text(self.cid@)->0,
    {
        Cid::from_str(self.cid.as_str())
    }
}

impl PushRoot {
    /// The request to move the chain on from `previous_cid` to `cid`.
    pub fn new(cid: &Cid, previous_cid: &Cid) -> (r: PushRoot)
        ensures
            r.cid@ == crate::cid::cid_text(cid@),
            r.previous_cid@ == crate::cid::cid_text(previous_cid@),
    {
        PushRoot { cid: cid.to_string(), previous_cid: previous_cid.to_string() }
    }

    /// Whether the request must be signed.
    pub fn requires_authentication(&self) -> (r: bool)
        ensures
            r,
    {
        true
    }
}

impl PushRootRequest {
    /// The two identifiers of the request: the new root, then the root that
    /// the writer knows as the current one.
    pub fn parse(&self) -> (r: Result<(Cid, Cid), PushRootError>)
        ensures
            match (crate::cid::cid_from_text(self.cid@), crate::cid::cid_from_text(self.previous_cid@)) {
                (Some(cid), Some(previous)) => r is Ok && r->Ok_0.0@ == cid && r->Ok_0.1@ == previous,
                _ => r == Err::<(Cid, Cid), PushRootError>(PushRootError::Cid(CidError::InvalidText)),
            },
    {
        let cid = match Cid::from_str(self.cid.as_str()) {
            Ok(cid) => cid,
            Err(e) => {
                return Err(PushRootError::Cid(e));
            },
        };
        let previous = match Cid::from_str(self.previous_cid.as_str()) {
            Ok(cid) => cid,
            Err(e) => {
                return Err(PushRootError::Cid(e));
            },
        };
        Ok((cid, previous))
    }
}

impl PushRootResponse {
    /// The answer for an entry of the chain.
    pub fn from_root_cid(entry: &RootCid) -> (r: PushRootResponse)
        ensures
            r.cid@ == crate::cid::cid_text(entry@.cid),
            r.previous_cid@ == crate::cid::cid_text(entry@.previous_cid),
    {
        PushRootResponse { previous_cid: entry.previous_cid().to_string(), cid: entry.cid().to_string() }
    }
}

impl PushRootError {
    /// The status that answers the request.
    pub fn status(&self) -> (r: u16)
        ensures
            r == refusal_status(*self),
    {
        match self {
            PushRootError::Cid(_) => 400,
            PushRootError::RootCid(RootCidError::InvalidLink(_, _)) => 400,
            PushRootError::RootCid(RootCidError::Conflict(_, _)) => 409,
            PushRootError::Unavailable => 500,
        }
    }

    /// The words that answer the request.
    pub fn message(&self) -> (r: &'static str)
        ensures
            r@ == (match *self {
                PushRootError::Cid(_) => "invalid cid"@,
                PushRootError::RootCid(RootCidError::InvalidLink(_, _)) => "invalid link"@,
                PushRootError::RootCid(RootCidError::Conflict(_, _)) => "conflict"@,
                PushRootError::Unavailable => "unknown server error"@,
            }),
    {
        match self {
            PushRootError::Cid(_) => "invalid cid",
            PushRootError::RootCid(RootCidError::InvalidLink(_, _)) => "invalid link",
            PushRootError::RootCid(RootCidError::Conflict(_, _)) => "conflict",
            PushRootError::Unavailable => "unknown server error",
        }
    }
}

/// Answers a writer's request to move the chain on, where `linked` is what
/// the manifest of the request's new root names as the manifest before it.
pub fn push_root(chain: &mut RootChain, request: &PushRootRequest, linked: &Cid) -> (r: Result<PushRootResponse, PushRootError>)
    ensures
        match (crate::cid::cid_from_text(request.cid@), crate::cid::cid_from_text(request.previous_cid@)) {
            (Some(cid), Some(previous)) => match push_root_spec(old(chain)@, cid, previous, linked@) {
                Ok(moved) => {
                    &&& r is Ok
                    &&& final(chain)@ == moved
                    &&& r->Ok_0.cid@ == crate::cid::cid_text(cid)
                    &&& r->Ok_0.previous_cid@ == crate::cid::cid_text(previous)
                },
                Err(e) => r is Err && r->Err_0 is RootCid && r->Err_0->RootCid_0@ == e && final(chain)@ == old(chain)@,
            },
            _ => r == Err::<PushRootResponse, PushRootError>(PushRootError::Cid(CidError::InvalidText)) && final(chain)@ == old(chain)@,
        },
{
    let (cid, previous) = match request.parse() {
        Ok(pair) => pair,
        Err(e) => {
            return Err(e);
        },
    };
    match chain.push(&cid, &previous, linked) {
        Ok(entry) => Ok(PushRootResponse::from_root_cid(&entry)),
        Err(e) => Err(PushRootError::RootCid(e)),
    }
}

} // verus!
