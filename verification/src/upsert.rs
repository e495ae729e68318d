//! The rewrite of the node graph along a path: how a link, an object or a
//! schema is put at a path, or a link taken away, and how the change comes
//! up from the node where it happens to the root.

use vstd::prelude::*;
use crate::cache::{cache_put, BlockCache, CacheError};
use crate::cid::{default_cid, Cid, CidView};
use crate::codec::structured_cid;
use crate::ipld::IpldView;
use crate::node::{empty_node, ipld_node, node_ipld, put_link_spec, put_object_spec, Node, NodeError, NodeErrorView, NodeLink, NodeLinkView, NodeView};
use crate::object::{Object, ObjectView};
use crate::path::names_view;
use crate::schema::{Schema, SchemaError, SchemaErrorView, SchemaView};
use crate::store::StoreError;

verus! {

/// Why an operation on a mount fails.
pub enum MountErrorView {
    PathNotFound(Seq<Seq<char>>),
    PathNotDir(Seq<Seq<char>>),
    PathNotFile(Seq<Seq<char>>),
    DataOnPath(Seq<Seq<char>>),
    SchemaOnData(Seq<Seq<char>>),
    SchemaValidation(SchemaErrorView),
    PreviousMismatch(CidView, CidView),
    BlockCacheMiss(CidView),
    Node(NodeErrorView),
    Store(StoreError),
    Ipld,
    IdentifierMismatch(CidView, CidView),
    BlockCreation,
    BlockDecode,
    BlockEncoding,
    TooManyBlocks,
}

/// Why an operation on a mount fails.
#[derive(Debug, PartialEq, Eq)]
pub enum MountError {
    /// No link stands at the path.
    PathNotFound(Vec<String>),
    /// A file stands at the path, where a directory is asked for.
    PathNotDir(Vec<String>),
    /// A directory stands at the path, where a file is asked for.
    PathNotFile(Vec<String>),
    /// A file stands on the way: at the path, which is not the last name.
    DataOnPath(Vec<String>),
    /// A schema is to be set where a file stands.
    SchemaOnData(Vec<String>),
    /// An object does not fit the schema that it is held to.
    SchemaValidation(SchemaError),
    /// The manifest to go on to does not name the mount's root as the one
    /// before it: what it names, then the mount's root.
    PreviousMismatch(Cid, Cid),
    /// The cache does not hold the block.
    BlockCacheMiss(Cid),
    /// A node refuses the change.
    Node(NodeError),
    /// The store does not answer.
    Store(StoreError),
    /// A block does not hold what is read from it.
    Ipld,
    /// The store finds another identifier for a block than the block's own:
    /// the block's own, then the store's.
    IdentifierMismatch(Cid, Cid),
    /// Another block stands in the cache under the identifier of a new one.
    BlockCreation,
    /// The bytes of a block are not the block of their identifier.
    BlockDecode,
    /// A value has no block.
    BlockEncoding,
    /// More blocks hang on a root than can be counted.
    TooManyBlocks,
}

impl View for MountError {
    type V = MountErrorView;

    open spec fn view(&self) -> MountErrorView {
        match self {
            MountError::PathNotFound(p) => MountErrorView::PathNotFound(names_view(p@)),
            MountError::PathNotDir(p) => MountErrorView::PathNotDir(names_view(p@)),
            MountError::PathNotFile(p) => MountErrorView::PathNotFile(names_view(p@)),
            MountError::DataOnPath(p) => MountErrorView::DataOnPath(names_view(p@)),
            MountError::SchemaOnData(p) => MountErrorView::SchemaOnData(names_view(p@)),
            MountError::SchemaValidation(e) => MountErrorView::SchemaValidation(e@),
            MountError::PreviousMismatch(a, b) => MountErrorView::PreviousMismatch(a@, b@),
            MountError::BlockCacheMiss(c) => MountErrorView::BlockCacheMiss(c@),
            MountError::Node(e) => MountErrorView::Node(e@),
            MountError::Store(e) => MountErrorView::Store(*e),
            MountError::Ipld => MountErrorView::Ipld,
            MountError::IdentifierMismatch(a, b) => MountErrorView::IdentifierMismatch(a@, b@),
            MountError::BlockCreation => MountErrorView::BlockCreation,
            MountError::BlockDecode => MountErrorView::BlockDecode,
            MountError::BlockEncoding => MountErrorView::BlockEncoding,
            MountError::TooManyBlocks => MountErrorView::TooManyBlocks,
        }
    }
}

/// Whether every block of `old` stands unchanged in `new`.
pub open spec fn cache_extends(old: Map<CidView, IpldView>, new: Map<CidView, IpldView>) -> bool {
    forall|k: CidView| #[trigger] old.contains_key(k) ==> new.contains_key(k) && new[k] == old[k]
}

/// The node that the cache holds under an identifier.
pub open spec fn cached_node(cache: Map<CidView, IpldView>, cid: CidView) -> Result<NodeView, MountErrorView> {
    if !cache.contains_key(cid) {
        Err(MountErrorView::BlockCacheMiss(cid))
    } else {
        match ipld_node(cache[cid]) {
            Ok(node) => Ok(node),
            Err(_) => Err(MountErrorView::Ipld),
        }
    }
}

/// The cache after a node is put into it, and the node's identifier.
pub open spec fn put_node(cache: Map<CidView, IpldView>, node: NodeView) -> Result<(Map<CidView, IpldView>, CidView), MountErrorView> {
    match cache_put(cache, node_ipld(node)) {
        Ok(stored) => Ok(stored),
        Err(CacheError::Encoding) => Err(MountErrorView::BlockEncoding),
        Err(CacheError::Collision) => Err(MountErrorView::BlockCreation),
    }
}

/// How a rewrite ends: with nothing changed (`Ok(None)`), with the node gone
/// (`Ok` of the identifier for "none"), or with the node's new identifier;
/// the node as it then is; and the cache with the blocks that were written.
pub struct UpsertView {
    pub result: Result<Option<CidView>, MountErrorView>,
    pub node: NodeView,
    pub cache: Map<CidView, IpldView>,
}

/// Whether a schema is handed down to be set on a node.
pub open spec fn is_install(schema: Option<(SchemaView, bool)>) -> bool {
    match schema {
        Some((_, persist)) => persist,
        None => false,
    }
}

/// The schema that is handed down.
pub open spec fn handed_schema(schema: Option<(SchemaView, bool)>) -> SchemaView {
    match schema {
        Some((s, _)) => s,
        None => Map::empty(),
    }
}

/// Whether a rewrite takes a link away: it brings no link, no object and no
/// schema to set.
pub open spec fn is_removal(link: Option<CidView>, object: Option<ObjectView>, schema: Option<(SchemaView, bool)>) -> bool {
    link is None && object is None && !is_install(schema)
}

/// The schema that holds in a node: its own, else the one handed down.
pub open spec fn schema_here(node: NodeView, schema: Option<(SchemaView, bool)>) -> Option<SchemaView> {
    match node.schema {
        Some(s) => Some(s),
        None => match schema {
            Some((s, _)) => Some(s),
            None => None,
        },
    }
}

/// The schema that a node hands down: a schema to set goes down as it is;
/// else the schema that holds in the node.
pub open spec fn schema_below(node: NodeView, schema: Option<(SchemaView, bool)>) -> Option<(SchemaView, bool)> {
    if is_install(schema) {
        schema
    } else {
        match schema_here(node, schema) {
            Some(s) => Some((s, false)),
            None => None,
        }
    }
}

/// A rewrite that fails.
pub open spec fn upsert_fails(e: MountErrorView, node: NodeView, cache: Map<CidView, IpldView>) -> UpsertView {
    UpsertView { result: Err(e), node, cache }
}

/// A node is written into the cache, and its identifier handed up.
pub open spec fn store_node(node: NodeView, cache: Map<CidView, IpldView>) -> UpsertView {
    match put_node(cache, node) {
        Ok((cache2, cid)) => UpsertView { result: Ok(Some(cid)), node, cache: cache2 },
        Err(e) => upsert_fails(e, node, cache),
    }
}

/// A node loses the link `name`: it is gone where that was its last link,
/// else written anew.
pub open spec fn drop_link(node: NodeView, name: Seq<char>, cache: Map<CidView, IpldView>) -> UpsertView {
    let left = NodeView { links: node.links.remove(name), ..node };
    if left.links == Map::<Seq<char>, NodeLinkView>::empty() {
        UpsertView { result: Ok(Some(default_cid())), node: left, cache }
    } else {
        store_node(left, cache)
    }
}

/// The node and the cache after the link or the schema of a rewrite is put at
/// the last name of its path, before an object is attached.
pub open spec fn place_terminal(
    node: NodeView,
    here: Seq<Seq<char>>,
    name: Seq<char>,
    link: Option<CidView>,
    object: Option<ObjectView>,
    schema: Option<(SchemaView, bool)>,
    cache: Map<CidView, IpldView>,
) -> Result<(NodeView, Map<CidView, IpldView>), MountErrorView> {
    if link is Some {
        match put_link_spec(node, name, link->0) {
            Ok(n) => Ok((n, cache)),
            Err(e) => Err(MountErrorView::Node(e)),
        }
    } else if is_install(schema) {
        let to_set = handed_schema(schema);
        if node.links.contains_key(name) {
            match node.links[name] {
                NodeLinkView::Node(child_cid) => match cached_node(cache, child_cid) {
                    Err(e) => Err(e),
                    Ok(child) => match put_node(cache, NodeView { schema: Some(to_set), ..child }) {
                        Err(e) => Err(e),
                        Ok((cache2, cid)) => match put_link_spec(node, name, cid) {
                            Ok(n) => Ok((n, cache2)),
                            Err(e) => Err(MountErrorView::Node(e)),
                        },
                    },
                },
                NodeLinkView::Data(_, _) => if object is Some {
                    Ok((node, cache))
                } else {
                    Err(MountErrorView::SchemaOnData(here))
                },
            }
        } else {
            match put_node(cache, NodeView { schema: Some(to_set), ..empty_node() }) {
                Err(e) => Err(e),
                Ok((cache2, cid)) => match put_link_spec(node, name, cid) {
                    Ok(n) => Ok((n, cache2)),
                    Err(e) => Err(MountErrorView::Node(e)),
                },
            }
        }
    } else if node.links.contains_key(name) && node.links[name] is Data {
        Ok((node, cache))
    } else {
        Err(MountErrorView::PathNotFound(here))
    }
}

/// The node after the object of a rewrite, if it brings one, is attached at
/// the last name of its path.
pub open spec fn attach_terminal(
    node: NodeView,
    here: Seq<Seq<char>>,
    name: Seq<char>,
    object: Option<ObjectView>,
    held_to: Option<SchemaView>,
) -> Result<NodeView, MountErrorView> {
    match object {
        None => Ok(node),
        Some(o) => match put_object_spec(node, name, o, held_to) {
            Ok(n) => Ok(n),
            Err(NodeErrorView::Schema(e)) => Err(MountErrorView::SchemaValidation(e)),
            Err(NodeErrorView::LinkNotFound(_)) => Err(MountErrorView::PathNotFound(here)),
            Err(e) => Err(MountErrorView::Node(e)),
        },
    }
}

/// The rewrite at the last name of its path.
pub open spec fn upsert_terminal(
    node: NodeView,
    consumed: Seq<Seq<char>>,
    name: Seq<char>,
    link: Option<CidView>,
    object: Option<ObjectView>,
    schema: Option<(SchemaView, bool)>,
    cache: Map<CidView, IpldView>,
) -> UpsertView {
    let here = consumed.push(name);
    if is_removal(link, object, schema) {
        if !node.links.contains_key(name) {
            UpsertView { result: Ok(None), node, cache }
        } else {
            drop_link(node, name, cache)
        }
    } else {
        match place_terminal(node, here, name, link, object, schema, cache) {
            Err(e) => upsert_fails(e, node, cache),
            Ok((placed, cache2)) => match attach_terminal(placed, here, name, object, schema_here(node, schema)) {
                Err(e) => upsert_fails(e, node, cache2),
                Ok(attached) => store_node(attached, cache2),
            },
        }
    }
}

/// The node under the first name of a path that goes on, where the rewrite
/// goes down into one: the node that stands there, or a new one where the
/// rewrite makes its way; nothing where there is no way and none is made.
pub open spec fn step_down(
    node: NodeView,
    here: Seq<Seq<char>>,
    name: Seq<char>,
    link: Option<CidView>,
    schema: Option<(SchemaView, bool)>,
    cache: Map<CidView, IpldView>,
) -> Result<Option<(NodeView, Map<CidView, IpldView>)>, MountErrorView> {
    if node.links.contains_key(name) {
        match node.links[name] {
            NodeLinkView::Data(_, _) => Err(MountErrorView::DataOnPath(here)),
            NodeLinkView::Node(child_cid) => match cached_node(cache, child_cid) {
                Ok(child) => Ok(Some((child, cache))),
                Err(e) => Err(e),
            },
        }
    } else if link is Some || is_install(schema) {
        match put_node(cache, empty_node()) {
            Ok((cache2, _)) => Ok(Some((empty_node(), cache2))),
            Err(e) => Err(e),
        }
    } else {
        Ok(None)
    }
}

/// What a node does with what comes up from below.
pub open spec fn come_up(node: NodeView, name: Seq<char>, below: UpsertView) -> UpsertView {
    match below.result {
        Err(e) => upsert_fails(e, node, below.cache),
        Ok(None) => UpsertView { result: Ok(None), node, cache: below.cache },
        Ok(Some(cid)) => if cid == default_cid() {
            drop_link(node, name, below.cache)
        } else {
            match put_link_spec(node, name, cid) {
                Err(e) => upsert_fails(MountErrorView::Node(e), node, below.cache),
                Ok(bound) => store_node(bound, below.cache),
            }
        },
    }
}

/// The rewrite of the graph below `node` along `path`: `link` is put at the
/// path, or `object` attached there, or the schema set there; with none of
/// the three, the link at the path is taken away. `consumed` holds the names
/// from the root down to `node`.
pub open spec fn upsert_spec(
    node: NodeView,
    consumed: Seq<Seq<char>>,
    path: Seq<Seq<char>>,
    link: Option<CidView>,
    object: Option<ObjectView>,
    schema: Option<(SchemaView, bool)>,
    cache: Map<CidView, IpldView>,
) -> UpsertView
    decreases path.len(),
{
    if path.len() == 0 {
        upsert_fails(MountErrorView::PathNotFound(consumed), node, cache)
    } else if path.len() == 1 {
        upsert_terminal(node, consumed, path[0], link, object, schema, cache)
    } else {
        let name = path[0];
        let here = consumed.push(name);
        match step_down(node, here, name, link, schema, cache) {
            Err(e) => upsert_fails(e, node, cache),
            Ok(None) => UpsertView { result: Ok(None), node, cache },
            Ok(Some((child, cache2))) => come_up(
                node,
                name,
                upsert_spec(child, here, path.skip(1), link, object, schema_below(node, schema), cache2),
            ),
        }
    }
}

/// The view of the end of a rewrite.
pub open spec fn upsert_result_view(r: Result<Option<Cid>, MountError>) -> Result<Option<CidView>, MountErrorView> {
    match r {
        Ok(Some(cid)) => Ok(Some(cid@)),
        Ok(None) => Ok(None),
        Err(e) => Err(e@),
    }
}

/// The view of an identifier that may be there.
pub open spec fn cid_option_view(c: Option<Cid>) -> Option<CidView> {
    match c {
        Some(cid) => Some(cid@),
        None => None,
    }
}

/// The view of an object that may be there.
pub open spec fn object_option_view(o: Option<&Object>) -> Option<ObjectView> {
    match o {
        Some(object) => Some(object@),
        None => None,
    }
}

/// The view of a schema that may be handed down.
pub open spec fn schema_option_view(s: Option<(Schema, bool)>) -> Option<(SchemaView, bool)> {
    match s {
        Some((schema, persist)) => Some((schema@, persist)),
        None => None,
    }
}

/// The node that the cache holds under an identifier.
pub fn get_cache(cid: &Cid, cache: &BlockCache) -> (r: Result<Node, MountError>)
    ensures
        match cached_node(cache@, cid@) {
            Ok(node) => r is Ok && r->Ok_0@ == node,
            Err(e) => r is Err && r->Err_0@ == e,
        },
{
    match cache.get(cid) {
        None => Err(MountError::BlockCacheMiss(cid.clone())),
        Some(value) => match Node::try_from_ipld(value) {
            Ok(node) => Ok(node),
            Err(_) => Err(MountError::Ipld),
        },
    }
}

/// Writes a node into the cache, and gives the node's identifier.
pub fn put_cache(node: &Node, cache: &mut BlockCache) -> (r: Result<Cid, MountError>)
    ensures
        match put_node(old(cache)@, node@) {
            Ok((cache2, cid)) => r is Ok && r->Ok_0@ == cid && final(cache)@ == cache2 && structured_cid(cid),
            Err(e) => r is Err && r->Err_0@ == e && final(cache)@ == old(cache)@,
        },
{
    match cache.put(node.to_ipld()) {
        Ok(cid) => Ok(cid),
        Err(CacheError::Encoding) => Err(MountError::BlockEncoding),
        Err(CacheError::Collision) => Err(MountError::BlockCreation),
    }
}

/// The names of a path up to the one at `last`, that one included.
pub fn path_through(path: &Vec<String>, last: usize) -> (r: Vec<String>)
    requires
        last < path@.len(),
    ensures
        names_view(r@) == names_view(path@).take(last as int + 1),
{
    let n = path.len();
    let mut out: Vec<String> = Vec::new();
    let mut i: usize = 0;
    while i <= last
        invariant
            i <= last + 1,
            last < n,
            n == path@.len(),
            out@.len() == i,
            forall|j: int| 0 <= j < i ==> (#[trigger] out@[j])@ == path@[j]@,
        decreases last + 1 - i,
    {
        out.push(path[i].clone());
        i = i + 1;
    }
    proof {
        assert(names_view(out@) =~= names_view(path@).take(last as int + 1));
    }
    out
}

/// Writing a node into a cache keeps what the cache holds.
pub proof fn lemma_put_node_extends(cache: Map<CidView, IpldView>, node: NodeView)
    ensures
        put_node(cache, node) is Ok ==> cache_extends(cache, put_node(cache, node)->Ok_0.0),
{
}

/// Whether what a rewrite gave, and the node and the cache that it left, are
/// how the rewrite ends.
pub open spec fn upsert_matches(
    r: Result<Option<Cid>, MountError>,
    node: NodeView,
    cache: Map<CidView, IpldView>,
    cache_before: Map<CidView, IpldView>,
    u: UpsertView,
) -> bool {
    &&& upsert_result_view(r) == u.result
    &&& r is Ok ==> cache == u.cache && node == u.node
    &&& cache_extends(cache_before, cache)
}

/// Writes a node into the cache, and hands its identifier up.
fn store_node_exec(node: &Node, cache: &mut BlockCache) -> (r: Result<Option<Cid>, MountError>)
    ensures
        upsert_matches(r, node@, final(cache)@, old(cache)@, store_node(node@, old(cache)@)),
        r is Ok ==> r->Ok_0 is Some && structured_cid(r->Ok_0->0@),
{
    proof {
        lemma_put_node_extends(cache@, node@);
    }
    match put_cache(node, cache) {
        Ok(cid) => Ok(Some(cid)),
        Err(e) => Err(e),
    }
}

/// Takes the link `name` out of a node: the node is gone where that was its
/// last link, else written anew.
fn drop_link_exec(node: &mut Node, name: &str, cache: &mut BlockCache) -> (r: Result<Option<Cid>, MountError>)
    ensures
        upsert_matches(r, final(node)@, final(cache)@, old(cache)@, drop_link(old(node)@, name@, old(cache)@)),
{
    node.del(name);
    if node.size() == 0 {
        Ok(Some(Cid::default()))
    } else {
        store_node_exec(node, cache)
    }
}

/// Writes a node with the schema `to_set` into the cache, and binds `name`
/// in `node` to it.
fn bind_with_schema(node: &mut Node, name: &str, mut child: Node, to_set: Schema, cache: &mut BlockCache) -> (r: Result<(), MountError>)
    ensures
        cache_extends(old(cache)@, final(cache)@),
        match put_node(old(cache)@, NodeView { schema: Some(to_set@), ..child@ }) {
            Err(e) => r is Err && r->Err_0@ == e,
            Ok((cache2, cid)) => match put_link_spec(old(node)@, name@, cid) {
                Ok(n) => r is Ok && final(node)@ == n && final(cache)@ == cache2,
                Err(e) => r is Err && r->Err_0@ == MountErrorView::Node(e),
            },
        },
{
    child.set_schema(to_set);
    proof {
        lemma_put_node_extends(cache@, child@);
    }
    let cid = match put_cache(&child, cache) {
        Ok(cid) => cid,
        Err(e) => {
            return Err(e);
        },
    };
    match node.put_link(name, cid) {
        Ok(_) => Ok(()),
        Err(e) => Err(MountError::Node(e)),
    }
}

/// Puts the link or the schema of a rewrite at the name at `at`, the last of
/// the path.
fn place_terminal_exec(
    node: &mut Node,
    path: &Vec<String>,
    at: usize,
    link: Option<&Cid>,
    object: Option<&Object>,
    schema: &Option<(Schema, bool)>,
    cache: &mut BlockCache,
) -> (r: Result<(), MountError>)
    requires
        at < path@.len(),
    ensures
        cache_extends(old(cache)@, final(cache)@),
        match place_terminal(
            old(node)@,
            names_view(path@).take(at as int + 1),
            path@[at as int]@,
            match link {
                Some(c) => Some(c@),
                None => None,
            },
            object_option_view(object),
            schema_option_view(*schema),
            old(cache)@,
        ) {
            Ok((placed, cache2)) => r is Ok && final(node)@ == placed && final(cache)@ == cache2,
            Err(e) => r is Err && r->Err_0@ == e,
        },
{
    let name: &String = &path[at];
    match link {
        Some(c) => {
            return match node.put_link(name.as_str(), c.clone()) {
                Ok(_) => Ok(()),
                Err(e) => Err(MountError::Node(e)),
            };
        },
        None => {},
    }
    let to_set: Option<Schema> = match schema {
        Some((s, true)) => Some(s.clone()),
        _ => None,
    };
    let found: Option<NodeLink> = match node.get_link(name.as_str()) {
        Some(l) => Some(l.clone()),
        None => None,
    };
    match to_set {
        Some(to_set) => match found {
            Some(NodeLink::Node(child_cid)) => {
                let child = match get_cache(&child_cid, cache) {
                    Ok(n) => n,
                    Err(e) => {
                        return Err(e);
                    },
                };
                bind_with_schema(node, name.as_str(), child, to_set, cache)
            },
            Some(NodeLink::Data(_, _)) => {
                if object.is_none() {
                    Err(MountError::SchemaOnData(path_through(path, at)))
                } else {
                    Ok(())
                }
            },
            None => bind_with_schema(node, name.as_str(), Node::default(), to_set, cache),
        },
        None => match found {
            Some(NodeLink::Data(_, _)) => Ok(()),
            _ => Err(MountError::PathNotFound(path_through(path, at))),
        },
    }
}

/// Attaches the object of a rewrite, if it brings one, at the name at `at`,
/// the last of the path.
fn attach_terminal_exec(
    node: &mut Node,
    path: &Vec<String>,
    at: usize,
    object: Option<&Object>,
    held_to: Option<&Schema>,
) -> (r: Result<(), MountError>)
    requires
        at < path@.len(),
    ensures
        match attach_terminal(
            old(node)@,
            names_view(path@).take(at as int + 1),
            path@[at as int]@,
            object_option_view(object),
            match held_to {
                Some(s) => Some(s@),
                None => None,
            },
        ) {
            Ok(attached) => r is Ok && final(node)@ == attached,
            Err(e) => r is Err && r->Err_0@ == e,
        },
{
    match object {
        None => Ok(()),
        Some(o) => match node.put_object(path[at].as_str(), o, held_to) {
            Ok(_) => Ok(()),
            Err(NodeError::Schema(e)) => Err(MountError::SchemaValidation(e)),
            Err(NodeError::LinkNotFound(_)) => Err(MountError::PathNotFound(path_through(path, at))),
            Err(e) => Err(MountError::Node(e)),
        },
    }
}

/// The schema that holds in a node: its own, else the one handed down.
fn schema_here_exec(node: &Node, schema: &Option<(Schema, bool)>) -> (r: Option<Schema>)
    ensures
        (match r {
            Some(s) => Some(s@),
            None => None,
        }) == schema_here(node@, schema_option_view(*schema)),
{
    match node.schema() {
        Some(s) => Some(s.clone()),
        None => match schema {
            Some((s, _)) => Some(s.clone()),
            None => None,
        },
    }
}

/// The rewrite at the name at `at`, the last of the path.
fn upsert_terminal_exec(
    node: &mut Node,
    path: &Vec<String>,
    at: usize,
    link: Option<&Cid>,
    object: Option<&Object>,
    schema: &Option<(Schema, bool)>,
    cache: &mut BlockCache,
) -> (r: Result<Option<Cid>, MountError>)
    requires
        at < path@.len(),
    ensures
        upsert_matches(
            r,
            final(node)@,
            final(cache)@,
            old(cache)@,
            upsert_terminal(
                old(node)@,
                names_view(path@).take(at as int),
                path@[at as int]@,
                match link {
                    Some(c) => Some(c@),
                    None => None,
                },
                object_option_view(object),
                schema_option_view(*schema),
                old(cache)@,
            ),
        ),
{
    let ghost names = names_view(path@);
    proof {
        assert(names.take(at as int).push(names[at as int]) =~= names.take(at as int + 1));
    }
    let name: &String = &path[at];
    let install = match schema {
        Some((_, persist)) => *persist,
        None => false,
    };
    if link.is_none() && object.is_none() && !install {
        if node.get_link(name.as_str()).is_none() {
            return Ok(None);
        }
        return drop_link_exec(node, name.as_str(), cache);
    }
    let held_to = schema_here_exec(node, schema);
    match place_terminal_exec(node, path, at, link, object, schema, cache) {
        Ok(_) => {},
        Err(e) => {
            return Err(e);
        },
    }
    let ghost cache1 = cache@;
    match attach_terminal_exec(node, path, at, object, held_to.as_ref()) {
        Ok(_) => {},
        Err(e) => {
            return Err(e);
        },
    }
    store_node_exec(node, cache)
}

/// The node under the name at `at` of a path that goes on, where the rewrite
/// goes down into one.
fn step_down_exec(
    node: &Node,
    path: &Vec<String>,
    at: usize,
    makes_way: bool,
    cache: &mut BlockCache,
) -> (r: Result<Option<Node>, MountError>)
    requires
        at < path@.len(),
    ensures
        cache_extends(old(cache)@, final(cache)@),
        forall|link: Option<CidView>, schema: Option<(SchemaView, bool)>| makes_way == (link is Some || is_install(schema)) ==> match #[trigger] step_down(
            node@,
            names_view(path@).take(at as int + 1),
            path@[at as int]@,
            link,
            schema,
            old(cache)@,
        ) {
            Ok(Some((child, cache2))) => r is Ok && r->Ok_0 is Some && r->Ok_0->0@ == child && final(cache)@ == cache2,
            Ok(None) => r is Ok && r->Ok_0 is None && final(cache)@ == old(cache)@,
            Err(e) => r is Err && r->Err_0@ == e,
        },
        r is Err ==> final(cache)@ == old(cache)@,
        r is Ok && r->Ok_0 is Some && final(cache)@ != old(cache)@ ==> r->Ok_0->0@ == empty_node(),
{
    match node.get_link(path[at].as_str()) {
        Some(NodeLink::Data(_, _)) => Err(MountError::DataOnPath(path_through(path, at))),
        Some(NodeLink::Node(child_cid)) => match get_cache(child_cid, cache) {
            Ok(n) => Ok(Some(n)),
            Err(e) => Err(e),
        },
        None => {
            if makes_way {
                let fresh = Node::default();
                proof {
                    lemma_put_node_extends(cache@, fresh@);
                }
                match put_cache(&fresh, cache) {
                    Ok(_) => Ok(Some(fresh)),
                    Err(e) => Err(e),
                }
            } else {
                Ok(None)
            }
        },
    }
}

/// What a node does with what comes up from below.
fn come_up_exec(node: &mut Node, name: &str, came: Option<Cid>, cache: &mut BlockCache) -> (r: Result<Option<Cid>, MountError>)
    ensures
        forall|below_node: NodeView| upsert_matches(
            r,
            final(node)@,
            final(cache)@,
            old(cache)@,
            #[trigger] come_up(
                old(node)@,
                name@,
                UpsertView { result: Ok(cid_option_view(came)), node: below_node, cache: old(cache)@ },
            ),
        ),
{
    match came {
        None => Ok(None),
        Some(cid) => {
            if cid.is_default() {
                drop_link_exec(node, name, cache)
            } else {
                match node.put_link(name, cid) {
                    Ok(_) => {},
                    Err(e) => {
                        return Err(MountError::Node(e));
                    },
                }
                store_node_exec(node, cache)
            }
        },
    }
}

/// The schema that a node hands down.
fn schema_below_exec(node: &Node, schema: Option<(Schema, bool)>) -> (r: Option<(Schema, bool)>)
    ensures
        schema_option_view(r) == schema_below(node@, schema_option_view(schema)),
{
    let install = match &schema {
        Some((_, persist)) => *persist,
        None => false,
    };
    if install {
        schema
    } else {
        match node.schema() {
            Some(s) => Some((s.clone(), false)),
            None => match schema {
                Some((s, _)) => Some((s, false)),
                None => None,
            },
        }
    }
}

/// The rewrite, which may leave the node as far as it came where it fails.
fn upsert_inner(
    node: &mut Node,
    path: &Vec<String>,
    at: usize,
    link: Option<&Cid>,
    object: Option<&Object>,
    schema: Option<(Schema, bool)>,
    cache: &mut BlockCache,
) -> (r: Result<Option<Cid>, MountError>)
    requires
        at < path@.len(),
    ensures
        upsert_matches(
            r,
            final(node)@,
            final(cache)@,
            old(cache)@,
            upsert_spec(
                old(node)@,
                names_view(path@).take(at as int),
                names_view(path@).skip(at as int),
                match link {
                    Some(c) => Some(c@),
                    None => None,
                },
                object_option_view(object),
                schema_option_view(schema),
                old(cache)@,
            ),
        ),
        r is Err && r->Err_0 is DataOnPath ==> final(cache)@ == old(cache)@ && old(node)@ != empty_node(),
    decreases path@.len() - at, 0nat,
{
    let ghost names = names_view(path@);
    let ghost rest = names.skip(at as int);
    let ghost link_view: Option<CidView> = match link {
        Some(c) => Some(c@),
        None => None,
    };
    let ghost schema_view = schema_option_view(schema);
    let ghost cache0 = cache@;
    proof {
        assert(rest.len() == names.len() - at);
        assert(rest[0] == names[at as int]);
        assert(names.take(at as int).push(names[at as int]) =~= names.take(at as int + 1));
        assert(rest.skip(1) =~= names.skip(at as int + 1));
    }
    if at == path.len() - 1 {
        return upsert_terminal_exec(node, path, at, link, object, &schema, cache);
    }
    let install = match &schema {
        Some((_, persist)) => *persist,
        None => false,
    };
    let mut child = match step_down_exec(node, path, at, link.is_some() || install, cache) {
        Ok(Some(child)) => child,
        Ok(None) => {
            return Ok(None);
        },
        Err(e) => {
            return Err(e);
        },
    };
    proof {
        assert(step_down(node@, names.take(at as int + 1), path@[at as int]@, link_view, schema_view, cache0) is Ok);
    }
    let ghost cache1 = cache@;
    let ghost child0 = child@;
    let below = schema_below_exec(node, schema);
    let came = match upsert_node(&mut child, path, at + 1, link, object, below, cache) {
        Ok(came) => came,
        Err(e) => {
            return Err(e);
        },
    };
    let ghost cache2 = cache@;
    let ghost u = upsert_spec(
        child0,
        names.take(at as int + 1),
        names.skip(at as int + 1),
        link_view,
        object_option_view(object),
        schema_below(node@, schema_view),
        cache1,
    );
    proof {
        assert(u == UpsertView { result: Ok(cid_option_view(came)), node: u.node, cache: cache2 });
    }
    let r = come_up_exec(node, path[at].as_str(), came, cache);
    proof {
        assert(come_up(
            old(node)@,
            path@[at as int]@,
            UpsertView { result: Ok(cid_option_view(came)), node: u.node, cache: cache2 },
        ) == come_up(old(node)@, path@[at as int]@, u));
    }
    r
}

/// Rewrites the graph below `node` along the names of `path` from `at` on:
/// puts `link` at the path, or attaches `object` there, or sets the schema
/// there; with none of the three, takes the link at the path away. Every
/// node that changes is written into the cache anew; a node that loses its
/// last link is not written, and its parent loses the link to it.
pub fn upsert_node(
    node: &mut Node,
    path: &Vec<String>,
    at: usize,
    link: Option<&Cid>,
    object: Option<&Object>,
    schema: Option<(Schema, bool)>,
    cache: &mut BlockCache,
) -> (r: Result<Option<Cid>, MountError>)
    requires
        at < path@.len(),
    ensures
        upsert_matches(
            r,
            final(node)@,
            final(cache)@,
            old(cache)@,
            upsert_spec(
                old(node)@,
                names_view(path@).take(at as int),
                names_view(path@).skip(at as int),
                match link {
                    Some(c) => Some(c@),
                    None => None,
                },
                object_option_view(object),
                schema_option_view(schema),
                old(cache)@,
            ),
        ),
        r is Err ==> final(node)@ == old(node)@,
        r is Err && r->Err_0 is DataOnPath ==> final(cache)@ == old(cache)@ && old(node)@ != empty_node(),
    decreases path@.len() - at, 1nat,
{
    let kept = node.clone();
    let r = upsert_inner(node, path, at, link, object, schema, cache);
    if r.is_err() {
        *node = kept;
    }
    r
}

} // verus!
