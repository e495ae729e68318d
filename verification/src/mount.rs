//! The mount: a manifest, its identifier, and the cache of the nodes below
//! its root. Every change of the mount is a rewrite of the node graph along a
//! path, after which the manifest names the new root node.

use vstd::prelude::*;
use crate::cache::BlockCache;
use crate::cid::{default_cid, Cid, CidView};

use crate::ipld::IpldView;
use crate::manifest::{manifest_cid, Manifest, ManifestView, Version, VersionView};
use crate::node::{empty_node, Node, NodeLinkView, NodeView};
use crate::object::{touched, Object, ObjectView};
use crate::timestamp::{timestamp_accepted, Timestamp};
use crate::path::{clean_path, is_absolute, names_view, path_names};
use crate::schema::{Schema, SchemaView};
use crate::codec::{block_value, decode_block, encode_block, ipld_cid, value_block, BlockView};
use crate::ipld::Ipld;
use crate::node::{links_view, NodeLink};
use crate::sorted_map::{in_prefix, lemma_in_prefix_all, lemma_in_prefix_step, sorted_keys};
use crate::store::{asked_one, asked_since, went_on, BlockStore, Recorded, StoreCall, StoreError};
use crate::text::name_lt;
use crate::upsert::{cid_option_view, cache_extends, cached_node, get_cache, lemma_put_node_extends, put_cache, put_node, upsert_node, upsert_spec, MountError, MountErrorView, UpsertView};

verus! {

/// What a mount is: its identifier, its manifest, its cache, and the
/// identifier that the manifest of its next push names as the one before
/// it. That is the identifier that its last push left, or from which it was
/// read; a mount at its beginning has none.
pub struct MountView {
    pub cid: CidView,
    pub manifest: ManifestView,
    pub cache: Map<CidView, IpldView>,
    pub base: CidView,
}

/// The root node of a mount.
pub open spec fn root_node(m: MountView) -> Result<NodeView, MountErrorView> {
    cached_node(m.cache, m.manifest.data)
}

/// The mount after its manifest is made to name the root node `data`.
pub open spec fn with_data(m: MountView, data: CidView, cache: Map<CidView, IpldView>) -> Result<MountView, MountErrorView> {
    let manifest = ManifestView { data, ..m.manifest };
    match manifest_cid(manifest) {
        Some(cid) => Ok(MountView { cid, manifest, cache, base: m.base }),
        None => Err(MountErrorView::BlockEncoding),
    }
}

/// The mount after a rewrite from its root has ended: unchanged where
/// nothing changed; with a new, empty root node where the root is gone; else
/// with the root that the rewrite handed up.
pub open spec fn settle(m: MountView, u: UpsertView) -> Result<MountView, MountErrorView> {
    match u.result {
        Err(e) => Err(e),
        Ok(None) => Ok(MountView { cache: u.cache, ..m }),
        Ok(Some(cid)) => if cid == default_cid() {
            match put_node(u.cache, empty_node()) {
                Err(e) => Err(e),
                Ok((cache2, fresh)) => with_data(m, fresh, cache2),
            }
        } else {
            with_data(m, cid, u.cache)
        },
    }
}

/// The rewrite of a mount along a path from its root.
pub open spec fn rewrite_from_root(
    m: MountView,
    path: Seq<Seq<char>>,
    link: Option<CidView>,
    object: Option<ObjectView>,
    schema: Option<(SchemaView, bool)>,
) -> UpsertView {
    upsert_spec(root_node(m)->Ok_0, Seq::empty(), path, link, object, schema, m.cache)
}

/// The mount after the payload block `cid` is put at `path`.
pub open spec fn add_link_spec(m: MountView, path: Seq<Seq<char>>, cid: CidView) -> Result<MountView, MountErrorView> {
    match root_node(m) {
        Err(e) => Err(e),
        Ok(_) => settle(m, rewrite_from_root(m, path, Some(cid), None, None)),
    }
}

/// The mount after the link at `path` is taken away.
pub open spec fn rm_spec(m: MountView, path: Seq<Seq<char>>) -> Result<MountView, MountErrorView> {
    match root_node(m) {
        Err(e) => Err(e),
        Ok(_) => settle(m, rewrite_from_root(m, path, None, None, None)),
    }
}

/// The mount after `object` is attached to the file at `path` at the time
/// `now`, which becomes the time of the object's last change. There must be
/// a file at the path.
pub open spec fn tag_spec(m: MountView, path: Seq<Seq<char>>, object: ObjectView, now: i128) -> Result<MountView, MountErrorView> {
    match root_node(m) {
        Err(e) => Err(e),
        Ok(_) => {
            let u = rewrite_from_root(m, path, None, Some(touched(object, now)), None);
            if u.result == Ok::<Option<CidView>, MountErrorView>(None) {
                Err(MountErrorView::PathNotFound(path))
            } else {
                settle(m, u)
            }
        },
    }
}

/// The mount after `schema` is set on the directory at `path`, which is made
/// where there is none.
pub open spec fn set_schema_spec(m: MountView, path: Seq<Seq<char>>, schema: SchemaView) -> Result<MountView, MountErrorView> {
    match root_node(m) {
        Err(e) => Err(e),
        Ok(_) => settle(m, rewrite_from_root(m, path, None, None, Some((schema, true)))),
    }
}

/// The mount of a build at its beginning: an empty root node in the cache,
/// and the manifest that names it and no manifest before it.
pub open spec fn new_mount(version: VersionView) -> Result<MountView, MountErrorView> {
    match put_node(Map::empty(), empty_node()) {
        Err(e) => Err(e),
        Ok((cache, data)) => {
            let manifest = ManifestView { version, previous: default_cid(), data };
            match manifest_cid(manifest) {
                Some(cid) => Ok(MountView { cid, manifest, cache, base: default_cid() }),
                None => Err(MountErrorView::BlockEncoding),
            }
        },
    }
}

/// The manifest that a push writes: the mount's, naming as the manifest
/// before it the identifier that the mount's last push left, or from which
/// the mount was read.
pub open spec fn pushed_manifest(m: MountView) -> ManifestView {
    ManifestView { previous: m.base, ..m.manifest }
}

/// The mount after its manifest is written: the manifest names the
/// identifier that the push before left, the mount's identifier is the
/// manifest's, and the next push will name it.
pub open spec fn push_spec(m: MountView) -> Result<MountView, MountErrorView> {
    match manifest_cid(pushed_manifest(m)) {
        Some(cid) => Ok(MountView { cid, manifest: pushed_manifest(m), cache: m.cache, base: cid }),
        None => Err(MountErrorView::BlockEncoding),
    }
}

/// The mount after its manifest is made to name `previous` as the manifest
/// before it, as the manifest of its next push will.
pub open spec fn set_previous_spec(m: MountView, previous: CidView) -> MountView {
    MountView { manifest: ManifestView { previous, ..m.manifest }, base: previous, ..m }
}

/// The schema that holds for a file at `path` below `node`: that of the
/// file's directory, or else of the nearest directory above it that has one,
/// or else `inherited`.
pub open spec fn schema_in_force_from(
    cache: Map<CidView, IpldView>,
    node: NodeView,
    inherited: Option<SchemaView>,
    path: Seq<Seq<char>>,
) -> Option<SchemaView>
    decreases path.len(),
{
    let here = match node.schema {
        Some(s) => Some(s),
        None => inherited,
    };
    if path.len() <= 1 {
        here
    } else if node.links.contains_key(path[0]) && node.links[path[0]] is Node && cached_node(
        cache,
        node.links[path[0]]->Node_0,
    ) is Ok {
        schema_in_force_from(cache, cached_node(cache, node.links[path[0]]->Node_0)->Ok_0, here, path.skip(1))
    } else {
        here
    }
}

/// The schema that holds for a file at `path` of a mount.
pub open spec fn schema_in_force_at(m: MountView, path: Seq<Seq<char>>) -> Option<SchemaView> {
    schema_in_force_from(m.cache, root_node(m)->Ok_0, None, path)
}

/// The link that a path leads to from a node, where it leads to one.
pub open spec fn resolve_from(
    cache: Map<CidView, IpldView>,
    node: NodeView,
    consumed: Seq<Seq<char>>,
    path: Seq<Seq<char>>,
) -> Result<NodeLinkView, MountErrorView>
    decreases path.len(),
{
    if path.len() == 0 {
        Err(MountErrorView::PathNotFound(consumed))
    } else {
        let here = consumed.push(path[0]);
        if !node.links.contains_key(path[0]) {
            Err(MountErrorView::PathNotFound(here))
        } else if path.len() == 1 {
            Ok(node.links[path[0]])
        } else {
            match node.links[path[0]] {
                NodeLinkView::Data(_, _) => Err(MountErrorView::DataOnPath(here)),
                NodeLinkView::Node(cid) => match cached_node(cache, cid) {
                    Err(e) => Err(e),
                    Ok(child) => resolve_from(cache, child, here, path.skip(1)),
                },
            }
        }
    }
}

/// The link that a path leads to in a mount: the root node itself for the
/// path without names.
pub open spec fn resolve(m: MountView, path: Seq<Seq<char>>) -> Result<NodeLinkView, MountErrorView> {
    if path.len() == 0 {
        Ok(NodeLinkView::Node(m.manifest.data))
    } else {
        match root_node(m) {
            Err(e) => Err(e),
            Ok(root) => resolve_from(m.cache, root, Seq::empty(), path),
        }
    }
}

/// Whether a mount, after an operation that gave `r`, is as `expected` says:
/// the mount that `expected` holds where the operation is to succeed; else
/// the mount with the manifest and the identifier that it had, naming to
/// its next push what it named, and a cache that has kept what it held.
pub open spec fn mount_follows(before: MountView, after: MountView, r: Result<(), MountError>, expected: Result<MountView, MountErrorView>) -> bool {
    match expected {
        Ok(m) => r is Ok && after == m,
        Err(e) => {
            &&& r is Err
            &&& r->Err_0@ == e
            &&& after.cid == before.cid
            &&& after.base == before.base
            &&& after.manifest == before.manifest
            &&& cache_extends(before.cache, after.cache)
        },
    }
}

/// A mount.
#[derive(Debug, PartialEq, Eq)]
pub struct Mount {
    base: Cid,
    cid: Cid,
    manifest: Manifest,
    block_cache: BlockCache,
}

impl View for Mount {
    type V = MountView;

    closed spec fn view(&self) -> MountView {
        MountView { cid: self.cid@, manifest: self.manifest@, cache: self.block_cache@, base: self.base@ }
    }
}

impl Mount {
    /// The identifier of the mount's manifest.
    pub fn cid(&self) -> (r: &Cid)
        ensures
            r@ == self@.cid,
    {
        &self.cid
    }

    /// The mount's manifest.
    pub fn manifest(&self) -> (r: Manifest)
        ensures
            r@ == self@.manifest,
    {
        self.manifest.clone()
    }

    /// The identifier of the manifest before the mount's.
    pub fn previous_cid(&self) -> (r: Cid)
        ensures
            r@ == self@.manifest.previous,
    {
        self.manifest.previous().clone()
    }

    /// The identifier that the manifest of the next push names as the one
    /// before it.
    pub fn base(&self) -> (r: &Cid)
        ensures
            r@ == self@.base,
    {
        &self.base
    }

    /// The blocks of the mount's cache, in the order in which they came
    /// into it.
    pub closed spec fn cache_entries(&self) -> Seq<(CidView, IpldView)> {
        self.block_cache.seq()
    }

    /// The mount's cache. Each of its blocks stands under its own identifier.
    pub fn block_cache(&self) -> (r: &BlockCache)
        ensures
            r@ == self@.cache,
            r.seq() == self.cache_entries(),
    {
        &self.block_cache
    }

    /// Lets the manifest name `previous` as the manifest before it, as the
    /// manifest of the next push will.
    pub fn set_previous(&mut self, previous: Cid)
        ensures
            final(self)@ == set_previous_spec(old(self)@, previous@),
    {
        self.manifest.set_previous(previous.clone());
        self.base = previous;
    }

    /// The mount of a build at its beginning.
    pub fn new(version: Version) -> (r: Result<Mount, MountError>)
        ensures
            match new_mount(version@) {
                Ok(m) => r is Ok && r->Ok_0@ == m,
                Err(e) => r is Err && r->Err_0@ == e,
            },
    {
        let mut block_cache = BlockCache::new();
        let node = Node::default();
        let data = match put_cache(&node, &mut block_cache) {
            Ok(cid) => cid,
            Err(e) => {
                return Err(e);
            },
        };
        let mut manifest = Manifest::new(version);
        manifest.set_data(data);
        let cid = match manifest.cid() {
            Some(cid) => cid,
            None => {
                return Err(MountError::BlockEncoding);
            },
        };
        Ok(Mount { cid, manifest, block_cache, base: Cid::default() })
    }

    /// The mount of a manifest that was read, its identifier, and a cache.
    /// The manifest of its next push names the identifier.
    pub fn load(cid: Cid, manifest: Manifest, block_cache: BlockCache) -> (r: Mount)
        ensures
            r@ == (MountView { cid: cid@, manifest: manifest@, cache: block_cache@, base: cid@ }),
    {
        let base = cid.clone();
        Mount { cid, manifest, block_cache, base }
    }

    /// Lets the manifest name the root node that a rewrite handed up.
    fn settle_exec(&mut self, came: Option<Cid>) -> (r: Result<(), MountError>)
        ensures
            forall|node: NodeView| mount_follows(
                old(self)@,
                final(self)@,
                r,
                #[trigger] settle(
                    old(self)@,
                    UpsertView {
                        result: Ok(cid_option_view(came)),
                        node,
                        cache: old(self)@.cache,
                    },
                ),
            ),
    {
        let data = match came {
            None => {
                return Ok(());
            },
            Some(cid) => {
                if cid.is_default() {
                    let fresh = Node::default();
                    proof {
                        lemma_put_node_extends(self.block_cache@, fresh@);
                    }
                    match put_cache(&fresh, &mut self.block_cache) {
                        Ok(cid) => cid,
                        Err(e) => {
                            return Err(e);
                        },
                    }
                } else {
                    cid
                }
            },
        };
        let mut manifest = self.manifest.clone();
        manifest.set_data(data);
        match manifest.cid() {
            Some(cid) => {
                self.manifest = manifest;
                self.cid = cid;
                Ok(())
            },
            None => Err(MountError::BlockEncoding),
        }
    }

    /// Rewrites the mount along a path from its root, and lets the manifest
    /// name the new root node. Where `must_change` is set and nothing
    /// changes, the path is reported as not found.
    fn rewrite(
        &mut self,
        names: &Vec<String>,
        link: Option<&Cid>,
        object: Option<&Object>,
        schema: Option<(Schema, bool)>,
        must_change: bool,
    ) -> (r: Result<(), MountError>)
        requires
            names@.len() > 0,
        ensures
            mount_follows(
                old(self)@,
                final(self)@,
                r,
                match root_node(old(self)@) {
                    Err(e) => Err(e),
                    Ok(_) => {
                        let u = rewrite_from_root(
                            old(self)@,
                            names_view(names@),
                            match link {
                                Some(c) => Some(c@),
                                None => None,
                            },
                            match object {
                                Some(o) => Some(o@),
                                None => None,
                            },
                            match schema {
                                Some((s, persist)) => Some((s@, persist)),
                                None => None,
                            },
                        );
                        if must_change && u.result == Ok::<Option<CidView>, MountErrorView>(None) {
                            Err(MountErrorView::PathNotFound(names_view(names@)))
                        } else {
                            settle(old(self)@, u)
                        }
                    },
                },
            ),
    {
        let ghost path = names_view(names@);
        let ghost u = rewrite_from_root(
            old(self)@,
            path,
            match link {
                Some(c) => Some(c@),
                None => None,
            },
            match object {
                Some(o) => Some(o@),
                None => None,
            },
            crate::upsert::schema_option_view(schema),
        );
        proof {
            assert(path.take(0) =~= Seq::<Seq<char>>::empty());
            assert(path.skip(0) =~= path);
        }
        let mut root = match get_cache(self.manifest.data(), &self.block_cache) {
            Ok(node) => node,
            Err(e) => {
                return Err(e);
            },
        };
        let came = match upsert_node(&mut root, names, 0, link, object, schema, &mut self.block_cache) {
            Ok(came) => came,
            Err(e) => {
                return Err(e);
            },
        };
        if must_change && came.is_none() {
            return Err(MountError::PathNotFound(names.clone()));
        }
        let ghost middle = self@;
        let r = self.settle_exec(came);
        proof {
            assert(settle(middle, u) == settle(
                middle,
                UpsertView { result: Ok(cid_option_view(came)), node: u.node, cache: middle.cache },
            ));
        }
        r
    }

    /// Puts the payload block `cid` at `path`.
    pub fn add_link(&mut self, path: &str, cid: &Cid) -> (r: Result<(), MountError>)
        requires
            is_absolute(path@),
            path_names(path@).len() > 0,
        ensures
            mount_follows(old(self)@, final(self)@, r, add_link_spec(old(self)@, path_names(path@), cid@)),
    {
        let names = clean_path(path);
        self.rewrite(&names, Some(cid), None, None, false)
    }

    /// Takes the link at `path` away. A directory that loses its last link
    /// goes with it, up to the root, in whose place an empty root node comes.
    pub fn rm(&mut self, path: &str) -> (r: Result<(), MountError>)
        requires
            is_absolute(path@),
            path_names(path@).len() > 0,
        ensures
            mount_follows(old(self)@, final(self)@, r, rm_spec(old(self)@, path_names(path@))),
    {
        let names = clean_path(path);
        self.rewrite(&names, None, None, None, false)
    }

    /// Attaches `object` to the file at `path`, at the time `now`. The object
    /// keeps the time of creation of the object that was attached before,
    /// bears `now` as the time of its last change, and is held to the schema
    /// of the file's directory, or else of the nearest directory above it
    /// that has one.
    pub fn tag_at(&mut self, path: &str, object: &Object, now: Timestamp) -> (r: Result<(), MountError>)
        requires
            is_absolute(path@),
            path_names(path@).len() > 0,
        ensures
            mount_follows(old(self)@, final(self)@, r, tag_spec(old(self)@, path_names(path@), object@, now@)),
    {
        let names = clean_path(path);
        let changed = object.touched(now);
        self.rewrite(&names, None, Some(&changed), None, true)
    }

    /// Attaches `object` to the file at `path`, at the time that the clock
    /// shows: what `tag_at` does with a reading of the clock.
    pub fn tag(&mut self, path: &str, object: &Object) -> (r: Result<(), MountError>)
        requires
            is_absolute(path@),
            path_names(path@).len() > 0,
        ensures
            exists|now: i128| timestamp_accepted(now) && #[trigger] mount_follows(
                old(self)@,
                final(self)@,
                r,
                tag_spec(old(self)@, path_names(path@), object@, now),
            ),
    {
        let now = Timestamp::now();
        let ghost before = self@;
        let r = self.tag_at(path, object, now);
        proof {
            assert(timestamp_accepted(now@) && mount_follows(before, self@, r, tag_spec(before, path_names(path@), object@, now@)));
        }
        r
    }

    /// Sets `schema` on the directory at `path`, and makes the directory, and
    /// those on the way to it, where there is none.
    pub fn set_schema(&mut self, path: &str, schema: Schema) -> (r: Result<(), MountError>)
        requires
            is_absolute(path@),
            path_names(path@).len() > 0,
        ensures
            mount_follows(old(self)@, final(self)@, r, set_schema_spec(old(self)@, path_names(path@), schema@)),
    {
        let names = clean_path(path);
        self.rewrite(&names, None, None, Some((schema, true)), false)
    }
}

/// Whether a list holds the links of a node in the order of their names,
/// each under the path of its one name.
pub open spec fn lists_links(listing: Seq<(Seq<Seq<char>>, NodeLinkView)>, links: Map<Seq<char>, NodeLinkView>) -> bool {
    &&& forall|i: int| 0 <= i < listing.len() ==> (#[trigger] listing[i]).0.len() == 1 && links.contains_key(listing[i].0[0]) && links[listing[i].0[0]] == listing[i].1
    &&& forall|i: int, j: int| 0 <= i < j < listing.len() ==> name_lt((#[trigger] listing[i]).0[0], (#[trigger] listing[j]).0[0])
    &&& forall|name: Seq<char>| #[trigger] links.contains_key(name) ==> exists|i: int| 0 <= i < listing.len() && (#[trigger] listing[i]).0 == seq![name]
}

/// The view of a listing.
pub open spec fn listing_view(listing: Seq<(Vec<String>, NodeLink)>) -> Seq<(Seq<Seq<char>>, NodeLinkView)> {
    Seq::new(listing.len(), |i: int| (names_view(listing[i].0@), listing[i].1@))
}

/// What becomes of a store's answer to a block that was handed to it: the
/// identifier that the store found, where it is the block's own.
pub open spec fn written_answer(expected: CidView, answer: Result<CidView, StoreError>) -> Result<CidView, MountErrorView> {
    match answer {
        Err(e) => Err(MountErrorView::Store(e)),
        Ok(found) => if found == expected {
            Ok(found)
        } else {
            Err(MountErrorView::IdentifierMismatch(expected, found))
        },
    }
}

/// Holds the identifier that a store found for a block to the block's own.
pub fn check_written(expected: Cid, answer: Result<Cid, StoreError>) -> (r: Result<Cid, MountError>)
    ensures
        match written_answer(
            expected@,
            match answer {
                Ok(found) => Ok(found@),
                Err(e) => Err(e),
            },
        ) {
            Ok(cid) => r is Ok && r->Ok_0@ == cid,
            Err(e) => r is Err && r->Err_0@ == e,
        },
{
    match answer {
        Err(e) => Err(MountError::Store(e)),
        Ok(found) => {
            if found.same(&expected) {
                Ok(found)
            } else {
                Err(MountError::IdentifierMismatch(expected, found))
            }
        },
    }
}

/// What becomes of a store's answer that holds the identifier of a payload:
/// it is handed on.
pub open spec fn payload_answer(answer: Result<CidView, StoreError>) -> Result<CidView, MountErrorView> {
    match answer {
        Ok(cid) => Ok(cid),
        Err(e) => Err(MountErrorView::Store(e)),
    }
}

/// Whether a question to a store asks for the identifier of the payload
/// `data`: without leaving the payload there where `hash_only` is set, else
/// leaving it there.
pub open spec fn payload_call(call: StoreCall, data: Seq<u8>, hash_only: bool) -> bool {
    if hash_only {
        call is Hash && call->Hash_0 == data
    } else {
        call is Add && call->Add_0 == data
    }
}

/// What a store answered to a question for the identifier of a payload.
pub open spec fn payload_call_answer(call: StoreCall) -> Result<CidView, StoreError> {
    match call {
        StoreCall::Hash(_, answer) => answer,
        StoreCall::Add(_, answer) => answer,
        _ => Err(StoreError::Transport),
    }
}

/// The view of a result that holds an identifier.
pub open spec fn cid_result_view(r: Result<Cid, MountError>) -> Result<CidView, MountErrorView> {
    match r {
        Ok(cid) => Ok(cid@),
        Err(e) => Err(e@),
    }
}

/// The view of a result that holds a value.
pub open spec fn value_result_view(r: Result<Ipld, MountError>) -> Result<IpldView, MountErrorView> {
    match r {
        Ok(value) => Ok(value@),
        Err(e) => Err(e@),
    }
}

/// Whether a question to a store hands it the block of a value.
pub open spec fn puts_block_of(value: IpldView, call: StoreCall) -> bool {
    call is PutBlock && value_block(value) == Some(BlockView { cid: call->PutBlock_0, data: call->PutBlock_1 })
}

/// What becomes of the answer to a question that handed a store a block.
pub open spec fn put_outcome(call: StoreCall) -> Result<CidView, MountErrorView> {
    written_answer(call->PutBlock_0, call->PutBlock_2)
}

/// Writes the block of a value into a store, and holds the identifier that
/// the store finds for it to the block's own. A value without a block is
/// refused, and the store is not asked; else the store is asked once, to
/// keep the block.
pub fn put_value<S: BlockStore>(store: &mut Recorded<S>, value: &Ipld) -> (r: Result<Cid, MountError>)
    ensures
        r is Ok ==> ipld_cid(value@) == Some(r->Ok_0@),
        value_block(value@) is None ==> final(store).asked() == old(store).asked() && cid_result_view(r) == Err::<CidView, MountErrorView>(
            MountErrorView::BlockEncoding,
        ),
        value_block(value@) is Some ==> {
            &&& asked_one(old(store).asked(), final(store).asked())
            &&& puts_block_of(value@, final(store).asked().last())
            &&& cid_result_view(r) == put_outcome(final(store).asked().last())
        },
{
    let block = match encode_block(value) {
        Ok(block) => block,
        Err(_) => {
            return Err(MountError::BlockEncoding);
        },
    };
    let answer = store.put_block(&block.cid, &block.data);
    proof {
        assert(final(store).asked().drop_last() =~= old(store).asked());
    }
    check_written(block.cid, answer)
}

/// What becomes of a store's answer to the question for a block: the value
/// that the bytes hold, where they are the block of the identifier.
pub open spec fn read_answer(cid: CidView, answer: Result<Seq<u8>, StoreError>) -> Result<IpldView, MountErrorView> {
    match answer {
        Err(e) => Err(MountErrorView::Store(e)),
        Ok(data) => match block_value(cid, data) {
            Some(value) => Ok(value),
            None => Err(MountErrorView::BlockDecode),
        },
    }
}

/// Reads the value from the bytes that a store gave for a block.
pub fn read_block(cid: &Cid, answer: Result<Vec<u8>, StoreError>) -> (r: Result<Ipld, MountError>)
    ensures
        match read_answer(
            cid@,
            match answer {
                Ok(data) => Ok(data@),
                Err(e) => Err(e),
            },
        ) {
            Ok(value) => r is Ok && r->Ok_0@ == value,
            Err(e) => r is Err && r->Err_0@ == e,
        },
{
    match answer {
        Err(e) => Err(MountError::Store(e)),
        Ok(data) => match decode_block(cid, &data) {
            Ok(value) => Ok(value),
            Err(_) => Err(MountError::BlockDecode),
        },
    }
}

/// Reads the value of the block `cid` from a store: the store is asked
/// once, for the bytes of the block, and its answer is read.
pub fn get_value<S: BlockStore>(store: &mut Recorded<S>, cid: &Cid) -> (r: Result<Ipld, MountError>)
    ensures
        asked_one(old(store).asked(), final(store).asked()),
        final(store).asked().last() is Get,
        final(store).asked().last()->Get_0 == cid@,
        value_result_view(r) == read_answer(cid@, final(store).asked().last()->Get_1),
{
    let answer = store.get(cid);
    proof {
        assert(final(store).asked().drop_last() =~= old(store).asked());
    }
    read_block(cid, answer)
}

/// What becomes of a store's answer to the question for the block of a
/// manifest: the manifest that the bytes hold.
pub open spec fn manifest_answer(cid: CidView, answer: Result<Seq<u8>, StoreError>) -> Result<ManifestView, MountErrorView> {
    match read_answer(cid, answer) {
        Err(e) => Err(e),
        Ok(value) => match crate::manifest::ipld_manifest(value) {
            Ok(manifest) => Ok(manifest),
            Err(_) => Err(MountErrorView::Ipld),
        },
    }
}

/// Reads the manifest of the block `cid` from a store: the store is asked
/// once, for the bytes of the block, and its answer is read.
pub fn get_manifest<S: BlockStore>(store: &mut Recorded<S>, cid: &Cid) -> (r: Result<Manifest, MountError>)
    ensures
        asked_one(old(store).asked(), final(store).asked()),
        final(store).asked().last() is Get,
        final(store).asked().last()->Get_0 == cid@,
        match manifest_answer(cid@, final(store).asked().last()->Get_1) {
            Ok(manifest) => r is Ok && r->Ok_0@ == manifest,
            Err(e) => r is Err && r->Err_0@ == e,
        },
{
    let value = match get_value(store, cid) {
        Ok(value) => value,
        Err(e) => {
            return Err(e);
        },
    };
    match Manifest::try_from_ipld(&value) {
        Ok(manifest) => Ok(manifest),
        Err(_) => Err(MountError::Ipld),
    }
}

/// The node links among the links of a node.
fn child_nodes(node: &Node) -> (r: Vec<Cid>)
    ensures
        forall|name: Seq<char>| #[trigger] node@.links.contains_key(name) && node@.links[name] is Node ==> exists|i: int| 0 <= i < r@.len() && (#[trigger] r@[i])@ == node@.links[name]->Node_0,
        forall|i: int| 0 <= i < r@.len() ==> node_dirs(node@).contains((#[trigger] r@[i])@),
{
    let links = node.get_links();
    let n = links.len();
    let mut out: Vec<Cid> = Vec::new();
    let mut i: usize = 0;
    proof {
        if n > 0 {
            lemma_in_prefix_step(links.seq(), 0);
        }
    }
    while i < n
        invariant
            i <= n,
            n == links.seq().len(),
            sorted_keys(links.seq()),
            links_view(links@) == node@.links,
            forall|name: Seq<char>| #[trigger] in_prefix(links.seq(), i as int, name) && node@.links[name] is Node ==> exists|j: int| 0 <= j < out@.len() && (#[trigger] out@[j])@ == node@.links[name]->Node_0,
            forall|j: int| 0 <= j < out@.len() ==> node_dirs(node@).contains((#[trigger] out@[j])@),
        decreases n - i,
    {
        proof {
            lemma_in_prefix_step(links.seq(), i as int);
        }
        let ghost before = out@;
        match links.value_at(i) {
            NodeLink::Node(cid) => {
                out.push(cid.clone());
                proof {
                    assert(out@[before.len() as int]@ == cid@);
                    let key = links.seq()[i as int].0;
                    assert(in_prefix(links.seq(), i as int + 1, key));
                    assert(node@.links.contains_key(key) && node@.links[key] == NodeLinkView::Node(cid@));
                    assert forall|j: int| 0 <= j < out@.len() implies node_dirs(node@).contains((#[trigger] out@[j])@) by {
                        if j < before.len() {
                            assert(out@[j] == before[j]);
                        }
                    }
                    assert forall|name: Seq<char>| #[trigger] in_prefix(links.seq(), i as int + 1, name) && node@.links[name] is Node implies exists|j: int| 0 <= j < out@.len() && (#[trigger] out@[j])@ == node@.links[name]->Node_0 by {
                        if in_prefix(links.seq(), i as int, name) {
                            let j = choose|j: int| 0 <= j < before.len() && (#[trigger] before[j])@ == node@.links[name]->Node_0;
                            assert(out@[j] == before[j]);
                        } else {
                            assert(name == links.seq()[i as int].0);
                        }
                    }
                }
            },
            NodeLink::Data(_, _) => {},
        }
        i = i + 1;
    }
    proof {
        lemma_in_prefix_all(links.seq());
        assert forall|name: Seq<char>| #[trigger] node@.links.contains_key(name) && node@.links[name] is Node implies exists|i: int| 0 <= i < out@.len() && (#[trigger] out@[i])@ == node@.links[name]->Node_0 by {
            assert(links@.contains_key(name));
            assert(in_prefix(links.seq(), n as int, name));
        }
    }
    out
}

/// The directories that a node links to.
pub open spec fn node_dirs(node: NodeView) -> Set<CidView> {
    Set::new(
        |c: CidView| exists|name: Seq<char>| node.links.contains_key(name) && #[trigger] node.links[name] == NodeLinkView::Node(c),
    )
}

/// Whether every block of a cache is a node, and the cache holds every
/// directory that one of its nodes links to.
pub open spec fn cache_closed(cache: Map<CidView, IpldView>) -> bool {
    &&& forall|k: CidView| #[trigger] cache.contains_key(k) ==> cached_node(cache, k) is Ok
    &&& forall|k: CidView, name: Seq<char>| cache.contains_key(k) && #[trigger] cached_node(cache, k)->Ok_0.links.contains_key(name) && cached_node(cache, k)->Ok_0.links[name] is Node ==> cache.contains_key(cached_node(cache, k)->Ok_0.links[name]->Node_0)
}

/// Whether an identifier waits to be read.
pub open spec fn is_pending(pending: Seq<Cid>, cid: CidView) -> bool {
    exists|i: int| 0 <= i < pending.len() && (#[trigger] pending[i])@ == cid
}

/// Whether every block of a cache is a node, and every directory that one of
/// its nodes links to is in the cache or waits to be read.
pub open spec fn cache_closing(cache: Map<CidView, IpldView>, pending: Seq<Cid>) -> bool {
    &&& forall|k: CidView| #[trigger] cache.contains_key(k) ==> cached_node(cache, k) is Ok
    &&& forall|k: CidView, name: Seq<char>| cache.contains_key(k) && #[trigger] cached_node(cache, k)->Ok_0.links.contains_key(name) && cached_node(cache, k)->Ok_0.links[name] is Node ==> cache.contains_key(cached_node(cache, k)->Ok_0.links[name]->Node_0) || is_pending(pending, cached_node(cache, k)->Ok_0.links[name]->Node_0)
}

/// The cache after the node that a value holds is taken into it under the
/// identifier `cid`; or why it is not taken: the value holds no node, or
/// has no block, or its block has another identifier, or the cache holds
/// another value under the identifier.
pub open spec fn take_node_spec(cache: Map<CidView, IpldView>, cid: CidView, value: IpldView) -> Result<Map<CidView, IpldView>, MountErrorView> {
    if crate::node::ipld_node(value) is Err {
        Err(MountErrorView::Ipld)
    } else {
        match ipld_cid(value) {
            None => Err(MountErrorView::BlockEncoding),
            Some(own) => if own != cid {
                Err(MountErrorView::IdentifierMismatch(cid, own))
            } else {
                match crate::cache::cache_put(cache, value) {
                    Ok((stored, _)) => Ok(stored),
                    Err(crate::cache::CacheError::Encoding) => Err(MountErrorView::BlockEncoding),
                    Err(crate::cache::CacheError::Collision) => Err(MountErrorView::BlockCreation),
                }
            },
        }
    }
}

/// Takes the node that a value holds into a cache under the identifier
/// `cid`, and gives the directories that the node links to.
pub fn take_node(cid: &Cid, value: Ipld, cache: &mut BlockCache) -> (r: Result<Vec<Cid>, MountError>)
    ensures
        match take_node_spec(old(cache)@, cid@, value@) {
            Ok(stored) => {
                &&& r is Ok
                &&& final(cache)@ == stored
                &&& stored == old(cache)@.insert(cid@, value@)
                &&& cached_node(stored, cid@) is Ok
                &&& forall|name: Seq<char>| #[trigger] cached_node(stored, cid@)->Ok_0.links.contains_key(name) && cached_node(stored, cid@)->Ok_0.links[name] is Node ==> is_pending(r->Ok_0@, cached_node(stored, cid@)->Ok_0.links[name]->Node_0)
                &&& forall|c: CidView| is_pending(r->Ok_0@, c) <==> #[trigger] node_dirs(crate::node::ipld_node(value@)->Ok_0).contains(c)
            },
            Err(e) => r is Err && r->Err_0@ == e && final(cache)@ == old(cache)@,
        },
{
    let node = match Node::try_from_ipld(&value) {
        Ok(node) => node,
        Err(_) => {
            return Err(MountError::Ipld);
        },
    };
    match crate::codec::ipld_to_cid(&value) {
        Ok(own) => {
            if !own.same(cid) {
                return Err(MountError::IdentifierMismatch(cid.clone(), own));
            }
        },
        Err(_) => {
            return Err(MountError::BlockEncoding);
        },
    }
    let ghost written = value@;
    match cache.put(value) {
        Ok(_) => {},
        Err(crate::cache::CacheError::Encoding) => {
            return Err(MountError::BlockEncoding);
        },
        Err(crate::cache::CacheError::Collision) => {
            return Err(MountError::BlockCreation);
        },
    }
    proof {
        assert(cache@[cid@] == written);
    }
    let children = child_nodes(&node);
    proof {
        assert forall|c: CidView| is_pending(children@, c) <==> #[trigger] node_dirs(node@).contains(c) by {
            if is_pending(children@, c) {
                let i = choose|i: int| 0 <= i < children@.len() && (#[trigger] children@[i])@ == c;
                assert(node_dirs(node@).contains(children@[i]@));
            }
            if node_dirs(node@).contains(c) {
                let name = choose|name: Seq<char>| node@.links.contains_key(name) && #[trigger] node@.links[name] == NodeLinkView::Node(c);
                assert(node@.links.contains_key(name) && node@.links[name] is Node);
            }
        }
    }
    Ok(children)
}

/// What becomes of a store's answer to the question for the block of a
/// node: the cache with the node that the bytes hold.
pub open spec fn node_answer(cache: Map<CidView, IpldView>, cid: CidView, answer: Result<Seq<u8>, StoreError>) -> Result<Map<CidView, IpldView>, MountErrorView> {
    match read_answer(cid, answer) {
        Err(e) => Err(e),
        Ok(value) => take_node_spec(cache, cid, value),
    }
}

/// The node that the answer to the question for a block holds.
pub open spec fn answered_node(cid: CidView, answer: Result<Seq<u8>, StoreError>) -> NodeView {
    crate::node::ipld_node(read_answer(cid, answer)->Ok_0)->Ok_0
}

/// Reads the node `cid` from a store into a cache, and gives the
/// directories that the node links to: the store is asked once, for the
/// bytes of the block, and the node that its answer holds is taken into the
/// cache.
fn pull_node<S: BlockStore>(cid: &Cid, cache: &mut BlockCache, store: &mut Recorded<S>) -> (r: Result<Vec<Cid>, MountError>)
    ensures
        asked_one(old(store).asked(), final(store).asked()),
        final(store).asked().last() is Get,
        final(store).asked().last()->Get_0 == cid@,
        match node_answer(old(cache)@, cid@, final(store).asked().last()->Get_1) {
            Ok(stored) => {
                &&& r is Ok
                &&& final(cache)@ == stored
                &&& final(cache)@ == old(cache)@.insert(cid@, final(cache)@[cid@])
                &&& cached_node(final(cache)@, cid@) is Ok
                &&& forall|name: Seq<char>| #[trigger] cached_node(final(cache)@, cid@)->Ok_0.links.contains_key(name) && cached_node(final(cache)@, cid@)->Ok_0.links[name] is Node ==> is_pending(r->Ok_0@, cached_node(final(cache)@, cid@)->Ok_0.links[name]->Node_0)
                &&& forall|c: CidView| is_pending(r->Ok_0@, c) <==> #[trigger] node_dirs(answered_node(cid@, final(store).asked().last()->Get_1)).contains(c)
            },
            Err(e) => r is Err && r->Err_0@ == e && final(cache)@ == old(cache)@,
        },
{
    match get_value(store, cid) {
        Ok(value) => take_node(cid, value, cache),
        Err(e) => Err(e),
    }
}

/// How far the reading of the nodes below a root node has come: the cache,
/// and the directories that were met.
pub struct Pulled {
    pub cache: Map<CidView, IpldView>,
    pub met: Set<CidView>,
}

/// The cache, and the directories that were met, after a store was asked
/// `calls` for the nodes below the root node `root` and each answer held a
/// node: each question is for a directory that was met and that the cache
/// does not hold yet. Nothing where a question is another, or an answer
/// holds no node that the cache takes.
pub open spec fn pull_state(root: CidView, calls: Seq<StoreCall>) -> Option<Pulled>
    decreases calls.len(),
{
    if calls.len() == 0 {
        Some(Pulled { cache: Map::empty(), met: Set::empty().insert(root) })
    } else {
        match pull_state(root, calls.drop_last()) {
            None => None,
            Some(Pulled { cache, met }) => {
                let call = calls.last();
                if call is Get && met.contains(call->Get_0) && !cache.contains_key(call->Get_0) {
                    match node_answer(cache, call->Get_0, call->Get_1) {
                        Ok(stored) => Some(
                            Pulled { cache: stored, met: met.union(node_dirs(answered_node(call->Get_0, call->Get_1))) },
                        ),
                        Err(_) => None,
                    }
                } else {
                    None
                }
            },
        }
    }
}

/// Whether reading the nodes below the root node `root`, with the store
/// asked `calls`, ends with `result`: with the cache, where every answer
/// held a node and every directory that was met is in the cache; with what
/// the last answer is refused for, where it is the first that holds no
/// node; and with too many blocks where a directory is still to be read
/// after as many questions as can be counted.
pub open spec fn pull_ends(root: CidView, calls: Seq<StoreCall>, result: Result<Map<CidView, IpldView>, MountErrorView>) -> bool {
    match result {
        Ok(cache) => {
            &&& pull_state(root, calls) is Some
            &&& pull_state(root, calls)->0.cache == cache
            &&& forall|c: CidView| #[trigger] pull_state(root, calls)->0.met.contains(c) ==> cache.contains_key(c)
        },
        Err(MountErrorView::TooManyBlocks) => {
            &&& calls.len() == usize::MAX
            &&& pull_state(root, calls) is Some
            &&& exists|c: CidView| #[trigger] pull_state(root, calls)->0.met.contains(c) && !pull_state(root, calls)->0.cache.contains_key(c)
        },
        Err(e) => {
            &&& calls.len() >= 1
            &&& pull_state(root, calls.drop_last()) is Some
            &&& calls.last() is Get
            &&& pull_state(root, calls.drop_last())->0.met.contains(calls.last()->Get_0)
            &&& !pull_state(root, calls.drop_last())->0.cache.contains_key(calls.last()->Get_0)
            &&& node_answer(pull_state(root, calls.drop_last())->0.cache, calls.last()->Get_0, calls.last()->Get_1) == Err::<
                Map<CidView, IpldView>,
                MountErrorView,
            >(e)
        },
    }
}

/// The view of a result that holds a cache.
pub open spec fn cache_result_view(r: Result<BlockCache, MountError>) -> Result<Map<CidView, IpldView>, MountErrorView> {
    match r {
        Ok(cache) => Ok(cache@),
        Err(e) => Err(e@),
    }
}

/// Reads the nodes below the root node `root` from a store into a cache:
/// the root node, and every directory that a node of the cache links to.
/// The store is asked for each of them once, and for nothing else; the
/// first answer that holds no node ends the reading.
pub fn pull_nodes<S: BlockStore>(root: &Cid, store: &mut Recorded<S>) -> (r: Result<BlockCache, MountError>)
    ensures
        r is Ok ==> cached_node(r->Ok_0@, root@) is Ok && cache_closed(r->Ok_0@),
        went_on(old(store).asked(), final(store).asked()),
        pull_ends(root@, asked_since(old(store).asked(), final(store).asked()), cache_result_view(r)),
{
    let mut cache = BlockCache::new();
    let mut pending: Vec<Cid> = Vec::new();
    pending.push(root.clone());
    let mut budget: usize = usize::MAX;
    let ghost start = store.asked();
    let ghost mut met: Set<CidView> = Set::empty().insert(root@);
    proof {
        assert(pending@[0]@ == root@);
        assert(start.take(start.len() as int) =~= start);
        assert(asked_since(start, start) =~= Seq::<StoreCall>::empty());
        assert forall|c: CidView| met.contains(c) implies is_pending(pending@, c) by {
            assert(pending@[0]@ == c);
        }
    }
    while pending.len() > 0
        invariant
            cache_closing(cache@, pending@),
            cache@.contains_key(root@) || is_pending(pending@, root@),
            start == old(store).asked(),
            went_on(start, store.asked()),
            pull_state(root@, asked_since(start, store.asked())) == Some(Pulled { cache: cache@, met }),
            forall|c: CidView| is_pending(pending@, c) ==> met.contains(c),
            forall|c: CidView| met.contains(c) && !cache@.contains_key(c) ==> is_pending(pending@, c),
            budget as int + asked_since(start, store.asked()).len() == usize::MAX,
        decreases budget, pending.len(),
    {
        let ghost before = pending@;
        let ghost held = cache@;
        let ghost calls = asked_since(start, store.asked());
        let ghost record = store.asked();
        let cid = match pending.pop() {
            Some(cid) => cid,
            None => {
                proof {
                    assert(false);
                }
                return Err(MountError::TooManyBlocks);
            },
        };
        let ghost kept = pending@;
        proof {
            assert(before[before.len() - 1]@ == cid@);
            assert(is_pending(before, cid@));
            assert forall|c: CidView| is_pending(before, c) implies is_pending(kept, c) || c == cid@ by {
                let i = choose|i: int| 0 <= i < before.len() && (#[trigger] before[i])@ == c;
                if i < kept.len() {
                    assert(kept[i] == before[i]);
                }
            }
            assert forall|c: CidView| is_pending(kept, c) implies is_pending(before, c) by {
                let i = choose|i: int| 0 <= i < kept.len() && (#[trigger] kept[i])@ == c;
                assert(before[i] == kept[i]);
            }
        }
        if !cache.contains(&cid) {
            if budget == 0 {
                proof {
                    let state = pull_state(root@, asked_since(start, store.asked()))->0;
                    assert(state.met.contains(cid@) && !state.cache.contains_key(cid@));
                }
                return Err(MountError::TooManyBlocks);
            }
            budget = budget - 1;
            let mut children = match pull_node(&cid, &mut cache, store) {
                Ok(children) => children,
                Err(e) => {
                    proof {
                        let after = store.asked();
                        assert(after.take(start.len() as int) =~= record.take(start.len() as int));
                        assert(asked_since(start, after).drop_last() =~= calls);
                        assert(asked_since(start, after).last() == after.last());
                    }
                    return Err(e);
                },
            };
            let ghost found = children@;
            let ghost call = store.asked().last();
            pending.append(&mut children);
            proof {
                let now = cache@;
                let after = store.asked();
                assert(after.take(start.len() as int) =~= record.take(start.len() as int));
                assert(asked_since(start, after).drop_last() =~= calls);
                assert(asked_since(start, after).last() == call);
                let dirs = node_dirs(answered_node(cid@, call->Get_1));
                met = met.union(dirs);
                assert(pull_state(root@, asked_since(start, after)) == Some(Pulled { cache: now, met }));
                assert forall|c: CidView| is_pending(kept, c) || is_pending(found, c) implies is_pending(pending@, c) by {
                    if is_pending(kept, c) {
                        let i = choose|i: int| 0 <= i < kept.len() && (#[trigger] kept[i])@ == c;
                        assert(pending@[i] == kept[i]);
                    } else {
                        let i = choose|i: int| 0 <= i < found.len() && (#[trigger] found[i])@ == c;
                        assert(pending@[kept.len() + i] == found[i]);
                    }
                }
                assert forall|c: CidView| is_pending(pending@, c) implies met.contains(c) by {
                    let i = choose|i: int| 0 <= i < pending@.len() && (#[trigger] pending@[i])@ == c;
                    if i < kept.len() {
                        assert(pending@[i] == kept[i]);
                        assert(is_pending(kept, c));
                    } else {
                        assert(pending@[i] == found[i - kept.len()]);
                        assert(is_pending(found, c));
                        assert(dirs.contains(c));
                    }
                }
                assert forall|c: CidView| met.contains(c) && !now.contains_key(c) implies is_pending(pending@, c) by {
                    if dirs.contains(c) {
                        assert(is_pending(found, c));
                    } else {
                        assert(is_pending(before, c));
                        assert(is_pending(kept, c));
                    }
                }
                assert forall|k: CidView| #[trigger] now.contains_key(k) implies cached_node(now, k) is Ok by {
                    if k != cid@ {
                        assert(held.contains_key(k));
                        assert(cached_node(held, k) is Ok);
                    }
                }
                assert forall|k: CidView, name: Seq<char>| now.contains_key(k) && #[trigger] cached_node(now, k)->Ok_0.links.contains_key(name) && cached_node(now, k)->Ok_0.links[name] is Node implies now.contains_key(cached_node(now, k)->Ok_0.links[name]->Node_0) || is_pending(pending@, cached_node(now, k)->Ok_0.links[name]->Node_0) by {
                    let c = cached_node(now, k)->Ok_0.links[name]->Node_0;
                    if k != cid@ {
                        assert(held.contains_key(k));
                        assert(cached_node(held, k) == cached_node(now, k));
                        assert(cached_node(held, k)->Ok_0.links.contains_key(name));
                        if held.contains_key(c) {
                        } else {
                            assert(is_pending(before, c));
                        }
                    }
                }
            }
        } else {
            proof {
                assert forall|c: CidView| met.contains(c) && !held.contains_key(c) implies is_pending(kept, c) by {
                    assert(is_pending(before, c));
                }
                assert forall|k: CidView, name: Seq<char>| held.contains_key(k) && #[trigger] cached_node(held, k)->Ok_0.links.contains_key(name) && cached_node(held, k)->Ok_0.links[name] is Node implies held.contains_key(cached_node(held, k)->Ok_0.links[name]->Node_0) || is_pending(kept, cached_node(held, k)->Ok_0.links[name]->Node_0) by {
                    let c = cached_node(held, k)->Ok_0.links[name]->Node_0;
                    if !held.contains_key(c) {
                        assert(is_pending(before, c));
                    }
                }
            }
        }
    }
    proof {
        assert forall|k: CidView, name: Seq<char>| cache@.contains_key(k) && #[trigger] cached_node(cache@, k)->Ok_0.links.contains_key(name) && cached_node(cache@, k)->Ok_0.links[name] is Node implies cache@.contains_key(cached_node(cache@, k)->Ok_0.links[name]->Node_0) by {
            let c = cached_node(cache@, k)->Ok_0.links[name]->Node_0;
            if is_pending(pending@, c) {
                let i = choose|i: int| 0 <= i < pending@.len() && (#[trigger] pending@[i])@ == c;
            }
        }
        if is_pending(pending@, root@) {
            let i = choose|i: int| 0 <= i < pending@.len() && (#[trigger] pending@[i])@ == root@;
        }
        assert forall|c: CidView| met.contains(c) implies cache@.contains_key(c) by {
            if !cache@.contains_key(c) {
                let i = choose|i: int| 0 <= i < pending@.len() && (#[trigger] pending@[i])@ == c;
            }
        }
    }
    Ok(cache)
}

/// A record that goes on from a record that holds one question more than a
/// first one goes on from the first: what it holds beyond the first is that
/// question, and then what it holds beyond the second.
pub proof fn lemma_asked_first(start: Seq<StoreCall>, first: Seq<StoreCall>, last: Seq<StoreCall>)
    requires
        asked_one(start, first),
        went_on(first, last) || last == first,
    ensures
        went_on(start, last),
        asked_since(start, last).len() == asked_since(first, last).len() + 1,
        asked_since(start, last)[0] == first.last(),
        asked_since(start, last).skip(1) == asked_since(first, last),
        asked_since(start, first).len() == 1,
{
    assert(first.take(first.len() as int) =~= first);
    assert(last.take(first.len() as int).take(start.len() as int) =~= last.take(start.len() as int));
    assert(first.drop_last() =~= first.take(start.len() as int));
    assert(last.take(first.len() as int)[start.len() as int] == last[start.len() as int]);
    assert(asked_since(start, last).skip(1) =~= asked_since(first, last));
}

/// Whether reading a mount from a store, with the store asked `calls`, ends
/// with `result`. The first question is for the block of the manifest `cid`.
/// Where its answer holds no manifest, or one that is not `wanted`, that is
/// the end; else the nodes below the manifest's root node are read, and the
/// mount is that of the manifest and of the cache that the reading gives.
pub open spec fn pull_account(
    cid: CidView,
    wanted: spec_fn(ManifestView) -> Option<MountErrorView>,
    calls: Seq<StoreCall>,
    result: Result<MountView, MountErrorView>,
) -> bool {
    &&& calls.len() >= 1
    &&& calls[0] is Get
    &&& calls[0]->Get_0 == cid
    &&& match manifest_answer(cid, calls[0]->Get_1) {
        Err(e) => calls.len() == 1 && result == Err::<MountView, MountErrorView>(e),
        Ok(manifest) => match wanted(manifest) {
            Some(e) => calls.len() == 1 && result == Err::<MountView, MountErrorView>(e),
            None => match result {
                Ok(m) => m.cid == cid && m.base == cid && m.manifest == manifest && pull_ends(
                    manifest.data,
                    calls.skip(1),
                    Ok::<Map<CidView, IpldView>, MountErrorView>(m.cache),
                ),
                Err(e) => pull_ends(manifest.data, calls.skip(1), Err::<Map<CidView, IpldView>, MountErrorView>(e)),
            },
        },
    }
}

/// Every manifest is wanted.
pub open spec fn any_manifest() -> spec_fn(ManifestView) -> Option<MountErrorView> {
    |manifest: ManifestView| None::<MountErrorView>
}

/// A manifest is wanted where it names the manifest `current` as the one
/// before it.
pub open spec fn manifest_after(current: CidView) -> spec_fn(ManifestView) -> Option<MountErrorView> {
    |manifest: ManifestView|
        if manifest.previous == current {
            None::<MountErrorView>
        } else {
            Some(MountErrorView::PreviousMismatch(manifest.previous, current))
        }
}

/// The view of a result that holds a mount.
pub open spec fn mount_result_view(r: Result<Mount, MountError>) -> Result<MountView, MountErrorView> {
    match r {
        Ok(m) => Ok(m@),
        Err(e) => Err(e@),
    }
}

/// The mount after an operation that changes it where it succeeds, or why
/// the operation fails.
pub open spec fn changed_mount(r: Result<(), MountError>, after: MountView) -> Result<MountView, MountErrorView> {
    match r {
        Ok(_) => Ok(after),
        Err(e) => Err(e@),
    }
}

/// Whether writing a mount into a store, with the store asked `calls`, ends
/// with `result`. The store is handed the blocks of the values of the
/// cache, in the order in which they came into it, and then the block of the
/// manifest. A block for which the store finds another identifier than the
/// block's own, or which it does not take, is the last that it is handed.
/// The identifier that it finds for the manifest is the mount's then.
pub open spec fn push_account(
    entries: Seq<(CidView, IpldView)>,
    manifest: ManifestView,
    calls: Seq<StoreCall>,
    result: Result<CidView, MountErrorView>,
) -> bool {
    let n = entries.len() as int;
    &&& calls.len() <= n + 1
    &&& forall|i: int| 0 <= i < calls.len() && i < n ==> puts_block_of(entries[i].1, #[trigger] calls[i])
    &&& calls.len() == n + 1 ==> puts_block_of(crate::manifest::manifest_ipld(manifest), calls[n])
    &&& forall|i: int| 0 <= i < calls.len() - 1 ==> put_outcome(#[trigger] calls[i]) is Ok
    &&& match result {
        Ok(cid) => calls.len() == n + 1 && put_outcome(calls[n]) == Ok::<CidView, MountErrorView>(cid),
        Err(e) => if calls.len() == n && (n == 0 || put_outcome(calls[n - 1]) is Ok) {
            value_block(crate::manifest::manifest_ipld(manifest)) is None && e == MountErrorView::BlockEncoding
        } else {
            calls.len() >= 1 && put_outcome(calls.last()) == Err::<CidView, MountErrorView>(e)
        },
    }
}

impl Mount {
    /// The mount of a build without name at its beginning, with its manifest
    /// written into a store: the store is asked once, to keep the block of
    /// the manifest, and the mount is given where the store finds the
    /// block's own identifier for it.
    pub fn init<S: BlockStore>(store: &mut Recorded<S>) -> (r: Result<Mount, MountError>)
        ensures
            r is Ok ==> new_mount(crate::manifest::empty_version()) == Ok::<MountView, MountErrorView>(r->Ok_0@),
            match new_mount(crate::manifest::empty_version()) {
                Err(e) => r is Err && r->Err_0@ == e && final(store).asked() == old(store).asked(),
                Ok(m) => {
                    &&& asked_one(old(store).asked(), final(store).asked())
                    &&& puts_block_of(crate::manifest::manifest_ipld(m.manifest), final(store).asked().last())
                    &&& match put_outcome(final(store).asked().last()) {
                        Ok(_) => r is Ok,
                        Err(e) => r is Err && r->Err_0@ == e,
                    }
                },
            },
    {
        let mount = match Mount::new(Version::default()) {
            Ok(mount) => mount,
            Err(e) => {
                return Err(e);
            },
        };
        match put_value(store, &mount.manifest.to_ipld()) {
            Ok(_) => Ok(mount),
            Err(e) => Err(e),
        }
    }

    /// The mount of the manifest `cid` of a store, with the nodes below its
    /// root node read into the cache. The payloads of files are not read.
    /// The store is asked for the manifest, and then for each node once.
    pub fn pull<S: BlockStore>(cid: Cid, store: &mut Recorded<S>) -> (r: Result<Mount, MountError>)
        ensures
            r is Ok ==> r->Ok_0@.cid == cid@ && root_node(r->Ok_0@) is Ok && cache_closed(r->Ok_0@.cache),
            went_on(old(store).asked(), final(store).asked()),
            pull_account(cid@, any_manifest(), asked_since(old(store).asked(), final(store).asked()), mount_result_view(r)),
    {
        let ghost start = store.asked();
        let manifest = match get_manifest(store, &cid) {
            Ok(manifest) => manifest,
            Err(e) => {
                proof {
                    lemma_asked_first(start, store.asked(), store.asked());
                }
                return Err(e);
            },
        };
        let ghost first = store.asked();
        let block_cache = match pull_nodes(manifest.data(), store) {
            Ok(cache) => cache,
            Err(e) => {
                proof {
                    lemma_asked_first(start, first, store.asked());
                }
                return Err(e);
            },
        };
        proof {
            lemma_asked_first(start, first, store.asked());
        }
        Ok(Mount::load(cid, manifest, block_cache))
    }

    /// Whether a manifest names the mount's manifest as the one before it,
    /// so that the mount can go on to it.
    pub fn check_follows(&self, manifest: &Manifest) -> (r: Result<(), MountError>)
        ensures
            manifest@.previous == self@.cid ==> r is Ok,
            manifest@.previous != self@.cid ==> r is Err && r->Err_0@ == MountErrorView::PreviousMismatch(
                manifest@.previous,
                self@.cid,
            ),
    {
        if manifest.previous().same(&self.cid) {
            Ok(())
        } else {
            Err(MountError::PreviousMismatch(manifest.previous().clone(), self.cid.clone()))
        }
    }

    /// Goes on to the manifest `cid` of a store, which must name the mount's
    /// manifest as the one before it: the cache is emptied and filled with
    /// the nodes below the new root node. The store is asked for the
    /// manifest, and then, where the manifest names the mount's, for each
    /// node once. Where the mount does not go on, it stays as it is.
    pub fn update<S: BlockStore>(&mut self, cid: Cid, store: &mut Recorded<S>) -> (r: Result<(), MountError>)
        ensures
            r is Ok ==> {
                &&& final(self)@.cid == cid@
                &&& final(self)@.base == cid@
                &&& final(self)@.manifest.previous == old(self)@.cid
                &&& root_node(final(self)@) is Ok
                &&& cache_closed(final(self)@.cache)
            },
            r is Err ==> final(self)@ == old(self)@,
            went_on(old(store).asked(), final(store).asked()),
            pull_account(
                cid@,
                manifest_after(old(self)@.cid),
                asked_since(old(store).asked(), final(store).asked()),
                changed_mount(r, final(self)@),
            ),
    {
        let ghost start = store.asked();
        let manifest = match get_manifest(store, &cid) {
            Ok(manifest) => manifest,
            Err(e) => {
                proof {
                    lemma_asked_first(start, store.asked(), store.asked());
                }
                return Err(e);
            },
        };
        let ghost first = store.asked();
        match self.check_follows(&manifest) {
            Ok(_) => {},
            Err(e) => {
                proof {
                    lemma_asked_first(start, first, first);
                }
                return Err(e);
            },
        }
        let block_cache = match pull_nodes(manifest.data(), store) {
            Ok(cache) => cache,
            Err(e) => {
                proof {
                    lemma_asked_first(start, first, store.asked());
                }
                return Err(e);
            },
        };
        proof {
            lemma_asked_first(start, first, store.asked());
        }
        self.manifest = manifest;
        self.block_cache = block_cache;
        self.base = cid.clone();
        self.cid = cid;
        Ok(())
    }

    /// Writes the blocks of the cache, and then the manifest, into a store.
    /// The manifest that is written names as the one before it the
    /// identifier that the mount's last push left, or from which the mount
    /// was read. The mount's identifier becomes that of the manifest as it is
    /// written, and the next push will name it.
    /// Where the store does not take a block, or finds another identifier for
    /// it than the block's own, nothing more is written, and the mount stays
    /// as it is.
    pub fn push<S: BlockStore>(&mut self, store: &mut Recorded<S>) -> (r: Result<(), MountError>)
        ensures
            r is Ok ==> push_spec(old(self)@) == Ok::<MountView, MountErrorView>(final(self)@),
            r is Err ==> final(self)@ == old(self)@,
            push_spec(old(self)@) is Err ==> r is Err,
            went_on(old(store).asked(), final(store).asked()),
            push_account(
                old(self).cache_entries(),
                pushed_manifest(old(self)@),
                asked_since(old(store).asked(), final(store).asked()),
                match r {
                    Ok(_) => Ok(final(self)@.cid),
                    Err(e) => Err(e@),
                },
            ),
    {
        let ghost start = store.asked();
        let ghost entries = self.cache_entries();
        let ghost written = crate::manifest::manifest_ipld(pushed_manifest(self@));
        let n = self.block_cache.len();
        let mut i: usize = 0;
        proof {
            assert(start.take(start.len() as int) =~= start);
        }
        while i < n
            invariant
                i <= n,
                n == self.block_cache.seq().len(),
                *self == *old(self),
                entries == self.block_cache.seq(),
                start == old(store).asked(),
                went_on(start, store.asked()),
                asked_since(start, store.asked()).len() == i,
                forall|j: int| 0 <= j < i ==> puts_block_of(entries[j].1, #[trigger] asked_since(start, store.asked())[j]),
                forall|j: int| 0 <= j < i ==> put_outcome(#[trigger] asked_since(start, store.asked())[j]) is Ok,
            decreases n - i,
        {
            let ghost before = store.asked();
            let answer = put_value(store, self.block_cache.value_at(i));
            proof {
                let after = store.asked();
                assert(value_block(entries[i as int].1) is Some);
                assert(after.take(start.len() as int) =~= before.take(start.len() as int));
                assert(asked_since(start, after).drop_last() =~= asked_since(start, before));
                assert(asked_since(start, after).last() == after.last());
                assert forall|j: int| 0 <= j < i implies #[trigger] asked_since(start, after)[j] == asked_since(start, before)[j] by {
                    assert(asked_since(start, after).drop_last()[j] == asked_since(start, after)[j]);
                }
            }
            match answer {
                Ok(_) => {},
                Err(e) => {
                    return Err(e);
                },
            }
            i = i + 1;
        }
        let ghost before = store.asked();
        let mut manifest = self.manifest.clone();
        manifest.set_previous(self.base.clone());
        let answer = put_value(store, &manifest.to_ipld());
        proof {
            let after = store.asked();
            if value_block(written) is Some {
                assert(after.take(start.len() as int) =~= before.take(start.len() as int));
                assert(asked_since(start, after).drop_last() =~= asked_since(start, before));
                assert(asked_since(start, after).last() == after.last());
                assert forall|j: int| 0 <= j < n implies #[trigger] asked_since(start, after)[j] == asked_since(start, before)[j] by {
                    assert(asked_since(start, after).drop_last()[j] == asked_since(start, after)[j]);
                }
            }
        }
        match answer {
            Ok(cid) => {
                self.manifest = manifest;
                self.base = cid.clone();
                self.cid = cid;
                Ok(())
            },
            Err(e) => Err(e),
        }
    }

    /// Asks a store for the identifier of a payload, without leaving the
    /// payload there: the store is asked once, and what it answers is
    /// handed on.
    pub fn hash_data<S: BlockStore>(store: &mut Recorded<S>, data: &Vec<u8>) -> (r: Result<Cid, MountError>)
        ensures
            asked_one(old(store).asked(), final(store).asked()),
            final(store).asked().last() is Hash,
            final(store).asked().last()->Hash_0 == data@,
            cid_result_view(r) == payload_answer(final(store).asked().last()->Hash_1),
    {
        let answer = store.hash(data);
        proof {
            assert(final(store).asked().drop_last() =~= old(store).asked());
        }
        match answer {
            Ok(cid) => Ok(cid),
            Err(e) => Err(MountError::Store(e)),
        }
    }

    /// Leaves a payload in a store, and gives the identifier under which the
    /// store holds it: the store is asked once, and what it answers is
    /// handed on.
    pub fn add_data<S: BlockStore>(store: &mut Recorded<S>, data: &Vec<u8>) -> (r: Result<Cid, MountError>)
        ensures
            asked_one(old(store).asked(), final(store).asked()),
            final(store).asked().last() is Add,
            final(store).asked().last()->Add_0 == data@,
            cid_result_view(r) == payload_answer(final(store).asked().last()->Add_1),
    {
        let answer = store.add(data);
        proof {
            assert(final(store).asked().drop_last() =~= old(store).asked());
        }
        match answer {
            Ok(cid) => Ok(cid),
            Err(e) => Err(MountError::Store(e)),
        }
    }

    /// Puts a payload at `path`: asks the store once for the payload's
    /// identifier, with or without leaving the payload there, and puts the
    /// identifier at the path. Gives the payload's identifier. Where the
    /// store does not answer, the mount stays as it is.
    pub fn add<S: BlockStore>(&mut self, store: &mut Recorded<S>, path: &str, data: &Vec<u8>, hash_only: bool) -> (r: Result<Cid, MountError>)
        requires
            is_absolute(path@),
            path_names(path@).len() > 0,
        ensures
            asked_one(old(store).asked(), final(store).asked()),
            payload_call(final(store).asked().last(), data@, hash_only),
            match payload_call_answer(final(store).asked().last()) {
                Err(e) => cid_result_view(r) == Err::<CidView, MountErrorView>(MountErrorView::Store(e)) && final(self)@ == old(self)@,
                Ok(cid) => match add_link_spec(old(self)@, path_names(path@), cid) {
                    Ok(after) => cid_result_view(r) == Ok::<CidView, MountErrorView>(cid) && final(self)@ == after,
                    Err(e) => {
                        &&& cid_result_view(r) == Err::<CidView, MountErrorView>(e)
                        &&& final(self)@.cid == old(self)@.cid
                        &&& final(self)@.base == old(self)@.base
                        &&& final(self)@.manifest == old(self)@.manifest
                        &&& cache_extends(old(self)@.cache, final(self)@.cache)
                    },
                },
            },
    {
        let answer = if hash_only {
            Mount::hash_data(store, data)
        } else {
            Mount::add_data(store, data)
        };
        let cid = match answer {
            Ok(cid) => cid,
            Err(e) => {
                return Err(e);
            },
        };
        match self.add_link(path, &cid) {
            Ok(_) => Ok(cid),
            Err(e) => Err(e),
        }
    }

    /// The link that the names of a path lead to from a node.
    fn resolve_exec(&self, node: &Node, names: &Vec<String>) -> (r: Result<NodeLink, MountError>)
        requires
            names@.len() > 0,
        ensures
            match resolve_from(self@.cache, node@, Seq::empty(), names_view(names@)) {
                Ok(link) => r is Ok && r->Ok_0@ == link,
                Err(e) => r is Err && r->Err_0@ == e,
            },
    {
        let ghost path = names_view(names@);
        let n = names.len();
        let mut current = node.clone();
        let mut at: usize = 0;
        proof {
            assert(path.take(0) =~= Seq::<Seq<char>>::empty());
            assert(path.skip(0) =~= path);
        }
        while at < n - 1
            invariant
                at <= n - 1,
                n == names@.len(),
                n > 0,
                path == names_view(names@),
                resolve_from(self@.cache, current@, path.take(at as int), path.skip(at as int)) == resolve_from(self@.cache, node@, Seq::empty(), path),
            decreases n - at,
        {
            proof {
                assert(path.skip(at as int)[0] == path[at as int]);
                assert(path.take(at as int).push(path[at as int]) =~= path.take(at as int + 1));
                assert(path.skip(at as int).skip(1) =~= path.skip(at as int + 1));
                assert(path.skip(at as int).len() == n - at);
            }
            let next = match current.get_link(names[at].as_str()) {
                None => {
                    return Err(MountError::PathNotFound(crate::upsert::path_through(names, at)));
                },
                Some(NodeLink::Data(_, _)) => {
                    return Err(MountError::DataOnPath(crate::upsert::path_through(names, at)));
                },
                Some(NodeLink::Node(cid)) => match get_cache(cid, &self.block_cache) {
                    Ok(child) => child,
                    Err(e) => {
                        return Err(e);
                    },
                },
            };
            current = next;
            at = at + 1;
        }
        proof {
            assert(path.skip(at as int)[0] == path[at as int]);
            assert(path.take(at as int).push(path[at as int]) =~= path.take(at as int + 1));
            assert(path.skip(at as int).len() == 1);
        }
        match current.get_link(names[at].as_str()) {
            None => Err(MountError::PathNotFound(crate::upsert::path_through(names, at))),
            Some(link) => Ok(link.clone()),
        }
    }

    /// The link that a path leads to: the root node itself for `/`.
    pub fn get_node_link_at_path(&self, path: &str) -> (r: Result<NodeLink, MountError>)
        requires
            is_absolute(path@),
        ensures
            match resolve(self@, path_names(path@)) {
                Ok(link) => r is Ok && r->Ok_0@ == link,
                Err(e) => r is Err && r->Err_0@ == e,
            },
    {
        let names = clean_path(path);
        if names.len() == 0 {
            return Ok(NodeLink::Node(self.manifest.data().clone()));
        }
        let root = match get_cache(self.manifest.data(), &self.block_cache) {
            Ok(node) => node,
            Err(e) => {
                return Err(e);
            },
        };
        self.resolve_exec(&root, &names)
    }

    /// The payload of the file at `path`, as the store gives it: where a
    /// file stands at the path, the store is asked once, for the bytes of the
    /// file's payload block, and what it answers is handed on; else the store
    /// is not asked.
    pub fn cat<S: BlockStore>(&self, store: &mut Recorded<S>, path: &str) -> (r: Result<Vec<u8>, MountError>)
        requires
            is_absolute(path@),
        ensures
            match resolve(self@, path_names(path@)) {
                Ok(NodeLinkView::Data(cid, _)) => {
                    &&& asked_one(old(store).asked(), final(store).asked())
                    &&& final(store).asked().last() is Get
                    &&& final(store).asked().last()->Get_0 == cid
                    &&& match final(store).asked().last()->Get_1 {
                        Ok(data) => r is Ok && r->Ok_0@ == data,
                        Err(e) => r is Err && r->Err_0@ == MountErrorView::Store(e),
                    }
                },
                Ok(NodeLinkView::Node(_)) => {
                    &&& r is Err
                    &&& r->Err_0@ == MountErrorView::PathNotFile(path_names(path@))
                    &&& final(store).asked() == old(store).asked()
                },
                Err(e) => r is Err && r->Err_0@ == e && final(store).asked() == old(store).asked(),
            },
    {
        match self.get_node_link_at_path(path) {
            Err(e) => Err(e),
            Ok(NodeLink::Node(_)) => Err(MountError::PathNotFile(clean_path(path))),
            Ok(NodeLink::Data(cid, _)) => {
                let answer = store.get(&cid);
                proof {
                    assert(final(store).asked().drop_last() =~= old(store).asked());
                }
                match answer {
                    Ok(data) => Ok(data),
                    Err(e) => Err(MountError::Store(e)),
                }
            },
        }
    }

    /// The node of the directory at `path`.
    pub fn node_at(&self, path: &str) -> (r: Result<Node, MountError>)
        requires
            is_absolute(path@),
        ensures
            match resolve(self@, path_names(path@)) {
                Ok(NodeLinkView::Data(_, _)) => r is Err && r->Err_0@ == MountErrorView::PathNotDir(path_names(path@)),
                Ok(NodeLinkView::Node(cid)) => match cached_node(self@.cache, cid) {
                    Ok(node) => r is Ok && r->Ok_0@ == node,
                    Err(e) => r is Err && r->Err_0@ == e,
                },
                Err(e) => r is Err && r->Err_0@ == e,
            },
    {
        match self.get_node_link_at_path(path) {
            Err(e) => Err(e),
            Ok(NodeLink::Data(_, _)) => Err(MountError::PathNotDir(clean_path(path))),
            Ok(NodeLink::Node(cid)) => get_cache(&cid, &self.block_cache),
        }
    }
}

/// A path that leads to a link leads to it whatever names stand before it.
pub proof fn lemma_resolve_found(
    cache: Map<CidView, IpldView>,
    node: NodeView,
    consumed: Seq<Seq<char>>,
    other: Seq<Seq<char>>,
    path: Seq<Seq<char>>,
)
    requires
        resolve_from(cache, node, consumed, path) is Ok,
    ensures
        resolve_from(cache, node, other, path) == resolve_from(cache, node, consumed, path),
    decreases path.len(),
{
    if path.len() > 1 {
        let child = cached_node(cache, node.links[path[0]]->Node_0)->Ok_0;
        lemma_resolve_found(cache, child, consumed.push(path[0]), other.push(path[0]), path.skip(1));
    }
}

/// Whether each entry of a list is a link below `node`, to a file or to a
/// directory: its path is `base` and then the names that lead from `node`
/// to the link.
pub open spec fn lists_reached(
    listing: Seq<(Seq<Seq<char>>, NodeLinkView)>,
    cache: Map<CidView, IpldView>,
    node: NodeView,
    base: Seq<Seq<char>>,
) -> bool {
    forall|i: int| 0 <= i < listing.len() ==> {
        let path = (#[trigger] listing[i]).0;
        &&& path.len() > base.len()
        &&& path.take(base.len() as int) == base
        &&& resolve_from(cache, node, Seq::empty(), path.skip(base.len() as int)) == Ok::<NodeLinkView, MountErrorView>(listing[i].1)
    }
}

/// A path stands before the paths that go on from it.
pub proof fn lemma_path_lt_longer(a: Seq<Seq<char>>, b: Seq<Seq<char>>)
    requires
        a.len() < b.len(),
        b.take(a.len() as int) == a,
    ensures
        path_lt(a, b),
    decreases a.len(),
{
    if a.len() > 0 {
        assert(a[0] == b.take(a.len() as int)[0]);
        assert(b.skip(1).take(a.len() - 1) =~= b.take(a.len() as int).skip(1));
        lemma_path_lt_longer(a.skip(1), b.skip(1));
    }
}

/// The order of paths: by the first name in which two paths differ; a path
/// stands before the paths that go on from it.
pub open spec fn path_lt(a: Seq<Seq<char>>, b: Seq<Seq<char>>) -> bool
    decreases a.len(),
{
    if b.len() == 0 {
        false
    } else if a.len() == 0 {
        true
    } else if a[0] != b[0] {
        name_lt(a[0], b[0])
    } else {
        path_lt(a.skip(1), b.skip(1))
    }
}

/// Two paths that agree in their first `k` names stand in the order of
/// their names at `k`.
pub proof fn lemma_path_lt_at(a: Seq<Seq<char>>, b: Seq<Seq<char>>, k: int)
    requires
        0 <= k < a.len(),
        k < b.len(),
        a.take(k) == b.take(k),
        name_lt(a[k], b[k]),
    ensures
        path_lt(a, b),
    decreases k,
{
    if k == 0 {
        crate::text::lemma_name_lt_asymmetric(a[0], b[0]);
    } else {
        assert(a[0] == a.take(k)[0]);
        assert(b[0] == b.take(k)[0]);
        assert(a.skip(1).take(k - 1) =~= a.take(k).skip(1));
        assert(b.skip(1).take(k - 1) =~= b.take(k).skip(1));
        lemma_path_lt_at(a.skip(1), b.skip(1), k - 1);
    }
}

/// Whether the paths of a list rise from entry to entry.
pub open spec fn paths_rising(listing: Seq<(Seq<Seq<char>>, NodeLinkView)>) -> bool {
    forall|i: int, j: int| 0 <= i < j < listing.len() ==> path_lt((#[trigger] listing[i]).0, (#[trigger] listing[j]).0)
}

/// Whether the name at `at` of each path of a list is among the first
/// `count` names of `names`.
pub open spec fn names_at_among<V>(
    listing: Seq<(Seq<Seq<char>>, NodeLinkView)>,
    at: int,
    names: Seq<(Seq<char>, V)>,
    count: int,
) -> bool {
    forall|i: int| 0 <= i < listing.len() ==> in_prefix(names, count, (#[trigger] listing[i]).0[at])
}

/// Whether a cache holds a node under some identifier.
pub open spec fn holds_node(cache: Map<CidView, IpldView>, node: NodeView) -> bool {
    exists|k: CidView| cache.contains_key(k) && #[trigger] cached_node(cache, k) == Ok::<NodeView, MountErrorView>(node)
}

/// Whether a path below `node` leads to a link, to a file or to a directory.
pub open spec fn leads_to_link(cache: Map<CidView, IpldView>, node: NodeView, path: Seq<Seq<char>>) -> bool {
    resolve_from(cache, node, Seq::empty(), path) is Ok
}

/// Whether a list holds the path `path`.
pub open spec fn lists_path(listing: Seq<(Seq<Seq<char>>, NodeLinkView)>, path: Seq<Seq<char>>) -> bool {
    exists|i: int| 0 <= i < listing.len() && (#[trigger] listing[i]).0 == path
}

/// Whether a list holds every link below `node` whose first name is among
/// the first `count` names of `names`.
pub open spec fn lists_links_under<V>(
    listing: Seq<(Seq<Seq<char>>, NodeLinkView)>,
    cache: Map<CidView, IpldView>,
    node: NodeView,
    base: Seq<Seq<char>>,
    names: Seq<(Seq<char>, V)>,
    count: int,
) -> bool {
    forall|path: Seq<Seq<char>>| path.len() >= 1 && in_prefix(names, count, path[0]) && #[trigger] leads_to_link(cache, node, path) ==> lists_path(listing, base + path)
}

/// Whether a list holds every link below `node`, to a file or to a
/// directory, under `base` and then the names that lead from `node` to the
/// link.
pub open spec fn lists_every_link(
    listing: Seq<(Seq<Seq<char>>, NodeLinkView)>,
    cache: Map<CidView, IpldView>,
    node: NodeView,
    base: Seq<Seq<char>>,
) -> bool {
    forall|path: Seq<Seq<char>>| #[trigger] leads_to_link(cache, node, path) ==> lists_path(listing, base + path)
}

/// Whether a list of the links below `node` is right as far as the first
/// `count` names of `names` go: each entry is a link below `node`, every link
/// under one of these names is there, and the paths rise.
pub open spec fn lists_so_far<V>(
    listing: Seq<(Seq<Seq<char>>, NodeLinkView)>,
    cache: Map<CidView, IpldView>,
    node: NodeView,
    base: Seq<Seq<char>>,
    names: Seq<(Seq<char>, V)>,
    count: int,
) -> bool {
    &&& lists_reached(listing, cache, node, base)
    &&& lists_links_under(listing, cache, node, base, names, count)
    &&& paths_rising(listing)
    &&& names_at_among(listing, base.len() as int, names, count)
}

/// A list that is right as far as the names before `i` go is right as far
/// as the name at `i` goes, once the file of that name is added.
proof fn lemma_list_one_link<V>(
    was: Seq<(Seq<Seq<char>>, NodeLinkView)>,
    now: Seq<(Seq<Seq<char>>, NodeLinkView)>,
    cache: Map<CidView, IpldView>,
    node: NodeView,
    base: Seq<Seq<char>>,
    names: Seq<(Seq<char>, V)>,
    i: int,
)
    requires
        sorted_keys(names),
        0 <= i < names.len(),
        node.links.contains_key(names[i].0),
        node.links[names[i].0] is Data,
        now == was.push((base.push(names[i].0), node.links[names[i].0])),
        lists_so_far(was, cache, node, base, names, i),
    ensures
        lists_so_far(now, cache, node, base, names, i + 1),
{
    let key = names[i].0;
    lemma_in_prefix_step(names, i);
    assert forall|j: int| 0 <= j < now.len() implies {
        let p = (#[trigger] now[j]).0;
        &&& p.len() > base.len()
        &&& p.take(base.len() as int) == base
        &&& resolve_from(cache, node, Seq::empty(), p.skip(base.len() as int)) == Ok::<NodeLinkView, MountErrorView>(now[j].1)
    } by {
        if j < was.len() {
            assert(now[j] == was[j]);
        } else {
            let p = now[j].0;
            assert(p.take(base.len() as int) =~= base);
            assert(p.skip(base.len() as int) =~= seq![key]);
        }
    }
    assert forall|path: Seq<Seq<char>>| path.len() >= 1 && in_prefix(names, i + 1, path[0]) && #[trigger] leads_to_link(cache, node, path) implies lists_path(now, base + path) by {
        if in_prefix(names, i, path[0]) {
            let j = choose|j: int| 0 <= j < was.len() && (#[trigger] was[j]).0 == base + path;
            assert(now[j] == was[j]);
        } else {
            assert(path =~= seq![key]);
            assert(base + path =~= base.push(key));
            assert(now[was.len() as int].0 == base.push(key));
        }
    }
    assert forall|a: int| 0 <= a < now.len() implies in_prefix(names, i + 1, (#[trigger] now[a]).0[base.len() as int]) by {
        if a < was.len() {
            assert(now[a] == was[a]);
        }
    }
    assert forall|a: int, b: int| 0 <= a < b < now.len() implies path_lt((#[trigger] now[a]).0, (#[trigger] now[b]).0) by {
        if b < was.len() {
            assert(now[a] == was[a] && now[b] == was[b]);
        } else {
            assert(now[a] == was[a]);
            assert(now[b].0.take(base.len() as int) =~= base);
            lemma_path_lt_at(now[a].0, now[b].0, base.len() as int);
        }
    }
}

/// A list that is right as far as the names before `i` go is right as far
/// as the name at `i` goes, once the directory of that name is added, and
/// after it the links below it.
proof fn lemma_list_one_dir<V>(
    was: Seq<(Seq<Seq<char>>, NodeLinkView)>,
    deeper: Seq<(Seq<Seq<char>>, NodeLinkView)>,
    now: Seq<(Seq<Seq<char>>, NodeLinkView)>,
    cache: Map<CidView, IpldView>,
    node: NodeView,
    child: NodeView,
    base: Seq<Seq<char>>,
    names: Seq<(Seq<char>, V)>,
    i: int,
)
    requires
        sorted_keys(names),
        0 <= i < names.len(),
        node.links.contains_key(names[i].0),
        node.links[names[i].0] is Node,
        cached_node(cache, node.links[names[i].0]->Node_0) == Ok::<NodeView, MountErrorView>(child),
        now == was.push((base.push(names[i].0), node.links[names[i].0])) + deeper,
        lists_reached(deeper, cache, child, base.push(names[i].0)),
        lists_every_link(deeper, cache, child, base.push(names[i].0)),
        paths_rising(deeper),
        lists_so_far(was, cache, node, base, names, i),
    ensures
        lists_so_far(now, cache, node, base, names, i + 1),
{
    let key = names[i].0;
    let inner = base.push(key);
    let at = was.len() as int;
    lemma_in_prefix_step(names, i);
    assert(now[at] == (inner, node.links[key]));
    assert(inner.take(base.len() as int) =~= base);
    assert(inner.skip(base.len() as int) =~= seq![key]);
    assert forall|d: int| 0 <= d < deeper.len() implies {
        let p = (#[trigger] deeper[d]).0;
        &&& p.len() > inner.len()
        &&& p.take(inner.len() as int) == inner
        &&& p.take(base.len() as int) == base
        &&& p[base.len() as int] == key
        &&& resolve_from(cache, node, Seq::empty(), p.skip(base.len() as int)) == Ok::<NodeLinkView, MountErrorView>(deeper[d].1)
    } by {
        let p = deeper[d].0;
        let rel = p.skip(inner.len() as int);
        assert(p.take(inner.len() as int) == inner);
        assert(p[base.len() as int] == inner[base.len() as int]);
        assert(p.take(base.len() as int) =~= inner.take(base.len() as int));
        let mine = p.skip(base.len() as int);
        assert(mine[0] == key);
        assert(mine.skip(1) =~= rel);
        lemma_resolve_found(cache, child, Seq::empty(), Seq::<Seq<char>>::empty().push(key), rel);
    }
    assert forall|j: int| 0 <= j < now.len() implies {
        let p = (#[trigger] now[j]).0;
        &&& p.len() > base.len()
        &&& p.take(base.len() as int) == base
        &&& resolve_from(cache, node, Seq::empty(), p.skip(base.len() as int)) == Ok::<NodeLinkView, MountErrorView>(now[j].1)
    } by {
        if j < at {
            assert(now[j] == was[j]);
        } else if j > at {
            assert(now[j] == deeper[j - at - 1]);
        }
    }
    assert forall|path: Seq<Seq<char>>| path.len() >= 1 && in_prefix(names, i + 1, path[0]) && #[trigger] leads_to_link(cache, node, path) implies lists_path(now, base + path) by {
        if in_prefix(names, i, path[0]) {
            let j = choose|j: int| 0 <= j < was.len() && (#[trigger] was[j]).0 == base + path;
            assert(now[j] == was[j]);
        } else {
            assert(path[0] == key);
            if path.len() == 1 {
                assert(path =~= seq![key]);
                assert(base + path =~= inner);
                assert(now[at].0 == base + path);
            } else {
                let rest = path.skip(1);
                lemma_resolve_found(cache, child, Seq::<Seq<char>>::empty().push(key), Seq::empty(), rest);
                assert(leads_to_link(cache, child, rest));
                assert(lists_path(deeper, inner + rest));
                let d = choose|d: int| 0 <= d < deeper.len() && (#[trigger] deeper[d]).0 == inner + rest;
                assert(inner + rest =~= base + path);
                assert(now[at + 1 + d] == deeper[d]);
            }
        }
    }
    assert forall|a: int| 0 <= a < now.len() implies in_prefix(names, i + 1, (#[trigger] now[a]).0[base.len() as int]) by {
        if a < at {
            assert(now[a] == was[a]);
        } else if a > at {
            assert(now[a] == deeper[a - at - 1]);
        }
    }
    assert forall|a: int, b: int| 0 <= a < b < now.len() implies path_lt((#[trigger] now[a]).0, (#[trigger] now[b]).0) by {
        if b < at {
            assert(now[a] == was[a] && now[b] == was[b]);
        } else if a < at {
            assert(now[a] == was[a]);
            if b > at {
                assert(now[b] == deeper[b - at - 1]);
            }
            lemma_path_lt_at(now[a].0, now[b].0, base.len() as int);
        } else if a == at {
            assert(now[b] == deeper[b - at - 1]);
            lemma_path_lt_longer(inner, now[b].0);
        } else {
            assert(now[a] == deeper[a - at - 1]);
            assert(now[b] == deeper[b - at - 1]);
        }
    }
}

/// Whether a node's links lie no deeper than `depth`: every path that leads
/// from the node to a link has `depth` names at most.
pub open spec fn no_deeper(cache: Map<CidView, IpldView>, node: NodeView, depth: int) -> bool {
    forall|p: Seq<Seq<char>>| #[trigger] resolve_from(cache, node, Seq::empty(), p) is Ok ==> p.len() <= depth
}

/// Adds to `out` the links below `node`, which stands at `base`, each under
/// its full path and in the order of the paths: a directory stands before
/// what it holds. Directories are gone into as deep as `depth` allows. The
/// list is made wherever the cache holds every directory below the node and
/// none lies deeper than `depth`.
pub fn list_below(
    cache: &BlockCache,
    node: &Node,
    base: &Vec<String>,
    depth: usize,
    out: &mut Vec<(Vec<String>, NodeLink)>,
) -> (r: Result<(), MountError>)
    ensures
        r is Ok ==> final(out)@.len() >= old(out)@.len(),
        r is Ok ==> forall|i: int| 0 <= i < old(out)@.len() ==> final(out)@[i] == old(out)@[i],
        r is Ok ==> lists_reached(listing_view(final(out)@).skip(old(out)@.len() as int), cache@, node@, names_view(base@)),
        r is Ok ==> lists_every_link(listing_view(final(out)@).skip(old(out)@.len() as int), cache@, node@, names_view(base@)),
        r is Ok ==> paths_rising(listing_view(final(out)@).skip(old(out)@.len() as int)),
        r is Err && cache_closed(cache@) && holds_node(cache@, node@) ==> r->Err_0 is TooManyBlocks,
        cache_closed(cache@) && holds_node(cache@, node@) && no_deeper(cache@, node@, depth as int) ==> r is Ok,
    decreases depth,
{
    let ghost start = out@.len();
    let ghost entering = out@;
    let ghost prefix = names_view(base@);
    let links = node.get_links();
    let n = links.len();
    let mut i: usize = 0;
    proof {
        assert(listing_view(out@).skip(start as int) =~= Seq::<(Seq<Seq<char>>, NodeLinkView)>::empty());
        if n > 0 {
            lemma_in_prefix_step(links.seq(), 0);
        }
    }
    while i < n
        invariant
            i <= n,
            n == links.seq().len(),
            sorted_keys(links.seq()),
            links_view(links@) == node@.links,
            prefix == names_view(base@),
            out@.len() >= start,
            start == entering.len(),
            forall|j: int| 0 <= j < start ==> out@[j] == entering[j],
            lists_so_far(listing_view(out@).skip(start as int), cache@, node@, prefix, links.seq(), i as int),
        decreases n - i,
    {
        let name = links.key_at(i);
        let ghost key = name@;
        let mut path = base.clone();
        path.push(name.clone());
        proof {
            assert(names_view(path@) =~= prefix.push(key));
            assert(node@.links.contains_key(key));
        }
        let ghost held = out@;
        let ghost was = listing_view(held).skip(start as int);
        match links.value_at(i) {
            NodeLink::Data(cid, object) => {
                let link = NodeLink::Data(
                    cid.clone(),
                    match object {
                        Some(o) => Some(o.clone()),
                        None => None,
                    },
                );
                out.push((path, link));
                proof {
                    let now = listing_view(out@).skip(start as int);
                    assert(now =~= was.push((prefix.push(key), node@.links[key])));
                    lemma_list_one_link(was, now, cache@, node@, prefix, links.seq(), i as int);
                }
            },
            NodeLink::Node(cid) => {
                proof {
                    assert(resolve_from(cache@, node@, Seq::empty(), seq![key]) is Ok);
                }
                if depth == 0 {
                    proof {
                        assert(!no_deeper(cache@, node@, depth as int));
                    }
                    return Err(MountError::TooManyBlocks);
                }
                proof {
                    if cache_closed(cache@) && holds_node(cache@, node@) {
                        let k = choose|k: CidView| cache@.contains_key(k) && #[trigger] cached_node(cache@, k) == Ok::<NodeView, MountErrorView>(node@);
                        assert(cached_node(cache@, k)->Ok_0.links.contains_key(key));
                        assert(cache@.contains_key(cid@));
                        assert(cached_node(cache@, cid@) is Ok);
                    }
                }
                let child = match get_cache(cid, cache) {
                    Ok(child) => child,
                    Err(e) => {
                        return Err(e);
                    },
                };
                proof {
                    if cache_closed(cache@) && holds_node(cache@, node@) && no_deeper(cache@, node@, depth as int) {
                        assert(cached_node(cache@, cid@) == Ok::<NodeView, MountErrorView>(child@));
                        assert(holds_node(cache@, child@));
                        assert forall|q: Seq<Seq<char>>| #[trigger] resolve_from(cache@, child@, Seq::empty(), q) is Ok implies q.len() <= depth - 1 by {
                            let p = seq![key] + q;
                            assert(q.len() >= 1);
                            assert(p[0] == key);
                            assert(p.skip(1) =~= q);
                            lemma_resolve_found(cache@, child@, Seq::empty(), Seq::<Seq<char>>::empty().push(key), q);
                            assert(resolve_from(cache@, node@, Seq::empty(), p) is Ok);
                        }
                    }
                }
                out.push((path.clone(), NodeLink::Node(cid.clone())));
                let ghost listed = out@;
                match list_below(cache, &child, &path, depth - 1, out) {
                    Ok(_) => {},
                    Err(e) => {
                        return Err(e);
                    },
                }
                proof {
                    let now = listing_view(out@).skip(start as int);
                    let deeper = listing_view(out@).skip(listed.len() as int);
                    let entry = (prefix.push(key), node@.links[key]);
                    assert(listing_view(listed).skip(start as int) =~= was.push(entry));
                    assert(now =~= was.push(entry) + deeper) by {
                        assert forall|j: int| 0 <= j < listed.len() implies listing_view(out@)[j] == listing_view(listed)[j] by {
                            assert(out@[j] == listed[j]);
                        }
                    }
                    assert forall|j: int| 0 <= j < start implies out@[j] == entering[j] by {
                        assert(out@[j] == listed[j]);
                        assert(listed[j] == held[j]);
                    }
                    lemma_list_one_dir(was, deeper, now, cache@, node@, child@, prefix, links.seq(), i as int);
                }
            },
        }
        i = i + 1;
    }
    proof {
        lemma_in_prefix_all(links.seq());
        let now = listing_view(out@).skip(start as int);
        assert forall|path: Seq<Seq<char>>| #[trigger] leads_to_link(cache@, node@, path) implies lists_path(now, prefix + path) by {
            assert(path.len() >= 1);
            assert(node@.links.contains_key(path[0]));
            assert(links@.contains_key(path[0]));
            assert(in_prefix(links.seq(), n as int, path[0]));
        }
    }
    Ok(())
}

impl Mount {
    /// The links of the directory at `path`, in the order of their names,
    /// with the directory's schema; or, with `deep`, the links below the
    /// directory, to files and to directories, each under its full path and
    /// in the order of the paths, without a schema. The deep list is made
    /// wherever the cache holds every directory below the path and none lies
    /// deeper than can be counted.
    pub fn ls(&self, path: &str, deep: bool) -> (r: Result<(Vec<(Vec<String>, NodeLink)>, Option<Schema>), MountError>)
        requires
            is_absolute(path@),
        ensures
            match resolve(self@, path_names(path@)) {
                Ok(NodeLinkView::Data(_, _)) => r is Err && r->Err_0@ == MountErrorView::PathNotDir(path_names(path@)),
                Ok(NodeLinkView::Node(cid)) => match cached_node(self@.cache, cid) {
                    Ok(node) => if deep {
                        &&& (r is Ok ==> {
                            &&& r->Ok_0.1 is None
                            &&& lists_reached(listing_view(r->Ok_0.0@), self@.cache, node, path_names(path@))
                            &&& lists_every_link(listing_view(r->Ok_0.0@), self@.cache, node, path_names(path@))
                            &&& paths_rising(listing_view(r->Ok_0.0@))
                        })
                        &&& (r is Err && cache_closed(self@.cache) ==> r->Err_0 is TooManyBlocks)
                        &&& (cache_closed(self@.cache) && no_deeper(self@.cache, node, usize::MAX as int) ==> r is Ok)
                    } else {
                        &&& r is Ok
                        &&& lists_links(listing_view(r->Ok_0.0@), node.links)
                        &&& r->Ok_0.1 is Some == node.schema is Some
                        &&& r->Ok_0.1 is Some ==> r->Ok_0.1->0@ == node.schema->0
                    },
                    Err(e) => r is Err && r->Err_0@ == e,
                },
                Err(e) => r is Err && r->Err_0@ == e,
            },
    {
        let node = match self.node_at(path) {
            Ok(node) => node,
            Err(e) => {
                return Err(e);
            },
        };
        if deep {
            let base = clean_path(path);
            let mut out: Vec<(Vec<String>, NodeLink)> = Vec::new();
            match list_below(&self.block_cache, &node, &base, usize::MAX, &mut out) {
                Ok(_) => {
                    proof {
                        assert(listing_view(out@).skip(0) =~= listing_view(out@));
                    }
                    Ok((out, None))
                },
                Err(e) => Err(e),
            }
        } else {
            let schema = match node.schema() {
                Some(s) => Some(s.clone()),
                None => None,
            };
            Ok((list_links(&node), schema))
        }
    }
}

impl Clone for Mount {
    fn clone(&self) -> (r: Self)
        ensures
            r@ == self@,
    {
        Mount {
            cid: self.cid.clone(),
            manifest: self.manifest.clone(),
            block_cache: self.block_cache.clone(),
            base: self.base.clone(),
        }
    }
}

/// The links of a node in the order of their names, each under the path of
/// its one name.
pub fn list_links(node: &Node) -> (r: Vec<(Vec<String>, NodeLink)>)
    ensures
        lists_links(listing_view(r@), node@.links),
{
    let links = node.get_links();
    let n = links.len();
    let mut out: Vec<(Vec<String>, NodeLink)> = Vec::new();
    let mut i: usize = 0;
    while i < n
        invariant
            i <= n,
            n == links.seq().len(),
            sorted_keys(links.seq()),
            links_view(links@) == node@.links,
            out@.len() == i,
            forall|j: int| 0 <= j < i ==> (#[trigger] listing_view(out@)[j]).0 == seq![links.seq()[j].0] && listing_view(out@)[j].1 == links.seq()[j].1@,
        decreases n - i,
    {
        let mut path: Vec<String> = Vec::new();
        path.push(links.key_at(i).clone());
        let link = links.value_at(i).clone();
        proof {
            assert(names_view(path@) =~= seq![links.seq()[i as int].0]);
        }
        let ghost before = out@;
        out.push((path, link));
        proof {
            assert forall|j: int| 0 <= j < i + 1 implies (#[trigger] listing_view(out@)[j]).0 == seq![links.seq()[j].0] && listing_view(out@)[j].1 == links.seq()[j].1@ by {
                if j < i {
                    assert(out@[j] == before[j]);
                    assert(listing_view(before)[j].0 == seq![links.seq()[j].0]);
                }
            }
        }
        i = i + 1;
    }
    proof {
        let listing = listing_view(out@);
        crate::sorted_map::lemma_sorted_entries(links.seq());
        lemma_in_prefix_all(links.seq());
        assert forall|j: int| 0 <= j < listing.len() implies (#[trigger] listing[j]).0.len() == 1 && node@.links.contains_key(listing[j].0[0]) && node@.links[listing[j].0[0]] == listing[j].1 by {
            assert(listing[j].0 == seq![links.seq()[j].0]);
            assert(links@.contains_key(links.seq()[j].0));
        }
        assert forall|a: int, b: int| 0 <= a < b < listing.len() implies name_lt((#[trigger] listing[a]).0[0], (#[trigger] listing[b]).0[0]) by {
            assert(listing[a].0 == seq![links.seq()[a].0]);
            assert(listing[b].0 == seq![links.seq()[b].0]);
            assert(name_lt(links.seq()[a].0, links.seq()[b].0));
        }
        assert forall|name: Seq<char>| #[trigger] node@.links.contains_key(name) implies exists|j: int| 0 <= j < listing.len() && (#[trigger] listing[j]).0 == seq![name] by {
            assert(links@.contains_key(name));
            assert(in_prefix(links.seq(), n as int, name));
            let j = choose|j: int| 0 <= j < n && j < links.seq().len() && (#[trigger] links.seq()[j]).0 == name;
            assert(listing[j].0 == seq![name]);
        }
    }
    out
}

} // verus!
