//! What holds of the mount whatever the paths, the blocks and the objects:
//! written forms are read back, a file that is added and taken away again
//! leaves no trace, and attaching the same object twice changes nothing the
//! second time.

use vstd::prelude::*;

use crate::cid::{default_cid, CidView, RAW_CODEC};
use crate::codec::{ipld_cid};
use crate::ipld::IpldView;
use crate::manifest::{ipld_manifest, lemma_manifest_round_trip, manifest_cid, manifest_ipld, ManifestErrorView, ManifestView, VersionView};
use crate::mount::{add_link_spec, new_mount, push_spec, resolve, resolve_from, rewrite_from_root, rm_spec, root_node, schema_in_force_at, schema_in_force_from, set_schema_spec, tag_spec, MountView};
use crate::schema::validation_result;
use crate::node::{empty_node, ipld_node, is_reserved, lemma_node_round_trip, link_for, node_cid, node_ipld, node_writable, put_link_spec, put_object_spec, stamped, NodeErrorView, NodeLinkView, NodeView};
use crate::object::{ipld_object, lemma_object_round_trip, object_ipld, object_writable, touched, ObjectErrorView, ObjectView};
use crate::timestamp::timestamp_accepted;
use crate::schema::{ipld_schema, lemma_schema_ipld_round_trip, schema_ipld, SchemaErrorView, SchemaView};
use crate::upsert::{attach_terminal, cache_extends, cached_node, come_up, is_install, is_removal, place_terminal, put_node, schema_below, schema_here, step_down, store_node, upsert_spec, upsert_terminal, MountErrorView, UpsertView};

verus! {

/// A node comes back from its written form.
pub proof fn law_node_round_trip(node: NodeView)
    requires
        node_writable(node),
    ensures
        ipld_node(node_ipld(node)) == Ok::<NodeView, NodeErrorView>(node),
{
    lemma_node_round_trip(node);
}

/// The schema of a node comes back from the node's written form wherever
/// the written form is read as a node, whether or not the objects that are
/// attached in the node come back whole. A node without schema is left
/// out where one of its links bears the name that is kept for the schema.
pub proof fn law_node_schema_round_trip(node: NodeView)
    requires
        node.schema is None ==> !node.links.contains_key(crate::node::schema_key()),
        ipld_node(node_ipld(node)) is Ok,
    ensures
        ipld_node(node_ipld(node))->Ok_0.schema == node.schema,
{
    crate::node::lemma_reserved_keys_differ();
    let m = crate::node::node_entries(node);
    if node.schema is Some {
        lemma_schema_ipld_round_trip(node.schema->0);
        assert(m.contains_key(crate::node::schema_key()));
    } else {
        assert(!m.contains_key(crate::node::schema_key()));
    }
}

/// A manifest comes back from its written form.
pub proof fn law_manifest_round_trip(manifest: ManifestView)
    ensures
        ipld_manifest(manifest_ipld(manifest)) == Ok::<ManifestView, ManifestErrorView>(manifest),
{
    lemma_manifest_round_trip(manifest);
}

/// An object comes back from its written form.
pub proof fn law_object_round_trip(object: ObjectView)
    requires
        object_writable(object),
    ensures
        ipld_object(object_ipld(object)) == Ok::<ObjectView, ObjectErrorView>(object),
{
    lemma_object_round_trip(object);
}

/// A schema comes back from its written form.
pub proof fn law_schema_round_trip(schema: SchemaView)
    ensures
        ipld_schema(schema_ipld(schema)) == Ok::<SchemaView, SchemaErrorView>(schema),
{
    lemma_schema_ipld_round_trip(schema);
}

/// The same node has the same identifier, and so has the same manifest.
pub proof fn law_identifier_stable(a: NodeView, b: NodeView, m: ManifestView, n: ManifestView)
    ensures
        a == b ==> node_cid(a) == node_cid(b),
        m == n ==> manifest_cid(m) == manifest_cid(n),
{
}

/// The node with the one link `name`.
pub open spec fn single_link(name: Seq<char>, link: NodeLinkView) -> NodeView {
    NodeView { links: Map::<Seq<char>, NodeLinkView>::empty().insert(name, link), schema: None }
}

/// The node that stands at the head of the directories made for a file at
/// `path`, where nothing stood before: it holds the file where the path is
/// one name, else the directory for the rest of the path.
pub open spec fn chain_node(path: Seq<Seq<char>>, cid: CidView) -> NodeView
    decreases path.len(),
{
    if path.len() <= 1 {
        single_link(path[0], link_for(cid))
    } else {
        single_link(path[0], NodeLinkView::Node(node_cid(chain_node(path.skip(1), cid))->0))
    }
}

/// Whether the cache holds each node of the chain for `path` under the node's
/// identifier, and each of them comes back from its written form.
pub open spec fn chain_cached(cache: Map<CidView, IpldView>, path: Seq<Seq<char>>, cid: CidView) -> bool
    decreases path.len(),
{
    let node = chain_node(path, cid);
    &&& node_cid(node) is Some
    &&& cache.contains_key(node_cid(node)->0)
    &&& cache[node_cid(node)->0] == node_ipld(node)
    &&& node_writable(node)
    &&& (path.len() > 1 ==> chain_cached(cache, path.skip(1), cid))
}

/// What a cache holds of a chain, a cache that extends it holds too.
proof fn lemma_chain_cached_extends(cache: Map<CidView, IpldView>, wider: Map<CidView, IpldView>, path: Seq<Seq<char>>, cid: CidView)
    requires
        chain_cached(cache, path, cid),
        cache_extends(cache, wider),
    ensures
        chain_cached(wider, path, cid),
    decreases path.len(),
{
    if path.len() > 1 {
        lemma_chain_cached_extends(cache, wider, path.skip(1), cid);
    }
}

/// An identifier of a written block is neither the identifier for "none" nor
/// that of a payload.
proof fn lemma_structured(value: IpldView)
    requires
        ipld_cid(value) is Some,
    ensures
        ipld_cid(value)->0 != default_cid(),
        ipld_cid(value)->0.codec != RAW_CODEC,
        link_for(ipld_cid(value)->0) == NodeLinkView::Node(ipld_cid(value)->0),
{
}

/// Putting a file at a path below a node without links makes the chain of
/// directories for the path, and writes each of its nodes into the cache.
proof fn lemma_add_chain(
    consumed: Seq<Seq<char>>,
    path: Seq<Seq<char>>,
    cid: CidView,
    schema: Option<(SchemaView, bool)>,
    cache: Map<CidView, IpldView>,
)
    requires
        path.len() >= 1,
        !is_install(schema),
        upsert_spec(empty_node(), consumed, path, Some(cid), None, schema, cache).result is Ok,
    ensures
        ({
            let u = upsert_spec(empty_node(), consumed, path, Some(cid), None, schema, cache);
            &&& u.result == Ok::<Option<CidView>, MountErrorView>(Some(node_cid(chain_node(path, cid))->0))
            &&& cache_extends(cache, u.cache)
            &&& chain_cached(u.cache, path, cid)
        }),
    decreases path.len(),
{
    let u = upsert_spec(empty_node(), consumed, path, Some(cid), None, schema, cache);
    let name = path[0];
    let here = consumed.push(name);
    if path.len() == 1 {
        let placed = put_link_spec(empty_node(), name, cid);
        assert(placed is Ok);
        let node = placed->Ok_0;
        assert(node.links =~= chain_node(path, cid).links);
        assert(node == chain_node(path, cid));
        assert(u == store_node(node, cache));
        assert(node_writable(node));
    } else {
        let down = step_down(empty_node(), here, name, Some(cid), schema, cache);
        assert(down is Ok);
        let cache1 = match down {
            Ok(Some((_, c))) => c,
            _ => cache,
        };
        assert(cache_extends(cache, cache1));
        let below_schema = schema_below(empty_node(), schema);
        let below = upsert_spec(empty_node(), here, path.skip(1), Some(cid), None, below_schema, cache1);
        assert(u == come_up(empty_node(), name, below));
        lemma_add_chain(here, path.skip(1), cid, below_schema, cache1);
        let child_cid = node_cid(chain_node(path.skip(1), cid))->0;
        lemma_structured(node_ipld(chain_node(path.skip(1), cid)));
        let bound = put_link_spec(empty_node(), name, child_cid);
        assert(bound is Ok);
        let node = bound->Ok_0;
        assert(node.links =~= chain_node(path, cid).links);
        assert(node == chain_node(path, cid));
        assert(u == store_node(node, below.cache));
        assert(node_writable(node));
        lemma_chain_cached_extends(below.cache, u.cache, path.skip(1), cid);
    }
}

/// Taking the file of a chain away takes the whole chain away, and writes
/// nothing.
proof fn lemma_rm_chain(consumed: Seq<Seq<char>>, path: Seq<Seq<char>>, cid: CidView, cache: Map<CidView, IpldView>)
    requires
        path.len() >= 1,
        chain_cached(cache, path, cid),
    ensures
        ({
            let u = upsert_spec(chain_node(path, cid), consumed, path, None, None, None, cache);
            &&& u.result == Ok::<Option<CidView>, MountErrorView>(Some(default_cid()))
            &&& u.cache == cache
        }),
    decreases path.len(),
{
    let node = chain_node(path, cid);
    let name = path[0];
    let here = consumed.push(name);
    assert(node.links.remove(name) =~= Map::<Seq<char>, NodeLinkView>::empty());
    if path.len() > 1 {
        let child = chain_node(path.skip(1), cid);
        assert(chain_cached(cache, path.skip(1), cid));
        lemma_structured(node_ipld(child));
        lemma_node_round_trip(child);
        assert(cached_node(cache, node_cid(child)->0) == Ok::<NodeView, MountErrorView>(child));
        lemma_rm_chain(here, path.skip(1), cid, cache);
        assert(schema_below(node, None) == None::<(SchemaView, bool)>);
    }
}

/// A file that is put into a mount at its beginning and taken away again
/// leaves the mount with the manifest and the identifier of its beginning.
pub proof fn law_add_then_rm(version: VersionView, path: Seq<Seq<char>>, cid: CidView)
    requires
        path.len() >= 1,
        new_mount(version) is Ok,
        add_link_spec(new_mount(version)->Ok_0, path, cid) is Ok,
    ensures
        ({
            let begun = new_mount(version)->Ok_0;
            let added = add_link_spec(begun, path, cid)->Ok_0;
            &&& rm_spec(added, path) is Ok
            &&& rm_spec(added, path)->Ok_0.cid == begun.cid
            &&& rm_spec(added, path)->Ok_0.manifest == begun.manifest
        }),
{
    let begun = new_mount(version)->Ok_0;
    let empty_cid = node_cid(empty_node())->0;
    assert(node_writable(empty_node()));
    lemma_node_round_trip(empty_node());
    assert(root_node(begun) == Ok::<NodeView, MountErrorView>(empty_node()));
    let u = rewrite_from_root(begun, path, Some(cid), None, None);
    lemma_add_chain(Seq::empty(), path, cid, None, begun.cache);
    let head = chain_node(path, cid);
    let head_cid = node_cid(head)->0;
    lemma_structured(node_ipld(head));
    let added = add_link_spec(begun, path, cid)->Ok_0;
    assert(added.cache == u.cache);
    assert(added.manifest.data == head_cid);
    lemma_node_round_trip(head);
    assert(root_node(added) == Ok::<NodeView, MountErrorView>(head));
    lemma_rm_chain(Seq::empty(), path, cid, added.cache);
    let v = rewrite_from_root(added, path, None, None, None);
    assert(v.result == Ok::<Option<CidView>, MountErrorView>(Some(default_cid())));
    assert(added.cache.contains_key(empty_cid) && added.cache[empty_cid] == node_ipld(empty_node()));
    let back = put_node(added.cache, empty_node());
    assert(back is Ok);
    assert(match back {
        Ok((_, c)) => c == empty_cid,
        Err(_) => false,
    });
    assert(ManifestView { data: empty_cid, ..added.manifest } == begun.manifest);
}

/// Whether every node that the cache holds comes back from its written form.
pub open spec fn cache_writable(cache: Map<CidView, IpldView>) -> bool {
    forall|k: CidView| #[trigger] cache.contains_key(k) && ipld_node(cache[k]) is Ok ==> node_writable(ipld_node(cache[k])->Ok_0)
}

/// A cache whose nodes come back from their written forms still is one after
/// a node that comes back from its written form is written into it.
proof fn lemma_put_keeps_writable(cache: Map<CidView, IpldView>, node: NodeView)
    requires
        cache_writable(cache),
        node_writable(node),
    ensures
        put_node(cache, node) is Ok ==> cache_writable(
            match put_node(cache, node) {
                Ok((stored, _)) => stored,
                Err(_) => cache,
            },
        ),
        cache_writable(store_node(node, cache).cache),
{
    lemma_node_round_trip(node);
}

/// A node that comes back from its written form still does after it loses a link.
pub proof fn lemma_writable_after_drop(node: NodeView, name: Seq<char>)
    requires
        node_writable(node),
    ensures
        node_writable(NodeView { links: node.links.remove(name), ..node }),
{
    let left = NodeView { links: node.links.remove(name), ..node };
    assert forall|k: Seq<char>| #[trigger] left.links.contains_key(k) implies {
        &&& !is_reserved(k)
        &&& match left.links[k] {
            NodeLinkView::Data(c, None) => c.codec == RAW_CODEC,
            NodeLinkView::Data(_, Some(o)) => object_writable(o),
            NodeLinkView::Node(c) => c.codec != RAW_CODEC,
        }
    } by {
        assert(node.links.contains_key(k));
    }
}

/// The last step of a rewrite keeps a cache whose nodes come back from their
/// written forms such a cache, and hands on a node that comes back from its own.
#[verifier::rlimit(60)]
proof fn lemma_terminal_keeps_writable(
    node: NodeView,
    consumed: Seq<Seq<char>>,
    name: Seq<char>,
    link: Option<CidView>,
    object: Option<ObjectView>,
    schema: Option<(SchemaView, bool)>,
    cache: Map<CidView, IpldView>,
)
    requires
        node_writable(node),
        cache_writable(cache),
        object is Some ==> object_writable(object->0),
    ensures
        cache_writable(upsert_terminal(node, consumed, name, link, object, schema, cache).cache),
        upsert_terminal(node, consumed, name, link, object, schema, cache).result is Ok ==> node_writable(
            upsert_terminal(node, consumed, name, link, object, schema, cache).node,
        ),
{
    let here = consumed.push(name);
    let u = upsert_terminal(node, consumed, name, link, object, schema, cache);
    if is_removal(link, object, schema) {
        if node.links.contains_key(name) {
            lemma_writable_after_drop(node, name);
            let left = NodeView { links: node.links.remove(name), ..node };
            lemma_put_keeps_writable(cache, left);
        }
    } else {
        let placed = place_terminal(node, here, name, link, object, schema, cache);
        if placed is Ok {
            let (p, c2) = placed->Ok_0;
            assert(cache_writable(c2) && node_writable(p)) by {
                if link is Some {
                    lemma_writable_after_bind(node, name, link_for(link->0));
                } else if is_install(schema) {
                    let to_set = crate::upsert::handed_schema(schema);
                    if node.links.contains_key(name) {
                        match node.links[name] {
                            NodeLinkView::Node(child_cid) => {
                                let child = cached_node(cache, child_cid)->Ok_0;
                                let set = NodeView { schema: Some(to_set), ..child };
                                assert(node_writable(child));
                                assert(node_writable(set));
                                lemma_put_keeps_writable(cache, set);
                                lemma_structured(node_ipld(set));
                                lemma_writable_after_bind(node, name, NodeLinkView::Node(node_cid(set)->0));
                            },
                            NodeLinkView::Data(_, _) => {},
                        }
                    } else {
                        let set = NodeView { schema: Some(to_set), ..empty_node() };
                        assert(node_writable(set));
                        lemma_put_keeps_writable(cache, set);
                        lemma_structured(node_ipld(set));
                        lemma_writable_after_bind(node, name, NodeLinkView::Node(node_cid(set)->0));
                    }
                }
            }
            let attached = attach_terminal(p, here, name, object, schema_here(node, schema));
            if attached is Ok {
                let a = attached->Ok_0;
                assert(node_writable(a)) by {
                    if object is Some {
                        let prior = p.links[name]->Data_1;
                        let data = p.links[name]->Data_0;
                        assert(p.links.contains_key(name));
                        assert(object_writable(stamped(object->0, prior)));
                        lemma_writable_after_bind(p, name, NodeLinkView::Data(data, Some(stamped(object->0, prior))));
                    }
                }
                lemma_put_keeps_writable(c2, a);
            }
        }
    }
}

/// A rewrite keeps a cache whose nodes come back from their written forms
/// such a cache, and hands on a node that comes back from its own.
#[verifier::rlimit(60)]
pub proof fn lemma_upsert_keeps_writable(
    node: NodeView,
    consumed: Seq<Seq<char>>,
    path: Seq<Seq<char>>,
    link: Option<CidView>,
    object: Option<ObjectView>,
    schema: Option<(SchemaView, bool)>,
    cache: Map<CidView, IpldView>,
)
    requires
        path.len() >= 1,
        node_writable(node),
        cache_writable(cache),
        object is Some ==> object_writable(object->0),
    ensures
        cache_writable(upsert_spec(node, consumed, path, link, object, schema, cache).cache),
        upsert_spec(node, consumed, path, link, object, schema, cache).result is Ok ==> node_writable(
            upsert_spec(node, consumed, path, link, object, schema, cache).node,
        ),
    decreases path.len(),
{
    let name = path[0];
    let here = consumed.push(name);
    if path.len() == 1 {
        lemma_terminal_keeps_writable(node, consumed, name, link, object, schema, cache);
    } else {
        let down = step_down(node, here, name, link, schema, cache);
        match down {
            Ok(Some((child, cache2))) => {
                assert(node_writable(child) && cache_writable(cache2)) by {
                    if node.links.contains_key(name) {
                    } else {
                        assert(node_writable(empty_node()));
                        lemma_put_keeps_writable(cache, empty_node());
                    }
                }
                let below = upsert_spec(child, here, path.skip(1), link, object, schema_below(node, schema), cache2);
                lemma_upsert_keeps_writable(child, here, path.skip(1), link, object, schema_below(node, schema), cache2);
                match below.result {
                    Ok(Some(cid)) => {
                        if cid == default_cid() {
                            lemma_writable_after_drop(node, name);
                            lemma_put_keeps_writable(below.cache, NodeView { links: node.links.remove(name), ..node });
                        } else {
                            let bound = put_link_spec(node, name, cid);
                            if bound is Ok {
                                lemma_writable_after_bind(node, name, link_for(cid));
                                lemma_put_keeps_writable(below.cache, bound->Ok_0);
                            }
                        }
                    },
                    _ => {},
                }
            },
            _ => {},
        }
    }
}

/// Whether a mount is sound: its root node is in its cache, and every node
/// of its cache comes back from its written form.
pub open spec fn mount_sound(m: MountView) -> bool {
    root_node(m) is Ok && cache_writable(m.cache)
}

/// A mount at its beginning is sound.
pub proof fn law_new_mount_sound(version: VersionView)
    requires
        new_mount(version) is Ok,
    ensures
        mount_sound(new_mount(version)->Ok_0),
{
    assert(node_writable(empty_node()));
    lemma_node_round_trip(empty_node());
    assert(cache_writable(Map::<CidView, IpldView>::empty()));
    lemma_put_keeps_writable(Map::empty(), empty_node());
}

/// A sound mount stays sound when a file is put into it or taken away,
/// when a file is given an object that comes back from its written form,
/// and when a directory is given a schema.
pub proof fn law_mount_stays_sound(
    m: MountView,
    path: Seq<Seq<char>>,
    cid: CidView,
    object: ObjectView,
    now: i128,
    schema: SchemaView,
)
    requires
        mount_sound(m),
        path.len() >= 1,
        object_writable(object),
        timestamp_accepted(now),
    ensures
        add_link_spec(m, path, cid) is Ok ==> mount_sound(add_link_spec(m, path, cid)->Ok_0),
        rm_spec(m, path) is Ok ==> mount_sound(rm_spec(m, path)->Ok_0),
        tag_spec(m, path, object, now) is Ok ==> mount_sound(tag_spec(m, path, object, now)->Ok_0),
        set_schema_spec(m, path, schema) is Ok ==> mount_sound(set_schema_spec(m, path, schema)->Ok_0),
{
    lemma_settle_sound(m, path, Some(cid), None, None);
    lemma_settle_sound(m, path, None, None, None);
    lemma_settle_sound(m, path, None, Some(touched(object, now)), None);
    lemma_settle_sound(m, path, None, None, Some((schema, true)));
}

/// A sound mount is sound after a rewrite from its root has ended.
pub proof fn lemma_settle_sound(
    m: MountView,
    path: Seq<Seq<char>>,
    link: Option<CidView>,
    object: Option<ObjectView>,
    schema: Option<(SchemaView, bool)>,
)
    requires
        mount_sound(m),
        path.len() >= 1,
        object is Some ==> object_writable(object->0),
    ensures
        crate::mount::settle(m, rewrite_from_root(m, path, link, object, schema)) is Ok ==> mount_sound(
            crate::mount::settle(m, rewrite_from_root(m, path, link, object, schema))->Ok_0,
        ),
{
    let root = root_node(m)->Ok_0;
    assert(node_writable(root));
    let u = rewrite_from_root(m, path, link, object, schema);
    lemma_upsert_keeps_writable(root, Seq::empty(), path, link, object, schema, m.cache);
    lemma_upsert_extends(root, Seq::empty(), path, link, object, schema, m.cache);
    match u.result {
        Ok(Some(cid)) => {
            if cid == default_cid() {
                assert(node_writable(empty_node()));
                lemma_put_keeps_writable(u.cache, empty_node());
                lemma_node_round_trip(empty_node());
            } else {
                lemma_upsert_root_cached(root, Seq::empty(), path, link, object, schema, m.cache);
            }
        },
        Ok(None) => {
            assert(u.cache[m.manifest.data] == m.cache[m.manifest.data]);
        },
        Err(_) => {},
    }
}

/// A rewrite keeps what the cache holds.
pub proof fn lemma_upsert_extends(
    node: NodeView,
    consumed: Seq<Seq<char>>,
    path: Seq<Seq<char>>,
    link: Option<CidView>,
    object: Option<ObjectView>,
    schema: Option<(SchemaView, bool)>,
    cache: Map<CidView, IpldView>,
)
    requires
        path.len() >= 1,
    ensures
        cache_extends(cache, upsert_spec(node, consumed, path, link, object, schema, cache).cache),
    decreases path.len(),
{
    let name = path[0];
    let here = consumed.push(name);
    let u = upsert_spec(node, consumed, path, link, object, schema, cache);
    if path.len() == 1 {
        if !is_removal(link, object, schema) {
            match place_terminal(node, here, name, link, object, schema, cache) {
                Ok((placed, cache2)) => {
                    assert(cache_extends(cache, cache2));
                    match attach_terminal(placed, here, name, object, schema_here(node, schema)) {
                        Ok(attached) => {
                            assert(cache_extends(cache2, store_node(attached, cache2).cache));
                        },
                        Err(_) => {},
                    }
                },
                Err(_) => {},
            }
        }
    } else {
        match step_down(node, here, name, link, schema, cache) {
            Ok(Some((child, cache2))) => {
                assert(cache_extends(cache, cache2));
                let below = upsert_spec(child, here, path.skip(1), link, object, schema_below(node, schema), cache2);
                lemma_upsert_extends(child, here, path.skip(1), link, object, schema_below(node, schema), cache2);
                assert(u == come_up(node, name, below));
                assert(cache_extends(below.cache, u.cache)) by {
                    match below.result {
                        Ok(Some(cid)) => {
                            if cid != default_cid() {
                                match put_link_spec(node, name, cid) {
                                    Ok(bound) => {
                                        assert(cache_extends(below.cache, store_node(bound, below.cache).cache));
                                    },
                                    Err(_) => {},
                                }
                            }
                        },
                        _ => {},
                    }
                }
            },
            _ => {},
        }
    }
}

/// A rewrite that hands up an identifier has written a node under it that
/// is read back as a node.
proof fn lemma_upsert_root_cached(
    node: NodeView,
    consumed: Seq<Seq<char>>,
    path: Seq<Seq<char>>,
    link: Option<CidView>,
    object: Option<ObjectView>,
    schema: Option<(SchemaView, bool)>,
    cache: Map<CidView, IpldView>,
)
    requires
        path.len() >= 1,
        node_writable(node),
        cache_writable(cache),
        object is Some ==> object_writable(object->0),
        upsert_spec(node, consumed, path, link, object, schema, cache).result is Ok,
        upsert_spec(node, consumed, path, link, object, schema, cache).result->Ok_0 is Some,
        upsert_spec(node, consumed, path, link, object, schema, cache).result->Ok_0->0 != default_cid(),
    ensures
        cached_node(
            upsert_spec(node, consumed, path, link, object, schema, cache).cache,
            upsert_spec(node, consumed, path, link, object, schema, cache).result->Ok_0->0,
        ) is Ok,
{
    let u = upsert_spec(node, consumed, path, link, object, schema, cache);
    lemma_upsert_keeps_writable(node, consumed, path, link, object, schema, cache);
    lemma_upsert_written(node, consumed, path, link, object, schema, cache);
    lemma_node_round_trip(u.node);
}

/// A rewrite that hands up an identifier has written its node under it.
pub proof fn lemma_upsert_written(
    node: NodeView,
    consumed: Seq<Seq<char>>,
    path: Seq<Seq<char>>,
    link: Option<CidView>,
    object: Option<ObjectView>,
    schema: Option<(SchemaView, bool)>,
    cache: Map<CidView, IpldView>,
)
    requires
        path.len() >= 1,
        upsert_spec(node, consumed, path, link, object, schema, cache).result is Ok,
        upsert_spec(node, consumed, path, link, object, schema, cache).result->Ok_0 is Some,
        upsert_spec(node, consumed, path, link, object, schema, cache).result->Ok_0->0 != default_cid(),
    ensures
        ({
            let u = upsert_spec(node, consumed, path, link, object, schema, cache);
            u.cache.contains_key(u.result->Ok_0->0) && u.cache[u.result->Ok_0->0] == node_ipld(u.node)
        }),
{
    let name = path[0];
    let here = consumed.push(name);
    let u = upsert_spec(node, consumed, path, link, object, schema, cache);
    if path.len() == 1 {
        if is_removal(link, object, schema) {
        } else {
            let placed = place_terminal(node, here, name, link, object, schema, cache);
        }
    } else {
        let down = step_down(node, here, name, link, schema, cache);
        match down {
            Ok(Some((child, cache2))) => {
                let below = upsert_spec(child, here, path.skip(1), link, object, schema_below(node, schema), cache2);
                match below.result {
                    Ok(Some(cid)) => {
                        if cid != default_cid() {
                            let bound = put_link_spec(node, name, cid);
                        }
                    },
                    _ => {},
                }
            },
            _ => {},
        }
    }
}

/// Whether a rewrite ended with a node written under the identifier `cid`,
/// and nothing else changed.
pub open spec fn ends_at(u: UpsertView, node: NodeView, cid: CidView, cache: Map<CidView, IpldView>) -> bool {
    u == (UpsertView { result: Ok(Some(cid)), node, cache })
}

/// Stamping an object with the time of creation of its own stamped form
/// gives the stamped form.
proof fn lemma_stamped_again(object: ObjectView, prior: Option<ObjectView>)
    ensures
        stamped(object, Some(stamped(object, prior))) == stamped(object, prior),
{
}

/// What holds after an object is attached along a path: the node that was
/// written stands in the cache under its identifier and comes back from its
/// written form; and attaching the object again from that node, with a cache
/// that has kept what was written, writes nothing and hands up the same
/// identifier.
pub open spec fn attached_for_good(
    node: NodeView,
    consumed: Seq<Seq<char>>,
    path: Seq<Seq<char>>,
    object: ObjectView,
    schema: Option<(SchemaView, bool)>,
    cache: Map<CidView, IpldView>,
    wider: Map<CidView, IpldView>,
) -> bool {
    let u = upsert_spec(node, consumed, path, None, Some(object), schema, cache);
    let cid = u.result->Ok_0->0;
    &&& node_cid(u.node) == Some(cid)
    &&& u.cache.contains_key(cid)
    &&& u.cache[cid] == node_ipld(u.node)
    &&& node_writable(u.node)
    &&& u.node.schema == node.schema
    &&& cache_extends(cache, u.cache)
    &&& ends_at(upsert_spec(u.node, consumed, path, None, Some(object), schema, wider), u.node, cid, wider)
}

/// A node that comes back from its written form still does after one of its
/// links is bound to a written node, or to a file with an object that comes
/// back from its own.
proof fn lemma_writable_after_bind(node: NodeView, name: Seq<char>, link: NodeLinkView)
    requires
        node_writable(node),
        !is_reserved(name),
        match link {
            NodeLinkView::Data(c, None) => c.codec == RAW_CODEC,
            NodeLinkView::Data(_, Some(o)) => object_writable(o),
            NodeLinkView::Node(c) => c.codec != RAW_CODEC,
        },
    ensures
        node_writable(NodeView { links: node.links.insert(name, link), ..node }),
{
    let n1 = NodeView { links: node.links.insert(name, link), ..node };
    assert forall|k: Seq<char>| #[trigger] n1.links.contains_key(k) implies {
        &&& !is_reserved(k)
        &&& match n1.links[k] {
            NodeLinkView::Data(c, None) => c.codec == RAW_CODEC,
            NodeLinkView::Data(_, Some(o)) => object_writable(o),
            NodeLinkView::Node(c) => c.codec != RAW_CODEC,
        }
    } by {
        if k != name {
            assert(node.links.contains_key(k));
        }
    }
}

/// Writing a node again into a cache that holds it writes nothing.
proof fn lemma_store_again(node: NodeView, cid: CidView, wider: Map<CidView, IpldView>)
    requires
        node_cid(node) == Some(cid),
        wider.contains_key(cid),
        wider[cid] == node_ipld(node),
    ensures
        ends_at(store_node(node, wider), node, cid, wider),
{
    assert(wider.insert(cid, node_ipld(node)) =~= wider);
}

/// The object of a file is attached for good.
#[verifier::rlimit(40)]
proof fn lemma_tag_again_terminal(
    node: NodeView,
    consumed: Seq<Seq<char>>,
    path: Seq<Seq<char>>,
    object: ObjectView,
    schema: Option<(SchemaView, bool)>,
    cache: Map<CidView, IpldView>,
    wider: Map<CidView, IpldView>,
)
    requires
        path.len() == 1,
        object_writable(object),
        node_writable(node),
        !is_install(schema),
        upsert_spec(node, consumed, path, None, Some(object), schema, cache).result is Ok,
        upsert_spec(node, consumed, path, None, Some(object), schema, cache).result->Ok_0 is Some,
        cache_extends(upsert_spec(node, consumed, path, None, Some(object), schema, cache).cache, wider),
    ensures
        attached_for_good(node, consumed, path, object, schema, cache, wider),
{
    let u = upsert_spec(node, consumed, path, None, Some(object), schema, cache);
    let cid = u.result->Ok_0->0;
    let name = path[0];
    let here = consumed.push(name);
    let placed = place_terminal(node, here, name, None, Some(object), schema, cache);
    assert(placed is Ok);
    assert(node.links.contains_key(name) && node.links[name] is Data);
    let held_to = schema_here(node, schema);
    let attached = attach_terminal(node, here, name, Some(object), held_to);
    assert(attached is Ok);
    let n1 = attached->Ok_0;
    assert(u == store_node(n1, cache));
    let prior = node.links[name]->Data_1;
    let data = node.links[name]->Data_0;
    let o1 = stamped(object, prior);
    assert(object_writable(o1));
    lemma_writable_after_bind(node, name, NodeLinkView::Data(data, Some(o1)));
    assert(n1 == NodeView { links: node.links.insert(name, NodeLinkView::Data(data, Some(o1))), ..node });
    crate::upsert::lemma_put_node_extends(cache, n1);
    lemma_stamped_again(object, prior);
    assert(n1.links.insert(name, NodeLinkView::Data(data, Some(o1))) =~= n1.links);
    assert(place_terminal(n1, here, name, None, Some(object), schema, wider) == Ok::<(NodeView, Map<CidView, IpldView>), MountErrorView>((n1, wider)));
    assert(put_object_spec(n1, name, object, schema_here(n1, schema)) == Ok::<NodeView, NodeErrorView>(n1));
    assert(attach_terminal(n1, here, name, Some(object), schema_here(n1, schema)) == Ok::<NodeView, MountErrorView>(n1));
    assert(u.cache.contains_key(cid) && u.cache[cid] == node_ipld(n1));
    lemma_store_again(n1, cid, wider);
}

/// An object that is attached along a path is attached for good.
#[verifier::rlimit(60)]
proof fn lemma_tag_again(
    node: NodeView,
    consumed: Seq<Seq<char>>,
    path: Seq<Seq<char>>,
    object: ObjectView,
    schema: Option<(SchemaView, bool)>,
    cache: Map<CidView, IpldView>,
    wider: Map<CidView, IpldView>,
)
    requires
        path.len() >= 1,
        object_writable(object),
        node_writable(node),
        cache_writable(cache),
        !is_install(schema),
        upsert_spec(node, consumed, path, None, Some(object), schema, cache).result is Ok,
        upsert_spec(node, consumed, path, None, Some(object), schema, cache).result->Ok_0 is Some,
        cache_extends(upsert_spec(node, consumed, path, None, Some(object), schema, cache).cache, wider),
    ensures
        attached_for_good(node, consumed, path, object, schema, cache, wider),
    decreases path.len(),
{
    let u = upsert_spec(node, consumed, path, None, Some(object), schema, cache);
    let cid = u.result->Ok_0->0;
    let name = path[0];
    let here = consumed.push(name);
    if path.len() == 1 {
        lemma_tag_again_terminal(node, consumed, path, object, schema, cache, wider);
    } else {
        let down = step_down(node, here, name, None, schema, cache);
        assert(down is Ok && down->Ok_0 is Some);
        assert(node.links.contains_key(name));
        let child_cid = node.links[name]->Node_0;
        let child = cached_node(cache, child_cid)->Ok_0;
        assert(node_writable(child));
        let below_schema = schema_below(node, schema);
        let below = upsert_spec(child, here, path.skip(1), None, Some(object), below_schema, cache);
        assert(u == come_up(node, name, below));
        assert(below.result is Ok && below.result->Ok_0 is Some);
        let cc = below.result->Ok_0->0;
        let bound = put_link_spec(node, name, cc);
        assert(cache_extends(below.cache, u.cache)) by {
            if cc != default_cid() {
                crate::upsert::lemma_put_node_extends(below.cache, bound->Ok_0);
            }
        }
        assert(cache_extends(below.cache, wider));
        lemma_tag_again(child, here, path.skip(1), object, below_schema, cache, wider);
        lemma_structured(node_ipld(below.node));
        assert(bound is Ok);
        let n1 = bound->Ok_0;
        assert(u == store_node(n1, below.cache));
        lemma_writable_after_bind(node, name, NodeLinkView::Node(cc));
        lemma_node_round_trip(below.node);
        assert(wider.contains_key(cc) && wider[cc] == node_ipld(below.node));
        assert(cached_node(wider, cc) == Ok::<NodeView, MountErrorView>(below.node));
        assert(step_down(n1, here, name, None, schema, wider) == Ok::<Option<(NodeView, Map<CidView, IpldView>)>, MountErrorView>(Some((below.node, wider))));
        assert(schema_below(n1, schema) == below_schema);
        let again_below = upsert_spec(below.node, here, path.skip(1), None, Some(object), below_schema, wider);
        assert(ends_at(again_below, below.node, cc, wider));
        assert(n1.links.insert(name, link_for(cc)) =~= n1.links);
        assert(put_link_spec(n1, name, cc) == Ok::<NodeView, NodeErrorView>(n1));
        assert(u.cache.contains_key(cid) && u.cache[cid] == node_ipld(n1));
        lemma_store_again(n1, cid, wider);
        assert(upsert_spec(n1, consumed, path, None, Some(object), schema, wider) == come_up(n1, name, again_below));
    }
}

/// Attaching the same object twice to a file, at the same reading of the
/// clock, changes nothing the second time: the mount keeps its identifier,
/// its manifest and its cache, and so the object keeps the time of creation
/// that it got the first time. At a later reading the second time, only the
/// time of the object's last change is another.
pub proof fn law_tag_twice(m: MountView, path: Seq<Seq<char>>, object: ObjectView, now: i128)
    requires
        path.len() >= 1,
        object_writable(object),
        timestamp_accepted(now),
        mount_sound(m),
        tag_spec(m, path, object, now) is Ok,
    ensures
        tag_spec(tag_spec(m, path, object, now)->Ok_0, path, object, now) == tag_spec(m, path, object, now),
{
    let changed = touched(object, now);
    let root = root_node(m)->Ok_0;
    let u = rewrite_from_root(m, path, None, Some(changed), None);
    assert(u.result is Ok && u.result->Ok_0 is Some);
    let cid = u.result->Ok_0->0;
    assert(node_writable(root));
    assert(cache_extends(u.cache, u.cache));
    lemma_tag_again(root, Seq::empty(), path, changed, None, m.cache, u.cache);
    lemma_structured(node_ipld(u.node));
    let m1 = tag_spec(m, path, object, now)->Ok_0;
    assert(m1.cache == u.cache);
    assert(m1.manifest.data == cid);
    lemma_node_round_trip(u.node);
    assert(root_node(m1) == Ok::<NodeView, MountErrorView>(u.node));
    let v = rewrite_from_root(m1, path, None, Some(changed), None);
    assert(ends_at(v, u.node, cid, u.cache));
    assert(ManifestView { data: cid, ..m1.manifest } == m1.manifest);
}

/// What is put into a mount, taken away from it, attached in it or set on
/// it between two pushes leaves alone which identifier the next push names.
pub proof fn law_changes_keep_base(
    m: MountView,
    path: Seq<Seq<char>>,
    cid: CidView,
    object: ObjectView,
    now: i128,
    schema: SchemaView,
)
    ensures
        add_link_spec(m, path, cid) is Ok ==> add_link_spec(m, path, cid)->Ok_0.base == m.base,
        rm_spec(m, path) is Ok ==> rm_spec(m, path)->Ok_0.base == m.base,
        tag_spec(m, path, object, now) is Ok ==> tag_spec(m, path, object, now)->Ok_0.base == m.base,
        set_schema_spec(m, path, schema) is Ok ==> set_schema_spec(m, path, schema)->Ok_0.base == m.base,
{
}

/// Of two pushes of a mount, with whatever was put, taken away, attached or
/// set between them, the manifest of the second names the identifier that
/// the first left; and the identifier that a push leaves is that of the
/// manifest that it wrote.
pub proof fn law_push_names_previous(m: MountView, later: MountView)
    requires
        push_spec(m) is Ok,
        later.base == push_spec(m)->Ok_0.base,
        push_spec(later) is Ok,
    ensures
        push_spec(m)->Ok_0.manifest.previous == m.base,
        manifest_cid(push_spec(m)->Ok_0.manifest) == Some(push_spec(m)->Ok_0.cid),
        push_spec(later)->Ok_0.manifest.previous == push_spec(m)->Ok_0.cid,
        manifest_cid(push_spec(later)->Ok_0.manifest) == Some(push_spec(later)->Ok_0.cid),
{
}

/// What attaching an object below a node gives, where a file stands at the
/// path: the refusal of the schema that holds for the file, where the object
/// does not fit it; and no such refusal where it fits, or no schema holds.
proof fn lemma_tag_held_to_schema(
    node: NodeView,
    consumed: Seq<Seq<char>>,
    path: Seq<Seq<char>>,
    object: ObjectView,
    schema: Option<(SchemaView, bool)>,
    cache: Map<CidView, IpldView>,
)
    requires
        path.len() >= 1,
        !is_install(schema),
        !is_reserved(path.last()),
        resolve_from(cache, node, consumed, path) is Ok,
        resolve_from(cache, node, consumed, path)->Ok_0 is Data,
    ensures
        ({
            let u = upsert_spec(node, consumed, path, None, Some(object), schema, cache);
            let prior = resolve_from(cache, node, consumed, path)->Ok_0->Data_1;
            let inherited = match schema {
                Some((s, _)) => Some(s),
                None => None,
            };
            match schema_in_force_from(cache, node, inherited, path) {
                Some(s) => match validation_result(s, stamped(object, prior).properties) {
                    Err(e) => u.result == Err::<Option<CidView>, MountErrorView>(MountErrorView::SchemaValidation(e)),
                    Ok(_) => !(u.result is Err && u.result->Err_0 is SchemaValidation),
                },
                None => !(u.result is Err && u.result->Err_0 is SchemaValidation),
            }
        }),
    decreases path.len(),
{
    let name = path[0];
    let here = consumed.push(name);
    let u = upsert_spec(node, consumed, path, None, Some(object), schema, cache);
    if path.len() == 1 {
        assert(path.last() == name);
        let placed = place_terminal(node, here, name, None, Some(object), schema, cache);
        assert(placed == Ok::<(NodeView, Map<CidView, IpldView>), MountErrorView>((node, cache)));
        let attached = attach_terminal(node, here, name, Some(object), schema_here(node, schema));
        if attached is Ok {
            assert(u == store_node(attached->Ok_0, cache));
        }
    } else {
        let child_cid = node.links[name]->Node_0;
        let child = cached_node(cache, child_cid)->Ok_0;
        let below_schema = schema_below(node, schema);
        assert(step_down(node, here, name, None, schema, cache) == Ok::<Option<(NodeView, Map<CidView, IpldView>)>, MountErrorView>(Some((child, cache))));
        let below = upsert_spec(child, here, path.skip(1), None, Some(object), below_schema, cache);
        assert(u == come_up(node, name, below));
        assert(path.skip(1).last() == path.last());
        lemma_tag_held_to_schema(child, here, path.skip(1), object, below_schema, cache);
        if below.result is Ok && below.result->Ok_0 is Some {
            let cc = below.result->Ok_0->0;
            if cc != default_cid() {
                let bound = put_link_spec(node, name, cc);
                if bound is Ok {
                    assert(u == store_node(bound->Ok_0, below.cache));
                }
            }
        }
    }
}

/// An object that is attached to a file is held to the schema of the file's
/// directory, or else of the nearest directory above it that has one: where
/// it does not fit that schema, attaching it is refused with what the schema
/// finds; and it is refused for no schema's sake where it fits, or where no
/// directory on the way has a schema.
pub proof fn law_tag_held_to_nearest_schema(m: MountView, path: Seq<Seq<char>>, object: ObjectView, now: i128)
    requires
        path.len() >= 1,
        !is_reserved(path.last()),
        resolve(m, path) is Ok,
        resolve(m, path)->Ok_0 is Data,
    ensures
        ({
            match schema_in_force_at(m, path) {
                Some(s) => match validation_result(s, object.properties) {
                    Err(e) => tag_spec(m, path, object, now) == Err::<MountView, MountErrorView>(
                        MountErrorView::SchemaValidation(e),
                    ),
                    Ok(_) => !(tag_spec(m, path, object, now) is Err && tag_spec(m, path, object, now)->Err_0 is SchemaValidation),
                },
                None => !(tag_spec(m, path, object, now) is Err && tag_spec(m, path, object, now)->Err_0 is SchemaValidation),
            }
        }),
{
    let changed = touched(object, now);
    let prior = resolve(m, path)->Ok_0->Data_1;
    assert(stamped(changed, prior).properties == object.properties);
    let root = root_node(m)->Ok_0;
    lemma_tag_held_to_schema(root, Seq::empty(), path, changed, None, m.cache);
    let u = rewrite_from_root(m, path, None, Some(changed), None);
    if u.result is Ok && u.result->Ok_0 is Some {
        let cid = u.result->Ok_0->0;
        if cid == default_cid() {
            let back = put_node(u.cache, empty_node());
        }
    }
}

} // verus!
