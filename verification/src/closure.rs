//! What a mount shows rests on its root alone: two mounts with the same root
//! node, whose caches hold the directories below it and hold the same block
//! under the same identifier, lead every path to the same link and hold the
//! same links. A mount keeps the directories below its root in its cache
//! through every rewrite.

use vstd::prelude::*;

use crate::cid::{default_cid, CidView, RAW_CODEC};
use crate::ipld::IpldView;
use crate::laws::{cache_writable, lemma_upsert_extends, lemma_upsert_keeps_writable, lemma_upsert_written, mount_sound};
use crate::mount::{add_link_spec, cache_closed, lists_every_link, lists_reached, lists_path, leads_to_link, new_mount, resolve, resolve_from, rewrite_from_root, rm_spec, root_node, set_schema_spec, settle, tag_spec, MountView};
use crate::node::{empty_node, ipld_node, lemma_node_round_trip, link_for, node_ipld, node_writable, put_link_spec, NodeLinkView, NodeView};
use crate::object::{object_writable, ObjectView};
use crate::schema::SchemaView;
use crate::upsert::{attach_terminal, cache_extends, cached_node, handed_schema, is_install, is_removal, place_terminal, put_node, schema_below, schema_here, step_down, store_node, upsert_spec, upsert_terminal, MountErrorView};

verus! {

/// Whether a cache holds every directory that a node links to.
pub open spec fn node_linked(cache: Map<CidView, IpldView>, node: NodeView) -> bool {
    forall|name: Seq<char>| #[trigger]
        node.links.contains_key(name) && node.links[name] is Node ==> cache.contains_key(node.links[name]->Node_0)
}

/// Whether a cache holds every directory that one of its nodes links to.
pub open spec fn cache_linked(cache: Map<CidView, IpldView>) -> bool {
    forall|k: CidView| #[trigger]
        cache.contains_key(k) && ipld_node(cache[k]) is Ok ==> node_linked(cache, ipld_node(cache[k])->Ok_0)
}

/// Whether two caches hold the same block wherever both hold one under the
/// same identifier.
pub open spec fn caches_agree(a: Map<CidView, IpldView>, b: Map<CidView, IpldView>) -> bool {
    forall|k: CidView| #[trigger] a.contains_key(k) && b.contains_key(k) ==> a[k] == b[k]
}

/// A cache of nodes alone that holds every directory below them holds every
/// directory that one of its nodes links to.
pub proof fn lemma_closed_is_linked(cache: Map<CidView, IpldView>)
    requires
        cache_closed(cache),
    ensures
        cache_linked(cache),
{
    assert forall|k: CidView| #[trigger] cache.contains_key(k) && ipld_node(cache[k]) is Ok implies node_linked(
        cache,
        ipld_node(cache[k])->Ok_0,
    ) by {
        let node = ipld_node(cache[k])->Ok_0;
        assert(cached_node(cache, k) == Ok::<NodeView, MountErrorView>(node));
        assert forall|name: Seq<char>| #[trigger] node.links.contains_key(name) && node.links[name] is Node implies cache.contains_key(
            node.links[name]->Node_0,
        ) by {
            assert(cached_node(cache, k)->Ok_0.links.contains_key(name));
        }
    }
}

/// From the same node, two caches that agree and hold the directories below
/// their nodes lead a path to the same link, or fail alike.
pub proof fn lemma_resolve_alike(
    a: Map<CidView, IpldView>,
    b: Map<CidView, IpldView>,
    node: NodeView,
    consumed: Seq<Seq<char>>,
    path: Seq<Seq<char>>,
)
    requires
        caches_agree(a, b),
        cache_linked(a),
        cache_linked(b),
        node_linked(a, node),
        node_linked(b, node),
    ensures
        resolve_from(a, node, consumed, path) == resolve_from(b, node, consumed, path),
    decreases path.len(),
{
    if path.len() >= 2 && node.links.contains_key(path[0]) {
        match node.links[path[0]] {
            NodeLinkView::Node(cid) => {
                assert(a.contains_key(cid) && b.contains_key(cid));
                assert(a[cid] == b[cid]);
                match cached_node(a, cid) {
                    Ok(child) => {
                        lemma_resolve_alike(a, b, child, consumed.push(path[0]), path.skip(1));
                    },
                    Err(_) => {},
                }
            },
            NodeLinkView::Data(_, _) => {},
        }
    }
}

/// Whether a mount holds its root node and every directory below it.
pub open spec fn mount_linked(m: MountView) -> bool {
    root_node(m) is Ok && cache_linked(m.cache)
}

/// Two mounts with the same root node, whose caches agree and hold the
/// directories below the root, lead every path to the same link, or fail
/// alike.
pub proof fn law_same_root_same_links(m: MountView, n: MountView, path: Seq<Seq<char>>)
    requires
        m.manifest.data == n.manifest.data,
        mount_linked(m),
        mount_linked(n),
        caches_agree(m.cache, n.cache),
    ensures
        resolve(m, path) == resolve(n, path),
{
    let k = m.manifest.data;
    assert(m.cache.contains_key(k) && n.cache.contains_key(k));
    assert(m.cache[k] == n.cache[k]);
    if path.len() > 0 {
        lemma_resolve_alike(m.cache, n.cache, root_node(m)->Ok_0, Seq::empty(), path);
    }
}

/// Whether every entry of the list `one` stands in the list `other`.
pub open spec fn listed_in(
    one: Seq<(Seq<Seq<char>>, NodeLinkView)>,
    other: Seq<(Seq<Seq<char>>, NodeLinkView)>,
) -> bool {
    forall|i: int| 0 <= i < one.len() ==> other.contains(#[trigger] one[i])
}

/// Two mounts with the same root node, whose caches agree and hold the
/// directories below the root, hold the same links: a list of all the links
/// below the root of the one has the entries of such a list of the other.
pub proof fn law_same_root_same_listing(
    m: MountView,
    n: MountView,
    of_m: Seq<(Seq<Seq<char>>, NodeLinkView)>,
    of_n: Seq<(Seq<Seq<char>>, NodeLinkView)>,
)
    requires
        m.manifest.data == n.manifest.data,
        mount_linked(m),
        mount_linked(n),
        caches_agree(m.cache, n.cache),
        lists_reached(of_m, m.cache, root_node(m)->Ok_0, Seq::empty()),
        lists_every_link(of_m, m.cache, root_node(m)->Ok_0, Seq::empty()),
        lists_reached(of_n, n.cache, root_node(n)->Ok_0, Seq::empty()),
        lists_every_link(of_n, n.cache, root_node(n)->Ok_0, Seq::empty()),
    ensures
        listed_in(of_m, of_n),
        listed_in(of_n, of_m),
{
    let k = m.manifest.data;
    assert(m.cache.contains_key(k) && n.cache.contains_key(k));
    assert(m.cache[k] == n.cache[k]);
    let root = root_node(m)->Ok_0;
    assert(root_node(n)->Ok_0 == root);
    lemma_listed_in(m.cache, n.cache, root, of_m, of_n);
    lemma_listed_in(n.cache, m.cache, root, of_n, of_m);
}

/// Every entry of a list of links below a node stands in a list of all the
/// links below the same node in a cache that agrees.
proof fn lemma_listed_in(
    a: Map<CidView, IpldView>,
    b: Map<CidView, IpldView>,
    root: NodeView,
    of_a: Seq<(Seq<Seq<char>>, NodeLinkView)>,
    of_b: Seq<(Seq<Seq<char>>, NodeLinkView)>,
)
    requires
        caches_agree(a, b) || caches_agree(b, a),
        cache_linked(a),
        cache_linked(b),
        node_linked(a, root),
        node_linked(b, root),
        lists_reached(of_a, a, root, Seq::empty()),
        lists_reached(of_b, b, root, Seq::empty()),
        lists_every_link(of_b, b, root, Seq::empty()),
    ensures
        listed_in(of_a, of_b),
{
    assert(caches_agree(a, b)) by {
        if caches_agree(b, a) {
            assert forall|k: CidView| #[trigger] a.contains_key(k) && b.contains_key(k) implies a[k] == b[k] by {
                assert(b.contains_key(k) && a.contains_key(k));
            }
        }
    }
    let none = Seq::<Seq<char>>::empty();
    assert forall|i: int| 0 <= i < of_a.len() implies of_b.contains(#[trigger] of_a[i]) by {
        let path = of_a[i].0;
        assert(path.skip(0) =~= path);
        lemma_resolve_alike(a, b, root, none, path);
        assert(leads_to_link(b, root, path));
        assert(none + path =~= path);
        assert(lists_path(of_b, none + path));
        let j = choose|j: int| 0 <= j < of_b.len() && (#[trigger] of_b[j]).0 == path;
        assert(of_b[j].0.skip(0) =~= of_b[j].0);
        assert(of_b[j].1 == of_a[i].1);
        assert(of_b[j] == of_a[i]);
    }
}

/// A node whose directories a cache holds has them in every cache that
/// keeps what that cache holds.
proof fn lemma_linked_wider(cache: Map<CidView, IpldView>, wider: Map<CidView, IpldView>, node: NodeView)
    requires
        node_linked(cache, node),
        cache_extends(cache, wider),
    ensures
        node_linked(wider, node),
{
    assert forall|name: Seq<char>| #[trigger] node.links.contains_key(name) && node.links[name] is Node implies wider.contains_key(
        node.links[name]->Node_0,
    ) by {
        assert(cache.contains_key(node.links[name]->Node_0));
    }
}

/// A cache that holds the directories below its nodes still does after a
/// node is written into it whose directories it holds.
proof fn lemma_put_keeps_linked(cache: Map<CidView, IpldView>, node: NodeView)
    requires
        cache_linked(cache),
        node_writable(node),
        node_linked(cache, node),
    ensures
        cache_linked(store_node(node, cache).cache),
        node_linked(store_node(node, cache).cache, node),
        cache_extends(cache, store_node(node, cache).cache),
{
    lemma_node_round_trip(node);
    let wider = store_node(node, cache).cache;
    assert(cache_extends(cache, wider));
    lemma_linked_wider(cache, wider, node);
    assert forall|k: CidView| #[trigger] wider.contains_key(k) && ipld_node(wider[k]) is Ok implies node_linked(
        wider,
        ipld_node(wider[k])->Ok_0,
    ) by {
        if cache.contains_key(k) {
            assert(wider[k] == cache[k]);
            lemma_linked_wider(cache, wider, ipld_node(cache[k])->Ok_0);
        } else {
            assert(wider[k] == node_ipld(node));
        }
    }
}

/// A node whose directories a cache holds still is one after it loses a link.
proof fn lemma_linked_after_drop(cache: Map<CidView, IpldView>, node: NodeView, name: Seq<char>)
    requires
        node_linked(cache, node),
    ensures
        node_linked(cache, NodeView { links: node.links.remove(name), ..node }),
{
    let left = NodeView { links: node.links.remove(name), ..node };
    assert forall|k: Seq<char>| #[trigger] left.links.contains_key(k) && left.links[k] is Node implies cache.contains_key(
        left.links[k]->Node_0,
    ) by {
        assert(node.links.contains_key(k));
    }
}

/// A node whose directories a cache holds still is one after one of its
/// links is bound to a file, or to a directory that the cache holds.
proof fn lemma_linked_after_bind(cache: Map<CidView, IpldView>, node: NodeView, name: Seq<char>, link: NodeLinkView)
    requires
        node_linked(cache, node),
        link is Node ==> cache.contains_key(link->Node_0),
    ensures
        node_linked(cache, NodeView { links: node.links.insert(name, link), ..node }),
{
    let bound = NodeView { links: node.links.insert(name, link), ..node };
    assert forall|k: Seq<char>| #[trigger] bound.links.contains_key(k) && bound.links[k] is Node implies cache.contains_key(
        bound.links[k]->Node_0,
    ) by {
        if k != name {
            assert(node.links.contains_key(k));
        }
    }
}

/// The last step of a rewrite keeps a cache that holds the directories below
/// its nodes such a cache, and hands on a node whose directories it holds.
#[verifier::rlimit(60)]
proof fn lemma_terminal_keeps_linked(
    node: NodeView,
    consumed: Seq<Seq<char>>,
    name: Seq<char>,
    link: Option<CidView>,
    object: Option<ObjectView>,
    schema: Option<(SchemaView, bool)>,
    cache: Map<CidView, IpldView>,
)
    requires
        node_writable(node),
        cache_writable(cache),
        cache_linked(cache),
        node_linked(cache, node),
        object is Some ==> object_writable(object->0),
        link is Some ==> link->0.codec == RAW_CODEC,
    ensures
        cache_linked(upsert_terminal(node, consumed, name, link, object, schema, cache).cache),
        upsert_terminal(node, consumed, name, link, object, schema, cache).result is Ok ==> node_linked(
            upsert_terminal(node, consumed, name, link, object, schema, cache).cache,
            upsert_terminal(node, consumed, name, link, object, schema, cache).node,
        ),
{
    let here = consumed.push(name);
    let path = seq![name];
    let u = upsert_terminal(node, consumed, name, link, object, schema, cache);
    assert(u == upsert_spec(node, consumed, path, link, object, schema, cache));
    lemma_upsert_keeps_writable(node, consumed, path, link, object, schema, cache);
    if is_removal(link, object, schema) {
        if node.links.contains_key(name) {
            let left = NodeView { links: node.links.remove(name), ..node };
            lemma_linked_after_drop(cache, node, name);
            if left.links != Map::<Seq<char>, NodeLinkView>::empty() {
                assert(u.node == left);
                lemma_put_keeps_linked(cache, left);
            }
        }
    } else {
        let placed = place_terminal(node, here, name, link, object, schema, cache);
        if placed is Ok {
            let (p, c2) = placed->Ok_0;
            assert(cache_linked(c2) && node_linked(c2, p) && cache_extends(cache, c2)) by {
                if link is Some {
                    lemma_linked_after_bind(cache, node, name, link_for(link->0));
                } else if is_install(schema) {
                    let to_set = handed_schema(schema);
                    if node.links.contains_key(name) {
                        match node.links[name] {
                            NodeLinkView::Node(child_cid) => {
                                let child = cached_node(cache, child_cid)->Ok_0;
                                let set = NodeView { schema: Some(to_set), ..child };
                                assert(node_writable(child));
                                assert(node_writable(set));
                                assert(node_linked(cache, child));
                                assert(node_linked(cache, set));
                                lemma_put_keeps_linked(cache, set);
                                lemma_linked_wider(cache, c2, node);
                                let cid = put_node(cache, set)->Ok_0.1;
                                lemma_linked_after_bind(c2, node, name, link_for(cid));
                            },
                            NodeLinkView::Data(_, _) => {},
                        }
                    } else {
                        let set = NodeView { schema: Some(to_set), ..empty_node() };
                        assert(node_writable(set));
                        assert(node_linked(cache, set));
                        lemma_put_keeps_linked(cache, set);
                        lemma_linked_wider(cache, c2, node);
                        let cid = put_node(cache, set)->Ok_0.1;
                        lemma_linked_after_bind(c2, node, name, link_for(cid));
                    }
                }
            }
            let attached = attach_terminal(p, here, name, object, schema_here(node, schema));
            if attached is Ok {
                let a = attached->Ok_0;
                assert(node_linked(c2, a)) by {
                    if object is Some {
                        assert(p.links.contains_key(name));
                        lemma_linked_after_bind(c2, p, name, a.links[name]);
                        assert(a.links =~= p.links.insert(name, a.links[name]));
                    }
                }
                assert(u == store_node(a, c2));
                lemma_put_keeps_linked(c2, a);
            }
        }
    }
}

/// A rewrite that puts no directory of its caller's keeps a cache that holds
/// the directories below its nodes such a cache, and hands on a node whose
/// directories the cache holds.
#[verifier::rlimit(60)]
pub proof fn lemma_upsert_keeps_linked(
    node: NodeView,
    consumed: Seq<Seq<char>>,
    path: Seq<Seq<char>>,
    link: Option<CidView>,
    object: Option<ObjectView>,
    schema: Option<(SchemaView, bool)>,
    cache: Map<CidView, IpldView>,
)
    requires
        path.len() >= 1,
        node_writable(node),
        cache_writable(cache),
        cache_linked(cache),
        node_linked(cache, node),
        object is Some ==> object_writable(object->0),
        link is Some ==> link->0.codec == RAW_CODEC,
    ensures
        cache_linked(upsert_spec(node, consumed, path, link, object, schema, cache).cache),
        upsert_spec(node, consumed, path, link, object, schema, cache).result is Ok ==> node_linked(
            upsert_spec(node, consumed, path, link, object, schema, cache).cache,
            upsert_spec(node, consumed, path, link, object, schema, cache).node,
        ),
    decreases path.len(),
{
    let name = path[0];
    let here = consumed.push(name);
    let u = upsert_spec(node, consumed, path, link, object, schema, cache);
    if path.len() == 1 {
        lemma_terminal_keeps_linked(node, consumed, name, link, object, schema, cache);
    } else {
        let down = step_down(node, here, name, link, schema, cache);
        match down {
            Ok(Some((child, cache2))) => {
                assert(node_writable(child) && cache_writable(cache2) && cache_linked(cache2) && node_linked(
                    cache2,
                    child,
                ) && cache_extends(cache, cache2)) by {
                    if node.links.contains_key(name) {
                    } else {
                        assert(node_writable(empty_node()));
                        assert(node_linked(cache, empty_node()));
                        lemma_put_keeps_linked(cache, empty_node());
                        lemma_node_round_trip(empty_node());
                    }
                }
                let lower = schema_below(node, schema);
                let below = upsert_spec(child, here, path.skip(1), link, object, lower, cache2);
                lemma_upsert_keeps_linked(child, here, path.skip(1), link, object, lower, cache2);
                lemma_upsert_keeps_writable(child, here, path.skip(1), link, object, lower, cache2);
                lemma_upsert_extends(child, here, path.skip(1), link, object, lower, cache2);
                lemma_linked_wider(cache, cache2, node);
                lemma_linked_wider(cache2, below.cache, node);
                match below.result {
                    Ok(Some(cid)) => {
                        if cid == default_cid() {
                            let left = NodeView { links: node.links.remove(name), ..node };
                            lemma_linked_after_drop(below.cache, node, name);
                            crate::laws::lemma_writable_after_drop(node, name);
                            if left.links != Map::<Seq<char>, NodeLinkView>::empty() {
                                lemma_put_keeps_linked(below.cache, left);
                            }
                        } else {
                            let bound = put_link_spec(node, name, cid);
                            if bound is Ok {
                                lemma_upsert_written(child, here, path.skip(1), link, object, lower, cache2);
                                lemma_linked_after_bind(below.cache, node, name, link_for(cid));
                                lemma_upsert_keeps_writable(node, consumed, path, link, object, schema, cache);
                                lemma_put_keeps_linked(below.cache, bound->Ok_0);
                            }
                        }
                    },
                    _ => {},
                }
            },
            _ => {},
        }
    }
}

/// A sound mount that holds the directories below its root still holds them
/// after a rewrite from its root has ended.
proof fn lemma_settle_linked(
    m: MountView,
    path: Seq<Seq<char>>,
    link: Option<CidView>,
    object: Option<ObjectView>,
    schema: Option<(SchemaView, bool)>,
)
    requires
        mount_sound(m),
        mount_linked(m),
        path.len() >= 1,
        object is Some ==> object_writable(object->0),
        link is Some ==> link->0.codec == RAW_CODEC,
    ensures
        settle(m, rewrite_from_root(m, path, link, object, schema)) is Ok ==> cache_linked(
            settle(m, rewrite_from_root(m, path, link, object, schema))->Ok_0.cache,
        ),
{
    let root = root_node(m)->Ok_0;
    assert(node_writable(root));
    assert(node_linked(m.cache, root));
    let u = rewrite_from_root(m, path, link, object, schema);
    lemma_upsert_keeps_linked(root, Seq::empty(), path, link, object, schema, m.cache);
    match u.result {
        Ok(Some(cid)) => {
            if cid == default_cid() {
                assert(node_writable(empty_node()));
                assert(node_linked(u.cache, empty_node()));
                lemma_put_keeps_linked(u.cache, empty_node());
            }
        },
        _ => {},
    }
}

/// A mount at its beginning holds the directories below its root: there are none.
pub proof fn law_new_mount_linked(version: crate::manifest::VersionView)
    requires
        new_mount(version) is Ok,
    ensures
        mount_linked(new_mount(version)->Ok_0),
{
    let none = Map::<CidView, IpldView>::empty();
    assert(cache_linked(none));
    assert(node_writable(empty_node()));
    assert(node_linked(none, empty_node()));
    lemma_put_keeps_linked(none, empty_node());
    lemma_node_round_trip(empty_node());
}

/// A mount that was read with the directories below its root holds them.
pub proof fn law_closed_mount_linked(m: MountView)
    requires
        root_node(m) is Ok,
        cache_closed(m.cache),
    ensures
        mount_linked(m),
{
    lemma_closed_is_linked(m.cache);
}

/// A sound mount that holds the directories below its root still holds them
/// when a file is put into it or taken away, when a file is given an object
/// that comes back from its written form, and when a directory is given a
/// schema.
pub proof fn law_mount_stays_linked(
    m: MountView,
    path: Seq<Seq<char>>,
    cid: CidView,
    object: ObjectView,
    now: i128,
    schema: SchemaView,
)
    requires
        mount_sound(m),
        mount_linked(m),
        path.len() >= 1,
        cid.codec == RAW_CODEC,
        object_writable(object),
        crate::timestamp::timestamp_accepted(now),
    ensures
        add_link_spec(m, path, cid) is Ok ==> mount_linked(add_link_spec(m, path, cid)->Ok_0),
        rm_spec(m, path) is Ok ==> mount_linked(rm_spec(m, path)->Ok_0),
        tag_spec(m, path, object, now) is Ok ==> mount_linked(tag_spec(m, path, object, now)->Ok_0),
        set_schema_spec(m, path, schema) is Ok ==> mount_linked(set_schema_spec(m, path, schema)->Ok_0),
{
    lemma_settle_linked(m, path, Some(cid), None, None);
    lemma_settle_linked(m, path, None, None, None);
    lemma_settle_linked(m, path, None, Some(crate::object::touched(object, now)), None);
    lemma_settle_linked(m, path, None, None, Some((schema, true)));
    crate::laws::law_mount_stays_sound(m, path, cid, object, now, schema);
}

} // verus!
