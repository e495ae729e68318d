//! What is written into a mount is read from it: a path leads to the link
//! that was put there, to the file with the object that was attached to it,
//! and to the directory with the schema that was set on it.

use vstd::prelude::*;

use crate::cid::{default_cid, CidView, RAW_CODEC};
use crate::codec::structured_cid;
use crate::ipld::IpldView;
use crate::laws::{cache_writable, lemma_upsert_extends, lemma_upsert_keeps_writable, lemma_upsert_written, mount_sound};
use crate::mount::{add_link_spec, resolve, resolve_from, rewrite_from_root, root_node, schema_in_force_at, schema_in_force_from, set_schema_spec, tag_spec, MountView};
use crate::node::{empty_node, lemma_node_round_trip, link_for, node_writable, put_link_spec, stamped, NodeLinkView, NodeView};
use crate::object::{object_writable, touched, ObjectView};
use crate::timestamp::timestamp_accepted;
use crate::schema::SchemaView;
use crate::upsert::{attach_terminal, cache_extends, cached_node, come_up, handed_schema, is_install, is_removal, place_terminal, put_node, schema_below, schema_here, step_down, store_node, upsert_spec, upsert_terminal, MountErrorView};

verus! {

/// A path that leads to a link in a cache leads to it in every cache that
/// keeps what that cache holds.
pub proof fn lemma_resolve_wider(
    cache: Map<CidView, IpldView>,
    wider: Map<CidView, IpldView>,
    node: NodeView,
    consumed: Seq<Seq<char>>,
    path: Seq<Seq<char>>,
)
    requires
        resolve_from(cache, node, consumed, path) is Ok,
        cache_extends(cache, wider),
    ensures
        resolve_from(wider, node, consumed, path) == resolve_from(cache, node, consumed, path),
    decreases path.len(),
{
    if path.len() > 1 {
        let cid = node.links[path[0]]->Node_0;
        assert(cache.contains_key(cid));
        let child = cached_node(cache, cid)->Ok_0;
        lemma_resolve_wider(cache, wider, child, consumed.push(path[0]), path.skip(1));
    }
}

/// Whether a rewrite puts a link, attaches an object, or sets a schema, and
/// does one of the three alone.
pub open spec fn writes_one_thing(link: Option<CidView>, object: Option<ObjectView>, schema: Option<(SchemaView, bool)>) -> bool {
    ||| link is Some && object is None && !is_install(schema)
    ||| link is None && object is Some && !is_install(schema)
    ||| link is None && object is None && is_install(schema)
}

/// A rewrite that takes nothing away hands up, where it hands up an
/// identifier, that of a node that it wrote; and where it puts a link or
/// sets a schema, it does not end with nothing changed.
proof fn lemma_upsert_hands_up_node(
    node: NodeView,
    consumed: Seq<Seq<char>>,
    path: Seq<Seq<char>>,
    link: Option<CidView>,
    object: Option<ObjectView>,
    schema: Option<(SchemaView, bool)>,
    cache: Map<CidView, IpldView>,
)
    requires
        path.len() >= 1,
        !is_removal(link, object, schema),
    ensures
        ({
            let u = upsert_spec(node, consumed, path, link, object, schema, cache);
            &&& u.result is Ok && u.result->Ok_0 is Some ==> structured_cid(u.result->Ok_0->0)
            &&& link is Some || is_install(schema) ==> !(u.result is Ok && u.result->Ok_0 is None)
        }),
    decreases path.len(),
{
    let name = path[0];
    let here = consumed.push(name);
    let u = upsert_spec(node, consumed, path, link, object, schema, cache);
    if path.len() == 1 {
        match place_terminal(node, here, name, link, object, schema, cache) {
            Ok((placed, cache2)) => {
                match attach_terminal(placed, here, name, object, schema_here(node, schema)) {
                    Ok(attached) => {
                        assert(u == store_node(attached, cache2));
                    },
                    Err(_) => {},
                }
            },
            Err(_) => {},
        }
    } else {
        match step_down(node, here, name, link, schema, cache) {
            Ok(Some((child, cache2))) => {
                let lower = schema_below(node, schema);
                let below = upsert_spec(child, here, path.skip(1), link, object, lower, cache2);
                lemma_upsert_hands_up_node(child, here, path.skip(1), link, object, lower, cache2);
                assert(u == come_up(node, name, below));
                match below.result {
                    Ok(Some(cid)) => {
                        assert(cid != default_cid());
                        match put_link_spec(node, name, cid) {
                            Ok(bound) => {
                                assert(u == store_node(bound, below.cache));
                            },
                            Err(_) => {},
                        }
                    },
                    _ => {},
                }
            },
            _ => {},
        }
    }
}

/// What a rewrite puts at its path is what the path then leads to.
#[verifier::rlimit(80)]
proof fn lemma_rewrite_read_back(
    node: NodeView,
    consumed: Seq<Seq<char>>,
    path: Seq<Seq<char>>,
    link: Option<CidView>,
    object: Option<ObjectView>,
    schema: Option<(SchemaView, bool)>,
    cache: Map<CidView, IpldView>,
)
    requires
        path.len() >= 1,
        node_writable(node),
        cache_writable(cache),
        object is Some ==> object_writable(object->0),
        writes_one_thing(link, object, schema),
        upsert_spec(node, consumed, path, link, object, schema, cache).result is Ok,
        upsert_spec(node, consumed, path, link, object, schema, cache).result->Ok_0 is Some,
    ensures
        ({
            let u = upsert_spec(node, consumed, path, link, object, schema, cache);
            let before = resolve_from(cache, node, consumed, path);
            let after = resolve_from(u.cache, u.node, consumed, path);
            &&& link is Some ==> after == Ok::<NodeLinkView, MountErrorView>(link_for(link->0))
            &&& object is Some ==> {
                &&& before is Ok
                &&& before->Ok_0 is Data
                &&& after == Ok::<NodeLinkView, MountErrorView>(
                    NodeLinkView::Data(before->Ok_0->Data_0, Some(stamped(object->0, before->Ok_0->Data_1))),
                )
            }
            &&& is_install(schema) ==> {
                &&& after is Ok
                &&& after->Ok_0 is Node
                &&& cached_node(u.cache, after->Ok_0->Node_0) is Ok
                &&& cached_node(u.cache, after->Ok_0->Node_0)->Ok_0.schema == Some(handed_schema(schema))
            }
        }),
    decreases path.len(),
{
    let name = path[0];
    let here = consumed.push(name);
    let u = upsert_spec(node, consumed, path, link, object, schema, cache);
    if path.len() == 1 {
        let placed = place_terminal(node, here, name, link, object, schema, cache);
        assert(placed is Ok);
        let (p, c2) = placed->Ok_0;
        let attached = attach_terminal(p, here, name, object, schema_here(node, schema));
        assert(attached is Ok);
        let a = attached->Ok_0;
        assert(u == store_node(a, c2));
        assert(cache_extends(c2, u.cache));
        assert(a.links.contains_key(name));
        if is_install(schema) {
            let to_set = handed_schema(schema);
            let set = if node.links.contains_key(name) {
                NodeView { schema: Some(to_set), ..cached_node(cache, node.links[name]->Node_0)->Ok_0 }
            } else {
                NodeView { schema: Some(to_set), ..empty_node() }
            };
            assert(node_writable(empty_node()));
            assert(node_writable(set));
            lemma_node_round_trip(set);
            let k = put_node(cache, set)->Ok_0.1;
            assert(structured_cid(k));
            assert(c2.contains_key(k) && c2[k] == crate::node::node_ipld(set));
            assert(u.cache[k] == c2[k]);
            assert(a.links[name] == NodeLinkView::Node(k));
        }
    } else {
        let down = step_down(node, here, name, link, schema, cache);
        assert(down is Ok && down->Ok_0 is Some);
        let (child, cache2) = down->Ok_0->0;
        let lower = schema_below(node, schema);
        let rest = path.skip(1);
        let below = upsert_spec(child, here, rest, link, object, lower, cache2);
        assert(u == come_up(node, name, below));
        assert(below.result is Ok && below.result->Ok_0 is Some);
        let cc = below.result->Ok_0->0;
        lemma_upsert_hands_up_node(child, here, rest, link, object, lower, cache2);
        assert(cc != default_cid());
        assert(node_writable(child) && cache_writable(cache2)) by {
            if !node.links.contains_key(name) {
                assert(node_writable(empty_node()));
                lemma_node_round_trip(empty_node());
            }
        }
        lemma_rewrite_read_back(child, here, rest, link, object, lower, cache2);
        lemma_upsert_keeps_writable(child, here, rest, link, object, lower, cache2);
        lemma_upsert_written(child, here, rest, link, object, lower, cache2);
        lemma_node_round_trip(below.node);
        let bound = put_link_spec(node, name, cc);
        assert(bound is Ok);
        assert(u == store_node(bound->Ok_0, below.cache));
        assert(cache_extends(below.cache, u.cache));
        assert(u.node.links[name] == NodeLinkView::Node(cc));
        assert(u.cache[cc] == below.cache[cc]);
        assert(cached_node(u.cache, cc) == Ok::<NodeView, MountErrorView>(below.node));
        let after_below = resolve_from(below.cache, below.node, here, rest);
        assert(after_below is Ok);
        lemma_resolve_wider(below.cache, u.cache, below.node, here, rest);
        assert(resolve_from(u.cache, u.node, consumed, path) == after_below);
        if is_install(schema) {
            let k = after_below->Ok_0->Node_0;
            assert(below.cache.contains_key(k));
            assert(u.cache[k] == below.cache[k]);
        }
        if object is Some {
            assert(node.links.contains_key(name));
            assert(cache2 == cache);
            assert(resolve_from(cache, node, consumed, path) == resolve_from(cache, child, here, rest));
        }
    }
}

/// What a rewrite from the root of a sound mount puts at its path is what
/// the path leads to in the mount after it.
proof fn lemma_settled_read_back(
    m: MountView,
    path: Seq<Seq<char>>,
    link: Option<CidView>,
    object: Option<ObjectView>,
    schema: Option<(SchemaView, bool)>,
)
    requires
        mount_sound(m),
        path.len() >= 1,
        object is Some ==> object_writable(object->0),
        writes_one_thing(link, object, schema),
        rewrite_from_root(m, path, link, object, schema).result is Ok,
        rewrite_from_root(m, path, link, object, schema).result->Ok_0 is Some,
        crate::mount::settle(m, rewrite_from_root(m, path, link, object, schema)) is Ok,
    ensures
        ({
            let u = rewrite_from_root(m, path, link, object, schema);
            let after = crate::mount::settle(m, u)->Ok_0;
            &&& after.cache == u.cache
            &&& root_node(after) == Ok::<NodeView, MountErrorView>(u.node)
            &&& resolve(after, path) == resolve_from(u.cache, u.node, Seq::empty(), path)
        }),
{
    let root = root_node(m)->Ok_0;
    assert(node_writable(root));
    let u = rewrite_from_root(m, path, link, object, schema);
    lemma_upsert_hands_up_node(root, Seq::empty(), path, link, object, schema, m.cache);
    lemma_upsert_keeps_writable(root, Seq::empty(), path, link, object, schema, m.cache);
    lemma_upsert_written(root, Seq::empty(), path, link, object, schema, m.cache);
    lemma_node_round_trip(u.node);
}

/// A payload that is put at a path is what the path then leads to; an
/// object that stood there is gone.
pub proof fn law_add_is_read(m: MountView, path: Seq<Seq<char>>, cid: CidView)
    requires
        mount_sound(m),
        path.len() >= 1,
        add_link_spec(m, path, cid) is Ok,
    ensures
        resolve(add_link_spec(m, path, cid)->Ok_0, path) == Ok::<NodeLinkView, MountErrorView>(link_for(cid)),
        cid.codec == RAW_CODEC ==> resolve(add_link_spec(m, path, cid)->Ok_0, path) == Ok::<NodeLinkView, MountErrorView>(
            NodeLinkView::Data(cid, None),
        ),
{
    let root = root_node(m)->Ok_0;
    assert(node_writable(root));
    lemma_upsert_hands_up_node(root, Seq::empty(), path, Some(cid), None, None, m.cache);
    lemma_rewrite_read_back(root, Seq::empty(), path, Some(cid), None, None, m.cache);
    lemma_settled_read_back(m, path, Some(cid), None, None);
}

/// An object that is attached to a file is read at the file's path, with
/// the time of creation of the object that was attached before, where there
/// was one, and with the time of the call as the time of its last change,
/// whatever time it came with; the file's payload stays.
pub proof fn law_tag_is_read(m: MountView, path: Seq<Seq<char>>, object: ObjectView, now: i128)
    requires
        mount_sound(m),
        path.len() >= 1,
        object_writable(object),
        timestamp_accepted(now),
        tag_spec(m, path, object, now) is Ok,
    ensures
        resolve(m, path) is Ok,
        resolve(m, path)->Ok_0 is Data,
        resolve(tag_spec(m, path, object, now)->Ok_0, path) == Ok::<NodeLinkView, MountErrorView>(
            NodeLinkView::Data(
                resolve(m, path)->Ok_0->Data_0,
                Some(stamped(touched(object, now), resolve(m, path)->Ok_0->Data_1)),
            ),
        ),
        stamped(touched(object, now), resolve(m, path)->Ok_0->Data_1).updated_at == now,
        stamped(touched(object, now), resolve(m, path)->Ok_0->Data_1).properties == object.properties,
        resolve(m, path)->Ok_0->Data_1 is Some ==> stamped(touched(object, now), resolve(m, path)->Ok_0->Data_1).created_at == resolve(
            m,
            path,
        )->Ok_0->Data_1->0.created_at,
{
    let changed = touched(object, now);
    let root = root_node(m)->Ok_0;
    assert(node_writable(root));
    let u = rewrite_from_root(m, path, None, Some(changed), None);
    assert(u.result is Ok && u.result->Ok_0 is Some);
    lemma_rewrite_read_back(root, Seq::empty(), path, None, Some(changed), None, m.cache);
    lemma_settled_read_back(m, path, None, Some(changed), None);
}

/// A schema that is set on a directory is the schema of the directory that
/// the path then leads to.
pub proof fn law_schema_is_read(m: MountView, path: Seq<Seq<char>>, schema: SchemaView)
    requires
        mount_sound(m),
        path.len() >= 1,
        set_schema_spec(m, path, schema) is Ok,
    ensures
        ({
            let after = set_schema_spec(m, path, schema)->Ok_0;
            &&& resolve(after, path) is Ok
            &&& resolve(after, path)->Ok_0 is Node
            &&& cached_node(after.cache, resolve(after, path)->Ok_0->Node_0) is Ok
            &&& cached_node(after.cache, resolve(after, path)->Ok_0->Node_0)->Ok_0.schema == Some(schema)
        }),
{
    let root = root_node(m)->Ok_0;
    assert(node_writable(root));
    lemma_upsert_hands_up_node(root, Seq::empty(), path, None, None, Some((schema, true)), m.cache);
    lemma_rewrite_read_back(root, Seq::empty(), path, None, None, Some((schema, true)), m.cache);
    lemma_settled_read_back(m, path, None, None, Some((schema, true)));
}

/// In a directory that has a schema, what is handed down from above counts
/// for nothing.
proof fn lemma_own_schema_rules(
    cache: Map<CidView, IpldView>,
    dir: NodeView,
    one: Option<SchemaView>,
    other: Option<SchemaView>,
    path: Seq<Seq<char>>,
)
    requires
        dir.schema is Some,
    ensures
        schema_in_force_from(cache, dir, one, path) == schema_in_force_from(cache, dir, other, path),
{
    let here = dir.schema;
    if path.len() > 1 && dir.links.contains_key(path[0]) && dir.links[path[0]] is Node && cached_node(
        cache,
        dir.links[path[0]]->Node_0,
    ) is Ok {
        let child = cached_node(cache, dir.links[path[0]]->Node_0)->Ok_0;
        assert(schema_in_force_from(cache, dir, one, path) == schema_in_force_from(cache, child, here, path.skip(1)));
        assert(schema_in_force_from(cache, dir, other, path) == schema_in_force_from(cache, child, here, path.skip(1)));
    } else {
        assert(schema_in_force_from(cache, dir, one, path) == here);
        assert(schema_in_force_from(cache, dir, other, path) == here);
    }
}

/// Below a directory that has a schema, the schemas of the directories
/// above it count for nothing.
proof fn lemma_schema_holds_in_directory(
    cache: Map<CidView, IpldView>,
    node: NodeView,
    inherited: Option<SchemaView>,
    consumed: Seq<Seq<char>>,
    path: Seq<Seq<char>>,
    below: Seq<Seq<char>>,
)
    requires
        path.len() >= 1,
        below.len() >= 1,
        resolve_from(cache, node, consumed, path) is Ok,
        resolve_from(cache, node, consumed, path)->Ok_0 is Node,
        cached_node(cache, resolve_from(cache, node, consumed, path)->Ok_0->Node_0) is Ok,
    ensures
        ({
            let dir = cached_node(cache, resolve_from(cache, node, consumed, path)->Ok_0->Node_0)->Ok_0;
            dir.schema is Some ==> schema_in_force_from(cache, node, inherited, path + below) == schema_in_force_from(
                cache,
                dir,
                None,
                below,
            )
        }),
    decreases path.len(),
{
    let longer = path + below;
    let here = match node.schema {
        Some(s) => Some(s),
        None => inherited,
    };
    assert(longer[0] == path[0]);
    if path.len() == 1 {
        assert(longer.skip(1) =~= below);
        let dir = cached_node(cache, node.links[path[0]]->Node_0)->Ok_0;
        if dir.schema is Some {
            lemma_own_schema_rules(cache, dir, here, None, below);
        }
    } else {
        let child = cached_node(cache, node.links[path[0]]->Node_0)->Ok_0;
        assert(longer.skip(1) =~= path.skip(1) + below);
        lemma_schema_holds_in_directory(cache, child, here, consumed.push(path[0]), path.skip(1), below);
    }
}

/// A schema that is set on a directory holds for every file that stands in
/// the directory, and below the directory the schemas of the directories
/// above it count for nothing.
pub proof fn law_schema_holds_in_its_directory(
    m: MountView,
    path: Seq<Seq<char>>,
    schema: SchemaView,
    below: Seq<Seq<char>>,
)
    requires
        mount_sound(m),
        path.len() >= 1,
        below.len() >= 1,
        set_schema_spec(m, path, schema) is Ok,
    ensures
        ({
            let after = set_schema_spec(m, path, schema)->Ok_0;
            let dir = cached_node(after.cache, resolve(after, path)->Ok_0->Node_0)->Ok_0;
            &&& dir.schema == Some(schema)
            &&& schema_in_force_at(after, path + below) == schema_in_force_from(after.cache, dir, None, below)
            &&& below.len() == 1 ==> schema_in_force_at(after, path + below) == Some(schema)
        }),
{
    law_schema_is_read(m, path, schema);
    let after = set_schema_spec(m, path, schema)->Ok_0;
    let root = root_node(m)->Ok_0;
    assert(node_writable(root));
    lemma_upsert_hands_up_node(root, Seq::empty(), path, None, None, Some((schema, true)), m.cache);
    lemma_settled_read_back(m, path, None, None, Some((schema, true)));
    lemma_schema_holds_in_directory(after.cache, root_node(after)->Ok_0, None, Seq::empty(), path, below);
}

/// The schema that holds for a file whose path leads to a link in a cache
/// is the same in every cache that keeps what that cache holds.
proof fn lemma_schema_wider(
    cache: Map<CidView, IpldView>,
    wider: Map<CidView, IpldView>,
    node: NodeView,
    inherited: Option<SchemaView>,
    consumed: Seq<Seq<char>>,
    path: Seq<Seq<char>>,
)
    requires
        resolve_from(cache, node, consumed, path) is Ok,
        cache_extends(cache, wider),
    ensures
        schema_in_force_from(wider, node, inherited, path) == schema_in_force_from(cache, node, inherited, path),
    decreases path.len(),
{
    if path.len() > 1 {
        let cid = node.links[path[0]]->Node_0;
        assert(cache.contains_key(cid));
        let child = cached_node(cache, cid)->Ok_0;
        let here = match node.schema {
            Some(s) => Some(s),
            None => inherited,
        };
        lemma_schema_wider(cache, wider, child, here, consumed.push(path[0]), path.skip(1));
    }
}

/// Putting a payload at a path leaves the schema that holds for the path
/// as it was.
#[verifier::rlimit(60)]
proof fn lemma_add_keeps_schema(
    node: NodeView,
    consumed: Seq<Seq<char>>,
    path: Seq<Seq<char>>,
    cid: CidView,
    schema: Option<(SchemaView, bool)>,
    cache: Map<CidView, IpldView>,
    inherited: Option<SchemaView>,
)
    requires
        path.len() >= 1,
        node_writable(node),
        cache_writable(cache),
        !is_install(schema),
        upsert_spec(node, consumed, path, Some(cid), None, schema, cache).result is Ok,
    ensures
        ({
            let u = upsert_spec(node, consumed, path, Some(cid), None, schema, cache);
            &&& u.node.schema == node.schema
            &&& schema_in_force_from(u.cache, u.node, inherited, path) == schema_in_force_from(cache, node, inherited, path)
        }),
    decreases path.len(),
{
    let name = path[0];
    let here = consumed.push(name);
    let link = Some(cid);
    let u = upsert_spec(node, consumed, path, link, None, schema, cache);
    lemma_upsert_hands_up_node(node, consumed, path, link, None, schema, cache);
    if path.len() == 1 {
        let placed = place_terminal(node, here, name, link, None, schema, cache);
        assert(placed is Ok);
        assert(u == store_node(placed->Ok_0.0, cache));
    } else {
        let down = step_down(node, here, name, link, schema, cache);
        assert(down is Ok && down->Ok_0 is Some);
        let (child, cache2) = down->Ok_0->0;
        let lower = schema_below(node, schema);
        let rest = path.skip(1);
        let below = upsert_spec(child, here, rest, link, None, lower, cache2);
        assert(u == come_up(node, name, below));
        assert(below.result is Ok && below.result->Ok_0 is Some);
        let cc = below.result->Ok_0->0;
        lemma_upsert_hands_up_node(child, here, rest, link, None, lower, cache2);
        assert(cc != default_cid());
        assert(node_writable(child) && cache_writable(cache2)) by {
            if !node.links.contains_key(name) {
                assert(node_writable(empty_node()));
                lemma_node_round_trip(empty_node());
            }
        }
        let held = match node.schema {
            Some(s) => Some(s),
            None => inherited,
        };
        lemma_add_keeps_schema(child, here, rest, cid, lower, cache2, held);
        lemma_rewrite_read_back(child, here, rest, link, None, lower, cache2);
        lemma_upsert_keeps_writable(child, here, rest, link, None, lower, cache2);
        lemma_upsert_written(child, here, rest, link, None, lower, cache2);
        lemma_node_round_trip(below.node);
        let bound = put_link_spec(node, name, cc);
        assert(bound is Ok);
        assert(u == store_node(bound->Ok_0, below.cache));
        assert(cache_extends(below.cache, u.cache));
        assert(u.node.links[name] == NodeLinkView::Node(cc));
        assert(u.cache[cc] == below.cache[cc]);
        assert(cached_node(u.cache, cc) == Ok::<NodeView, MountErrorView>(below.node));
        lemma_schema_wider(below.cache, u.cache, below.node, held, here, rest);
        assert(schema_in_force_from(u.cache, u.node, inherited, path) == schema_in_force_from(
            below.cache,
            below.node,
            held,
            rest,
        ));
        if !node.links.contains_key(name) {
            assert(child == empty_node());
            assert(schema_in_force_from(cache2, child, held, rest) == held);
        }
    }
}

/// Putting a payload at a path leaves the schema that holds for the file at
/// the path as it was: a schema that was set above the path holds for the
/// file that is put there.
pub proof fn law_add_keeps_schema(m: MountView, path: Seq<Seq<char>>, cid: CidView)
    requires
        mount_sound(m),
        path.len() >= 1,
        add_link_spec(m, path, cid) is Ok,
    ensures
        schema_in_force_at(add_link_spec(m, path, cid)->Ok_0, path) == schema_in_force_at(m, path),
{
    let root = root_node(m)->Ok_0;
    assert(node_writable(root));
    lemma_upsert_hands_up_node(root, Seq::empty(), path, Some(cid), None, None, m.cache);
    lemma_add_keeps_schema(root, Seq::empty(), path, cid, None, m.cache, None);
    lemma_settled_read_back(m, path, Some(cid), None, None);
}

/// Whether no directory on the way from a node along a path, the node
/// itself and the path's last name left aside, has a schema of its own.
pub open spec fn no_schema_between(cache: Map<CidView, IpldView>, node: NodeView, path: Seq<Seq<char>>) -> bool
    decreases path.len(),
{
    if path.len() <= 1 {
        true
    } else if node.links.contains_key(path[0]) && node.links[path[0]] is Node && cached_node(
        cache,
        node.links[path[0]]->Node_0,
    ) is Ok {
        let child = cached_node(cache, node.links[path[0]]->Node_0)->Ok_0;
        child.schema is None && no_schema_between(cache, child, path.skip(1))
    } else {
        true
    }
}

/// Where no directory on the way has a schema of its own, the schema that
/// holds for a file is that of the node from which the way starts, or else
/// what is handed down to it.
proof fn lemma_schema_handed_down(
    cache: Map<CidView, IpldView>,
    node: NodeView,
    inherited: Option<SchemaView>,
    path: Seq<Seq<char>>,
)
    requires
        no_schema_between(cache, node, path),
    ensures
        schema_in_force_from(cache, node, inherited, path) == (match node.schema {
            Some(s) => Some(s),
            None => inherited,
        }),
    decreases path.len(),
{
    let here = match node.schema {
        Some(s) => Some(s),
        None => inherited,
    };
    if path.len() > 1 && node.links.contains_key(path[0]) && node.links[path[0]] is Node && cached_node(
        cache,
        node.links[path[0]]->Node_0,
    ) is Ok {
        let child = cached_node(cache, node.links[path[0]]->Node_0)->Ok_0;
        lemma_schema_handed_down(cache, child, here, path.skip(1));
    }
}

/// A schema that is set on a directory holds for a file that is then put
/// below the directory, where no directory between the two has a schema of
/// its own, and whatever schemas the directories above have: an object that
/// is then attached to the file is refused with what the schema finds where
/// it does not fit the schema, and for no schema's sake where it fits.
pub proof fn law_schema_is_inherited(
    m: MountView,
    dir: Seq<Seq<char>>,
    schema: SchemaView,
    below: Seq<Seq<char>>,
    cid: CidView,
    object: ObjectView,
    now: i128,
)
    requires
        mount_sound(m),
        dir.len() >= 1,
        below.len() >= 1,
        cid.codec == RAW_CODEC,
        !crate::node::is_reserved(below.last()),
        set_schema_spec(m, dir, schema) is Ok,
        no_schema_between(
            set_schema_spec(m, dir, schema)->Ok_0.cache,
            cached_node(
                set_schema_spec(m, dir, schema)->Ok_0.cache,
                resolve(set_schema_spec(m, dir, schema)->Ok_0, dir)->Ok_0->Node_0,
            )->Ok_0,
            below,
        ),
        add_link_spec(set_schema_spec(m, dir, schema)->Ok_0, dir + below, cid) is Ok,
    ensures
        ({
            let set = set_schema_spec(m, dir, schema)->Ok_0;
            let put = add_link_spec(set, dir + below, cid)->Ok_0;
            &&& schema_in_force_at(put, dir + below) == Some(schema)
            &&& resolve(put, dir + below) == Ok::<NodeLinkView, MountErrorView>(NodeLinkView::Data(cid, None))
            &&& match crate::schema::validation_result(schema, object.properties) {
                Err(e) => tag_spec(put, dir + below, object, now) == Err::<MountView, MountErrorView>(
                    MountErrorView::SchemaValidation(e),
                ),
                Ok(_) => !(tag_spec(put, dir + below, object, now) is Err && tag_spec(put, dir + below, object, now)->Err_0 is SchemaValidation),
            }
        }),
{
    let set = set_schema_spec(m, dir, schema)->Ok_0;
    let path = dir + below;
    let put = add_link_spec(set, path, cid)->Ok_0;
    assert(path.last() == below.last());
    crate::laws::lemma_settle_sound(m, dir, None, None, Some((schema, true)));
    law_schema_holds_in_its_directory(m, dir, schema, below);
    let held = cached_node(set.cache, resolve(set, dir)->Ok_0->Node_0)->Ok_0;
    lemma_schema_handed_down(set.cache, held, None, below);
    law_add_keeps_schema(set, path, cid);
    law_add_is_read(set, path, cid);
    crate::laws::law_tag_held_to_nearest_schema(put, path, object, now);
}

} // verus!
