//! Nodes: the directories of a mount. A node maps names to links, and may
//! carry the schema of the objects attached to its files.

use vstd::prelude::*;
use crate::cid::{Cid, CidView, RAW_CODEC};
use crate::codec::{ipld_cid, ipld_to_cid, structured_cid};
use crate::ipld::{dict_view, lemma_dict_view, Ipld, IpldView};
use crate::object::{ipld_object, lemma_object_round_trip, object_ipld, object_writable, Object, ObjectError, ObjectErrorView, ObjectView};
use crate::schema::{ipld_schema, lemma_schema_ipld_round_trip, schema_ipld, validation_result, Schema, SchemaError, SchemaErrorView, SchemaView};
use crate::sorted_map::{in_prefix, lemma_in_prefix_all, lemma_in_prefix_step, sorted_keys, SortedMap};
use crate::text::{first_name, lemma_first_name, lemma_name_lt_asymmetric, lemma_name_lt_irreflexive, name_lt, names_equal};

verus! {

/// The name under which a node's block holds the objects attached to its files.
pub open spec fn attached_key() -> Seq<char> {
    ".attached"@
}

/// The name under which a node's block holds the node's schema.
pub open spec fn schema_key() -> Seq<char> {
    ".schema"@
}

/// The name that stands for the whole value where a node is read.
pub open spec fn whole_value_name() -> Seq<char> {
    "ipld"@
}

/// Whether a name is kept for the node's block and so can name no link.
pub open spec fn is_reserved(name: Seq<char>) -> bool {
    name == attached_key() || name == schema_key()
}

/// The two kept names differ.
pub proof fn lemma_reserved_keys_differ()
    ensures
        attached_key() != schema_key(),
{
    reveal_strlit(".attached");
    reveal_strlit(".schema");
    assert(".attached"@.len() != ".schema"@.len());
}

/// What a link is: a file, with the object attached to it if there is one, or
/// a directory.
pub enum NodeLinkView {
    Data(CidView, Option<ObjectView>),
    Node(CidView),
}

/// The identifier that a link points to.
pub open spec fn link_cid(link: NodeLinkView) -> CidView {
    match link {
        NodeLinkView::Data(cid, _) => cid,
        NodeLinkView::Node(cid) => cid,
    }
}

/// The link that an identifier gets when it is put into a node: a file
/// without object where it names a payload block, else a directory.
pub open spec fn link_for(cid: CidView) -> NodeLinkView {
    if cid.codec == RAW_CODEC {
        NodeLinkView::Data(cid, None)
    } else {
        NodeLinkView::Node(cid)
    }
}

/// What a node is.
pub struct NodeView {
    pub links: Map<Seq<char>, NodeLinkView>,
    pub schema: Option<SchemaView>,
}

/// The node without links and without schema.
pub open spec fn empty_node() -> NodeView {
    NodeView { links: Map::empty(), schema: None }
}

/// Why an operation on a node fails, or a value is no node.
pub enum NodeErrorView {
    BlockEncoding,
    NotAMap(Seq<char>),
    Object(ObjectErrorView),
    Schema(SchemaErrorView),
    ReservedName(Seq<char>),
    LinkNotFound(Seq<char>),
}

/// The node after `cid` is put under `name`, or why it cannot be put there.
pub open spec fn put_link_spec(node: NodeView, name: Seq<char>, cid: CidView) -> Result<NodeView, NodeErrorView> {
    if is_reserved(name) {
        Err(NodeErrorView::ReservedName(name))
    } else {
        Ok(NodeView { links: node.links.insert(name, link_for(cid)), ..node })
    }
}

/// The object as it is attached: with the time of creation of the object that
/// was attached before, where there was one.
pub open spec fn stamped(object: ObjectView, prior: Option<ObjectView>) -> ObjectView {
    match prior {
        Some(p) => ObjectView { created_at: p.created_at, ..object },
        None => object,
    }
}

/// The schema that an object attached in this node is held to: the one that
/// is handed in, else the node's own, else none.
pub open spec fn schema_in_force(node: NodeView, schema: Option<SchemaView>) -> Option<SchemaView> {
    match schema {
        Some(s) => Some(s),
        None => node.schema,
    }
}

/// The node after `object` is attached to the file `name`, or why it cannot
/// be attached.
pub open spec fn put_object_spec(
    node: NodeView,
    name: Seq<char>,
    object: ObjectView,
    schema: Option<SchemaView>,
) -> Result<NodeView, NodeErrorView> {
    if is_reserved(name) {
        Err(NodeErrorView::ReservedName(name))
    } else if node.links.contains_key(name) && node.links[name] is Data {
        let cid = node.links[name]->Data_0;
        let attached = stamped(object, node.links[name]->Data_1);
        let fits = match schema_in_force(node, schema) {
            Some(s) => validation_result(s, attached.properties),
            None => Ok(()),
        };
        match fits {
            Ok(_) => Ok(NodeView { links: node.links.insert(name, NodeLinkView::Data(cid, Some(attached))), ..node }),
            Err(e) => Err(NodeErrorView::Schema(e)),
        }
    } else {
        Err(NodeErrorView::LinkNotFound(name))
    }
}

/// The objects attached to the files of a node, in their written form.
pub open spec fn attached_objects(links: Map<Seq<char>, NodeLinkView>) -> Map<Seq<char>, IpldView> {
    Map::new(
        |k: Seq<char>| links.contains_key(k) && links[k] is Data && links[k]->Data_1 is Some,
        |k: Seq<char>| object_ipld(links[k]->Data_1->0),
    )
}

/// The entries of a node's block: the objects under the first kept name, the
/// schema, where there is one, under the second, and under every other name
/// of the node the link to what it names.
pub open spec fn node_entries(node: NodeView) -> Map<Seq<char>, IpldView> {
    Map::new(
        |k: Seq<char>| k == attached_key() || (k == schema_key() && node.schema is Some) || node.links.contains_key(k),
        |k: Seq<char>|
            if k == attached_key() {
                IpldView::Dict(attached_objects(node.links))
            } else if k == schema_key() && node.schema is Some {
                schema_ipld(node.schema->0)
            } else {
                IpldView::Link(link_cid(node.links[k]))
            },
    )
}

/// The written form of a node.
pub open spec fn node_ipld(node: NodeView) -> IpldView {
    IpldView::Dict(node_entries(node))
}

/// The identifier of a node's block, where the node has a block.
pub open spec fn node_cid(node: NodeView) -> Option<CidView> {
    ipld_cid(node_ipld(node))
}

/// The objects that the block of a node holds, in their written form.
pub open spec fn written_objects(m: Map<Seq<char>, IpldView>) -> Map<Seq<char>, IpldView> {
    if m.contains_key(attached_key()) && m[attached_key()] is Dict {
        m[attached_key()]->Dict_0
    } else {
        Map::empty()
    }
}

/// The link that the entry `k` of a node's block stands for.
pub open spec fn written_link(m: Map<Seq<char>, IpldView>, k: Seq<char>) -> NodeLinkView {
    let cid = m[k]->Link_0;
    let objects = written_objects(m);
    if objects.contains_key(k) {
        NodeLinkView::Data(cid, Some(ipld_object(objects[k])->Ok_0))
    } else {
        link_for(cid)
    }
}

/// The links that the entries of a node's block stand for: one for each
/// entry that holds a link under a name that is not kept.
pub open spec fn written_links(m: Map<Seq<char>, IpldView>) -> Map<Seq<char>, NodeLinkView> {
    Map::new(
        |k: Seq<char>| m.contains_key(k) && !is_reserved(k) && m[k] is Link,
        |k: Seq<char>| written_link(m, k),
    )
}

/// Whether the entry `n` of a map of written objects is no object.
pub open spec fn bad_object(objects: Map<Seq<char>, IpldView>, n: Seq<char>) -> bool {
    objects.contains_key(n) && ipld_object(objects[n]) is Err
}

/// The node that a value stands for, or why it stands for none: the first
/// written object, in the order of names, that is no object; else the
/// schema, where it is no schema.
pub open spec fn ipld_node(value: IpldView) -> Result<NodeView, NodeErrorView> {
    match value {
        IpldView::Dict(m) => {
            let objects = written_objects(m);
            if m.contains_key(attached_key()) && !(m[attached_key()] is Dict) {
                Err(NodeErrorView::NotAMap(attached_key()))
            } else if exists|n: Seq<char>| bad_object(objects, n) {
                Err(
                    NodeErrorView::Object(
                        ipld_object(objects[first_name(|n: Seq<char>| bad_object(objects, n))])->Err_0,
                    ),
                )
            } else if m.contains_key(schema_key()) && ipld_schema(m[schema_key()]) is Err {
                Err(NodeErrorView::Schema(ipld_schema(m[schema_key()])->Err_0))
            } else {
                Ok(
                    NodeView {
                        links: written_links(m),
                        schema: if m.contains_key(schema_key()) {
                            Some(ipld_schema(m[schema_key()])->Ok_0)
                        } else {
                            None
                        },
                    },
                )
            }
        },
        _ => Err(NodeErrorView::NotAMap(whole_value_name())),
    }
}

/// Whether a node comes back from its written form: no link bears a kept
/// name, a file without object points to a payload block and a directory to
/// none, and every attached object comes back from its own written form.
pub open spec fn node_writable(node: NodeView) -> bool {
    forall|k: Seq<char>| #[trigger]
        node.links.contains_key(k) ==> {
            &&& !is_reserved(k)
            &&& match node.links[k] {
                NodeLinkView::Data(cid, None) => cid.codec == RAW_CODEC,
                NodeLinkView::Data(_, Some(object)) => object_writable(object),
                NodeLinkView::Node(cid) => cid.codec != RAW_CODEC,
            }
        }
}

/// Reading the written form of a node gives the node back.
pub proof fn lemma_node_round_trip(node: NodeView)
    requires
        node_writable(node),
    ensures
        ipld_node(node_ipld(node)) == Ok::<NodeView, NodeErrorView>(node),
{
    lemma_reserved_keys_differ();
    let m = node_entries(node);
    let objects = written_objects(m);
    assert(m.contains_key(attached_key()));
    assert(objects == attached_objects(node.links));
    assert forall|n: Seq<char>| !bad_object(objects, n) by {
        if objects.contains_key(n) {
            assert(node.links.contains_key(n));
            lemma_object_round_trip(node.links[n]->Data_1->0);
        }
    }
    if node.schema is Some {
        lemma_schema_ipld_round_trip(node.schema->0);
        assert(m.contains_key(schema_key()));
    } else {
        assert(!m.contains_key(schema_key())) by {
            if node.links.contains_key(schema_key()) {
                assert(!is_reserved(schema_key()));
            }
        }
    }
    assert forall|k: Seq<char>| written_links(m).contains_key(k) == node.links.contains_key(k) by {
        if node.links.contains_key(k) {
            assert(!is_reserved(k));
        }
    }
    assert forall|k: Seq<char>| #[trigger] node.links.contains_key(k) implies written_links(m)[k] == node.links[k] by {
        assert(!is_reserved(k));
        if objects.contains_key(k) {
            lemma_object_round_trip(node.links[k]->Data_1->0);
        }
    }
    assert(written_links(m) =~= node.links);
}

/// A link of a node: a file, with the object attached to it if there is one,
/// or a directory.
#[derive(Debug, PartialEq, Eq)]
pub enum NodeLink {
    Data(Cid, Option<Object>),
    Node(Cid),
}

impl View for NodeLink {
    type V = NodeLinkView;

    open spec fn view(&self) -> NodeLinkView {
        match self {
            NodeLink::Data(cid, object) => NodeLinkView::Data(
                cid@,
                match object {
                    Some(o) => Some(o@),
                    None => None,
                },
            ),
            NodeLink::Node(cid) => NodeLinkView::Node(cid@),
        }
    }
}

impl NodeLink {
    /// The identifier that the link points to.
    pub fn cid(&self) -> (r: &Cid)
        ensures
            r@ == link_cid(self@),
    {
        match self {
            NodeLink::Data(cid, _) => cid,
            NodeLink::Node(cid) => cid,
        }
    }

    /// Whether the link is a file.
    pub fn is_data(&self) -> (r: bool)
        ensures
            r == (self@ is Data),
    {
        match self {
            NodeLink::Data(_, _) => true,
            NodeLink::Node(_) => false,
        }
    }

    /// The written form of the link: a link to what it points to.
    pub fn to_ipld(&self) -> (r: Ipld)
        ensures
            r@ == IpldView::Link(link_cid(self@)),
    {
        Ipld::Link(self.cid().clone())
    }
}

impl Clone for NodeLink {
    fn clone(&self) -> (r: Self)
        ensures
            r@ == self@,
    {
        match self {
            NodeLink::Data(cid, object) => NodeLink::Data(
                cid.clone(),
                match object {
                    Some(o) => Some(o.clone()),
                    None => None,
                },
            ),
            NodeLink::Node(cid) => NodeLink::Node(cid.clone()),
        }
    }
}

/// Why an operation on a node fails, or a value is no node.
#[derive(Debug, PartialEq, Eq)]
pub enum NodeError {
    /// The node has no block.
    BlockEncoding,
    /// The value, or the entry of this name, is no map.
    NotAMap(String),
    /// An attached object is no object.
    Object(ObjectError),
    /// The schema is no schema, or an object does not fit it.
    Schema(SchemaError),
    /// The name is kept for the node's block.
    ReservedName(String),
    /// The node has no file of this name.
    LinkNotFound(String),
}

impl View for NodeError {
    type V = NodeErrorView;

    open spec fn view(&self) -> NodeErrorView {
        match self {
            NodeError::BlockEncoding => NodeErrorView::BlockEncoding,
            NodeError::NotAMap(name) => NodeErrorView::NotAMap(name@),
            NodeError::Object(e) => NodeErrorView::Object(e@),
            NodeError::Schema(e) => NodeErrorView::Schema(e@),
            NodeError::ReservedName(name) => NodeErrorView::ReservedName(name@),
            NodeError::LinkNotFound(name) => NodeErrorView::LinkNotFound(name@),
        }
    }
}

/// The views of the links of a map.
pub open spec fn links_view(m: Map<Seq<char>, NodeLink>) -> Map<Seq<char>, NodeLinkView> {
    Map::new(|k: Seq<char>| m.contains_key(k), |k: Seq<char>| m[k]@)
}

/// A directory of a mount.
#[derive(Debug, PartialEq, Eq)]
pub struct Node {
    links: SortedMap<NodeLink>,
    schema: Option<Schema>,
}

impl View for Node {
    type V = NodeView;

    closed spec fn view(&self) -> NodeView {
        NodeView {
            links: links_view(self.links@),
            schema: match self.schema {
                Some(s) => Some(s@),
                None => None,
            },
        }
    }
}

/// The view of a result of reading a node.
pub open spec fn node_result_view(r: Result<Node, NodeError>) -> Result<NodeView, NodeErrorView> {
    match r {
        Ok(node) => Ok(node@),
        Err(e) => Err(e@),
    }
}

/// Whether a name is kept for the node's block.
pub fn name_is_reserved(name: &str) -> (r: bool)
    ensures
        r == is_reserved(name@),
{
    names_equal(name, ".attached") || names_equal(name, ".schema")
}

impl Node {
    /// The node's schema, if it has one.
    pub fn schema(&self) -> (r: Option<&Schema>)
        ensures
            r is Some == self@.schema is Some,
            r is Some ==> r->0@ == self@.schema->0,
    {
        self.schema.as_ref()
    }

    /// Gives the node a schema.
    pub fn set_schema(&mut self, schema: Schema)
        ensures
            final(self)@ == (NodeView { schema: Some(schema@), ..old(self)@ }),
    {
        self.schema = Some(schema);
    }

    /// Takes the node's schema away.
    pub fn clear_schema(&mut self)
        ensures
            final(self)@ == (NodeView { schema: None, ..old(self)@ }),
    {
        self.schema = None;
    }

    /// The identifier of the node's block.
    pub fn cid(&self) -> (r: Result<Cid, NodeError>)
        ensures
            r is Ok == node_cid(self@) is Some,
            r is Ok ==> r->Ok_0@ == node_cid(self@)->0 && structured_cid(r->Ok_0@),
            r is Err ==> r->Err_0 == NodeError::BlockEncoding,
    {
        let ipld = self.to_ipld();
        match ipld_to_cid(&ipld) {
            Ok(cid) => Ok(cid),
            Err(_) => Err(NodeError::BlockEncoding),
        }
    }

    /// Puts `cid` under `name`: as a file without object where `cid` names a
    /// payload block, else as a directory.
    pub fn put_link(&mut self, name: &str, cid: Cid) -> (r: Result<(), NodeError>)
        ensures
            match put_link_spec(old(self)@, name@, cid@) {
                Ok(node) => r is Ok && final(self)@ == node,
                Err(e) => r is Err && r->Err_0@ == e && final(self)@ == old(self)@,
            },
    {
        if name_is_reserved(name) {
            return Err(NodeError::ReservedName(name.to_string()));
        }
        let link = if cid.is_raw() {
            NodeLink::Data(cid, None)
        } else {
            NodeLink::Node(cid)
        };
        self.links.insert(name.to_string(), link);
        proof {
            assert(self@.links =~= old(self)@.links.insert(name@, link_for(cid@)));
        }
        Ok(())
    }

    /// The link under `name`, if there is one.
    pub fn get_link(&self, name: &str) -> (r: Option<&NodeLink>)
        ensures
            r is Some == self@.links.contains_key(name@),
            r is Some ==> r->0@ == self@.links[name@],
    {
        self.links.get(name)
    }

    /// The links of the node, in the order of their names.
    pub fn get_links(&self) -> (r: &SortedMap<NodeLink>)
        ensures
            links_view(r@) == self@.links,
    {
        &self.links
    }

    /// Attaches `object` to the file `name`. The object keeps the time of
    /// creation of the object that was attached before, and is held to
    /// `schema`, or else to the node's own schema.
    pub fn put_object(&mut self, name: &str, object: &Object, schema: Option<&Schema>) -> (r: Result<(), NodeError>)
        ensures
            match put_object_spec(
                old(self)@,
                name@,
                object@,
                match schema {
                    Some(s) => Some(s@),
                    None => None,
                },
            ) {
                Ok(node) => r is Ok && final(self)@ == node,
                Err(e) => r is Err && r->Err_0@ == e && final(self)@ == old(self)@,
            },
    {
        if name_is_reserved(name) {
            return Err(NodeError::ReservedName(name.to_string()));
        }
        let mut attached = object.clone();
        let cid = match self.links.get(name) {
            Some(NodeLink::Data(cid, prior)) => {
                match prior {
                    Some(p) => {
                        attached.set_created_at(*p.created_at());
                    },
                    None => {},
                }
                cid.clone()
            },
            _ => {
                return Err(NodeError::LinkNotFound(name.to_string()));
            },
        };
        let checked = match schema {
            Some(s) => s.validate(&attached),
            None => match &self.schema {
                Some(s) => s.validate(&attached),
                None => Ok(()),
            },
        };
        match checked {
            Ok(_) => {},
            Err(e) => {
                return Err(NodeError::Schema(e));
            },
        }
        let ghost link = NodeLinkView::Data(cid@, Some(attached@));
        self.links.insert(name.to_string(), NodeLink::Data(cid, Some(attached)));
        proof {
            assert(self@.links =~= old(self)@.links.insert(name@, link));
        }
        Ok(())
    }

    /// Takes the link under `name` out of the node, and hands it back.
    pub fn del(&mut self, name: &str) -> (r: Option<NodeLink>)
        ensures
            final(self)@ == (NodeView { links: old(self)@.links.remove(name@), ..old(self)@ }),
            r is Some == old(self)@.links.contains_key(name@),
            r is Some ==> r->0@ == old(self)@.links[name@],
    {
        let r = self.links.remove(name);
        proof {
            assert(self@.links =~= old(self)@.links.remove(name@));
        }
        r
    }

    /// The number of links.
    pub fn size(&self) -> (r: usize)
        ensures
            self@.links.dom().finite(),
            r == self@.links.len(),
            (r == 0) == (self@.links == Map::<Seq<char>, NodeLinkView>::empty()),
    {
        let n = self.links.len();
        proof {
            assert(self@.links.dom() =~= self.links@.dom());
            if n == 0 {
                lemma_in_prefix_all(self.links.seq());
                assert(self@.links =~= Map::<Seq<char>, NodeLinkView>::empty());
            } else {
                lemma_in_prefix_step(self.links.seq(), 0);
                assert(self@.links.contains_key(self.links.seq()[0].0));
            }
        }
        n
    }
}

impl Node {
    /// The objects attached to the files of the node, in their written form.
    fn attached_to_ipld(&self) -> (r: SortedMap<Ipld>)
        ensures
            dict_view(r@) == attached_objects(self@.links),
    {
        let n = self.links.len();
        let mut objects: SortedMap<Ipld> = SortedMap::new();
        let mut i: usize = 0;
        proof {
            if n > 0 {
                lemma_in_prefix_step(self.links.seq(), 0);
            }
        }
        while i < n
            invariant
                i <= n,
                n == self.links.seq().len(),
                sorted_keys(self.links.seq()),
                forall|k: Seq<char>| #[trigger] objects@.contains_key(k) <==> in_prefix(self.links.seq(), i as int, k) && attached_objects(self@.links).contains_key(k),
                forall|k: Seq<char>| #[trigger] objects@.contains_key(k) ==> objects@[k]@ == attached_objects(self@.links)[k],
            decreases n - i,
        {
            proof {
                lemma_in_prefix_step(self.links.seq(), i as int);
            }
            match self.links.value_at(i) {
                NodeLink::Data(_, Some(object)) => {
                    let name = self.links.key_at(i).clone();
                    objects.push_back(name, object.to_ipld());
                },
                _ => {},
            }
            i = i + 1;
        }
        proof {
            lemma_in_prefix_all(self.links.seq());
            assert(dict_view(objects@) =~= attached_objects(self@.links));
        }
        objects
    }

    /// The written form of the node.
    pub fn to_ipld(&self) -> (r: Ipld)
        ensures
            r@ == node_ipld(self@),
    {
        let n = self.links.len();
        let mut map: SortedMap<Ipld> = SortedMap::new();
        let mut i: usize = 0;
        proof {
            if n > 0 {
                lemma_in_prefix_step(self.links.seq(), 0);
            }
        }
        while i < n
            invariant
                i <= n,
                n == self.links.seq().len(),
                sorted_keys(self.links.seq()),
                forall|k: Seq<char>| #[trigger] map@.contains_key(k) <==> in_prefix(self.links.seq(), i as int, k),
                forall|k: Seq<char>| #[trigger] map@.contains_key(k) ==> map@[k]@ == IpldView::Link(link_cid(self@.links[k])),
            decreases n - i,
        {
            proof {
                lemma_in_prefix_step(self.links.seq(), i as int);
            }
            let name = self.links.key_at(i).clone();
            let link = self.links.value_at(i).to_ipld();
            map.push_back(name, link);
            i = i + 1;
        }
        proof {
            lemma_in_prefix_all(self.links.seq());
        }
        match &self.schema {
            Some(schema) => {
                map.insert(".schema".to_string(), schema.to_ipld());
            },
            None => {},
        }
        let objects = self.attached_to_ipld();
        proof {
            lemma_dict_view(objects);
        }
        map.insert(".attached".to_string(), Ipld::Dict(objects));
        proof {
            lemma_dict_view(map);
            assert(dict_view(map@) =~= node_entries(self@));
        }
        Ipld::Dict(map)
    }

    /// Reads the objects attached to the files of a node from their written
    /// form, in the order of names.
    fn read_attached(source: &SortedMap<Ipld>) -> (r: Result<SortedMap<Object>, ObjectError>)
        ensures
            match r {
                Ok(objects) => {
                    &&& forall|n: Seq<char>| !bad_object(dict_view(source@), n)
                    &&& forall|k: Seq<char>| objects@.contains_key(k) == source@.contains_key(k)
                    &&& forall|k: Seq<char>| #[trigger] objects@.contains_key(k) ==> ipld_object(source@[k]@) == Ok::<ObjectView, ObjectErrorView>(objects@[k]@)
                },
                Err(e) => {
                    let first = first_name(|n: Seq<char>| bad_object(dict_view(source@), n));
                    &&& bad_object(dict_view(source@), first)
                    &&& ipld_object(dict_view(source@)[first]) == Err::<ObjectView, ObjectErrorView>(e@)
                },
            },
    {
        let ghost m = dict_view(source@);
        let n = source.len();
        let mut objects: SortedMap<Object> = SortedMap::new();
        let mut i: usize = 0;
        proof {
            if n > 0 {
                lemma_in_prefix_step(source.seq(), 0);
            }
        }
        while i < n
            invariant
                i <= n,
                n == source.seq().len(),
                sorted_keys(source.seq()),
                m == dict_view(source@),
                forall|k: Seq<char>| #[trigger] objects@.contains_key(k) <==> in_prefix(source.seq(), i as int, k),
                forall|k: Seq<char>| #[trigger] objects@.contains_key(k) ==> ipld_object(m[k]) == Ok::<ObjectView, ObjectErrorView>(objects@[k]@),
            decreases n - i,
        {
            proof {
                lemma_in_prefix_step(source.seq(), i as int);
                lemma_in_prefix_all(source.seq());
            }
            let name = source.key_at(i);
            let ghost key = name@;
            let object = match Object::try_from_ipld(source.value_at(i)) {
                Ok(object) => object,
                Err(e) => {
                    proof {
                        let bad = |x: Seq<char>| bad_object(m, x);
                        assert(bad(key));
                        assert forall|x: Seq<char>| name_lt(x, key) implies !#[trigger] bad(x) by {
                            if m.contains_key(x) {
                                assert(in_prefix(source.seq(), n as int, x));
                                let j = choose|j: int| 0 <= j < n && j < source.seq().len() && (#[trigger] source.seq()[j]).0 == x;
                                if j > i {
                                    lemma_name_lt_asymmetric(source.seq()[i as int].0, source.seq()[j].0);
                                } else if j == i {
                                    lemma_name_lt_irreflexive(key);
                                }
                                assert(in_prefix(source.seq(), i as int, x));
                                assert(objects@.contains_key(x));
                            }
                        }
                        lemma_first_name(bad, key);
                    }
                    return Err(e);
                },
            };
            objects.push_back(name.clone(), object);
            i = i + 1;
        }
        proof {
            lemma_in_prefix_all(source.seq());
            assert forall|x: Seq<char>| !bad_object(m, x) by {
                if m.contains_key(x) {
                    assert(objects@.contains_key(x));
                }
            }
        }
        Ok(objects)
    }

    /// Reads a node from its written form.
    pub fn try_from_ipld(value: &Ipld) -> (r: Result<Node, NodeError>)
        ensures
            node_result_view(r) == ipld_node(value@),
    {
        let source = match value {
            Ipld::Dict(m) => m,
            _ => {
                return Err(NodeError::NotAMap("ipld".to_string()));
            },
        };
        proof {
            lemma_dict_view(*source);
            lemma_reserved_keys_differ();
        }
        let ghost m = dict_view(source@);
        let objects = match source.get(".attached") {
            Some(Ipld::Dict(written)) => {
                proof {
                    lemma_dict_view(*written);
                }
                match Node::read_attached(written) {
                    Ok(objects) => objects,
                    Err(e) => {
                        return Err(NodeError::Object(e));
                    },
                }
            },
            Some(_) => {
                return Err(NodeError::NotAMap(".attached".to_string()));
            },
            None => SortedMap::new(),
        };
        proof {
            assert forall|x: Seq<char>| !bad_object(written_objects(m), x) by {}
        }
        let schema = match source.get(".schema") {
            Some(written) => match Schema::try_from_ipld(written) {
                Ok(schema) => Some(schema),
                Err(e) => {
                    return Err(NodeError::Schema(e));
                },
            },
            None => None,
        };
        let n = source.len();
        let mut links: SortedMap<NodeLink> = SortedMap::new();
        let mut i: usize = 0;
        proof {
            if n > 0 {
                lemma_in_prefix_step(source.seq(), 0);
            }
        }
        while i < n
            invariant
                i <= n,
                n == source.seq().len(),
                sorted_keys(source.seq()),
                m == dict_view(source@),
                forall|k: Seq<char>| objects@.contains_key(k) == written_objects(m).contains_key(k),
                forall|k: Seq<char>| #[trigger] objects@.contains_key(k) ==> ipld_object(written_objects(m)[k]) == Ok::<ObjectView, ObjectErrorView>(objects@[k]@),
                forall|k: Seq<char>| #[trigger] links@.contains_key(k) <==> in_prefix(source.seq(), i as int, k) && written_links(m).contains_key(k),
                forall|k: Seq<char>| #[trigger] links@.contains_key(k) ==> links@[k]@ == written_link(m, k),
            decreases n - i,
        {
            proof {
                lemma_in_prefix_step(source.seq(), i as int);
            }
            let name = source.key_at(i);
            match source.value_at(i) {
                Ipld::Link(cid) => {
                    if !name_is_reserved(name.as_str()) {
                        let link = match objects.get(name.as_str()) {
                            Some(object) => NodeLink::Data(cid.clone(), Some(object.clone())),
                            None => if cid.is_raw() {
                                NodeLink::Data(cid.clone(), None)
                            } else {
                                NodeLink::Node(cid.clone())
                            },
                        };
                        links.push_back(name.clone(), link);
                    }
                },
                _ => {},
            }
            i = i + 1;
        }
        let node = Node { links, schema };
        proof {
            lemma_in_prefix_all(source.seq());
            assert(node@.links =~= written_links(m));
        }
        Ok(node)
    }
}

impl Clone for Node {
    fn clone(&self) -> (r: Self)
        ensures
            r@ == self@,
    {
        let n = self.links.len();
        let mut links: SortedMap<NodeLink> = SortedMap::new();
        let mut i: usize = 0;
        proof {
            if n > 0 {
                lemma_in_prefix_step(self.links.seq(), 0);
            }
        }
        while i < n
            invariant
                i <= n,
                n == self.links.seq().len(),
                sorted_keys(self.links.seq()),
                forall|k: Seq<char>| #[trigger] links@.contains_key(k) <==> in_prefix(self.links.seq(), i as int, k),
                forall|k: Seq<char>| #[trigger] links@.contains_key(k) ==> links@[k]@ == self.links@[k]@,
            decreases n - i,
        {
            proof {
                lemma_in_prefix_step(self.links.seq(), i as int);
            }
            let name = self.links.key_at(i).clone();
            let link = self.links.value_at(i).clone();
            links.push_back(name, link);
            i = i + 1;
        }
        let schema = match &self.schema {
            Some(s) => Some(s.clone()),
            None => None,
        };
        let r = Node { links, schema };
        proof {
            lemma_in_prefix_all(self.links.seq());
            assert(r@.links =~= self@.links);
        }
        r
    }
}

impl Default for Node {
    /// The node without links and without schema.
    fn default() -> (r: Self)
        ensures
            r@ == empty_node(),
    {
        let r = Node { links: SortedMap::new(), schema: None };
        proof {
            assert(r@.links =~= Map::<Seq<char>, NodeLinkView>::empty());
        }
        r
    }
}

} // verus!
