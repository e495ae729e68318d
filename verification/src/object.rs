//! Objects: the metadata attached to a file. Two times and a map of
//! properties, written into a block as one flat map.

use vstd::prelude::*;
use crate::ipld::{clone_dict, dict_view, lemma_dict_view, lemma_dict_view_insert, lemma_dict_view_remove, lemma_dict_view_empty, Ipld, IpldView};
use crate::sorted_map::SortedMap;
use crate::timestamp::{timestamp_accepted, Timestamp};

verus! {

/// The name under which an object's time of creation is written.
pub open spec fn created_at_key() -> Seq<char> {
    "created_at"@
}

/// The name under which an object's time of last change is written.
pub open spec fn updated_at_key() -> Seq<char> {
    "updated_at"@
}

/// The name under which older blocks hold an object's properties.
pub open spec fn legacy_metadata_key() -> Seq<char> {
    "metadata"@
}

/// The three names that an object's written form keeps for itself differ.
pub proof fn lemma_object_keys_differ()
    ensures
        created_at_key() != updated_at_key(),
        created_at_key() != legacy_metadata_key(),
        updated_at_key() != legacy_metadata_key(),
{
    reveal_strlit("created_at");
    reveal_strlit("updated_at");
    reveal_strlit("metadata");
    assert("created_at"@[0] != "updated_at"@[0]);
    assert("created_at"@.len() != "metadata"@.len());
    assert("updated_at"@.len() != "metadata"@.len());
}

/// What an object is.
pub struct ObjectView {
    pub created_at: i128,
    pub updated_at: i128,
    pub properties: Map<Seq<char>, IpldView>,
}

/// Why a value is no object.
pub enum ObjectErrorView {
    NotAMap,
    MissingField(Seq<char>),
    InvalidDateTime,
}

/// The written form of an object: its properties and, beside them, the two
/// times under their names.
pub open spec fn object_ipld(object: ObjectView) -> IpldView {
    IpldView::Dict(
        object.properties.insert(created_at_key(), IpldView::Integer(object.created_at)).insert(
            updated_at_key(),
            IpldView::Integer(object.updated_at),
        ),
    )
}

/// The properties that a written map holds beside the two times: the map
/// under the legacy name where there is one, else all the other entries.
pub open spec fn written_properties(m: Map<Seq<char>, IpldView>) -> Map<Seq<char>, IpldView> {
    let rest = m.remove(created_at_key()).remove(updated_at_key());
    if rest.contains_key(legacy_metadata_key()) && rest[legacy_metadata_key()] is Dict {
        rest[legacy_metadata_key()]->Dict_0
    } else {
        rest.remove(legacy_metadata_key())
    }
}

/// The object that a value stands for, or why it stands for none.
pub open spec fn ipld_object(value: IpldView) -> Result<ObjectView, ObjectErrorView> {
    match value {
        IpldView::Dict(m) => {
            if !(m.contains_key(created_at_key()) && m[created_at_key()] is Integer) {
                Err(ObjectErrorView::MissingField(created_at_key()))
            } else if !timestamp_accepted(m[created_at_key()]->Integer_0) {
                Err(ObjectErrorView::InvalidDateTime)
            } else if !(m.contains_key(updated_at_key()) && m[updated_at_key()] is Integer) {
                Err(ObjectErrorView::MissingField(updated_at_key()))
            } else if !timestamp_accepted(m[updated_at_key()]->Integer_0) {
                Err(ObjectErrorView::InvalidDateTime)
            } else {
                Ok(
                    ObjectView {
                        created_at: m[created_at_key()]->Integer_0,
                        updated_at: m[updated_at_key()]->Integer_0,
                        properties: written_properties(m),
                    },
                )
            }
        },
        _ => Err(ObjectErrorView::NotAMap),
    }
}

/// An object after a change at the time `now`: the time of its last change
/// is that time.
pub open spec fn touched(object: ObjectView, now: i128) -> ObjectView {
    ObjectView { updated_at: now, ..object }
}

/// Whether an object comes back from its written form: its times are times
/// that can be held, and no property bears one of the three kept names.
pub open spec fn object_writable(object: ObjectView) -> bool {
    &&& timestamp_accepted(object.created_at)
    &&& timestamp_accepted(object.updated_at)
    &&& !object.properties.contains_key(created_at_key())
    &&& !object.properties.contains_key(updated_at_key())
    &&& !object.properties.contains_key(legacy_metadata_key())
}

/// Reading the written form of an object gives the object back.
pub proof fn lemma_object_round_trip(object: ObjectView)
    requires
        object_writable(object),
    ensures
        ipld_object(object_ipld(object)) == Ok::<ObjectView, ObjectErrorView>(object),
{
    lemma_object_keys_differ();
    let m = object_ipld(object)->Dict_0;
    assert(written_properties(m) =~= object.properties);
}

/// The metadata attached to a file.
#[derive(Debug, PartialEq, Eq)]
pub struct Object {
    created_at: Timestamp,
    updated_at: Timestamp,
    properties: SortedMap<Ipld>,
}

/// Why a value is no object.
#[derive(Debug, PartialEq, Eq)]
pub enum ObjectError {
    /// The value is no map.
    NotAMap,
    /// The map lacks one of the two times, or holds no integer there.
    MissingField(String),
    /// One of the two times is outside what can be held.
    InvalidDateTime,
}

impl View for ObjectError {
    type V = ObjectErrorView;

    open spec fn view(&self) -> ObjectErrorView {
        match self {
            ObjectError::NotAMap => ObjectErrorView::NotAMap,
            ObjectError::MissingField(name) => ObjectErrorView::MissingField(name@),
            ObjectError::InvalidDateTime => ObjectErrorView::InvalidDateTime,
        }
    }
}

impl View for Object {
    type V = ObjectView;

    closed spec fn view(&self) -> ObjectView {
        ObjectView {
            created_at: self.created_at@,
            updated_at: self.updated_at@,
            properties: dict_view(self.properties@),
        }
    }
}

/// The view of a result of reading an object.
pub open spec fn object_result_view(r: Result<Object, ObjectError>) -> Result<ObjectView, ObjectErrorView> {
    match r {
        Ok(object) => Ok(object@),
        Err(e) => Err(e@),
    }
}

impl Object {
    /// An object with the given properties, or none, made and changed now.
    pub fn new(properties: Option<&SortedMap<Ipld>>) -> (r: Object)
        ensures
            r@.properties == (match properties {
                Some(p) => dict_view(p@),
                None => Map::<Seq<char>, IpldView>::empty(),
            }),
            r@.created_at == r@.updated_at,
            timestamp_accepted(r@.created_at),
    {
        let now = Timestamp::now();
        let properties = match properties {
            Some(p) => clone_dict(p),
            None => {
                proof {
                    lemma_dict_view_empty();
                }
                SortedMap::new()
            },
        };
        Object { created_at: now, updated_at: now, properties }
    }

    /// An object with the given properties and times.
    pub fn with_times(properties: SortedMap<Ipld>, created_at: Timestamp, updated_at: Timestamp) -> (r: Object)
        ensures
            r@ == (ObjectView {
                created_at: created_at@,
                updated_at: updated_at@,
                properties: dict_view(properties@),
            }),
    {
        Object { created_at, updated_at, properties }
    }

    /// The object as it is after a change at the time `now`: with that time
    /// as the time of its last change.
    pub fn touched(&self, now: Timestamp) -> (r: Object)
        ensures
            r@ == touched(self@, now@),
    {
        Object { created_at: self.created_at, updated_at: now, properties: clone_dict(&self.properties) }
    }

    /// Sets the time of creation.
    pub fn set_created_at(&mut self, created_at: Timestamp)
        ensures
            final(self)@ == (ObjectView { created_at: created_at@, ..old(self)@ }),
    {
        self.created_at = created_at;
    }

    /// The time of creation.
    pub fn created_at(&self) -> (r: &Timestamp)
        ensures
            r@ == self@.created_at,
    {
        &self.created_at
    }

    /// The time of the last change.
    pub fn updated_at(&self) -> (r: &Timestamp)
        ensures
            r@ == self@.updated_at,
    {
        &self.updated_at
    }

    /// The properties.
    pub fn properties(&self) -> (r: &SortedMap<Ipld>)
        ensures
            dict_view(r@) == self@.properties,
    {
        &self.properties
    }

    /// Sets the property `key` to `value`.
    pub fn insert(&mut self, key: String, value: Ipld)
        ensures
            final(self)@ == (ObjectView {
                properties: old(self)@.properties.insert(key@, value@),
                ..old(self)@
            }),
    {
        proof {
            lemma_dict_view_insert(self.properties@, key@, value);
        }
        self.properties.insert(key, value);
    }

    /// The written form of the object.
    pub fn to_ipld(&self) -> (r: Ipld)
        ensures
            r@ == object_ipld(self@),
    {
        let mut map = clone_dict(&self.properties);
        let created = Ipld::Integer(self.created_at.unix_nanos());
        let updated = Ipld::Integer(self.updated_at.unix_nanos());
        proof {
            lemma_dict_view_insert(map@, created_at_key(), created);
            lemma_dict_view_insert(map@.insert(created_at_key(), created), updated_at_key(), updated);
        }
        map.insert("created_at".to_string(), created);
        map.insert("updated_at".to_string(), updated);
        proof {
            lemma_dict_view(map);
        }
        Ipld::Dict(map)
    }

    /// Reads an object from its written form, the older form included.
    pub fn try_from_ipld(value: &Ipld) -> (r: Result<Object, ObjectError>)
        ensures
            object_result_view(r) == ipld_object(value@),
    {
        let map = match value {
            Ipld::Dict(m) => m,
            _ => {
                return Err(ObjectError::NotAMap);
            },
        };
        proof {
            lemma_dict_view(*map);
        }
        let created_at = match map.get("created_at") {
            Some(Ipld::Integer(nanos)) => match Timestamp::from_unix_nanos(*nanos) {
                Some(t) => t,
                None => {
                    return Err(ObjectError::InvalidDateTime);
                },
            },
            _ => {
                return Err(ObjectError::MissingField("created_at".to_string()));
            },
        };
        let updated_at = match map.get("updated_at") {
            Some(Ipld::Integer(nanos)) => match Timestamp::from_unix_nanos(*nanos) {
                Some(t) => t,
                None => {
                    return Err(ObjectError::InvalidDateTime);
                },
            },
            _ => {
                return Err(ObjectError::MissingField("updated_at".to_string()));
            },
        };
        let mut rest = clone_dict(map);
        proof {
            lemma_dict_view_remove(rest@, created_at_key());
            lemma_dict_view_remove(rest@.remove(created_at_key()), updated_at_key());
            lemma_dict_view_remove(
                rest@.remove(created_at_key()).remove(updated_at_key()),
                legacy_metadata_key(),
            );
        }
        rest.remove("created_at");
        rest.remove("updated_at");
        let legacy = rest.remove("metadata");
        let properties = match legacy {
            Some(Ipld::Dict(inner)) => {
                proof {
                    lemma_dict_view(inner);
                }
                inner
            },
            _ => rest,
        };
        Ok(Object { created_at, updated_at, properties })
    }
}

impl Clone for Object {
    fn clone(&self) -> (r: Self)
        ensures
            r@ == self@,
    {
        Object {
            created_at: self.created_at,
            updated_at: self.updated_at,
            properties: clone_dict(&self.properties),
        }
    }
}

impl Default for Object {
    /// An object without properties, made and changed now.
    fn default() -> (r: Self)
        ensures
            r@.properties == Map::<Seq<char>, IpldView>::empty(),
            timestamp_accepted(r@.created_at),
            timestamp_accepted(r@.updated_at),
    {
        proof {
            lemma_dict_view_empty();
        }
        Object { created_at: Timestamp::now(), updated_at: Timestamp::now(), properties: SortedMap::new() }
    }
}

} // verus!
