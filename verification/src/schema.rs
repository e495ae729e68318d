//! Schemas: what the properties of the objects of a directory must look like.

use vstd::prelude::*;
use crate::ipld::{dict_view, lemma_dict_view, lemma_dict_view_insert, lemma_dict_view_empty, Ipld, IpldView};
use crate::object::Object;
use crate::sorted_map::{in_prefix, index_of, lemma_in_prefix_all, lemma_in_prefix_step, sorted_keys, SortedMap};
use crate::text::{first_name, lemma_first_name, lemma_name_lt_asymmetric, name_lt, names_equal};

verus! {

/// The kinds of value that a schema can ask of a property.
#[derive(Debug, Clone, Copy, PartialEq, Eq, Structural)]
pub enum SchemaType {
    String,
    Integer,
    Float,
    Bool,
    Null,
    Dict,
    Link,
}

/// What a schema says of one property.
#[derive(Debug, PartialEq, Eq)]
pub struct SchemaProperty {
    /// The kind of value that the property must hold.
    pub property_type: SchemaType,
    /// What the property is for.
    pub description: Option<String>,
    /// Whether every object must have the property.
    pub required: bool,
}

/// What a schema says of one property, as plain values.
pub struct SchemaPropertyView {
    pub property_type: SchemaType,
    pub description: Option<Seq<char>>,
    pub required: bool,
}

/// What a schema is: what it says of each property that it names.
pub type SchemaView = Map<Seq<char>, SchemaPropertyView>;

/// Why an object does not fit a schema, or a value is no schema.
#[derive(Debug, PartialEq, Eq)]
pub enum SchemaError {
    /// The object lacks a property that the schema requires.
    MissingRequired(String),
    /// A property of the object holds a value of another kind than the schema asks.
    TypeMismatch(String),
    /// The value is no map.
    NotAMap,
    /// The entry of this name does not describe a property.
    InvalidProperty(String),
}

/// Why an object does not fit a schema, or a value is no schema, as plain values.
pub enum SchemaErrorView {
    MissingRequired(Seq<char>),
    TypeMismatch(Seq<char>),
    NotAMap,
    InvalidProperty(Seq<char>),
}

impl View for SchemaError {
    type V = SchemaErrorView;

    open spec fn view(&self) -> SchemaErrorView {
        match self {
            SchemaError::MissingRequired(name) => SchemaErrorView::MissingRequired(name@),
            SchemaError::TypeMismatch(name) => SchemaErrorView::TypeMismatch(name@),
            SchemaError::NotAMap => SchemaErrorView::NotAMap,
            SchemaError::InvalidProperty(name) => SchemaErrorView::InvalidProperty(name@),
        }
    }
}

impl View for SchemaProperty {
    type V = SchemaPropertyView;

    open spec fn view(&self) -> SchemaPropertyView {
        SchemaPropertyView {
            property_type: self.property_type,
            description: match self.description {
                Some(d) => Some(d@),
                None => None,
            },
            required: self.required,
        }
    }
}

/// Whether a value is of the kind that a schema asks.
pub open spec fn type_matches(kind: SchemaType, value: IpldView) -> bool {
    match kind {
        SchemaType::String => value is String,
        SchemaType::Integer => value is Integer,
        SchemaType::Float => value is Float,
        SchemaType::Bool => value is Bool,
        SchemaType::Null => value is Null,
        SchemaType::Dict => value is Dict,
        SchemaType::Link => value is Link,
    }
}

/// Whether the property `name` keeps a set of properties from fitting a
/// schema: the schema names it, and either it is there with a value of the
/// wrong kind, or it is required and not there.
pub open spec fn property_fails(
    schema: SchemaView,
    properties: Map<Seq<char>, IpldView>,
    name: Seq<char>,
) -> bool {
    schema.contains_key(name) && (if properties.contains_key(name) {
        !type_matches(schema[name].property_type, properties[name])
    } else {
        schema[name].required
    })
}

/// Whether a set of properties fits a schema: no property fails.
pub open spec fn schema_accepts(schema: SchemaView, properties: Map<Seq<char>, IpldView>) -> bool {
    forall|name: Seq<char>| !#[trigger] property_fails(schema, properties, name)
}

/// What the check of a set of properties against a schema answers: nothing
/// where they fit, else the first property in the order of names that fails,
/// with the way it fails.
pub open spec fn validation_outcome(
    schema: SchemaView,
    properties: Map<Seq<char>, IpldView>,
    r: Result<(), SchemaErrorView>,
) -> bool {
    match r {
        Ok(_) => schema_accepts(schema, properties),
        Err(SchemaErrorView::MissingRequired(name)) => {
            &&& property_fails(schema, properties, name)
            &&& !properties.contains_key(name)
            &&& forall|n: Seq<char>| name_lt(n, name) ==> !#[trigger] property_fails(schema, properties, n)
        },
        Err(SchemaErrorView::TypeMismatch(name)) => {
            &&& property_fails(schema, properties, name)
            &&& properties.contains_key(name)
            &&& forall|n: Seq<char>| name_lt(n, name) ==> !#[trigger] property_fails(schema, properties, n)
        },
        Err(_) => false,
    }
}

/// What the check of a set of properties against a schema answers, as a
/// function of the two.
pub open spec fn validation_result(
    schema: SchemaView,
    properties: Map<Seq<char>, IpldView>,
) -> Result<(), SchemaErrorView> {
    if schema_accepts(schema, properties) {
        Ok(())
    } else {
        let name = first_name(|n: Seq<char>| property_fails(schema, properties, n));
        if properties.contains_key(name) {
            Err(SchemaErrorView::TypeMismatch(name))
        } else {
            Err(SchemaErrorView::MissingRequired(name))
        }
    }
}

/// The check has one answer.
pub proof fn lemma_validation_result(
    schema: SchemaView,
    properties: Map<Seq<char>, IpldView>,
    r: Result<(), SchemaErrorView>,
)
    requires
        validation_outcome(schema, properties, r),
    ensures
        r == validation_result(schema, properties),
{
    let fails = |n: Seq<char>| property_fails(schema, properties, n);
    match r {
        Ok(unit) => {
            assert(unit == ());
        },
        Err(SchemaErrorView::MissingRequired(name)) => {
            assert(fails(name));
            assert forall|n: Seq<char>| name_lt(n, name) implies !#[trigger] fails(n) by {
                assert(!property_fails(schema, properties, n));
            }
            lemma_first_name(fails, name);
        },
        Err(SchemaErrorView::TypeMismatch(name)) => {
            assert(fails(name));
            assert forall|n: Seq<char>| name_lt(n, name) implies !#[trigger] fails(n) by {
                assert(!property_fails(schema, properties, n));
            }
            lemma_first_name(fails, name);
        },
        Err(_) => {},
    }
}

/// The written name of a kind of value.
pub open spec fn kind_name(kind: SchemaType) -> Seq<char> {
    match kind {
        SchemaType::String => "string"@,
        SchemaType::Integer => "integer"@,
        SchemaType::Float => "float"@,
        SchemaType::Bool => "bool"@,
        SchemaType::Null => "null"@,
        SchemaType::Dict => "map"@,
        SchemaType::Link => "link"@,
    }
}

/// The kind of value that a written name stands for.
pub open spec fn named_type(name: Seq<char>) -> Option<SchemaType> {
    if name == "string"@ {
        Some(SchemaType::String)
    } else if name == "integer"@ {
        Some(SchemaType::Integer)
    } else if name == "float"@ {
        Some(SchemaType::Float)
    } else if name == "bool"@ {
        Some(SchemaType::Bool)
    } else if name == "null"@ {
        Some(SchemaType::Null)
    } else if name == "map"@ {
        Some(SchemaType::Dict)
    } else if name == "link"@ {
        Some(SchemaType::Link)
    } else {
        None
    }
}

/// Each kind of value is read back from its written name.
pub proof fn lemma_kind_name_round_trip(kind: SchemaType)
    ensures
        named_type(kind_name(kind)) == Some(kind),
{
    reveal_strlit("string");
    reveal_strlit("integer");
    reveal_strlit("float");
    reveal_strlit("bool");
    reveal_strlit("null");
    reveal_strlit("map");
    reveal_strlit("link");
    assert("bool"@[0] != "null"@[0]);
    assert("bool"@[0] != "link"@[0]);
    assert("null"@[0] != "link"@[0]);
    assert("string"@.len() == 6 && "integer"@.len() == 7 && "float"@.len() == 5);
    assert("bool"@.len() == 4 && "null"@.len() == 4 && "map"@.len() == 3 && "link"@.len() == 4);
}

/// The name under which a property's kind is written.
pub open spec fn type_key() -> Seq<char> {
    "type"@
}

/// The name under which it is written whether a property is required.
pub open spec fn required_key() -> Seq<char> {
    "required"@
}

/// The name under which a property's description is written.
pub open spec fn description_key() -> Seq<char> {
    "description"@
}

/// The three names of a written property differ.
pub proof fn lemma_property_keys_differ()
    ensures
        type_key() != required_key(),
        type_key() != description_key(),
        required_key() != description_key(),
{
    reveal_strlit("type");
    reveal_strlit("required");
    reveal_strlit("description");
    assert("type"@.len() == 4 && "required"@.len() == 8 && "description"@.len() == 11);
}

/// The written form of what a schema says of one property.
pub open spec fn property_ipld(p: SchemaPropertyView) -> IpldView {
    let base = Map::<Seq<char>, IpldView>::empty().insert(
        type_key(),
        IpldView::String(kind_name(p.property_type)),
    ).insert(required_key(), IpldView::Bool(p.required));
    match p.description {
        Some(d) => IpldView::Dict(base.insert(description_key(), IpldView::String(d))),
        None => IpldView::Dict(base),
    }
}

/// What a value says of one property, if it describes one: a map with a
/// known kind under "type", a truth value under "required", and a text, or
/// nothing, under "description".
pub open spec fn ipld_property(value: IpldView) -> Option<SchemaPropertyView> {
    match value {
        IpldView::Dict(d) => {
            if !(d.contains_key(type_key()) && d[type_key()] is String && named_type(
                d[type_key()]->String_0,
            ) is Some) {
                None
            } else if !(d.contains_key(required_key()) && d[required_key()] is Bool) {
                None
            } else if d.contains_key(description_key()) && !(d[description_key()] is String) {
                None
            } else {
                Some(
                    SchemaPropertyView {
                        property_type: named_type(d[type_key()]->String_0)->0,
                        required: d[required_key()]->Bool_0,
                        description: if d.contains_key(description_key()) {
                            Some(d[description_key()]->String_0)
                        } else {
                            None
                        },
                    },
                )
            }
        },
        _ => None,
    }
}

/// What is written of a property is read back.
pub proof fn lemma_property_round_trip(p: SchemaPropertyView)
    ensures
        ipld_property(property_ipld(p)) == Some(p),
{
    lemma_property_keys_differ();
    lemma_kind_name_round_trip(p.property_type);
}

/// The written form of a schema: under each name, the written form of what
/// the schema says of that property.
pub open spec fn schema_ipld(schema: SchemaView) -> IpldView {
    IpldView::Dict(
        Map::new(|name: Seq<char>| schema.contains_key(name), |name: Seq<char>| property_ipld(schema[name])),
    )
}

/// What reading a value as a schema answers: the schema whose properties
/// the entries of the map describe; or that the value is no map; or the first
/// name in the order of names whose entry describes no property.
pub open spec fn schema_reading(value: IpldView, r: Result<SchemaView, SchemaErrorView>) -> bool {
    match value {
        IpldView::Dict(m) => match r {
            Ok(schema) => {
                &&& forall|name: Seq<char>| schema.contains_key(name) == m.contains_key(name)
                &&& forall|name: Seq<char>| #[trigger] m.contains_key(name) ==> ipld_property(m[name]) == Some(schema[name])
            },
            Err(SchemaErrorView::InvalidProperty(name)) => {
                &&& m.contains_key(name)
                &&& ipld_property(m[name]) is None
                &&& forall|n: Seq<char>| name_lt(n, name) && #[trigger] m.contains_key(n) ==> ipld_property(m[n]) is Some
            },
            Err(_) => false,
        },
        _ => r == Err::<SchemaView, SchemaErrorView>(SchemaErrorView::NotAMap),
    }
}

/// What reading a value as a schema answers, as a function of the value.
pub open spec fn ipld_schema(value: IpldView) -> Result<SchemaView, SchemaErrorView> {
    match value {
        IpldView::Dict(m) => {
            if forall|name: Seq<char>| #[trigger] m.contains_key(name) ==> ipld_property(m[name]) is Some {
                Ok(
                    Map::new(
                        |name: Seq<char>| m.contains_key(name),
                        |name: Seq<char>| ipld_property(m[name])->0,
                    ),
                )
            } else {
                Err(
                    SchemaErrorView::InvalidProperty(
                        first_name(|n: Seq<char>| m.contains_key(n) && ipld_property(m[n]) is None),
                    ),
                )
            }
        },
        _ => Err(SchemaErrorView::NotAMap),
    }
}

/// Reading a value as a schema has one answer.
pub proof fn lemma_ipld_schema(value: IpldView, r: Result<SchemaView, SchemaErrorView>)
    requires
        schema_reading(value, r),
    ensures
        r == ipld_schema(value),
{
    match value {
        IpldView::Dict(m) => {
            let bad = |n: Seq<char>| m.contains_key(n) && ipld_property(m[n]) is None;
            match r {
                Ok(schema) => {
                    assert(schema =~= ipld_schema(value)->Ok_0);
                },
                Err(SchemaErrorView::InvalidProperty(name)) => {
                    assert(bad(name));
                    assert forall|n: Seq<char>| name_lt(n, name) implies !#[trigger] bad(n) by {
                        if m.contains_key(n) {
                            assert(ipld_property(m[n]) is Some);
                        }
                    }
                    lemma_first_name(bad, name);
                    assert(m.contains_key(name));
                },
                Err(_) => {},
            }
        },
        _ => {},
    }
}

/// The written form of a schema is read back as the schema.
pub proof fn lemma_schema_ipld_round_trip(schema: SchemaView)
    ensures
        ipld_schema(schema_ipld(schema)) == Ok::<SchemaView, SchemaErrorView>(schema),
{
    let m = schema_ipld(schema)->Dict_0;
    assert forall|name: Seq<char>| #[trigger] m.contains_key(name) implies ipld_property(m[name]) == Some(schema[name]) by {
        lemma_property_round_trip(schema[name]);
    }
    assert(ipld_schema(schema_ipld(schema))->Ok_0 =~= schema);
}

/// A schema.
#[derive(Debug, PartialEq, Eq)]
pub struct Schema {
    properties: SortedMap<SchemaProperty>,
}

/// The views of what a schema says of its properties.
pub open spec fn properties_view(m: Map<Seq<char>, SchemaProperty>) -> SchemaView {
    Map::new(|name: Seq<char>| m.contains_key(name), |name: Seq<char>| m[name]@)
}

impl View for Schema {
    type V = SchemaView;

    closed spec fn view(&self) -> SchemaView {
        properties_view(self.properties@)
    }
}

/// The views of the two ends of a result of reading a schema.
pub open spec fn schema_result_view(r: Result<Schema, SchemaError>) -> Result<SchemaView, SchemaErrorView> {
    match r {
        Ok(schema) => Ok(schema@),
        Err(e) => Err(e@),
    }
}

/// The view of the result of a check.
pub open spec fn check_result_view(r: Result<(), SchemaError>) -> Result<(), SchemaErrorView> {
    match r {
        Ok(_) => Ok(()),
        Err(e) => Err(e@),
    }
}

impl Clone for SchemaProperty {
    fn clone(&self) -> (r: Self)
        ensures
            r@ == self@,
    {
        SchemaProperty {
            property_type: self.property_type,
            description: match &self.description {
                Some(d) => Some(d.clone()),
                None => None,
            },
            required: self.required,
        }
    }
}

/// Whether a value is of the kind that a schema asks.
pub fn value_matches(kind: SchemaType, value: &Ipld) -> (r: bool)
    ensures
        r == type_matches(kind, value@),
{
    match kind {
        SchemaType::String => matches!(value, Ipld::String(_)),
        SchemaType::Integer => matches!(value, Ipld::Integer(_)),
        SchemaType::Float => matches!(value, Ipld::Float(_)),
        SchemaType::Bool => matches!(value, Ipld::Bool(_)),
        SchemaType::Null => matches!(value, Ipld::Null),
        SchemaType::Dict => matches!(value, Ipld::Dict(_)),
        SchemaType::Link => matches!(value, Ipld::Link(_)),
    }
}

/// The written name of a kind of value.
pub fn type_to_name(kind: SchemaType) -> (r: String)
    ensures
        r@ == kind_name(kind),
{
    match kind {
        SchemaType::String => "string".to_string(),
        SchemaType::Integer => "integer".to_string(),
        SchemaType::Float => "float".to_string(),
        SchemaType::Bool => "bool".to_string(),
        SchemaType::Null => "null".to_string(),
        SchemaType::Dict => "map".to_string(),
        SchemaType::Link => "link".to_string(),
    }
}

/// The kind of value that a written name stands for.
pub fn type_from_name(name: &str) -> (r: Option<SchemaType>)
    ensures
        r == named_type(name@),
{
    if names_equal(name, "string") {
        Some(SchemaType::String)
    } else if names_equal(name, "integer") {
        Some(SchemaType::Integer)
    } else if names_equal(name, "float") {
        Some(SchemaType::Float)
    } else if names_equal(name, "bool") {
        Some(SchemaType::Bool)
    } else if names_equal(name, "null") {
        Some(SchemaType::Null)
    } else if names_equal(name, "map") {
        Some(SchemaType::Dict)
    } else if names_equal(name, "link") {
        Some(SchemaType::Link)
    } else {
        None
    }
}

impl SchemaProperty {
    /// The written form of what the schema says of the property.
    pub fn to_ipld(&self) -> (r: Ipld)
        ensures
            r@ == property_ipld(self@),
    {
        let mut map: SortedMap<Ipld> = SortedMap::new();
        let kind = Ipld::String(type_to_name(self.property_type));
        let required = Ipld::Bool(self.required);
        proof {
            lemma_dict_view_empty();
            lemma_dict_view_insert(map@, type_key(), kind);
            lemma_dict_view_insert(map@.insert(type_key(), kind), required_key(), required);
        }
        map.insert("type".to_string(), kind);
        map.insert("required".to_string(), required);
        match &self.description {
            Some(d) => {
                let text = Ipld::String(d.clone());
                proof {
                    lemma_dict_view_insert(map@, description_key(), text);
                }
                map.insert("description".to_string(), text);
            },
            None => {},
        }
        proof {
            lemma_dict_view(map);
        }
        Ipld::Dict(map)
    }

    /// Reads what a value says of a property, if it describes one.
    pub fn try_from_ipld(value: &Ipld) -> (r: Option<SchemaProperty>)
        ensures
            r is Some == ipld_property(value@) is Some,
            r is Some ==> r->0@ == ipld_property(value@)->0,
    {
        let map = match value {
            Ipld::Dict(m) => m,
            _ => {
                return None;
            },
        };
        proof {
            lemma_dict_view(*map);
        }
        let property_type = match map.get("type") {
            Some(Ipld::String(name)) => match type_from_name(name.as_str()) {
                Some(kind) => kind,
                None => {
                    return None;
                },
            },
            _ => {
                return None;
            },
        };
        let required = match map.get("required") {
            Some(Ipld::Bool(b)) => *b,
            _ => {
                return None;
            },
        };
        let description = match map.get("description") {
            Some(Ipld::String(d)) => Some(d.clone()),
            Some(_) => {
                return None;
            },
            None => None,
        };
        Some(SchemaProperty { property_type, description, required })
    }
}

impl Schema {
    /// What the schema says of the property `name`, if it names it.
    pub fn get(&self, name: &str) -> (r: Option<&SchemaProperty>)
        ensures
            r is Some == self@.contains_key(name@),
            r is Some ==> r->0@ == self@[name@],
    {
        self.properties.get(name)
    }

    /// Lets the schema say `property` of the property `name`.
    pub fn insert(&mut self, name: String, property: SchemaProperty)
        ensures
            final(self)@ == old(self)@.insert(name@, property@),
    {
        self.properties.insert(name, property);
        proof {
            assert(self@ =~= old(self)@.insert(name@, property@));
        }
    }

    /// Checks an object against the schema.
    pub fn validate(&self, object: &Object) -> (r: Result<(), SchemaError>)
        ensures
            check_result_view(r) == validation_result(self@, object@.properties),
    {
        let r = self.validate_in_order(object);
        proof {
            lemma_validation_result(self@, object@.properties, check_result_view(r));
        }
        r
    }

    /// Checks an object against the schema, property by property in the
    /// order of names.
    fn validate_in_order(&self, object: &Object) -> (r: Result<(), SchemaError>)
        ensures
            validation_outcome(self@, object@.properties, check_result_view(r)),
    {
        let given = object.properties();
        let n = self.properties.len();
        let ghost schema = self@;
        let ghost properties = object@.properties;
        let mut i: usize = 0;
        while i < n
            invariant
                i <= n,
                n == self.properties.seq().len(),
                sorted_keys(self.properties.seq()),
                schema == self@,
                properties == object@.properties,
                properties == dict_view(given@),
                forall|j: int| 0 <= j < i ==> !property_fails(schema, properties, (#[trigger] self.properties.seq()[j]).0),
            decreases n - i,
        {
            let name = self.properties.key_at(i);
            let property = self.properties.value_at(i);
            let ghost key = name@;
            proof {
                assert(schema[key] == property@);
            }
            let failed = match given.get(name.as_str()) {
                Some(value) => !value_matches(property.property_type, value),
                None => property.required,
            };
            if failed {
                proof {
                    self.lemma_earlier_names(i as int);
                    assert forall|x: Seq<char>| name_lt(x, key) implies !#[trigger] property_fails(schema, properties, x) by {
                        if schema.contains_key(x) {
                            let j = index_of(self.properties.seq(), x);
                            assert(self.properties.seq()[j].0 == x);
                        }
                    }
                }
                if given.contains_key(name.as_str()) {
                    return Err(SchemaError::TypeMismatch(name.clone()));
                } else {
                    return Err(SchemaError::MissingRequired(name.clone()));
                }
            }
            i = i + 1;
        }
        proof {
            assert forall|x: Seq<char>| !#[trigger] property_fails(schema, properties, x) by {
                if schema.contains_key(x) {
                    let j = index_of(self.properties.seq(), x);
                    assert(self.properties.seq()[j].0 == x);
                }
            }
        }
        Ok(())
    }

    /// A name of the schema below the name at `at` stands before `at`.
    proof fn lemma_earlier_names(&self, at: int)
        requires
            sorted_keys(self.properties.seq()),
            0 <= at < self.properties.seq().len(),
        ensures
            forall|j: int| 0 <= j < self.properties.seq().len() && name_lt((#[trigger] self.properties.seq()[j]).0, self.properties.seq()[at].0) ==> j < at,
    {
        let s = self.properties.seq();
        assert forall|j: int| 0 <= j < s.len() && name_lt((#[trigger] s[j]).0, s[at].0) implies j < at by {
            if j > at {
                lemma_name_lt_asymmetric(s[at].0, s[j].0);
            } else if j == at {
                crate::text::lemma_name_lt_irreflexive(s[at].0);
            }
        }
    }

    /// The written form of the schema.
    pub fn to_ipld(&self) -> (r: Ipld)
        ensures
            r@ == schema_ipld(self@),
    {
        let n = self.properties.len();
        let mut map: SortedMap<Ipld> = SortedMap::new();
        let mut i: usize = 0;
        proof {
            if n > 0 {
                lemma_in_prefix_step(self.properties.seq(), 0);
            }
        }
        while i < n
            invariant
                i <= n,
                n == self.properties.seq().len(),
                sorted_keys(self.properties.seq()),
                forall|k: Seq<char>| #[trigger] map@.contains_key(k) <==> in_prefix(self.properties.seq(), i as int, k),
                forall|k: Seq<char>| #[trigger] map@.contains_key(k) ==> map@[k]@ == property_ipld(self@[k]),
            decreases n - i,
        {
            proof {
                lemma_in_prefix_step(self.properties.seq(), i as int);
            }
            let name = self.properties.key_at(i).clone();
            let value = self.properties.value_at(i).to_ipld();
            map.push_back(name, value);
            i = i + 1;
        }
        proof {
            lemma_in_prefix_all(self.properties.seq());
            lemma_dict_view(map);
            assert(dict_view(map@) =~= schema_ipld(self@)->Dict_0);
        }
        Ipld::Dict(map)
    }

    /// Reads a schema from its written form.
    pub fn try_from_ipld(value: &Ipld) -> (r: Result<Schema, SchemaError>)
        ensures
            schema_result_view(r) == ipld_schema(value@),
    {
        let r = Schema::read_in_order(value);
        proof {
            lemma_ipld_schema(value@, schema_result_view(r));
        }
        r
    }

    /// Reads a schema from its written form, entry by entry in the order of
    /// names.
    fn read_in_order(value: &Ipld) -> (r: Result<Schema, SchemaError>)
        ensures
            schema_reading(value@, schema_result_view(r)),
    {
        let source = match value {
            Ipld::Dict(m) => m,
            _ => {
                return Err(SchemaError::NotAMap);
            },
        };
        proof {
            lemma_dict_view(*source);
        }
        let ghost m = dict_view(source@);
        let n = source.len();
        let mut properties: SortedMap<SchemaProperty> = SortedMap::new();
        let mut i: usize = 0;
        proof {
            if n > 0 {
                lemma_in_prefix_step(source.seq(), 0);
            }
        }
        while i < n
            invariant
                i <= n,
                n == source.seq().len(),
                sorted_keys(source.seq()),
                m == dict_view(source@),
                value@ == IpldView::Dict(m),
                forall|k: Seq<char>| #[trigger] properties@.contains_key(k) <==> in_prefix(source.seq(), i as int, k),
                forall|k: Seq<char>| #[trigger] properties@.contains_key(k) ==> ipld_property(m[k]) == Some(properties@[k]@),
            decreases n - i,
        {
            proof {
                lemma_in_prefix_step(source.seq(), i as int);
                lemma_in_prefix_all(source.seq());
            }
            let name = source.key_at(i);
            let entry = source.value_at(i);
            let ghost key = name@;
            let property = match SchemaProperty::try_from_ipld(entry) {
                Some(p) => p,
                None => {
                    proof {
                        assert forall|x: Seq<char>| name_lt(x, key) && #[trigger] m.contains_key(x) implies ipld_property(m[x]) is Some by {
                            assert(in_prefix(source.seq(), n as int, x));
                            let j = choose|j: int| 0 <= j < n && j < source.seq().len() && (#[trigger] source.seq()[j]).0 == x;
                            if j > i {
                                lemma_name_lt_asymmetric(source.seq()[i as int].0, source.seq()[j].0);
                            } else if j == i {
                                crate::text::lemma_name_lt_irreflexive(key);
                            }
                            assert(in_prefix(source.seq(), i as int, x));
                            assert(properties@.contains_key(x));
                        }
                    }
                    return Err(SchemaError::InvalidProperty(name.clone()));
                },
            };
            properties.push_back(name.clone(), property);
            i = i + 1;
        }
        let schema = Schema { properties };
        proof {
            lemma_in_prefix_all(source.seq());
        }
        Ok(schema)
    }
}

impl Clone for Schema {
    fn clone(&self) -> (r: Self)
        ensures
            r@ == self@,
    {
        let n = self.properties.len();
        let mut properties: SortedMap<SchemaProperty> = SortedMap::new();
        let mut i: usize = 0;
        proof {
            if n > 0 {
                lemma_in_prefix_step(self.properties.seq(), 0);
            }
        }
        while i < n
            invariant
                i <= n,
                n == self.properties.seq().len(),
                sorted_keys(self.properties.seq()),
                forall|k: Seq<char>| #[trigger] properties@.contains_key(k) <==> in_prefix(self.properties.seq(), i as int, k),
                forall|k: Seq<char>| #[trigger] properties@.contains_key(k) ==> properties@[k]@ == self.properties@[k]@,
            decreases n - i,
        {
            proof {
                lemma_in_prefix_step(self.properties.seq(), i as int);
            }
            let name = self.properties.key_at(i).clone();
            let value = self.properties.value_at(i).clone();
            properties.push_back(name, value);
            i = i + 1;
        }
        let r = Schema { properties };
        proof {
            lemma_in_prefix_all(self.properties.seq());
            assert(r@ =~= self@);
        }
        r
    }
}

impl Default for Schema {
    /// The schema that names no property.
    fn default() -> (r: Self)
        ensures
            r@ == Map::<Seq<char>, SchemaPropertyView>::empty(),
    {
        let r = Schema { properties: SortedMap::new() };
        proof {
            assert(r@ =~= Map::<Seq<char>, SchemaPropertyView>::empty());
        }
        r
    }
}

} // verus!
