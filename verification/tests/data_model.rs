use leaky::cid::{Cid, CidError};
use leaky::codec::{decode_block, encode_block, fits_nesting, ipld_to_cid, CodecError};
use leaky::frame::{find_item_end, find_run_end, is_framed, read_head, MAX_NESTING};
use leaky::ipld::{ipld_equal, Ipld};
use leaky::manifest::{Manifest, ManifestError, Version, VersionError};
use leaky::node::{Node, NodeError, NodeLink};
use leaky::object::{Object, ObjectError};
use leaky::schema::{Schema, SchemaError, SchemaProperty, SchemaType};
use leaky::sorted_map::SortedMap;
use leaky::store::raw_cid;
use leaky::timestamp::Timestamp;
use leaky::token::{CidToken, InvalidOutputType, Token};

fn dict(entries: Vec<(&str, Ipld)>) -> Ipld {
    let mut map = SortedMap::new();
    for (k, v) in entries {
        map.insert(k.to_string(), v);
    }
    Ipld::Dict(map)
}

#[test]
fn test_schema_validation() {
    let mut node = Node::default();

    let mut schema = Schema::default();
    schema.insert(
        "title".to_string(),
        SchemaProperty { property_type: SchemaType::String, description: None, required: true },
    );

    let test_data = "test".as_bytes().to_vec();
    let test_cid = raw_cid(&test_data);
    node.put_link("test.txt", test_cid.clone()).unwrap();
    let mut valid_object = Object::default();
    valid_object.insert("title".to_string(), Ipld::String("Test".to_string()));
    assert!(node.put_object("test.txt", &valid_object, Some(&schema)).is_ok());

    let invalid_object = Object::default();
    node.put_link("test2.txt", test_cid.clone()).unwrap();
    let res = node.put_object("test2.txt", &invalid_object, Some(&schema));
    assert!(matches!(res, Err(NodeError::Schema(_))));

    node.set_schema(schema);
    node.put_link("test3.txt", test_cid.clone()).unwrap();
    assert!(node.put_object("test3.txt", &valid_object, None).is_ok());
    node.put_link("test4.txt", test_cid).unwrap();
    assert!(matches!(node.put_object("test4.txt", &invalid_object, None), Err(NodeError::Schema(_))));
}

#[test]
fn test_ipld_serialization() {
    let mut node = Node::default();
    let mut object = Object::default();
    let test_data = "test".as_bytes().to_vec();
    let test_cid = raw_cid(&test_data);
    node.put_link("test.txt", test_cid).unwrap();
    object.insert("title".to_string(), Ipld::String("Test".to_string()));
    node.put_object("test.txt", &object, None).unwrap();

    let ipld: Ipld = node.to_ipld();
    let decoded = Node::try_from_ipld(&ipld).unwrap();

    assert_eq!(node, decoded);
}

#[test]
fn roundtrip_object() {
    let mut object = Object::default();
    object.insert("n".to_string(), Ipld::Integer(-3));
    object.insert("inner".to_string(), dict(vec![("a", Ipld::Bool(true)), ("b", Ipld::Null)]));
    let block = encode_block(&object.to_ipld()).unwrap();
    let value = decode_block(&block.cid, &block.data).unwrap();
    let object2 = Object::try_from_ipld(&value).unwrap();
    assert_eq!(object, object2);
}

#[test]
fn roundtrip_manifest() {
    let mut manifest = Manifest::new(Version::new(
        "debug".to_string(),
        "none".to_string(),
        "1a2b".to_string(),
        "0.1.0".to_string(),
    ));
    manifest.set_data(ipld_to_cid(&Node::default().to_ipld()).unwrap());
    let block = encode_block(&manifest.to_ipld()).unwrap();
    let value = decode_block(&block.cid, &block.data).unwrap();
    let manifest2 = Manifest::try_from_ipld(&value).unwrap();
    assert_eq!(manifest, manifest2);
    manifest.set_previous(block.cid.clone());
    let second = encode_block(&manifest.to_ipld()).unwrap();
    let manifest3 = Manifest::try_from_ipld(&decode_block(&second.cid, &second.data).unwrap()).unwrap();
    assert_eq!(manifest3.previous(), &block.cid);
    assert_eq!(manifest3.version().repo_version, "1a2b");
    assert_eq!(manifest3.root(), manifest3.data());
}

#[test]
fn cid_wrapper_rt() {
    let cid = Cid::default();
    let cid_token = CidToken(cid.clone());
    let token = cid_token.into_token();
    let from_cid = CidToken::from_token(&token).unwrap();
    assert_eq!(cid, from_cid.into_cid());
}

#[test]
fn token_of_a_block_identifier_comes_back() {
    let cid = raw_cid(&b"hello".to_vec());
    let token = CidToken(cid.clone()).into_token();
    match &token {
        Token::FixedArray(halves) => {
            assert_eq!(halves.len(), 2);
            match (&halves[0], &halves[1]) {
                (Token::FixedBytes(a), Token::FixedBytes(b)) => {
                    assert_eq!(a.len(), 32);
                    assert_eq!(b.len(), 32);
                    assert_eq!(a[0..4], [0x01, 0x55, 0x1e, 0x20]);
                    assert_eq!(a[4..], cid.digest()[0..28]);
                    assert_eq!(b[0..4], cid.digest()[28..32]);
                    assert_eq!(b[4..], [0u8; 28]);
                }
                other => panic!("no halves: {:?}", other),
            }
        }
        other => panic!("no array: {:?}", other),
    }
    assert_eq!(CidToken::from_token(&token).unwrap().into_cid(), cid);
}

#[test]
fn token_that_is_no_identifier_is_refused() {
    assert_eq!(
        CidToken::from_token(&Token::Other),
        Err(InvalidOutputType("Invalid Array -- no parse".to_string()))
    );
    assert_eq!(
        CidToken::from_token(&Token::FixedArray(vec![Token::FixedBytes(vec![1])])),
        Err(InvalidOutputType("Invalid Array -- wrong len".to_string()))
    );
    assert_eq!(
        CidToken::from_token(&Token::FixedArray(vec![Token::Other, Token::FixedBytes(vec![1])])),
        Err(InvalidOutputType("Invalid Bytes -- ind 0".to_string()))
    );
    assert_eq!(
        CidToken::from_token(&Token::FixedArray(vec![Token::FixedBytes(vec![1]), Token::Other])),
        Err(InvalidOutputType("Invalid Bytes -- ind 1".to_string()))
    );
    assert_eq!(
        CidToken::from_token(&Token::FixedArray(vec![Token::FixedBytes(vec![9]), Token::FixedBytes(vec![])])),
        Err(InvalidOutputType("Invalid CID -- no parse".to_string()))
    );
}

#[test]
fn cid_text_and_bytes_come_back() {
    let cid = raw_cid(&b"hello world".to_vec());
    let text = cid.to_string();
    assert!(text.starts_with('b'));
    assert_eq!(Cid::from_str(&text).unwrap(), cid);
    assert_eq!(Cid::from_bytes(&cid.to_bytes()).unwrap(), cid);
    assert_eq!(cid.to_bytes().len(), 36);
    assert_eq!(cid.version(), 1);
    assert_eq!(cid.codec(), 0x55);
    assert_eq!(cid.hash_code(), 0x1e);
    assert!(cid.is_raw());
    assert!(!cid.is_default());
    assert_eq!(Cid::from_str("not a cid").err(), Some(CidError::InvalidText));
    assert_eq!(Cid::from_bytes(&vec![7, 7, 7]).err(), Some(CidError::InvalidBytes));
    assert_eq!(Cid::default().to_bytes(), vec![1, 0, 0, 0]);
    assert!(Cid::default().is_default());
    let known = Cid::from_str("bafyreibjo4xmgaevkgud7mbifn3dzp4v4lyaui4yvqp3f2bqwtxcjrdqg4").unwrap();
    assert_eq!(known.codec(), 0x71);
    assert_eq!(known.hash_code(), 0x12);
    assert_eq!(known.to_string(), "bafyreibjo4xmgaevkgud7mbifn3dzp4v4lyaui4yvqp3f2bqwtxcjrdqg4");
}

#[test]
fn cid_parts_are_held_to_what_an_identifier_can_be() {
    assert!(Cid::new_v1(0x55, 0x1e, vec![0; 64]).is_some());
    assert!(Cid::new_v1(0x55, 0x1e, vec![0; 65]).is_none());
    assert!(Cid::from_parts(0, 0x70, 0x12, vec![0; 32]).is_some());
    assert!(Cid::from_parts(0, 0x71, 0x12, vec![0; 32]).is_none());
    assert!(Cid::from_parts(2, 0x71, 0x12, vec![0; 32]).is_none());
    let a = Cid::new_v1(0x55, 0x1e, vec![1, 2, 3]).unwrap();
    let b = Cid::new_v1(0x55, 0x1e, vec![1, 2, 4]).unwrap();
    assert!(a.same(&a.clone()));
    assert!(!a.same(&b));
    assert_ne!(a, b);
}

#[test]
fn raw_cid_is_the_blake3_of_the_payload() {
    let cid = raw_cid(&b"".to_vec());
    assert_eq!(
        cid.digest(),
        &vec![
            0xaf, 0x13, 0x49, 0xb9, 0xf5, 0xf9, 0xa1, 0xa6, 0xa0, 0x40, 0x4d, 0xea, 0x36, 0xdc, 0xc9, 0x49, 0x9b,
            0xcb, 0x25, 0xc9, 0xad, 0xc1, 0x12, 0xb7, 0xcc, 0x9a, 0x93, 0xca, 0xe4, 0x1f, 0x32, 0x62
        ]
    );
}

#[test]
fn blocks_of_values_come_back() {
    let link = raw_cid(&b"x".to_vec());
    let value = dict(vec![
        ("null", Ipld::Null),
        ("yes", Ipld::Bool(true)),
        ("big", Ipld::Integer(u64::MAX as i128)),
        ("small", Ipld::Integer(-(u64::MAX as i128) - 1)),
        ("half", Ipld::Float(0.5f64.to_bits())),
        ("third", Ipld::Float((1.0f64 / 3.0).to_bits())),
        ("text", Ipld::String("höhe".to_string())),
        ("bytes", Ipld::Bytes(vec![0, 255])),
        ("list", Ipld::List(vec![Ipld::Integer(1), Ipld::List(vec![])])),
        ("map", dict(vec![("b", Ipld::Integer(2)), ("a", Ipld::Integer(1))])),
        ("link", Ipld::Link(link)),
    ]);
    let block = encode_block(&value).unwrap();
    assert_eq!(block.cid.codec(), 0x71);
    assert_eq!(block.cid.hash_code(), 0x1e);
    assert_eq!(block.cid.version(), 1);
    assert_eq!(block.cid.digest().len(), 32);
    let back = decode_block(&block.cid, &block.data).unwrap();
    assert_eq!(back, value);
    assert!(ipld_equal(&back, &value));
    assert_eq!(ipld_to_cid(&back).unwrap(), block.cid);
    assert_eq!(encode_block(&back.clone()).unwrap().data, block.data);
}

#[test]
fn block_bytes_are_dag_cbor() {
    let block = encode_block(&dict(vec![("a", Ipld::Integer(1))])).unwrap();
    assert_eq!(block.data, vec![0xa1, 0x61, 0x61, 0x01]);
    assert_eq!(encode_block(&Ipld::Float(1.5f64.to_bits())).unwrap().data, vec![0xfa, 0x3f, 0xc0, 0x00, 0x00]);
    assert_eq!(
        encode_block(&Ipld::Float(0.1f64.to_bits())).unwrap().data,
        vec![0xfb, 0x3f, 0xb9, 0x99, 0x99, 0x99, 0x99, 0x99, 0x9a]
    );
}

#[test]
fn values_without_block_are_refused() {
    assert_eq!(encode_block(&Ipld::Integer(u64::MAX as i128 + 1)).err(), Some(CodecError::Encode));
    assert_eq!(ipld_to_cid(&Ipld::Integer(i128::MIN)).err(), Some(CodecError::Encode));
    assert_eq!(encode_block(&Ipld::Bytes(vec![0; 1_048_577])).err(), Some(CodecError::Encode));
}

#[test]
fn bytes_that_are_no_block_are_refused() {
    let block = encode_block(&Ipld::String("a".to_string())).unwrap();
    let other = encode_block(&Ipld::String("b".to_string())).unwrap();
    assert_eq!(decode_block(&block.cid, &other.data).err(), Some(CodecError::Decode));
    let junk = vec![0xff, 0xff];
    let junk_cid = Cid::new_v1(0x71, 0x1e, raw_cid(&junk).digest().clone()).unwrap();
    assert_eq!(decode_block(&junk_cid, &junk).err(), Some(CodecError::Decode));
}

#[test]
fn value_equality_and_copies() {
    let a = dict(vec![("x", Ipld::List(vec![Ipld::Integer(1)])), ("y", Ipld::String("s".to_string()))]);
    let b = dict(vec![("y", Ipld::String("s".to_string())), ("x", Ipld::List(vec![Ipld::Integer(1)]))]);
    let c = dict(vec![("x", Ipld::List(vec![Ipld::Integer(2)])), ("y", Ipld::String("s".to_string()))]);
    let d = dict(vec![("x", Ipld::List(vec![Ipld::Integer(1)]))]);
    assert!(ipld_equal(&a, &b));
    assert!(ipld_equal(&a, &a.clone()));
    assert!(!ipld_equal(&a, &c));
    assert!(!ipld_equal(&a, &d));
    assert!(!ipld_equal(&Ipld::Null, &Ipld::Bool(false)));
    assert!(!ipld_equal(&Ipld::Bytes(vec![1]), &Ipld::Bytes(vec![1, 2])));
}

#[test]
fn object_written_form_is_flat() {
    let mut props = SortedMap::new();
    props.insert("title".to_string(), Ipld::String("hi".to_string()));
    let object = Object::with_times(
        props,
        Timestamp::from_unix_nanos(1_546_300_800_000_000_000).unwrap(),
        Timestamp::from_unix_nanos(1_546_300_800_000_000_001).unwrap(),
    );
    let expected = dict(vec![
        ("title", Ipld::String("hi".to_string())),
        ("created_at", Ipld::Integer(1_546_300_800_000_000_000)),
        ("updated_at", Ipld::Integer(1_546_300_800_000_000_001)),
    ]);
    assert_eq!(object.to_ipld(), expected);
    assert_eq!(Object::try_from_ipld(&expected).unwrap(), object);
    assert_eq!(object.created_at().unix_nanos(), 1_546_300_800_000_000_000);
    assert_eq!(object.properties().len(), 1);
}

#[test]
fn object_legacy_form_is_read() {
    let legacy = dict(vec![
        ("created_at", Ipld::Integer(10)),
        ("updated_at", Ipld::Integer(20)),
        ("metadata", dict(vec![("title", Ipld::String("hi".to_string()))])),
        ("stray", Ipld::Bool(true)),
    ]);
    let object = Object::try_from_ipld(&legacy).unwrap();
    assert_eq!(object.properties().len(), 1);
    assert_eq!(object.properties().get("title"), Some(&Ipld::String("hi".to_string())));
    let flat = object.to_ipld();
    assert_eq!(
        flat,
        dict(vec![
            ("created_at", Ipld::Integer(10)),
            ("updated_at", Ipld::Integer(20)),
            ("title", Ipld::String("hi".to_string())),
        ])
    );
}

#[test]
fn object_that_is_none_is_refused() {
    assert_eq!(Object::try_from_ipld(&Ipld::Null).err(), Some(ObjectError::NotAMap));
    assert_eq!(
        Object::try_from_ipld(&dict(vec![("updated_at", Ipld::Integer(1))])).err(),
        Some(ObjectError::MissingField("created_at".to_string()))
    );
    assert_eq!(
        Object::try_from_ipld(&dict(vec![("created_at", Ipld::Integer(1)), ("updated_at", Ipld::Null)])).err(),
        Some(ObjectError::MissingField("updated_at".to_string()))
    );
    assert_eq!(
        Object::try_from_ipld(&dict(vec![("created_at", Ipld::Integer(i128::MAX)), ("updated_at", Ipld::Integer(1))]))
            .err(),
        Some(ObjectError::InvalidDateTime)
    );
    assert!(Timestamp::from_unix_nanos(i128::MIN).is_none());
    assert!(Timestamp::from_unix_nanos(0).is_some());
    let now = Timestamp::now().unix_nanos();
    assert!(now > 1_600_000_000_000_000_000);
    assert!(Timestamp::from_unix_nanos(now).is_some());
    let fresh = Object::new(None);
    assert_eq!(fresh.created_at(), fresh.updated_at());
    assert_eq!(fresh.properties().len(), 0);
}

#[test]
fn schema_written_form_comes_back() {
    let mut schema = Schema::default();
    schema.insert(
        "title".to_string(),
        SchemaProperty { property_type: SchemaType::String, description: Some("the title".to_string()), required: true },
    );
    schema.insert("n".to_string(), SchemaProperty { property_type: SchemaType::Dict, description: None, required: false });
    let written = schema.to_ipld();
    assert_eq!(
        written,
        dict(vec![
            ("n", dict(vec![("type", Ipld::String("map".to_string())), ("required", Ipld::Bool(false))])),
            (
                "title",
                dict(vec![
                    ("type", Ipld::String("string".to_string())),
                    ("required", Ipld::Bool(true)),
                    ("description", Ipld::String("the title".to_string())),
                ])
            ),
        ])
    );
    assert_eq!(Schema::try_from_ipld(&written).unwrap(), schema);
    assert_eq!(schema.clone(), schema);
    assert_eq!(Schema::try_from_ipld(&Ipld::Null).err(), Some(SchemaError::NotAMap));
    let broken = dict(vec![
        ("a", dict(vec![("type", Ipld::String("link".to_string())), ("required", Ipld::Bool(false))])),
        ("b", dict(vec![("type", Ipld::String("colour".to_string())), ("required", Ipld::Bool(false))])),
        ("c", Ipld::Null),
    ]);
    assert_eq!(Schema::try_from_ipld(&broken).err(), Some(SchemaError::InvalidProperty("b".to_string())));
}

#[test]
fn schema_names_the_first_property_that_fails() {
    let mut schema = Schema::default();
    for (name, kind, required) in [
        ("a", SchemaType::Bool, false),
        ("b", SchemaType::Float, true),
        ("c", SchemaType::Link, true),
        ("d", SchemaType::Null, false),
        ("e", SchemaType::Integer, false),
    ] {
        schema.insert(name.to_string(), SchemaProperty { property_type: kind, description: None, required });
    }
    let mut object = Object::default();
    object.insert("a".to_string(), Ipld::Bool(false));
    assert_eq!(schema.validate(&object), Err(SchemaError::MissingRequired("b".to_string())));
    object.insert("b".to_string(), Ipld::Float(2.5f64.to_bits()));
    object.insert("c".to_string(), Ipld::Integer(1));
    assert_eq!(schema.validate(&object), Err(SchemaError::TypeMismatch("c".to_string())));
    object.insert("c".to_string(), Ipld::Link(Cid::default()));
    object.insert("d".to_string(), Ipld::Null);
    object.insert("zz".to_string(), Ipld::Bytes(vec![]));
    assert_eq!(schema.validate(&object), Ok(()));
    object.insert("e".to_string(), Ipld::String("1".to_string()));
    assert_eq!(schema.validate(&object), Err(SchemaError::TypeMismatch("e".to_string())));
    assert_eq!(Schema::default().validate(&object), Ok(()));
}

#[test]
fn node_written_form_keeps_links_objects_and_schema() {
    let file = raw_cid(&b"x".to_vec());
    let dir = ipld_to_cid(&Node::default().to_ipld()).unwrap();
    let mut node = Node::default();
    assert_eq!(node.size(), 0);
    assert_eq!(node.to_ipld(), dict(vec![(".attached", dict(vec![]))]));
    node.put_link("f", file.clone()).unwrap();
    node.put_link("d", dir.clone()).unwrap();
    assert_eq!(node.get_link("f"), Some(&NodeLink::Data(file.clone(), None)));
    assert_eq!(node.get_link("d"), Some(&NodeLink::Node(dir.clone())));
    assert_eq!(node.get_link("g"), None);
    let mut object = Object::with_times(
        SortedMap::new(),
        Timestamp::from_unix_nanos(1).unwrap(),
        Timestamp::from_unix_nanos(2).unwrap(),
    );
    object.insert("k".to_string(), Ipld::Integer(7));
    node.put_object("f", &object, None).unwrap();
    assert_eq!(
        node.put_object("d", &object, None),
        Err(NodeError::LinkNotFound("d".to_string()))
    );
    assert_eq!(node.put_link(".schema", file.clone()), Err(NodeError::ReservedName(".schema".to_string())));
    assert_eq!(
        node.put_object(".attached", &object, None),
        Err(NodeError::ReservedName(".attached".to_string()))
    );
    node.set_schema(Schema::default());
    let written = node.to_ipld();
    assert_eq!(
        written,
        dict(vec![
            ("f", Ipld::Link(file.clone())),
            ("d", Ipld::Link(dir.clone())),
            (".schema", dict(vec![])),
            (".attached", dict(vec![("f", object.to_ipld())])),
        ])
    );
    let back = Node::try_from_ipld(&written).unwrap();
    assert_eq!(back, node);
    assert_eq!(back.cid().unwrap(), node.cid().unwrap());
    assert_eq!(node.get_links().len(), 2);
    assert_eq!(node.size(), 2);
    assert_eq!(node.del("f"), Some(NodeLink::Data(file, Some(object))));
    assert_eq!(node.del("f"), None);
    node.clear_schema();
    assert!(node.schema().is_none());
    assert_eq!(node.size(), 1);
    assert!(!NodeLink::Node(dir.clone()).is_data());
    assert_eq!(NodeLink::Node(dir.clone()).cid(), &dir);
}

#[test]
fn node_that_is_none_is_refused() {
    assert_eq!(Node::try_from_ipld(&Ipld::Null).err(), Some(NodeError::NotAMap("ipld".to_string())));
    assert_eq!(
        Node::try_from_ipld(&dict(vec![(".attached", Ipld::Null)])).err(),
        Some(NodeError::NotAMap(".attached".to_string()))
    );
    assert_eq!(
        Node::try_from_ipld(&dict(vec![(".attached", dict(vec![("b", Ipld::Null), ("a", Ipld::Bool(true))]))])).err(),
        Some(NodeError::Object(ObjectError::NotAMap))
    );
    assert_eq!(
        Node::try_from_ipld(&dict(vec![(".schema", Ipld::Null)])).err(),
        Some(NodeError::Schema(SchemaError::NotAMap))
    );
    let stray = Node::try_from_ipld(&dict(vec![("x", Ipld::Integer(1))])).unwrap();
    assert_eq!(stray, Node::default());
}

#[test]
fn manifest_that_is_none_is_refused() {
    assert_eq!(
        Manifest::try_from_ipld(&Ipld::Null).err(),
        Some(ManifestError::MissingField("map".to_string()))
    );
    assert_eq!(
        Manifest::try_from_ipld(&dict(vec![])).err(),
        Some(ManifestError::MissingField("version".to_string()))
    );
    assert_eq!(
        Manifest::try_from_ipld(&dict(vec![("version", Ipld::Null)])).err(),
        Some(ManifestError::VersionError(VersionError::NotAMap))
    );
    assert_eq!(
        Manifest::try_from_ipld(&dict(vec![("version", dict(vec![]))])).err(),
        Some(ManifestError::VersionError(VersionError::MissingField("build_profile".to_string())))
    );
    let version = Version::default().to_ipld();
    assert_eq!(
        Manifest::try_from_ipld(&dict(vec![("version", version.clone())])).err(),
        Some(ManifestError::MissingField("previous link".to_string()))
    );
    assert_eq!(
        Manifest::try_from_ipld(&dict(vec![("version", version.clone()), ("previous", Ipld::Null)])).err(),
        Some(ManifestError::MissingField("data link".to_string()))
    );
    let good = dict(vec![
        ("version", version),
        ("previous", Ipld::Null),
        ("data", Ipld::Link(raw_cid(&vec![]))),
    ]);
    let manifest = Manifest::try_from_ipld(&good).unwrap();
    assert_eq!(manifest.previous(), &Cid::default());
    assert_eq!(manifest.to_ipld(), good);
}

#[test]
fn times_of_the_common_era_can_be_held() {
    assert_eq!(Timestamp::from_unix_nanos(0).map(|t| t.unix_nanos()), Some(0));
    let last = 253_402_300_799_999_999_999i128;
    assert_eq!(Timestamp::from_unix_nanos(last).map(|t| t.unix_nanos()), Some(last));
    assert!(Timestamp::from_unix_nanos(i128::MAX).is_none());
    assert!(Timestamp::from_unix_nanos(i128::MIN).is_none());
}

#[test]
fn an_object_that_is_touched_bears_the_time_of_the_change() {
    let mut object = Object::with_times(
        SortedMap::new(),
        Timestamp::from_unix_nanos(1_000).unwrap(),
        Timestamp::from_unix_nanos(2_000).unwrap(),
    );
    object.insert("title".to_string(), Ipld::String("hi".to_string()));
    let changed = object.touched(Timestamp::from_unix_nanos(3_000).unwrap());
    assert_eq!(changed.created_at().unix_nanos(), 1_000);
    assert_eq!(changed.updated_at().unix_nanos(), 3_000);
    assert_eq!(changed.properties(), object.properties());
    assert_eq!(object.updated_at().unix_nanos(), 2_000);
}

fn structured_id_of(data: &Vec<u8>) -> Cid {
    Cid::new_v1(0x71, 0x1e, raw_cid(data).digest().clone()).unwrap()
}

#[test]
fn bytes_that_declare_more_than_they_hold_are_no_block() {
    let huge_bytes = vec![0x5b, 0xff, 0xff, 0xff, 0xff, 0xff, 0xff, 0xff, 0xff];
    assert!(!is_framed(&huge_bytes));
    assert_eq!(decode_block(&structured_id_of(&huge_bytes), &huge_bytes), Err(CodecError::Decode));
    let huge_list = vec![0x9a, 0xff, 0xff, 0xff, 0xff];
    assert_eq!(decode_block(&structured_id_of(&huge_list), &huge_list), Err(CodecError::Decode));
    let huge_text = vec![0x7b, 0x00, 0x00, 0x00, 0x01, 0x00, 0x00, 0x00, 0x00, 0x61];
    assert_eq!(decode_block(&structured_id_of(&huge_text), &huge_text), Err(CodecError::Decode));
    let short_list = vec![0x82, 0x01];
    assert!(!is_framed(&short_list));
    assert_eq!(decode_block(&structured_id_of(&short_list), &short_list), Err(CodecError::Decode));
    let cut_number = vec![0x19, 0x01];
    assert!(!is_framed(&cut_number));
    assert!(!is_framed(&Vec::new()));
}

#[test]
fn bytes_that_nest_too_deep_are_no_block() {
    let mut deep = vec![0x81u8; 100_000];
    deep.push(0x00);
    assert!(!is_framed(&deep));
    assert_eq!(decode_block(&structured_id_of(&deep), &deep), Err(CodecError::Decode));
    let mut at_the_bound = vec![0x81u8; MAX_NESTING];
    at_the_bound.push(0x00);
    assert!(is_framed(&at_the_bound));
    assert!(decode_block(&structured_id_of(&at_the_bound), &at_the_bound).is_ok());
    let mut beyond = vec![0x81u8; MAX_NESTING + 1];
    beyond.push(0x00);
    assert!(!is_framed(&beyond));
    assert_eq!(decode_block(&structured_id_of(&beyond), &beyond), Err(CodecError::Decode));
    let mut open_lists = vec![0x9fu8; 100_000];
    open_lists.push(0xff);
    assert!(!is_framed(&open_lists));
}

#[test]
fn the_items_of_framed_bytes_end_where_they_declare() {
    assert_eq!(find_item_end(&vec![0x17], 0, 0), Some(1));
    assert_eq!(find_item_end(&vec![0x18, 0xff], 0, 0), Some(2));
    assert_eq!(find_item_end(&vec![0x39, 0x01, 0x00], 0, 0), Some(3));
    assert_eq!(find_item_end(&vec![0x1b, 0, 0, 0, 0, 0, 0, 0, 1, 0xf6], 0, 0), Some(9));
    assert_eq!(find_item_end(&vec![0x43, 1, 2, 3, 0xf6], 0, 0), Some(4));
    assert_eq!(find_item_end(&vec![0x43, 1, 2], 0, 0), None);
    assert_eq!(find_item_end(&vec![0x62, 0x68, 0x69], 0, 0), Some(3));
    assert_eq!(find_item_end(&vec![0x82, 0x01, 0x02], 0, 1), Some(3));
    assert_eq!(find_item_end(&vec![0x82, 0x01, 0x02], 0, 0), None);
    assert_eq!(find_item_end(&vec![0x9f, 0x01, 0x02, 0xff], 0, 1), Some(4));
    assert_eq!(find_item_end(&vec![0x9f, 0x01, 0x02], 0, 1), None);
    assert_eq!(find_item_end(&vec![0xa1, 0x61, 0x61, 0x01], 0, 1), Some(4));
    assert_eq!(find_item_end(&vec![0xa1, 0x01, 0x01], 0, 1), None);
    assert_eq!(find_item_end(&vec![0xbf, 0x61, 0x61, 0x01, 0xff], 0, 1), Some(5));
    assert_eq!(find_item_end(&vec![0xd8, 42, 0x58, 2, 0, 1], 0, 0), Some(6));
    assert_eq!(find_item_end(&vec![0xd8, 42, 0x58, 3, 0, 1], 0, 0), None);
    assert_eq!(find_item_end(&vec![0xd8, 43, 0x58, 2, 0, 1], 0, 0), None);
    assert_eq!(find_item_end(&vec![0xf5], 0, 0), Some(1));
    assert_eq!(find_item_end(&vec![0xfb, 0, 0, 0, 0, 0, 0, 0, 0], 0, 0), Some(9));
    assert_eq!(find_item_end(&vec![0xfa, 0, 0, 0], 0, 0), None);
    assert_eq!(find_item_end(&vec![0xf9, 0, 0], 0, 0), None);
    assert_eq!(find_item_end(&vec![0x1c], 0, 0), None);
    assert_eq!(find_run_end(&vec![0x58, 2, 9, 9], 0), Some(4));
    assert_eq!(read_head(&vec![0x19, 0x01, 0x02], 0).map(|h| (h.value, h.next)), Some((258, 3)));
    assert_eq!(read_head(&vec![0x1a, 1, 2, 3, 4], 0).map(|h| (h.value, h.next)), Some((0x01020304, 5)));
    assert_eq!(
        read_head(&vec![0x1b, 1, 2, 3, 4, 5, 6, 7, 8], 0).map(|h| (h.value, h.next)),
        Some((0x0102030405060708, 9))
    );
}

#[test]
fn what_is_written_is_framed() {
    let mut inner = SortedMap::new();
    inner.insert("n".to_string(), Ipld::Integer(-300));
    inner.insert("f".to_string(), Ipld::Float(1.5f64.to_bits()));
    inner.insert("l".to_string(), Ipld::Link(raw_cid(&b"x".to_vec())));
    inner.insert("b".to_string(), Ipld::Bytes(vec![7; 300]));
    let mut outer = SortedMap::new();
    outer.insert("list".to_string(), Ipld::List(vec![Ipld::Null, Ipld::Bool(true), Ipld::Dict(inner)]));
    outer.insert("text".to_string(), Ipld::String("x".repeat(70_000)));
    let value = Ipld::Dict(outer);
    let block = encode_block(&value).unwrap();
    assert!(is_framed(&block.data));
    assert_eq!(find_item_end(&block.data, 0, MAX_NESTING), Some(block.data.len()));
    assert_eq!(decode_block(&block.cid, &block.data), Ok(value));
}

#[test]
fn bytes_beyond_the_size_of_a_block_are_no_block() {
    let mut big = vec![0x5a, 0x00, 0x10, 0x00, 0x00];
    big.extend(vec![0u8; 1_048_576]);
    assert_eq!(find_item_end(&big, 0, 0), Some(big.len()));
    assert!(!is_framed(&big));
    assert_eq!(decode_block(&structured_id_of(&big), &big), Err(CodecError::Decode));
    assert!(encode_block(&Ipld::Bytes(vec![0u8; 1_048_576])).is_err());
}

#[test]
fn a_value_that_nests_too_deep_has_no_block() {
    let mut value = Ipld::Integer(1);
    for _ in 0..MAX_NESTING {
        value = Ipld::List(vec![value]);
    }
    assert!(fits_nesting(&value, MAX_NESTING));
    assert!(!fits_nesting(&value, MAX_NESTING - 1));
    let block = encode_block(&value).unwrap();
    assert_eq!(decode_block(&block.cid, &block.data).as_ref(), Ok(&value));
    let mut named = SortedMap::new();
    named.insert("deeper".to_string(), value);
    let beyond = Ipld::Dict(named);
    assert!(!fits_nesting(&beyond, MAX_NESTING));
    assert_eq!(encode_block(&beyond).err(), Some(CodecError::Encode));
    assert_eq!(ipld_to_cid(&beyond), Err(CodecError::Encode));
    assert!(fits_nesting(&Ipld::Null, 0));
    assert!(!fits_nesting(&Ipld::List(Vec::new()), 0));
    assert!(fits_nesting(&Ipld::List(Vec::new()), 1));
}
