use leaky::cache::BlockCache;
use leaky::change_log::{ChangeLog, ChangeType};
use leaky::cid::{bytes_equal, Cid};
use leaky::client::{change_to_string, render_changes};
use leaky::ipld::{clone_dict, clone_list, dict_equal, list_equal, Ipld};
use leaky::codec::encode_block;
use leaky::mount::{check_written, list_below, list_links, pull_nodes, read_block, take_node, Mount};
use leaky::node::{name_is_reserved, Node, NodeLink};
use leaky::root::{PushRootResponse, RootChain};
use leaky::schema::{type_from_name, type_to_name, value_matches, SchemaType};
use leaky::sorted_map::SortedMap;
use leaky::store::{MemoryStore, Recorded, StoreError, raw_cid};
use leaky::upsert::{get_cache, path_through, put_cache, upsert_node, MountError};

fn block(text: &str) -> Cid {
    raw_cid(&text.as_bytes().to_vec())
}

fn names(parts: &[&str]) -> Vec<String> {
    parts.iter().map(|s| s.to_string()).collect()
}

#[test]
fn a_rewrite_writes_the_spine_and_hands_up_the_root() {
    let mut cache = BlockCache::new();
    let mut root = Node::default();
    let path = names(&["a", "b", "c"]);
    let cid = block("x");
    let up = upsert_node(&mut root, &path, 0, Some(&cid), None, None, &mut cache).unwrap();
    let up = up.expect("the root was written");
    assert_eq!(root.cid(), Ok(up.clone()));
    assert_eq!(get_cache(&up, &cache).unwrap(), root);
    let a = match root.get_link("a") {
        Some(NodeLink::Node(a)) => a.clone(),
        other => panic!("no directory: {:?}", other),
    };
    let a = get_cache(&a, &cache).unwrap();
    let b = match a.get_link("b") {
        Some(NodeLink::Node(b)) => b.clone(),
        other => panic!("no directory: {:?}", other),
    };
    let b = get_cache(&b, &cache).unwrap();
    assert_eq!(b.get_link("c"), Some(&NodeLink::Data(cid, None)));
    assert_eq!(b.size(), 1);
}

#[test]
fn a_rewrite_that_takes_the_last_file_away_hands_up_the_sign_for_none() {
    let mut cache = BlockCache::new();
    let mut root = Node::default();
    let path = names(&["a", "b"]);
    upsert_node(&mut root, &path, 0, Some(&block("x")), None, None, &mut cache).unwrap();
    let up = upsert_node(&mut root, &path, 0, None, None, None, &mut cache).unwrap();
    assert_eq!(up, Some(Cid::default()));
    assert_eq!(root.size(), 0);
}

#[test]
fn a_rewrite_that_finds_nothing_to_take_away_changes_nothing() {
    let mut cache = BlockCache::new();
    let mut root = Node::default();
    upsert_node(&mut root, &names(&["a"]), 0, Some(&block("x")), None, None, &mut cache).unwrap();
    let held = cache.len();
    let before = root.clone();
    let up = upsert_node(&mut root, &names(&["b", "c"]), 0, None, None, None, &mut cache).unwrap();
    assert_eq!(up, None);
    assert_eq!(root, before);
    assert_eq!(cache.len(), held);
}

#[test]
fn a_rewrite_through_a_file_is_refused_with_the_path_so_far() {
    let mut cache = BlockCache::new();
    let mut root = Node::default();
    upsert_node(&mut root, &names(&["a"]), 0, Some(&block("x")), None, None, &mut cache).unwrap();
    let r = upsert_node(&mut root, &names(&["a", "b"]), 0, Some(&block("y")), None, None, &mut cache);
    assert_eq!(r, Err(MountError::DataOnPath(names(&["a"]))));
}

#[test]
fn a_node_goes_into_the_cache_and_comes_out() {
    let mut cache = BlockCache::new();
    let mut node = Node::default();
    node.put_link("f", block("x")).unwrap();
    let cid = put_cache(&node, &mut cache).unwrap();
    assert_eq!(node.cid(), Ok(cid.clone()));
    assert_eq!(get_cache(&cid, &cache).unwrap(), node);
    assert_eq!(get_cache(&block("x"), &cache), Err(MountError::BlockCacheMiss(block("x"))));
    assert_eq!(put_cache(&node, &mut cache).unwrap(), cid);
    assert_eq!(cache.len(), 1);
}

#[test]
fn the_path_through_a_place_ends_with_its_name() {
    let path = names(&["a", "b", "c"]);
    assert_eq!(path_through(&path, 0), names(&["a"]));
    assert_eq!(path_through(&path, 1), names(&["a", "b"]));
    assert_eq!(path_through(&path, 2), names(&["a", "b", "c"]));
}

#[test]
fn a_link_is_put_without_a_store() {
    let mut store = Recorded::new(MemoryStore::new());
    let mut mount = Mount::init(&mut store).unwrap();
    let cid = block("x");
    mount.add_link("/a/b", &cid).unwrap();
    assert_eq!(mount.get_node_link_at_path("/a/b").unwrap(), NodeLink::Data(cid.clone(), None));
    let root = mount.manifest().data().clone();
    assert_eq!(mount.get_node_link_at_path("/").unwrap(), NodeLink::Node(root));
    assert!(matches!(mount.get_node_link_at_path("/a").unwrap(), NodeLink::Node(_)));
    assert_eq!(mount.get_node_link_at_path("/a/c"), Err(MountError::PathNotFound(names(&["a", "c"]))));
    assert_eq!(mount.get_node_link_at_path("/a/b/c"), Err(MountError::DataOnPath(names(&["a", "b"]))));
    let a = mount.node_at("/a").unwrap();
    assert_eq!(a.get_link("b"), Some(&NodeLink::Data(cid, None)));
    assert_eq!(mount.node_at("/a/b").err(), Some(MountError::PathNotDir(names(&["a", "b"]))));
}

#[test]
fn the_nodes_below_a_root_are_read_and_listed() {
    let mut store = Recorded::new(MemoryStore::new());
    let mut mount = Mount::init(&mut store).unwrap();
    mount.add_link("/b/two", &block("2")).unwrap();
    mount.add_link("/a/one", &block("1")).unwrap();
    mount.add_link("/three", &block("3")).unwrap();
    mount.push(&mut store).unwrap();
    let root = mount.manifest().data().clone();
    let cache = pull_nodes(&root, &mut store).unwrap();
    assert_eq!(cache.len(), 3);
    let node = get_cache(&root, &cache).unwrap();
    let links = list_links(&node);
    let listed: Vec<Vec<String>> = links.iter().map(|(path, _)| path.clone()).collect();
    assert_eq!(listed, vec![names(&["a"]), names(&["b"]), names(&["three"])]);
    let mut files = Vec::new();
    list_below(&cache, &node, &names(&["at"]), usize::MAX, &mut files).unwrap();
    assert_eq!(
        files,
        vec![
            (names(&["at", "a"]), links[0].1.clone()),
            (names(&["at", "a", "one"]), NodeLink::Data(block("1"), None)),
            (names(&["at", "b"]), links[1].1.clone()),
            (names(&["at", "b", "two"]), NodeLink::Data(block("2"), None)),
            (names(&["at", "three"]), NodeLink::Data(block("3"), None)),
        ]
    );
    assert!(!links[0].1.is_data() && !links[1].1.is_data());
    let mut one_deep = Vec::new();
    list_below(&cache, &node, &names(&[]), 1, &mut one_deep).unwrap();
    assert_eq!(one_deep.len(), 5);
    let mut shallow = Vec::new();
    assert_eq!(list_below(&cache, &node, &names(&[]), 0, &mut shallow), Err(MountError::TooManyBlocks));
    assert_eq!(pull_nodes(&block("none"), &mut store).err().map(|e| matches!(e, MountError::Store(_))), Some(true));
}

#[test]
fn kept_names_are_told_from_others() {
    assert!(name_is_reserved(".attached"));
    assert!(name_is_reserved(".schema"));
    assert!(!name_is_reserved(".metadata"));
    assert!(!name_is_reserved("schema"));
    assert!(!name_is_reserved(""));
}

#[test]
fn kinds_of_values_have_names_and_match_values() {
    let kinds = [
        (SchemaType::String, "string"),
        (SchemaType::Integer, "integer"),
        (SchemaType::Float, "float"),
        (SchemaType::Bool, "bool"),
        (SchemaType::Null, "null"),
        (SchemaType::Dict, "map"),
        (SchemaType::Link, "link"),
    ];
    for (kind, name) in kinds {
        assert_eq!(type_to_name(kind), name);
        assert_eq!(type_from_name(name), Some(kind));
    }
    assert_eq!(type_from_name("list"), None);
    assert_eq!(type_from_name("String"), None);
    assert!(value_matches(SchemaType::String, &Ipld::String("a".to_string())));
    assert!(!value_matches(SchemaType::String, &Ipld::Integer(1)));
    assert!(value_matches(SchemaType::Integer, &Ipld::Integer(1)));
    assert!(value_matches(SchemaType::Float, &Ipld::Float(1.5f64.to_bits())));
    assert!(!value_matches(SchemaType::Float, &Ipld::Integer(1)));
    assert!(value_matches(SchemaType::Bool, &Ipld::Bool(false)));
    assert!(value_matches(SchemaType::Null, &Ipld::Null));
    assert!(value_matches(SchemaType::Dict, &Ipld::Dict(SortedMap::new())));
    assert!(!value_matches(SchemaType::Dict, &Ipld::List(Vec::new())));
    assert!(value_matches(SchemaType::Link, &Ipld::Link(block("x"))));
    assert!(!value_matches(SchemaType::Link, &Ipld::Bytes(vec![1])));
}

#[test]
fn values_are_compared_and_copied_by_what_they_hold() {
    let mut a = SortedMap::new();
    a.insert("x".to_string(), Ipld::Integer(1));
    a.insert("y".to_string(), Ipld::List(vec![Ipld::Null, Ipld::Bool(true)]));
    let b = clone_dict(&a);
    assert!(dict_equal(&a, &b));
    let mut c = clone_dict(&a);
    c.insert("y".to_string(), Ipld::List(vec![Ipld::Null, Ipld::Bool(false)]));
    assert!(!dict_equal(&a, &c));
    let mut d = clone_dict(&a);
    d.remove("x");
    assert!(!dict_equal(&a, &d));
    let list = vec![Ipld::Dict(clone_dict(&a)), Ipld::Bytes(vec![1, 2])];
    let copy = clone_list(&list);
    assert!(list_equal(&list, &copy));
    assert!(!list_equal(&list, &vec![Ipld::Dict(c), Ipld::Bytes(vec![1, 2])]));
    assert!(!list_equal(&list, &vec![Ipld::Dict(b)]));
    assert!(bytes_equal(&vec![1, 2, 3], &vec![1, 2, 3]));
    assert!(!bytes_equal(&vec![1, 2, 3], &vec![1, 2]));
    assert!(!bytes_equal(&vec![1, 2, 3], &vec![1, 2, 4]));
}

#[test]
fn an_entry_of_the_chain_is_answered_in_text() {
    let mut chain = RootChain::new();
    let entry = chain.push(&block("new"), &Cid::default(), &Cid::default()).unwrap();
    let answer = PushRootResponse::from_root_cid(&entry);
    assert_eq!(answer.cid, block("new").to_string());
    assert_eq!(answer.previous_cid, Cid::default().to_string());
}

#[test]
fn a_change_log_is_shown_line_by_line() {
    let mut log = ChangeLog::new();
    assert_eq!(render_changes(&log), "");
    log.insert("a.txt".to_string(), block("a"), ChangeType::Added { modified: true });
    log.insert("b.txt".to_string(), block("b"), ChangeType::Base);
    log.insert("c.txt".to_string(), block("c"), ChangeType::Removed { processed: false });
    let expected = format!(
        "a.txt: {}\nc.txt: {}\n",
        change_to_string(ChangeType::Added { modified: true }),
        change_to_string(ChangeType::Removed { processed: false })
    );
    assert_eq!(render_changes(&log), expected);
}

#[test]
fn the_answer_of_a_store_to_a_written_block_is_held_to_the_block() {
    let own = block("own");
    assert_eq!(check_written(own.clone(), Ok(own.clone())), Ok(own.clone()));
    assert_eq!(
        check_written(own.clone(), Ok(block("other"))),
        Err(MountError::IdentifierMismatch(own.clone(), block("other")))
    );
    assert_eq!(check_written(own.clone(), Err(StoreError::Transport)), Err(MountError::Store(StoreError::Transport)));
}

#[test]
fn the_bytes_that_a_store_gives_are_read_as_the_block_of_the_identifier() {
    let mut map = SortedMap::new();
    map.insert("n".to_string(), Ipld::Integer(7));
    let value = Ipld::Dict(map);
    let written = encode_block(&value).unwrap();
    assert_eq!(read_block(&written.cid, Ok(written.data.clone())), Ok(value));
    let mut spoiled = written.data.clone();
    spoiled.push(0);
    assert_eq!(read_block(&written.cid, Ok(spoiled)), Err(MountError::BlockDecode));
    assert_eq!(read_block(&block("x"), Ok(written.data.clone())), Err(MountError::BlockDecode));
    let payload = b"no node".to_vec();
    assert_eq!(read_block(&raw_cid(&payload), Ok(payload.clone())), Err(MountError::BlockDecode));
    assert_eq!(leaky::codec::decode_block(&raw_cid(&payload), &payload), Err(leaky::codec::CodecError::Decode));
    assert_eq!(read_block(&written.cid, Err(StoreError::NotFound)), Err(MountError::Store(StoreError::NotFound)));
}

#[test]
fn a_node_that_was_read_is_taken_into_the_cache_under_its_identifier() {
    let mut child = Node::default();
    child.put_link("f", block("x")).unwrap();
    let child_cid = child.cid().unwrap();
    let mut node = Node::default();
    node.put_link("dir", child_cid.clone()).unwrap();
    node.put_link("file", block("y")).unwrap();
    let cid = node.cid().unwrap();
    let mut cache = BlockCache::new();
    assert_eq!(take_node(&cid, node.to_ipld(), &mut cache), Ok(vec![child_cid.clone()]));
    assert_eq!(get_cache(&cid, &cache).unwrap(), node);
    assert_eq!(cache.len(), 1);
    assert_eq!(
        take_node(&child_cid, node.to_ipld(), &mut cache),
        Err(MountError::IdentifierMismatch(child_cid.clone(), cid.clone()))
    );
    assert_eq!(take_node(&cid, Ipld::Integer(1), &mut cache), Err(MountError::Ipld));
    assert_eq!(cache.len(), 1);
    assert_eq!(take_node(&child_cid, child.to_ipld(), &mut cache), Ok(Vec::new()));
    assert_eq!(cache.len(), 2);
}

#[test]
fn a_mount_goes_on_only_to_a_manifest_that_names_it() {
    let mut store = Recorded::new(MemoryStore::new());
    let mount = Mount::init(&mut store).unwrap();
    let mut next = mount.manifest();
    next.set_previous(mount.cid().clone());
    assert_eq!(mount.check_follows(&next), Ok(()));
    next.set_previous(block("elsewhere"));
    assert_eq!(
        mount.check_follows(&next),
        Err(MountError::PreviousMismatch(block("elsewhere"), mount.cid().clone()))
    );
}
