use leaky::cid::Cid;
use leaky::ipld::Ipld;
use leaky::manifest::{Manifest, Version};
use leaky::mount::Mount;
use leaky::node::NodeLink;
use leaky::object::Object;
use leaky::schema::{Schema, SchemaError, SchemaProperty, SchemaType};
use leaky::sorted_map::SortedMap;
use leaky::store::{BlockStore, MemoryStore, Recorded, StoreError};
use leaky::timestamp::Timestamp;
use leaky::upsert::MountError;

fn empty_mount(store: &mut Recorded<MemoryStore>) -> Mount {
    Mount::init(store).unwrap()
}

fn titled(title: &str) -> Object {
    let mut object = Object::with_times(
        SortedMap::new(),
        Timestamp::from_unix_nanos(1_000).unwrap(),
        Timestamp::from_unix_nanos(2_000).unwrap(),
    );
    object.insert("title".to_string(), Ipld::String(title.to_string()));
    object
}

fn title_schema() -> Schema {
    let mut schema = Schema::default();
    schema.insert(
        "title".to_string(),
        SchemaProperty { property_type: SchemaType::String, description: None, required: true },
    );
    schema
}

#[test]
fn mount_add() {
    let mut store = Recorded::new(MemoryStore::new());
    let mut mount = empty_mount(&mut store);
    let data = "foo".as_bytes().to_vec();
    mount.add(&mut store, "/foo", &data, true).unwrap();
}

#[test]
fn mount_add_with_metadata() {
    let mut store = Recorded::new(MemoryStore::new());
    let mut mount = empty_mount(&mut store);
    let data = "foo".as_bytes().to_vec();
    let mut object = Object::default();
    object.insert("foo".to_string(), Ipld::String("bar".to_string()));
    mount.add(&mut store, "/foo", &data, true).unwrap();
    mount.tag("/foo", &object).unwrap();
}

#[test]
fn mount_add_cat() {
    let mut store = Recorded::new(MemoryStore::new());
    let mut mount = empty_mount(&mut store);
    let data = "foo".as_bytes().to_vec();
    mount.add(&mut store, "/bar", &data, false).unwrap();
    let get_data = mount.cat(&mut store, "/bar").unwrap();
    assert_eq!(data, get_data);
}

#[test]
fn mount_add_ls() {
    let mut store = Recorded::new(MemoryStore::new());
    let mut mount = empty_mount(&mut store);
    let data = "foo".as_bytes().to_vec();
    mount.add(&mut store, "/bar", &data, true).unwrap();
    let (links, _) = mount.ls("/", false).unwrap();
    assert_eq!(links.len(), 1);
}

#[test]
fn add_set_schema_ls() {
    let mut store = Recorded::new(MemoryStore::new());
    let mut mount = empty_mount(&mut store);
    let data = "foo".as_bytes().to_vec();
    let schema = Schema::default();
    mount.add(&mut store, "/bar/buz", &data, true).unwrap();
    mount.set_schema("/bar", schema).unwrap();
    let (links, schema) = mount.ls("/bar", false).unwrap();
    assert_eq!(links.len(), 1);
    assert!(schema.is_some());
}

#[test]
fn set_schema_ls_nonexistant_path() {
    let mut store = Recorded::new(MemoryStore::new());
    let mut mount = empty_mount(&mut store);
    let schema = Schema::default();
    mount.set_schema("/bar", schema).unwrap();
    let (_ls, schema) = mount.ls("/bar", false).unwrap();
    assert!(schema.is_some());
}

#[test]
fn mount_add_deep() {
    let mut store = Recorded::new(MemoryStore::new());
    let mut mount = empty_mount(&mut store);
    let data = "foo".as_bytes().to_vec();
    mount.add(&mut store, "/foo/bar/buzz", &data, true).unwrap();
}

#[test]
fn mount_add_rm() {
    let mut store = Recorded::new(MemoryStore::new());
    let mut mount = empty_mount(&mut store);
    let data = "foo".as_bytes().to_vec();
    mount.add(&mut store, "/foo/bar", &data, true).unwrap();
    mount.rm("/foo/bar").unwrap();
}

#[test]
fn mount_add_pull_ls() {
    let mut store = Recorded::new(MemoryStore::new());
    let mut mount = empty_mount(&mut store);
    let data = "foo".as_bytes().to_vec();
    mount.add(&mut store, "/bar", &data, true).unwrap();
    let cid = mount.cid().clone();
    mount.push(&mut store).unwrap();

    let mount = Mount::pull(cid, &mut store).unwrap();
    let (ls, _) = mount.ls("/", false).unwrap();
    assert_eq!(ls.len(), 1);
}

#[test]
fn mount_add_add_deep() {
    let mut store = Recorded::new(MemoryStore::new());
    let mut mount = empty_mount(&mut store);
    let data = "foo".as_bytes().to_vec();
    mount.add(&mut store, "/foo/bar", &data, true).unwrap();
    let data = "bang".as_bytes().to_vec();
    mount.add(&mut store, "/foo/bug", &data, true).unwrap();
}

#[test]
fn mount_pull_empty() {
    let mut store = Recorded::new(MemoryStore::new());
    let mut mount = empty_mount(&mut store);
    mount.push(&mut store).unwrap();
    let cid = mount.cid().clone();
    let pulled = Mount::pull(cid.clone(), &mut store).unwrap();
    assert_eq!(pulled.cid(), &cid);
}

#[test]
fn init_push_gives_the_same_root_twice() {
    let mut store = Recorded::new(MemoryStore::new());
    let mut first = empty_mount(&mut store);
    first.push(&mut store).unwrap();
    let mut other_store = Recorded::new(MemoryStore::new());
    let mut second = empty_mount(&mut other_store);
    second.push(&mut other_store).unwrap();
    assert_eq!(first.cid(), second.cid());
    assert_eq!(first.cid().codec(), 0x71);
    assert_eq!(first.cid().hash_code(), 0x1e);
    assert_eq!(first.cid().digest().len(), 32);
    assert_eq!(first.cid().version(), 1);
}

#[test]
fn add_then_cat_gives_the_payload_back() {
    let mut store = Recorded::new(MemoryStore::new());
    let mut mount = empty_mount(&mut store);
    let data = b"hello".to_vec();
    mount.add(&mut store, "/foo", &data, false).unwrap();
    assert_eq!(mount.cat(&mut store, "/foo").unwrap(), b"hello".to_vec());
}

#[test]
fn hash_only_leaves_no_payload_in_the_store() {
    let mut store = Recorded::new(MemoryStore::new());
    let mut mount = empty_mount(&mut store);
    let data = b"hello".to_vec();
    mount.add(&mut store, "/foo", &data, true).unwrap();
    assert_eq!(mount.cat(&mut store, "/foo"), Err(MountError::Store(StoreError::NotFound)));
}

#[test]
fn ls_gives_files_in_the_order_of_their_names() {
    let mut store = Recorded::new(MemoryStore::new());
    let mut mount = empty_mount(&mut store);
    mount.add(&mut store, "/a/b/d", &b"y".to_vec(), true).unwrap();
    mount.add(&mut store, "/a/b/c", &b"x".to_vec(), true).unwrap();
    let (links, schema) = mount.ls("/a/b", false).unwrap();
    assert!(schema.is_none());
    assert_eq!(links.len(), 2);
    assert_eq!(links[0].0, vec!["c".to_string()]);
    assert_eq!(links[1].0, vec!["d".to_string()]);
    assert!(links[0].1.is_data());
    assert!(links[1].1.is_data());
    assert_eq!(links[0].1.cid(), &leaky::store::raw_cid(&b"x".to_vec()));
}

#[test]
fn ls_deep_gives_every_link_under_its_full_path() {
    let mut store = Recorded::new(MemoryStore::new());
    let mut mount = empty_mount(&mut store);
    mount.add(&mut store, "/a/b/c", &b"x".to_vec(), true).unwrap();
    mount.add(&mut store, "/a/d", &b"y".to_vec(), true).unwrap();
    mount.add(&mut store, "/e", &b"z".to_vec(), true).unwrap();
    let (files, schema) = mount.ls("/", true).unwrap();
    assert!(schema.is_none());
    let paths: Vec<Vec<String>> = files.iter().map(|f| f.0.clone()).collect();
    assert_eq!(
        paths,
        vec![
            vec!["a".to_string()],
            vec!["a".to_string(), "b".to_string()],
            vec!["a".to_string(), "b".to_string(), "c".to_string()],
            vec!["a".to_string(), "d".to_string()],
            vec!["e".to_string()],
        ]
    );
    let kinds: Vec<bool> = files.iter().map(|f| f.1.is_data()).collect();
    assert_eq!(kinds, vec![false, false, true, true, true]);
    assert_eq!(files[0].1, mount.get_node_link_at_path("/a").unwrap());
    assert_eq!(files[1].1, mount.get_node_link_at_path("/a/b").unwrap());
    let (below, _) = mount.ls("/a", true).unwrap();
    assert_eq!(below.len(), 3);
    assert_eq!(below[0].0, vec!["a".to_string(), "b".to_string()]);
    assert_eq!(below[1].0, vec!["a".to_string(), "b".to_string(), "c".to_string()]);
}

#[test]
fn add_then_rm_gives_the_root_of_the_beginning() {
    let mut store = Recorded::new(MemoryStore::new());
    let mut mount = empty_mount(&mut store);
    let begun = mount.cid().clone();
    let begun_manifest = mount.manifest();
    mount.add(&mut store, "/a/b", &b"x".to_vec(), true).unwrap();
    assert_ne!(mount.cid(), &begun);
    mount.rm("/a/b").unwrap();
    assert_eq!(mount.cid(), &begun);
    assert_eq!(mount.manifest(), begun_manifest);
    let (links, _) = mount.ls("/", false).unwrap();
    assert!(links.is_empty());
}

#[test]
fn rm_keeps_the_directories_that_still_hold_a_file() {
    let mut store = Recorded::new(MemoryStore::new());
    let mut mount = empty_mount(&mut store);
    mount.add(&mut store, "/a/b", &b"x".to_vec(), true).unwrap();
    mount.add(&mut store, "/a/c", &b"y".to_vec(), true).unwrap();
    mount.rm("/a/b").unwrap();
    let (links, _) = mount.ls("/a", false).unwrap();
    assert_eq!(links.len(), 1);
    assert_eq!(links[0].0, vec!["c".to_string()]);
}

#[test]
fn rm_of_what_is_not_there_changes_nothing() {
    let mut store = Recorded::new(MemoryStore::new());
    let mut mount = empty_mount(&mut store);
    mount.add(&mut store, "/a/b", &b"x".to_vec(), true).unwrap();
    let before = mount.cid().clone();
    mount.rm("/a/nothing").unwrap();
    mount.rm("/nowhere/at/all").unwrap();
    assert_eq!(mount.cid(), &before);
}

#[test]
fn tag_twice_changes_nothing_the_second_time() {
    let mut store = Recorded::new(MemoryStore::new());
    let mut mount = empty_mount(&mut store);
    mount.add(&mut store, "/docs/p.md", &b"...".to_vec(), true).unwrap();
    let now = Timestamp::from_unix_nanos(7_000).unwrap();
    let first = titled("hi");
    mount.tag_at("/docs/p.md", &first, now).unwrap();
    let after_first = mount.cid().clone();
    let mut later = titled("hi");
    later.set_created_at(Timestamp::from_unix_nanos(5_000).unwrap());
    mount.tag_at("/docs/p.md", &later, now).unwrap();
    assert_eq!(mount.cid(), &after_first);
    let (links, _) = mount.ls("/docs", false).unwrap();
    match &links[0].1 {
        NodeLink::Data(_, Some(object)) => {
            assert_eq!(object.created_at().unix_nanos(), 1_000);
            assert_eq!(object.updated_at().unix_nanos(), 7_000);
        }
        other => panic!("no object: {:?}", other),
    }
    mount.tag_at("/docs/p.md", &later, Timestamp::from_unix_nanos(9_000).unwrap()).unwrap();
    assert_ne!(mount.cid(), &after_first);
    match mount.get_node_link_at_path("/docs/p.md").unwrap() {
        NodeLink::Data(_, Some(object)) => {
            assert_eq!(object.created_at().unix_nanos(), 1_000);
            assert_eq!(object.updated_at().unix_nanos(), 9_000);
            assert_eq!(object.properties().get("title"), Some(&Ipld::String("hi".to_string())));
        }
        other => panic!("no object: {:?}", other),
    }
}

#[test]
fn tag_bears_the_time_of_the_call() {
    let mut store = Recorded::new(MemoryStore::new());
    let mut mount = empty_mount(&mut store);
    mount.add(&mut store, "/p.md", &b"...".to_vec(), true).unwrap();
    let before = Timestamp::now().unix_nanos();
    mount.tag("/p.md", &titled("hi")).unwrap();
    let after = Timestamp::now().unix_nanos();
    match mount.get_node_link_at_path("/p.md").unwrap() {
        NodeLink::Data(_, Some(object)) => {
            assert_eq!(object.created_at().unix_nanos(), 1_000);
            assert!(before <= object.updated_at().unix_nanos());
            assert!(object.updated_at().unix_nanos() <= after);
        }
        other => panic!("no object: {:?}", other),
    }
}

#[test]
fn the_second_push_names_what_the_first_left() {
    let mut store = Recorded::new(MemoryStore::new());
    let mut mount = empty_mount(&mut store);
    let begun = mount.cid().clone();
    mount.push(&mut store).unwrap();
    let first = mount.cid().clone();
    assert_eq!(first, begun);
    assert_eq!(mount.manifest().previous(), &Cid::default());
    assert_eq!(mount.base(), &first);
    mount.add(&mut store, "/a", &b"x".to_vec(), true).unwrap();
    mount.add(&mut store, "/b", &b"y".to_vec(), true).unwrap();
    mount.rm("/a").unwrap();
    assert_eq!(mount.base(), &first);
    mount.push(&mut store).unwrap();
    let second = mount.cid().clone();
    assert_ne!(second, first);
    assert_eq!(mount.manifest().previous(), &first);
    assert_eq!(leaky::mount::get_manifest(&mut store, &second).unwrap(), mount.manifest());
    mount.push(&mut store).unwrap();
    assert_eq!(mount.manifest().previous(), &second);
    let pulled = Mount::pull(second.clone(), &mut store).unwrap();
    assert_eq!(pulled.base(), &second);
}

#[test]
fn a_rewrite_that_fails_leaves_the_node_as_it_was() {
    let mut cache = leaky::cache::BlockCache::new();
    let mut root = leaky::node::Node::default();
    let file = leaky::store::raw_cid(&b"x".to_vec());
    let path = vec!["a".to_string(), "f".to_string()];
    leaky::upsert::upsert_node(&mut root, &path, 0, Some(&file), None, None, &mut cache).unwrap();
    let before = root.clone();
    let held = cache.len();
    let through = vec!["a".to_string(), "f".to_string(), "g".to_string()];
    let r = leaky::upsert::upsert_node(&mut root, &through, 0, Some(&file), None, None, &mut cache);
    assert_eq!(r, Err(MountError::DataOnPath(vec!["a".to_string(), "f".to_string()])));
    assert_eq!(root, before);
    assert_eq!(cache.len(), held);
    let kept = vec!["a".to_string(), ".schema".to_string()];
    let r = leaky::upsert::upsert_node(&mut root, &kept, 0, Some(&file), None, None, &mut cache);
    assert!(matches!(r, Err(MountError::Node(_))));
    assert_eq!(root, before);
}

#[test]
fn tag_of_what_is_not_a_file_is_refused() {
    let mut store = Recorded::new(MemoryStore::new());
    let mut mount = empty_mount(&mut store);
    mount.add(&mut store, "/docs/p.md", &b"...".to_vec(), true).unwrap();
    let object = titled("hi");
    assert_eq!(
        mount.tag("/docs/q.md", &object),
        Err(MountError::PathNotFound(vec!["docs".to_string(), "q.md".to_string()]))
    );
    assert_eq!(
        mount.tag("/nowhere/q.md", &object),
        Err(MountError::PathNotFound(vec!["nowhere".to_string(), "q.md".to_string()]))
    );
    assert_eq!(mount.tag("/docs", &object), Err(MountError::PathNotFound(vec!["docs".to_string()])));
}

#[test]
fn schema_of_the_directory_holds_for_its_files() {
    let mut store = Recorded::new(MemoryStore::new());
    let mut mount = empty_mount(&mut store);
    mount.set_schema("/docs", title_schema()).unwrap();
    mount.add(&mut store, "/docs/p.md", &b"...".to_vec(), true).unwrap();
    let mut wrong = Object::default();
    wrong.insert("author".to_string(), Ipld::String("x".to_string()));
    assert_eq!(
        mount.tag("/docs/p.md", &wrong),
        Err(MountError::SchemaValidation(SchemaError::MissingRequired("title".to_string())))
    );
    mount.tag("/docs/p.md", &titled("hi")).unwrap();
}

#[test]
fn schema_is_inherited_and_overridden() {
    let mut store = Recorded::new(MemoryStore::new());
    let mut mount = empty_mount(&mut store);
    mount.set_schema("/a", title_schema()).unwrap();
    mount.add(&mut store, "/a/b/c.txt", &b"x".to_vec(), true).unwrap();
    let mut untitled = Object::default();
    untitled.insert("count".to_string(), Ipld::Integer(3));
    assert_eq!(
        mount.tag("/a/b/c.txt", &untitled),
        Err(MountError::SchemaValidation(SchemaError::MissingRequired("title".to_string())))
    );
    mount.tag("/a/b/c.txt", &titled("hi")).unwrap();
    let mut counted = Schema::default();
    counted.insert(
        "count".to_string(),
        SchemaProperty { property_type: SchemaType::Integer, description: Some("how many".to_string()), required: true },
    );
    mount.set_schema("/a/b", counted).unwrap();
    mount.tag("/a/b/c.txt", &untitled).unwrap();
    assert_eq!(
        mount.tag("/a/b/c.txt", &titled("hi")),
        Err(MountError::SchemaValidation(SchemaError::MissingRequired("count".to_string())))
    );
    let mut miscounted = Object::default();
    miscounted.insert("count".to_string(), Ipld::String("three".to_string()));
    assert_eq!(
        mount.tag("/a/b/c.txt", &miscounted),
        Err(MountError::SchemaValidation(SchemaError::TypeMismatch("count".to_string())))
    );
}

#[test]
fn schema_on_a_file_is_refused() {
    let mut store = Recorded::new(MemoryStore::new());
    let mut mount = empty_mount(&mut store);
    mount.add(&mut store, "/docs/p.md", &b"...".to_vec(), true).unwrap();
    assert_eq!(
        mount.set_schema("/docs/p.md", title_schema()),
        Err(MountError::SchemaOnData(vec!["docs".to_string(), "p.md".to_string()]))
    );
}

#[test]
fn a_file_on_the_way_is_refused() {
    let mut store = Recorded::new(MemoryStore::new());
    let mut mount = empty_mount(&mut store);
    mount.add(&mut store, "/docs", &b"...".to_vec(), true).unwrap();
    assert_eq!(
        mount.add(&mut store, "/docs/p.md", &b"x".to_vec(), true),
        Err(MountError::DataOnPath(vec!["docs".to_string()]))
    );
    assert_eq!(mount.ls("/docs", false).err(), Some(MountError::PathNotDir(vec!["docs".to_string()])));
}

#[test]
fn cat_of_a_directory_is_refused() {
    let mut store = Recorded::new(MemoryStore::new());
    let mut mount = empty_mount(&mut store);
    mount.add(&mut store, "/docs/p.md", &b"...".to_vec(), false).unwrap();
    assert_eq!(mount.cat(&mut store, "/docs"), Err(MountError::PathNotFile(vec!["docs".to_string()])));
    assert_eq!(
        mount.cat(&mut store, "/docs/q.md"),
        Err(MountError::PathNotFound(vec!["docs".to_string(), "q.md".to_string()]))
    );
}

#[test]
fn reserved_names_are_refused() {
    let mut store = Recorded::new(MemoryStore::new());
    let mut mount = empty_mount(&mut store);
    assert!(matches!(
        mount.add(&mut store, "/.schema", &b"x".to_vec(), true),
        Err(MountError::Node(leaky::node::NodeError::ReservedName(_)))
    ));
    assert!(matches!(
        mount.add(&mut store, "/a/.attached", &b"x".to_vec(), true),
        Err(MountError::Node(leaky::node::NodeError::ReservedName(_)))
    ));
}

#[test]
fn pull_gives_the_mount_that_was_pushed() {
    let mut store = Recorded::new(MemoryStore::new());
    let mut mount = empty_mount(&mut store);
    mount.set_schema("/docs", title_schema()).unwrap();
    mount.add(&mut store, "/docs/p.md", &b"...".to_vec(), false).unwrap();
    mount.tag("/docs/p.md", &titled("hi")).unwrap();
    mount.add(&mut store, "/a/b/c", &b"x".to_vec(), false).unwrap();
    mount.push(&mut store).unwrap();
    let pulled = Mount::pull(mount.cid().clone(), &mut store).unwrap();
    assert_eq!(pulled.cid(), mount.cid());
    assert_eq!(pulled.manifest(), mount.manifest());
    assert_eq!(pulled.ls("/", true).unwrap(), mount.ls("/", true).unwrap());
    assert_eq!(pulled.ls("/docs", false).unwrap(), mount.ls("/docs", false).unwrap());
    assert_eq!(pulled.cat(&mut store, "/a/b/c").unwrap(), b"x".to_vec());
}

#[test]
fn pull_of_what_the_store_lacks_is_refused() {
    let mut store = Recorded::new(MemoryStore::new());
    let mut mount = empty_mount(&mut store);
    mount.add(&mut store, "/a", &b"x".to_vec(), true).unwrap();
    let unpushed = mount.cid().clone();
    assert_eq!(Mount::pull(unpushed, &mut store).err(), Some(MountError::Store(StoreError::NotFound)));
}

#[test]
fn update_goes_on_only_from_the_manifest_before() {
    let mut store = Recorded::new(MemoryStore::new());
    let mut writer = empty_mount(&mut store);
    writer.push(&mut store).unwrap();
    let begun = writer.cid().clone();
    let mut reader = Mount::pull(begun.clone(), &mut store).unwrap();
    writer.add(&mut store, "/a", &b"x".to_vec(), false).unwrap();
    writer.push(&mut store).unwrap();
    let second = writer.cid().clone();
    reader.update(second.clone(), &mut store).unwrap();
    assert_eq!(reader.cid(), &second);
    assert_eq!(reader.previous_cid(), begun);
    assert_eq!(reader.ls("/", false).unwrap().0.len(), 1);
    writer.add(&mut store, "/b", &b"y".to_vec(), false).unwrap();
    writer.set_previous(begun.clone());
    writer.push(&mut store).unwrap();
    let unlinked = writer.cid().clone();
    assert_eq!(
        reader.update(unlinked, &mut store),
        Err(MountError::PreviousMismatch(begun, second.clone()))
    );
    assert_eq!(reader.cid(), &second);
}

#[test]
fn load_takes_the_parts_as_they_are() {
    let mut store = Recorded::new(MemoryStore::new());
    let mount = empty_mount(&mut store);
    let again = Mount::load(mount.cid().clone(), mount.manifest(), mount.block_cache().clone());
    assert_eq!(again.cid(), mount.cid());
    assert_eq!(again.manifest(), mount.manifest());
    assert_eq!(again.block_cache(), mount.block_cache());
    assert_eq!(again.base(), mount.cid());
    assert_eq!(mount.base(), &Cid::default());
    let named = Mount::new(Version::new(
        "release".to_string(),
        "".to_string(),
        "abc".to_string(),
        "0.1.0".to_string(),
    ))
    .unwrap();
    assert_ne!(named.cid(), mount.cid());
    assert_eq!(named.manifest().data(), mount.manifest().data());
    assert_eq!(named.manifest().previous(), &Cid::default());
    assert_eq!(Manifest::default().data(), &Cid::default());
    assert!(store.pinned(mount.cid()).unwrap());
}

#[test]
fn a_payload_is_hashed_without_being_left_in_the_store() {
    let mut store = Recorded::new(MemoryStore::new());
    let data = "payload".as_bytes().to_vec();
    let hashed = Mount::hash_data(&mut store, &data).unwrap();
    assert_eq!(store.get(&hashed), Err(StoreError::NotFound));
    let added = Mount::add_data(&mut store, &data).unwrap();
    assert_eq!(added, hashed);
    assert_eq!(store.get(&added), Ok(data));
}
