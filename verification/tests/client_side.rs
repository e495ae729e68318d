use leaky::cache::{BlockCache, CacheError};
use leaky::change_log::{diff, ChangeLog, ChangeType, StagedType};
use leaky::cid::Cid;
use leaky::client::{
    change_to_string, classify, is_regular, object_file_target, pass_of, pull_plan, AddOutput, DisplayableChangeLog, FileKind, OnDiskState, PreviousCid,
    StatOutput,
};
use leaky::content::{content_type, extension, makes_thumbnail, normalize_path, GetContentError, GetContentQuery};
use leaky::ipld::Ipld;
use leaky::manifest::Manifest;
use leaky::path::{clean_path, path_is_absolute};
use leaky::root::{push_root, PullRoot, PullRootResponse, PushRoot, PushRootError, PushRootRequest, RootChain, RootCidError};
use leaky::sorted_map::SortedMap;
use leaky::store::{BlockStore, MemoryStore, Recorded, StoreError, raw_cid};
use leaky::text::{compare_names, names_equal, Order};

fn id(text: &str) -> Cid {
    raw_cid(&text.as_bytes().to_vec())
}

fn log_of(entries: Vec<(&str, Cid, ChangeType)>) -> ChangeLog {
    let mut log = ChangeLog::new();
    for (path, cid, change) in entries {
        log.insert(path.to_string(), cid, change);
    }
    log
}

fn tree_of(entries: Vec<(&str, Cid)>) -> SortedMap<Cid> {
    let mut tree = SortedMap::new();
    for (path, cid) in entries {
        tree.insert(path.to_string(), cid);
    }
    tree
}

#[test]
fn clean_path_gives_the_names_of_a_path() {
    assert_eq!(clean_path("/"), Vec::<String>::new());
    assert_eq!(clean_path("/foo"), vec!["foo".to_string()]);
    assert_eq!(clean_path("/foo/bar/buzz"), vec!["foo".to_string(), "bar".to_string(), "buzz".to_string()]);
    assert_eq!(clean_path("//a//./b/"), vec!["a".to_string(), "b".to_string()]);
    assert_eq!(clean_path("/a/../b"), vec!["a".to_string(), "..".to_string(), "b".to_string()]);
    assert_eq!(clean_path("/ä/ö.txt"), vec!["ä".to_string(), "ö.txt".to_string()]);
    assert_eq!(clean_path("/."), Vec::<String>::new());
    assert!(path_is_absolute("/a"));
    assert!(!path_is_absolute("a/b"));
    assert!(!path_is_absolute(""));
}

#[test]
fn names_are_ordered_by_their_bytes() {
    assert_eq!(compare_names("a", "b"), Order::Less);
    assert_eq!(compare_names("b", "a"), Order::Greater);
    assert_eq!(compare_names("a", "a"), Order::Equal);
    assert_eq!(compare_names("a", "ab"), Order::Less);
    assert_eq!(compare_names("ab", "a"), Order::Greater);
    assert_eq!(compare_names("", ""), Order::Equal);
    assert_eq!(compare_names("Z", "a"), Order::Less);
    assert_eq!(compare_names("z", "ä"), Order::Less);
    assert_eq!(compare_names("a-b", "a/b"), Order::Less);
    assert!(names_equal("ö", "ö"));
    assert!(!names_equal("o", "ö"));
}

#[test]
fn sorted_map_keeps_the_order_of_names() {
    let mut map: SortedMap<u32> = SortedMap::new();
    assert_eq!(map.insert("b".to_string(), 2), None);
    assert_eq!(map.insert("a".to_string(), 1), None);
    assert_eq!(map.insert("c".to_string(), 3), None);
    assert_eq!(map.insert("b".to_string(), 20), Some(2));
    assert_eq!(map.len(), 3);
    assert_eq!(map.key_at(0), "a");
    assert_eq!(map.key_at(1), "b");
    assert_eq!(*map.value_at(1), 20);
    assert_eq!(map.get("c"), Some(&3));
    assert_eq!(map.get("d"), None);
    assert!(map.contains_key("a"));
    assert_eq!(map.remove("a"), Some(1));
    assert_eq!(map.remove("a"), None);
    map.push_back("d".to_string(), 4);
    assert_eq!(map.entries().len(), 3);
    assert_eq!(map.entries()[2], ("d".to_string(), 4));
}

#[test]
fn cache_holds_each_value_under_its_own_identifier() {
    let mut cache = BlockCache::new();
    let value = Ipld::String("a".to_string());
    let cid = cache.put(value.clone()).unwrap();
    assert_eq!(cache.put(value.clone()).unwrap(), cid);
    assert_eq!(cache.len(), 1);
    assert_eq!(cache.get(&cid), Some(&value));
    assert!(cache.contains(&cid));
    assert_eq!(cache.get(&Cid::default()), None);
    assert_eq!(cache.cid_at(0), &cid);
    assert_eq!(cache.value_at(0), &value);
    assert_eq!(cache.put(Ipld::Integer(i128::MAX)), Err(CacheError::Encoding));
    let other = cache.put(Ipld::String("b".to_string())).unwrap();
    assert_ne!(other, cid);
    assert_eq!(cache.clone(), cache);
    assert_eq!(BlockCache::default().len(), 0);
}

#[test]
fn memory_store_keeps_what_is_added() {
    let mut store = MemoryStore::new();
    let data = b"hello world".to_vec();
    let hashed = store.hash(&data).unwrap();
    assert_eq!(store.pinned(&hashed), Ok(false));
    assert_eq!(store.get(&hashed), Err(StoreError::NotFound));
    let added = store.add(&data).unwrap();
    assert_eq!(hashed, added);
    assert_eq!(store.pinned(&added), Ok(true));
    assert_eq!(store.get(&added), Ok(data.clone()));
    assert_eq!(store.add(&data).unwrap(), added);
    assert_eq!(store.len(), 1);
    let structured = Cid::new_v1(0x71, 0x1e, vec![0; 32]).unwrap();
    let put = store.put_block(&structured, &data).unwrap();
    assert_eq!(put.codec(), 0x71);
    assert_eq!(put.digest(), added.digest());
    assert_eq!(store.get(&put), Ok(data));
}

#[test]
fn diff_finds_what_was_added_modified_and_removed() {
    let base = log_of(vec![
        ("a", id("a"), ChangeType::Base),
        ("b", id("b"), ChangeType::Base),
        ("c", id("c"), ChangeType::Added { modified: false }),
        ("d", id("d"), ChangeType::Added { modified: false }),
        ("e", id("e"), ChangeType::Modified { processed: true }),
        ("f", Cid::default(), ChangeType::Removed { processed: true }),
        ("g", Cid::default(), ChangeType::Removed { processed: true }),
        ("h", id("h"), ChangeType::Base),
    ]);
    let tree = tree_of(vec![
        ("a", id("a")),
        ("b", id("b2")),
        ("c", id("c2")),
        ("e", id("e")),
        ("g", id("g")),
        ("i", id("i")),
    ]);
    let expected = log_of(vec![
        ("a", id("a"), ChangeType::Base),
        ("b", id("b2"), ChangeType::Modified { processed: false }),
        ("c", id("c2"), ChangeType::Added { modified: true }),
        ("e", id("e"), ChangeType::Modified { processed: true }),
        ("f", Cid::default(), ChangeType::Removed { processed: true }),
        ("g", id("g"), ChangeType::Modified { processed: false }),
        ("h", Cid::default(), ChangeType::Removed { processed: false }),
        ("i", id("i"), ChangeType::Added { modified: true }),
    ]);
    assert_eq!(diff(&base, &tree), expected);
    assert_eq!(diff(&ChangeLog::new(), &SortedMap::new()), ChangeLog::new());
    assert_eq!(
        diff(&ChangeLog::new(), &tree_of(vec![("x", id("x"))])),
        log_of(vec![("x", id("x"), ChangeType::Added { modified: true })])
    );
    assert_eq!(diff(&expected, &tree), expected);
}

#[test]
fn change_log_settles_after_a_push() {
    let log = log_of(vec![
        ("a", id("a"), ChangeType::Added { modified: false }),
        ("b", id("b"), ChangeType::Modified { processed: true }),
        ("c", Cid::default(), ChangeType::Removed { processed: true }),
        ("d", id("d"), ChangeType::Base),
    ]);
    let settled = log.settled();
    assert_eq!(
        settled,
        log_of(vec![
            ("a", id("a"), ChangeType::Base),
            ("b", id("b"), ChangeType::Base),
            ("d", id("d"), ChangeType::Base),
        ])
    );
    assert_eq!(settled.len(), 3);
    assert_eq!(settled.path_at(1), "b");
    assert_eq!(settled.entry_at(1), (&id("b"), ChangeType::Base));
    assert_eq!(settled.get("c"), None);
    let mut other = settled.clone();
    other.remove("a");
    assert_eq!(other.get("a"), None);
    assert_eq!(other.len(), 2);
    assert_ne!(StagedType::Added, StagedType::Removed);
}

#[test]
fn outputs_are_told_in_words() {
    let log = log_of(vec![
        ("a", id("a"), ChangeType::Base),
        ("b/c", id("b"), ChangeType::Added { modified: true }),
        ("d", id("d"), ChangeType::Removed { processed: false }),
    ]);
    let shown = "b/c: \x1b[0;32mAdded\x1b[0m\nd: \x1b[0;31mRemoved\x1b[0m\n";
    assert_eq!(DisplayableChangeLog(log.clone()).to_string(), shown);
    assert_eq!(StatOutput { change_log: log }.to_string(), shown);
    assert_eq!(StatOutput { change_log: ChangeLog::new() }.to_string(), "No changes");
    assert_eq!(
        StatOutput { change_log: log_of(vec![("a", id("a"), ChangeType::Base)]) }.to_string(),
        "No changes"
    );
    assert_eq!(change_to_string(ChangeType::Modified { processed: true }), "\x1b[0;33mModified\x1b[0m");
    assert_eq!(change_to_string(ChangeType::Base), "\x1b[0;32mBase\x1b[0m");
    assert_eq!(AddOutput { previous_cid: id("a"), cid: id("a") }.to_string(), "No changes to add");
    assert_eq!(
        AddOutput { previous_cid: id("a"), cid: id("b") }.to_string(),
        format!("{} -> {}", id("a").to_string(), id("b").to_string())
    );
    let state = OnDiskState { cid: Cid::default(), manifest: Manifest::default() };
    assert_eq!(state.manifest.previous(), &PreviousCid { cid: Cid::default() }.cid);
}

#[test]
fn chain_moves_on_for_the_writer_who_knows_the_head() {
    let mut chain = RootChain::new();
    assert_eq!(chain.pull_root(), Cid::default());
    assert!(chain.pull().is_none());
    let first = id("first");
    let second = id("second");
    let third = id("third");
    let entry = chain.push(&first, &Cid::default(), &Cid::default()).unwrap();
    assert_eq!(entry.cid(), &first);
    assert_eq!(entry.previous_cid(), &Cid::default());
    assert_eq!(chain.pull_root(), first);
    assert_eq!(
        chain.push(&second, &Cid::default(), &Cid::default()),
        Err(RootCidError::Conflict(Cid::default(), first.clone()))
    );
    assert_eq!(
        chain.push(&second, &first, &Cid::default()),
        Err(RootCidError::InvalidLink(Cid::default(), first.clone()))
    );
    assert_eq!(chain.len(), 1);
    chain.push(&second, &first, &first).unwrap();
    assert_eq!(
        chain.push(&third, &first, &first),
        Err(RootCidError::Conflict(first.clone(), second.clone()))
    );
    chain.push(&third, &second, &second).unwrap();
    assert_eq!(chain.pull().unwrap().previous_cid(), &second);
    assert_eq!(chain.len(), 3);
}

#[test]
fn push_root_requests_are_answered() {
    let mut chain = RootChain::new();
    let first = id("first");
    let second = id("second");
    let request = PushRoot::new(&first, &Cid::default());
    assert!(request.requires_authentication());
    assert!(!PullRoot.requires_authentication());
    let received = PushRootRequest { cid: request.cid.clone(), previous_cid: request.previous_cid.clone() };
    assert_eq!(received.parse().unwrap(), (first.clone(), Cid::default()));
    let answer = push_root(&mut chain, &received, &Cid::default()).unwrap();
    assert_eq!(answer.cid, first.to_string());
    assert_eq!(answer.previous_cid, Cid::default().to_string());
    assert_eq!(PullRootResponse::new(&chain.pull_root()).cid().unwrap(), first);
    let late = PushRootRequest { cid: second.to_string(), previous_cid: Cid::default().to_string() };
    let refused = push_root(&mut chain, &late, &Cid::default()).unwrap_err();
    assert_eq!(refused, PushRootError::RootCid(RootCidError::Conflict(Cid::default(), first.clone())));
    assert_eq!(refused.status(), 409);
    assert_eq!(refused.message(), "conflict");
    let unlinked = PushRootRequest { cid: second.to_string(), previous_cid: first.to_string() };
    let refused = push_root(&mut chain, &unlinked, &Cid::default()).unwrap_err();
    assert_eq!(refused.status(), 400);
    assert_eq!(refused.message(), "invalid link");
    let garbled = PushRootRequest { cid: "?".to_string(), previous_cid: first.to_string() };
    let refused = push_root(&mut chain, &garbled, &first).unwrap_err();
    assert_eq!(refused.status(), 400);
    assert_eq!(refused.message(), "invalid cid");
    assert_eq!(PushRootError::Unavailable.status(), 500);
    assert_eq!(PushRootError::Unavailable.message(), "unknown server error");
    assert_eq!(chain.len(), 1);
}

#[test]
fn files_of_the_working_directory_are_told_apart() {
    let names = |parts: &[&str]| parts.iter().map(|s| s.to_string()).collect::<Vec<String>>();
    assert_eq!(classify(&names(&["writing", ".schema"])), FileKind::Schema(names(&["writing"])));
    assert_eq!(classify(&names(&[".schema"])), FileKind::Schema(names(&[])));
    assert_eq!(
        classify(&names(&["writing", ".obj", ".poem.md.json"])),
        FileKind::Object(names(&["writing", "poem.md"]))
    );
    assert_eq!(
        classify(&names(&["writing", ".obj", "poem.json"])),
        FileKind::Regular(names(&["writing", ".obj", "poem.json"]))
    );
    assert_eq!(classify(&names(&["writing", "poem.md"])), FileKind::Regular(names(&["writing", "poem.md"])));
    assert_eq!(classify(&names(&[])), FileKind::Regular(names(&[])));
    assert_eq!(object_file_target(".a.json"), Some("a".to_string()));
    assert_eq!(object_file_target("..json"), Some("".to_string()));
    assert_eq!(object_file_target(".json"), None);
    assert_eq!(object_file_target("a.json"), None);
    assert_eq!(object_file_target(".a.jsonl"), None);
}

#[test]
fn a_change_is_done_once_the_mount_has_taken_it() {
    assert!(!ChangeType::Base.needs_work());
    assert!(ChangeType::Added { modified: true }.needs_work());
    assert!(!ChangeType::Added { modified: false }.needs_work());
    assert!(ChangeType::Modified { processed: false }.needs_work());
    assert!(!ChangeType::Modified { processed: true }.needs_work());
    assert!(ChangeType::Removed { processed: false }.needs_work());
    assert_eq!(ChangeType::Added { modified: true }.done(), ChangeType::Added { modified: false });
    assert_eq!(ChangeType::Modified { processed: false }.done(), ChangeType::Modified { processed: true });
    assert_eq!(ChangeType::Removed { processed: false }.done(), ChangeType::Removed { processed: true });
    assert_eq!(ChangeType::Base.done(), ChangeType::Base);
}

#[test]
fn content_is_answered_by_the_ending_of_its_name() {
    assert_eq!(extension("poem.md"), "md");
    assert_eq!(extension("archive.tar.gz"), "gz");
    assert_eq!(extension("poem"), "");
    assert_eq!(extension(".hidden"), "");
    assert_eq!(extension("poem."), "");
    assert_eq!(extension(""), "");
    assert_eq!(content_type("md", false), "text/plain");
    assert_eq!(content_type("md", true), "text/html");
    assert_eq!(content_type("png", true), "image/png");
    assert_eq!(content_type("jpeg", false), "image/jpeg");
    assert_eq!(content_type("gif", false), "image/gif");
    assert_eq!(content_type("txt", false), "application/octet-stream");
    assert_eq!(content_type("", true), "application/octet-stream");
    let small = GetContentQuery { html: None, thumbnail: Some(true) };
    let whole = GetContentQuery { html: None, thumbnail: None };
    assert!(makes_thumbnail("png", &small));
    assert!(makes_thumbnail("jpg", &small));
    assert!(!makes_thumbnail("gif", &small));
    assert!(!makes_thumbnail("md", &small));
    assert!(!makes_thumbnail("png", &whole));
    let names = |parts: &[&str]| parts.iter().map(|s| s.to_string()).collect::<Vec<String>>();
    assert_eq!(normalize_path(&names(&["a", "b", "..", "c"])), names(&["a", "c"]));
    assert_eq!(normalize_path(&names(&["..", "a"])), names(&["a"]));
    assert_eq!(normalize_path(&names(&["a", "..", ".."])), names(&[]));
    assert_eq!(normalize_path(&names(&["a", ".", "b", ".", ".."])), names(&["a"]));
    assert_eq!(GetContentError::NotFound.status(), 404);
    assert_eq!(GetContentError::RootNotFound.status(), 404);
    assert_eq!(GetContentError::Mount.status(), 500);
    assert_eq!(GetContentError::Database.status(), 500);
    assert_eq!(GetContentError::UnsupportedImageFormat.status(), 415);
    assert_eq!(GetContentError::Timeout.status(), 408);
    assert_eq!(GetContentError::Timeout.message(), "Request timed out");
    assert_eq!(GetContentError::NotFound.message(), "Not found");
}

#[test]
fn a_store_answers_through_its_handle_as_it_does_itself() {
    let mut store = Recorded::new(MemoryStore::new());
    let data = b"hello world".to_vec();
    let hashed = store.hash(&data).unwrap();
    assert_eq!(hashed, raw_cid(&data));
    assert_eq!(store.pinned(&hashed), Ok(false));
    assert_eq!(store.get(&hashed), Err(StoreError::NotFound));
    assert_eq!(store.add(&data), Ok(hashed.clone()));
    assert_eq!(store.get(&hashed), Ok(data.clone()));
    assert_eq!(store.inner().len(), 1);
    let structured = Cid::new_v1(0x71, 0x1e, vec![0; 32]).unwrap();
    let put = store.put_block(&structured, &data).unwrap();
    assert_eq!(put.codec(), 0x71);
    let mut inner = store.into_inner();
    assert_eq!(inner.len(), 2);
    assert_eq!(inner.get(&put), Ok(data));
}

#[test]
fn schemas_are_taken_first_and_objects_last() {
    let names = |parts: &[&str]| parts.iter().map(|s| s.to_string()).collect::<Vec<String>>();
    assert_eq!(pass_of(&classify(&names(&["a", ".schema"]))), 0);
    assert_eq!(pass_of(&classify(&names(&["a", "b.txt"]))), 1);
    assert_eq!(pass_of(&classify(&names(&["a", ".obj", ".b.txt.json"]))), 2);
}

#[test]
fn a_new_change_log_knows_no_file() {
    let log = ChangeLog::new();
    assert_eq!(log.len(), 0);
    assert_eq!(log.get("a"), None);
}

#[test]
fn a_pull_fetches_what_differs_and_removes_what_the_mount_lacks() {
    let wanted = tree_of(vec![
        ("a.txt", id("a")),
        ("b/c.txt", id("c")),
        ("d.txt", id("d")),
        ("none.txt", Cid::default()),
    ]);
    let found = tree_of(vec![
        ("a.txt", id("a")),
        ("b/.obj/.c.txt.json", id("o")),
        ("b/.schema", id("s")),
        ("b/c.txt", id("old")),
        ("gone.txt", id("g")),
        ("z/gone.too", id("z")),
    ]);
    let plan = pull_plan(&wanted, &found);
    assert_eq!(plan.fetch, vec!["b/c.txt".to_string(), "d.txt".to_string()]);
    assert_eq!(plan.remove, vec!["gone.txt".to_string(), "z/gone.too".to_string()]);
    let nothing = pull_plan(&wanted, &wanted);
    assert!(nothing.fetch.is_empty() && nothing.remove.is_empty());
    assert!(is_regular("a/b.txt"));
    assert!(!is_regular("a/.schema"));
    assert!(!is_regular("a/.obj/.b.txt.json"));
    assert!(is_regular("a/.obj/b.txt.json"));
}
