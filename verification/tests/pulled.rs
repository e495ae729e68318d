use leaky::cid::Cid;
use leaky::ipld::Ipld;
use leaky::mount::Mount;
use leaky::object::Object;
use leaky::store::{MemoryStore, Recorded};

fn empty_leaky_cid(store: &mut Recorded<MemoryStore>) -> Cid {
    let mut mount = Mount::init(store).unwrap();
    mount.push(store).unwrap();
    mount.cid().clone()
}

#[test]
fn leaky_pull_empty() {
    let mut store = Recorded::new(MemoryStore::new());
    let cid = empty_leaky_cid(&mut store);
    let leaky = Mount::pull(cid.clone(), &mut store).unwrap();
    assert_eq!(leaky.cid(), &cid);
}

#[test]
fn leaky_add() {
    let mut store = Recorded::new(MemoryStore::new());
    let cid = empty_leaky_cid(&mut store);
    let mut leaky = Mount::pull(cid, &mut store).unwrap();
    let data = "foo".as_bytes().to_vec();
    leaky.add(&mut store, "/foo", &data, true).unwrap();
}

#[test]
fn leaky_add_with_metadata() {
    let mut store = Recorded::new(MemoryStore::new());
    let cid = empty_leaky_cid(&mut store);
    let mut leaky = Mount::pull(cid, &mut store).unwrap();
    let data = "foo".as_bytes().to_vec();
    let mut metadata = Object::default();
    metadata.insert("foo".to_string(), Ipld::String("bar".to_string()));
    leaky.add(&mut store, "/foo", &data, true).unwrap();
    leaky.tag("/foo", &metadata).unwrap();
}

#[test]
fn leaky_add_cat() {
    let mut store = Recorded::new(MemoryStore::new());
    let cid = empty_leaky_cid(&mut store);
    let mut leaky = Mount::pull(cid, &mut store).unwrap();
    let data = "foo".as_bytes().to_vec();
    leaky.add(&mut store, "/bar", &data, false).unwrap();
    let get_data = leaky.cat(&mut store, "/bar").unwrap();
    assert_eq!(data, get_data);
}

#[test]
fn leaky_add_ls() {
    let mut store = Recorded::new(MemoryStore::new());
    let cid = empty_leaky_cid(&mut store);
    let mut leaky = Mount::pull(cid, &mut store).unwrap();
    let data = "foo".as_bytes().to_vec();
    leaky.add(&mut store, "/bar", &data, true).unwrap();
    let (links, _) = leaky.ls("/", false).unwrap();
    assert_eq!(links.len(), 1);
}

#[test]
fn leaky_add_deep() {
    let mut store = Recorded::new(MemoryStore::new());
    let cid = empty_leaky_cid(&mut store);
    let mut leaky = Mount::pull(cid, &mut store).unwrap();
    let data = "foo".as_bytes().to_vec();
    leaky.add(&mut store, "/foo/bar/buzz", &data, true).unwrap();
}

#[test]
fn leaky_add_pull_ls() {
    let mut store = Recorded::new(MemoryStore::new());
    let cid = empty_leaky_cid(&mut store);
    let mut leaky = Mount::pull(cid, &mut store).unwrap();
    let data = "foo".as_bytes().to_vec();
    leaky.add(&mut store, "/bar", &data, true).unwrap();
    leaky.push(&mut store).unwrap();
    let cid = leaky.cid().clone();
    let leaky = Mount::pull(cid, &mut store).unwrap();
    assert_eq!(leaky.ls("/", false).unwrap().0.len(), 1);
}

#[test]
fn leaky_add_add_deep() {
    let mut store = Recorded::new(MemoryStore::new());
    let cid = empty_leaky_cid(&mut store);
    let mut leaky = Mount::pull(cid, &mut store).unwrap();
    let data = "foo".as_bytes().to_vec();
    leaky.add(&mut store, "/foo/bar", &data, true).unwrap();
    let data = "bang".as_bytes().to_vec();
    leaky.add(&mut store, "/foo/bug", &data, true).unwrap();
}
