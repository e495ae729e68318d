use leaky::cid::Cid;
use leaky::mount::{get_manifest, get_value, put_value, Mount};
use leaky::root::{RootChain, RootCidError};
use leaky::store::{MemoryStore, Recorded};
use leaky::upsert::MountError;

fn publish(mount: &mut Mount, store: &mut Recorded<MemoryStore>, chain: &mut RootChain, known: &Cid) -> Result<Cid, RootCidError> {
    mount.set_previous(known.clone());
    mount.push(store).unwrap();
    let linked = get_manifest(store, mount.cid()).unwrap().previous().clone();
    chain.push(mount.cid(), known, &linked).map(|entry| entry.cid().clone())
}

#[test]
fn pushes_one_after_the_other_name_the_root_before() {
    let mut store = Recorded::new(MemoryStore::new());
    let mut chain = RootChain::new();
    let mut mount = Mount::init(&mut store).unwrap();
    let first = publish(&mut mount, &mut store, &mut chain, &Cid::default()).unwrap();
    assert_eq!(mount.manifest().previous(), &Cid::default());
    mount.add(&mut store, "/a", &b"x".to_vec(), false).unwrap();
    let second = publish(&mut mount, &mut store, &mut chain, &first).unwrap();
    assert_eq!(mount.manifest().previous(), &first);
    mount.add(&mut store, "/b", &b"y".to_vec(), false).unwrap();
    let third = publish(&mut mount, &mut store, &mut chain, &second).unwrap();
    assert_eq!(mount.manifest().previous(), &second);
    assert_eq!(get_manifest(&mut store, &third).unwrap().previous(), &second);
    assert_eq!(get_manifest(&mut store, &second).unwrap().previous(), &first);
    assert_eq!(chain.pull_root(), third);
    assert_eq!(chain.len(), 3);
}

#[test]
fn the_second_of_two_writers_is_told_of_the_conflict() {
    let mut store = Recorded::new(MemoryStore::new());
    let mut chain = RootChain::new();
    let mut genesis = Mount::init(&mut store).unwrap();
    let base = publish(&mut genesis, &mut store, &mut chain, &Cid::default()).unwrap();

    let mut a = Mount::pull(base.clone(), &mut store).unwrap();
    let mut b = Mount::pull(base.clone(), &mut store).unwrap();
    let b_at_base = b.clone();

    a.add(&mut store, "/from-a", &b"a".to_vec(), false).unwrap();
    let latest = publish(&mut a, &mut store, &mut chain, &base).unwrap();

    b.add(&mut store, "/from-b", &b"b".to_vec(), false).unwrap();
    assert_eq!(
        publish(&mut b, &mut store, &mut chain, &base),
        Err(RootCidError::Conflict(base.clone(), latest.clone()))
    );
    assert_eq!(chain.pull_root(), latest);

    let mut b = b_at_base;
    b.update(latest.clone(), &mut store).unwrap();
    b.add(&mut store, "/from-b", &b"b".to_vec(), false).unwrap();
    let merged = publish(&mut b, &mut store, &mut chain, &latest).unwrap();
    assert_eq!(chain.pull_root(), merged);
    let (links, _) = b.ls("/", false).unwrap();
    assert_eq!(links.len(), 2);
    assert_eq!(links[0].0, vec!["from-a".to_string()]);
    assert_eq!(links[1].0, vec!["from-b".to_string()]);
}

#[test]
fn values_go_into_a_store_and_come_out() {
    let mut store = Recorded::new(MemoryStore::new());
    let mount = Mount::init(&mut store).unwrap();
    let written = mount.manifest().to_ipld();
    let cid = put_value(&mut store, &written).unwrap();
    assert_eq!(&cid, mount.cid());
    assert_eq!(get_value(&mut store, &cid).unwrap(), written);
    assert_eq!(
        get_value(&mut store, &Cid::default()).err(),
        Some(MountError::Store(leaky::store::StoreError::NotFound))
    );
    let mut manifest = mount.manifest();
    manifest.set_root(cid.clone());
    assert_eq!(manifest.data(), &cid);
    assert_eq!(manifest.root(), &cid);
}
