use colette::backend::kv::KVStore;
use colette::backend::memory::InMemoryMultiStore;
use colette::bounds::Bound;
use colette::scan::Direction;
use colette::store::{MultiStore, MultiStoreReadHandle, ReadKVStore, ReadWriteKVStore, WriteKVStore};

fn keys(items: &[(Vec<u8>, Vec<u8>)]) -> Vec<Vec<u8>> {
    items.iter().map(|(k, _)| k.clone()).collect()
}

#[test]
fn kv_store_keeps_keys_sorted() {
    let mut s = KVStore::new();
    for k in [&b"b"[..], b"a", b"ab", b"c", b""] {
        s.set(k, b"v");
    }
    s.set(b"a", b"w");
    let all = s.scan(&(Bound::Unbounded, Bound::Unbounded), Direction::LeftToRight);
    assert_eq!(keys(&all), vec![b"".to_vec(), b"a".to_vec(), b"ab".to_vec(), b"b".to_vec(), b"c".to_vec()]);
    assert_eq!(s.get(b"a"), Some(b"w".to_vec()));
    s.remove(b"ab");
    s.remove(b"zz");
    assert_eq!(s.get(b"ab"), None);
    let rev = s.scan(&(Bound::Unbounded, Bound::Unbounded), Direction::RightToLeft);
    assert_eq!(keys(&rev), vec![b"c".to_vec(), b"b".to_vec(), b"a".to_vec(), b"".to_vec()]);
}

#[test]
fn kv_store_scans_respect_bounds() {
    let mut s = KVStore::new();
    for k in [&b"a"[..], b"b", b"c", b"d"] {
        s.set(k, k);
    }
    let r = s.scan(&(Bound::Included(b"b".to_vec()), Bound::Excluded(b"d".to_vec())), Direction::LeftToRight);
    assert_eq!(keys(&r), vec![b"b".to_vec(), b"c".to_vec()]);
    let r = s.scan(&(Bound::Excluded(b"b".to_vec()), Bound::Included(b"d".to_vec())), Direction::LeftToRight);
    assert_eq!(keys(&r), vec![b"c".to_vec(), b"d".to_vec()]);
    let r = s.scan(&(Bound::Excluded(b"b".to_vec()), Bound::Included(b"d".to_vec())), Direction::RightToLeft);
    assert_eq!(keys(&r), vec![b"d".to_vec(), b"c".to_vec()]);
    assert_eq!(r[0].1, b"d".to_vec());
}

#[test]
fn writes_are_invisible_until_committed() {
    let mut db = InMemoryMultiStore::new();
    db.prepare("ns", &["s"]).unwrap();
    let snapshot = db.read("ns").unwrap();
    let mut tx = db.write("ns").unwrap();
    tx.set("s", b"k", b"v").unwrap();
    assert_eq!(ReadWriteKVStore::get(&tx, "s", b"k").unwrap(), Some(b"v".to_vec()));
    let before = db.read("ns").unwrap().open_store("s").unwrap();
    assert_eq!(before.get(b"k").unwrap(), None);
    db.commit(tx).unwrap();
    let after = db.read("ns").unwrap().open_store("s").unwrap();
    assert_eq!(after.get(b"k").unwrap(), Some(b"v".to_vec()));
    // a snapshot taken before the commit does not see it
    assert_eq!(snapshot.open_store("s").unwrap().get(b"k").unwrap(), None);
}

#[test]
fn prepare_keeps_existing_stores() {
    let mut db = InMemoryMultiStore::new();
    db.prepare("ns", &["s"]).unwrap();
    let mut tx = db.write("ns").unwrap();
    tx.set("s", b"k", b"v").unwrap();
    db.commit(tx).unwrap();
    db.prepare("ns", &["s", "t"]).unwrap();
    let read = db.read("ns").unwrap();
    assert_eq!(read.open_store("s").unwrap().get(b"k").unwrap(), Some(b"v".to_vec()));
    assert_eq!(read.open_store("t").unwrap().get(b"k").unwrap(), None);
    let scan = read
        .open_store("s")
        .unwrap()
        .scan((Bound::Unbounded, Bound::Unbounded), Direction::LeftToRight)
        .unwrap();
    assert_eq!(scan, vec![(b"k".to_vec(), b"v".to_vec())]);
}
