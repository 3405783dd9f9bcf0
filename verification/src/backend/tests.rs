//! The behaviour that every backend owes: what a read gives back after
//! writes are committed, and that namespaces are kept apart. Each check below
//! is proved from the backend interface's contracts, so it holds of every
//! backend that keeps them; running the checks exercises a backend's
//! implementation.
use vstd::prelude::*;
use crate::error::BackendError;
use crate::index::bytes_eq;
use crate::store::{
    lookup, opt_bytes, pairs_view, KvView, MultiStore, MultiStoreReadHandle, MultiStoreWriteHandle,
    ReadKVStore, ReadWriteKVStore, WriteKVStore,
};

verus! {

/// A store's entries after the pairs `entries` are written in order.
pub open spec fn with_entries(m: KvView, entries: Seq<(Seq<u8>, Seq<u8>)>) -> KvView
    decreases entries.len(),
{
    if entries.len() == 0 {
        m
    } else {
        with_entries(m, entries.drop_last()).insert(entries.last().0, entries.last().1)
    }
}

/// Why the backend checks stopped.
#[derive(Debug)]
pub enum CheckFailure {
    /// The backend returned an error.
    Backend(BackendError),
    /// The backend answered otherwise than its contract says.
    Violated(String),
}

/// Whether a read gave the expected value: `Violated` where it did not.
fn expect_value(found: &Option<Vec<u8>>, expected: &Option<Vec<u8>>) -> (r: Result<(), CheckFailure>)
    ensures
        r is Ok <==> opt_bytes(*found) == opt_bytes(*expected),
        r is Err ==> r matches Err(CheckFailure::Violated(_)),
{
    let same = match (found, expected) {
        (None, None) => true,
        (Some(a), Some(b)) => bytes_eq(a.as_slice(), b.as_slice()),
        _ => false,
    };
    if same {
        Ok(())
    } else {
        Err(CheckFailure::Violated("a read gave another value than was committed".to_owned()))
    }
}

/// Runs the contract checks on fresh backends made by `make_db`: each read
/// is compared with what the backend's contract says it gives, and the first
/// difference, or the first backend error, is returned. A backend that keeps
/// its contracts never gives a difference.
pub fn run_multistore_tests<DB: MultiStore>(make_db: impl Fn() -> DB) -> (r: Result<
    (),
    CheckFailure,
>)
    requires
        call_requires(make_db, ()),
        forall|db: DB| call_ensures(make_db, (), db) ==> db.namespaces() == Map::<
            Seq<char>,
            Map<Seq<char>, KvView>,
        >::empty(),
    ensures
        !(r matches Err(CheckFailure::Violated(_))),
        (forall|db: DB| call_ensures(make_db, (), db) ==> db.backend_healthy()) ==> r is Ok,
{
    if let Err(e) = basic_operations(&make_db) {
        return Err(e);
    }
    namespace_isolation(&make_db)
}

/// Reads, overwrites and removals in one store.
fn basic_operations<DB: MultiStore>(make_db: &impl Fn() -> DB) -> (r: Result<(), CheckFailure>)
    requires
        call_requires(*make_db, ()),
        forall|db: DB| call_ensures(*make_db, (), db) ==> db.namespaces() == Map::<
            Seq<char>,
            Map<Seq<char>, KvView>,
        >::empty(),
    ensures
        !(r matches Err(CheckFailure::Violated(_))),
        (forall|db: DB| call_ensures(*make_db, (), db) ==> db.backend_healthy()) ==> r is Ok,
{
    let mut db = make_db();
    let namespace: &'static str = "basic";
    let store: &'static str = "items";
    let stores: [&'static str; 1] = [store];
    if let Err(e) = db.prepare(namespace, &stores) {
        return Err(CheckFailure::Backend(e));
    }
    proof {
        assert(stores@ =~= seq![store]);
        assert(crate::store::names_view(stores@)[0] == store@);
    }
    let missing = "missing".as_bytes();
    let a = vstd::slice::slice_to_vec("a".as_bytes());
    let one = vstd::slice::slice_to_vec("one".as_bytes());
    let two = vstd::slice::slice_to_vec("two".as_bytes());

    let v = match get(&db, namespace, store, missing) {
        Ok(v) => v,
        Err(e) => {
            return Err(CheckFailure::Backend(e));
        },
    };
    assert(v is None);
    if let Err(f) = expect_value(&v, &None) {
        return Err(f);
    }

    let ghost items0 = db.namespaces()[namespace@][store@];
    let entries = vec![(vstd::slice::slice_to_vec(a.as_slice()), vstd::slice::slice_to_vec(one.as_slice()))];
    if let Err(e) = commit_entries(&mut db, namespace, store, entries.as_slice()) {
        return Err(CheckFailure::Backend(e));
    }
    proof {
        reveal_with_fuel(with_entries, 2);
        assert(pairs_view(entries@) =~= seq![(a@, one@)]);
    }
    let v = match get(&db, namespace, store, a.as_slice()) {
        Ok(v) => v,
        Err(e) => {
            return Err(CheckFailure::Backend(e));
        },
    };
    assert(opt_bytes(v) == Some(one@));
    if let Err(f) = expect_value(&v, &Some(vstd::slice::slice_to_vec(one.as_slice()))) {
        return Err(f);
    }

    let entries = vec![(vstd::slice::slice_to_vec(a.as_slice()), vstd::slice::slice_to_vec(two.as_slice()))];
    if let Err(e) = commit_entries(&mut db, namespace, store, entries.as_slice()) {
        return Err(CheckFailure::Backend(e));
    }
    proof {
        reveal_with_fuel(with_entries, 2);
        assert(pairs_view(entries@) =~= seq![(a@, two@)]);
    }
    let v = match get(&db, namespace, store, a.as_slice()) {
        Ok(v) => v,
        Err(e) => {
            return Err(CheckFailure::Backend(e));
        },
    };
    assert(opt_bytes(v) == Some(two@));
    if let Err(f) = expect_value(&v, &Some(vstd::slice::slice_to_vec(two.as_slice()))) {
        return Err(f);
    }

    if let Err(e) = remove_and_commit(&mut db, namespace, store, a.as_slice()) {
        return Err(CheckFailure::Backend(e));
    }
    let v = match get(&db, namespace, store, a.as_slice()) {
        Ok(v) => v,
        Err(e) => {
            return Err(CheckFailure::Backend(e));
        },
    };
    assert(v is None);
    if let Err(f) = expect_value(&v, &None) {
        return Err(f);
    }

    if let Err(e) = remove_and_commit(&mut db, namespace, store, missing) {
        return Err(CheckFailure::Backend(e));
    }
    let v = match get(&db, namespace, store, missing) {
        Ok(v) => v,
        Err(e) => {
            return Err(CheckFailure::Backend(e));
        },
    };
    proof {
        assert(db.namespaces()[namespace@][store@] =~= Map::<Seq<u8>, Seq<u8>>::empty());
    }
    assert(v is None);
    if let Err(f) = expect_value(&v, &None) {
        return Err(f);
    }
    Ok(())
}

/// The same key in two namespaces holds two values.
fn namespace_isolation<DB: MultiStore>(make_db: &impl Fn() -> DB) -> (r: Result<(), CheckFailure>)
    requires
        call_requires(*make_db, ()),
        forall|db: DB| call_ensures(*make_db, (), db) ==> db.namespaces() == Map::<
            Seq<char>,
            Map<Seq<char>, KvView>,
        >::empty(),
    ensures
        !(r matches Err(CheckFailure::Violated(_))),
        (forall|db: DB| call_ensures(*make_db, (), db) ==> db.backend_healthy()) ==> r is Ok,
{
    let mut db = make_db();
    let left: &'static str = "left";
    let right: &'static str = "right";
    let store: &'static str = "items";
    proof {
        reveal_strlit("left");
        reveal_strlit("right");
        assert(left@ != right@) by {
            assert(left@.len() != right@.len());
        }
    }
    let stores: [&'static str; 1] = [store];
    proof {
        assert(stores@ =~= seq![store]);
        assert(crate::store::names_view(stores@)[0] == store@);
    }
    if let Err(e) = db.prepare(left, &stores) {
        return Err(CheckFailure::Backend(e));
    }
    if let Err(e) = db.prepare(right, &stores) {
        return Err(CheckFailure::Backend(e));
    }
    let key = vstd::slice::slice_to_vec("same-key".as_bytes());
    let left_value = vstd::slice::slice_to_vec("left".as_bytes());
    let right_value = vstd::slice::slice_to_vec("right".as_bytes());

    let entries = vec![(vstd::slice::slice_to_vec(key.as_slice()), vstd::slice::slice_to_vec(left_value.as_slice()))];
    if let Err(e) = commit_entries(&mut db, left, store, entries.as_slice()) {
        return Err(CheckFailure::Backend(e));
    }
    proof {
        reveal_with_fuel(with_entries, 2);
        assert(pairs_view(entries@) =~= seq![(key@, left_value@)]);
    }
    let entries = vec![(vstd::slice::slice_to_vec(key.as_slice()), vstd::slice::slice_to_vec(right_value.as_slice()))];
    if let Err(e) = commit_entries(&mut db, right, store, entries.as_slice()) {
        return Err(CheckFailure::Backend(e));
    }
    proof {
        reveal_with_fuel(with_entries, 2);
        assert(pairs_view(entries@) =~= seq![(key@, right_value@)]);
    }
    let v = match get(&db, left, store, key.as_slice()) {
        Ok(v) => v,
        Err(e) => {
            return Err(CheckFailure::Backend(e));
        },
    };
    assert(opt_bytes(v) == Some(left_value@));
    if let Err(f) = expect_value(&v, &Some(vstd::slice::slice_to_vec(left_value.as_slice()))) {
        return Err(f);
    }
    let v = match get(&db, right, store, key.as_slice()) {
        Ok(v) => v,
        Err(e) => {
            return Err(CheckFailure::Backend(e));
        },
    };
    assert(opt_bytes(v) == Some(right_value@));
    if let Err(f) = expect_value(&v, &Some(vstd::slice::slice_to_vec(right_value.as_slice()))) {
        return Err(f);
    }
    Ok(())
}

/// Writes `entries` to a store in one transaction and commits it.
fn commit_entries<DB: MultiStore>(
    db: &mut DB,
    namespace: &'static str,
    store: &'static str,
    entries: &[(Vec<u8>, Vec<u8>)],
) -> (r: Result<(), BackendError>)
    requires
        old(db).namespaces().contains_key(namespace@),
        old(db).namespaces()[namespace@].contains_key(store@),
    ensures
        r is Ok ==> final(db).namespaces() == old(db).namespaces().insert(
            namespace@,
            old(db).namespaces()[namespace@].insert(
                store@,
                with_entries(old(db).namespaces()[namespace@][store@], pairs_view(entries@)),
            ),
        ),
        r is Err ==> final(db).namespaces() == old(db).namespaces(),
        final(db).backend_healthy() == old(db).backend_healthy(),
        old(db).backend_healthy() ==> r is Ok,
{
    let ghost stores0 = db.namespaces()[namespace@];
    let mut write = match db.write(namespace) {
        Ok(w) => w,
        Err(e) => {
            return Err(e);
        },
    };
    if let Err(e) = write.open_store(store) {
        return Err(e);
    }
    let mut i: usize = 0;
    assert(pairs_view(entries@).take(0) =~= Seq::<(Seq<u8>, Seq<u8>)>::empty());
    while i < entries.len()
        invariant
            i <= entries@.len(),
            write.namespace() == namespace@,
            write.staged() == stores0.insert(
                store@,
                with_entries(stores0[store@], pairs_view(entries@).take(i as int)),
            ),
            stores0.contains_key(store@),
            write.staging_healthy() == db.backend_healthy(),
            db.backend_healthy() == old(db).backend_healthy(),
        decreases entries@.len() - i,
    {
        let (key, value) = &entries[i];
        if let Err(e) = write.set(store, key.as_slice(), value.as_slice()) {
            return Err(e);
        }
        proof {
            let pv = pairs_view(entries@);
            assert(pv.take(i + 1).drop_last() =~= pv.take(i as int));
            assert(pv.take(i + 1).last() == (key@, value@));
            assert(write.staged() =~= stores0.insert(
                store@,
                with_entries(stores0[store@], pv.take(i + 1)),
            ));
        }
        i = i + 1;
    }
    assert(pairs_view(entries@).take(i as int) =~= pairs_view(entries@));
    db.commit(write)
}

/// Removes `key` from a store in one transaction and commits it.
fn remove_and_commit<DB: MultiStore>(
    db: &mut DB,
    namespace: &'static str,
    store: &'static str,
    key: &[u8],
) -> (r: Result<(), BackendError>)
    requires
        old(db).namespaces().contains_key(namespace@),
        old(db).namespaces()[namespace@].contains_key(store@),
    ensures
        r is Ok ==> final(db).namespaces() == old(db).namespaces().insert(
            namespace@,
            old(db).namespaces()[namespace@].insert(
                store@,
                old(db).namespaces()[namespace@][store@].remove(key@),
            ),
        ),
        r is Err ==> final(db).namespaces() == old(db).namespaces(),
        final(db).backend_healthy() == old(db).backend_healthy(),
        old(db).backend_healthy() ==> r is Ok,
{
    let mut write = match db.write(namespace) {
        Ok(w) => w,
        Err(e) => {
            return Err(e);
        },
    };
    if let Err(e) = write.open_store(store) {
        return Err(e);
    }
    if let Err(e) = write.remove(store, key) {
        return Err(e);
    }
    db.commit(write)
}

/// Reads `key` from a store of a namespace.
fn get<DB: MultiStore>(db: &DB, namespace: &'static str, store: &'static str, key: &[u8]) -> (r:
    Result<Option<Vec<u8>>, BackendError>)
    requires
        db.namespaces().contains_key(namespace@),
        db.namespaces()[namespace@].contains_key(store@),
    ensures
        r matches Ok(v) ==> opt_bytes(v) == lookup(db.namespaces()[namespace@][store@], key@),
        db.backend_healthy() ==> r is Ok,
{
    let handle = match db.read(namespace) {
        Ok(h) => h,
        Err(e) => {
            return Err(e);
        },
    };
    let s = match handle.open_store(store) {
        Ok(s) => s,
        Err(e) => {
            return Err(e);
        },
    };
    s.get(key)
}

} // verus!
