//! A backend kept in memory: namespaces of named ordered stores, read
//! snapshots, and write handles that stage a copy of a namespace until they
//! are committed.
use vstd::prelude::*;
use crate::backend::kv::KVStore;
use crate::backend::named::{Duplicate, NamedMap};
use crate::bounds::ScanRange;
use crate::error::BackendError;
use crate::scan::Direction;
use crate::store::{
    lookup, names_view, opt_bytes, prepared, KvView, MultiStore, MultiStoreReadHandle,
    MultiStoreWriteHandle, ReadKVStore, ReadWriteKVStore, StoresView, WriteKVStore,
};

verus! {

/// The stores of one namespace, by name.
pub type NamespacedStores = NamedMap<KVStore>;

/// Namespaces of named ordered stores, kept in memory.
pub struct InMemoryMultiStore {
    stores: NamedMap<NamespacedStores>,
}

impl InMemoryMultiStore {
    /// A backend without namespaces.
    pub fn new() -> (db: Self)
        ensures
            db.namespaces() == Map::<Seq<char>, StoresView>::empty(),
    {
        InMemoryMultiStore { stores: NamedMap::new() }
    }
}

impl MultiStore for InMemoryMultiStore {
    type ReadHandle = InMemoryReadHandle;

    type WriteHandle = InMemoryWriteHandle;

    closed spec fn namespaces(&self) -> Map<Seq<char>, StoresView> {
        self.stores@
    }

    open spec fn backend_healthy(&self) -> bool {
        true
    }

    fn prepare(&mut self, namespace: &'static str, stores: &[&'static str]) -> (r: Result<
        (),
        BackendError,
    >)
        ensures
            r is Ok,
    {
        let ghost base = if self.stores@.contains_key(namespace@) {
            Some(self.stores@[namespace@])
        } else {
            None
        };
        let mut nstores: NamespacedStores = if self.stores.contains(namespace) {
            self.stores.take(namespace)
        } else {
            NamedMap::new()
        };
        let ghost rest = self.stores@;
        assert(rest.insert(namespace@, Map::empty()) =~= old(self).stores@.insert(
            namespace@,
            Map::empty(),
        ));
        let mut i: usize = 0;
        proof {
            assert(nstores@ =~= prepared(base, names_view(stores@.take(0))));
        }
        while i < stores.len()
            invariant
                i <= stores@.len(),
                nstores@ == prepared(base, names_view(stores@.take(i as int))),
            decreases stores@.len() - i,
        {
            let name = stores[i];
            let ghost prev = nstores@;
            if !nstores.contains(name) {
                nstores.set(name, KVStore::new());
            }
            proof {
                let names = names_view(stores@.take(i as int));
                let names1 = names_view(stores@.take(i + 1));
                assert(names1 =~= names.push(name@));
                assert forall|x: Seq<char>| names1.contains(x) == (names.contains(x) || x == name@) by {
                    if names1.contains(x) {
                        let j = choose|j: int| 0 <= j < names1.len() && names1[j] == x;
                        if j < names.len() {
                            assert(names[j] == x);
                        }
                    }
                    if names.contains(x) {
                        let j = choose|j: int| 0 <= j < names.len() && names[j] == x;
                        assert(names1[j] == x);
                    }
                    if x == name@ {
                        assert(names1[names.len() as int] == x);
                    }
                }
                assert(nstores@ =~= prepared(base, names1));
            }
            i = i + 1;
        }
        assert(stores@.take(i as int) =~= stores@);
        self.stores.set(namespace, nstores);
        assert(self.stores@ =~= old(self).stores@.insert(
            namespace@,
            prepared(base, names_view(stores@)),
        ));
        Ok(())
    }

    fn read(&self, namespace: &'static str) -> (r: Result<InMemoryReadHandle, BackendError>)
        ensures
            r is Ok,
    {
        let nstores = self.stores.get(namespace);
        Ok(InMemoryReadHandle { stores: nstores.duplicate() })
    }

    fn write(&self, namespace: &'static str) -> (r: Result<InMemoryWriteHandle, BackendError>)
        ensures
            r is Ok,
    {
        let nstores = self.stores.get(namespace);
        Ok(InMemoryWriteHandle { namespace, staged: nstores.duplicate() })
    }

    fn commit(&mut self, handle: InMemoryWriteHandle) -> (r: Result<(), BackendError>)
        ensures
            r is Ok,
    {
        let InMemoryWriteHandle { namespace, staged } = handle;
        self.stores.set(namespace, staged);
        Ok(())
    }
}

/// A read snapshot of the stores of one namespace.
pub struct InMemoryReadHandle {
    stores: NamespacedStores,
}

impl MultiStoreReadHandle for InMemoryReadHandle {
    type Store = InMemoryReadStore;

    closed spec fn stores(&self) -> StoresView {
        self.stores@
    }

    open spec fn snapshot_healthy(&self) -> bool {
        true
    }

    fn open_store(&self, name: &'static str) -> (r: Result<InMemoryReadStore, BackendError>)
        ensures
            r is Ok,
    {
        Ok(InMemoryReadStore { store: self.stores.get(name).duplicate() })
    }
}

/// A read snapshot of one store.
pub struct InMemoryReadStore {
    store: KVStore,
}

impl ReadKVStore for InMemoryReadStore {
    closed spec fn entries(&self) -> KvView {
        self.store@
    }

    open spec fn store_healthy(&self) -> bool {
        true
    }

    fn get(&self, key: &[u8]) -> (r: Result<Option<Vec<u8>>, BackendError>)
        ensures
            r is Ok,
    {
        Ok(self.store.get(key))
    }

    fn scan(&self, range: ScanRange, direction: Direction) -> (r: Result<
        Vec<(Vec<u8>, Vec<u8>)>,
        BackendError,
    >)
        ensures
            r is Ok,
    {
        Ok(self.store.scan(&range, direction))
    }
}

/// Writes to the stores of one namespace, staged on a copy of them.
pub struct InMemoryWriteHandle {
    namespace: &'static str,
    staged: NamespacedStores,
}

impl InMemoryWriteHandle {
    /// Takes the named store out of the staged stores, to write to it.
    fn open_write_store(&mut self, name: &'static str) -> (s: InMemoryWriteStore)
        requires
            old(self).staged@.contains_key(name@),
        ensures
            s.entries() == old(self).staged@[name@],
            final(self).staged@ == old(self).staged@.remove(name@),
            final(self).namespace == old(self).namespace,
    {
        InMemoryWriteStore { store: self.staged.take(name) }
    }

    /// Puts a store written to back among the staged stores.
    fn close_write_store(&mut self, name: &'static str, s: InMemoryWriteStore)
        ensures
            final(self).staged@ == old(self).staged@.insert(name@, s.entries()),
            final(self).namespace == old(self).namespace,
    {
        self.staged.set(name, s.store);
    }
}

impl WriteKVStore for InMemoryWriteHandle {
    closed spec fn staged(&self) -> StoresView {
        self.staged@
    }

    closed spec fn namespace(&self) -> Seq<char> {
        self.namespace@
    }

    open spec fn staging_healthy(&self) -> bool {
        true
    }

    fn set(&mut self, store: &'static str, key: &[u8], value: &[u8]) -> (r: Result<
        (),
        BackendError,
    >)
        ensures
            r is Ok,
    {
        let mut ws = self.open_write_store(store);
        let r = ws.set(key, value);
        self.close_write_store(store, ws);
        assert(self.staged@ =~= old(self).staged@.insert(
            store@,
            old(self).staged@[store@].insert(key@, value@),
        ));
        r
    }

    fn remove(&mut self, store: &'static str, key: &[u8]) -> (r: Result<(), BackendError>)
        ensures
            r is Ok,
    {
        let mut ws = self.open_write_store(store);
        let r = ws.remove(key);
        self.close_write_store(store, ws);
        assert(self.staged@ =~= old(self).staged@.insert(
            store@,
            old(self).staged@[store@].remove(key@),
        ));
        r
    }
}

impl ReadWriteKVStore for InMemoryWriteHandle {
    fn get(&self, store: &'static str, key: &[u8]) -> (r: Result<Option<Vec<u8>>, BackendError>)
        ensures
            r is Ok,
    {
        Ok(self.staged.get(store).get(key))
    }
}

/// One store of a write handle, opened for writing: reads see the writes
/// made to it.
pub struct InMemoryWriteStore {
    store: KVStore,
}

impl InMemoryWriteStore {
    /// Stores `value` under `key`.
    pub fn set(&mut self, key: &[u8], value: &[u8]) -> (r: Result<(), BackendError>)
        ensures
            r is Ok,
            final(self).entries() == old(self).entries().insert(key@, value@),
    {
        self.store.set(key, value);
        Ok(())
    }

    /// Removes the entry stored under `key`, if any.
    pub fn remove(&mut self, key: &[u8]) -> (r: Result<(), BackendError>)
        ensures
            r is Ok,
            final(self).entries() == old(self).entries().remove(key@),
    {
        self.store.remove(key);
        Ok(())
    }
}

impl ReadKVStore for InMemoryWriteStore {
    closed spec fn entries(&self) -> KvView {
        self.store@
    }

    open spec fn store_healthy(&self) -> bool {
        true
    }

    fn get(&self, key: &[u8]) -> (r: Result<Option<Vec<u8>>, BackendError>)
        ensures
            r is Ok,
    {
        Ok(self.store.get(key))
    }

    fn scan(&self, range: ScanRange, direction: Direction) -> (r: Result<
        Vec<(Vec<u8>, Vec<u8>)>,
        BackendError,
    >)
        ensures
            r is Ok,
    {
        Ok(self.store.scan(&range, direction))
    }
}

impl MultiStoreWriteHandle for InMemoryWriteHandle {
    fn open_store(&mut self, name: &'static str) -> (r: Result<(), BackendError>)
        ensures
            r is Ok,
    {
        Ok(())
    }
}

} // verus!
