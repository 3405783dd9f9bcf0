//! The interface of ordered key/value backends: namespaces of named stores,
//! read snapshots, and write handles whose writes become visible together
//! when they are committed.
use vstd::prelude::*;
use crate::bounds::{in_range, Bound, ScanRange};
use crate::error::BackendError;
use crate::lex::{lemma_lex_asymmetric, lemma_lex_irreflexive, lex_lt};
use crate::scan::Direction;

verus! {

/// The contents of one store: encoded keys to values.
pub type KvView = Map<Seq<u8>, Seq<u8>>;

/// The stores of one namespace, by name.
pub type StoresView = Map<Seq<char>, KvView>;

/// The value stored under `k`, if any.
pub open spec fn lookup(m: KvView, k: Seq<u8>) -> Option<Seq<u8>> {
    if m.contains_key(k) {
        Some(m[k])
    } else {
        None
    }
}

/// The bytes held by an optional vector.
pub open spec fn opt_bytes(v: Option<Vec<u8>>) -> Option<Seq<u8>> {
    match v {
        Some(b) => Some(b@),
        None => None,
    }
}

/// The byte strings held by a sequence of key/value pairs.
pub open spec fn pairs_view(items: Seq<(Vec<u8>, Vec<u8>)>) -> Seq<(Seq<u8>, Seq<u8>)> {
    items.map_values(|e: (Vec<u8>, Vec<u8>)| (e.0@, e.1@))
}

/// `items` are the entries of `m` whose keys lie in `range`, each once, in
/// increasing key order for `LeftToRight` and decreasing for `RightToLeft`.
pub open spec fn is_scan_of(
    items: Seq<(Seq<u8>, Seq<u8>)>,
    m: KvView,
    range: (Bound<Seq<u8>>, Bound<Seq<u8>>),
    direction: Direction,
) -> bool {
    &&& forall|i: int|
        0 <= i < items.len() ==> m.contains_key(#[trigger] items[i].0) && m[items[i].0]
            == items[i].1 && in_range(items[i].0, range)
    &&& forall|k: Seq<u8>|
        m.contains_key(k) && in_range(k, range) ==> exists|i: int|
            0 <= i < items.len() && #[trigger] items[i].0 == k
    &&& forall|i: int, j: int|
        0 <= i < j < items.len() ==> match direction {
            Direction::LeftToRight => lex_lt(items[i].0, items[j].0),
            Direction::RightToLeft => lex_lt(items[j].0, items[i].0),
        }
}

/// Without its first entry, a scan is the scan of the other entries.
pub proof fn lemma_scan_drop_first(
    items: Seq<(Seq<u8>, Seq<u8>)>,
    m: KvView,
    range: (Bound<Seq<u8>>, Bound<Seq<u8>>),
    direction: Direction,
)
    requires
        is_scan_of(items, m, range, direction),
        items.len() > 0,
    ensures
        is_scan_of(items.drop_first(), m.remove(items[0].0), range, direction),
{
    let rest = items.drop_first();
    let m2 = m.remove(items[0].0);
    assert forall|i: int| 0 <= i < rest.len() implies m2.contains_key(#[trigger] rest[i].0) && m2[rest[i].0]
        == rest[i].1 && in_range(rest[i].0, range) by {
        assert(rest[i] == items[i + 1]);
        lemma_lex_irreflexive(items[0].0);
    }
    assert forall|k: Seq<u8>| m2.contains_key(k) && in_range(k, range) implies exists|i: int|
        0 <= i < rest.len() && #[trigger] rest[i].0 == k by {
        let j = choose|j: int| 0 <= j < items.len() && #[trigger] items[j].0 == k;
        assert(rest[j - 1] == items[j]);
    }
    assert forall|i: int, j: int| 0 <= i < j < rest.len() implies match direction {
        Direction::LeftToRight => lex_lt(rest[i].0, rest[j].0),
        Direction::RightToLeft => lex_lt(rest[j].0, rest[i].0),
    } by {
        assert(rest[i] == items[i + 1] && rest[j] == items[j + 1]);
    }
}

/// A scan is determined by what it scans: two scans of the same entries, in
/// the same range and direction, are equal.
pub proof fn lemma_scan_unique(
    a: Seq<(Seq<u8>, Seq<u8>)>,
    b: Seq<(Seq<u8>, Seq<u8>)>,
    m: KvView,
    range: (Bound<Seq<u8>>, Bound<Seq<u8>>),
    direction: Direction,
)
    requires
        is_scan_of(a, m, range, direction),
        is_scan_of(b, m, range, direction),
    ensures
        a == b,
    decreases a.len(),
{
    if a.len() == 0 {
        if b.len() > 0 {
            assert(m.contains_key(b[0].0) && in_range(b[0].0, range));
        }
        assert(a =~= b);
    } else {
        assert(m.contains_key(a[0].0) && in_range(a[0].0, range));
        let j = choose|j: int| 0 <= j < b.len() && #[trigger] b[j].0 == a[0].0;
        let i = choose|i: int| 0 <= i < a.len() && #[trigger] a[i].0 == b[0].0;
        if j > 0 {
            lemma_lex_irreflexive(a[0].0);
            lemma_lex_asymmetric(a[0].0, b[0].0);
            assert(i > 0);
            assert(false);
        }
        assert(a[0] == b[0]);
        lemma_scan_drop_first(a, m, range, direction);
        lemma_scan_drop_first(b, m, range, direction);
        lemma_scan_unique(a.drop_first(), b.drop_first(), m.remove(a[0].0), range, direction);
        assert(a =~= seq![a[0]] + a.drop_first());
        assert(b =~= seq![b[0]] + b.drop_first());
    }
}

/// The names of stores, as character sequences.
pub open spec fn names_view(names: Seq<&'static str>) -> Seq<Seq<char>> {
    names.map_values(|n: &'static str| n@)
}

/// The stores of a namespace after `prepare`: the existing ones, and an empty
/// store for each given name that had none.
pub open spec fn prepared(base: Option<StoresView>, names: Seq<Seq<char>>) -> StoresView {
    let existing = match base {
        Some(s) => s,
        None => Map::empty(),
    };
    Map::new(
        |n: Seq<char>| existing.contains_key(n) || names.contains(n),
        |n: Seq<char>|
            if existing.contains_key(n) {
                existing[n]
            } else {
                Map::empty()
            },
    )
}

/// A read-only store.
pub trait ReadKVStore: Sized {
    /// The entries of the store.
    closed spec fn entries(&self) -> KvView {
        arbitrary()
    }

    /// Whether the store's reads never fail.
    closed spec fn store_healthy(&self) -> bool {
        arbitrary()
    }

    /// The value stored under `key`, if any.
    fn get(&self, key: &[u8]) -> (r: Result<Option<Vec<u8>>, BackendError>)
        ensures
            r matches Ok(v) ==> opt_bytes(v) == lookup(self.entries(), key@),
            self.store_healthy() ==> r is Ok,
    ;

    /// The entries whose keys lie in `range`, in the given direction.
    fn scan(&self, range: ScanRange, direction: Direction) -> (r: Result<
        Vec<(Vec<u8>, Vec<u8>)>,
        BackendError,
    >)
        ensures
            r matches Ok(items) ==> is_scan_of(
                pairs_view(items@),
                self.entries(),
                (range.0@, range.1@),
                direction,
            ),
            self.store_healthy() ==> r is Ok,
    ;
}

/// Writes to the named stores of one namespace, staged until committed.
pub trait WriteKVStore: Sized {
    /// The staged contents of the namespace's stores.
    closed spec fn staged(&self) -> StoresView {
        arbitrary()
    }

    /// The namespace that the writes go to.
    closed spec fn namespace(&self) -> Seq<char> {
        arbitrary()
    }

    /// Whether the handle's operations never fail.
    closed spec fn staging_healthy(&self) -> bool {
        arbitrary()
    }

    /// Stores `value` under `key` in the named store.
    fn set(&mut self, store: &'static str, key: &[u8], value: &[u8]) -> (r: Result<
        (),
        BackendError,
    >)
        requires
            old(self).staged().contains_key(store@),
        ensures
            final(self).namespace() == old(self).namespace(),
            r is Ok ==> final(self).staged() == old(self).staged().insert(
                store@,
                old(self).staged()[store@].insert(key@, value@),
            ),
            final(self).staging_healthy() == old(self).staging_healthy(),
            old(self).staging_healthy() ==> r is Ok,
    ;

    /// Removes the entry stored under `key` in the named store, if any.
    fn remove(&mut self, store: &'static str, key: &[u8]) -> (r: Result<(), BackendError>)
        requires
            old(self).staged().contains_key(store@),
        ensures
            final(self).namespace() == old(self).namespace(),
            r is Ok ==> final(self).staged() == old(self).staged().insert(
                store@,
                old(self).staged()[store@].remove(key@),
            ),
            final(self).staging_healthy() == old(self).staging_healthy(),
            old(self).staging_healthy() ==> r is Ok,
    ;
}

/// Staged writes that can also be read back.
pub trait ReadWriteKVStore: WriteKVStore {
    /// The staged value under `key` in the named store, if any.
    fn get(&self, store: &'static str, key: &[u8]) -> (r: Result<Option<Vec<u8>>, BackendError>)
        requires
            self.staged().contains_key(store@),
        ensures
            r matches Ok(v) ==> opt_bytes(v) == lookup(self.staged()[store@], key@),
            self.staging_healthy() ==> r is Ok,
    ;
}

/// A read snapshot of one namespace.
pub trait MultiStoreReadHandle: Sized {
    type Store: ReadKVStore;

    /// The stores of the namespace, as they were when the snapshot was taken.
    closed spec fn stores(&self) -> StoresView {
        arbitrary()
    }

    /// Whether the snapshot's operations, and those of the stores it opens,
    /// never fail.
    closed spec fn snapshot_healthy(&self) -> bool {
        arbitrary()
    }

    /// Opens one of the namespace's stores.
    fn open_store(&self, name: &'static str) -> (r: Result<Self::Store, BackendError>)
        requires
            self.stores().contains_key(name@),
        ensures
            r matches Ok(s) ==> s.entries() == self.stores()[name@],
            r matches Ok(s) ==> s.store_healthy() == self.snapshot_healthy(),
            self.snapshot_healthy() ==> r is Ok,
    ;
}

/// Writes to the stores of one namespace, all of which become visible
/// together when the handle is committed.
pub trait MultiStoreWriteHandle: ReadWriteKVStore {
    /// Opens one of the namespace's stores for writing.
    fn open_store(&mut self, name: &'static str) -> (r: Result<(), BackendError>)
        requires
            old(self).staged().contains_key(name@),
        ensures
            final(self).staged() == old(self).staged(),
            final(self).namespace() == old(self).namespace(),
            final(self).staging_healthy() == old(self).staging_healthy(),
            old(self).staging_healthy() ==> r is Ok,
    ;
}

/// An ordered key/value backend made of namespaces of named stores.
pub trait MultiStore: Sized {
    type ReadHandle: MultiStoreReadHandle;

    type WriteHandle: MultiStoreWriteHandle;

    /// The namespaces and their stores.
    closed spec fn namespaces(&self) -> Map<Seq<char>, StoresView> {
        arbitrary()
    }

    /// Whether the backend's operations, and those of the handles it gives,
    /// never fail.
    closed spec fn backend_healthy(&self) -> bool {
        arbitrary()
    }

    /// Initializes the given stores of the namespace, where they do not exist
    /// yet, keeping those that exist.
    fn prepare(&mut self, namespace: &'static str, stores: &[&'static str]) -> (r: Result<
        (),
        BackendError,
    >)
        ensures
            r is Ok ==> final(self).namespaces() == old(self).namespaces().insert(
                namespace@,
                prepared(
                    if old(self).namespaces().contains_key(namespace@) {
                        Some(old(self).namespaces()[namespace@])
                    } else {
                        None
                    },
                    names_view(stores@),
                ),
            ),
            r is Err ==> final(self).namespaces() == old(self).namespaces(),
            final(self).backend_healthy() == old(self).backend_healthy(),
            old(self).backend_healthy() ==> r is Ok,
    ;

    /// Takes a read snapshot of the namespace.
    fn read(&self, namespace: &'static str) -> (r: Result<Self::ReadHandle, BackendError>)
        requires
            self.namespaces().contains_key(namespace@),
        ensures
            r matches Ok(h) ==> h.stores() == self.namespaces()[namespace@],
            r matches Ok(h) ==> h.snapshot_healthy() == self.backend_healthy(),
            self.backend_healthy() ==> r is Ok,
    ;

    /// Opens a write handle on the namespace.
    fn write(&self, namespace: &'static str) -> (r: Result<Self::WriteHandle, BackendError>)
        requires
            self.namespaces().contains_key(namespace@),
        ensures
            r matches Ok(h) ==> h.staged() == self.namespaces()[namespace@] && h.namespace()
                == namespace@,
            r matches Ok(h) ==> h.staging_healthy() == self.backend_healthy(),
            self.backend_healthy() ==> r is Ok,
    ;

    /// Makes all the writes staged in `handle` visible at once, or none of
    /// them.
    fn commit(&mut self, handle: Self::WriteHandle) -> (r: Result<(), BackendError>)
        requires
            old(self).namespaces().contains_key(handle.namespace()),
        ensures
            r is Ok ==> final(self).namespaces() == old(self).namespaces().insert(
                handle.namespace(),
                handle.staged(),
            ),
            r is Err ==> final(self).namespaces() == old(self).namespaces(),
            final(self).backend_healthy() == old(self).backend_healthy(),
            old(self).backend_healthy() ==> r is Ok,
    ;
}

/// Read after commit, and isolation: once a write handle is committed, a read
/// of any key of its namespace gives what the handle staged for it, and every
/// other namespace is as it was.
pub proof fn law_read_after_commit<DB: MultiStore>(
    before: DB,
    after: DB,
    handle: DB::WriteHandle,
    ns: Seq<char>,
    store: Seq<char>,
    key: Seq<u8>,
)
    requires
        before.namespaces().contains_key(handle.namespace()),
        after.namespaces() == before.namespaces().insert(handle.namespace(), handle.staged()),
    ensures
        ns == handle.namespace() ==> after.namespaces().contains_key(ns) && (handle.staged().contains_key(
            store,
        ) ==> lookup(after.namespaces()[ns][store], key) == lookup(handle.staged()[store], key)),
        ns != handle.namespace() ==> after.namespaces().contains_key(ns)
            == before.namespaces().contains_key(ns) && after.namespaces()[ns] == before.namespaces()[ns],
{
}

} // verus!
