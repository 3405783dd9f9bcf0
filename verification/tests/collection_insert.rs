use std::cell::RefCell;
use std::collections::HashMap;
use std::rc::Rc;

use colette::bounds::ScanRange;
use colette::collection::Collection;
use colette::entity::Entity;
use colette::error::{BackendError, CodecError, Error};
use colette::index::{Index, Unique};
use colette::index_registry::{Cons, Nil};
use colette::key::Key;
use colette::scan::Direction;
use colette::store::{
    MultiStore, MultiStoreReadHandle, MultiStoreWriteHandle, ReadKVStore, ReadWriteKVStore,
    WriteKVStore,
};

// ── Mock backend ──────────────────────────────────────────────────────────────

fn backend_error(msg: &'static str) -> BackendError {
    BackendError::new(msg.to_string())
}

#[derive(Default, Debug)]
struct TxLog {
    opens: Vec<String>,
    gets: Vec<Vec<u8>>,
    sets: Vec<(Vec<u8>, Vec<u8>)>,
    removes: Vec<Vec<u8>>,
    committed: bool,
}

type StoreData = HashMap<String, HashMap<Vec<u8>, Vec<u8>>>;

struct MockStore {
    log: Rc<RefCell<TxLog>>,
    data: HashMap<Vec<u8>, Vec<u8>>,
}

impl ReadKVStore for MockStore {
    fn get(&self, key: &[u8]) -> Result<Option<Vec<u8>>, BackendError> {
        let key = key.to_vec();
        self.log.borrow_mut().gets.push(key.clone());
        Ok(self.data.get(&key).cloned())
    }

    fn scan(&self, _: ScanRange, _: Direction) -> Result<Vec<(Vec<u8>, Vec<u8>)>, BackendError> {
        Ok(Vec::new())
    }
}

struct MockWriteHandle {
    log: Rc<RefCell<TxLog>>,
    store_data: StoreData,
    commit_err: Option<fn() -> BackendError>,
}

impl WriteKVStore for MockWriteHandle {
    fn set(&mut self, _store: &'static str, key: &[u8], value: &[u8]) -> Result<(), BackendError> {
        self.log.borrow_mut().sets.push((key.to_vec(), value.to_vec()));
        Ok(())
    }

    fn remove(&mut self, _store: &'static str, key: &[u8]) -> Result<(), BackendError> {
        self.log.borrow_mut().removes.push(key.to_vec());
        Ok(())
    }
}

impl ReadWriteKVStore for MockWriteHandle {
    fn get(&self, store: &'static str, key: &[u8]) -> Result<Option<Vec<u8>>, BackendError> {
        let key = key.to_vec();
        self.log.borrow_mut().gets.push(key.clone());
        Ok(self.store_data.get(store).and_then(|d| d.get(&key).cloned()))
    }
}

impl MultiStoreWriteHandle for MockWriteHandle {
    fn open_store(&mut self, name: &'static str) -> Result<(), BackendError> {
        self.log.borrow_mut().opens.push(name.to_string());
        Ok(())
    }
}

struct MockReadHandle {
    log: Rc<RefCell<TxLog>>,
    store_data: StoreData,
}

impl MultiStoreReadHandle for MockReadHandle {
    type Store = MockStore;

    fn open_store(&self, name: &'static str) -> Result<MockStore, BackendError> {
        self.log.borrow_mut().opens.push(name.to_string());
        let data = self.store_data.get(name).cloned().unwrap_or_default();
        Ok(MockStore { log: self.log.clone(), data })
    }
}

struct MockDb {
    log: Rc<RefCell<TxLog>>,
    store_data: StoreData,
    write_err: Option<fn() -> BackendError>,
    commit_err: Option<fn() -> BackendError>,
}

impl MockDb {
    fn new() -> Self {
        MockDb {
            log: Rc::new(RefCell::new(TxLog::default())),
            store_data: HashMap::new(),
            write_err: None,
            commit_err: None,
        }
    }

    fn log(&self) -> Rc<RefCell<TxLog>> {
        self.log.clone()
    }

    fn with_data(mut self, store: &str, key: Vec<u8>, value: Vec<u8>) -> Self {
        self.store_data.entry(store.to_string()).or_default().insert(key, value);
        self
    }

    fn with_write_err(mut self, make_err: fn() -> BackendError) -> Self {
        self.write_err = Some(make_err);
        self
    }

    fn with_commit_err(mut self, make_err: fn() -> BackendError) -> Self {
        self.commit_err = Some(make_err);
        self
    }
}

impl MultiStore for MockDb {
    type ReadHandle = MockReadHandle;
    type WriteHandle = MockWriteHandle;

    fn prepare(&mut self, _: &'static str, _: &[&'static str]) -> Result<(), BackendError> {
        Ok(())
    }

    fn read(&self, _: &'static str) -> Result<MockReadHandle, BackendError> {
        Ok(MockReadHandle { log: self.log.clone(), store_data: self.store_data.clone() })
    }

    fn write(&self, _: &'static str) -> Result<MockWriteHandle, BackendError> {
        if let Some(make_err) = self.write_err {
            return Err(make_err());
        }
        Ok(MockWriteHandle {
            log: self.log.clone(),
            store_data: self.store_data.clone(),
            commit_err: self.commit_err,
        })
    }

    fn commit(&mut self, handle: MockWriteHandle) -> Result<(), BackendError> {
        handle.log.borrow_mut().committed = true;
        match handle.commit_err {
            Some(make_err) => Err(make_err()),
            None => Ok(()),
        }
    }
}

// ── Minimal entity ────────────────────────────────────────────────────────────

struct TestRecord {
    id: u32,
}

impl Entity for TestRecord {
    type Key = u32;

    fn key(&self) -> u32 {
        self.id
    }

    fn to_bytes(&self) -> Result<Vec<u8>, CodecError> {
        Ok(self.id.to_be_bytes().to_vec())
    }

    fn from_bytes(bytes: &[u8]) -> Result<Self, CodecError> {
        let arr: [u8; 4] = bytes
            .try_into()
            .map_err(|_| CodecError::new("bad length".to_string()))?;
        Ok(TestRecord { id: u32::from_be_bytes(arr) })
    }
}

// ── Spy indexes ───────────────────────────────────────────────────────────────
// Each spy opens its named store (observable via TxLog::opens) and succeeds.

struct IndexA;
struct IndexB;
struct FailIndex;

impl Index<TestRecord> for IndexA {
    type Key = u32;
    type Kind = Unique;

    fn name() -> &'static str {
        "index_a"
    }

    fn key(r: &TestRecord) -> u32 {
        r.id
    }

    fn update<DB: MultiStoreWriteHandle>(
        db: &mut DB,
        _pk: &u32,
        _previous: Option<&TestRecord>,
        _new: &TestRecord,
    ) -> Result<(), Error> {
        db.open_store(Self::name()).map_err(Error::Backend)?;
        Ok(())
    }

    fn remove<DB: MultiStoreWriteHandle>(
        db: &mut DB,
        _pk: &u32,
        _item: &TestRecord,
    ) -> Result<(), Error> {
        db.open_store(Self::name()).map_err(Error::Backend)?;
        Ok(())
    }
}

impl Index<TestRecord> for IndexB {
    type Key = u32;
    type Kind = Unique;

    fn name() -> &'static str {
        "index_b"
    }

    fn key(r: &TestRecord) -> u32 {
        r.id
    }

    fn update<DB: MultiStoreWriteHandle>(
        db: &mut DB,
        _pk: &u32,
        _previous: Option<&TestRecord>,
        _new: &TestRecord,
    ) -> Result<(), Error> {
        db.open_store(Self::name()).map_err(Error::Backend)?;
        Ok(())
    }

    fn remove<DB: MultiStoreWriteHandle>(
        db: &mut DB,
        _pk: &u32,
        _item: &TestRecord,
    ) -> Result<(), Error> {
        db.open_store(Self::name()).map_err(Error::Backend)?;
        Ok(())
    }
}

impl Index<TestRecord> for FailIndex {
    type Key = u32;
    type Kind = Unique;

    fn name() -> &'static str {
        "fail"
    }

    fn key(r: &TestRecord) -> u32 {
        r.id
    }

    fn update<DB: MultiStoreWriteHandle>(
        _db: &mut DB,
        _pk: &u32,
        _previous: Option<&TestRecord>,
        _new: &TestRecord,
    ) -> Result<(), Error> {
        Err(Error::Unexpected("injected index error".into()))
    }

    fn remove<DB: MultiStoreWriteHandle>(
        _db: &mut DB,
        _pk: &u32,
        _item: &TestRecord,
    ) -> Result<(), Error> {
        Err(Error::Unexpected("injected index error".into()))
    }
}

fn run_nil(db: MockDb) -> (Result<(), Error>, Rc<RefCell<TxLog>>) {
    let log = db.log();
    let mut col = Collection::<_, TestRecord, Nil>::new("col", db);
    let result = col.insert(&TestRecord { id: 1 });
    (result, log)
}

fn run_one(db: MockDb) -> (Result<(), Error>, Rc<RefCell<TxLog>>) {
    let log = db.log();
    let mut col = Collection::<_, TestRecord, Cons<IndexA, Nil>>::new("col", db);
    let result = col.insert(&TestRecord { id: 1 });
    (result, log)
}

fn run_two(db: MockDb) -> (Result<(), Error>, Rc<RefCell<TxLog>>) {
    let log = db.log();
    let mut col = Collection::<_, TestRecord, Cons<IndexA, Cons<IndexB, Nil>>>::new("col", db);
    let result = col.insert(&TestRecord { id: 1 });
    (result, log)
}

fn run_fail(db: MockDb) -> (Result<(), Error>, Rc<RefCell<TxLog>>) {
    let log = db.log();
    let mut col = Collection::<_, TestRecord, Cons<FailIndex, Nil>>::new("col", db);
    let result = col.insert(&TestRecord { id: 1 });
    (result, log)
}

#[test]
fn insert() {
    let enc_pk = 1u32.encode();
    let enc_val = TestRecord { id: 1 }.to_bytes().unwrap();

    // ── Store-level cases (index type fixed to Nil) ───────────────────────

    struct Case {
        name: &'static str,
        db: MockDb,
        expect_result: fn(&Result<(), Error>),
        expect_opens: &'static [&'static str],
        expect_sets: usize,
        expect_committed: bool,
    }

    let cases = vec![
        Case {
            name: "inserts new record",
            db: MockDb::new(),
            expect_result: |r| assert!(r.is_ok()),
            expect_opens: &["__main"],
            expect_sets: 1,
            expect_committed: true,
        },
        Case {
            name: "fails when record already exists",
            db: MockDb::new().with_data("__main", enc_pk.clone(), enc_val.clone()),
            expect_result: |r| assert!(matches!(r, Err(Error::AlreadyExists(_)))),
            expect_opens: &["__main"],
            expect_sets: 0,
            expect_committed: false,
        },
        Case {
            name: "propagates backend error from write()",
            db: MockDb::new().with_write_err(|| backend_error("write failed")),
            expect_result: |r| assert!(matches!(r, Err(Error::Backend(_)))),
            expect_opens: &[],
            expect_sets: 0,
            expect_committed: false,
        },
        Case {
            // set is called before commit; commit failure must be propagated
            name: "propagates backend error from commit()",
            db: MockDb::new().with_commit_err(|| backend_error("commit failed")),
            expect_result: |r| assert!(matches!(r, Err(Error::Backend(_)))),
            expect_opens: &["__main"],
            expect_sets: 1,
            expect_committed: true,
        },
    ];

    for c in cases {
        let (result, log) = run_nil(c.db);
        let log = log.borrow();

        (c.expect_result)(&result);
        assert_eq!(log.opens.as_slice(), c.expect_opens, "[{}] opens", c.name);
        assert_eq!(log.sets.len(), c.expect_sets, "[{}] sets count", c.name);
        assert_eq!(log.committed, c.expect_committed, "[{}] committed", c.name);
    }

    // Verify set writes the correct key and value bytes
    let (result, log) = run_nil(MockDb::new());
    assert!(result.is_ok());
    let log = log.borrow();
    assert_eq!(log.sets[0].0, enc_pk, "set key must be the encoded primary key");
    assert_eq!(log.sets[0].1, enc_val, "set value must be to_bytes() output");

    // ── Index dispatch cases ──────────────────────────────────────────────

    struct IndexCase {
        name: &'static str,
        expected_opens: &'static [&'static str],
        expect_ok: bool,
        expect_committed: bool,
    }

    let (r, log) = run_nil(MockDb::new());
    let nil_case = (r, log.borrow().opens.clone(), log.borrow().committed);

    let (r, log) = run_one(MockDb::new());
    let one_index = (r, log.borrow().opens.clone(), log.borrow().committed);

    let (r, log) = run_two(MockDb::new());
    let two_indexes = (r, log.borrow().opens.clone(), log.borrow().committed);

    // Failing index: set is still called on main store, but commit is skipped
    let (r, log) = run_fail(MockDb::new());
    let fail_index = (
        r,
        log.borrow().opens.clone(),
        log.borrow().committed,
        log.borrow().sets.len(),
    );

    let index_cases: &[IndexCase] = &[
        IndexCase {
            name: "no indexes: only main store opened",
            expected_opens: &["__main"],
            expect_ok: true,
            expect_committed: true,
        },
        IndexCase {
            name: "one index: main store then index store opened",
            expected_opens: &["__main", "index_a"],
            expect_ok: true,
            expect_committed: true,
        },
        IndexCase {
            name: "two indexes: all stores opened in registry order",
            expected_opens: &["__main", "index_a", "index_b"],
            expect_ok: true,
            expect_committed: true,
        },
    ];

    let dispatch_results = [nil_case, one_index, two_indexes];
    for (c, (result, opens, committed)) in index_cases.iter().zip(&dispatch_results) {
        assert_eq!(result.is_ok(), c.expect_ok, "[{}] result", c.name);
        assert_eq!(opens.as_slice(), c.expected_opens, "[{}] opens", c.name);
        assert_eq!(*committed, c.expect_committed, "[{}] committed", c.name);
    }

    // Failing index: error propagated, set occurred, commit skipped
    let (fail_result, fail_opens, fail_committed, fail_sets) = fail_index;
    assert!(
        matches!(fail_result, Err(Error::Unexpected(_))),
        "failing index error propagated"
    );
    assert_eq!(
        fail_opens.as_slice(),
        &["__main"] as &[&str],
        "failing index: only main store opened"
    );
    assert_eq!(fail_sets, 1, "failing index: main record was written before index error");
    assert!(!fail_committed, "failing index: commit must not be called");
}
