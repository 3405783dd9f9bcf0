use colette::backend::memory::InMemoryMultiStore;
use colette::backend::tests::{run_multistore_tests, CheckFailure};
use colette::bounds::ScanRange;
use colette::error::BackendError;
use colette::scan::Direction;
use colette::store::{
    MultiStore, MultiStoreReadHandle, MultiStoreWriteHandle, ReadKVStore, ReadWriteKVStore,
    WriteKVStore,
};

#[test]
fn contract() {
    run_multistore_tests(|| InMemoryMultiStore::new()).unwrap();
}

// A backend that forgets every write: the checks must catch it at run time.

struct EmptyStore;

impl ReadKVStore for EmptyStore {
    fn get(&self, _: &[u8]) -> Result<Option<Vec<u8>>, BackendError> {
        Ok(None)
    }

    fn scan(&self, _: ScanRange, _: Direction) -> Result<Vec<(Vec<u8>, Vec<u8>)>, BackendError> {
        Ok(Vec::new())
    }
}

struct ForgetfulHandle;

impl WriteKVStore for ForgetfulHandle {
    fn set(&mut self, _: &'static str, _: &[u8], _: &[u8]) -> Result<(), BackendError> {
        Ok(())
    }

    fn remove(&mut self, _: &'static str, _: &[u8]) -> Result<(), BackendError> {
        Ok(())
    }
}

impl ReadWriteKVStore for ForgetfulHandle {
    fn get(&self, _: &'static str, _: &[u8]) -> Result<Option<Vec<u8>>, BackendError> {
        Ok(None)
    }
}

impl MultiStoreWriteHandle for ForgetfulHandle {
    fn open_store(&mut self, _: &'static str) -> Result<(), BackendError> {
        Ok(())
    }
}

impl MultiStoreReadHandle for ForgetfulHandle {
    type Store = EmptyStore;

    fn open_store(&self, _: &'static str) -> Result<EmptyStore, BackendError> {
        Ok(EmptyStore)
    }
}

struct ForgetfulDb;

impl MultiStore for ForgetfulDb {
    type ReadHandle = ForgetfulHandle;
    type WriteHandle = ForgetfulHandle;

    fn prepare(&mut self, _: &'static str, _: &[&'static str]) -> Result<(), BackendError> {
        Ok(())
    }

    fn read(&self, _: &'static str) -> Result<ForgetfulHandle, BackendError> {
        Ok(ForgetfulHandle)
    }

    fn write(&self, _: &'static str) -> Result<ForgetfulHandle, BackendError> {
        Ok(ForgetfulHandle)
    }

    fn commit(&mut self, _: ForgetfulHandle) -> Result<(), BackendError> {
        Ok(())
    }
}

#[test]
fn checks_catch_a_backend_that_forgets_writes() {
    assert!(matches!(run_multistore_tests(|| ForgetfulDb), Err(CheckFailure::Violated(_))));
}
