//! Collections: records stored by primary key in a namespace of a backend,
//! with secondary indexes kept up to date in the same transaction.
use vstd::prelude::*;
use core::marker::PhantomData;
use crate::entity::{encoded_pk, stored_record, Entity};
use crate::error::{BackendError, Error};
use crate::index::{law_unique_index_accepts_fresh_key, Index, Unique};
use crate::index_registry::{has_stores, remove_entry, Cons, IndexRegistry, Nil};
use crate::key::Key;
use crate::scan::{Direction, IndexScan, MAIN_STORE};
use crate::bounds::Bound;
use crate::store::{
    KvView, MultiStore, MultiStoreReadHandle, MultiStoreWriteHandle, ReadKVStore, ReadWriteKVStore,
    StoresView, WriteKVStore,
};

verus! {

/// The stores of a namespace after a record is written under `pk` and the
/// indexes are updated for it; `None` when an index refuses it.
pub open spec fn written<Record: Entity, Indexes: IndexRegistry<Record>>(
    stores: StoresView,
    pk: Seq<u8>,
    previous: Option<Record>,
    value: Record,
) -> Option<StoresView> {
    Indexes::spec_update(
        stores.insert(MAIN_STORE@, stores[MAIN_STORE@].insert(pk, value.spec_to_bytes())),
        pk,
        previous,
        value,
    )
}

/// The operation failed because a record with key `k` exists.
pub open spec fn fails_already_exists<T>(r: Result<T, Error>, k: Seq<u8>) -> bool {
    match r {
        Err(Error::AlreadyExists(x)) => x@ == k,
        _ => false,
    }
}

/// The operation failed because no record with key `k` exists.
pub open spec fn fails_not_found<T>(r: Result<T, Error>, k: Seq<u8>) -> bool {
    match r {
        Err(Error::NotFound(x)) => x@ == k,
        _ => false,
    }
}

/// The operation failed in the backend.
pub open spec fn fails_in_backend<T>(r: Result<T, Error>) -> bool {
    r matches Err(Error::Backend(_))
}

/// What an insert makes of the records' store's answer for the new record's
/// key: a stored record refuses the insert with `AlreadyExists(key)`, no
/// record lets it go on, and a failed read passes the backend's error on.
pub fn refuse_existing(answer: Result<Option<Vec<u8>>, BackendError>, key: Vec<u8>) -> (r: Result<
    (),
    Error,
>)
    ensures
        answer matches Err(e) ==> r == Err::<(), Error>(Error::Backend(e)),
        answer matches Ok(Some(_)) ==> r == Err::<(), Error>(Error::AlreadyExists(key)),
        answer matches Ok(None) ==> r is Ok,
{
    match answer {
        Err(e) => Err(Error::Backend(e)),
        Ok(Some(_)) => Err(Error::AlreadyExists(key)),
        Ok(None) => Ok(()),
    }
}

/// The record that the records' store's answer holds: none where it holds
/// nothing, the decoded bytes where it holds some (or the decoder's error),
/// and the backend's error where the read failed.
pub fn decode_answer<Record: Entity>(answer: Result<Option<Vec<u8>>, BackendError>) -> (r: Result<
    Option<Record>,
    Error,
>)
    ensures
        answer matches Err(e) ==> r == Err::<Option<Record>, Error>(Error::Backend(e)),
        answer matches Ok(None) ==> r == Ok::<Option<Record>, Error>(None),
        answer matches Ok(Some(b)) ==> (r matches Ok(Some(x)) && x == Record::spec_from_bytes(b@))
            || r matches Err(Error::Codec(_)),
        answer matches Ok(Some(b)) ==> (r is Ok <==> Record::spec_deserializes(b@)),
{
    match answer {
        Err(e) => Err(Error::Backend(e)),
        Ok(None) => Ok(None),
        Ok(Some(bytes)) => match Record::from_bytes(bytes.as_slice()) {
            Ok(record) => Ok(Some(record)),
            Err(e) => Err(Error::Codec(e)),
        },
    }
}

/// What an update makes of the record read under its key: the record where
/// there is one, `NotFound(key)` where there is none, and the read's error
/// where it failed.
pub fn require_found<Record>(previous: Result<Option<Record>, Error>, key: Vec<u8>) -> (r: Result<
    Record,
    Error,
>)
    ensures
        previous matches Ok(Some(x)) ==> r == Ok::<Record, Error>(x),
        previous matches Ok(None) ==> r == Err::<Record, Error>(Error::NotFound(key)),
        previous matches Err(e) ==> r == Err::<Record, Error>(e),
{
    match previous {
        Ok(Some(x)) => Ok(x),
        Ok(None) => Err(Error::NotFound(key)),
        Err(e) => Err(e),
    }
}

/// What a remove makes of the record read under its key: the record to
/// remove where there is one; where there is none, the remove is done and
/// succeeds with nothing written; and the read's error where it failed.
pub fn removal_target<Record>(read: Result<Option<Record>, Error>) -> (r: Result<
    Record,
    Result<(), Error>,
>)
    ensures
        read matches Ok(Some(x)) ==> r == Ok::<Record, Result<(), Error>>(x),
        read matches Ok(None) ==> r == Err::<Record, Result<(), Error>>(Ok(())),
        read matches Err(e) ==> r == Err::<Record, Result<(), Error>>(Err(e)),
{
    match read {
        Ok(Some(x)) => Ok(x),
        Ok(None) => Err(Ok(())),
        Err(e) => Err(Err(e)),
    }
}

/// Every record is stored under its own encoded primary key.
pub open spec fn records_keyed<Record: Entity>(records: KvView) -> bool {
    forall|pk: Seq<u8>| #[trigger]
        records.contains_key(pk) ==> encoded_pk(Record::spec_from_bytes(records[pk])) == pk
}

/// A collection of records of type `Record`, stored in the namespace `name`
/// of the backend `db`, with the indexes `Indexes`.
pub struct Collection<DB: MultiStore, Record: Entity, Indexes: IndexRegistry<Record>> {
    name: &'static str,
    db: DB,
    _marker: PhantomData<(Record, Indexes)>,
}

impl<DB: MultiStore, Record: Entity, Indexes: IndexRegistry<Record>> Collection<
    DB,
    Record,
    Indexes,
> {
    /// The namespace of the collection.
    pub closed spec fn spec_name(&self) -> Seq<char> {
        self.name@
    }

    /// The backend of the collection.
    pub closed spec fn spec_db(&self) -> DB {
        self.db
    }

    /// The namespaces of the backend.
    pub open spec fn namespaces(&self) -> Map<Seq<char>, StoresView> {
        self.spec_db().namespaces()
    }

    /// The stores of the collection's namespace.
    pub open spec fn stores(&self) -> StoresView {
        self.namespaces()[self.spec_name()]
    }

    /// The records, by encoded primary key.
    pub open spec fn records(&self) -> KvView {
        self.stores()[MAIN_STORE@]
    }

    /// The namespace holds the records' store and every index store.
    pub open spec fn ready(&self) -> bool {
        &&& self.namespaces().contains_key(self.spec_name())
        &&& self.stores().contains_key(MAIN_STORE@)
        &&& has_stores(self.stores(), Indexes::spec_names())
    }

    /// Every record is stored under its own primary key, and every index
    /// store holds exactly the entries of the records.
    pub open spec fn well_indexed(&self) -> bool {
        &&& records_keyed::<Record>(self.records())
        &&& Indexes::spec_consistent(self.records(), self.stores())
    }

    /// The stores that inserting `value` commits; `None` when an index
    /// refuses it.
    pub open spec fn inserted(&self, value: Record) -> Option<StoresView> {
        written::<Record, Indexes>(self.stores(), encoded_pk(value), None, value)
    }

    /// The stores that updating the stored record to `value` commits;
    /// `None` when an index refuses it.
    pub open spec fn updated(&self, value: Record) -> Option<StoresView> {
        written::<Record, Indexes>(
            self.stores(),
            encoded_pk(value),
            stored_record::<Record>(self.records(), encoded_pk(value)),
            value,
        )
    }

    /// The stores that saving `value` commits; `None` when an index refuses
    /// it.
    pub open spec fn saved(&self, value: Record) -> Option<StoresView> {
        written::<Record, Indexes>(
            self.stores(),
            encoded_pk(value),
            stored_record::<Record>(self.records(), encoded_pk(value)),
            value,
        )
    }

    /// The backend after the collection's stores became `stores`.
    pub open spec fn committed(&self, stores: StoresView) -> Map<Seq<char>, StoresView> {
        self.namespaces().insert(self.spec_name(), stores)
    }

    pub fn new(name: &'static str, db: DB) -> (c: Self)
        ensures
            c.spec_name() == name@,
            c.spec_db() == db,
    {
        Collection { name, db, _marker: PhantomData }
    }

    /// Opens a write transaction on the collection's namespace, with the
    /// records' store open.
    fn begin(&self) -> (r: Result<DB::WriteHandle, Error>)
        requires
            self.ready(),
        ensures
            r matches Ok(tx) ==> tx.staged() == self.stores() && tx.namespace() == self.spec_name(),
            r is Err ==> fails_in_backend(r),
            r matches Ok(tx) ==> tx.staging_healthy() == self.spec_db().backend_healthy(),
            self.spec_db().backend_healthy() ==> r is Ok,
    {
        let mut tx = match self.db.write(self.name) {
            Ok(tx) => tx,
            Err(e) => {
                return Err(Error::Backend(e));
            },
        };
        if let Err(e) = tx.open_store(MAIN_STORE) {
            return Err(Error::Backend(e));
        }
        Ok(tx)
    }

    /// Reads and decodes the record stored under `enc_pk` in the transaction.
    fn read_record(tx: &DB::WriteHandle, enc_pk: &[u8]) -> (r: Result<Option<Record>, Error>)
        requires
            tx.staged().contains_key(MAIN_STORE@),
        ensures
            r matches Ok(o) ==> o == stored_record::<Record>(tx.staged()[MAIN_STORE@], enc_pk@),
            !tx.staged()[MAIN_STORE@].contains_key(enc_pk@) ==> r matches Ok(None) || fails_in_backend(
                r,
            ),
            r is Err ==> fails_in_backend(r) || r matches Err(Error::Codec(_)),
            r matches Err(Error::Codec(_)) ==> tx.staged()[MAIN_STORE@].contains_key(enc_pk@)
                && !Record::spec_deserializes(tx.staged()[MAIN_STORE@][enc_pk@]),
            tx.staged()[MAIN_STORE@].contains_key(enc_pk@) && Record::spec_deserializes(
                tx.staged()[MAIN_STORE@][enc_pk@],
            ) ==> r is Ok || fails_in_backend(r),
            tx.staging_healthy() ==> !fails_in_backend(r),
            r matches Ok(Some(_)) ==> Record::spec_deserializes(tx.staged()[MAIN_STORE@][enc_pk@]),
    {
        decode_answer(tx.get(MAIN_STORE, enc_pk))
    }

    /// Writes `value` under `enc_pk`, updates the indexes for it and commits.
    fn write_and_commit(
        &mut self,
        tx: DB::WriteHandle,
        pk: &Record::Key,
        enc_pk: &[u8],
        previous: Option<&Record>,
        value: &Record,
    ) -> (r: Result<(), Error>)
        requires
            old(self).ready(),
            tx.staged() == old(self).stores(),
            tx.namespace() == old(self).spec_name(),
            enc_pk@ == <Record::Key as Key>::spec_encode(pk@),
            tx.staging_healthy() == old(self).spec_db().backend_healthy(),
        ensures
            final(self).spec_name() == old(self).spec_name(),
            final(self).spec_db().backend_healthy() == old(self).spec_db().backend_healthy(),
            old(self).spec_db().backend_healthy() ==> !fails_in_backend(r),
            r matches Err(Error::Unexpected(_)) ==> Indexes::spec_may_fail(),
            r is Ok ==> ({
                let s = written::<Record, Indexes>(
                    old(self).stores(),
                    enc_pk@,
                    match previous {
                        Some(p) => Some(*p),
                        None => None,
                    },
                    *value,
                );
                s is Some && final(self).namespaces() == old(self).committed(s->0)
            }),
            r is Err ==> final(self).namespaces() == old(self).namespaces(),
            written::<Record, Indexes>(
                old(self).stores(),
                enc_pk@,
                match previous {
                    Some(p) => Some(*p),
                    None => None,
                },
                *value,
            ) is None ==> r is Err,
            !(r matches Err(Error::NotFound(_))),
            r matches Err(Error::AlreadyExists(_)) ==> written::<Record, Indexes>(
                old(self).stores(),
                enc_pk@,
                match previous {
                    Some(p) => Some(*p),
                    None => None,
                },
                *value,
            ) is None,
            r matches Err(Error::Codec(_)) ==> !value.spec_serializes(),
    {
        let mut tx = tx;
        let bytes = match value.to_bytes() {
            Ok(b) => b,
            Err(e) => {
                return Err(Error::Codec(e));
            },
        };
        if let Err(e) = tx.set(MAIN_STORE, enc_pk, bytes.as_slice()) {
            return Err(Error::Backend(e));
        }
        proof {
            let names = Indexes::spec_names();
            assert forall|i: int| 0 <= i < names.len() implies tx.staged().contains_key(
                #[trigger] names[i],
            ) by {
                assert(old(self).stores().contains_key(names[i]));
            }
        }
        if let Err(e) = Indexes::update(&mut tx, pk, previous, value) {
            return Err(e);
        }
        match self.db.commit(tx) {
            Ok(()) => Ok(()),
            Err(e) => Err(Error::Backend(e)),
        }
    }

    /// Inserts a new record.
    ///
    /// Fails with `AlreadyExists` when a record with the same primary key
    /// exists. The indexes are updated in the same transaction.
    pub fn insert(&mut self, value: &Record) -> (r: Result<(), Error>)
        requires
            old(self).ready(),
        ensures
            final(self).spec_name() == old(self).spec_name(),
            ({
                let pk = encoded_pk(*value);
                let after = old(self).inserted(*value);
                &&& r is Ok ==> !old(self).records().contains_key(pk) && after is Some
                    && final(self).namespaces() == old(self).committed(after->0)
                &&& r is Err ==> final(self).namespaces() == old(self).namespaces()
                &&& old(self).records().contains_key(pk) ==> fails_already_exists(r, pk)
                    || fails_in_backend(r)
                &&& after is None ==> r is Err
                &&& (r matches Err(Error::AlreadyExists(k)) ==> (k@ == pk && old(
                    self,
                ).records().contains_key(pk)) || after is None)
            }),
            !(r matches Err(Error::NotFound(_))),
            r matches Err(Error::Codec(_)) ==> !value.spec_serializes(),
            final(self).spec_db().backend_healthy() == old(self).spec_db().backend_healthy(),
            old(self).spec_db().backend_healthy() ==> !fails_in_backend(r),
            r matches Err(Error::Unexpected(_)) ==> Indexes::spec_may_fail(),
            old(self).spec_db().backend_healthy() && !old(self).records().contains_key(encoded_pk(*value))
                && value.spec_serializes() && old(self).inserted(*value) is Some ==> r is Ok
                || r matches Err(Error::Unexpected(_)),
            old(self).spec_db().backend_healthy() && !old(self).records().contains_key(encoded_pk(*value))
                && value.spec_serializes() && old(self).inserted(*value) is Some
                && !Indexes::spec_may_fail() ==> r is Ok,
    {
        let pk = value.key();
        let enc_pk = pk.encode();
        let tx = match self.begin() {
            Ok(tx) => tx,
            Err(e) => {
                return Err(e);
            },
        };
        let key = vstd::slice::slice_to_vec(enc_pk.as_slice());
        if let Err(e) = refuse_existing(tx.get(MAIN_STORE, enc_pk.as_slice()), key) {
            return Err(e);
        }
        self.write_and_commit(tx, &pk, enc_pk.as_slice(), None, value)
    }

    /// Updates an existing record.
    ///
    /// Fails with `NotFound` when no record has the same primary key. The
    /// indexes are updated where the indexed fields changed.
    pub fn update(&mut self, value: &Record) -> (r: Result<(), Error>)
        requires
            old(self).ready(),
        ensures
            final(self).spec_name() == old(self).spec_name(),
            ({
                let pk = encoded_pk(*value);
                let previous = stored_record::<Record>(old(self).records(), pk);
                let after = old(self).updated(*value);
                &&& r is Ok ==> old(self).records().contains_key(pk) && after is Some
                    && final(self).namespaces() == old(self).committed(after->0)
                &&& r is Err ==> final(self).namespaces() == old(self).namespaces()
                &&& !old(self).records().contains_key(pk) ==> fails_not_found(r, pk) || fails_in_backend(
                    r,
                )
                &&& after is None ==> r is Err
                &&& (r matches Err(Error::NotFound(k)) ==> k@ == pk && !old(self).records().contains_key(
                    pk,
                ))
                &&& (r matches Err(Error::AlreadyExists(_)) ==> after is None)
            }),
            r matches Err(Error::Codec(_)) ==> !value.spec_serializes() || (old(
                self,
            ).records().contains_key(encoded_pk(*value)) && !Record::spec_deserializes(
                old(self).records()[encoded_pk(*value)],
            )),
            final(self).spec_db().backend_healthy() == old(self).spec_db().backend_healthy(),
            old(self).spec_db().backend_healthy() ==> !fails_in_backend(r),
            r matches Err(Error::Unexpected(_)) ==> Indexes::spec_may_fail(),
            old(self).spec_db().backend_healthy() && old(self).records().contains_key(encoded_pk(*value))
                && Record::spec_deserializes(old(self).records()[encoded_pk(*value)]) && value.spec_serializes()
                && old(self).updated(*value) is Some ==> r is Ok
                || r matches Err(Error::Unexpected(_)),
            old(self).spec_db().backend_healthy() && old(self).records().contains_key(encoded_pk(*value))
                && Record::spec_deserializes(old(self).records()[encoded_pk(*value)]) && value.spec_serializes()
                && old(self).updated(*value) is Some
                && !Indexes::spec_may_fail() ==> r is Ok,
    {
        let pk = value.key();
        let enc_pk = pk.encode();
        let tx = match self.begin() {
            Ok(tx) => tx,
            Err(e) => {
                return Err(e);
            },
        };
        let key = vstd::slice::slice_to_vec(enc_pk.as_slice());
        let previous = match require_found(Self::read_record(&tx, enc_pk.as_slice()), key) {
            Ok(record) => record,
            Err(e) => {
                return Err(e);
            },
        };
        self.write_and_commit(tx, &pk, enc_pk.as_slice(), Some(&previous), value)
    }

    /// Saves a record: updates it if it exists, inserts it otherwise.
    pub fn save(&mut self, value: &Record) -> (r: Result<(), Error>)
        requires
            old(self).ready(),
        ensures
            final(self).spec_name() == old(self).spec_name(),
            ({
                let pk = encoded_pk(*value);
                let previous = stored_record::<Record>(old(self).records(), pk);
                let after = old(self).saved(*value);
                &&& r is Ok ==> after is Some && final(self).namespaces() == old(self).committed(
                    after->0,
                )
                &&& r is Err ==> final(self).namespaces() == old(self).namespaces()
                &&& after is None ==> r is Err
                &&& (r matches Err(Error::AlreadyExists(_)) ==> after is None)
            }),
            !(r matches Err(Error::NotFound(_))),
            r matches Err(Error::Codec(_)) ==> !value.spec_serializes() || (old(
                self,
            ).records().contains_key(encoded_pk(*value)) && !Record::spec_deserializes(
                old(self).records()[encoded_pk(*value)],
            )),
            final(self).spec_db().backend_healthy() == old(self).spec_db().backend_healthy(),
            old(self).spec_db().backend_healthy() ==> !fails_in_backend(r),
            r matches Err(Error::Unexpected(_)) ==> Indexes::spec_may_fail(),
            old(self).spec_db().backend_healthy() && (old(self).records().contains_key(encoded_pk(*value))
                ==> Record::spec_deserializes(old(self).records()[encoded_pk(*value)])) && value.spec_serializes()
                && old(self).saved(*value) is Some ==> r is Ok
                || r matches Err(Error::Unexpected(_)),
            old(self).spec_db().backend_healthy() && (old(self).records().contains_key(encoded_pk(*value))
                ==> Record::spec_deserializes(old(self).records()[encoded_pk(*value)])) && value.spec_serializes()
                && old(self).saved(*value) is Some
                && !Indexes::spec_may_fail() ==> r is Ok,
    {
        let pk = value.key();
        let enc_pk = pk.encode();
        let tx = match self.begin() {
            Ok(tx) => tx,
            Err(e) => {
                return Err(e);
            },
        };
        let previous = match Self::read_record(&tx, enc_pk.as_slice()) {
            Ok(p) => p,
            Err(e) => {
                return Err(e);
            },
        };
        match previous {
            Some(record) => self.write_and_commit(tx, &pk, enc_pk.as_slice(), Some(&record), value),
            None => self.write_and_commit(tx, &pk, enc_pk.as_slice(), None, value),
        }
    }

    /// Removes the record with primary key `key`, and its index entries.
    ///
    /// Succeeds, changing nothing, when there is no such record.
    pub fn remove(&mut self, key: &Record::Key) -> (r: Result<(), Error>)
        requires
            old(self).ready(),
        ensures
            final(self).spec_name() == old(self).spec_name(),
            ({
                let pk = <Record::Key as Key>::spec_encode(key@);
                let record = Record::spec_from_bytes(old(self).records()[pk]);
                &&& r is Ok && old(self).records().contains_key(pk) ==> final(self).namespaces()
                    == old(self).committed(
                    Indexes::spec_remove(
                        old(self).stores().insert(MAIN_STORE@, old(self).records().remove(pk)),
                        encoded_pk(record),
                        record,
                    ),
                )
                &&& r is Ok && !old(self).records().contains_key(pk) ==> final(self).namespaces()
                    == old(self).namespaces()
                &&& r is Err ==> final(self).namespaces() == old(self).namespaces()
                &&& !old(self).records().contains_key(pk) ==> (r is Ok || fails_in_backend(r))
                    && final(self).namespaces() == old(self).namespaces()
            }),
            !(r matches Err(Error::NotFound(_))),
            r matches Err(Error::Codec(_)) ==> old(self).records().contains_key(
                <Record::Key as Key>::spec_encode(key@),
            ) && !Record::spec_deserializes(
                old(self).records()[<Record::Key as Key>::spec_encode(key@)],
            ),
            final(self).spec_db().backend_healthy() == old(self).spec_db().backend_healthy(),
            old(self).spec_db().backend_healthy() ==> !fails_in_backend(r),
            r matches Err(Error::Unexpected(_)) ==> Indexes::spec_may_fail(),
            old(self).spec_db().backend_healthy() && !old(self).records().contains_key(<Record::Key as Key>::spec_encode(key@)) ==> r is Ok,
            old(self).spec_db().backend_healthy() && old(self).records().contains_key(<Record::Key as Key>::spec_encode(key@))
                && Record::spec_deserializes(old(self).records()[<Record::Key as Key>::spec_encode(key@)]) ==> r is Ok
                || r matches Err(Error::Unexpected(_)),
            old(self).spec_db().backend_healthy() && old(self).records().contains_key(<Record::Key as Key>::spec_encode(key@))
                && Record::spec_deserializes(old(self).records()[<Record::Key as Key>::spec_encode(key@)])
                && !Indexes::spec_may_fail() ==> r is Ok,
    {
        let enc_pk = key.encode();
        let mut tx = match self.begin() {
            Ok(tx) => tx,
            Err(e) => {
                return Err(e);
            },
        };
        let record = match removal_target(Self::read_record(&tx, enc_pk.as_slice())) {
            Ok(record) => record,
            Err(done) => {
                return done;
            },
        };
        if let Err(e) = tx.remove(MAIN_STORE, enc_pk.as_slice()) {
            return Err(Error::Backend(e));
        }
        proof {
            let names = Indexes::spec_names();
            assert forall|i: int| 0 <= i < names.len() implies tx.staged().contains_key(
                #[trigger] names[i],
            ) by {
                assert(old(self).stores().contains_key(names[i]));
            }
        }
        let record_pk = record.key();
        if let Err(e) = Indexes::remove(&mut tx, &record_pk, &record) {
            return Err(e);
        }
        match self.db.commit(tx) {
            Ok(()) => Ok(()),
            Err(e) => Err(Error::Backend(e)),
        }
    }

    /// The record with primary key `key`, if any.
    pub fn get(&self, key: &Record::Key) -> (r: Result<Option<Record>, Error>)
        requires
            self.ready(),
        ensures
            r matches Ok(o) ==> o == stored_record::<Record>(
                self.records(),
                <Record::Key as Key>::spec_encode(key@),
            ),
            !self.records().contains_key(<Record::Key as Key>::spec_encode(key@)) ==> r matches Ok(
                None,
            ) || fails_in_backend(r),
            r is Err ==> fails_in_backend(r) || r matches Err(Error::Codec(_)),
            r matches Err(Error::Codec(_)) ==> self.records().contains_key(
                <Record::Key as Key>::spec_encode(key@),
            ) && !Record::spec_deserializes(self.records()[<Record::Key as Key>::spec_encode(key@)]),
            self.records().contains_key(<Record::Key as Key>::spec_encode(key@))
                && Record::spec_deserializes(self.records()[<Record::Key as Key>::spec_encode(key@)])
                ==> r == Ok::<Option<Record>, Error>(
                Some(Record::spec_from_bytes(self.records()[<Record::Key as Key>::spec_encode(key@)])),
            ) || fails_in_backend(r),
            self.spec_db().backend_healthy() ==> !fails_in_backend(r),
            !(r matches Err(Error::Unexpected(_))),
            self.spec_db().backend_healthy() && !self.records().contains_key(<Record::Key as Key>::spec_encode(key@)) ==> r
                == Ok::<Option<Record>, Error>(None),
            r matches Ok(Some(_)) ==> Record::spec_deserializes(
                self.records()[<Record::Key as Key>::spec_encode(key@)],
            ),
    {
        let handle = match self.db.read(self.name) {
            Ok(h) => h,
            Err(e) => {
                return Err(Error::Backend(e));
            },
        };
        let store = match handle.open_store(MAIN_STORE) {
            Ok(s) => s,
            Err(e) => {
                return Err(Error::Backend(e));
            },
        };
        let enc_pk = key.encode();
        decode_answer(store.get(enc_pk.as_slice()))
    }

    /// A scan over the index `Idx` of the collection. It reads nothing until
    /// it is iterated, so it cannot fail.
    pub fn scan<Idx: Index<Record>>(&self, _idx: Idx) -> (r: Result<
        IndexScan<'_, DB, Record, Idx>,
        Error,
    >)
        ensures
            r matches Ok(s) && {
                &&& s.spec_collection_name() == self.spec_name()
                &&& s.spec_stores() == self.stores()
                &&& s.spec_opened() == self.namespaces().contains_key(self.spec_name())
                &&& s.spec_healthy() == self.spec_db().backend_healthy()
                &&& s.spec_range() == (Bound::<Seq<u8>>::Unbounded, Bound::<Seq<u8>>::Unbounded)
                &&& s.spec_direction() == Direction::LeftToRight
                &&& s.spec_after() is None
            },
    {
        Ok(IndexScan::new(self.name, &self.db))
    }
}

/// Builds a collection, one index at a time.
pub struct CollectionBuilder<DB: MultiStore, Record: Entity, Indexes: IndexRegistry<Record>> {
    name: &'static str,
    db: DB,
    _marker: PhantomData<(Record, Indexes)>,
}

impl<DB: MultiStore, Record: Entity, Indexes: IndexRegistry<Record>> CollectionBuilder<
    DB,
    Record,
    Indexes,
> {
    pub closed spec fn spec_name(&self) -> Seq<char> {
        self.name@
    }

    pub closed spec fn spec_db(&self) -> DB {
        self.db
    }

    /// Adds the index `Idx`, which must have a name of its own.
    pub fn with_index<Idx: Index<Record>>(self) -> (b: CollectionBuilder<
        DB,
        Record,
        Cons<Idx, Indexes>,
    >)
        requires
            !Indexes::spec_names().contains(Idx::spec_name()),
        ensures
            b.spec_name() == self.spec_name(),
            b.spec_db() == self.spec_db(),
            Indexes::spec_names().no_duplicates() ==> <Cons<
                Idx,
                Indexes,
            > as IndexRegistry<Record>>::spec_names().no_duplicates(),
    {
        proof {
            let names = <Cons<Idx, Indexes> as IndexRegistry<Record>>::spec_names();
            let tail = Indexes::spec_names();
            if tail.no_duplicates() {
                assert forall|i: int, j: int|
                    0 <= i < names.len() && 0 <= j < names.len() && i != j implies names[i]
                        != names[j] by {
                    if i > 0 && j > 0 {
                        assert(names[i] == tail[i - 1] && names[j] == tail[j - 1]);
                    } else if i == 0 {
                        assert(names[j] == tail[j - 1]);
                        assert(tail.contains(tail[j - 1]));
                    } else {
                        assert(names[i] == tail[i - 1]);
                        assert(tail.contains(tail[i - 1]));
                    }
                }
            }
        }
        CollectionBuilder { name: self.name, db: self.db, _marker: PhantomData }
    }

    /// The collection with the indexes added so far.
    pub fn build(self) -> (c: Collection<DB, Record, Indexes>)
        ensures
            c.spec_name() == self.spec_name(),
            c.spec_db() == self.spec_db(),
    {
        Collection::new(self.name, self.db)
    }
}

/// Starts building a collection of `T` records in the namespace `name` of
/// `db`.
pub fn collection<T: Entity, DB: MultiStore>(name: &'static str, db: DB) -> (b: CollectionBuilder<
    DB,
    T,
    Nil,
>)
    ensures
        b.spec_name() == name@,
        b.spec_db() == db,
{
    CollectionBuilder { name, db, _marker: PhantomData }
}

/// Writing a record stores its bytes under its primary key in the records'
/// store, and leaves the other records as they were.
pub proof fn lemma_written_records<Record: Entity, Indexes: IndexRegistry<Record>>(
    stores: StoresView,
    pk: Seq<u8>,
    previous: Option<Record>,
    value: Record,
)
    requires
        stores.contains_key(MAIN_STORE@),
        !Indexes::spec_names().contains(MAIN_STORE@),
        written::<Record, Indexes>(stores, pk, previous, value) is Some,
    ensures
        ({
            let after = written::<Record, Indexes>(stores, pk, previous, value)->0;
            after.contains_key(MAIN_STORE@) && after[MAIN_STORE@] == stores[MAIN_STORE@].insert(
                pk,
                value.spec_to_bytes(),
            )
        }),
{
    Indexes::lemma_update_frame(
        stores.insert(MAIN_STORE@, stores[MAIN_STORE@].insert(pk, value.spec_to_bytes())),
        pk,
        previous,
        value,
        MAIN_STORE@,
    );
}

/// Read after write: once an insert, update or save of `value` has
/// succeeded, the record read under `value`'s primary key is what `value`'s
/// bytes decode to, and every other key reads as it did before.
pub proof fn law_read_after_write<DB: MultiStore, Record: Entity, Indexes: IndexRegistry<Record>>(
    before: Collection<DB, Record, Indexes>,
    after: Collection<DB, Record, Indexes>,
    previous: Option<Record>,
    value: Record,
    k: Seq<u8>,
)
    requires
        before.ready(),
        !Indexes::spec_names().contains(MAIN_STORE@),
        written::<Record, Indexes>(before.stores(), encoded_pk(value), previous, value) is Some,
        after.spec_name() == before.spec_name(),
        after.namespaces() == before.committed(
            written::<Record, Indexes>(before.stores(), encoded_pk(value), previous, value)->0,
        ),
    ensures
        stored_record::<Record>(after.records(), encoded_pk(value)) == Some(
            Record::spec_from_bytes(value.spec_to_bytes()),
        ),
        k != encoded_pk(value) ==> stored_record::<Record>(after.records(), k)
            == stored_record::<Record>(before.records(), k),
{
    lemma_written_records::<Record, Indexes>(before.stores(), encoded_pk(value), previous, value);
}

/// Read after remove: once a remove of `key` has succeeded, no record is read
/// under `key`, and every other key reads as it did before.
pub proof fn law_read_after_remove<DB: MultiStore, Record: Entity, Indexes: IndexRegistry<Record>>(
    before: Collection<DB, Record, Indexes>,
    after: Collection<DB, Record, Indexes>,
    key: Seq<u8>,
    k: Seq<u8>,
)
    requires
        before.ready(),
        !Indexes::spec_names().contains(MAIN_STORE@),
        after.spec_name() == before.spec_name(),
        before.records().contains_key(key) ==> {
            let record = Record::spec_from_bytes(before.records()[key]);
            after.namespaces() == before.committed(
                Indexes::spec_remove(
                    before.stores().insert(MAIN_STORE@, before.records().remove(key)),
                    encoded_pk(record),
                    record,
                ),
            )
        },
        !before.records().contains_key(key) ==> after.namespaces() == before.namespaces(),
    ensures
        stored_record::<Record>(after.records(), key) is None,
        k != key ==> stored_record::<Record>(after.records(), k) == stored_record::<Record>(
            before.records(),
            k,
        ),
{
    if before.records().contains_key(key) {
        let record = Record::spec_from_bytes(before.records()[key]);
        Indexes::lemma_remove_frame(
            before.stores().insert(MAIN_STORE@, before.records().remove(key)),
            encoded_pk(record),
            record,
            MAIN_STORE@,
        );
    }
}

/// Writes keep the indexes: if every record is stored under its own primary
/// key and every index holds exactly the records' entries, that stays so
/// after an insert, update or save succeeds with a record whose bytes decode
/// back to it.
pub proof fn law_write_keeps_indexes<DB: MultiStore, Record: Entity, Indexes: IndexRegistry<Record>>(
    before: Collection<DB, Record, Indexes>,
    after: Collection<DB, Record, Indexes>,
    previous: Option<Record>,
    value: Record,
)
    requires
        before.ready(),
        Indexes::spec_names().no_duplicates(),
        !Indexes::spec_names().contains(MAIN_STORE@),
        before.well_indexed(),
        Record::spec_from_bytes(value.spec_to_bytes()) == value,
        previous == stored_record::<Record>(before.records(), encoded_pk(value)),
        written::<Record, Indexes>(before.stores(), encoded_pk(value), previous, value) is Some,
        after.spec_name() == before.spec_name(),
        after.namespaces() == before.committed(
            written::<Record, Indexes>(before.stores(), encoded_pk(value), previous, value)->0,
        ),
    ensures
        after.well_indexed(),
{
    let pk = encoded_pk(value);
    let stores = before.stores();
    let records = before.records();
    let names = Indexes::spec_names();
    let s0 = stores.insert(MAIN_STORE@, records.insert(pk, value.spec_to_bytes()));
    lemma_written_records::<Record, Indexes>(stores, pk, previous, value);
    assert forall|i: int| 0 <= i < names.len() implies stores[#[trigger] names[i]] == s0[names[i]] by {
        assert(names.contains(names[i]));
    }
    Indexes::lemma_consistent_frame(records, stores, s0);
    Indexes::lemma_update_consistent(records, s0, pk, previous, value);
    assert(after.records() == records.insert(pk, value.spec_to_bytes()));
}

/// Removes keep the indexes: if every record is stored under its own primary
/// key and every index holds exactly the records' entries, that stays so
/// after a remove succeeds.
pub proof fn law_remove_keeps_indexes<DB: MultiStore, Record: Entity, Indexes: IndexRegistry<Record>>(
    before: Collection<DB, Record, Indexes>,
    after: Collection<DB, Record, Indexes>,
    key: Seq<u8>,
)
    requires
        before.ready(),
        Indexes::spec_names().no_duplicates(),
        !Indexes::spec_names().contains(MAIN_STORE@),
        before.well_indexed(),
        after.spec_name() == before.spec_name(),
        before.records().contains_key(key) ==> {
            let record = Record::spec_from_bytes(before.records()[key]);
            after.namespaces() == before.committed(
                Indexes::spec_remove(
                    before.stores().insert(MAIN_STORE@, before.records().remove(key)),
                    encoded_pk(record),
                    record,
                ),
            )
        },
        !before.records().contains_key(key) ==> after.namespaces() == before.namespaces(),
    ensures
        after.well_indexed(),
{
    let stores = before.stores();
    let records = before.records();
    let names = Indexes::spec_names();
    if records.contains_key(key) {
        let record = Record::spec_from_bytes(records[key]);
        assert(encoded_pk(record) == key);
        let s0 = stores.insert(MAIN_STORE@, records.remove(key));
        assert forall|i: int| 0 <= i < names.len() implies stores[#[trigger] names[i]] == s0[names[i]] by {
            assert(names.contains(names[i]));
        }
        Indexes::lemma_consistent_frame(records, stores, s0);
        Indexes::lemma_remove_consistent(records, s0, key);
        Indexes::lemma_remove_frame(s0, key, record, MAIN_STORE@);
        assert(after.records() == records.remove(key));
    } else {
        assert(after.stores() == stores);
    }
}

/// Insert then remove: removing a record right after inserting it gives
/// every store of the collection back as it was, provided that the record's
/// bytes decode back to it.
pub proof fn law_insert_then_remove<DB: MultiStore, Record: Entity, Indexes: IndexRegistry<Record>>(
    before: Collection<DB, Record, Indexes>,
    middle: Collection<DB, Record, Indexes>,
    after: Collection<DB, Record, Indexes>,
    value: Record,
)
    requires
        before.ready(),
        Record::spec_from_bytes(value.spec_to_bytes()) == value,
        !before.records().contains_key(encoded_pk(value)),
        before.inserted(value) is Some,
        middle.spec_name() == before.spec_name(),
        middle.namespaces() == before.committed(before.inserted(value)->0),
        after.spec_name() == before.spec_name(),
        ({
            let record = Record::spec_from_bytes(middle.records()[encoded_pk(value)]);
            after.namespaces() == middle.committed(
                Indexes::spec_remove(
                    middle.stores().insert(
                        MAIN_STORE@,
                        middle.records().remove(encoded_pk(value)),
                    ),
                    encoded_pk(record),
                    record,
                ),
            )
        }),
    ensures
        after.namespaces() == before.namespaces(),
{
    let pk = encoded_pk(value);
    let b = value.spec_to_bytes();
    let stores = before.stores();
    let records = before.records();
    let names = Indexes::spec_names();
    let s0 = stores.insert(MAIN_STORE@, records.insert(pk, b));
    let w = Indexes::spec_update(s0, pk, None, value)->0;
    assert(middle.stores() == w);
    assert forall|i: int| 0 <= i < names.len() implies s0.contains_key(#[trigger] names[i]) by {
        assert(stores.contains_key(names[i]));
    }
    // the record written stays in the records' store while the indexes are updated
    Indexes::lemma_update_keeps_entries(s0, pk, value, MAIN_STORE@, pk);
    assert(middle.records()[pk] == b);
    // the record's removal takes out its main entry, then its index entries
    Indexes::lemma_update_domain(s0, pk, None, value);
    assert forall|i: int| 0 <= i < names.len() implies w.contains_key(#[trigger] names[i]) by {
        assert(s0.contains_key(names[i]));
    }
    assert(middle.stores().insert(MAIN_STORE@, middle.records().remove(pk)) == remove_entry(
        w,
        MAIN_STORE@,
        pk,
    ));
    Indexes::lemma_remove_commutes(w, pk, value, MAIN_STORE@, pk);
    Indexes::lemma_remove_undoes_update(s0, pk, value);
    assert(remove_entry(s0, MAIN_STORE@, pk) =~= stores) by {
        assert(records.insert(pk, b).remove(pk) =~= records);
    }
    assert(after.stores() == stores);
    assert(after.namespaces() =~= before.namespaces());
}

/// Save is insert or update: where no record is stored under the value's
/// key, a save commits what an insert commits; where one is stored, it
/// commits what an update commits.
pub proof fn law_save_is_insert_or_update<DB: MultiStore, Record: Entity, Indexes: IndexRegistry<Record>>(
    c: Collection<DB, Record, Indexes>,
    value: Record,
)
    ensures
        !c.records().contains_key(encoded_pk(value)) ==> c.saved(value) == c.inserted(value),
        c.records().contains_key(encoded_pk(value)) ==> c.saved(value) == c.updated(value),
{
}

/// Scanned records are the collection's: in a collection whose records are
/// stored under their own primary keys, a record that an index scan resolves
/// from the records' store under a primary key is the record read under that
/// record's own key.
pub proof fn law_scanned_record_is_stored<DB: MultiStore, Record: Entity, Indexes: IndexRegistry<Record>>(
    c: Collection<DB, Record, Indexes>,
    pk: Seq<u8>,
    record: Record,
)
    requires
        records_keyed::<Record>(c.records()),
        c.records().contains_key(pk),
        record == Record::spec_from_bytes(c.records()[pk]),
    ensures
        encoded_pk(record) == pk,
        stored_record::<Record>(c.records(), encoded_pk(record)) == Some(record),
{
}

/// A unique index accepts every new key: in a collection with one unique
/// index, whose records are stored under their own keys and whose index holds
/// exactly their entries, inserting a record under a new primary key whose
/// encoded index key no stored record has is accepted by the index. With a
/// healthy backend, a record that serializes and an index that does not fail
/// on its own, the insert then succeeds.
pub proof fn law_unique_insert_accepted<DB: MultiStore, Record: Entity, I: Index<Record, Kind = Unique>>(
    c: Collection<DB, Record, Cons<I, Nil>>,
    value: Record,
)
    requires
        c.ready(),
        c.well_indexed(),
        I::spec_name() != MAIN_STORE@,
        !c.records().contains_key(encoded_pk(value)),
        forall|q: Seq<u8>|
            #[trigger] c.records().contains_key(q) ==> <I::Key as Key>::spec_encode(
                I::spec_index_key(&Record::spec_from_bytes(c.records()[q])),
            ) != <I::Key as Key>::spec_encode(I::spec_index_key(&value)),
    ensures
        c.inserted(value) is Some,
{
    let pk = encoded_pk(value);
    let stores = c.stores();
    let s0 = stores.insert(MAIN_STORE@, c.records().insert(pk, value.spec_to_bytes()));
    assert(s0[I::spec_name()] == stores[I::spec_name()]);
    law_unique_index_accepts_fresh_key::<Record, I>(c.records(), stores[I::spec_name()], pk, value);
}

} // verus!
