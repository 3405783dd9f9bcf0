//! Secondary indexes: stores that map a key extracted from each record to the
//! record's primary key.
use vstd::prelude::*;
use crate::entity::{stored_record, Entity};
use crate::collection::refuse_existing;
use crate::error::Error;
use crate::key::{extend_bytes, Key};
use crate::store::{KvView, MultiStoreWriteHandle, ReadWriteKVStore, StoresView, WriteKVStore};

verus! {

/// How an index turns an index key and a primary key into the key of its
/// entry: a unique index stores the index key alone, a multi index appends
/// the primary key so that each record has its own entry.
pub trait IndexKind {
    spec fn spec_store_key(index_key: Seq<u8>, pk: Seq<u8>) -> Seq<u8>;

    fn store_key(index_key: Vec<u8>, pk: &[u8]) -> (r: Vec<u8>)
        ensures
            r@ == Self::spec_store_key(index_key@, pk@),
    ;
}

/// At most one record per index key.
pub struct Unique;

impl IndexKind for Unique {
    open spec fn spec_store_key(index_key: Seq<u8>, pk: Seq<u8>) -> Seq<u8> {
        index_key
    }

    fn store_key(index_key: Vec<u8>, pk: &[u8]) -> (r: Vec<u8>) {
        index_key
    }
}

/// Any number of records per index key.
pub struct Multi;

impl IndexKind for Multi {
    open spec fn spec_store_key(index_key: Seq<u8>, pk: Seq<u8>) -> Seq<u8> {
        index_key + pk
    }

    fn store_key(index_key: Vec<u8>, pk: &[u8]) -> (r: Vec<u8>) {
        let mut out = index_key;
        extend_bytes(&mut out, pk);
        out
    }
}

/// The index store after indexing a record under `new_key`, having
/// unindexed it from `old_key`; `None` when another entry holds `new_key`.
pub open spec fn index_update(
    store: KvView,
    old_key: Option<Seq<u8>>,
    new_key: Seq<u8>,
    pk: Seq<u8>,
) -> Option<KvView> {
    if old_key == Some(new_key) {
        Some(store)
    } else {
        let s = match old_key {
            Some(o) => store.remove(o),
            None => store,
        };
        if s.contains_key(new_key) {
            None
        } else {
            Some(s.insert(new_key, pk))
        }
    }
}

/// An index store without the entry that a record formerly had, if any.
pub open spec fn cleared_store(store: KvView, old_key: Option<Seq<u8>>) -> KvView {
    match old_key {
        Some(o) => store.remove(o),
        None => store,
    }
}

/// An index of the records of type `Record`, kept in a store of its own.
pub trait Index<Record: Entity>: Sized {
    /// The type of the index keys.
    type Key: Key;

    /// Whether the index is unique or multi-valued.
    type Kind: IndexKind;

    /// The name of the index's store.
    closed spec fn spec_name() -> Seq<char> {
        arbitrary()
    }

    /// The index key of a record.
    closed spec fn spec_index_key(entity: &Record) -> <Self::Key as View>::V {
        arbitrary()
    }

    /// Whether the index may fail for a reason of its own, besides a taken
    /// entry and the backend's errors; the provided implementations never do.
    closed spec fn spec_may_fail() -> bool {
        arbitrary()
    }

    fn name() -> (n: &'static str)
        ensures
            n@ == Self::spec_name(),
    ;

    fn key(entity: &Record) -> (k: Self::Key)
        ensures
            k@ == Self::spec_index_key(entity),
    ;

    /// Indexes `new`, which formerly was `old`, under the primary key `pk`.
    ///
    /// An index never answers `NotFound` or `Codec`: those answers are the
    /// collection's, for a missing record and for bytes that do not convert. The provided implementation fails only with
    /// `AlreadyExists`, when another record holds the new entry, or with the
    /// backend's error.
    fn update<DB: MultiStoreWriteHandle>(
        db: &mut DB,
        pk: &Record::Key,
        previous: Option<&Record>,
        new: &Record,
    ) -> (r: Result<(), Error>)
        requires
            old(db).staged().contains_key(Self::spec_name()),
        ensures
            final(db).namespace() == old(db).namespace(),
            ({
                let pkv = <Record::Key as Key>::spec_encode(pk@);
                let name = Self::spec_name();
                let new_key = <Self::Kind as IndexKind>::spec_store_key(
                    <Self::Key as Key>::spec_encode(Self::spec_index_key(new)),
                    pkv,
                );
                let old_key = match previous {
                    Some(o) => Some(
                        <Self::Kind as IndexKind>::spec_store_key(
                            <Self::Key as Key>::spec_encode(Self::spec_index_key(o)),
                            pkv,
                        ),
                    ),
                    None => None,
                };
                let updated = index_update(old(db).staged()[name], old_key, new_key, pkv);
                &&& r is Ok ==> updated is Some && final(db).staged() == old(db).staged().insert(
                    name,
                    updated->0,
                )
                &&& updated is None ==> r is Err
                &&& r matches Err(Error::AlreadyExists(k)) ==> k@ == new_key && updated is None
            }),
            !(r matches Err(Error::NotFound(_))),
            !(r matches Err(Error::Codec(_))),
            final(db).staging_healthy() == old(db).staging_healthy(),
            old(db).staging_healthy() ==> !(r matches Err(Error::Backend(_))),
            r matches Err(Error::Unexpected(_)) ==> Self::spec_may_fail(),
        default_ensures
            ({
                let pkv = <Record::Key as Key>::spec_encode(pk@);
                let new_key = <Self::Kind as IndexKind>::spec_store_key(
                    <Self::Key as Key>::spec_encode(Self::spec_index_key(new)),
                    pkv,
                );
                let old_key = match previous {
                    Some(o) => Some(
                        <Self::Kind as IndexKind>::spec_store_key(
                            <Self::Key as Key>::spec_encode(Self::spec_index_key(o)),
                            pkv,
                        ),
                    ),
                    None => None,
                };
                let updated = index_update(old(db).staged()[Self::spec_name()], old_key, new_key, pkv);
                &&& (old_key == Some(new_key) ==> (r is Ok && final(db).staged() == old(db).staged())
                    || r matches Err(Error::Backend(_)))
                &&& (updated is None ==> (r matches Err(Error::AlreadyExists(k)) && k@ == new_key)
                    || r matches Err(Error::Backend(_)))
                &&& (updated is Some ==> r is Ok || r matches Err(Error::Backend(_)))
                &&& (r matches Err(Error::AlreadyExists(_)) ==> final(db).staged() == old(
                    db,
                ).staged().insert(
                    Self::spec_name(),
                    cleared_store(old(db).staged()[Self::spec_name()], old_key),
                ))
            }),
    {
        let enc_pk = pk.encode();
        let ghost pkv = enc_pk@;
        let name = Self::name();
        let new_skey = Self::Kind::store_key(Self::key(new).encode(), enc_pk.as_slice());
        if let Err(e) = db.open_store(name) {
            return Err(Error::Backend(e));
        }
        let ghost staged0 = db.staged();
        let ghost store0 = staged0[name@];
        if let Some(entity) = previous {
            let old_skey = Self::Kind::store_key(Self::key(entity).encode(), enc_pk.as_slice());
            if bytes_eq(old_skey.as_slice(), new_skey.as_slice()) {
                assert(staged0.insert(name@, store0) =~= staged0);
                assert(index_update(store0, Some(old_skey@), new_skey@, pkv) == Some(store0));
                return Ok(());
            }
            if let Err(e) = db.remove(name, old_skey.as_slice()) {
                return Err(Error::Backend(e));
            }
        }
        let ghost staged1 = db.staged();
        let ghost store1 = staged1[name@];
        proof {
            let old_key = match previous {
                Some(o) => Some(
                    <Self::Kind as IndexKind>::spec_store_key(
                        <Self::Key as Key>::spec_encode(Self::spec_index_key(o)),
                        pkv,
                    ),
                ),
                None => None,
            };
            assert(staged1 =~= staged0.insert(name@, cleared_store(store0, old_key)));
        }
        let key = vstd::slice::slice_to_vec(new_skey.as_slice());
        if let Err(e) = refuse_existing(db.get(name, new_skey.as_slice()), key) {
            return Err(e);
        }
        match db.set(name, new_skey.as_slice(), enc_pk.as_slice()) {
            Err(e) => Err(Error::Backend(e)),
            Ok(()) => {
                assert(db.staged() =~= staged0.insert(name@, store1.insert(new_skey@, pkv)));
                Ok(())
            },
        }
    }

    /// Removes the entry of `item`, under the primary key `pk`. A removal
    /// never answers `NotFound`, `Codec` or `AlreadyExists`; the provided
    /// implementation fails only with the backend's error.
    fn remove<DB: MultiStoreWriteHandle>(db: &mut DB, pk: &Record::Key, item: &Record) -> (r: Result<
        (),
        Error,
    >)
        requires
            old(db).staged().contains_key(Self::spec_name()),
        ensures
            final(db).namespace() == old(db).namespace(),
            r is Ok ==> final(db).staged() == old(db).staged().insert(
                Self::spec_name(),
                old(db).staged()[Self::spec_name()].remove(
                    <Self::Kind as IndexKind>::spec_store_key(
                        <Self::Key as Key>::spec_encode(Self::spec_index_key(item)),
                        <Record::Key as Key>::spec_encode(pk@),
                    ),
                ),
            ),
            !(r matches Err(Error::NotFound(_))),
            !(r matches Err(Error::Codec(_))),
            !(r matches Err(Error::AlreadyExists(_))),
            final(db).staging_healthy() == old(db).staging_healthy(),
            old(db).staging_healthy() ==> !(r matches Err(Error::Backend(_))),
            r matches Err(Error::Unexpected(_)) ==> Self::spec_may_fail(),
        default_ensures
            r is Ok || r matches Err(Error::Backend(_)),
    {
        let name = Self::name();
        if let Err(e) = db.open_store(name) {
            return Err(Error::Backend(e));
        }
        let enc_pk = pk.encode();
        let skey = Self::Kind::store_key(Self::key(item).encode(), enc_pk.as_slice());
        match db.remove(name, skey.as_slice()) {
            Ok(()) => Ok(()),
            Err(e) => Err(Error::Backend(e)),
        }
    }
}

/// The key of a record's entry in the store of index `I`.
pub open spec fn entry_key<R: Entity, I: Index<R>>(entity: R, pk: Seq<u8>) -> Seq<u8> {
    <I::Kind as IndexKind>::spec_store_key(
        <I::Key as Key>::spec_encode(I::spec_index_key(&entity)),
        pk,
    )
}

/// The stores after index `I` is updated for `new`, formerly `previous`;
/// `None` when another entry holds `new`'s entry key.
pub open spec fn index_spec_update<R: Entity, I: Index<R>>(
    staged: StoresView,
    pk: Seq<u8>,
    previous: Option<R>,
    new: R,
) -> Option<StoresView> {
    let old_key = match previous {
        Some(o) => Some(entry_key::<R, I>(o, pk)),
        None => None,
    };
    match index_update(staged[I::spec_name()], old_key, entry_key::<R, I>(new, pk), pk) {
        Some(s) => Some(staged.insert(I::spec_name(), s)),
        None => None,
    }
}

/// The stores after the entry of `item` is removed from index `I`.
pub open spec fn index_spec_remove<R: Entity, I: Index<R>>(
    staged: StoresView,
    pk: Seq<u8>,
    item: R,
) -> StoresView {
    staged.insert(I::spec_name(), staged[I::spec_name()].remove(entry_key::<R, I>(item, pk)))
}

/// The index store `index` holds exactly the entries of the records in
/// `records`: each record has its entry, which names its primary key, and
/// each entry names a record whose entry it is.
pub open spec fn index_consistent<R: Entity, I: Index<R>>(records: KvView, index: KvView) -> bool {
    &&& forall|pk: Seq<u8>| #[trigger]
        records.contains_key(pk) ==> index.contains_key(
            entry_key::<R, I>(R::spec_from_bytes(records[pk]), pk),
        ) && index[entry_key::<R, I>(R::spec_from_bytes(records[pk]), pk)] == pk
    &&& forall|k: Seq<u8>| #[trigger]
        index.contains_key(k) ==> records.contains_key(index[k]) && entry_key::<R, I>(
            R::spec_from_bytes(records[index[k]]),
            index[k],
        ) == k
}

/// The entry key that a record formerly stored under `pk` had, if any.
pub open spec fn previous_entry_key<R: Entity, I: Index<R>>(previous: Option<R>, pk: Seq<u8>) -> Option<
    Seq<u8>,
> {
    match previous {
        Some(o) => Some(entry_key::<R, I>(o, pk)),
        None => None,
    }
}

/// Writing a record under `pk`, when the index accepts it, keeps the index
/// store consistent with the records, provided that the record's bytes
/// decode back to it.
pub proof fn lemma_index_write<R: Entity, I: Index<R>>(
    records: KvView,
    index: KvView,
    pk: Seq<u8>,
    previous: Option<R>,
    new: R,
)
    requires
        index_consistent::<R, I>(records, index),
        R::spec_from_bytes(new.spec_to_bytes()) == new,
        previous == stored_record::<R>(records, pk),
        index_update(index, previous_entry_key::<R, I>(previous, pk), entry_key::<R, I>(new, pk), pk)
            is Some,
    ensures
        index_consistent::<R, I>(
            records.insert(pk, new.spec_to_bytes()),
            index_update(
                index,
                previous_entry_key::<R, I>(previous, pk),
                entry_key::<R, I>(new, pk),
                pk,
            )->0,
        ),
{
    let r2 = records.insert(pk, new.spec_to_bytes());
    let ek = entry_key::<R, I>(new, pk);
    let ok = previous_entry_key::<R, I>(previous, pk);
    let i2 = index_update(index, ok, ek, pk)->0;
    assert(R::spec_from_bytes(r2[pk]) == new);
    if records.contains_key(pk) {
        assert(index.contains_key(entry_key::<R, I>(R::spec_from_bytes(records[pk]), pk)));
    }
    assert forall|p: Seq<u8>| #[trigger] r2.contains_key(p) implies i2.contains_key(
        entry_key::<R, I>(R::spec_from_bytes(r2[p]), p),
    ) && i2[entry_key::<R, I>(R::spec_from_bytes(r2[p]), p)] == p by {
        if p != pk {
            assert(records.contains_key(p));
            let ep = entry_key::<R, I>(R::spec_from_bytes(records[p]), p);
            assert(index.contains_key(ep) && index[ep] == p);
        }
    }
    assert forall|k: Seq<u8>| #[trigger] i2.contains_key(k) implies r2.contains_key(i2[k])
        && entry_key::<R, I>(R::spec_from_bytes(r2[i2[k]]), i2[k]) == k by {
        if k != ek || ok == Some(ek) {
            assert(index.contains_key(k));
            let q = index[k];
            assert(records.contains_key(q));
            if q == pk {
                assert(ok == Some(k));
            }
        }
    }
}

/// Removing the record stored under `pk`, with its entry, keeps the index
/// store consistent with the records.
pub proof fn lemma_index_remove<R: Entity, I: Index<R>>(records: KvView, index: KvView, pk: Seq<u8>)
    requires
        index_consistent::<R, I>(records, index),
        records.contains_key(pk),
    ensures
        index_consistent::<R, I>(
            records.remove(pk),
            index.remove(entry_key::<R, I>(R::spec_from_bytes(records[pk]), pk)),
        ),
{
    let e = entry_key::<R, I>(R::spec_from_bytes(records[pk]), pk);
    let r2 = records.remove(pk);
    let i2 = index.remove(e);
    assert(index.contains_key(e) && index[e] == pk);
    assert forall|p: Seq<u8>| #[trigger] r2.contains_key(p) implies i2.contains_key(
        entry_key::<R, I>(R::spec_from_bytes(r2[p]), p),
    ) && i2[entry_key::<R, I>(R::spec_from_bytes(r2[p]), p)] == p by {
        assert(records.contains_key(p));
    }
    assert forall|k: Seq<u8>| #[trigger] i2.contains_key(k) implies r2.contains_key(i2[k])
        && entry_key::<R, I>(R::spec_from_bytes(r2[i2[k]]), i2[k]) == k by {
        assert(index.contains_key(k));
    }
}

/// The entry of a unique index keeps the whole encoded index key: two
/// entries are the same only for the same encoded index key, whatever the
/// primary keys.
pub proof fn law_unique_entry_keys_injective(a: Seq<u8>, p: Seq<u8>, b: Seq<u8>, q: Seq<u8>)
    ensures
        Unique::spec_store_key(a, p) == Unique::spec_store_key(b, q) <==> a == b,
{
}

/// A unique index accepts a new record whose encoded index key no stored
/// record has: where the index store is consistent with the records, and the
/// primary key is new, indexing the record succeeds and adds exactly its
/// entry.
pub proof fn law_unique_index_accepts_fresh_key<R: Entity, I: Index<R, Kind = Unique>>(
    records: KvView,
    index: KvView,
    pk: Seq<u8>,
    new: R,
)
    requires
        index_consistent::<R, I>(records, index),
        forall|q: Seq<u8>|
            #[trigger] records.contains_key(q) ==> <I::Key as Key>::spec_encode(
                I::spec_index_key(&R::spec_from_bytes(records[q])),
            ) != <I::Key as Key>::spec_encode(I::spec_index_key(&new)),
    ensures
        index_update(index, None, entry_key::<R, I>(new, pk), pk) == Some(
            index.insert(<I::Key as Key>::spec_encode(I::spec_index_key(&new)), pk),
        ),
{
    let e = entry_key::<R, I>(new, pk);
    if index.contains_key(e) {
        let q = index[e];
        assert(records.contains_key(q));
        let eq = entry_key::<R, I>(R::spec_from_bytes(records[q]), q);
        assert(eq == e);
        law_unique_entry_keys_injective(
            <I::Key as Key>::spec_encode(I::spec_index_key(&R::spec_from_bytes(records[q]))),
            q,
            <I::Key as Key>::spec_encode(I::spec_index_key(&new)),
            pk,
        );
    }
}

/// A unique index holds at most one record per index key: where the index
/// store is consistent with the records, two different records have
/// different index keys.
pub proof fn lemma_unique_index_keys_distinct<R: Entity, I: Index<R, Kind = Unique>>(
    records: KvView,
    index: KvView,
    p1: Seq<u8>,
    p2: Seq<u8>,
)
    requires
        index_consistent::<R, I>(records, index),
        records.contains_key(p1),
        records.contains_key(p2),
        p1 != p2,
    ensures
        I::spec_index_key(&R::spec_from_bytes(records[p1])) != I::spec_index_key(
            &R::spec_from_bytes(records[p2]),
        ),
{
    let e1 = entry_key::<R, I>(R::spec_from_bytes(records[p1]), p1);
    let e2 = entry_key::<R, I>(R::spec_from_bytes(records[p2]), p2);
    assert(index[e1] == p1 && index[e2] == p2);
}

/// A multi index gives distinct entries to records whose index keys or
/// primary keys differ: its entry key determines both.
pub proof fn lemma_multi_entry_key_injective<IK: Key, PK: Key>(
    k1: IK::V,
    p1: PK::V,
    k2: IK::V,
    p2: PK::V,
)
    requires
        IK::spec_valid(k1),
        IK::spec_valid(k2),
        PK::spec_valid(p1),
        PK::spec_valid(p2),
        Multi::spec_store_key(IK::spec_encode(k1), PK::spec_encode(p1)) == Multi::spec_store_key(
            IK::spec_encode(k2),
            PK::spec_encode(p2),
        ),
    ensures
        k1 == k2,
        p1 == p2,
{
    <(IK, PK) as Key>::lemma_round_trip((k1, p1), Seq::empty());
    <(IK, PK) as Key>::lemma_round_trip((k2, p2), Seq::empty());
    assert(<(IK, PK) as Key>::spec_encode((k1, p1)) + Seq::<u8>::empty() =~= <(IK, PK) as Key>::spec_encode((k1, p1)));
    assert(<(IK, PK) as Key>::spec_encode((k2, p2)) + Seq::<u8>::empty() =~= <(IK, PK) as Key>::spec_encode((k2, p2)));
}

/// Whether two byte strings are equal.
pub fn bytes_eq(a: &[u8], b: &[u8]) -> (r: bool)
    ensures
        r == (a@ == b@),
{
    match crate::lex::compare_bytes(a, b) {
        crate::lex::ByteOrder::Equal => true,
        _ => false,
    }
}

} // verus!
