//! Iteration over the entries of an index scan, each resolved to its record.
use vstd::prelude::*;
use core::marker::PhantomData;
use crate::entity::Entity;
use crate::error::{BackendError, Error};
use crate::store::{pairs_view, KvView, ReadKVStore};

verus! {

/// A record found by a scan, with the index key under which it was found.
pub struct IndexEntry<Record> {
    pub record: Record,
    pub key: Cursor,
}

/// The encoded index key of a scanned entry, from which a scan can resume.
pub struct Cursor(Vec<u8>);

impl Cursor {
    /// The encoded index key.
    pub closed spec fn bytes(&self) -> Seq<u8> {
        self.0@
    }
}

/// What an index entry resolves to, given the primary store's answer for its
/// primary key: the decoded record with the entry's key as cursor (or the
/// decoder's error), `Unexpected` where no record has that key, and the
/// backend's error where the read failed.
pub fn resolve_entry<Record: Entity>(
    cursor: Vec<u8>,
    answer: Result<Option<Vec<u8>>, BackendError>,
) -> (r: Result<IndexEntry<Record>, Error>)
    ensures
        answer matches Err(e) ==> r == Err::<IndexEntry<Record>, Error>(Error::Backend(e)),
        answer matches Ok(None) ==> r matches Err(Error::Unexpected(_)),
        answer matches Ok(Some(b)) ==> (r matches Ok(en) && en.record == Record::spec_from_bytes(b@)
            && en.key.bytes() == cursor@) || r matches Err(Error::Codec(_)),
        answer matches Ok(Some(b)) ==> (r is Ok <==> Record::spec_deserializes(b@)),
{
    match answer {
        Err(e) => Err(Error::Backend(e)),
        Ok(None) => Err(Error::Unexpected("primary key from index not found".to_owned())),
        Ok(Some(bytes)) => match Record::from_bytes(bytes.as_slice()) {
            Ok(record) => Ok(IndexEntry { record, key: Cursor(cursor) }),
            Err(e) => Err(Error::Codec(e)),
        },
    }
}

/// Walks the entries of an index scan, reading each entry's record from the
/// primary store.
pub struct IndexIterator<Store: ReadKVStore, Record: Entity> {
    inner: Vec<(Vec<u8>, Vec<u8>)>,
    position: usize,
    primary_store: Store,
    _marker: PhantomData<Record>,
}

impl<Store: ReadKVStore, Record: Entity> IndexIterator<Store, Record> {
    /// The scanned index entries: index key and primary key.
    pub closed spec fn entries(&self) -> Seq<(Seq<u8>, Seq<u8>)> {
        pairs_view(self.inner@)
    }

    /// How many entries have been returned.
    pub closed spec fn position(&self) -> nat {
        self.position as nat
    }

    /// The primary store's entries.
    pub closed spec fn primary(&self) -> KvView {
        self.primary_store.entries()
    }

    /// Whether reads of the primary store never fail.
    pub closed spec fn primary_healthy(&self) -> bool {
        self.primary_store.store_healthy()
    }

    pub fn new(inner: Vec<(Vec<u8>, Vec<u8>)>, primary_store: Store) -> (it: Self)
        ensures
            it.entries() == pairs_view(inner@),
            it.position() == 0,
            it.primary() == primary_store.entries(),
            it.primary_healthy() == primary_store.store_healthy(),
    {
        IndexIterator { inner, position: 0, primary_store, _marker: PhantomData }
    }

    /// The next entry's record, or `None` once every entry has been returned.
    ///
    /// An entry whose primary key has no record gives `Error::Unexpected`.
    pub fn next(&mut self) -> (r: Option<Result<IndexEntry<Record>, Error>>)
        ensures
            final(self).entries() == old(self).entries(),
            final(self).primary() == old(self).primary(),
            final(self).primary_healthy() == old(self).primary_healthy(),
            old(self).primary_healthy() ==> !(r matches Some(Err(Error::Backend(_)))),
            old(self).position() >= old(self).entries().len() ==> r is None && final(self).position()
                == old(self).position(),
            old(self).position() < old(self).entries().len() ==> {
                let (cursor, pk) = old(self).entries()[old(self).position() as int];
                &&& final(self).position() == old(self).position() + 1
                &&& r is Some
                &&& r->0 matches Ok(e) ==> old(self).primary().contains_key(pk) && e.record
                    == Record::spec_from_bytes(old(self).primary()[pk]) && e.key.bytes() == cursor
                &&& r->0 matches Err(Error::Unexpected(_)) ==> !old(self).primary().contains_key(pk)
                &&& !old(self).primary().contains_key(pk) ==> r->0 is Err
                &&& (old(self).primary().contains_key(pk) ==> r->0 is Ok || r->0 matches Err(
                    Error::Codec(_),
                ) || r->0 matches Err(Error::Backend(_)))
                &&& (!old(self).primary().contains_key(pk) ==> r->0 matches Err(Error::Unexpected(_))
                    || r->0 matches Err(Error::Backend(_)))
                &&& (r->0 matches Err(Error::Codec(_)) ==> old(self).primary().contains_key(pk)
                    && !Record::spec_deserializes(old(self).primary()[pk]))
                &&& (old(self).primary().contains_key(pk) && Record::spec_deserializes(
                    old(self).primary()[pk],
                ) ==> r->0 is Ok || r->0 matches Err(Error::Backend(_)))
            },
    {
        if self.position >= self.inner.len() {
            return None;
        }
        let ghost i = self.position as int;
        let cursor = vstd::slice::slice_to_vec(self.inner[self.position].0.as_slice());
        let pk = vstd::slice::slice_to_vec(self.inner[self.position].1.as_slice());
        self.position = self.position + 1;
        let item = resolve_entry(cursor, self.primary_store.get(pk.as_slice()));
        Some(item)
    }
}

} // verus!
