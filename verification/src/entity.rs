//! Records stored in collections.
use vstd::prelude::*;
use crate::error::CodecError;
use crate::key::Key;
use crate::store::KvView;

verus! {

/// A record stored in a collection: it has a primary key and a byte codec.
///
/// Implementations state, through the spec functions, the primary key of a
/// record, the bytes it serializes to, and the record that bytes deserialize
/// to; the exec functions must agree with them.
pub trait Entity: Sized {
    /// The type of the primary key.
    type Key: Key;

    /// The primary key of the record.
    closed spec fn spec_key(&self) -> <Self::Key as View>::V {
        arbitrary()
    }

    /// The bytes that the record serializes to, when it serializes.
    closed spec fn spec_to_bytes(&self) -> Seq<u8> {
        arbitrary()
    }

    /// The record that `bytes` deserialize to, when they deserialize.
    closed spec fn spec_from_bytes(bytes: Seq<u8>) -> Self {
        arbitrary()
    }

    /// Whether the record serializes.
    closed spec fn spec_serializes(&self) -> bool {
        arbitrary()
    }

    /// Whether `bytes` deserialize to a record.
    closed spec fn spec_deserializes(bytes: Seq<u8>) -> bool {
        arbitrary()
    }

    fn key(&self) -> (k: Self::Key)
        ensures
            k@ == self.spec_key(),
    ;

    fn to_bytes(&self) -> (r: Result<Vec<u8>, CodecError>)
        ensures
            r matches Ok(b) ==> b@ == self.spec_to_bytes(),
            r is Ok <==> self.spec_serializes(),
    ;

    fn from_bytes(bytes: &[u8]) -> (r: Result<Self, CodecError>)
        ensures
            r matches Ok(e) ==> e == Self::spec_from_bytes(bytes@),
            r is Ok <==> Self::spec_deserializes(bytes@),
    ;
}

/// The encoded primary key of a record.
pub open spec fn encoded_pk<R: Entity>(r: R) -> Seq<u8> {
    <R::Key as Key>::spec_encode(r.spec_key())
}

/// The record stored under `pk`, if any.
pub open spec fn stored_record<Record: Entity>(main: KvView, pk: Seq<u8>) -> Option<Record> {
    if main.contains_key(pk) {
        Some(Record::spec_from_bytes(main[pk]))
    } else {
        None
    }
}

} // verus!
