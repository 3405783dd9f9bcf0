//! Errors of collections and of their backends.
use vstd::prelude::*;

verus! {

/// What a collection operation can fail with.
#[derive(Debug)]
pub enum Error {
    /// A record or an index entry with this encoded key already exists.
    AlreadyExists(Vec<u8>),
    /// No record with this encoded primary key exists.
    NotFound(Vec<u8>),
    /// The backend failed.
    Backend(BackendError),
    /// A record could not be serialized or deserialized.
    Codec(CodecError),
    /// The stores are inconsistent with each other.
    Unexpected(String),
}

/// A failure of a key/value backend.
#[derive(Debug)]
pub struct BackendError {
    message: String,
}

impl BackendError {
    pub fn new(message: String) -> (e: Self)
        ensures
            e.message() == message,
    {
        BackendError { message }
    }

    pub closed spec fn message(&self) -> String {
        self.message
    }

    /// The message that describes the failure.
    pub fn to_message(&self) -> (s: &String)
        ensures
            *s == self.message(),
    {
        &self.message
    }
}

/// A failure to serialize or deserialize a record.
#[derive(Debug)]
pub struct CodecError {
    message: String,
}

impl CodecError {
    pub fn new(message: String) -> (e: Self)
        ensures
            e.message() == message,
    {
        CodecError { message }
    }

    pub closed spec fn message(&self) -> String {
        self.message
    }

    /// The message that describes the failure.
    pub fn to_message(&self) -> (s: &String)
        ensures
            *s == self.message(),
    {
        &self.message
    }
}

} // verus!
