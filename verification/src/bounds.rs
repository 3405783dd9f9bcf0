//! Bounds of key ranges, and the byte-string ranges that scans read.
use vstd::prelude::*;
use crate::key::Key;
use crate::lex::{compare_bytes, lex_le, lex_lt, ByteOrder};
use crate::prefix::{prefix_end_bound, prefix_start_bound, Prefix, Prefixable};
use crate::scan::PrefixOrKey;

verus! {

/// One end of a range.
#[derive(Debug, Clone, PartialEq, Eq)]
pub enum Bound<T> {
    Included(T),
    Excluded(T),
    Unbounded,
}

impl<T: View> View for Bound<T> {
    type V = Bound<T::V>;

    open spec fn view(&self) -> Bound<T::V> {
        match self {
            Bound::Included(t) => Bound::Included(t@),
            Bound::Excluded(t) => Bound::Excluded(t@),
            Bound::Unbounded => Bound::Unbounded,
        }
    }
}

/// A bound on encoded keys.
pub type ScanBound = Bound<Vec<u8>>;

/// A range of encoded keys: its start and its end.
pub type ScanRange = (ScanBound, ScanBound);

/// `s` lies at or after the start bound `b`.
pub open spec fn after_start(s: Seq<u8>, b: Bound<Seq<u8>>) -> bool {
    match b {
        Bound::Included(x) => lex_le(x, s),
        Bound::Excluded(x) => lex_lt(x, s),
        Bound::Unbounded => true,
    }
}

/// `s` lies at or before the end bound `b`.
pub open spec fn before_end(s: Seq<u8>, b: Bound<Seq<u8>>) -> bool {
    match b {
        Bound::Included(x) => lex_le(s, x),
        Bound::Excluded(x) => lex_lt(s, x),
        Bound::Unbounded => true,
    }
}

/// `s` lies within the range.
pub open spec fn in_range(s: Seq<u8>, range: (Bound<Seq<u8>>, Bound<Seq<u8>>)) -> bool {
    after_start(s, range.0) && before_end(s, range.1)
}

/// Whether `key` lies at or after the start bound `b`.
pub fn key_after_start(key: &[u8], b: &ScanBound) -> (r: bool)
    ensures
        r == after_start(key@, b@),
{
    match b {
        Bound::Included(x) => match compare_bytes(x.as_slice(), key) {
            ByteOrder::Greater => false,
            _ => true,
        },
        Bound::Excluded(x) => match compare_bytes(x.as_slice(), key) {
            ByteOrder::Less => true,
            _ => false,
        },
        Bound::Unbounded => true,
    }
}

/// Whether `key` lies at or before the end bound `b`.
pub fn key_before_end(key: &[u8], b: &ScanBound) -> (r: bool)
    ensures
        r == before_end(key@, b@),
{
    match b {
        Bound::Included(x) => match compare_bytes(key, x.as_slice()) {
            ByteOrder::Greater => false,
            _ => true,
        },
        Bound::Excluded(x) => match compare_bytes(key, x.as_slice()) {
            ByteOrder::Less => true,
            _ => false,
        },
        Bound::Unbounded => true,
    }
}

/// The start bound that a bound on prefixes gives on encoded keys.
pub open spec fn spec_start_of(b: Bound<Seq<u8>>) -> Bound<Seq<u8>> {
    match b {
        Bound::Included(p) => prefix_start_bound(p),
        Bound::Excluded(p) => prefix_end_bound(p),
        Bound::Unbounded => Bound::Unbounded,
    }
}

/// The end bound that a bound on prefixes gives on encoded keys.
pub open spec fn spec_end_of(b: Bound<Seq<u8>>) -> Bound<Seq<u8>> {
    match b {
        Bound::Included(p) => prefix_end_bound(p),
        Bound::Excluded(p) => match prefix_start_bound(p) {
            Bound::Included(x) => Bound::Excluded(x),
            Bound::Excluded(x) => Bound::Excluded(x),
            Bound::Unbounded => Bound::Unbounded,
        },
        Bound::Unbounded => Bound::Unbounded,
    }
}

/// Turns a bound on prefixes or keys into bounds on encoded keys.
pub trait IntoScanBounds {
    /// The bound's own bytes: a prefix's bytes, or an encoded key.
    spec fn spec_bound_bytes(&self) -> Bound<Seq<u8>>;

    /// The start bound on encoded keys.
    spec fn spec_start_bound(&self) -> Bound<Seq<u8>>;

    /// The end bound on encoded keys.
    spec fn spec_end_bound(&self) -> Bound<Seq<u8>>;

    fn start_bound(&self) -> (b: ScanBound)
        ensures
            b@ == self.spec_start_bound(),
    ;

    fn end_bound(&self) -> (b: ScanBound)
        ensures
            b@ == self.spec_end_bound(),
    ;
}

impl<P: Prefix> IntoScanBounds for Bound<P> {
    open spec fn spec_bound_bytes(&self) -> Bound<Seq<u8>> {
        match self {
            Bound::Included(p) => Bound::Included(p.spec_prefix()),
            Bound::Excluded(p) => Bound::Excluded(p.spec_prefix()),
            Bound::Unbounded => Bound::Unbounded,
        }
    }

    open spec fn spec_start_bound(&self) -> Bound<Seq<u8>> {
        spec_start_of(self.spec_bound_bytes())
    }

    open spec fn spec_end_bound(&self) -> Bound<Seq<u8>> {
        spec_end_of(self.spec_bound_bytes())
    }

    fn start_bound(&self) -> (b: ScanBound) {
        match self {
            Bound::Included(prefix) => prefix.start_bound(),
            Bound::Excluded(prefix) => prefix.end_bound(),
            Bound::Unbounded => Bound::Unbounded,
        }
    }

    fn end_bound(&self) -> (b: ScanBound) {
        match self {
            Bound::Included(prefix) => prefix.end_bound(),
            Bound::Excluded(prefix) => match prefix.start_bound() {
                Bound::Included(bytes) => Bound::Excluded(bytes),
                Bound::Excluded(bytes) => Bound::Excluded(bytes),
                Bound::Unbounded => Bound::Unbounded,
            },
            Bound::Unbounded => Bound::Unbounded,
        }
    }
}

impl<K: Key + Prefixable<P>, P: Prefix> IntoScanBounds for Bound<PrefixOrKey<K, P>> {
    open spec fn spec_bound_bytes(&self) -> Bound<Seq<u8>> {
        match self {
            Bound::Included(x) => Bound::Included(x.spec_encode()),
            Bound::Excluded(x) => Bound::Excluded(x.spec_encode()),
            Bound::Unbounded => Bound::Unbounded,
        }
    }

    open spec fn spec_start_bound(&self) -> Bound<Seq<u8>> {
        match self {
            Bound::Included(PrefixOrKey::Key(k)) => Bound::Included(K::spec_encode(k@)),
            Bound::Excluded(PrefixOrKey::Key(k)) => Bound::Excluded(K::spec_encode(k@)),
            _ => spec_start_of(self.spec_bound_bytes()),
        }
    }

    open spec fn spec_end_bound(&self) -> Bound<Seq<u8>> {
        match self {
            Bound::Included(PrefixOrKey::Key(k)) => Bound::Included(K::spec_encode(k@)),
            Bound::Excluded(PrefixOrKey::Key(k)) => Bound::Excluded(K::spec_encode(k@)),
            _ => spec_end_of(self.spec_bound_bytes()),
        }
    }

    fn start_bound(&self) -> (b: ScanBound) {
        match self {
            Bound::Included(PrefixOrKey::Prefix(prefix)) => prefix.start_bound(),
            Bound::Excluded(PrefixOrKey::Prefix(prefix)) => prefix.end_bound(),
            Bound::Included(PrefixOrKey::Key(key)) => Bound::Included(key.encode()),
            Bound::Excluded(PrefixOrKey::Key(key)) => Bound::Excluded(key.encode()),
            Bound::Unbounded => Bound::Unbounded,
        }
    }

    fn end_bound(&self) -> (b: ScanBound) {
        match self {
            Bound::Included(PrefixOrKey::Prefix(prefix)) => prefix.end_bound(),
            Bound::Excluded(PrefixOrKey::Prefix(prefix)) => match prefix.start_bound() {
                Bound::Included(bytes) => Bound::Excluded(bytes),
                Bound::Excluded(bytes) => Bound::Excluded(bytes),
                Bound::Unbounded => Bound::Unbounded,
            },
            Bound::Included(PrefixOrKey::Key(key)) => Bound::Included(key.encode()),
            Bound::Excluded(PrefixOrKey::Key(key)) => Bound::Excluded(key.encode()),
            Bound::Unbounded => Bound::Unbounded,
        }
    }
}

} // verus!
