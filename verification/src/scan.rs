//! Scans over an index: the range of encoded index keys to read, the
//! direction in which to read it, and the cursor to resume after.
use vstd::prelude::*;
use core::marker::PhantomData;
use core::ops::Range;
use crate::bounds::{in_range, Bound, ScanBound};
use crate::entity::Entity;
use crate::error::Error;
use crate::index::Index;
use crate::iter::IndexIterator;
use crate::key::{lemma_distinct_keys_diverge, Key};
use crate::lex::{
    compare_bytes, lemma_lex_asymmetric, lemma_lex_irreflexive, lex_le, lex_lt, ByteOrder,
};
use crate::store::{
    is_scan_of, lemma_scan_unique, pairs_view, KvView, MultiStore, MultiStoreReadHandle, ReadKVStore,
    StoresView,
};
use crate::prefix::{
    lemma_prefix_bounds_exact, prefix_end, prefix_end_bound, prefix_start_bound, spec_prefix_end,
    Prefix, Prefixable,
};

verus! {

/// The order in which a scan returns its entries.
#[derive(Debug, Clone, Copy, PartialEq, Eq, Structural)]
pub enum Direction {
    LeftToRight,
    RightToLeft,
}

/// Whether the key `k` comes after the cursor `after`, if any, in the
/// direction of a scan.
pub open spec fn past_cursor(k: Seq<u8>, after: Option<Seq<u8>>, direction: Direction) -> bool {
    match after {
        None => true,
        Some(c) => match direction {
            Direction::LeftToRight => lex_lt(c, k),
            Direction::RightToLeft => lex_lt(k, c),
        },
    }
}

/// The entries of `m` whose keys come after the cursor `after`, if any, in
/// the direction of a scan.
pub open spec fn entries_past(m: KvView, after: Option<Seq<u8>>, direction: Direction) -> KvView {
    Map::new(|k: Seq<u8>| m.contains_key(k) && past_cursor(k, after, direction), |k: Seq<u8>| m[k])
}

/// Pages follow each other: resuming a scan after the key of its `n`-th
/// entry gives exactly the entries that follow that entry, in the same order.
pub proof fn law_resume_after_cursor(
    items: Seq<(Seq<u8>, Seq<u8>)>,
    rest: Seq<(Seq<u8>, Seq<u8>)>,
    m: KvView,
    range: (Bound<Seq<u8>>, Bound<Seq<u8>>),
    direction: Direction,
    n: int,
)
    requires
        is_scan_of(items, m, range, direction),
        0 < n <= items.len(),
        is_scan_of(rest, entries_past(m, Some(items[n - 1].0), direction), range, direction),
    ensures
        rest == items.skip(n),
{
    let c = items[n - 1].0;
    let mp = entries_past(m, Some(c), direction);
    let t = items.skip(n);
    assert forall|i: int| 0 <= i < t.len() implies mp.contains_key(#[trigger] t[i].0) && mp[t[i].0]
        == t[i].1 && in_range(t[i].0, range) by {
        assert(t[i] == items[n + i]);
        assert(n - 1 < n + i);
    }
    assert forall|k: Seq<u8>| mp.contains_key(k) && in_range(k, range) implies exists|i: int|
        0 <= i < t.len() && #[trigger] t[i].0 == k by {
        let j = choose|j: int| 0 <= j < items.len() && #[trigger] items[j].0 == k;
        lemma_lex_irreflexive(c);
        lemma_lex_asymmetric(c, k);
        assert(j >= n);
        assert(t[j - n] == items[j]);
    }
    assert forall|i: int, j: int| 0 <= i < j < t.len() implies match direction {
        Direction::LeftToRight => lex_lt(t[i].0, t[j].0),
        Direction::RightToLeft => lex_lt(t[j].0, t[i].0),
    } by {
        assert(t[i] == items[n + i] && t[j] == items[n + j]);
    }
    lemma_scan_unique(rest, t, mp, range, direction);
}

/// Whether `key` comes after `cursor` in the direction.
fn is_past(key: &[u8], cursor: &[u8], direction: Direction) -> (r: bool)
    ensures
        r == past_cursor(key@, Some(cursor@), direction),
{
    let o = match direction {
        Direction::LeftToRight => compare_bytes(cursor, key),
        Direction::RightToLeft => compare_bytes(key, cursor),
    };
    match o {
        ByteOrder::Less => true,
        _ => false,
    }
}

/// Keeps the scanned entries that come after `cursor` in the direction.
fn skip_to_cursor(
    items: Vec<(Vec<u8>, Vec<u8>)>,
    cursor: &[u8],
    direction: Direction,
    Ghost(m): Ghost<KvView>,
    Ghost(rg): Ghost<(Bound<Seq<u8>>, Bound<Seq<u8>>)>,
) -> (r: Vec<(Vec<u8>, Vec<u8>)>)
    requires
        is_scan_of(pairs_view(items@), m, rg, direction),
    ensures
        is_scan_of(pairs_view(r@), entries_past(m, Some(cursor@), direction), rg, direction),
{
    let ghost s = pairs_view(items@);
    let ghost c = Some(cursor@);
    let mut out: Vec<(Vec<u8>, Vec<u8>)> = Vec::new();
    let ghost mut idx: Seq<int> = Seq::empty();
    let mut i: usize = 0;
    while i < items.len()
        invariant
            s == pairs_view(items@),
            c == Some(cursor@),
            is_scan_of(s, m, rg, direction),
            i <= s.len(),
            out@.len() == idx.len(),
            forall|t: int| 0 <= t < idx.len() ==> 0 <= #[trigger] idx[t] < i,
            forall|t: int, u: int| 0 <= t < u < idx.len() ==> #[trigger] idx[t] < #[trigger] idx[u],
            forall|t: int|
                0 <= t < idx.len() ==> (#[trigger] out@[t]).0@ == s[idx[t]].0 && out@[t].1@
                    == s[idx[t]].1 && past_cursor(s[idx[t]].0, c, direction),
            forall|j: int|
                0 <= j < i && past_cursor(#[trigger] s[j].0, c, direction) ==> exists|t: int|
                    0 <= t < idx.len() && idx[t] == j,
        decreases s.len() - i,
    {
        let key = items[i].0.as_slice();
        if is_past(key, cursor, direction) {
            let entry = (
                vstd::slice::slice_to_vec(key),
                vstd::slice::slice_to_vec(items[i].1.as_slice()),
            );
            out.push(entry);
            proof {
                let old_idx = idx;
                idx = idx.push(i as int);
                assert forall|j: int|
                    0 <= j < i + 1 && past_cursor(#[trigger] s[j].0, c, direction) implies exists|
                    t: int,
                | 0 <= t < idx.len() && idx[t] == j by {
                    if j == i {
                        assert(idx[idx.len() - 1] == j);
                    } else {
                        let t = choose|t: int| 0 <= t < old_idx.len() && old_idx[t] == j;
                        assert(idx[t] == j);
                    }
                }
            }
        } else {
            proof {
                assert forall|j: int|
                    0 <= j < i + 1 && past_cursor(#[trigger] s[j].0, c, direction) implies exists|
                    t: int,
                | 0 <= t < idx.len() && idx[t] == j by {
                    if j < i {
                        let t = choose|t: int| 0 <= t < idx.len() && idx[t] == j;
                        assert(idx[t] == j);
                    }
                }
            }
        }
        i = i + 1;
    }
    proof {
        let mp = entries_past(m, c, direction);
        let r = pairs_view(out@);
        assert forall|t: int| 0 <= t < r.len() implies mp.contains_key(#[trigger] r[t].0) && mp[r[t].0]
            == r[t].1 && in_range(r[t].0, rg) by {
            assert(r[t].0 == s[idx[t]].0);
        }
        assert forall|k: Seq<u8>| mp.contains_key(k) && in_range(k, rg) implies exists|t: int|
            0 <= t < r.len() && #[trigger] r[t].0 == k by {
            let j = choose|j: int| 0 <= j < s.len() && #[trigger] s[j].0 == k;
            let t = choose|t: int| 0 <= t < idx.len() && idx[t] == j;
            assert(r[t].0 == k);
        }
        assert forall|t: int, u: int| 0 <= t < u < r.len() implies match direction {
            Direction::LeftToRight => lex_lt(r[t].0, r[u].0),
            Direction::RightToLeft => lex_lt(r[u].0, r[t].0),
        } by {
            assert(idx[t] < idx[u]);
            assert(r[t].0 == s[idx[t]].0 && r[u].0 == s[idx[u]].0);
        }
    }
    out
}

/// A bound given either by a prefix of the stored keys or by a whole key.
pub enum PrefixOrKey<K: Key + Prefixable<P>, P: Prefix> {
    Prefix(P),
    Key(K),
}

impl<K: Key + Prefixable<P>, P: Prefix> PrefixOrKey<K, P> {
    pub open spec fn spec_encode(&self) -> Seq<u8> {
        match self {
            PrefixOrKey::Prefix(p) => p.spec_prefix(),
            PrefixOrKey::Key(k) => K::spec_encode(k@),
        }
    }

    fn encode(&self) -> (out: Vec<u8>)
        ensures
            out@ == self.spec_encode(),
    {
        match self {
            PrefixOrKey::Prefix(p) => p.encode_prefix(),
            PrefixOrKey::Key(k) => k.encode(),
        }
    }
}

/// The range of the keys that start with `prefix`.
pub(crate) fn prefix_bounds(prefix: Vec<u8>) -> (r: (Bound<Vec<u8>>, Bound<Vec<u8>>))
    ensures
        r.0@ == prefix_start_bound(prefix@),
        r.1@ == prefix_end_bound(prefix@),
        forall|s: Seq<u8>| in_range(s, (r.0@, r.1@)) <==> prefix@.is_prefix_of(s),
{
    proof {
        assert forall|s: Seq<u8>| in_range(s, (prefix_start_bound(prefix@), prefix_end_bound(prefix@)))
            <==> prefix@.is_prefix_of(s) by {
            lemma_prefix_bounds_exact(prefix@, s);
        }
    }
    if prefix.len() == 0 {
        return (Bound::Unbounded, Bound::Unbounded);
    }
    let right = prefix_end_of(prefix.as_slice());
    (Bound::Included(prefix), right)
}

/// The first key after all the keys that start with `bytes`.
fn prefix_end_of(bytes: &[u8]) -> (b: Bound<Vec<u8>>)
    ensures
        b@ == spec_prefix_end(bytes@),
{
    let out = vstd::slice::slice_to_vec(bytes);
    prefix_end(out)
}

/// The store that holds a collection's records.
pub const MAIN_STORE: &'static str = "__main";

/// The encoded form of a bound on keys.
pub open spec fn key_bound_bytes<K: Key>(b: Bound<K>) -> Bound<Seq<u8>> {
    match b {
        Bound::Included(k) => Bound::Included(K::spec_encode(k@)),
        Bound::Excluded(k) => Bound::Excluded(K::spec_encode(k@)),
        Bound::Unbounded => Bound::Unbounded,
    }
}

/// The encoded form of a bound on prefixes.
pub open spec fn prefix_bound_bytes<P: Prefix>(b: Bound<P>) -> Bound<Seq<u8>> {
    match b {
        Bound::Included(p) => Bound::Included(p.spec_prefix()),
        Bound::Excluded(p) => Bound::Excluded(p.spec_prefix()),
        Bound::Unbounded => Bound::Unbounded,
    }
}

/// The encoded form of a bound on prefixes or keys.
pub open spec fn prefix_or_key_bound_bytes<K: Key + Prefixable<P>, P: Prefix>(
    b: Bound<PrefixOrKey<K, P>>,
) -> Bound<Seq<u8>> {
    match b {
        Bound::Included(x) => Bound::Included(x.spec_encode()),
        Bound::Excluded(x) => Bound::Excluded(x.spec_encode()),
        Bound::Unbounded => Bound::Unbounded,
    }
}

/// A range of keys reads exactly the byte strings between the keys'
/// encodings: at or after an included start, strictly after an excluded
/// one, and symmetrically at the end; an unbounded end lets everything
/// through.
pub proof fn law_key_range_bytes<K: Key>(start: Bound<K>, end: Bound<K>, k: Seq<u8>)
    ensures
        in_range(k, (key_bound_bytes(start), key_bound_bytes(end))) <==> (match start {
            Bound::Included(x) => K::spec_encode(x@) == k || lex_lt(K::spec_encode(x@), k),
            Bound::Excluded(x) => lex_lt(K::spec_encode(x@), k),
            Bound::Unbounded => true,
        }) && (match end {
            Bound::Included(x) => k == K::spec_encode(x@) || lex_lt(k, K::spec_encode(x@)),
            Bound::Excluded(x) => lex_lt(k, K::spec_encode(x@)),
            Bound::Unbounded => true,
        }),
{
}

/// A range of keys reads exactly the keys between its ends in the keys' own
/// order: a key equal to an included end is read, one equal to an excluded
/// end is not.
pub proof fn law_key_range_order<K: Key>(start: Bound<K>, end: Bound<K>, key: K::V)
    requires
        K::spec_valid(key),
    ensures
        in_range(K::spec_encode(key), (key_bound_bytes(start), key_bound_bytes(end))) <==> (
        match start {
            Bound::Included(x) => x@ == key || K::spec_lt(x@, key),
            Bound::Excluded(x) => K::spec_lt(x@, key),
            Bound::Unbounded => true,
        }) && (match end {
            Bound::Included(x) => key == x@ || K::spec_lt(key, x@),
            Bound::Excluded(x) => K::spec_lt(key, x@),
            Bound::Unbounded => true,
        }),
{
    let ek = K::spec_encode(key);
    match start {
        Bound::Included(x) => {
            K::lemma_key_valid(&x);
            K::lemma_order(x@, key);
            if K::spec_encode(x@) == ek && x@ != key {
                lemma_distinct_keys_diverge::<K>(x@, key);
            }
        },
        Bound::Excluded(x) => {
            K::lemma_key_valid(&x);
            K::lemma_order(x@, key);
        },
        Bound::Unbounded => {},
    }
    match end {
        Bound::Included(x) => {
            K::lemma_key_valid(&x);
            K::lemma_order(key, x@);
            if K::spec_encode(x@) == ek && x@ != key {
                lemma_distinct_keys_diverge::<K>(x@, key);
            }
        },
        Bound::Excluded(x) => {
            K::lemma_key_valid(&x);
            K::lemma_order(key, x@);
        },
        Bound::Unbounded => {},
    }
}

/// A range of prefixes reads exactly the byte strings between the prefixes'
/// bytes: at or after an included start, strictly after an excluded one, and
/// symmetrically at the end.
pub proof fn law_prefix_range_bytes<P: Prefix>(start: Bound<P>, end: Bound<P>, k: Seq<u8>)
    ensures
        in_range(k, (prefix_bound_bytes(start), prefix_bound_bytes(end))) <==> (match start {
            Bound::Included(p) => p.spec_prefix() == k || lex_lt(p.spec_prefix(), k),
            Bound::Excluded(p) => lex_lt(p.spec_prefix(), k),
            Bound::Unbounded => true,
        }) && (match end {
            Bound::Included(p) => k == p.spec_prefix() || lex_lt(k, p.spec_prefix()),
            Bound::Excluded(p) => lex_lt(k, p.spec_prefix()),
            Bound::Unbounded => true,
        }),
{
}

fn encode_key_bound<K: Key>(b: Bound<K>) -> (r: ScanBound)
    ensures
        r@ == key_bound_bytes(b),
{
    match b {
        Bound::Included(k) => Bound::Included(k.encode()),
        Bound::Excluded(k) => Bound::Excluded(k.encode()),
        Bound::Unbounded => Bound::Unbounded,
    }
}

fn encode_prefix_bound<P: Prefix>(b: Bound<P>) -> (r: ScanBound)
    ensures
        r@ == prefix_bound_bytes(b),
{
    match b {
        Bound::Included(p) => Bound::Included(p.encode_prefix()),
        Bound::Excluded(p) => Bound::Excluded(p.encode_prefix()),
        Bound::Unbounded => Bound::Unbounded,
    }
}

fn encode_prefix_or_key_bound<K: Key + Prefixable<P>, P: Prefix>(b: Bound<PrefixOrKey<K, P>>) -> (r:
    ScanBound)
    ensures
        r@ == prefix_or_key_bound_bytes(b),
{
    match b {
        Bound::Included(x) => Bound::Included(x.encode()),
        Bound::Excluded(x) => Bound::Excluded(x.encode()),
        Bound::Unbounded => Bound::Unbounded,
    }
}

/// A scan over the index `Idx` of a collection of `Record`s: a range of
/// encoded index keys, a direction and a cursor, over the backend `db`. It
/// reads nothing until it is iterated.
pub struct IndexScan<'a, DB: MultiStore, Record: Entity, Idx: Index<Record>> {
    collection_name: &'static str,
    db: &'a DB,
    left: ScanBound,
    right: ScanBound,
    direction: Direction,
    after: Option<Vec<u8>>,
    _marker: PhantomData<(Record, Idx)>,
}

impl<'a, DB: MultiStore, Record: Entity, Idx: Index<Record>> IndexScan<'a, DB, Record, Idx> {
    /// The collection whose index is scanned.
    pub closed spec fn spec_collection_name(&self) -> Seq<char> {
        self.collection_name@
    }

    /// The collection's stores that the scan reads once iterated.
    pub closed spec fn spec_stores(&self) -> StoresView {
        self.db.namespaces()[self.collection_name@]
    }

    /// Whether the backend holds the collection's namespace.
    pub closed spec fn spec_opened(&self) -> bool {
        self.db.namespaces().contains_key(self.collection_name@)
    }

    /// Whether the backend's operations never fail.
    pub closed spec fn spec_healthy(&self) -> bool {
        self.db.backend_healthy()
    }

    /// The range of encoded index keys to read.
    pub closed spec fn spec_range(&self) -> (Bound<Seq<u8>>, Bound<Seq<u8>>) {
        (self.left@, self.right@)
    }

    /// The order in which to read.
    pub closed spec fn spec_direction(&self) -> Direction {
        self.direction
    }

    /// The encoded cursor to resume after, if any.
    pub closed spec fn spec_after(&self) -> Option<Seq<u8>> {
        match self.after {
            Some(c) => Some(c@),
            None => None,
        }
    }

    /// A scan of the whole index, left to right.
    pub fn new(collection_name: &'static str, db: &'a DB) -> (s: Self)
        ensures
            s.spec_collection_name() == collection_name@,
            s.spec_stores() == db.namespaces()[collection_name@],
            s.spec_opened() == db.namespaces().contains_key(collection_name@),
            s.spec_healthy() == db.backend_healthy(),
            s.spec_range() == (Bound::<Seq<u8>>::Unbounded, Bound::<Seq<u8>>::Unbounded),
            s.spec_direction() == Direction::LeftToRight,
            s.spec_after() is None,
    {
        IndexScan {
            collection_name,
            db,
            left: Bound::Unbounded,
            right: Bound::Unbounded,
            direction: Direction::LeftToRight,
            after: None,
            _marker: PhantomData,
        }
    }

    /// Restricts the scan to the index keys between two keys.
    pub fn range<K: Key>(self, range: Range<Bound<K>>) -> (s: Self)
        ensures
            s.spec_range() == (key_bound_bytes(range.start), key_bound_bytes(range.end)),
            forall|k: Seq<u8>|
                #![trigger in_range(k, s.spec_range())]
                in_range(k, s.spec_range()) <==> (match range.start {
                    Bound::Included(x) => lex_le(K::spec_encode(x@), k),
                    Bound::Excluded(x) => lex_lt(K::spec_encode(x@), k),
                    Bound::Unbounded => true,
                }) && (match range.end {
                    Bound::Included(x) => lex_le(k, K::spec_encode(x@)),
                    Bound::Excluded(x) => lex_lt(k, K::spec_encode(x@)),
                    Bound::Unbounded => true,
                }),
            s.spec_collection_name() == self.spec_collection_name(),
            s.spec_stores() == self.spec_stores(),
            s.spec_direction() == self.spec_direction(),
            s.spec_after() == self.spec_after(),
            s.spec_opened() == self.spec_opened(),
            s.spec_healthy() == self.spec_healthy(),
    {
        let mut s = self;
        s.left = encode_key_bound(range.start);
        s.right = encode_key_bound(range.end);
        s
    }

    /// Sets the order in which to read.
    pub fn direction(self, direction: Direction) -> (s: Self)
        ensures
            s.spec_direction() == direction,
            s.spec_collection_name() == self.spec_collection_name(),
            s.spec_stores() == self.spec_stores(),
            s.spec_range() == self.spec_range(),
            s.spec_after() == self.spec_after(),
            s.spec_opened() == self.spec_opened(),
            s.spec_healthy() == self.spec_healthy(),
    {
        let mut s = self;
        s.direction = direction;
        s
    }

    /// Sets the cursor to resume after: the scan then returns only the
    /// entries whose keys come after the encoded cursor in its direction.
    pub fn after<K: Key>(self, cursor: K) -> (s: Self)
        ensures
            s.spec_after() == Some(K::spec_encode(cursor@)),
            s.spec_collection_name() == self.spec_collection_name(),
            s.spec_stores() == self.spec_stores(),
            s.spec_range() == self.spec_range(),
            s.spec_direction() == self.spec_direction(),
            s.spec_opened() == self.spec_opened(),
            s.spec_healthy() == self.spec_healthy(),
    {
        let mut s = self;
        s.after = Some(cursor.encode());
        s
    }

    /// Reads the index entries in the range that come after the cursor, if
    /// any, in the scan's direction, and walks them, resolving each to its
    /// record.
    pub fn iter(self) -> (r: Result<
        IndexIterator<<DB::ReadHandle as MultiStoreReadHandle>::Store, Record>,
        Error,
    >)
        requires
            self.spec_opened(),
            self.spec_stores().contains_key(Idx::spec_name()),
            self.spec_stores().contains_key(MAIN_STORE@),
        ensures
            r matches Ok(it) ==> {
                &&& is_scan_of(
                    it.entries(),
                    entries_past(
                        self.spec_stores()[Idx::spec_name()],
                        self.spec_after(),
                        self.spec_direction(),
                    ),
                    self.spec_range(),
                    self.spec_direction(),
                )
                &&& it.position() == 0
                &&& it.primary() == self.spec_stores()[MAIN_STORE@]
            },
            r is Err ==> r matches Err(Error::Backend(_)),
            self.spec_healthy() ==> r is Ok,
            r matches Ok(it) ==> it.primary_healthy() == self.spec_healthy(),
    {
        let IndexScan { collection_name, db, left, right, direction, after, _marker } = self;
        let read_handle = match db.read(collection_name) {
            Ok(h) => h,
            Err(e) => {
                return Err(Error::Backend(e));
            },
        };
        let index_store = match read_handle.open_store(Idx::name()) {
            Ok(s) => s,
            Err(e) => {
                return Err(Error::Backend(e));
            },
        };
        let ghost rg = (left@, right@);
        let ghost m = index_store.entries();
        let entries = match index_store.scan((left, right), direction) {
            Ok(items) => items,
            Err(e) => {
                return Err(Error::Backend(e));
            },
        };
        let entries = match after {
            None => {
                assert(entries_past(m, None, direction) =~= m);
                entries
            },
            Some(cursor) => skip_to_cursor(entries, cursor.as_slice(), direction, Ghost(m), Ghost(rg)),
        };
        let primary = match read_handle.open_store(MAIN_STORE) {
            Ok(s) => s,
            Err(e) => {
                return Err(Error::Backend(e));
            },
        };
        Ok(IndexIterator::new(entries, primary))
    }
}

/// Scans that can be restricted by prefixes of the stored index keys.
pub trait PrefixScan<StoredKey: Key + Prefixable<KeyPrefix>, KeyPrefix: Prefix>: Sized {
    /// The range of encoded keys that the scan reads.
    spec fn spec_scan_range(&self) -> (Bound<Seq<u8>>, Bound<Seq<u8>>);

    /// What the scan reads besides its range: the collection, its stores,
    /// whether the backend holds them, whether the backend never fails, the
    /// direction and the cursor to resume after.
    spec fn spec_settings(&self) -> (Seq<char>, StoresView, bool, bool, Direction, Option<Seq<u8>>);

    /// Restricts the scan to the keys that start with `prefix`.
    fn prefix(self, prefix: KeyPrefix) -> (s: Self)
        ensures
            forall|k: Seq<u8>| in_range(k, s.spec_scan_range()) <==> prefix.spec_prefix().is_prefix_of(k),
            s.spec_settings() == self.spec_settings(),
    ;

    /// Restricts the scan to the keys between two prefixes' bytes.
    fn prefix_range(self, range: Range<Bound<KeyPrefix>>) -> (s: Self)
        ensures
            s.spec_scan_range() == (prefix_bound_bytes(range.start), prefix_bound_bytes(range.end)),
            forall|k: Seq<u8>|
                #![trigger in_range(k, s.spec_scan_range())]
                in_range(k, s.spec_scan_range()) <==> (match range.start {
                    Bound::Included(p) => lex_le(p.spec_prefix(), k),
                    Bound::Excluded(p) => lex_lt(p.spec_prefix(), k),
                    Bound::Unbounded => true,
                }) && (match range.end {
                    Bound::Included(p) => lex_le(k, p.spec_prefix()),
                    Bound::Excluded(p) => lex_lt(k, p.spec_prefix()),
                    Bound::Unbounded => true,
                }),
            s.spec_settings() == self.spec_settings(),
    ;

    /// Restricts the scan to the keys between two prefixes or keys.
    fn range(self, range: Range<Bound<PrefixOrKey<StoredKey, KeyPrefix>>>) -> (s: Self)
        ensures
            s.spec_scan_range() == (
                prefix_or_key_bound_bytes(range.start),
                prefix_or_key_bound_bytes(range.end),
            ),
            forall|k: Seq<u8>|
                #![trigger in_range(k, s.spec_scan_range())]
                in_range(k, s.spec_scan_range()) <==> (match range.start {
                    Bound::Included(x) => lex_le(x.spec_encode(), k),
                    Bound::Excluded(x) => lex_lt(x.spec_encode(), k),
                    Bound::Unbounded => true,
                }) && (match range.end {
                    Bound::Included(x) => lex_le(k, x.spec_encode()),
                    Bound::Excluded(x) => lex_lt(k, x.spec_encode()),
                    Bound::Unbounded => true,
                }),
            s.spec_settings() == self.spec_settings(),
    ;
}

impl<
    'a,
    DB: MultiStore,
    Record: Entity,
    Idx: Index<Record>,
    KeyPrefix: Prefix,
> PrefixScan<Idx::Key, KeyPrefix> for IndexScan<'a, DB, Record, Idx> where
    Idx::Key: Prefixable<KeyPrefix>,
 {
    open spec fn spec_scan_range(&self) -> (Bound<Seq<u8>>, Bound<Seq<u8>>) {
        self.spec_range()
    }

    open spec fn spec_settings(&self) -> (Seq<char>, StoresView, bool, bool, Direction, Option<Seq<u8>>) {
        (
            self.spec_collection_name(),
            self.spec_stores(),
            self.spec_opened(),
            self.spec_healthy(),
            self.spec_direction(),
            self.spec_after(),
        )
    }

    fn prefix(self, prefix: KeyPrefix) -> (s: Self) {
        let mut s = self;
        let (left, right) = prefix_bounds(prefix.encode_prefix());
        s.left = left;
        s.right = right;
        s
    }

    fn prefix_range(self, range: Range<Bound<KeyPrefix>>) -> (s: Self) {
        let mut s = self;
        s.left = encode_prefix_bound(range.start);
        s.right = encode_prefix_bound(range.end);
        s
    }

    fn range(self, range: Range<Bound<PrefixOrKey<Idx::Key, KeyPrefix>>>) -> (s: Self) {
        let mut s = self;
        s.left = encode_prefix_or_key_bound(range.start);
        s.right = encode_prefix_or_key_bound(range.end);
        s
    }
}

} // verus!
