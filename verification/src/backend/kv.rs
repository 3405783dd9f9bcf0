//! An ordered key/value store kept in memory: its entries sorted by key.
use vstd::prelude::*;
use crate::bounds::{in_range, key_after_start, key_before_end, ScanRange};
use crate::lex::{
    compare_bytes, lex_lt, lemma_lex_asymmetric, lemma_lex_irreflexive, lemma_lex_total,
    lemma_lex_transitive, ByteOrder,
};
use crate::backend::named::Duplicate;
use crate::scan::Direction;
use crate::store::{is_scan_of, lookup, opt_bytes, pairs_view, KvView};

verus! {

/// Keys in strictly increasing order.
pub open spec fn keys_sorted(s: Seq<(Vec<u8>, Vec<u8>)>) -> bool {
    forall|i: int, j: int|
        0 <= i < j < s.len() ==> lex_lt(#[trigger] s[i].0@, #[trigger] s[j].0@)
}

/// A position of the key `k`.
spec fn key_index(s: Seq<(Vec<u8>, Vec<u8>)>, k: Seq<u8>) -> int {
    choose|i: int| 0 <= i < s.len() && #[trigger] s[i].0@ == k
}

/// The map that sorted entries stand for.
pub closed spec fn entries_map(s: Seq<(Vec<u8>, Vec<u8>)>) -> KvView {
    Map::new(
        |k: Seq<u8>| exists|i: int| 0 <= i < s.len() && #[trigger] s[i].0@ == k,
        |k: Seq<u8>| s[key_index(s, k)].1@,
    )
}

proof fn lemma_sorted_distinct(s: Seq<(Vec<u8>, Vec<u8>)>, i: int, j: int)
    requires
        keys_sorted(s),
        0 <= i < s.len(),
        0 <= j < s.len(),
        i != j,
    ensures
        s[i].0@ != s[j].0@,
{
    lemma_lex_irreflexive(s[i].0@);
    if i < j {
        assert(lex_lt(s[i].0@, s[j].0@));
    } else {
        assert(lex_lt(s[j].0@, s[i].0@));
    }
}

proof fn lemma_entry_in_map(s: Seq<(Vec<u8>, Vec<u8>)>, i: int)
    requires
        keys_sorted(s),
        0 <= i < s.len(),
    ensures
        entries_map(s).contains_key(s[i].0@),
        entries_map(s)[s[i].0@] == s[i].1@,
{
    let k = s[i].0@;
    assert(s[i].0@ == k);
    let j = key_index(s, k);
    if j != i {
        lemma_sorted_distinct(s, i, j);
    }
}

proof fn lemma_map_absent(s: Seq<(Vec<u8>, Vec<u8>)>, k: Seq<u8>)
    requires
        forall|i: int| 0 <= i < s.len() ==> #[trigger] s[i].0@ != k,
    ensures
        !entries_map(s).contains_key(k),
{
}

proof fn lemma_map_replace(s: Seq<(Vec<u8>, Vec<u8>)>, p: int, e: (Vec<u8>, Vec<u8>))
    requires
        keys_sorted(s),
        0 <= p < s.len(),
        s[p].0@ == e.0@,
    ensures
        keys_sorted(s.update(p, e)),
        entries_map(s.update(p, e)) == entries_map(s).insert(e.0@, e.1@),
{
    let t = s.update(p, e);
    assert(keys_sorted(t)) by {
        assert forall|i: int, j: int| 0 <= i < j < t.len() implies lex_lt(
            #[trigger] t[i].0@,
            #[trigger] t[j].0@,
        ) by {
            assert(s[i].0@ == t[i].0@ && s[j].0@ == t[j].0@);
        }
    }
    assert forall|k: Seq<u8>| #[trigger] entries_map(t).contains_key(k) <==> entries_map(s).insert(
        e.0@,
        e.1@,
    ).contains_key(k) by {
        if entries_map(s).contains_key(k) {
            let j = choose|j: int| 0 <= j < s.len() && #[trigger] s[j].0@ == k;
            assert(t[j].0@ == k);
        }
        if entries_map(t).contains_key(k) {
            let j = choose|j: int| 0 <= j < t.len() && #[trigger] t[j].0@ == k;
            assert(s[j].0@ == k);
        }
        if k == e.0@ {
            assert(t[p].0@ == k);
        }
    }
    assert forall|k: Seq<u8>| #[trigger] entries_map(t).contains_key(k) implies entries_map(t)[k]
        == entries_map(s).insert(e.0@, e.1@)[k] by {
        let j = choose|j: int| 0 <= j < t.len() && #[trigger] t[j].0@ == k;
        lemma_entry_in_map(t, j);
        if j != p {
            assert(t[j] == s[j]);
            lemma_entry_in_map(s, j);
            lemma_sorted_distinct(s, j, p);
        }
    }
    assert(entries_map(t) =~= entries_map(s).insert(e.0@, e.1@));
}

proof fn lemma_map_insert(s: Seq<(Vec<u8>, Vec<u8>)>, p: int, e: (Vec<u8>, Vec<u8>))
    requires
        keys_sorted(s),
        0 <= p <= s.len(),
        forall|j: int| 0 <= j < p ==> lex_lt(#[trigger] s[j].0@, e.0@),
        p < s.len() ==> lex_lt(e.0@, s[p].0@),
    ensures
        keys_sorted(s.insert(p, e)),
        entries_map(s.insert(p, e)) == entries_map(s).insert(e.0@, e.1@),
{
    let t = s.insert(p, e);
    assert forall|i: int, j: int| 0 <= i < j < t.len() implies lex_lt(
        #[trigger] t[i].0@,
        #[trigger] t[j].0@,
    ) by {
        if j < p {
            assert(t[i] == s[i] && t[j] == s[j]);
        } else if j == p {
            assert(t[i] == s[i]);
        } else if i == p {
            assert(t[j] == s[j - 1]);
            if j - 1 > p {
                assert(lex_lt(s[p].0@, s[j - 1].0@));
                lemma_lex_transitive(e.0@, s[p].0@, s[j - 1].0@);
            }
        } else if i < p {
            assert(t[i] == s[i] && t[j] == s[j - 1]);
            if j - 1 != i {
            }
        } else {
            assert(t[i] == s[i - 1] && t[j] == s[j - 1]);
        }
    }
    assert forall|k: Seq<u8>| #[trigger] entries_map(t).contains_key(k) <==> entries_map(s).insert(
        e.0@,
        e.1@,
    ).contains_key(k) by {
        if entries_map(s).contains_key(k) {
            let j = choose|j: int| 0 <= j < s.len() && #[trigger] s[j].0@ == k;
            if j < p {
                assert(t[j].0@ == k);
            } else {
                assert(t[j + 1].0@ == k);
            }
        }
        if entries_map(t).contains_key(k) && k != e.0@ {
            let j = choose|j: int| 0 <= j < t.len() && #[trigger] t[j].0@ == k;
            if j < p {
                assert(s[j].0@ == k);
            } else {
                assert(j != p);
                assert(s[j - 1].0@ == k);
            }
        }
        if k == e.0@ {
            assert(t[p].0@ == k);
        }
    }
    assert(keys_sorted(t));
    assert forall|k: Seq<u8>| #[trigger] entries_map(t).contains_key(k) implies entries_map(t)[k]
        == entries_map(s).insert(e.0@, e.1@)[k] by {
        let j = choose|j: int| 0 <= j < t.len() && #[trigger] t[j].0@ == k;
        lemma_entry_in_map(t, j);
        if j < p {
            assert(t[j] == s[j]);
            lemma_entry_in_map(s, j);
            lemma_sorted_distinct(t, j, p);
        } else if j > p {
            assert(t[j] == s[j - 1]);
            lemma_entry_in_map(s, j - 1);
            lemma_sorted_distinct(t, p, j);
        }
    }
    assert(entries_map(t) =~= entries_map(s).insert(e.0@, e.1@));
}

proof fn lemma_map_remove(s: Seq<(Vec<u8>, Vec<u8>)>, p: int)
    requires
        keys_sorted(s),
        0 <= p < s.len(),
    ensures
        keys_sorted(s.remove(p)),
        entries_map(s.remove(p)) == entries_map(s).remove(s[p].0@),
{
    let t = s.remove(p);
    let k0 = s[p].0@;
    assert forall|i: int, j: int| 0 <= i < j < t.len() implies lex_lt(
        #[trigger] t[i].0@,
        #[trigger] t[j].0@,
    ) by {
        let i0 = if i < p { i } else { i + 1 };
        let j0 = if j < p { j } else { j + 1 };
        assert(t[i] == s[i0] && t[j] == s[j0]);
    }
    assert forall|k: Seq<u8>| #[trigger] entries_map(t).contains_key(k) <==> entries_map(
        s,
    ).remove(k0).contains_key(k) by {
        if entries_map(t).contains_key(k) {
            let j = choose|j: int| 0 <= j < t.len() && #[trigger] t[j].0@ == k;
            let j0 = if j < p { j } else { j + 1 };
            assert(s[j0].0@ == k);
            lemma_sorted_distinct(s, j0, p);
        }
        if entries_map(s).remove(k0).contains_key(k) {
            let j0 = choose|j: int| 0 <= j < s.len() && #[trigger] s[j].0@ == k;
            assert(j0 != p);
            let j = if j0 < p { j0 } else { j0 - 1 };
            assert(t[j].0@ == k);
        }
    }
    assert(keys_sorted(t));
    assert forall|k: Seq<u8>| #[trigger] entries_map(t).contains_key(k) implies entries_map(t)[k]
        == entries_map(s).remove(k0)[k] by {
        let j = choose|j: int| 0 <= j < t.len() && #[trigger] t[j].0@ == k;
        let j0 = if j < p { j } else { j + 1 };
        lemma_entry_in_map(t, j);
        lemma_entry_in_map(s, j0);
    }
    assert(entries_map(t) =~= entries_map(s).remove(k0));
}

/// A copy of a byte string.
fn copy_bytes(v: &Vec<u8>) -> (r: Vec<u8>)
    ensures
        r@ == v@,
{
    vstd::slice::slice_to_vec(v.as_slice())
}

/// An ordered store: its entries sorted by key, each key once.
pub struct KVStore {
    entries: Vec<(Vec<u8>, Vec<u8>)>,
}

impl View for KVStore {
    type V = KvView;

    closed spec fn view(&self) -> KvView {
        entries_map(self.entries@)
    }
}

impl KVStore {
    #[verifier::type_invariant]
    spec fn wf(self) -> bool {
        keys_sorted(self.entries@)
    }

    /// An empty store.
    pub fn new() -> (s: Self)
        ensures
            s@ == Map::<Seq<u8>, Seq<u8>>::empty(),
    {
        let s = KVStore { entries: Vec::new() };
        assert(entries_map(s.entries@) =~= Map::<Seq<u8>, Seq<u8>>::empty());
        s
    }

    /// The position of the first entry whose key is not below `key`, and
    /// whether its key is `key`.
    fn find(&self, key: &[u8]) -> (r: (bool, usize))
        ensures
            r.1 <= self.entries@.len(),
            forall|j: int| 0 <= j < r.1 ==> lex_lt(#[trigger] self.entries@[j].0@, key@),
            r.0 ==> r.1 < self.entries@.len() && self.entries@[r.1 as int].0@ == key@,
            !r.0 ==> (r.1 < self.entries@.len() ==> lex_lt(key@, self.entries@[r.1 as int].0@)),
    {
        let mut i: usize = 0;
        while i < self.entries.len()
            invariant
                i <= self.entries@.len(),
                forall|j: int| 0 <= j < i ==> lex_lt(#[trigger] self.entries@[j].0@, key@),
            decreases self.entries@.len() - i,
        {
            match compare_bytes(self.entries[i].0.as_slice(), key) {
                ByteOrder::Less => {},
                ByteOrder::Equal => {
                    return (true, i);
                },
                ByteOrder::Greater => {
                    return (false, i);
                },
            }
            i = i + 1;
        }
        (false, i)
    }

    /// The value stored under `key`, if any.
    pub fn get(&self, key: &[u8]) -> (r: Option<Vec<u8>>)
        ensures
            opt_bytes(r) == lookup(self@, key@),
    {
        proof {
            use_type_invariant(self);
        }
        let (found, pos) = self.find(key);
        if found {
            proof {
                lemma_entry_in_map(self.entries@, pos as int);
            }
            Some(copy_bytes(&self.entries[pos].1))
        } else {
            proof {
                assert forall|i: int| 0 <= i < self.entries@.len() implies #[trigger] self.entries@[i].0@
                    != key@ by {
                    lemma_lex_irreflexive(key@);
                    if i >= pos {
                        if i > pos {
                            assert(lex_lt(self.entries@[pos as int].0@, self.entries@[i].0@));
                            lemma_lex_transitive(key@, self.entries@[pos as int].0@, self.entries@[i].0@);
                        }
                    }
                }
                lemma_map_absent(self.entries@, key@);
            }
            None
        }
    }

    /// Stores `value` under `key`.
    pub fn set(&mut self, key: &[u8], value: &[u8])
        ensures
            final(self)@ == old(self)@.insert(key@, value@),
    {
        proof {
            use_type_invariant(&*self);
        }
        let (found, pos) = self.find(key);
        let entry = (vstd::slice::slice_to_vec(key), vstd::slice::slice_to_vec(value));
        let mut entries: Vec<(Vec<u8>, Vec<u8>)> = Vec::new();
        std::mem::swap(&mut entries, &mut self.entries);
        let ghost old_entries = entries@;
        if found {
            proof {
                lemma_map_replace(old_entries, pos as int, entry);
            }
            entries.set(pos, entry);
        } else {
            proof {
                lemma_map_insert(old_entries, pos as int, entry);
            }
            entries.insert(pos, entry);
        }
        self.entries = entries;
    }

    /// Removes the entry stored under `key`, if any.
    pub fn remove(&mut self, key: &[u8])
        ensures
            final(self)@ == old(self)@.remove(key@),
    {
        proof {
            use_type_invariant(&*self);
        }
        let (found, pos) = self.find(key);
        if found {
            let mut entries: Vec<(Vec<u8>, Vec<u8>)> = Vec::new();
            std::mem::swap(&mut entries, &mut self.entries);
            proof {
                lemma_map_remove(entries@, pos as int);
            }
            let _ = entries.remove(pos);
            self.entries = entries;
        } else {
            proof {
                assert forall|i: int| 0 <= i < self.entries@.len() implies #[trigger] self.entries@[i].0@
                    != key@ by {
                    lemma_lex_irreflexive(key@);
                    if i > pos {
                        assert(lex_lt(self.entries@[pos as int].0@, self.entries@[i].0@));
                        lemma_lex_transitive(key@, self.entries@[pos as int].0@, self.entries@[i].0@);
                    }
                }
                lemma_map_absent(self.entries@, key@);
                assert(self@ =~= old(self)@.remove(key@));
            }
        }
    }

    /// The entries whose keys lie in `range`, in the given direction.
    pub fn scan(&self, range: &ScanRange, direction: Direction) -> (r: Vec<(Vec<u8>, Vec<u8>)>)
        ensures
            is_scan_of(pairs_view(r@), self@, (range.0@, range.1@), direction),
    {
        proof {
            use_type_invariant(self);
        }
        let ghost s = self.entries@;
        let ghost rg = (range.0@, range.1@);
        let mut out: Vec<(Vec<u8>, Vec<u8>)> = Vec::new();
        let ghost mut idx: Seq<int> = Seq::empty();
        let mut i: usize = 0;
        while i < self.entries.len()
            invariant
                s == self.entries@,
                keys_sorted(s),
                rg == (range.0@, range.1@),
                i <= s.len(),
                out@.len() == idx.len(),
                forall|t: int| 0 <= t < idx.len() ==> 0 <= #[trigger] idx[t] < i,
                forall|t: int, u: int| 0 <= t < u < idx.len() ==> #[trigger] idx[t] < #[trigger] idx[u],
                forall|t: int|
                    0 <= t < idx.len() ==> (#[trigger] out@[t]).0@ == s[idx[t]].0@ && out@[t].1@
                        == s[idx[t]].1@ && in_range(s[idx[t]].0@, rg),
                forall|j: int|
                    0 <= j < i && in_range(#[trigger] s[j].0@, rg) ==> exists|t: int|
                        0 <= t < idx.len() && idx[t] == j,
            decreases s.len() - i,
        {
            let key = &self.entries[i].0;
            if key_after_start(key.as_slice(), &range.0) && key_before_end(key.as_slice(), &range.1) {
                let entry = (copy_bytes(key), copy_bytes(&self.entries[i].1));
                out.push(entry);
                proof {
                    let ghost old_idx = idx;
                    idx = idx.push(i as int);
                    assert forall|j: int|
                        0 <= j < i + 1 && in_range(#[trigger] s[j].0@, rg) implies exists|t: int|
                        0 <= t < idx.len() && idx[t] == j by {
                        if j == i {
                            assert(idx[idx.len() - 1] == j);
                        } else {
                            let t = choose|t: int| 0 <= t < old_idx.len() && old_idx[t] == j;
                            assert(idx[t] == j);
                        }
                    }
                }
            } else {
                proof {
                    assert forall|j: int|
                        0 <= j < i + 1 && in_range(#[trigger] s[j].0@, rg) implies exists|t: int|
                        0 <= t < idx.len() && idx[t] == j by {
                        if j < i {
                            let t = choose|t: int| 0 <= t < idx.len() && idx[t] == j;
                            assert(idx[t] == j);
                        }
                    }
                }
            }
            i = i + 1;
        }
        let ghost items = pairs_view(out@);
        proof {
            assert forall|t: int| 0 <= t < items.len() implies self@.contains_key(
                #[trigger] items[t].0,
            ) && self@[items[t].0] == items[t].1 && in_range(items[t].0, rg) by {
                lemma_entry_in_map(s, idx[t]);
            }
            assert forall|k: Seq<u8>| self@.contains_key(k) && in_range(k, rg) implies exists|t: int|
                0 <= t < items.len() && #[trigger] items[t].0 == k by {
                let j = choose|j: int| 0 <= j < s.len() && #[trigger] s[j].0@ == k;
                let t = choose|t: int| 0 <= t < idx.len() && idx[t] == j;
                assert(items[t].0 == k);
            }
            assert forall|t: int, u: int| 0 <= t < u < items.len() implies lex_lt(
                items[t].0,
                items[u].0,
            ) by {
                assert(idx[t] < idx[u]);
            }
            assert(is_scan_of(items, self@, rg, Direction::LeftToRight));
        }
        match direction {
            Direction::LeftToRight => out,
            Direction::RightToLeft => {
                let ghost n = out@.len();
                let ghost orig = out@;
                let mut rev: Vec<(Vec<u8>, Vec<u8>)> = Vec::new();
                while out.len() > 0
                    invariant
                        n == orig.len(),
                        out@ == orig.take(out@.len() as int),
                        rev@.len() + out@.len() == n,
                        forall|t: int| 0 <= t < rev@.len() ==> #[trigger] rev@[t] == orig[n - 1 - t],
                    decreases out@.len(),
                {
                    let e = out.pop().unwrap();
                    rev.push(e);
                    assert(out@ =~= orig.take(out@.len() as int));
                }
                proof {
                    let ritems = pairs_view(rev@);
                    assert forall|t: int| 0 <= t < ritems.len() implies #[trigger] ritems[t] == items[n
                        - 1 - t] by {}
                    assert forall|t: int| 0 <= t < ritems.len() implies self@.contains_key(
                        #[trigger] ritems[t].0,
                    ) && self@[ritems[t].0] == ritems[t].1 && in_range(ritems[t].0, rg) by {
                        assert(ritems[t] == items[n - 1 - t]);
                    }
                    assert forall|k: Seq<u8>| self@.contains_key(k) && in_range(k, rg) implies exists|
                        t: int,
                    | 0 <= t < ritems.len() && #[trigger] ritems[t].0 == k by {
                        let u = choose|u: int| 0 <= u < items.len() && #[trigger] items[u].0 == k;
                        assert(ritems[n - 1 - u] == items[u]);
                    }
                    assert forall|t: int, u: int| 0 <= t < u < ritems.len() implies lex_lt(
                        ritems[u].0,
                        ritems[t].0,
                    ) by {
                        assert(ritems[t] == items[n - 1 - t]);
                        assert(ritems[u] == items[n - 1 - u]);
                    }
                }
                rev
            },
        }
    }
}

impl Duplicate for KVStore {
    fn duplicate(&self) -> (r: Self) {
        proof {
            use_type_invariant(self);
        }
        let mut entries: Vec<(Vec<u8>, Vec<u8>)> = Vec::new();
        let mut i: usize = 0;
        while i < self.entries.len()
            invariant
                i <= self.entries@.len(),
                entries@.len() == i,
                forall|j: int|
                    0 <= j < i ==> (#[trigger] entries@[j]).0@ == self.entries@[j].0@ && entries@[j].1@
                        == self.entries@[j].1@,
            decreases self.entries@.len() - i,
        {
            let e = (copy_bytes(&self.entries[i].0), copy_bytes(&self.entries[i].1));
            entries.push(e);
            i = i + 1;
        }
        proof {
            let s = self.entries@;
            let t = entries@;
            assert(keys_sorted(t)) by {
                assert forall|a: int, b: int| 0 <= a < b < t.len() implies lex_lt(
                    #[trigger] t[a].0@,
                    #[trigger] t[b].0@,
                ) by {
                    assert(lex_lt(s[a].0@, s[b].0@));
                }
            }
            assert forall|k: Seq<u8>| #[trigger] entries_map(t).contains_key(k) <==> entries_map(
                s,
            ).contains_key(k) by {
                if entries_map(t).contains_key(k) {
                    let j = choose|j: int| 0 <= j < t.len() && #[trigger] t[j].0@ == k;
                    assert(s[j].0@ == k);
                }
                if entries_map(s).contains_key(k) {
                    let j = choose|j: int| 0 <= j < s.len() && #[trigger] s[j].0@ == k;
                    assert(t[j].0@ == k);
                }
            }
            assert forall|k: Seq<u8>| #[trigger] entries_map(t).contains_key(k) implies entries_map(
                t,
            )[k] == entries_map(s)[k] by {
                let j = choose|j: int| 0 <= j < t.len() && #[trigger] t[j].0@ == k;
                lemma_entry_in_map(t, j);
                lemma_entry_in_map(s, j);
            }
            assert(entries_map(t) =~= entries_map(s));
        }
        KVStore { entries }
    }
}

} // verus!
