//! Prefixes of encoded keys, and the key ranges that hold exactly the keys
//! that start with a prefix.
use vstd::prelude::*;
use crate::bounds::{after_start, before_end, in_range, Bound};
use crate::key::Key;
use crate::lex::{
    lex_le, lex_lt, lemma_lex_asymmetric, lemma_lex_common_prefix, lemma_lex_irreflexive,
    lemma_lex_transitive,
};

verus! {

/// The first key after all the keys that start with `p`: `p` without its
/// trailing `0xff` bytes, its last byte incremented; unbounded when `p` is
/// all `0xff`.
pub open spec fn spec_prefix_end(p: Seq<u8>) -> Bound<Seq<u8>>
    decreases p.len(),
{
    if p.len() == 0 {
        Bound::Unbounded
    } else if p.last() != 0xff {
        Bound::Excluded(p.drop_last().push((p.last() + 1) as u8))
    } else {
        spec_prefix_end(p.drop_last())
    }
}

/// The start bound of the keys that start with `p`.
pub open spec fn prefix_start_bound(p: Seq<u8>) -> Bound<Seq<u8>> {
    if p.len() == 0 {
        Bound::Unbounded
    } else {
        Bound::Included(p)
    }
}

/// The end bound of the keys that start with `p`.
pub open spec fn prefix_end_bound(p: Seq<u8>) -> Bound<Seq<u8>> {
    if p.len() == 0 {
        Bound::Unbounded
    } else {
        spec_prefix_end(p)
    }
}

/// Something that encodes to the first bytes of keys.
pub trait Prefix {
    spec fn spec_prefix(&self) -> Seq<u8>;

    fn encode_prefix(&self) -> (out: Vec<u8>)
        ensures
            out@ == self.spec_prefix(),
    ;

    /// The start of the range of keys that start with this prefix.
    fn start_bound(&self) -> (b: Bound<Vec<u8>>)
        ensures
            b@ == prefix_start_bound(self.spec_prefix()),
    {
        let bytes = self.encode_prefix();
        if bytes.len() == 0 {
            return Bound::Unbounded;
        }
        Bound::Included(self.encode_prefix())
    }

    /// The end of the range of keys that start with this prefix.
    fn end_bound(&self) -> (b: Bound<Vec<u8>>)
        ensures
            b@ == prefix_end_bound(self.spec_prefix()),
    {
        let bytes = self.encode_prefix();
        if bytes.len() == 0 {
            return Bound::Unbounded;
        }
        prefix_end(bytes)
    }
}

/// The first key after all the keys that start with `bytes`.
pub(crate) fn prefix_end(prefix: Vec<u8>) -> (b: Bound<Vec<u8>>)
    ensures
        b@ == spec_prefix_end(prefix@),
{
    let mut bytes = prefix;
    let ghost orig = bytes@;
    let mut i = bytes.len();
    assert(orig.take(i as int) =~= orig);
    while i > 0
        invariant
            i <= bytes@.len(),
            bytes@ == orig,
            orig == prefix@,
            spec_prefix_end(orig.take(i as int)) == spec_prefix_end(orig),
        decreases i,
    {
        let b = bytes[i - 1];
        assert(orig.take(i as int).drop_last() =~= orig.take(i - 1));
        if b != 0xff {
            assert(orig.take(i as int).last() == b);
            assert(spec_prefix_end(orig.take(i as int)) == Bound::Excluded(
                orig.take(i as int).drop_last().push((b + 1) as u8),
            ));
            bytes.set(i - 1, b + 1);
            bytes.truncate(i);
            assert(bytes@ =~= orig.take(i as int).drop_last().push((b + 1) as u8));
            let r = Bound::Excluded(bytes);
            assert(r@ == spec_prefix_end(orig));
            return r;
        }
        i = i - 1;
    }
    Bound::Unbounded
}

impl<K: Key> Prefix for K {
    open spec fn spec_prefix(&self) -> Seq<u8> {
        K::spec_encode(self@)
    }

    fn encode_prefix(&self) -> (out: Vec<u8>) {
        self.encode()
    }
}

/// A key type whose keys start with the encoding of a `P`, so that they can
/// be scanned by prefixes of type `P`.
pub trait Prefixable<P: Prefix> {
}

impl<A: Key, B: Key> Prefixable<A> for (A, B) {
}

impl<A: Key, B: Key, C: Key> Prefixable<A> for (A, B, C) {
}

impl<A: Key, B: Key, C: Key> Prefixable<(A, B)> for (A, B, C) {
}

impl<A: Key, B: Key, C: Key, D: Key> Prefixable<A> for (A, B, C, D) {
}

impl<A: Key, B: Key, C: Key, D: Key> Prefixable<(A, B)> for (A, B, C, D) {
}

impl<A: Key, B: Key, C: Key, D: Key> Prefixable<(A, B, C)> for (A, B, C, D) {
}

// ---------------------------------------------------------------------------
// The keys between the bounds of a prefix are exactly those that start with it.
// ---------------------------------------------------------------------------

proof fn lemma_prefix_is_le(p: Seq<u8>, t: Seq<u8>)
    ensures
        lex_le(p, p + t),
{
    lemma_lex_common_prefix(p, Seq::empty(), t);
    assert(p + Seq::<u8>::empty() =~= p);
    if t.len() == 0 {
        assert(p + t =~= p);
    }
}

/// A byte string between `q + x` (included) and `q + y` (excluded) starts
/// with `q`.
proof fn lemma_between_shares_prefix(q: Seq<u8>, x: Seq<u8>, y: Seq<u8>, s: Seq<u8>)
    requires
        lex_le(q + x, s),
        lex_lt(s, q + y),
    ensures
        q.is_prefix_of(s),
    decreases q.len(),
{
    if q.len() > 0 {
        lemma_lex_irreflexive(s);
        assert((q + x)[0] == q[0]);
        assert((q + y)[0] == q[0]);
        if s.len() == 0 {
            assert(false);
        }
        if s[0] != q[0] {
            lemma_lex_asymmetric(s, q + y);
            assert(false);
        }
        let q1 = q.drop_first();
        assert((q + x).drop_first() =~= q1 + x);
        assert((q + y).drop_first() =~= q1 + y);
        if q + x == s {
            assert(q1 + x =~= s.drop_first());
        }
        lemma_between_shares_prefix(q1, x, y, s.drop_first());
        assert(q =~= s.subrange(0, q.len() as int)) by {
            assert forall|i: int| 0 <= i < q.len() implies q[i] == s[i] by {
                if i > 0 {
                    assert(q1[i - 1] == s.drop_first()[i - 1]);
                }
            }
        }
    }
}

/// A byte string at or after `p`, up to the end of the keys that start with
/// `p`, starts with `p`; and every byte string that starts with `p` lies
/// there.
pub proof fn lemma_prefix_range(p: Seq<u8>, s: Seq<u8>)
    requires
        p.len() > 0,
    ensures
        p.is_prefix_of(s) <==> (lex_le(p, s) && before_end(s, spec_prefix_end(p))),
    decreases p.len(),
{
    let q = p.drop_last();
    let c = p.last();
    assert(p =~= q + seq![c]);
    reveal_with_fuel(lex_lt, 2);
    if p.is_prefix_of(s) {
        let t = s.skip(p.len() as int);
        assert(s =~= p + t);
        lemma_prefix_is_le(p, t);
    }
    if c != 0xff {
        let e = q.push((c + 1) as u8);
        assert(e =~= q + seq![(c + 1) as u8]);
        if p.is_prefix_of(s) {
            let t = s.skip(p.len() as int);
            assert(s =~= q + (seq![c] + t));
            lemma_lex_common_prefix(q, seq![c] + t, seq![(c + 1) as u8]);
            assert((seq![c] + t)[0] == c);
        }
        if lex_le(p, s) && lex_lt(s, e) {
            lemma_between_shares_prefix(q, seq![c], seq![(c + 1) as u8], s);
            let t = s.skip(q.len() as int);
            assert(s =~= q + t);
            lemma_lex_common_prefix(q, seq![c], t);
            lemma_lex_common_prefix(q, t, seq![(c + 1) as u8]);
            if t =~= seq![c] {
            } else {
                assert(p != s) by {
                    if p == s {
                        assert(t =~= s.skip(q.len() as int));
                        assert(t =~= seq![c]);
                    }
                }
                assert(lex_lt(seq![c], t));
                assert(lex_lt(t, seq![(c + 1) as u8]));
                assert(t.len() > 0 && t[0] == c);
            }
            assert(p =~= s.subrange(0, p.len() as int)) by {
                assert(t[0] == c);
            }
        }
    } else if q.len() == 0 {
        if lex_le(p, s) {
            assert(p =~= seq![0xffu8]);
            assert(s.len() > 0);
            assert(s[0] == 0xff);
            assert(p =~= s.subrange(0, 1));
        }
    } else {
        lemma_lex_irreflexive(p);
        lemma_prefix_range(q, s);
        lemma_prefix_is_le(q, seq![c]);
        if p.is_prefix_of(s) {
            assert(q =~= s.subrange(0, q.len() as int));
        }
        if lex_le(p, s) && before_end(s, spec_prefix_end(q)) {
            if lex_lt(q, p) && lex_lt(p, s) {
                lemma_lex_transitive(q, p, s);
            }
            assert(q.is_prefix_of(s));
            let t = s.skip(q.len() as int);
            assert(s =~= q + t);
            lemma_lex_common_prefix(q, seq![c], t);
            if t =~= seq![c] {
            } else {
                assert(p != s) by {
                    if p == s {
                        assert(t =~= s.skip(q.len() as int));
                        assert(t =~= seq![c]);
                    }
                }
                assert(lex_lt(seq![c], t));
                assert(t.len() > 0 && t[0] == 0xff);
            }
            assert(p =~= s.subrange(0, p.len() as int)) by {
                assert(t[0] == c);
            }
        }
    }
}

/// The bounds of a prefix hold exactly the keys that start with it (all keys
/// for the empty prefix).
pub proof fn lemma_prefix_bounds_exact(p: Seq<u8>, s: Seq<u8>)
    ensures
        in_range(s, (prefix_start_bound(p), prefix_end_bound(p))) <==> p.is_prefix_of(s),
{
    if p.len() == 0 {
        assert(p =~= s.subrange(0, 0));
    } else {
        lemma_prefix_range(p, s);
    }
}

} // verus!
