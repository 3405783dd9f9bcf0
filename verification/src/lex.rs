//! Lexicographic order on byte strings, the order in which ordered key/value
//! stores keep their keys.
use vstd::prelude::*;

verus! {

/// `a` sorts strictly before `b` when compared byte by byte, a proper prefix
/// sorting before any of its extensions.
pub open spec fn lex_lt(a: Seq<u8>, b: Seq<u8>) -> bool
    decreases a.len(),
{
    if b.len() == 0 {
        false
    } else if a.len() == 0 {
        true
    } else if a[0] != b[0] {
        a[0] < b[0]
    } else {
        lex_lt(a.drop_first(), b.drop_first())
    }
}

/// `a` sorts before `b` or equals it.
pub open spec fn lex_le(a: Seq<u8>, b: Seq<u8>) -> bool {
    a == b || lex_lt(a, b)
}

/// Neither sequence is a prefix of the other.
pub open spec fn diverge(s: Seq<u8>, t: Seq<u8>) -> bool {
    !s.is_prefix_of(t) && !t.is_prefix_of(s)
}

/// The order is irreflexive.
pub proof fn lemma_lex_irreflexive(a: Seq<u8>)
    ensures
        !lex_lt(a, a),
    decreases a.len(),
{
    if a.len() > 0 {
        lemma_lex_irreflexive(a.drop_first());
    }
}

/// The order is asymmetric.
pub proof fn lemma_lex_asymmetric(a: Seq<u8>, b: Seq<u8>)
    ensures
        !(lex_lt(a, b) && lex_lt(b, a)),
    decreases a.len(),
{
    if a.len() > 0 && b.len() > 0 && a[0] == b[0] {
        lemma_lex_asymmetric(a.drop_first(), b.drop_first());
    }
}

/// The order is total.
pub proof fn lemma_lex_total(a: Seq<u8>, b: Seq<u8>)
    ensures
        lex_lt(a, b) || a == b || lex_lt(b, a),
    decreases a.len(),
{
    if a.len() > 0 && b.len() > 0 && a[0] == b[0] {
        lemma_lex_total(a.drop_first(), b.drop_first());
        if a.drop_first() == b.drop_first() {
            assert(a =~= seq![a[0]] + a.drop_first());
            assert(b =~= seq![b[0]] + b.drop_first());
        }
    } else if a.len() == 0 && b.len() == 0 {
        assert(a =~= b);
    }
}

/// The order is transitive.
pub proof fn lemma_lex_transitive(a: Seq<u8>, b: Seq<u8>, c: Seq<u8>)
    requires
        lex_lt(a, b),
        lex_lt(b, c),
    ensures
        lex_lt(a, c),
    decreases a.len(),
{
    if a.len() > 0 && a[0] == b[0] && b[0] == c[0] {
        lemma_lex_transitive(a.drop_first(), b.drop_first(), c.drop_first());
    }
}

/// A common prefix does not change how two byte strings compare.
pub proof fn lemma_lex_common_prefix(p: Seq<u8>, x: Seq<u8>, y: Seq<u8>)
    ensures
        lex_lt(p + x, p + y) == lex_lt(x, y),
    decreases p.len(),
{
    if p.len() > 0 {
        assert((p + x).drop_first() =~= p.drop_first() + x);
        assert((p + y).drop_first() =~= p.drop_first() + y);
        lemma_lex_common_prefix(p.drop_first(), x, y);
    } else {
        assert(p + x =~= x);
        assert(p + y =~= y);
    }
}

/// Once two byte strings differ at some position, what follows them does not
/// change how they compare.
pub proof fn lemma_lex_diverge(s: Seq<u8>, t: Seq<u8>, x: Seq<u8>, y: Seq<u8>)
    requires
        diverge(s, t),
    ensures
        lex_lt(s + x, t + y) == lex_lt(s, t),
    decreases s.len(),
{
    if s.len() == 0 {
        assert(s.is_prefix_of(t));
    } else if t.len() == 0 {
        assert(t.is_prefix_of(s));
    } else if s[0] != t[0] {
        assert((s + x)[0] == s[0]);
        assert((t + y)[0] == t[0]);
    } else {
        let s1 = s.drop_first();
        let t1 = t.drop_first();
        if s1.is_prefix_of(t1) {
            assert(s =~= t.subrange(0, s.len() as int)) by {
                assert forall|i: int| 0 <= i < s.len() implies s[i] == t[i] by {
                    if i > 0 {
                        assert(s1[i - 1] == t1[i - 1]);
                    }
                }
            }
        }
        if t1.is_prefix_of(s1) {
            assert(t =~= s.subrange(0, t.len() as int)) by {
                assert forall|i: int| 0 <= i < t.len() implies t[i] == s[i] by {
                    if i > 0 {
                        assert(t1[i - 1] == s1[i - 1]);
                    }
                }
            }
        }
        assert((s + x).drop_first() =~= s1 + x);
        assert((t + y).drop_first() =~= t1 + y);
        lemma_lex_diverge(s1, t1, x, y);
    }
}

/// Two distinct byte strings of one length diverge.
pub proof fn lemma_same_len_diverge(s: Seq<u8>, t: Seq<u8>)
    requires
        s.len() == t.len(),
        s != t,
    ensures
        diverge(s, t),
{
    if s.is_prefix_of(t) {
        assert(s =~= t);
    }
    if t.is_prefix_of(s) {
        assert(s =~= t);
    }
}

/// Comparing two byte strings of one length, each extended by one byte.
pub proof fn lemma_lex_push(x: Seq<u8>, y: Seq<u8>, c: u8, d: u8)
    requires
        x.len() == y.len(),
    ensures
        lex_lt(x.push(c), y.push(d)) == (lex_lt(x, y) || (x == y && c < d)),
{
    assert(x.push(c) =~= x + seq![c]);
    assert(y.push(d) =~= y + seq![d]);
    if x == y {
        lemma_lex_common_prefix(x, seq![c], seq![d]);
        lemma_lex_irreflexive(x);
        assert(seq![c].drop_first() =~= Seq::<u8>::empty());
        assert(seq![d].drop_first() =~= Seq::<u8>::empty());
        assert(seq![c][0] == c && seq![d][0] == d);
        assert(!lex_lt(Seq::<u8>::empty(), Seq::<u8>::empty()));
    } else {
        lemma_same_len_diverge(x, y);
        lemma_lex_diverge(x, y, seq![c], seq![d]);
    }
}

/// The outcome of comparing two byte strings.
pub enum ByteOrder {
    Less,
    Equal,
    Greater,
}

/// Compares two byte strings lexicographically.
pub fn compare_bytes(a: &[u8], b: &[u8]) -> (o: ByteOrder)
    ensures
        o is Less <==> lex_lt(a@, b@),
        o is Equal <==> a@ == b@,
        o is Greater <==> lex_lt(b@, a@),
{
    proof {
        lemma_lex_total(a@, b@);
        lemma_lex_asymmetric(a@, b@);
        lemma_lex_irreflexive(a@);
    }
    let mut i: usize = 0;
    assert(a@.take(0) =~= b@.take(0));
    while i < a.len() && i < b.len()
        invariant
            i <= a@.len(),
            i <= b@.len(),
            a@.take(i as int) == b@.take(i as int),
        decreases a@.len() - i,
    {
        if a[i] != b[i] {
            proof {
                let p = a@.take(i as int);
                assert(a@ =~= p + a@.skip(i as int));
                assert(b@ =~= p + b@.skip(i as int));
                lemma_lex_common_prefix(p, a@.skip(i as int), b@.skip(i as int));
                lemma_lex_common_prefix(p, b@.skip(i as int), a@.skip(i as int));
                assert(a@.skip(i as int)[0] == a@[i as int]);
                assert(b@.skip(i as int)[0] == b@[i as int]);
            }
            if a[i] < b[i] {
                return ByteOrder::Less;
            } else {
                return ByteOrder::Greater;
            }
        }
        assert(a@.take(i + 1) =~= a@.take(i as int).push(a@[i as int]));
        assert(b@.take(i + 1) =~= b@.take(i as int).push(b@[i as int]));
        i = i + 1;
    }
    proof {
        let p = a@.take(i as int);
        assert(a@ =~= p + a@.skip(i as int));
        assert(b@ =~= p + b@.skip(i as int));
        lemma_lex_common_prefix(p, a@.skip(i as int), b@.skip(i as int));
        lemma_lex_common_prefix(p, b@.skip(i as int), a@.skip(i as int));
    }
    if a.len() < b.len() {
        ByteOrder::Less
    } else if a.len() > b.len() {
        ByteOrder::Greater
    } else {
        assert(a@ =~= b@);
        ByteOrder::Equal
    }
}

} // verus!
