//! Fixed-width big-endian encoding of natural numbers, and the sign-flipped
//! offset that makes signed integers sort as their encodings do.
use vstd::prelude::*;
use crate::lex::{lex_lt, lemma_lex_push};

verus! {

/// `256` to the power `n`.
pub open spec fn pow256(n: nat) -> nat
    decreases n,
{
    if n == 0 {
        1
    } else {
        256 * pow256((n - 1) as nat)
    }
}

/// The `n` low-order base-256 digits of `v`, most significant first.
pub open spec fn be_bytes(v: nat, n: nat) -> Seq<u8>
    decreases n,
{
    if n == 0 {
        Seq::empty()
    } else {
        be_bytes(v / 256, (n - 1) as nat).push((v % 256) as u8)
    }
}

/// The number whose base-256 digits, most significant first, are `s`.
pub open spec fn be_value(s: Seq<u8>) -> nat
    decreases s.len(),
{
    if s.len() == 0 {
        0
    } else {
        be_value(s.drop_last()) * 256 + s.last() as nat
    }
}

/// Half of `256^n`: the offset added to a signed integer of `n` bytes.
pub open spec fn sign_offset(n: nat) -> nat {
    pow256(n) / 2
}

pub proof fn lemma_pow256_values()
    ensures
        pow256(0) == 1,
        pow256(1) == 0x100,
        pow256(2) == 0x1_0000,
        pow256(4) == 0x1_0000_0000,
        pow256(8) == 0x1_0000_0000_0000_0000,
        pow256(16) == 0x1_0000_0000_0000_0000_0000_0000_0000_0000,
{
    reveal_with_fuel(pow256, 17);
}

pub proof fn lemma_pow256_positive(n: nat)
    ensures
        pow256(n) >= 1,
    decreases n,
{
    if n > 0 {
        lemma_pow256_positive((n - 1) as nat);
    }
}

pub proof fn lemma_pow256_monotone(m: nat, n: nat)
    requires
        m <= n,
    ensures
        pow256(m) <= pow256(n),
    decreases n,
{
    if m < n {
        lemma_pow256_monotone(m, (n - 1) as nat);
    }
}

proof fn lemma_div_mod_256(v: nat)
    ensures
        v == 256 * (v / 256) + v % 256,
        v % 256 < 256,
{
    assert(v == 256 * (v / 256) + v % 256 && v % 256 < 256) by (nonlinear_arith);
}

proof fn lemma_digits_split(q: nat, r: nat)
    requires
        r < 256,
    ensures
        (q * 256 + r) / 256 == q,
        (q * 256 + r) % 256 == r,
{
    assert((q * 256 + r) / 256 == q && (q * 256 + r) % 256 == r) by (nonlinear_arith)
        requires
            r < 256,
    ;
}

pub proof fn lemma_be_len(v: nat, n: nat)
    ensures
        be_bytes(v, n).len() == n,
    decreases n,
{
    if n > 0 {
        lemma_be_len(v / 256, (n - 1) as nat);
    }
}

/// Reading back the digits of a number that fits in `n` digits gives it back.
pub proof fn lemma_be_value_of_bytes(v: nat, n: nat)
    requires
        v < pow256(n),
    ensures
        be_value(be_bytes(v, n)) == v,
        be_bytes(v, n).len() == n,
    decreases n,
{
    lemma_be_len(v, n);
    if n > 0 {
        lemma_div_mod_256(v);
        let q = v / 256;
        assert(q < pow256((n - 1) as nat)) by (nonlinear_arith)
            requires
                v == 256 * q + v % 256,
                v < 256 * pow256((n - 1) as nat),
        ;
        lemma_be_value_of_bytes(q, (n - 1) as nat);
        let s = be_bytes(v, n);
        assert(s.drop_last() =~= be_bytes(q, (n - 1) as nat));
    }
}

/// A sequence of digits is the `n`-digit encoding of its value.
pub proof fn lemma_be_bytes_of_value(s: Seq<u8>)
    ensures
        be_bytes(be_value(s), s.len()) == s,
        be_value(s) < pow256(s.len()),
    decreases s.len(),
{
    if s.len() > 0 {
        let x = s.drop_last();
        lemma_be_bytes_of_value(x);
        lemma_digits_split(be_value(x), s.last() as nat);
        let v = be_value(s);
        assert(v < pow256(s.len())) by (nonlinear_arith)
            requires
                v == be_value(x) * 256 + s.last(),
                be_value(x) < pow256(x.len()),
                s.last() < 256,
                pow256(s.len()) == 256 * pow256(x.len()),
        ;
        assert(s =~= x.push(s.last()));
    }
}

/// The `n`-digit big-endian encoding preserves the order of numbers.
pub proof fn lemma_be_order(v: nat, w: nat, n: nat)
    requires
        v < pow256(n),
        w < pow256(n),
    ensures
        v < w <==> lex_lt(be_bytes(v, n), be_bytes(w, n)),
    decreases n,
{
    if n == 0 {
    } else {
        let m = (n - 1) as nat;
        lemma_div_mod_256(v);
        lemma_div_mod_256(w);
        let qv = v / 256;
        let qw = w / 256;
        assert(qv < pow256(m)) by (nonlinear_arith)
            requires
                v == 256 * qv + v % 256,
                v < 256 * pow256(m),
        ;
        assert(qw < pow256(m)) by (nonlinear_arith)
            requires
                w == 256 * qw + w % 256,
                w < 256 * pow256(m),
        ;
        lemma_be_order(qv, qw, m);
        lemma_be_len(qv, m);
        lemma_be_len(qw, m);
        lemma_be_value_of_bytes(qv, m);
        lemma_be_value_of_bytes(qw, m);
        lemma_lex_push(be_bytes(qv, m), be_bytes(qw, m), (v % 256) as u8, (w % 256) as u8);
        assert(v < w <==> (qv < qw || (qv == qw && v % 256 < w % 256))) by (nonlinear_arith)
            requires
                v == 256 * qv + v % 256,
                w == 256 * qw + w % 256,
                v % 256 < 256,
                w % 256 < 256,
        ;
    }
}

/// Encodes the `n` low-order bytes of `v`, most significant first.
pub fn encode_be(v: u128, n: usize) -> (out: Vec<u8>)
    requires
        n <= 16,
        v < pow256(n as nat),
    ensures
        out@ == be_bytes(v as nat, n as nat),
    decreases n,
{
    if n == 0 {
        Vec::new()
    } else {
        proof {
            lemma_div_mod_256(v as nat);
            assert((v / 256) < pow256((n - 1) as nat)) by (nonlinear_arith)
                requires
                    v == 256 * (v / 256) + v % 256,
                    v < 256 * pow256((n - 1) as nat),
            ;
        }
        let mut out = encode_be(v / 256, n - 1);
        out.push((v % 256) as u8);
        out
    }
}

/// Reads the first `n` bytes of `bytes` as a big-endian number.
pub fn decode_be(bytes: &[u8], n: usize) -> (v: u128)
    requires
        n <= 16,
        n <= bytes@.len(),
    ensures
        v == be_value(bytes@.take(n as int)),
{
    let mut acc: u128 = 0;
    let mut i: usize = 0;
    assert(bytes@.take(0) =~= Seq::<u8>::empty());
    while i < n
        invariant
            i <= n <= 16,
            n <= bytes@.len(),
            acc == be_value(bytes@.take(i as int)),
            acc < pow256(i as nat),
        decreases n - i,
    {
        let b = bytes[i];
        proof {
            lemma_pow256_monotone((i + 1) as nat, 16);
            lemma_pow256_values();
            assert(acc * 256 + b < pow256((i + 1) as nat)) by (nonlinear_arith)
                requires
                    acc < pow256(i as nat),
                    b < 256,
                    pow256((i + 1) as nat) == 256 * pow256(i as nat),
            ;
            assert(bytes@.take(i + 1).drop_last() =~= bytes@.take(i as int));
        }
        acc = acc * 256 + b as u128;
        i = i + 1;
    }
    acc
}

/// `256^n / 2` for `1 <= n <= 16`.
pub fn sign_offset_exec(n: usize) -> (h: u128)
    requires
        1 <= n <= 16,
    ensures
        h == sign_offset(n as nat),
        2 * h == pow256(n as nat),
{
    let mut h: u128 = 128;
    let mut i: usize = 1;
    reveal_with_fuel(pow256, 2);
    while i < n
        invariant
            1 <= i <= n <= 16,
            2 * h == pow256(i as nat),
        decreases n - i,
    {
        proof {
            lemma_pow256_monotone((i + 1) as nat, 16);
            lemma_pow256_values();
        }
        h = h * 256;
        i = i + 1;
    }
    h
}

/// Maps a signed integer of `n` bytes onto `[0, 256^n)` by adding half the
/// range, which keeps its order.
pub fn sortable_from_signed(v: i128, n: usize) -> (s: u128)
    requires
        1 <= n <= 16,
        -sign_offset(n as nat) <= v < sign_offset(n as nat),
    ensures
        s == v + sign_offset(n as nat),
        s < pow256(n as nat),
{
    let h = sign_offset_exec(n);
    proof {
        lemma_pow256_monotone(n as nat, 16);
        lemma_pow256_values();
    }
    if v >= 0 {
        (v as u128) + h
    } else {
        ((v + ((h - 1) as i128)) + 1) as u128
    }
}

/// The inverse of `sortable_from_signed`.
pub fn signed_from_sortable(s: u128, n: usize) -> (v: i128)
    requires
        1 <= n <= 16,
        s < pow256(n as nat),
    ensures
        v == s - sign_offset(n as nat),
{
    let h = sign_offset_exec(n);
    proof {
        lemma_pow256_monotone(n as nat, 16);
        lemma_pow256_values();
    }
    if s >= h {
        (s - h) as i128
    } else {
        ((s as i128) - ((h - 1) as i128)) - 1
    }
}

} // verus!
