//! Order-preserving, self-delimiting encodings of keys.
//!
//! A key is encoded into bytes so that an ordered store, which compares keys
//! byte by byte, keeps them in their logical order, and so that encodings can
//! be concatenated into composite keys and read back unambiguously.
use vstd::prelude::*;
use vstd::utf8::{decode_utf8, encode_utf8, valid_utf8};
use crate::lex::{diverge, lex_lt, lemma_lex_common_prefix, lemma_lex_diverge, lemma_lex_irreflexive};

verus! {

/// The encoded size of a key type.
#[derive(Debug, Clone, Copy, PartialEq, Eq, Structural)]
pub enum KeySize {
    Fixed(usize),
    Variable,
}

/// A value that can be encoded as an ordered key.
///
/// Every implementation states its encoding, its decoder and its logical
/// order over the key's view, and proves three facts about them:
/// - decoding an encoding followed by any bytes gives the value back and
///   consumes exactly the encoding (so encodings concatenate unambiguously);
/// - whatever the decoder accepts is exactly an encoding (so it is canonical);
/// - the logical order is the byte order of the encodings.
pub trait Key: View + Sized {
    /// The encoding of a key.
    spec fn spec_encode(v: Self::V) -> Seq<u8>;

    /// The decoder: the key at the start of `bytes`, with the number of bytes
    /// that it occupies, or `None` when `bytes` does not start with one.
    spec fn spec_parse(bytes: Seq<u8>) -> Option<(Self::V, nat)>;

    /// The logical order of keys.
    spec fn spec_lt(a: Self::V, b: Self::V) -> bool;

    /// The encoded size of every key of this type.
    spec fn spec_size() -> KeySize;

    /// The views that keys of this type have.
    spec fn spec_valid(v: Self::V) -> bool;

    /// Every key value has a valid view.
    proof fn lemma_key_valid(k: &Self)
        ensures
            Self::spec_valid(k@),
    ;

    /// Decoding an encoding followed by any bytes gives the key back and
    /// consumes exactly the encoding.
    proof fn lemma_round_trip(v: Self::V, rest: Seq<u8>)
        requires
            Self::spec_valid(v),
        ensures
            Self::spec_parse(Self::spec_encode(v) + rest) == Some((v, Self::spec_encode(v).len())),
    ;

    /// Whatever the decoder accepts starts with the encoding of what it returns.
    proof fn lemma_canonical(bytes: Seq<u8>)
        ensures
            Self::spec_parse(bytes) matches Some((v, n)) ==> n <= bytes.len() && bytes.take(
                n as int,
            ) == Self::spec_encode(v) && Self::spec_valid(v),
    ;

    /// One key is less than another exactly when its encoding is byte-wise
    /// less.
    proof fn lemma_order(a: Self::V, b: Self::V)
        requires
            Self::spec_valid(a),
            Self::spec_valid(b),
        ensures
            Self::spec_lt(a, b) <==> lex_lt(Self::spec_encode(a), Self::spec_encode(b)),
    ;

    /// A fixed-size key type encodes every key in exactly that many bytes.
    proof fn lemma_size(v: Self::V)
        requires
            Self::spec_valid(v),
        ensures
            Self::spec_size() matches KeySize::Fixed(s) ==> Self::spec_encode(v).len() == s,
    ;

    /// The encoded size of every key of this type.
    fn size() -> (s: KeySize)
        ensures
            s == Self::spec_size(),
    ;

    /// Returns the encoded key.
    fn encode(&self) -> (out: Vec<u8>)
        ensures
            out@ == Self::spec_encode(self@),
    ;

    /// Decodes a key from the start of `bytes` and returns the unread bytes.
    fn decode_part(bytes: &[u8]) -> (res: (Self, &[u8]))
        requires
            Self::spec_parse(bytes@) is Some,
        ensures
            ({
                let (v, n) = Self::spec_parse(bytes@)->0;
                res.0@ == v && res.1@ == bytes@.skip(n as int)
            }),
    ;

    /// Decodes a key that occupies all of `bytes`.
    fn decode(bytes: &[u8]) -> (k: Self)
        requires
            Self::spec_parse(bytes@) matches Some((_, n)) && n == bytes@.len(),
        ensures
            Self::spec_parse(bytes@) == Some((k@, bytes@.len())),
    {
        let (key, rest) = Self::decode_part(bytes);
        key
    }
}

/// Appends `bytes` to `out`.
pub fn extend_bytes(out: &mut Vec<u8>, bytes: &[u8])
    ensures
        final(out)@ == old(out)@ + bytes@,
{
    let mut i: usize = 0;
    while i < bytes.len()
        invariant
            i <= bytes@.len(),
            out@ == old(out)@ + bytes@.take(i as int),
        decreases bytes@.len() - i,
    {
        out.push(bytes[i]);
        i = i + 1;
        assert(out@ =~= old(out)@ + bytes@.take(i as int));
    }
    assert(bytes@.take(i as int) =~= bytes@);
}

// ---------------------------------------------------------------------------
// Variable-size byte strings: escaping and framing.
// ---------------------------------------------------------------------------

/// The escaped form of one byte: `0x00` becomes `0x00 0xff`.
pub open spec fn escape_byte(b: u8) -> Seq<u8> {
    if b == 0 {
        seq![0u8, 0xffu8]
    } else {
        seq![b]
    }
}

/// The escaped form of a byte string.
pub open spec fn escape_bytes(s: Seq<u8>) -> Seq<u8>
    decreases s.len(),
{
    if s.len() == 0 {
        Seq::empty()
    } else {
        escape_byte(s[0]) + escape_bytes(s.drop_first())
    }
}

/// The framed encoding of a variable-size byte string: its escaped form,
/// then the terminator `0x00 0x00`.
pub open spec fn unsized_key_bytes(s: Seq<u8>) -> Seq<u8> {
    escape_bytes(s) + seq![0u8, 0u8]
}

/// The decoder of framed byte strings.
pub open spec fn parse_unsized(b: Seq<u8>) -> Option<(Seq<u8>, nat)>
    decreases b.len(),
{
    if b.len() == 0 {
        None
    } else if b[0] != 0 {
        match parse_unsized(b.drop_first()) {
            Some((v, n)) => Some((seq![b[0]] + v, n + 1)),
            None => None,
        }
    } else if b.len() < 2 {
        None
    } else if b[1] == 0 {
        Some((Seq::empty(), 2))
    } else if b[1] == 0xff {
        match parse_unsized(b.subrange(2, b.len() as int)) {
            Some((v, n)) => Some((seq![0u8] + v, n + 2)),
            None => None,
        }
    } else {
        None
    }
}

proof fn lemma_escape_push(s: Seq<u8>, c: u8)
    ensures
        escape_bytes(s.push(c)) == escape_bytes(s) + escape_byte(c),
    decreases s.len(),
{
    if s.len() == 0 {
        assert(s.push(c).drop_first() =~= Seq::<u8>::empty());
        assert(s.push(c)[0] == c);
        assert(escape_bytes(Seq::<u8>::empty()) =~= Seq::<u8>::empty());
        assert(escape_bytes(s.push(c)) =~= escape_byte(c));
    } else {
        assert(s.push(c).drop_first() =~= s.drop_first().push(c));
        lemma_escape_push(s.drop_first(), c);
        assert(escape_bytes(s.push(c)) =~= escape_bytes(s) + escape_byte(c));
    }
}

/// Decoding a framed byte string followed by any bytes gives the byte string
/// back and consumes exactly its framed form.
pub proof fn lemma_unsized_round_trip(s: Seq<u8>, rest: Seq<u8>)
    ensures
        parse_unsized(unsized_key_bytes(s) + rest) == Some((s, unsized_key_bytes(s).len())),
    decreases s.len(),
{
    let b = unsized_key_bytes(s) + rest;
    if s.len() == 0 {
        assert(unsized_key_bytes(s) =~= seq![0u8, 0u8]);
        assert(b[0] == 0 && b[1] == 0);
    } else {
        let t = s.drop_first();
        lemma_unsized_round_trip(t, rest);
        assert(s =~= seq![s[0]] + t);
        if s[0] != 0 {
            assert(b.drop_first() =~= unsized_key_bytes(t) + rest);
        } else {
            assert(b.subrange(2, b.len() as int) =~= unsized_key_bytes(t) + rest);
        }
    }
}

/// What the decoder of framed byte strings accepts is exactly a framed
/// encoding.
pub proof fn lemma_unsized_canonical(b: Seq<u8>)
    ensures
        parse_unsized(b) matches Some((v, n)) ==> n <= b.len() && b.take(n as int)
            == unsized_key_bytes(v),
    decreases b.len(),
{
    if b.len() == 0 {
    } else if b[0] != 0 {
        lemma_unsized_canonical(b.drop_first());
        if let Some((v, n)) = parse_unsized(b.drop_first()) {
            assert((seq![b[0]] + v).drop_first() =~= v);
            assert(b.take(n + 1int) =~= seq![b[0]] + b.drop_first().take(n as int));
            assert(unsized_key_bytes(seq![b[0]] + v) =~= seq![b[0]] + unsized_key_bytes(v));
        }
    } else if b.len() < 2 {
    } else if b[1] == 0 {
        assert(b.take(2) =~= seq![0u8, 0u8]);
        assert(unsized_key_bytes(Seq::empty()) =~= seq![0u8, 0u8]);
    } else if b[1] == 0xff {
        let r = b.subrange(2, b.len() as int);
        lemma_unsized_canonical(r);
        if let Some((v, n)) = parse_unsized(r) {
            assert((seq![0u8] + v).drop_first() =~= v);
            assert(b.take(n + 2int) =~= seq![0u8, 0xffu8] + r.take(n as int));
            assert(unsized_key_bytes(seq![0u8] + v) =~= seq![0u8, 0xffu8] + unsized_key_bytes(v));
        }
    }
}

/// The framed encoding preserves the byte order of byte strings.
pub proof fn lemma_unsized_order(a: Seq<u8>, b: Seq<u8>)
    ensures
        lex_lt(a, b) <==> lex_lt(unsized_key_bytes(a), unsized_key_bytes(b)),
    decreases a.len(),
{
    let ea = unsized_key_bytes(a);
    let eb = unsized_key_bytes(b);
    reveal_with_fuel(lex_lt, 3);
    if a.len() == 0 && b.len() == 0 {
        lemma_lex_irreflexive(ea);
    } else if a.len() == 0 {
        assert(ea =~= seq![0u8, 0u8]);
        assert(eb =~= escape_byte(b[0]) + unsized_key_bytes(b.drop_first()));
        if b[0] == 0 {
            assert(eb[0] == 0 && eb[1] == 0xff);
            assert(ea.drop_first() =~= seq![0u8]);
            assert(eb.drop_first()[0] == 0xff);
        } else {
            assert(eb[0] == b[0]);
        }
    } else if b.len() == 0 {
        assert(eb =~= seq![0u8, 0u8]);
        assert(ea =~= escape_byte(a[0]) + unsized_key_bytes(a.drop_first()));
        if a[0] == 0 {
            assert(ea[0] == 0 && ea[1] == 0xff);
            assert(eb.drop_first() =~= seq![0u8]);
            assert(ea.drop_first()[0] == 0xff);
        } else {
            assert(ea[0] == a[0]);
        }
    } else {
        let a1 = a.drop_first();
        let b1 = b.drop_first();
        assert(ea =~= escape_byte(a[0]) + unsized_key_bytes(a1));
        assert(eb =~= escape_byte(b[0]) + unsized_key_bytes(b1));
        if a[0] == b[0] {
            lemma_unsized_order(a1, b1);
            lemma_lex_common_prefix(escape_byte(a[0]), unsized_key_bytes(a1), unsized_key_bytes(b1));
        } else if a[0] == 0 {
            assert(ea[0] == 0 && eb[0] == b[0]);
        } else if b[0] == 0 {
            assert(eb[0] == 0 && ea[0] == a[0]);
        } else {
            assert(ea[0] == a[0] && eb[0] == b[0]);
        }
    }
}

/// Encodes variable-size key bytes using escaping and framing.
///
/// The `0x00` byte is reserved:
/// - `0x00 0xff` represents an escaped `0x00` byte;
/// - `0x00 0x00` marks the end of the encoded value.
pub fn encode_unsized_key_bytes(bytes: &[u8], out: &mut Vec<u8>)
    ensures
        final(out)@ == old(out)@ + unsized_key_bytes(bytes@),
{
    let mut i: usize = 0;
    while i < bytes.len()
        invariant
            i <= bytes@.len(),
            out@ == old(out)@ + escape_bytes(bytes@.take(i as int)),
        decreases bytes@.len() - i,
    {
        let b = bytes[i];
        if b == 0 {
            out.push(0x00);
            out.push(0xff);
        } else {
            out.push(b);
        }
        proof {
            assert(bytes@.take(i + 1) =~= bytes@.take(i as int).push(b));
            lemma_escape_push(bytes@.take(i as int), b);
        }
        i = i + 1;
        assert(out@ =~= old(out)@ + escape_bytes(bytes@.take(i as int)));
    }
    assert(bytes@.take(i as int) =~= bytes@);
    out.push(0x00);
    out.push(0x00);
    assert(out@ =~= old(out)@ + unsized_key_bytes(bytes@));
}

/// Decodes variable-size key bytes encoded with `encode_unsized_key_bytes`,
/// returning the decoded bytes and the bytes that follow the terminator.
pub fn decode_unsized_key_bytes(bytes: &[u8]) -> (res: (Vec<u8>, &[u8]))
    requires
        parse_unsized(bytes@) is Some,
    ensures
        ({
            let (v, n) = parse_unsized(bytes@)->0;
            res.0@ == v && res.1@ == bytes@.skip(n as int)
        }),
{
    let mut out: Vec<u8> = Vec::with_capacity(bytes.len());
    let mut i: usize = 0;
    assert(bytes@.skip(0) =~= bytes@);
    assert(out@ + (parse_unsized(bytes@)->0).0 =~= (parse_unsized(bytes@)->0).0);
    loop
        invariant
            i <= bytes@.len(),
            parse_unsized(bytes@.skip(i as int)) matches Some((v, n)) && parse_unsized(bytes@)
                == Some((out@ + v, (i + n) as nat)),
        decreases bytes@.len() - i,
    {
        let ghost tail = bytes@.skip(i as int);
        let ghost v = (parse_unsized(tail)->0).0;
        let ghost n = (parse_unsized(tail)->0).1;
        if bytes[i] == 0 {
            if bytes[i + 1] == 0 {
                // terminator
                let rest = vstd::slice::slice_subrange(bytes, i + 2, bytes.len());
                assert(out@ + v =~= out@);
                return (out, rest);
            } else {
                // escaped 0x00
                let ghost out0 = out@;
                out.push(0x00);
                proof {
                    assert(tail.subrange(2, tail.len() as int) =~= bytes@.skip(i + 2));
                    let v1 = (parse_unsized(bytes@.skip(i + 2))->0).0;
                    assert(out0 + v =~= out@ + v1);
                }
                i = i + 2;
            }
        } else {
            let b = bytes[i];
            let ghost out0 = out@;
            out.push(b);
            proof {
                assert(tail.drop_first() =~= bytes@.skip(i + 1));
                let v1 = (parse_unsized(bytes@.skip(i + 1))->0).0;
                assert(out0 + v =~= out@ + v1);
            }
            i = i + 1;
        }
    }
}

// ---------------------------------------------------------------------------
// Facts that follow from the laws of every key type.
// ---------------------------------------------------------------------------

/// An encoding that is a prefix of another one is the same key's encoding.
pub proof fn lemma_prefix_free<K: Key>(a: K::V, b: K::V)
    requires
        K::spec_valid(a),
        K::spec_valid(b),
        K::spec_encode(a).is_prefix_of(K::spec_encode(b)),
    ensures
        a == b,
{
    let ea = K::spec_encode(a);
    let eb = K::spec_encode(b);
    let rest = eb.skip(ea.len() as int);
    assert(eb =~= ea + rest);
    K::lemma_round_trip(a, rest);
    K::lemma_round_trip(b, Seq::empty());
    assert(eb + Seq::<u8>::empty() =~= eb);
}

/// Distinct keys have encodings of which neither is a prefix of the other.
pub proof fn lemma_distinct_keys_diverge<K: Key>(a: K::V, b: K::V)
    requires
        K::spec_valid(a),
        K::spec_valid(b),
        a != b,
    ensures
        diverge(K::spec_encode(a), K::spec_encode(b)),
{
    if K::spec_encode(a).is_prefix_of(K::spec_encode(b)) {
        lemma_prefix_free::<K>(a, b);
    }
    if K::spec_encode(b).is_prefix_of(K::spec_encode(a)) {
        lemma_prefix_free::<K>(b, a);
    }
}

/// How two byte strings compare that each start with the encoding of a key.
pub proof fn lemma_leading_key_order<K: Key>(a: K::V, b: K::V, x: Seq<u8>, y: Seq<u8>)
    requires
        K::spec_valid(a),
        K::spec_valid(b),
    ensures
        lex_lt(K::spec_encode(a) + x, K::spec_encode(b) + y) == (K::spec_lt(a, b) || (a == b
            && lex_lt(x, y))),
{
    K::lemma_order(a, b);
    K::lemma_order(a, a);
    lemma_lex_irreflexive(K::spec_encode(a));
    if a == b {
        lemma_lex_common_prefix(K::spec_encode(a), x, y);
    } else {
        lemma_distinct_keys_diverge::<K>(a, b);
        lemma_lex_diverge(K::spec_encode(a), K::spec_encode(b), x, y);
    }
}

/// Decoding the encoding of a key followed by more bytes.
pub proof fn lemma_leading_key_parse<K: Key>(a: K::V, rest: Seq<u8>)
    requires
        K::spec_valid(a),
    ensures
        K::spec_parse(K::spec_encode(a) + rest) == Some((a, K::spec_encode(a).len())),
        (K::spec_encode(a) + rest).skip(K::spec_encode(a).len() as int) == rest,
{
    K::lemma_round_trip(a, rest);
    assert((K::spec_encode(a) + rest).skip(K::spec_encode(a).len() as int) =~= rest);
}

/// What a decoder accepts at the start of `bytes`, followed by what remains.
pub proof fn lemma_parsed_split<K: Key>(bytes: Seq<u8>)
    requires
        K::spec_parse(bytes) is Some,
    ensures
        ({
            let (a, n) = K::spec_parse(bytes)->0;
            &&& n <= bytes.len()
            &&& bytes == K::spec_encode(a) + bytes.skip(n as int)
        }),
{
    K::lemma_canonical(bytes);
    let (a, n) = K::spec_parse(bytes)->0;
    assert(bytes =~= bytes.take(n as int) + bytes.skip(n as int));
}

// ---------------------------------------------------------------------------
// Booleans, byte strings and strings.
// ---------------------------------------------------------------------------

impl Key for bool {
    open spec fn spec_encode(v: bool) -> Seq<u8> {
        if v {
            seq![1u8]
        } else {
            seq![0u8]
        }
    }

    open spec fn spec_parse(bytes: Seq<u8>) -> Option<(bool, nat)> {
        if bytes.len() >= 1 && bytes[0] == 0 {
            Some((false, 1))
        } else if bytes.len() >= 1 && bytes[0] == 1 {
            Some((true, 1))
        } else {
            None
        }
    }

    open spec fn spec_lt(a: bool, b: bool) -> bool {
        !a && b
    }


    open spec fn spec_size() -> KeySize {
        KeySize::Fixed(1)
    }

    open spec fn spec_valid(v: bool) -> bool {
        true
    }

    proof fn lemma_key_valid(k: &bool) {
    }

    proof fn lemma_round_trip(v: bool, rest: Seq<u8>) {
        assert((Self::spec_encode(v) + rest)[0] == Self::spec_encode(v)[0]);
    }

    proof fn lemma_canonical(bytes: Seq<u8>) {
        if bytes.len() >= 1 {
            assert(bytes.take(1) =~= seq![bytes[0]]);
        }
    }

    proof fn lemma_order(a: bool, b: bool) {
        reveal_with_fuel(lex_lt, 2);
        assert(seq![0u8].drop_first() =~= Seq::<u8>::empty());
        assert(seq![1u8].drop_first() =~= Seq::<u8>::empty());
    }

    proof fn lemma_size(v: bool) {
    }

    fn size() -> (s: KeySize) {
        KeySize::Fixed(1)
    }

    fn encode(&self) -> (out: Vec<u8>) {
        let mut out: Vec<u8> = Vec::new();
        if *self {
            out.push(1);
        } else {
            out.push(0);
        }
        assert(out@ =~= Self::spec_encode(self@));
        out
    }

    fn decode_part(bytes: &[u8]) -> (res: (bool, &[u8])) {
        let rest = vstd::slice::slice_subrange(bytes, 1, bytes.len());
        if bytes[0] == 0 {
            (false, rest)
        } else {
            (true, rest)
        }
    }
}

impl Key for Vec<u8> {
    open spec fn spec_encode(v: Seq<u8>) -> Seq<u8> {
        unsized_key_bytes(v)
    }

    open spec fn spec_parse(bytes: Seq<u8>) -> Option<(Seq<u8>, nat)> {
        parse_unsized(bytes)
    }

    open spec fn spec_lt(a: Seq<u8>, b: Seq<u8>) -> bool {
        lex_lt(a, b)
    }


    open spec fn spec_size() -> KeySize {
        KeySize::Variable
    }

    open spec fn spec_valid(v: Seq<u8>) -> bool {
        true
    }

    proof fn lemma_key_valid(k: &Vec<u8>) {
    }

    proof fn lemma_round_trip(v: Seq<u8>, rest: Seq<u8>) {
        lemma_unsized_round_trip(v, rest);
    }

    proof fn lemma_canonical(bytes: Seq<u8>) {
        lemma_unsized_canonical(bytes);
    }

    proof fn lemma_order(a: Seq<u8>, b: Seq<u8>) {
        lemma_unsized_order(a, b);
    }

    proof fn lemma_size(v: Seq<u8>) {
    }

    fn size() -> (s: KeySize) {
        KeySize::Variable
    }

    fn encode(&self) -> (out: Vec<u8>) {
        let mut out: Vec<u8> = Vec::new();
        encode_unsized_key_bytes(self.as_slice(), &mut out);
        assert(out@ =~= unsized_key_bytes(self@));
        out
    }

    fn decode_part(bytes: &[u8]) -> (res: (Vec<u8>, &[u8])) {
        decode_unsized_key_bytes(bytes)
    }
}

/// The encoding of a string key: the framed encoding of its UTF-8 bytes.
pub open spec fn string_key_bytes(s: Seq<char>) -> Seq<u8> {
    unsized_key_bytes(encode_utf8(s))
}

/// The decoder of string keys: a framed byte string that is valid UTF-8.
pub open spec fn parse_string_key(b: Seq<u8>) -> Option<(Seq<char>, nat)> {
    match parse_unsized(b) {
        Some((v, n)) => if valid_utf8(v) {
            Some((decode_utf8(v), n))
        } else {
            None
        },
        None => None,
    }
}

/// `std::str::from_utf8`: the string slice whose bytes are `bytes`, when they
/// are valid UTF-8, and `None` otherwise.
#[verifier::external_body]
fn str_from_utf8(bytes: &[u8]) -> (r: Option<&str>)
    ensures
        r is Some <==> valid_utf8(bytes@),
        r matches Some(s) ==> s@ == decode_utf8(bytes@),
{
    std::str::from_utf8(bytes).ok()
}

/// Strings are encoded as the framed encoding of their UTF-8 bytes, so that
/// they sort as Rust orders them: byte-wise, a proper prefix first.
impl Key for String {
    open spec fn spec_encode(v: Seq<char>) -> Seq<u8> {
        string_key_bytes(v)
    }

    open spec fn spec_parse(bytes: Seq<u8>) -> Option<(Seq<char>, nat)> {
        parse_string_key(bytes)
    }

    open spec fn spec_lt(a: Seq<char>, b: Seq<char>) -> bool {
        lex_lt(encode_utf8(a), encode_utf8(b))
    }

    open spec fn spec_size() -> KeySize {
        KeySize::Variable
    }

    open spec fn spec_valid(v: Seq<char>) -> bool {
        true
    }

    proof fn lemma_key_valid(k: &String) {
    }

    proof fn lemma_round_trip(v: Seq<char>, rest: Seq<u8>) {
        lemma_unsized_round_trip(encode_utf8(v), rest);
        vstd::utf8::encode_utf8_valid_utf8(v);
        vstd::utf8::encode_utf8_decode_utf8(v);
    }

    proof fn lemma_canonical(bytes: Seq<u8>) {
        lemma_unsized_canonical(bytes);
        if let Some((v, n)) = parse_unsized(bytes) {
            if valid_utf8(v) {
                vstd::utf8::decode_utf8_encode_utf8(v);
            }
        }
    }

    proof fn lemma_order(a: Seq<char>, b: Seq<char>) {
        lemma_unsized_order(encode_utf8(a), encode_utf8(b));
    }

    proof fn lemma_size(v: Seq<char>) {
    }

    fn size() -> (s: KeySize) {
        KeySize::Variable
    }

    fn encode(&self) -> (out: Vec<u8>) {
        let bytes = self.as_str().as_bytes();
        let mut out: Vec<u8> = Vec::new();
        encode_unsized_key_bytes(bytes, &mut out);
        assert(out@ =~= string_key_bytes(self@));
        out
    }

    fn decode_part(bytes: &[u8]) -> (res: (String, &[u8])) {
        let (utf8, rest) = decode_unsized_key_bytes(bytes);
        let text = str_from_utf8(utf8.as_slice()).unwrap();
        (text.to_owned(), rest)
    }
}

/// Fixed-size byte arrays are their own encoding.
impl<const S: usize> Key for [u8; S] {
    open spec fn spec_encode(v: Seq<u8>) -> Seq<u8> {
        v
    }

    open spec fn spec_parse(bytes: Seq<u8>) -> Option<(Seq<u8>, nat)> {
        if bytes.len() >= S {
            Some((bytes.take(S as int), S as nat))
        } else {
            None
        }
    }

    open spec fn spec_lt(a: Seq<u8>, b: Seq<u8>) -> bool {
        lex_lt(a, b)
    }


    open spec fn spec_size() -> KeySize {
        KeySize::Fixed(S)
    }

    open spec fn spec_valid(v: Seq<u8>) -> bool {
        v.len() == S
    }

    proof fn lemma_key_valid(k: &[u8; S]) {
        vstd::array::array_len_matches_n(k);
    }

    proof fn lemma_round_trip(v: Seq<u8>, rest: Seq<u8>) {
        assert((v + rest).take(S as int) =~= v);
    }

    proof fn lemma_canonical(bytes: Seq<u8>) {
    }

    proof fn lemma_order(a: Seq<u8>, b: Seq<u8>) {
    }

    proof fn lemma_size(v: Seq<u8>) {
    }

    fn size() -> (s: KeySize) {
        KeySize::Fixed(S)
    }

    fn encode(&self) -> (out: Vec<u8>) {
        vstd::slice::slice_to_vec(self.as_slice())
    }

    fn decode_part(bytes: &[u8]) -> (res: ([u8; S], &[u8])) {
        let mut key: [u8; S] = vstd::array::array_fill_for_copy_types(0u8);
        proof {
            vstd::array::array_len_matches_n(&key);
        }
        let mut i: usize = 0;
        while i < S
            invariant
                i <= S <= bytes@.len(),
                key@.len() == S,
                forall|j: int| 0 <= j < i ==> key@[j] == bytes@[j],
            decreases S - i,
        {
            key[i] = bytes[i];
            i = i + 1;
        }
        assert(key@ =~= bytes@.take(S as int));
        let rest = vstd::slice::slice_subrange(bytes, S, bytes.len());
        (key, rest)
    }
}

// ---------------------------------------------------------------------------
// Composite keys: the concatenation of the components' encodings.
// ---------------------------------------------------------------------------

/// The size of a key made of two parts.
pub open spec fn sum_sizes(a: KeySize, b: KeySize) -> KeySize {
    match (a, b) {
        (KeySize::Fixed(s1), KeySize::Fixed(s2)) => if s1 + s2 <= usize::MAX {
            KeySize::Fixed((s1 + s2) as usize)
        } else {
            KeySize::Variable
        },
        _ => KeySize::Variable,
    }
}

fn add_sizes(a: KeySize, b: KeySize) -> (r: KeySize)
    ensures
        r == sum_sizes(a, b),
{
    match (a, b) {
        (KeySize::Fixed(s1), KeySize::Fixed(s2)) => if s1 <= usize::MAX - s2 {
            KeySize::Fixed(s1 + s2)
        } else {
            KeySize::Variable
        },
        _ => KeySize::Variable,
    }
}

impl<K: Key> Key for (K,) {
    open spec fn spec_encode(v: (K::V,)) -> Seq<u8> {
        K::spec_encode(v.0)
    }

    open spec fn spec_parse(bytes: Seq<u8>) -> Option<((K::V,), nat)> {
        match K::spec_parse(bytes) {
            Some((k, n)) => Some(((k,), n)),
            None => None,
        }
    }

    open spec fn spec_lt(a: (K::V,), b: (K::V,)) -> bool {
        K::spec_lt(a.0, b.0)
    }


    open spec fn spec_size() -> KeySize {
        K::spec_size()
    }

    open spec fn spec_valid(v: (K::V,)) -> bool {
        K::spec_valid(v.0)
    }

    proof fn lemma_key_valid(k: &(K,)) {
        K::lemma_key_valid(&k.0);
    }

    proof fn lemma_round_trip(v: (K::V,), rest: Seq<u8>) {
        K::lemma_round_trip(v.0, rest);
    }

    proof fn lemma_canonical(bytes: Seq<u8>) {
        K::lemma_canonical(bytes);
    }

    proof fn lemma_order(a: (K::V,), b: (K::V,)) {
        K::lemma_order(a.0, b.0);
    }

    proof fn lemma_size(v: (K::V,)) {
        K::lemma_size(v.0);
    }

    fn size() -> (s: KeySize) {
        K::size()
    }

    fn encode(&self) -> (out: Vec<u8>) {
        self.0.encode()
    }

    fn decode_part(bytes: &[u8]) -> (res: ((K,), &[u8])) {
        let (k, r) = K::decode_part(bytes);
        ((k,), r)
    }
}

impl<A: Key, B: Key> Key for (A, B) {
    open spec fn spec_encode(v: (A::V, B::V)) -> Seq<u8> {
        A::spec_encode(v.0) + B::spec_encode(v.1)
    }

    open spec fn spec_parse(bytes: Seq<u8>) -> Option<((A::V, B::V), nat)> {
        match A::spec_parse(bytes) {
            Some((a, n)) => match B::spec_parse(bytes.skip(n as int)) {
                Some((b, m)) => Some(((a, b), n + m)),
                None => None,
            },
            None => None,
        }
    }

    open spec fn spec_lt(x: (A::V, B::V), y: (A::V, B::V)) -> bool {
        A::spec_lt(x.0, y.0) || (x.0 == y.0 && B::spec_lt(x.1, y.1))
    }


    open spec fn spec_size() -> KeySize {
        sum_sizes(A::spec_size(), B::spec_size())
    }

    open spec fn spec_valid(v: (A::V, B::V)) -> bool {
        A::spec_valid(v.0) && B::spec_valid(v.1)
    }

    proof fn lemma_key_valid(k: &(A, B)) {
        A::lemma_key_valid(&k.0);
        B::lemma_key_valid(&k.1);
    }

    proof fn lemma_round_trip(v: (A::V, B::V), rest: Seq<u8>) {
        let ea = A::spec_encode(v.0);
        let eb = B::spec_encode(v.1);
        assert(ea + eb + rest =~= ea + (eb + rest));
        lemma_leading_key_parse::<A>(v.0, eb + rest);
        lemma_leading_key_parse::<B>(v.1, rest);
    }

    proof fn lemma_canonical(bytes: Seq<u8>) {
        A::lemma_canonical(bytes);
        if let Some((a, n)) = A::spec_parse(bytes) {
            let r = bytes.skip(n as int);
            B::lemma_canonical(r);
            if let Some((b, m)) = B::spec_parse(r) {
                assert(bytes.take((n + m) as int) =~= bytes.take(n as int) + r.take(m as int));
            }
        }
    }

    proof fn lemma_order(x: (A::V, B::V), y: (A::V, B::V)) {
        A::lemma_order(x.0, x.0);
        B::lemma_order(x.1, x.1);
        {
            lemma_leading_key_order::<A>(x.0, y.0, B::spec_encode(x.1), B::spec_encode(y.1));
            if x.0 == y.0 {
                B::lemma_order(x.1, y.1);
            }
        }
    }

    proof fn lemma_size(v: (A::V, B::V)) {
        A::lemma_size(v.0);
        B::lemma_size(v.1);
    }

    fn size() -> (s: KeySize) {
        add_sizes(A::size(), B::size())
    }

    fn encode(&self) -> (out: Vec<u8>) {
        match Self::size() {
            KeySize::Fixed(s) => {
                let mut out: Vec<u8> = Vec::with_capacity(s);
                let a = self.0.encode();
                extend_bytes(&mut out, a.as_slice());
                let b = self.1.encode();
                extend_bytes(&mut out, b.as_slice());
                assert(out@ =~= Self::spec_encode(self@));
                out
            },
            KeySize::Variable => {
                let mut out = self.0.encode();
                let b = self.1.encode();
                extend_bytes(&mut out, b.as_slice());
                out
            },
        }
    }

    fn decode_part(bytes: &[u8]) -> (res: ((A, B), &[u8])) {
        let (a, r1) = A::decode_part(bytes);
        let (b, r2) = B::decode_part(r1);
        proof {
            let n = (A::spec_parse(bytes@)->0).1;
            let m = (B::spec_parse(r1@)->0).1;
            lemma_parsed_split::<A>(bytes@);
            lemma_parsed_split::<B>(r1@);
            assert(r2@ =~= bytes@.skip((n + m) as int));
        }
        ((a, b), r2)
    }
}

impl<A: Key, B: Key, C: Key> Key for (A, B, C) {
    open spec fn spec_encode(v: (A::V, B::V, C::V)) -> Seq<u8> {
        A::spec_encode(v.0) + <(B, C) as Key>::spec_encode((v.1, v.2))
    }

    open spec fn spec_parse(bytes: Seq<u8>) -> Option<((A::V, B::V, C::V), nat)> {
        match A::spec_parse(bytes) {
            Some((a, n)) => match <(B, C) as Key>::spec_parse(bytes.skip(n as int)) {
                Some((t, m)) => Some(((a, t.0, t.1), n + m)),
                None => None,
            },
            None => None,
        }
    }

    open spec fn spec_lt(x: (A::V, B::V, C::V), y: (A::V, B::V, C::V)) -> bool {
        A::spec_lt(x.0, y.0) || (x.0 == y.0 && <(B, C) as Key>::spec_lt((x.1, x.2), (y.1, y.2)))
    }


    open spec fn spec_size() -> KeySize {
        sum_sizes(A::spec_size(), <(B, C) as Key>::spec_size())
    }

    open spec fn spec_valid(v: (A::V, B::V, C::V)) -> bool {
        A::spec_valid(v.0) && <(B, C) as Key>::spec_valid((v.1, v.2))
    }

    proof fn lemma_key_valid(k: &(A, B, C)) {
        A::lemma_key_valid(&k.0);
        B::lemma_key_valid(&k.1);
        C::lemma_key_valid(&k.2);
    }

    proof fn lemma_round_trip(v: (A::V, B::V, C::V), rest: Seq<u8>) {
        let ea = A::spec_encode(v.0);
        let et = <(B, C) as Key>::spec_encode((v.1, v.2));
        assert(ea + et + rest =~= ea + (et + rest));
        lemma_leading_key_parse::<A>(v.0, et + rest);
        lemma_leading_key_parse::<(B, C)>((v.1, v.2), rest);
    }

    proof fn lemma_canonical(bytes: Seq<u8>) {
        A::lemma_canonical(bytes);
        if let Some((a, n)) = A::spec_parse(bytes) {
            let r = bytes.skip(n as int);
            <(B, C) as Key>::lemma_canonical(r);
            if let Some((t, m)) = <(B, C) as Key>::spec_parse(r) {
                assert(bytes.take((n + m) as int) =~= bytes.take(n as int) + r.take(m as int));
            }
        }
    }

    proof fn lemma_order(x: (A::V, B::V, C::V), y: (A::V, B::V, C::V)) {
        A::lemma_order(x.0, x.0);
        <(B, C) as Key>::lemma_order((x.1, x.2), (x.1, x.2));
        {
            lemma_leading_key_order::<A>(
                x.0,
                y.0,
                <(B, C) as Key>::spec_encode((x.1, x.2)),
                <(B, C) as Key>::spec_encode((y.1, y.2)),
            );
            if x.0 == y.0 {
                <(B, C) as Key>::lemma_order((x.1, x.2), (y.1, y.2));
            }
        }
    }

    proof fn lemma_size(v: (A::V, B::V, C::V)) {
        A::lemma_size(v.0);
        <(B, C) as Key>::lemma_size((v.1, v.2));
    }

    fn size() -> (s: KeySize) {
        add_sizes(A::size(), <(B, C) as Key>::size())
    }

    fn encode(&self) -> (out: Vec<u8>) {
        let mut out = match Self::size() {
            KeySize::Fixed(s) => {
                let mut out: Vec<u8> = Vec::with_capacity(s);
                let a = self.0.encode();
                extend_bytes(&mut out, a.as_slice());
                out
            },
            KeySize::Variable => self.0.encode(),
        };
        let b = self.1.encode();
        extend_bytes(&mut out, b.as_slice());
        let c = self.2.encode();
        extend_bytes(&mut out, c.as_slice());
        assert(out@ =~= Self::spec_encode(self@));
        out
    }

    fn decode_part(bytes: &[u8]) -> (res: ((A, B, C), &[u8])) {
        let (a, r1) = A::decode_part(bytes);
        let (b, r2) = B::decode_part(r1);
        let (c, r3) = C::decode_part(r2);
        proof {
            let n1 = (A::spec_parse(bytes@)->0).1;
            let n2 = (B::spec_parse(r1@)->0).1;
            let n3 = (C::spec_parse(r2@)->0).1;
            lemma_parsed_split::<A>(bytes@);
            lemma_parsed_split::<B>(r1@);
            lemma_parsed_split::<C>(r2@);
            assert(r3@ =~= r1@.skip((n2 + n3) as int));
            assert(r3@ =~= bytes@.skip((n1 + n2 + n3) as int));
        }
        ((a, b, c), r3)
    }
}

impl<A: Key, B: Key, C: Key, D: Key> Key for (A, B, C, D) {
    open spec fn spec_encode(v: (A::V, B::V, C::V, D::V)) -> Seq<u8> {
        A::spec_encode(v.0) + <(B, C, D) as Key>::spec_encode((v.1, v.2, v.3))
    }

    open spec fn spec_parse(bytes: Seq<u8>) -> Option<((A::V, B::V, C::V, D::V), nat)> {
        match A::spec_parse(bytes) {
            Some((a, n)) => match <(B, C, D) as Key>::spec_parse(bytes.skip(n as int)) {
                Some((t, m)) => Some(((a, t.0, t.1, t.2), n + m)),
                None => None,
            },
            None => None,
        }
    }

    open spec fn spec_lt(x: (A::V, B::V, C::V, D::V), y: (A::V, B::V, C::V, D::V)) -> bool {
        A::spec_lt(x.0, y.0) || (x.0 == y.0 && <(B, C, D) as Key>::spec_lt(
            (x.1, x.2, x.3),
            (y.1, y.2, y.3),
        ))
    }


    open spec fn spec_size() -> KeySize {
        sum_sizes(A::spec_size(), <(B, C, D) as Key>::spec_size())
    }

    open spec fn spec_valid(v: (A::V, B::V, C::V, D::V)) -> bool {
        A::spec_valid(v.0) && <(B, C, D) as Key>::spec_valid((v.1, v.2, v.3))
    }

    proof fn lemma_key_valid(k: &(A, B, C, D)) {
        A::lemma_key_valid(&k.0);
        B::lemma_key_valid(&k.1);
        C::lemma_key_valid(&k.2);
        D::lemma_key_valid(&k.3);
    }

    proof fn lemma_round_trip(v: (A::V, B::V, C::V, D::V), rest: Seq<u8>) {
        let ea = A::spec_encode(v.0);
        let et = <(B, C, D) as Key>::spec_encode((v.1, v.2, v.3));
        assert(ea + et + rest =~= ea + (et + rest));
        lemma_leading_key_parse::<A>(v.0, et + rest);
        lemma_leading_key_parse::<(B, C, D)>((v.1, v.2, v.3), rest);
    }

    proof fn lemma_canonical(bytes: Seq<u8>) {
        A::lemma_canonical(bytes);
        if let Some((a, n)) = A::spec_parse(bytes) {
            let r = bytes.skip(n as int);
            <(B, C, D) as Key>::lemma_canonical(r);
            if let Some((t, m)) = <(B, C, D) as Key>::spec_parse(r) {
                assert(bytes.take((n + m) as int) =~= bytes.take(n as int) + r.take(m as int));
            }
        }
    }

    proof fn lemma_order(x: (A::V, B::V, C::V, D::V), y: (A::V, B::V, C::V, D::V)) {
        A::lemma_order(x.0, x.0);
        <(B, C, D) as Key>::lemma_order((x.1, x.2, x.3), (x.1, x.2, x.3));
        {
            lemma_leading_key_order::<A>(
                x.0,
                y.0,
                <(B, C, D) as Key>::spec_encode((x.1, x.2, x.3)),
                <(B, C, D) as Key>::spec_encode((y.1, y.2, y.3)),
            );
            if x.0 == y.0 {
                <(B, C, D) as Key>::lemma_order((x.1, x.2, x.3), (y.1, y.2, y.3));
            }
        }
    }

    proof fn lemma_size(v: (A::V, B::V, C::V, D::V)) {
        A::lemma_size(v.0);
        <(B, C, D) as Key>::lemma_size((v.1, v.2, v.3));
    }

    fn size() -> (s: KeySize) {
        add_sizes(A::size(), <(B, C, D) as Key>::size())
    }

    fn encode(&self) -> (out: Vec<u8>) {
        let mut out = match Self::size() {
            KeySize::Fixed(s) => {
                let mut out: Vec<u8> = Vec::with_capacity(s);
                let a = self.0.encode();
                extend_bytes(&mut out, a.as_slice());
                out
            },
            KeySize::Variable => self.0.encode(),
        };
        let b = self.1.encode();
        extend_bytes(&mut out, b.as_slice());
        let c = self.2.encode();
        extend_bytes(&mut out, c.as_slice());
        let d = self.3.encode();
        extend_bytes(&mut out, d.as_slice());
        assert(out@ =~= Self::spec_encode(self@));
        out
    }

    fn decode_part(bytes: &[u8]) -> (res: ((A, B, C, D), &[u8])) {
        let (a, r1) = A::decode_part(bytes);
        let (b, r2) = B::decode_part(r1);
        let (c, r3) = C::decode_part(r2);
        let (d, r4) = D::decode_part(r3);
        proof {
            let n1 = (A::spec_parse(bytes@)->0).1;
            let n2 = (B::spec_parse(r1@)->0).1;
            let n3 = (C::spec_parse(r2@)->0).1;
            let n4 = (D::spec_parse(r3@)->0).1;
            lemma_parsed_split::<A>(bytes@);
            lemma_parsed_split::<B>(r1@);
            lemma_parsed_split::<C>(r2@);
            lemma_parsed_split::<D>(r3@);
            assert(r4@ =~= r2@.skip((n3 + n4) as int));
            assert(r4@ =~= r1@.skip((n2 + n3 + n4) as int));
            assert(r4@ =~= bytes@.skip((n1 + n2 + n3 + n4) as int));
        }
        ((a, b, c, d), r4)
    }
}

/// Appends a primary key to an index key, giving the composite key under
/// which a multi-valued index stores an entry.
pub trait AppendKey<PK: Key>: Key {
    type Appended: Key;

    spec fn spec_append(v: Self::V, pk: PK::V) -> <Self::Appended as View>::V;

    fn append(self, pk: PK) -> (k: Self::Appended)
        ensures
            k@ == Self::spec_append(self@, pk@),
    ;
}

impl<K: Key, PK: Key> AppendKey<PK> for (K,) {
    type Appended = (K, PK);

    open spec fn spec_append(v: (K::V,), pk: PK::V) -> (K::V, PK::V) {
        (v.0, pk)
    }

    fn append(self, pk: PK) -> (k: (K, PK)) {
        (self.0, pk)
    }
}

impl<A: Key, B: Key, PK: Key> AppendKey<PK> for (A, B) {
    type Appended = (A, B, PK);

    open spec fn spec_append(v: (A::V, B::V), pk: PK::V) -> (A::V, B::V, PK::V) {
        (v.0, v.1, pk)
    }

    fn append(self, pk: PK) -> (k: (A, B, PK)) {
        (self.0, self.1, pk)
    }
}

impl<A: Key, B: Key, C: Key, PK: Key> AppendKey<PK> for (A, B, C) {
    type Appended = (A, B, C, PK);

    open spec fn spec_append(v: (A::V, B::V, C::V), pk: PK::V) -> (A::V, B::V, C::V, PK::V) {
        (v.0, v.1, v.2, pk)
    }

    fn append(self, pk: PK) -> (k: (A, B, C, PK)) {
        (self.0, self.1, self.2, pk)
    }
}

} // verus!
