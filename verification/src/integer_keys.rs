//! Keys for the primitive integer types: unsigned integers are encoded
//! big-endian, signed integers big-endian after adding half their range (the
//! sign bit flipped), so that byte order is numeric order.
use vstd::prelude::*;
use crate::big_endian::{
    be_bytes, be_value, decode_be, encode_be, lemma_be_bytes_of_value, lemma_be_len,
    lemma_be_order, lemma_be_value_of_bytes, lemma_pow256_values, signed_from_sortable,
    sortable_from_signed,
};
use crate::key::{Key, KeySize};

verus! {

impl Key for u8 {
    open spec fn spec_encode(v: u8) -> Seq<u8> {
        be_bytes(v as nat, 1)
    }

    open spec fn spec_parse(bytes: Seq<u8>) -> Option<(u8, nat)> {
        if bytes.len() >= 1 {
            Some((be_value(bytes.take(1)) as u8, 1))
        } else {
            None
        }
    }

    open spec fn spec_lt(a: u8, b: u8) -> bool {
        a < b
    }


    open spec fn spec_size() -> KeySize {
        KeySize::Fixed(1)
    }

    open spec fn spec_valid(v: u8) -> bool {
        true
    }

    proof fn lemma_key_valid(k: &u8) {
    }

    proof fn lemma_round_trip(v: u8, rest: Seq<u8>) {
        lemma_pow256_values();
        lemma_be_value_of_bytes(v as nat, 1);
        assert((be_bytes(v as nat, 1) + rest).take(1) =~= be_bytes(v as nat, 1));
    }

    proof fn lemma_canonical(bytes: Seq<u8>) {
        if bytes.len() >= 1 {
            lemma_pow256_values();
            lemma_be_bytes_of_value(bytes.take(1));
        }
    }

    proof fn lemma_order(a: u8, b: u8) {
        lemma_pow256_values();
        lemma_be_order(a as nat, b as nat, 1);
    }

    proof fn lemma_size(v: u8) {
        lemma_be_len(v as nat, 1);
    }

    fn size() -> (s: KeySize) {
        KeySize::Fixed(1)
    }

    fn encode(&self) -> (out: Vec<u8>) {
        proof {
            lemma_pow256_values();
        }
        encode_be(*self as u128, 1)
    }

    fn decode_part(bytes: &[u8]) -> (res: (u8, &[u8])) {
        proof {
            lemma_pow256_values();
            lemma_be_bytes_of_value(bytes@.take(1));
        }
        let v = decode_be(bytes, 1);
        let rest = vstd::slice::slice_subrange(bytes, 1, bytes.len());
        (v as u8, rest)
    }
}

impl Key for u16 {
    open spec fn spec_encode(v: u16) -> Seq<u8> {
        be_bytes(v as nat, 2)
    }

    open spec fn spec_parse(bytes: Seq<u8>) -> Option<(u16, nat)> {
        if bytes.len() >= 2 {
            Some((be_value(bytes.take(2)) as u16, 2))
        } else {
            None
        }
    }

    open spec fn spec_lt(a: u16, b: u16) -> bool {
        a < b
    }


    open spec fn spec_size() -> KeySize {
        KeySize::Fixed(2)
    }

    open spec fn spec_valid(v: u16) -> bool {
        true
    }

    proof fn lemma_key_valid(k: &u16) {
    }

    proof fn lemma_round_trip(v: u16, rest: Seq<u8>) {
        lemma_pow256_values();
        lemma_be_value_of_bytes(v as nat, 2);
        assert((be_bytes(v as nat, 2) + rest).take(2) =~= be_bytes(v as nat, 2));
    }

    proof fn lemma_canonical(bytes: Seq<u8>) {
        if bytes.len() >= 2 {
            lemma_pow256_values();
            lemma_be_bytes_of_value(bytes.take(2));
        }
    }

    proof fn lemma_order(a: u16, b: u16) {
        lemma_pow256_values();
        lemma_be_order(a as nat, b as nat, 2);
    }

    proof fn lemma_size(v: u16) {
        lemma_be_len(v as nat, 2);
    }

    fn size() -> (s: KeySize) {
        KeySize::Fixed(2)
    }

    fn encode(&self) -> (out: Vec<u8>) {
        proof {
            lemma_pow256_values();
        }
        encode_be(*self as u128, 2)
    }

    fn decode_part(bytes: &[u8]) -> (res: (u16, &[u8])) {
        proof {
            lemma_pow256_values();
            lemma_be_bytes_of_value(bytes@.take(2));
        }
        let v = decode_be(bytes, 2);
        let rest = vstd::slice::slice_subrange(bytes, 2, bytes.len());
        (v as u16, rest)
    }
}

impl Key for u32 {
    open spec fn spec_encode(v: u32) -> Seq<u8> {
        be_bytes(v as nat, 4)
    }

    open spec fn spec_parse(bytes: Seq<u8>) -> Option<(u32, nat)> {
        if bytes.len() >= 4 {
            Some((be_value(bytes.take(4)) as u32, 4))
        } else {
            None
        }
    }

    open spec fn spec_lt(a: u32, b: u32) -> bool {
        a < b
    }


    open spec fn spec_size() -> KeySize {
        KeySize::Fixed(4)
    }

    open spec fn spec_valid(v: u32) -> bool {
        true
    }

    proof fn lemma_key_valid(k: &u32) {
    }

    proof fn lemma_round_trip(v: u32, rest: Seq<u8>) {
        lemma_pow256_values();
        lemma_be_value_of_bytes(v as nat, 4);
        assert((be_bytes(v as nat, 4) + rest).take(4) =~= be_bytes(v as nat, 4));
    }

    proof fn lemma_canonical(bytes: Seq<u8>) {
        if bytes.len() >= 4 {
            lemma_pow256_values();
            lemma_be_bytes_of_value(bytes.take(4));
        }
    }

    proof fn lemma_order(a: u32, b: u32) {
        lemma_pow256_values();
        lemma_be_order(a as nat, b as nat, 4);
    }

    proof fn lemma_size(v: u32) {
        lemma_be_len(v as nat, 4);
    }

    fn size() -> (s: KeySize) {
        KeySize::Fixed(4)
    }

    fn encode(&self) -> (out: Vec<u8>) {
        proof {
            lemma_pow256_values();
        }
        encode_be(*self as u128, 4)
    }

    fn decode_part(bytes: &[u8]) -> (res: (u32, &[u8])) {
        proof {
            lemma_pow256_values();
            lemma_be_bytes_of_value(bytes@.take(4));
        }
        let v = decode_be(bytes, 4);
        let rest = vstd::slice::slice_subrange(bytes, 4, bytes.len());
        (v as u32, rest)
    }
}

impl Key for u64 {
    open spec fn spec_encode(v: u64) -> Seq<u8> {
        be_bytes(v as nat, 8)
    }

    open spec fn spec_parse(bytes: Seq<u8>) -> Option<(u64, nat)> {
        if bytes.len() >= 8 {
            Some((be_value(bytes.take(8)) as u64, 8))
        } else {
            None
        }
    }

    open spec fn spec_lt(a: u64, b: u64) -> bool {
        a < b
    }


    open spec fn spec_size() -> KeySize {
        KeySize::Fixed(8)
    }

    open spec fn spec_valid(v: u64) -> bool {
        true
    }

    proof fn lemma_key_valid(k: &u64) {
    }

    proof fn lemma_round_trip(v: u64, rest: Seq<u8>) {
        lemma_pow256_values();
        lemma_be_value_of_bytes(v as nat, 8);
        assert((be_bytes(v as nat, 8) + rest).take(8) =~= be_bytes(v as nat, 8));
    }

    proof fn lemma_canonical(bytes: Seq<u8>) {
        if bytes.len() >= 8 {
            lemma_pow256_values();
            lemma_be_bytes_of_value(bytes.take(8));
        }
    }

    proof fn lemma_order(a: u64, b: u64) {
        lemma_pow256_values();
        lemma_be_order(a as nat, b as nat, 8);
    }

    proof fn lemma_size(v: u64) {
        lemma_be_len(v as nat, 8);
    }

    fn size() -> (s: KeySize) {
        KeySize::Fixed(8)
    }

    fn encode(&self) -> (out: Vec<u8>) {
        proof {
            lemma_pow256_values();
        }
        encode_be(*self as u128, 8)
    }

    fn decode_part(bytes: &[u8]) -> (res: (u64, &[u8])) {
        proof {
            lemma_pow256_values();
            lemma_be_bytes_of_value(bytes@.take(8));
        }
        let v = decode_be(bytes, 8);
        let rest = vstd::slice::slice_subrange(bytes, 8, bytes.len());
        (v as u64, rest)
    }
}

impl Key for u128 {
    open spec fn spec_encode(v: u128) -> Seq<u8> {
        be_bytes(v as nat, 16)
    }

    open spec fn spec_parse(bytes: Seq<u8>) -> Option<(u128, nat)> {
        if bytes.len() >= 16 {
            Some((be_value(bytes.take(16)) as u128, 16))
        } else {
            None
        }
    }

    open spec fn spec_lt(a: u128, b: u128) -> bool {
        a < b
    }


    open spec fn spec_size() -> KeySize {
        KeySize::Fixed(16)
    }

    open spec fn spec_valid(v: u128) -> bool {
        true
    }

    proof fn lemma_key_valid(k: &u128) {
    }

    proof fn lemma_round_trip(v: u128, rest: Seq<u8>) {
        lemma_pow256_values();
        lemma_be_value_of_bytes(v as nat, 16);
        assert((be_bytes(v as nat, 16) + rest).take(16) =~= be_bytes(v as nat, 16));
    }

    proof fn lemma_canonical(bytes: Seq<u8>) {
        if bytes.len() >= 16 {
            lemma_pow256_values();
            lemma_be_bytes_of_value(bytes.take(16));
        }
    }

    proof fn lemma_order(a: u128, b: u128) {
        lemma_pow256_values();
        lemma_be_order(a as nat, b as nat, 16);
    }

    proof fn lemma_size(v: u128) {
        lemma_be_len(v as nat, 16);
    }

    fn size() -> (s: KeySize) {
        KeySize::Fixed(16)
    }

    fn encode(&self) -> (out: Vec<u8>) {
        proof {
            lemma_pow256_values();
        }
        encode_be(*self as u128, 16)
    }

    fn decode_part(bytes: &[u8]) -> (res: (u128, &[u8])) {
        proof {
            lemma_pow256_values();
            lemma_be_bytes_of_value(bytes@.take(16));
        }
        let v = decode_be(bytes, 16);
        let rest = vstd::slice::slice_subrange(bytes, 16, bytes.len());
        (v as u128, rest)
    }
}

impl Key for i8 {
    open spec fn spec_encode(v: i8) -> Seq<u8> {
        be_bytes((v + 0x80) as nat, 1)
    }

    open spec fn spec_parse(bytes: Seq<u8>) -> Option<(i8, nat)> {
        if bytes.len() >= 1 {
            Some(((be_value(bytes.take(1)) - 0x80) as i8, 1))
        } else {
            None
        }
    }

    open spec fn spec_lt(a: i8, b: i8) -> bool {
        a < b
    }


    open spec fn spec_size() -> KeySize {
        KeySize::Fixed(1)
    }

    open spec fn spec_valid(v: i8) -> bool {
        true
    }

    proof fn lemma_key_valid(k: &i8) {
    }

    proof fn lemma_round_trip(v: i8, rest: Seq<u8>) {
        lemma_pow256_values();
        lemma_be_value_of_bytes((v + 0x80) as nat, 1);
        assert((be_bytes((v + 0x80) as nat, 1) + rest).take(1) =~= be_bytes((v + 0x80) as nat, 1));
    }

    proof fn lemma_canonical(bytes: Seq<u8>) {
        if bytes.len() >= 1 {
            lemma_pow256_values();
            lemma_be_bytes_of_value(bytes.take(1));
        }
    }

    proof fn lemma_order(a: i8, b: i8) {
        lemma_pow256_values();
        lemma_be_order((a + 0x80) as nat, (b + 0x80) as nat, 1);
    }

    proof fn lemma_size(v: i8) {
        lemma_be_len((v + 0x80) as nat, 1);
    }

    fn size() -> (s: KeySize) {
        KeySize::Fixed(1)
    }

    fn encode(&self) -> (out: Vec<u8>) {
        proof {
            lemma_pow256_values();
        }
        let sortable = sortable_from_signed(*self as i128, 1);
        encode_be(sortable, 1)
    }

    fn decode_part(bytes: &[u8]) -> (res: (i8, &[u8])) {
        proof {
            lemma_pow256_values();
            lemma_be_bytes_of_value(bytes@.take(1));
        }
        let sortable = decode_be(bytes, 1);
        let v = signed_from_sortable(sortable, 1);
        let rest = vstd::slice::slice_subrange(bytes, 1, bytes.len());
        (v as i8, rest)
    }
}

impl Key for i16 {
    open spec fn spec_encode(v: i16) -> Seq<u8> {
        be_bytes((v + 0x8000) as nat, 2)
    }

    open spec fn spec_parse(bytes: Seq<u8>) -> Option<(i16, nat)> {
        if bytes.len() >= 2 {
            Some(((be_value(bytes.take(2)) - 0x8000) as i16, 2))
        } else {
            None
        }
    }

    open spec fn spec_lt(a: i16, b: i16) -> bool {
        a < b
    }


    open spec fn spec_size() -> KeySize {
        KeySize::Fixed(2)
    }

    open spec fn spec_valid(v: i16) -> bool {
        true
    }

    proof fn lemma_key_valid(k: &i16) {
    }

    proof fn lemma_round_trip(v: i16, rest: Seq<u8>) {
        lemma_pow256_values();
        lemma_be_value_of_bytes((v + 0x8000) as nat, 2);
        assert((be_bytes((v + 0x8000) as nat, 2) + rest).take(2) =~= be_bytes((v + 0x8000) as nat, 2));
    }

    proof fn lemma_canonical(bytes: Seq<u8>) {
        if bytes.len() >= 2 {
            lemma_pow256_values();
            lemma_be_bytes_of_value(bytes.take(2));
        }
    }

    proof fn lemma_order(a: i16, b: i16) {
        lemma_pow256_values();
        lemma_be_order((a + 0x8000) as nat, (b + 0x8000) as nat, 2);
    }

    proof fn lemma_size(v: i16) {
        lemma_be_len((v + 0x8000) as nat, 2);
    }

    fn size() -> (s: KeySize) {
        KeySize::Fixed(2)
    }

    fn encode(&self) -> (out: Vec<u8>) {
        proof {
            lemma_pow256_values();
        }
        let sortable = sortable_from_signed(*self as i128, 2);
        encode_be(sortable, 2)
    }

    fn decode_part(bytes: &[u8]) -> (res: (i16, &[u8])) {
        proof {
            lemma_pow256_values();
            lemma_be_bytes_of_value(bytes@.take(2));
        }
        let sortable = decode_be(bytes, 2);
        let v = signed_from_sortable(sortable, 2);
        let rest = vstd::slice::slice_subrange(bytes, 2, bytes.len());
        (v as i16, rest)
    }
}

impl Key for i32 {
    open spec fn spec_encode(v: i32) -> Seq<u8> {
        be_bytes((v + 0x8000_0000) as nat, 4)
    }

    open spec fn spec_parse(bytes: Seq<u8>) -> Option<(i32, nat)> {
        if bytes.len() >= 4 {
            Some(((be_value(bytes.take(4)) - 0x8000_0000) as i32, 4))
        } else {
            None
        }
    }

    open spec fn spec_lt(a: i32, b: i32) -> bool {
        a < b
    }


    open spec fn spec_size() -> KeySize {
        KeySize::Fixed(4)
    }

    open spec fn spec_valid(v: i32) -> bool {
        true
    }

    proof fn lemma_key_valid(k: &i32) {
    }

    proof fn lemma_round_trip(v: i32, rest: Seq<u8>) {
        lemma_pow256_values();
        lemma_be_value_of_bytes((v + 0x8000_0000) as nat, 4);
        assert((be_bytes((v + 0x8000_0000) as nat, 4) + rest).take(4) =~= be_bytes((v + 0x8000_0000) as nat, 4));
    }

    proof fn lemma_canonical(bytes: Seq<u8>) {
        if bytes.len() >= 4 {
            lemma_pow256_values();
            lemma_be_bytes_of_value(bytes.take(4));
        }
    }

    proof fn lemma_order(a: i32, b: i32) {
        lemma_pow256_values();
        lemma_be_order((a + 0x8000_0000) as nat, (b + 0x8000_0000) as nat, 4);
    }

    proof fn lemma_size(v: i32) {
        lemma_be_len((v + 0x8000_0000) as nat, 4);
    }

    fn size() -> (s: KeySize) {
        KeySize::Fixed(4)
    }

    fn encode(&self) -> (out: Vec<u8>) {
        proof {
            lemma_pow256_values();
        }
        let sortable = sortable_from_signed(*self as i128, 4);
        encode_be(sortable, 4)
    }

    fn decode_part(bytes: &[u8]) -> (res: (i32, &[u8])) {
        proof {
            lemma_pow256_values();
            lemma_be_bytes_of_value(bytes@.take(4));
        }
        let sortable = decode_be(bytes, 4);
        let v = signed_from_sortable(sortable, 4);
        let rest = vstd::slice::slice_subrange(bytes, 4, bytes.len());
        (v as i32, rest)
    }
}

impl Key for i64 {
    open spec fn spec_encode(v: i64) -> Seq<u8> {
        be_bytes((v + 0x8000_0000_0000_0000) as nat, 8)
    }

    open spec fn spec_parse(bytes: Seq<u8>) -> Option<(i64, nat)> {
        if bytes.len() >= 8 {
            Some(((be_value(bytes.take(8)) - 0x8000_0000_0000_0000) as i64, 8))
        } else {
            None
        }
    }

    open spec fn spec_lt(a: i64, b: i64) -> bool {
        a < b
    }


    open spec fn spec_size() -> KeySize {
        KeySize::Fixed(8)
    }

    open spec fn spec_valid(v: i64) -> bool {
        true
    }

    proof fn lemma_key_valid(k: &i64) {
    }

    proof fn lemma_round_trip(v: i64, rest: Seq<u8>) {
        lemma_pow256_values();
        lemma_be_value_of_bytes((v + 0x8000_0000_0000_0000) as nat, 8);
        assert((be_bytes((v + 0x8000_0000_0000_0000) as nat, 8) + rest).take(8) =~= be_bytes((v + 0x8000_0000_0000_0000) as nat, 8));
    }

    proof fn lemma_canonical(bytes: Seq<u8>) {
        if bytes.len() >= 8 {
            lemma_pow256_values();
            lemma_be_bytes_of_value(bytes.take(8));
        }
    }

    proof fn lemma_order(a: i64, b: i64) {
        lemma_pow256_values();
        lemma_be_order((a + 0x8000_0000_0000_0000) as nat, (b + 0x8000_0000_0000_0000) as nat, 8);
    }

    proof fn lemma_size(v: i64) {
        lemma_be_len((v + 0x8000_0000_0000_0000) as nat, 8);
    }

    fn size() -> (s: KeySize) {
        KeySize::Fixed(8)
    }

    fn encode(&self) -> (out: Vec<u8>) {
        proof {
            lemma_pow256_values();
        }
        let sortable = sortable_from_signed(*self as i128, 8);
        encode_be(sortable, 8)
    }

    fn decode_part(bytes: &[u8]) -> (res: (i64, &[u8])) {
        proof {
            lemma_pow256_values();
            lemma_be_bytes_of_value(bytes@.take(8));
        }
        let sortable = decode_be(bytes, 8);
        let v = signed_from_sortable(sortable, 8);
        let rest = vstd::slice::slice_subrange(bytes, 8, bytes.len());
        (v as i64, rest)
    }
}

impl Key for i128 {
    open spec fn spec_encode(v: i128) -> Seq<u8> {
        be_bytes((v + 0x8000_0000_0000_0000_0000_0000_0000_0000) as nat, 16)
    }

    open spec fn spec_parse(bytes: Seq<u8>) -> Option<(i128, nat)> {
        if bytes.len() >= 16 {
            Some(((be_value(bytes.take(16)) - 0x8000_0000_0000_0000_0000_0000_0000_0000) as i128, 16))
        } else {
            None
        }
    }

    open spec fn spec_lt(a: i128, b: i128) -> bool {
        a < b
    }


    open spec fn spec_size() -> KeySize {
        KeySize::Fixed(16)
    }

    open spec fn spec_valid(v: i128) -> bool {
        true
    }

    proof fn lemma_key_valid(k: &i128) {
    }

    proof fn lemma_round_trip(v: i128, rest: Seq<u8>) {
        lemma_pow256_values();
        lemma_be_value_of_bytes((v + 0x8000_0000_0000_0000_0000_0000_0000_0000) as nat, 16);
        assert((be_bytes((v + 0x8000_0000_0000_0000_0000_0000_0000_0000) as nat, 16) + rest).take(16) =~= be_bytes((v + 0x8000_0000_0000_0000_0000_0000_0000_0000) as nat, 16));
    }

    proof fn lemma_canonical(bytes: Seq<u8>) {
        if bytes.len() >= 16 {
            lemma_pow256_values();
            lemma_be_bytes_of_value(bytes.take(16));
        }
    }

    proof fn lemma_order(a: i128, b: i128) {
        lemma_pow256_values();
        lemma_be_order((a + 0x8000_0000_0000_0000_0000_0000_0000_0000) as nat, (b + 0x8000_0000_0000_0000_0000_0000_0000_0000) as nat, 16);
    }

    proof fn lemma_size(v: i128) {
        lemma_be_len((v + 0x8000_0000_0000_0000_0000_0000_0000_0000) as nat, 16);
    }

    fn size() -> (s: KeySize) {
        KeySize::Fixed(16)
    }

    fn encode(&self) -> (out: Vec<u8>) {
        proof {
            lemma_pow256_values();
        }
        let sortable = sortable_from_signed(*self as i128, 16);
        encode_be(sortable, 16)
    }

    fn decode_part(bytes: &[u8]) -> (res: (i128, &[u8])) {
        proof {
            lemma_pow256_values();
            lemma_be_bytes_of_value(bytes@.take(16));
        }
        let sortable = decode_be(bytes, 16);
        let v = signed_from_sortable(sortable, 16);
        let rest = vstd::slice::slice_subrange(bytes, 16, bytes.len());
        (v as i128, rest)
    }
}

} // verus!
