use colette::bounds::Bound;
use colette::key::{AppendKey, Key, KeySize};
use colette::prefix::Prefix;

#[test]
fn bool_keys_encode_and_decode() {
    assert_eq!(false.encode(), vec![0x00]);
    assert_eq!(true.encode(), vec![0x01]);
    let (v, rest) = bool::decode_part(&[0x01, 0x07]);
    assert!(v);
    assert_eq!(rest, &[0x07]);
    assert!(!bool::decode(&[0x00]));
    assert_eq!(bool::size(), KeySize::Fixed(1));
}

#[test]
fn string_keys_are_framed_utf8() {
    let s = "héllo".to_string();
    let enc = s.encode();
    let mut expected = "héllo".as_bytes().to_vec();
    expected.extend_from_slice(&[0x00, 0x00]);
    assert_eq!(enc, expected);
    assert_eq!("a\0b".to_string().encode(), vec![b'a', 0x00, 0xff, b'b', 0x00, 0x00]);
    let mut with_tail = enc.clone();
    with_tail.extend_from_slice(&[1, 2]);
    let (decoded, rest) = String::decode_part(&with_tail);
    assert_eq!(decoded, "héllo");
    assert_eq!(rest, &[1, 2]);
    assert_eq!(String::decode(&[b'a', 0x00, 0x00]), "a");
    assert_eq!(String::size(), KeySize::Variable);
}

#[test]
fn byte_vector_keys_round_trip_through_the_trait() {
    let v: Vec<u8> = vec![0x00, 0x10, 0x00];
    let enc = v.encode();
    assert_eq!(enc, vec![0x00, 0xff, 0x10, 0x00, 0xff, 0x00, 0x00]);
    assert_eq!(Vec::<u8>::decode(&enc), v);
}

#[test]
fn array_keys_are_their_bytes() {
    let a: [u8; 4] = [9, 8, 7, 6];
    assert_eq!(a.encode(), vec![9, 8, 7, 6]);
    let (d, rest) = <[u8; 4]>::decode_part(&[1, 2, 3, 4, 5]);
    assert_eq!(d, [1, 2, 3, 4]);
    assert_eq!(rest, &[5]);
    assert_eq!(<[u8; 4]>::size(), KeySize::Fixed(4));
}

#[test]
fn integer_widths_and_signs() {
    assert_eq!(0x0102u16.encode(), vec![0x01, 0x02]);
    assert_eq!(0x01020304u32.encode(), vec![0x01, 0x02, 0x03, 0x04]);
    assert_eq!(1u64.encode(), vec![0, 0, 0, 0, 0, 0, 0, 1]);
    assert_eq!((-1i16).encode(), vec![0x7f, 0xff]);
    assert_eq!(0i32.encode(), vec![0x80, 0, 0, 0]);
    assert_eq!(i64::MIN.encode(), vec![0; 8]);
    assert_eq!(i16::decode(&[0x80, 0x01]), 1);
    assert_eq!(i64::decode(&[0x7f, 0xff, 0xff, 0xff, 0xff, 0xff, 0xff, 0xfe]), -2);
    assert_eq!(u16::size(), KeySize::Fixed(2));
    assert_eq!(i64::size(), KeySize::Fixed(8));
}

#[test]
fn integer_encodings_sort_as_numbers() {
    let values: [i32; 7] = [i32::MIN, -300, -1, 0, 1, 256, i32::MAX];
    for w in values.windows(2) {
        assert!(w[0].encode() < w[1].encode(), "{} < {}", w[0], w[1]);
    }
    let values: [u32; 5] = [0, 1, 255, 256, u32::MAX];
    for w in values.windows(2) {
        assert!(w[0].encode() < w[1].encode(), "{} < {}", w[0], w[1]);
    }
}

#[test]
fn byte_string_encodings_sort_as_byte_strings() {
    let values: Vec<Vec<u8>> = vec![vec![], vec![0x00], vec![0x00, 0x00], vec![0x00, 0x01], vec![0x01], vec![0x01, 0x00]];
    for w in values.windows(2) {
        assert!(w[0] < w[1]);
        assert!(w[0].encode() < w[1].encode(), "{:?} < {:?}", w[0], w[1]);
    }
}

#[test]
fn string_keys_sort_as_strings_once_encoded() {
    let words = ["", "\0", "a", "a\0", "ab", "abc", "b", "é"];
    for w in words.windows(2) {
        let (x, y) = (w[0].to_string(), w[1].to_string());
        assert!(x < y);
        assert!(x.encode() < y.encode(), "{:?} < {:?}", x, y);
    }
}

#[test]
fn composite_keys_concatenate() {
    let k = (1u8, "x".to_string());
    assert_eq!(k.encode(), vec![0x01, b'x', 0x00, 0x00]);
    let k3 = (1u8, 2u16, 3u32);
    assert_eq!(k3.encode(), vec![1, 0, 2, 0, 0, 0, 3]);
    assert_eq!(<(u8, u16, u32)>::size(), KeySize::Fixed(7));
    let k4 = (true, 2u8, "y".to_string(), 4u8);
    let enc = k4.encode();
    assert_eq!(enc, vec![1, 2, b'y', 0x00, 0x00, 4]);
    let (d, rest) = <(bool, u8, String, u8)>::decode_part(&enc);
    assert_eq!(d, (true, 2, "y".to_string(), 4));
    assert!(rest.is_empty());
    assert_eq!(<(bool, u8, String, u8)>::size(), KeySize::Variable);
    let single = (7u16,);
    assert_eq!(single.encode(), vec![0, 7]);
    assert_eq!(<(u16,)>::decode(&[0, 7]), (7,));
}

#[test]
fn composite_keys_sort_by_components() {
    let keys = [(1u8, "b".to_string()), (2u8, "a".to_string()), (2u8, "b".to_string())];
    for w in keys.windows(2) {
        assert!(w[0].encode() < w[1].encode());
    }
}

#[test]
fn appending_a_primary_key() {
    assert_eq!((5u32,).append(7u64), (5u32, 7u64));
    assert_eq!((1u8, 2u8).append(3u16), (1u8, 2u8, 3u16));
    assert_eq!((1u8, 2u8, 3u8).append(4u8), (1u8, 2u8, 3u8, 4u8));
}

#[test]
fn prefix_bounds_of_keys() {
    assert_eq!(0x01ffu16.start_bound(), Bound::Included(vec![0x01, 0xff]));
    assert_eq!(0x01ffu16.end_bound(), Bound::Excluded(vec![0x02]));
    assert_eq!(0x0102u16.end_bound(), Bound::Excluded(vec![0x01, 0x03]));
    assert_eq!(0xffffu16.end_bound(), Bound::Unbounded);
    assert_eq!(Vec::<u8>::new().encode_prefix(), vec![0x00, 0x00]);
}
