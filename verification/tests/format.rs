use memtable::common::{
    extract_trailer, extract_user_key, pack_sequence_and_type, ValueType, VALUE_TYPE_FOR_SEEK,
};
use memtable::comparator::{compare_bytes, decode_key};
use memtable::record::{encode_key, encode_record};
use memtable::util::{encode_var_uint32, get_var_uint32, varint_length};
use std::cmp::Ordering;

#[test]
fn varints_have_known_bytes() {
    let cases: [(u32, &[u8]); 7] = [
        (0, &[0]),
        (127, &[127]),
        (128, &[128, 1]),
        (300, &[172, 2]),
        (16383, &[255, 127]),
        (16384, &[128, 128, 1]),
        (u32::MAX, &[255, 255, 255, 255, 15]),
    ];
    for (v, bytes) in cases.iter() {
        let mut tmp = [0xeeu8; 6];
        let n = encode_var_uint32(&mut tmp, *v);
        assert_eq!(&tmp[..n], *bytes);
        assert_eq!(tmp[5], 0xee);
        assert_eq!(n, varint_length(*v as usize));
        let mut offset = 0;
        assert_eq!(get_var_uint32(&tmp, &mut offset), Some(*v));
        assert_eq!(offset, n);
    }
}

#[test]
fn varints_are_read_at_an_offset() {
    let mut offset = 2;
    assert_eq!(get_var_uint32(&[9, 9, 172, 2, 9], &mut offset), Some(300));
    assert_eq!(offset, 4);
}

#[test]
fn varints_without_an_end_are_refused() {
    let mut offset = 0;
    assert_eq!(get_var_uint32(&[128, 128], &mut offset), None);
    assert_eq!(get_var_uint32(&[], &mut offset), None);
    assert_eq!(get_var_uint32(&[255, 255, 255, 255, 255, 1], &mut offset), None);
    assert_eq!(offset, 0);
}

#[test]
fn bits_above_the_thirty_second_are_dropped() {
    let mut offset = 0;
    assert_eq!(get_var_uint32(&[129, 128, 128, 128, 16], &mut offset), Some(1));
    assert_eq!(offset, 5);
}

#[test]
fn varint_lengths() {
    assert_eq!(varint_length(0), 1);
    assert_eq!(varint_length(127), 1);
    assert_eq!(varint_length(128), 2);
    assert_eq!(varint_length(0x20_0000), 4);
    assert_eq!(varint_length(u32::MAX as usize), 5);
}

#[test]
fn packing_puts_the_sequence_above_the_kind() {
    assert_eq!(pack_sequence_and_type(1, 1), 257);
    assert_eq!(pack_sequence_and_type(10000, VALUE_TYPE_FOR_SEEK), 2560001);
    assert_eq!(pack_sequence_and_type(u64::MAX, 0), 0xffff_ffff_ffff_ff00);
    assert!(pack_sequence_and_type(2, 0) > pack_sequence_and_type(1, 255));
    assert_eq!(ValueType::TypeDeletion.as_u8(), 0);
    assert_eq!(ValueType::TypeValue.as_u8(), 1);
}

#[test]
fn internal_keys_give_back_their_parts() {
    let mut key = b"user".to_vec();
    key.extend_from_slice(&pack_sequence_and_type(5, 1).to_le_bytes());
    assert_eq!(extract_user_key(&key), b"user");
    assert_eq!(extract_trailer(&key), 1281);
}

#[test]
fn records_have_known_bytes() {
    let r = encode_record(b"ab", b"xyz", 5, ValueType::TypeValue);
    assert_eq!(
        r,
        vec![10, b'a', b'b', 1, 5, 0, 0, 0, 0, 0, 0, 3, b'x', b'y', b'z']
    );
    let r = encode_record(b"", b"", 0, ValueType::TypeDeletion);
    assert_eq!(r, vec![8, 0, 0, 0, 0, 0, 0, 0, 0, 0]);
}

#[test]
fn encoded_keys_read_back() {
    let mut buf = vec![1, 2, 3];
    let key = vec![4u8; 300];
    let raw = encode_key(&mut buf, &key);
    assert_eq!(&raw[..2], &[172, 2]);
    assert_eq!(raw.len(), 302);
    assert_eq!(decode_key(raw), &key[..]);
    assert_eq!(buf.len(), 302);
}

#[test]
fn byte_strings_order_lexicographically() {
    assert_eq!(compare_bytes(b"", b""), Ordering::Equal);
    assert_eq!(compare_bytes(b"", b"a"), Ordering::Less);
    assert_eq!(compare_bytes(b"ab", b"a"), Ordering::Greater);
    assert_eq!(compare_bytes(b"ab", b"b"), Ordering::Less);
    assert_eq!(compare_bytes(&[255], &[1, 255]), Ordering::Greater);
    assert_eq!(compare_bytes(b"same", b"same"), Ordering::Equal);
}
