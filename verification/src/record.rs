//! The record of an entry: the length of its internal key, the internal key, the
//! length of its value, and the value.

use crate::common::{internal_key, pack_sequence_and_type, ValueType, TRAILER_LEN};
use crate::comparator::{has_prefixed_key, prefixed_key};
use crate::util::{
    encode_var_uint32, law_varint32_round_trip, lemma_parse_varint_prefix, parse_varint32, varint,
    varint_length, MAX_VARINT32_LEN,
};
use vstd::prelude::*;

verus! {

/// A byte string behind its length.
pub open spec fn prefixed(s: Seq<u8>) -> Seq<u8> {
    varint(s.len()) + s
}

/// The record of an internal key and a value.
pub open spec fn record(key: Seq<u8>, value: Seq<u8>) -> Seq<u8> {
    prefixed(key) + prefixed(value)
}

/// The number of bytes of the record of a user key and a value of the given
/// lengths.
pub open spec fn record_len(user_key_len: nat, value_len: nat) -> nat {
    let key_len = user_key_len + TRAILER_LEN as nat;
    varint(key_len).len() + key_len + varint(value_len).len() + value_len
}

/// Of bytes that start with a byte string behind its length, the byte string
/// is what stands behind the length.
pub proof fn law_prefixed_round_trip(s: Seq<u8>, bytes: Seq<u8>)
    requires
        s.len() <= u32::MAX,
        prefixed(s).is_prefix_of(bytes),
    ensures
        parse_varint32(bytes) == Some((s.len() as u32, varint(s.len()).len())),
        has_prefixed_key(bytes),
        prefixed_key(bytes) == s,
{
    law_varint32_round_trip(s.len() as u32, s);
    lemma_parse_varint_prefix(prefixed(s), bytes, MAX_VARINT32_LEN as nat);
    let n = varint(s.len()).len();
    assert forall|i: int| 0 <= i < s.len() implies bytes[n + i] == s[i] by {
        assert(prefixed(s)[n + i] == s[i]);
    }
    assert(bytes.subrange(n as int, (n + s.len()) as int) =~= s);
}

/// The part of a key that its length speaks of where only 32 bits of the length are
/// kept: all of it, unless it is longer than those bits can tell.
pub open spec fn kept_key(key: Seq<u8>) -> Seq<u8> {
    if key.len() <= u32::MAX {
        key
    } else {
        key.take((key.len() % 0x1_0000_0000) as int)
    }
}

/// What `encode_key` makes of a key gives back the part of it that is kept.
pub proof fn law_encoded_key_round_trip(key: Seq<u8>)
    ensures
        ({
            let bytes = varint(key.len() % 0x1_0000_0000) + key;
            has_prefixed_key(bytes) && prefixed_key(bytes) == kept_key(key)
        }),
{
    let n = key.len() % 0x1_0000_0000;
    let bytes = varint(n) + key;
    let kept = key.take(n as int);
    assert(kept_key(key) =~= kept);
    assert(prefixed(kept) =~= bytes.take(prefixed(kept).len() as int));
    law_prefixed_round_trip(kept, bytes);
}

/// Bytes that start with a record start with its key behind its length.
pub proof fn lemma_record_starts_with_key(key: Seq<u8>, value: Seq<u8>, bytes: Seq<u8>)
    requires
        record(key, value).is_prefix_of(bytes),
    ensures
        prefixed(key).is_prefix_of(bytes),
{
    let n = prefixed(key).len() as int;
    assert forall|i: int| 0 <= i < n implies prefixed(key)[i] == bytes[i] by {
        assert(record(key, value)[i] == prefixed(key)[i]);
    }
    assert(prefixed(key) =~= bytes.take(n));
}

/// Key and value can both be read back from bytes that start with their record.
pub proof fn law_record_round_trip(key: Seq<u8>, value: Seq<u8>, bytes: Seq<u8>)
    requires
        key.len() <= u32::MAX,
        value.len() <= u32::MAX,
        record(key, value).is_prefix_of(bytes),
    ensures
        has_prefixed_key(bytes),
        prefixed_key(bytes) == key,
        has_prefixed_key(bytes.skip(prefixed(key).len() as int)),
        prefixed_key(bytes.skip(prefixed(key).len() as int)) == value,
{
    let n = prefixed(key).len() as int;
    lemma_record_starts_with_key(key, value, bytes);
    law_prefixed_round_trip(key, bytes);
    assert(prefixed(value).is_prefix_of(bytes.skip(n))) by {
        assert forall|i: int| 0 <= i < prefixed(value).len() implies prefixed(value)[i]
            == bytes.skip(n)[i] by {
            assert(record(key, value)[n + i] == prefixed(value)[i]);
        }
        assert(prefixed(value) =~= bytes.skip(n).take(prefixed(value).len() as int));
    }
    law_prefixed_round_trip(value, bytes.skip(n));
}

/// Appends the encoding of `v` to `buf`.
fn push_varint(buf: &mut Vec<u8>, v: u32)
    ensures
        final(buf)@ == old(buf)@ + varint(v as nat),
{
    let mut tmp: [u8; 5] = [0u8;5];
    proof {
        law_varint32_round_trip(v, Seq::empty());
    }
    let n: usize = encode_var_uint32(&mut tmp, v);
    buf.extend_from_slice(&tmp[0..n]);
    proof {
        assert(tmp@.subrange(0, n as int) =~= varint(v as nat));
        assert(buf@ =~= old(buf)@ + varint(v as nat));
    }
}

/// Replaces the contents of `buf` by `target` behind its length, and returns
/// them. The length has 32 bits; higher ones are dropped.
pub fn encode_key<'a>(buf: &'a mut Vec<u8>, target: &[u8]) -> (r: &'a [u8])
    ensures
        r@ == varint((target@.len() % 0x1_0000_0000) as nat) + target@,
        final(buf)@ == r@,
{
    buf.clear();
    let len: u32 = (target.len() as u64 % 0x1_0000_0000) as u32;
    push_varint(buf, len);
    let ghost front = buf@;
    buf.extend_from_slice(target);
    assert(buf@ =~= front + target@);
    buf.as_slice()
}

/// The record of a write.
pub fn encode_record(key: &[u8], value: &[u8], sequence: u64, kind: ValueType) -> (r: Vec<u8>)
    requires
        key@.len() + TRAILER_LEN <= u32::MAX,
        value@.len() <= u32::MAX,
        record_len(key@.len(), value@.len()) <= usize::MAX,
    ensures
        r@ == record(internal_key(key@, sequence, kind.code()), value@),
        r@.len() == record_len(key@.len(), value@.len()),
{
    let ghost ikey = internal_key(key@, sequence, kind.code());
    let internal_key_size: usize = key.len() + TRAILER_LEN;
    proof {
        crate::common::law_internal_key_parts(key@, sequence, kind.code());
    }
    let encoded_len: usize = varint_length(internal_key_size) + internal_key_size + varint_length(
        value.len(),
    ) + value.len();
    let mut data: Vec<u8> = Vec::with_capacity(encoded_len);
    push_varint(&mut data, internal_key_size as u32);
    data.extend_from_slice(key);
    let trailer: Vec<u8> = vstd::bytes::u64_to_le_bytes(
        pack_sequence_and_type(sequence, kind.as_u8()),
    );
    data.extend_from_slice(trailer.as_slice());
    assert(data@ =~= prefixed(ikey));
    push_varint(&mut data, value.len() as u32);
    data.extend_from_slice(value);
    assert(data@ =~= record(ikey, value@));
    data
}

} // verus!
