//! Internal keys. An internal key is a user key followed by an eight-byte
//! trailer that packs the sequence number and the kind of the write.

use vstd::bytes::{spec_u64_from_le_bytes, spec_u64_to_le_bytes};
use vstd::prelude::*;

verus! {

/// The number of bytes of the trailer of an internal key.
pub const TRAILER_LEN: usize = 8;

/// The kind of an entry.
#[derive(Clone, Copy, Debug, PartialEq, Eq, Structural)]
pub enum ValueType {
    /// The user key was deleted.
    TypeDeletion,
    /// The user key was given a value.
    TypeValue,
}

/// The kind to put into a key that is only sought: the greatest code, so that
/// the sought key precedes every entry of its user key and sequence number.
pub const VALUE_TYPE_FOR_SEEK: u8 = 1;

impl ValueType {
    /// The code of the kind in a trailer.
    pub open spec fn code(self) -> u8 {
        match self {
            ValueType::TypeDeletion => 0,
            ValueType::TypeValue => 1,
        }
    }

    /// The code of the kind in a trailer.
    pub fn as_u8(self) -> (r: u8)
        ensures
            r == self.code(),
    {
        match self {
            ValueType::TypeDeletion => 0,
            ValueType::TypeValue => 1,
        }
    }
}

/// The sequence number above the code of the kind. A sequence number has 56
/// bits; higher ones are dropped.
pub open spec fn packed(sequence: u64, kind: u8) -> u64 {
    ((sequence % 0x100_0000_0000_0000) * 0x100 + kind) as u64
}

/// An internal key: the user key and its trailer.
pub open spec fn internal_key(user_key: Seq<u8>, sequence: u64, kind: u8) -> Seq<u8> {
    user_key + spec_u64_to_le_bytes(packed(sequence, kind))
}

/// The user key of an internal key.
pub open spec fn user_key_of(key: Seq<u8>) -> Seq<u8> {
    key.take(key.len() - TRAILER_LEN)
}

/// The trailer of an internal key, as a number.
pub open spec fn trailer_of(key: Seq<u8>) -> u64 {
    spec_u64_from_le_bytes(key.skip(key.len() - TRAILER_LEN))
}

/// The parts of an internal key are what it was made of.
pub proof fn law_internal_key_parts(user_key: Seq<u8>, sequence: u64, kind: u8)
    ensures
        internal_key(user_key, sequence, kind).len() == user_key.len() + TRAILER_LEN,
        user_key_of(internal_key(user_key, sequence, kind)) == user_key,
        trailer_of(internal_key(user_key, sequence, kind)) == packed(sequence, kind),
{
    vstd::bytes::lemma_auto_spec_u64_to_from_le_bytes();
    let trailer = spec_u64_to_le_bytes(packed(sequence, kind));
    let key = internal_key(user_key, sequence, kind);
    assert(key.skip(key.len() - TRAILER_LEN) =~= trailer);
    assert(key.take(key.len() - TRAILER_LEN) =~= user_key);
}

/// Packed numbers order by sequence number first and by kind second.
pub proof fn law_packed_order(seq1: u64, kind1: u8, seq2: u64, kind2: u8)
    requires
        seq1 < 0x100_0000_0000_0000,
        seq2 < 0x100_0000_0000_0000,
    ensures
        packed(seq1, kind1) < packed(seq2, kind2) <==> seq1 < seq2 || (seq1 == seq2 && kind1
            < kind2),
        packed(seq1, kind1) == packed(seq2, kind2) <==> seq1 == seq2 && kind1 == kind2,
{
}

/// Packs a sequence number and the code of a kind into the number of a trailer.
pub fn pack_sequence_and_type(sequence: u64, kind: u8) -> (r: u64)
    ensures
        r == packed(sequence, kind),
{
    assert((sequence << 8) | (kind as u64) == (sequence % 0x100_0000_0000_0000) * 0x100 + kind)
        by (bit_vector);
    (sequence << 8) | (kind as u64)
}

/// The user key of an internal key.
pub fn extract_user_key(key: &[u8]) -> (r: &[u8])
    requires
        key@.len() >= TRAILER_LEN,
    ensures
        r@ == user_key_of(key@),
{
    &key[0..key.len() - TRAILER_LEN]
}

/// The number in the trailer of an internal key.
pub fn extract_trailer(key: &[u8]) -> (r: u64)
    requires
        key@.len() >= TRAILER_LEN,
    ensures
        r == trailer_of(key@),
{
    let len: usize = key.len();
    vstd::bytes::u64_from_le_bytes(&key[len - TRAILER_LEN..len])
}

} // verus!
