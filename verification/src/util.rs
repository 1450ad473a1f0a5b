//! Variable-length encoding of 32-bit lengths: seven bits per byte, least
//! significant group first, the high bit set on every byte but the last.

use vstd::prelude::*;

verus! {

/// The most bytes that a 32-bit length takes.
pub const MAX_VARINT32_LEN: usize = 5;

/// The encoding of `v`.
pub open spec fn varint(v: nat) -> Seq<u8>
    decreases v,
{
    if v < 128 {
        seq![v as u8]
    } else {
        seq![(v % 128 + 128) as u8] + varint(v / 128)
    }
}

/// What a prefix of at most `limit` bytes of `s` decodes to: the number and the
/// count of bytes that it took. `None` where no byte among the first `limit`
/// has a clear high bit.
pub open spec fn parse_varint(s: Seq<u8>, limit: nat) -> Option<(nat, nat)>
    decreases limit,
{
    if limit == 0 || s.len() == 0 {
        None
    } else if s[0] < 128 {
        Some((s[0] as nat, 1))
    } else {
        match parse_varint(s.skip(1), (limit - 1) as nat) {
            Some((v, n)) => Some(((s[0] - 128 + 128 * v) as nat, n + 1)),
            None => None,
        }
    }
}

/// `parse_varint` for a 32-bit length: bits above the thirty-second are dropped.
pub open spec fn parse_varint32(s: Seq<u8>) -> Option<(u32, nat)> {
    match parse_varint(s, MAX_VARINT32_LEN as nat) {
        Some((v, n)) => Some(((v % 0x1_0000_0000) as u32, n)),
        None => None,
    }
}

/// Decoding gives back what was encoded, whatever bytes follow, and takes
/// exactly the encoded bytes.
pub proof fn law_varint_round_trip(v: nat, limit: nat, rest: Seq<u8>)
    requires
        varint(v).len() <= limit,
    ensures
        parse_varint(varint(v) + rest, limit) == Some((v, varint(v).len())),
    decreases v,
{
    let s = varint(v) + rest;
    if v >= 128 {
        law_varint_round_trip(v / 128, (limit - 1) as nat, rest);
        assert(s.skip(1) =~= varint(v / 128) + rest);
    }
}

/// A 32-bit length takes between one and five bytes, and reads back.
pub proof fn law_varint32_round_trip(v: u32, rest: Seq<u8>)
    ensures
        1 <= varint(v as nat).len() <= MAX_VARINT32_LEN,
        parse_varint32(varint(v as nat) + rest) == Some((v, varint(v as nat).len())),
{
    lemma_varint_len(v as nat);
    law_varint_round_trip(v as nat, MAX_VARINT32_LEN as nat, rest);
}

/// The number of bytes that `varint` takes: one per group of seven bits.
pub proof fn lemma_varint_len(v: nat)
    requires
        v <= u32::MAX,
    ensures
        varint(v).len() == (if v < 0x80 {
            1nat
        } else if v < 0x4000 {
            2
        } else if v < 0x20_0000 {
            3
        } else if v < 0x1000_0000 {
            4
        } else {
            5
        }),
{
    reveal_with_fuel(varint, 6);
}

/// The bytes that `parse_varint` takes lie inside `s`, and there is at least one.
pub proof fn lemma_parse_varint_bounds(s: Seq<u8>, limit: nat)
    ensures
        parse_varint(s, limit) matches Some((v, n)) ==> 1 <= n <= limit && n <= s.len(),
    decreases limit,
{
    if limit > 0 && s.len() > 0 && s[0] >= 128 {
        lemma_parse_varint_bounds(s.skip(1), (limit - 1) as nat);
    }
}

/// Nothing after the bytes that `parse_varint` takes matters.
pub proof fn lemma_parse_varint_prefix(s: Seq<u8>, t: Seq<u8>, limit: nat)
    requires
        s.is_prefix_of(t),
        parse_varint(s, limit) is Some,
    ensures
        parse_varint(t, limit) == parse_varint(s, limit),
    decreases limit,
{
    if s[0] >= 128 {
        assert(s.skip(1).is_prefix_of(t.skip(1)));
        lemma_parse_varint_prefix(s.skip(1), t.skip(1), (limit - 1) as nat);
    }
}

/// The number of bytes that the encoding of `v` takes.
pub fn varint_length(v: usize) -> (len: usize)
    ensures
        len == varint(v as nat).len(),
        1 <= len <= 10,
{
    let mut rest = v;
    let mut len: usize = 1;
    proof {
        assert(varint(v as nat).len() <= 10) by {
            reveal_with_fuel(varint, 11);
        }
    }
    while rest >= 128
        invariant
            varint(v as nat).len() <= 10,
            len >= 1,
            len - 1 + varint(rest as nat).len() == varint(v as nat).len(),
        decreases rest,
    {
        proof {
            assert(varint(rest as nat).len() == 1 + varint((rest / 128) as nat).len());
            assert(varint((rest / 128) as nat).len() >= 1);
        }
        rest = rest / 128;
        len = len + 1;
    }
    len
}

/// Writes the encoding of `v` to the front of `data` and returns its length.
pub fn encode_var_uint32(data: &mut [u8], v: u32) -> (len: usize)
    requires
        varint(v as nat).len() <= old(data)@.len(),
    ensures
        len == varint(v as nat).len(),
        final(data)@ == varint(v as nat) + old(data)@.skip(len as int),
{
    let mut rest = v;
    let mut i: usize = 0;
    let ghost before = data@;
    let ghost written = Seq::<u8>::empty();
    while rest >= 128
        invariant
            data@.len() == before.len(),
            varint(v as nat).len() <= before.len(),
            written.len() == i,
            written + varint(rest as nat) == varint(v as nat),
            data@ == written + before.skip(i as int),
        decreases rest,
    {
        proof {
            assert(varint((rest / 128) as nat).len() >= 1);
        }
        let byte: u8 = (rest % 128 + 128) as u8;
        data[i] = byte;
        proof {
            assert(written.push(byte) + varint((rest / 128) as nat) =~= written + varint(rest as nat));
            written = written.push(byte);
            assert(data@ =~= written + before.skip(i + 1));
        }
        rest = rest / 128;
        i = i + 1;
    }
    data[i] = rest as u8;
    proof {
        assert(written + varint(rest as nat) =~= written.push(rest as u8));
        assert(data@ =~= varint(v as nat) + before.skip(i + 1));
    }
    i + 1
}

/// The number at `at`, taken from at most `limit` bytes, and the count of bytes
/// that it took.
fn read_varint(data: &[u8], at: usize, limit: usize) -> (r: Option<(u64, usize)>)
    requires
        at <= data@.len(),
        limit <= MAX_VARINT32_LEN,
    ensures
        match parse_varint(data@.skip(at as int), limit as nat) {
            Some((v, n)) => r == Some((v as u64, n as usize)) && v <= max_value(limit as nat),
            None => r is None,
        },
    decreases limit,
{
    proof {
        reveal_with_fuel(max_value, 6);
        assert(limit > 0 && at < data@.len() ==> data@.skip(at + 1) =~= data@.skip(
            at as int,
        ).skip(1));
    }
    if limit == 0 || at == data.len() {
        return None;
    }
    let byte: u8 = data[at];
    if byte < 128 {
        return Some((byte as u64, 1));
    }
    proof {
        lemma_parse_varint_bounds(data@.skip(at + 1), (limit - 1) as nat);
    }
    match read_varint(data, at + 1, limit - 1) {
        Some((high, n)) => Some(((byte - 128) as u64 + 128 * high, n + 1)),
        None => None,
    }
}

/// The greatest number that `limit` groups of seven bits hold.
spec fn max_value(limit: nat) -> nat
    decreases limit,
{
    if limit == 0 {
        0
    } else {
        127 + 128 * max_value((limit - 1) as nat)
    }
}

/// Reads a length at `*offset`. On success `*offset` moves past its bytes;
/// where none is there it stays.
pub fn get_var_uint32(data: &[u8], offset: &mut usize) -> (r: Option<u32>)
    requires
        *old(offset) <= data@.len(),
    ensures
        match parse_varint32(data@.skip(*old(offset) as int)) {
            Some((v, n)) => r == Some(v) && *final(offset) == *old(offset) + n,
            None => r is None && *final(offset) == *old(offset),
        },
{
    proof {
        reveal_with_fuel(max_value, 6);
        lemma_parse_varint_bounds(data@.skip(*offset as int), MAX_VARINT32_LEN as nat);
        assert(data@.len() == data.len());
    }
    match read_varint(data, *offset, MAX_VARINT32_LEN) {
        Some((v, n)) => {
            *offset = *offset + n;
            Some((v % 0x1_0000_0000) as u32)
        },
        None => None,
    }
}

} // verus!
