//! What the definitions come to: bytes by their index, orders by the bytes that
//! decide, searches by what stands before and behind what is found, sizes by
//! numbers.

use crate::arena::{block, block_added, holds_block, overwritten, Arena, Request, SharedArena};
use crate::chain::shifted;
use crate::common::{internal_key, packed, trailer_of, user_key_of, ValueType, VALUE_TYPE_FOR_SEEK};
use crate::comparator::{
    bytes_precede, has_prefixed_key, lemma_bytes_total, prefixed_key, Comparator,
    DefaultComparator, InternalKeyComparator, KeyComparator,
};
use crate::draws::{is_drawn, law_drawn};
use crate::inline_skiplist::{drew_height, InlineSkipList, Splice};
use crate::laws::{law_prev_steps_back, law_seek_for_prev_bounds};
use crate::node::{links_size, next_of, node_size, with_next, LINK_SIZE};
use crate::options::{ColumnFamilyOptions, TableFactory};
use crate::order::{
    before, equal_keys, has_equal, is_found, is_found_back, is_found_for_prev, last_not_after,
    law_rank_splits, lemma_found_not_before, rank, within, Entry,
};
use crate::record::{kept_key, prefixed, record, record_len};
use crate::util::{parse_varint, parse_varint32, varint};
use vstd::arithmetic::power::pow;
use vstd::bytes::{
    spec_u32_from_le_bytes, spec_u64_from_le_bytes, spec_u64_to_le_bytes, spec_u64_to_le_bytes_open,
};
use vstd::prelude::*;
use vstd::std_specs::cmp::PartialEqSpec;

verus! {

/// The bytes of an internal key: those of the user key, the kind, and then the
/// seven lower bytes of the sequence number, least significant first.
pub proof fn law_internal_key_bytes(user_key: Seq<u8>, sequence: u64, kind: u8)
    ensures
        ({
            let key = internal_key(user_key, sequence, kind);
            let n = user_key.len() as int;
            &&& key.len() == n + 8
            &&& forall|i: int| 0 <= i < n ==> #[trigger] key[i] == user_key[i]
            &&& key[n] == kind
            &&& key[n + 1] == sequence % 0x100
            &&& key[n + 2] == sequence / 0x100 % 0x100
            &&& key[n + 3] == sequence / 0x1_0000 % 0x100
            &&& key[n + 4] == sequence / 0x100_0000 % 0x100
            &&& key[n + 5] == sequence / 0x1_0000_0000 % 0x100
            &&& key[n + 6] == sequence / 0x100_0000_0000 % 0x100
            &&& key[n + 7] == sequence / 0x1_0000_0000_0000 % 0x100
        }),
{
    let x = packed(sequence, kind);
    let s = sequence;
    vstd::bytes::spec_u64_to_le_bytes_to_open(x);
    assert(x == (s % 0x100_0000_0000_0000) * 0x100 + kind);
    assert({
        &&& (x & 0xff) as u8 == kind
        &&& ((x >> 8) & 0xff) as u8 == s % 0x100
        &&& ((x >> 16) & 0xff) as u8 == s / 0x100 % 0x100
        &&& ((x >> 24) & 0xff) as u8 == s / 0x1_0000 % 0x100
        &&& ((x >> 32) & 0xff) as u8 == s / 0x100_0000 % 0x100
        &&& ((x >> 40) & 0xff) as u8 == s / 0x1_0000_0000 % 0x100
        &&& ((x >> 48) & 0xff) as u8 == s / 0x100_0000_0000 % 0x100
        &&& ((x >> 56) & 0xff) as u8 == s / 0x1_0000_0000_0000 % 0x100
    }) by (bit_vector)
        requires
            x == (s % 0x100_0000_0000_0000) * 0x100 + kind,
    ;
}

/// The number that eight bytes make, least significant first.
proof fn lemma_number_of_bytes(s: Seq<u8>)
    requires
        s.len() == 8,
    ensures
        spec_u64_from_le_bytes(s) == s[0] + 0x100 * s[1] + 0x1_0000 * s[2] + 0x100_0000 * s[3]
            + 0x1_0000_0000 * s[4] + 0x100_0000_0000 * s[5] + 0x1_0000_0000_0000 * s[6]
            + 0x100_0000_0000_0000 * s[7],
{
    let x = spec_u64_from_le_bytes(s);
    vstd::bytes::lemma_auto_spec_u64_to_from_le_bytes();
    vstd::bytes::spec_u64_to_le_bytes_to_open(x);
    assert(spec_u64_to_le_bytes(spec_u64_from_le_bytes(s)) == s);
    assert(s == spec_u64_to_le_bytes_open(x));
    assert(x == ((x & 0xff) as u8) + 0x100 * ((x >> 8) & 0xff) as u8 + 0x1_0000 * ((x >> 16)
        & 0xff) as u8 + 0x100_0000 * ((x >> 24) & 0xff) as u8 + 0x1_0000_0000 * ((x >> 32)
        & 0xff) as u8 + 0x100_0000_0000 * ((x >> 40) & 0xff) as u8 + 0x1_0000_0000_0000 * ((x
        >> 48) & 0xff) as u8 + 0x100_0000_0000_0000 * ((x >> 56) & 0xff) as u8) by (bit_vector);
}

/// The user key of an internal key is all of it but the last eight bytes; the
/// trailer is the number that those make, least significant first.
pub proof fn law_key_parts_bytes(key: Seq<u8>)
    requires
        key.len() >= 8,
    ensures
        ({
            let n = key.len() - 8;
            &&& user_key_of(key).len() == n
            &&& forall|i: int| 0 <= i < n ==> #[trigger] user_key_of(key)[i] == key[i]
            &&& trailer_of(key) == key[n] + 0x100 * key[n + 1] + 0x1_0000 * key[n + 2]
                + 0x100_0000 * key[n + 3] + 0x1_0000_0000 * key[n + 4] + 0x100_0000_0000 * key[n
                + 5] + 0x1_0000_0000_0000 * key[n + 6] + 0x100_0000_0000_0000 * key[n + 7]
        }),
{
    lemma_number_of_bytes(key.skip(key.len() - 8));
}

/// A sequence number of 56 bits and a kind make the number of a trailer; the bits
/// above are dropped. The kinds are zero and one.
pub proof fn law_packed_number(sequence: u64, kind: u8)
    ensures
        packed(sequence, kind) == sequence % 0x100_0000_0000_0000 * 256 + kind,
        ValueType::TypeDeletion.code() == 0,
        ValueType::TypeValue.code() == 1,
        VALUE_TYPE_FOR_SEEK == 1,
{
}

/// Byte strings order by the first byte in which they differ; one that the other
/// starts with comes first.
pub proof fn law_bytes_order(a: Seq<u8>, b: Seq<u8>)
    ensures
        bytes_precede(a, b) <==> exists|n: int|
            #![trigger a.take(n)]
            0 <= n <= a.len() && n < b.len() && a.take(n) == b.take(n) && (n == a.len() || a[n]
                < b[n]),
{
    if bytes_precede(a, b) {
        let n = lemma_first_difference(a, b);
        assert(a.take(n) == b.take(n));
    }
    if exists|n: int|
        #![trigger a.take(n)]
        0 <= n <= a.len() && n < b.len() && a.take(n) == b.take(n) && (n == a.len() || a[n]
            < b[n]) {
        let n = choose|n: int|
            #![trigger a.take(n)]
            0 <= n <= a.len() && n < b.len() && a.take(n) == b.take(n) && (n == a.len() || a[n]
                < b[n]);
        lemma_difference_decides(a, b, n);
    }
}

/// Where a byte string precedes another, there is a byte that decides.
proof fn lemma_first_difference(a: Seq<u8>, b: Seq<u8>) -> (n: int)
    requires
        bytes_precede(a, b),
    ensures
        0 <= n <= a.len(),
        n < b.len(),
        a.take(n) == b.take(n),
        n == a.len() || a[n] < b[n],
    decreases a.len(),
{
    if a.len() == 0 || a[0] != b[0] {
        assert(a.take(0) =~= b.take(0));
        0
    } else {
        let m = lemma_first_difference(a.skip(1), b.skip(1));
        assert forall|i: int| 0 <= i < m + 1 implies a[i] == b[i] by {
            if i > 0 {
                assert(a.skip(1).take(m)[i - 1] == b.skip(1).take(m)[i - 1]);
            }
        }
        assert(a.take(m + 1) =~= b.take(m + 1));
        m + 1
    }
}

/// A byte that decides does.
proof fn lemma_difference_decides(a: Seq<u8>, b: Seq<u8>, n: int)
    requires
        0 <= n <= a.len(),
        n < b.len(),
        a.take(n) == b.take(n),
        n == a.len() || a[n] < b[n],
    ensures
        bytes_precede(a, b),
    decreases n,
{
    if n > 0 {
        assert forall|i: int| 0 <= i < n implies #[trigger] a[i] == b[i] by {
            assert(a.take(n)[i] == a[i]);
            assert(b.take(n)[i] == b[i]);
        }
        assert(a[0] == b[0]);
        assert(a.skip(1).take(n - 1) =~= b.skip(1).take(n - 1));
        lemma_difference_decides(a.skip(1), b.skip(1), n - 1);
    }
}

/// Internal keys order by the bytes before the last eight; where those are the
/// same, the one whose last eight bytes make the greater number comes first.
pub proof fn law_internal_order(
    c: &DefaultComparator,
    k: &InternalKeyComparator,
    a: Seq<u8>,
    b: Seq<u8>,
)
    requires
        a.len() >= 8,
        b.len() >= 8,
    ensures
        ({
            let u = a.take(a.len() - 8);
            let v = b.take(b.len() - 8);
            &&& c.precedes(a, b) <==> (exists|n: int|
                #![trigger u.take(n)]
                0 <= n <= u.len() && n < v.len() && u.take(n) == v.take(n) && (n == u.len() || u[n]
                    < v[n])) || (u == v && spec_u64_from_le_bytes(a.skip(a.len() - 8))
                > spec_u64_from_le_bytes(b.skip(b.len() - 8)))
            &&& k.precedes(a, b) == c.precedes(a, b)
        }),
{
    law_bytes_order(a.take(a.len() - 8), b.take(b.len() - 8));
}

/// The order of a memtable speaks of the keys that have a trailer.
pub proof fn law_keys_have_trailers(
    c: &DefaultComparator,
    k: &InternalKeyComparator,
    key: Seq<u8>,
)
    ensures
        c.valid_key(key) <==> key.len() >= 8,
        k.valid_key(key) <==> key.len() >= 8,
{
}

/// Of two writes the one whose user key comes first does; of writes of one user
/// key, the newer one does, and of those of one sequence number the one of the
/// greater kind.
pub proof fn law_writes_order(
    c: &DefaultComparator,
    u: Seq<u8>,
    s: u64,
    kind_u: u8,
    v: Seq<u8>,
    t: u64,
    kind_v: u8,
)
    requires
        s < 0x100_0000_0000_0000,
        t < 0x100_0000_0000_0000,
    ensures
        c.precedes(internal_key(u, s, kind_u), internal_key(v, t, kind_v)) <==> (exists|n: int|
            #![trigger u.take(n)]
            0 <= n <= u.len() && n < v.len() && u.take(n) == v.take(n) && (n == u.len() || u[n]
                < v[n])) || (u == v && (s > t || (s == t && kind_u > kind_v))),
{
    law_bytes_order(u, v);
    crate::common::law_internal_key_parts(u, s, kind_u);
    crate::common::law_internal_key_parts(v, t, kind_v);
    crate::common::law_packed_order(t, kind_v, s, kind_u);
}

/// The encoding of a length: groups of seven bits, least significant first, as many
/// as the length has, with the high bit set on all but the last.
pub proof fn law_varint_groups(v: nat)
    ensures
        ({
            let n = varint(v).len();
            &&& n >= 1
            &&& v < pow(128, n)
            &&& n > 1 ==> v >= pow(128, (n - 1) as nat)
            &&& forall|i: int|
                0 <= i < n ==> #[trigger] varint(v)[i] == v as int / pow(128, i as nat) % 128 + (if i
                    < n - 1 {
                    128int
                } else {
                    0
                })
        }),
    decreases v,
{
    vstd::arithmetic::power::lemma_pow0(128);
    vstd::arithmetic::power::lemma_pow1(128);
    if v >= 128 {
        let w = v / 128;
        let n = varint(v).len();
        law_varint_groups(w);
        assert(varint(v) == seq![(v % 128 + 128) as u8] + varint(w));
        assert(pow(128, n) == 128 * pow(128, (n - 1) as nat)) by {
            vstd::arithmetic::power::lemma_pow_adds(128, 1, (n - 1) as nat);
        }
        if n > 2 {
            vstd::arithmetic::power::lemma_pow_adds(128, 1, (n - 2) as nat);
        }
        assert forall|i: int| 0 <= i < n implies #[trigger] varint(v)[i] == v as int / pow(
            128,
            i as nat,
        ) % 128 + (if i < n - 1 {
            128int
        } else {
            0
        }) by {
            if i == 0 {
                assert(v as int / 1 == v as int);
            } else {
                assert(varint(v)[i] == varint(w)[i - 1]);
                vstd::arithmetic::power::lemma_pow_adds(128, 1, (i - 1) as nat);
                vstd::arithmetic::power::lemma_pow_positive(128, (i - 1) as nat);
                vstd::arithmetic::div_mod::lemma_div_denominator(
                    v as int,
                    128,
                    pow(128, (i - 1) as nat),
                );
            }
        }
    } else {
        assert(v as int / 1 == v as int);
    }
}

/// A length is read from the first byte with a clear high bit and those before it,
/// five at most; where there is none, none is read.
pub proof fn law_length_is_read(s: Seq<u8>)
    ensures
        ({
            let r = parse_varint32(s);
            if s.len() >= 1 && s[0] < 128 {
                r == Some((s[0] as u32, 1nat))
            } else if s.len() >= 2 && s[1] < 128 {
                r == Some(((s[0] - 128 + 128 * s[1]) as u32, 2nat))
            } else if s.len() >= 3 && s[2] < 128 {
                r == Some(((s[0] - 128 + 128 * (s[1] - 128) + 16384 * s[2]) as u32, 3nat))
            } else if s.len() >= 4 && s[3] < 128 {
                r == Some(
                    (
                        (s[0] - 128 + 128 * (s[1] - 128) + 16384 * (s[2] - 128) + 2097152
                            * s[3]) as u32,
                        4nat,
                    ),
                )
            } else if s.len() >= 5 && s[4] < 128 {
                r == Some(
                    (
                        ((s[0] - 128 + 128 * (s[1] - 128) + 16384 * (s[2] - 128) + 2097152 * (s[3]
                            - 128) + 268435456 * s[4]) % 0x1_0000_0000) as u32,
                        5nat,
                    ),
                )
            } else {
                r is None
            }
        }),
{
    reveal_with_fuel(parse_varint, 6);
}

/// What stands behind a length.
pub proof fn law_key_behind_length(s: Seq<u8>)
    ensures
        match parse_varint32(s) {
            Some((len, n)) => {
                &&& has_prefixed_key(s) <==> n + len <= s.len()
                &&& has_prefixed_key(s) ==> prefixed_key(s).len() == len
                &&& forall|i: int|
                    has_prefixed_key(s) && 0 <= i < len ==> #[trigger] prefixed_key(s)[i] == s[n
                        + i]
            },
            None => !has_prefixed_key(s),
        },
{
}

/// The bytes of a record: the length of the key, the key, the length of the value,
/// the value.
pub proof fn law_record_bytes(key: Seq<u8>, value: Seq<u8>)
    ensures
        ({
            let r = record(key, value);
            let a = varint(key.len());
            let b = varint(value.len());
            let at_key = a.len() as int;
            let at_len = at_key + key.len();
            let at_value = at_len + b.len();
            &&& r.len() == at_value + value.len()
            &&& forall|i: int| 0 <= i < at_key ==> #[trigger] r[i] == a[i]
            &&& forall|i: int| at_key <= i < at_len ==> #[trigger] r[i] == key[i - at_key]
            &&& forall|i: int| at_len <= i < at_value ==> #[trigger] r[i] == b[i - at_len]
            &&& forall|i: int| at_value <= i < r.len() ==> #[trigger] r[i] == value[i - at_value]
        }),
{
}

/// A key behind its length: the bytes of the length, then those of the key.
pub proof fn law_prefixed_bytes(key: Seq<u8>)
    ensures
        ({
            let a = varint(key.len());
            let n = a.len() as int;
            &&& prefixed(key).len() == n + key.len()
            &&& forall|i: int| 0 <= i < n ==> #[trigger] prefixed(key)[i] == a[i]
            &&& forall|i: int|
                n <= i < n + key.len() ==> #[trigger] prefixed(key)[i] == key[i - n]
        }),
{
}

/// The part of a key that is kept is its front, as long as the lower 32 bits of its
/// length say.
pub proof fn law_kept_key_front(key: Seq<u8>)
    ensures
        kept_key(key).len() == key.len() % 0x1_0000_0000,
        forall|i: int| 0 <= i < kept_key(key).len() ==> #[trigger] kept_key(key)[i] == key[i],
        key.len() < 0x1_0000_0000 ==> kept_key(key) == key,
{
}

/// The entries of a list stand in the order of its comparator, and each is linked at
/// one to twelve levels.
pub proof fn law_entries_ascend<C: Comparator, A: Arena>(list: &InlineSkipList<C, A>)
    requires
        list.wf(),
    ensures
        forall|i: int, j: int|
            0 <= i < j < list@.len() ==> !list.comparator().precedes(
                (#[trigger] list@[j]).key,
                (#[trigger] list@[i]).key,
            ),
        forall|i: int|
            0 <= i < list@.len() ==> list.comparator().valid_key((#[trigger] list@[i]).key) && 1
                <= list@[i].height <= 12,
{
    list.law_in_order();
}

/// In a memtable an entry that stands before another one has a lesser user key, or
/// the same user key and a trailer that is not less.
pub proof fn law_user_keys_ascend<A: Arena>(
    list: &InlineSkipList<DefaultComparator, A>,
    i: int,
    j: int,
)
    requires
        list.wf(),
        0 <= i < j < list@.len(),
    ensures
        ({
            let a = list@[i].key;
            let b = list@[j].key;
            let u = a.take(a.len() - 8);
            let v = b.take(b.len() - 8);
            &&& a.len() >= 8 && b.len() >= 8
            &&& (exists|n: int|
                #![trigger u.take(n)]
                0 <= n <= u.len() && n < v.len() && u.take(n) == v.take(n) && (n == u.len() || u[n]
                    < v[n])) || (u == v && spec_u64_from_le_bytes(a.skip(a.len() - 8))
                >= spec_u64_from_le_bytes(b.skip(b.len() - 8)))
        }),
{
    list.law_in_order();
    let a = list@[i].key;
    let b = list@[j].key;
    let u = a.take(a.len() - 8);
    let v = b.take(b.len() - 8);
    let c = &list.comparator();
    let k = &InternalKeyComparator {  };
    law_internal_order(c, k, b, a);
    law_bytes_order(u, v);
    law_bytes_order(v, u);
    if u != v {
        lemma_bytes_total(u, v);
    }
}

/// A write puts its entry behind those that precede its key and before all others,
/// and leaves those, and their nodes, as they are.
pub proof fn law_write_finds_its_place<C: Comparator, A: Arena>(
    list: &InlineSkipList<C, A>,
    after: &InlineSkipList<C, A>,
    entry: Entry,
) -> (r: int)
    requires
        list.wf(),
        list.comparator().valid_key(entry.key),
        after.wrote(list, entry),
    ensures
        0 <= r <= list@.len(),
        after@ == list@.insert(r, entry),
        forall|i: int|
            0 <= i < list@.len() ==> (list.comparator().precedes(
                (#[trigger] list@[i]).key,
                entry.key,
            ) <==> i < r),
        forall|i: int|
            -1 <= i < r ==> #[trigger] after.node_at(i) == list.node_at(i),
        forall|i: int|
            r <= i <= list@.len() ==> after.node_at(i + 1) == #[trigger] list.node_at(i),
        after.comparator() == list.comparator(),
        entry.height > list.levels() ==> after.levels() == entry.height as usize,
        entry.height <= list.levels() ==> after.levels() == list.levels(),
{
    list.law_in_order();
    law_rank_splits(&list.comparator(), list@, entry.key);
    let r = rank(&list.comparator(), list@, entry.key) as int;
    assert forall|i: int| -1 <= i < r implies #[trigger] after.node_at(i) == list.node_at(i) by {
        assert(after.node_at(shifted(i, r)) == list.node_at(i));
    }
    r
}

/// What a search finds: no entry that precedes the key. Where it finds one after the
/// key, all entries before that one precede the key and all others come after it.
/// Where it finds one whose key equals the key, no entry whose key does is higher,
/// and none before it is as high. Where it finds none, all entries precede the key.
pub proof fn law_search_ends<C: Comparator, A: Arena>(
    list: &InlineSkipList<C, A>,
    key: Seq<u8>,
    found: Option<int>,
)
    requires
        list.wf(),
        list@.len() > 0 ==> list.comparator().valid_key(key),
        is_found(&list.comparator(), list@, key, found),
    ensures
        ({
            let c = &list.comparator();
            let entries = list@;
            match found {
                Some(i) => {
                    &&& 0 <= i < entries.len()
                    &&& !c.precedes(entries[i].key, key)
                    &&& c.precedes(key, entries[i].key) ==> forall|j: int|
                        0 <= j < entries.len() ==> {
                            &&& c.precedes((#[trigger] entries[j]).key, key) <==> j < i
                            &&& c.precedes(key, entries[j].key) <==> i <= j
                        }
                    &&& !c.precedes(key, entries[i].key) ==> forall|j: int|
                        0 <= j < entries.len() && !c.precedes((#[trigger] entries[j]).key, key)
                            && !c.precedes(key, entries[j].key) ==> {
                            &&& entries[j].height <= entries[i].height
                            &&& j < i ==> entries[j].height < entries[i].height
                        }
                },
                None => forall|j: int|
                    0 <= j < entries.len() ==> c.precedes((#[trigger] entries[j]).key, key),
            }
        }),
{
    let c = &list.comparator();
    let entries = list@;
    list.law_in_order();
    law_rank_splits(c, entries, key);
    if found is Some {
        let i = found->0;
        lemma_found_not_before(c, entries, key, i);
        if c.precedes(key, entries[i].key) {
            assert forall|j: int| 0 <= j < entries.len() implies {
                &&& c.precedes((#[trigger] entries[j]).key, key) <==> j < i
                &&& c.precedes(key, entries[j].key) <==> i <= j
            } by {
                assert(!equal_keys(c, entries[j].key, key));
                if c.precedes(entries[j].key, key) {
                    c.law_asymmetric(entries[j].key, key);
                }
            }
        }
    }
}

/// What a search backward ends at: an entry that does not come after the key, and no
/// entry behind it does otherwise, unless its key equals that of the entry. Where it
/// ends at none, all entries come after the key. Of entries whose keys equal the
/// key it ends at the one that a search finds.
pub proof fn law_search_back_ends<C: Comparator, A: Arena>(
    list: &InlineSkipList<C, A>,
    key: Seq<u8>,
    found: Option<int>,
)
    requires
        list.wf(),
        list@.len() > 0 ==> list.comparator().valid_key(key),
        is_found_for_prev(&list.comparator(), list@, key, found),
    ensures
        ({
            let c = &list.comparator();
            let entries = list@;
            match found {
                Some(i) => {
                    &&& 0 <= i < entries.len()
                    &&& !c.precedes(key, entries[i].key)
                    &&& forall|j: int|
                        i < j < entries.len() ==> c.precedes(key, (#[trigger] entries[j]).key) || (
                        !c.precedes(entries[i].key, entries[j].key) && !c.precedes(
                            entries[j].key,
                            entries[i].key,
                        ))
                    &&& !c.precedes(entries[i].key, key) ==> forall|j: int|
                        0 <= j < entries.len() && !c.precedes((#[trigger] entries[j]).key, key)
                            && !c.precedes(key, entries[j].key) ==> {
                            &&& entries[j].height <= entries[i].height
                            &&& j < i ==> entries[j].height < entries[i].height
                        }
                },
                None => forall|j: int|
                    0 <= j < entries.len() ==> c.precedes(key, (#[trigger] entries[j]).key),
            }
        }),
{
    let c = &list.comparator();
    let entries = list@;
    list.law_in_order();
    law_rank_splits(c, entries, key);
    if entries.len() > 0 {
        law_seek_for_prev_bounds(c, entries, key, found);
        if has_equal(c, entries, key) {
            law_search_ends(list, key, found);
        } else if found is Some {
            assert(c.precedes(entries[found->0].key, key));
        }
    }
}

/// What going back from an entry ends at: the last entry that precedes it. Those
/// between the two, and all before it where there is none, have keys that equal its
/// own.
pub proof fn law_step_back_ends<C: Comparator, A: Arena>(list: &InlineSkipList<C, A>, i: int)
    requires
        list.wf(),
        0 <= i < list@.len(),
    ensures
        ({
            let c = &list.comparator();
            let entries = list@;
            let r = before(rank(c, entries, entries[i].key) as int);
            let low = match r {
                Some(j) => j,
                None => -1,
            };
            &&& r matches Some(j) ==> 0 <= j < i && c.precedes(entries[j].key, entries[i].key)
            &&& forall|k: int|
                low < k <= i ==> !c.precedes((#[trigger] entries[k]).key, entries[i].key)
                    && !c.precedes(entries[i].key, entries[k].key)
        }),
{
    list.law_in_order();
    law_prev_steps_back(&list.comparator(), list@, i);
}

/// What going back from what a search for one key finds, or else from the last entry,
/// to an entry that does not come after another key ends at.
pub proof fn law_found_back_ends<C: Comparator, A: Arena>(
    list: &InlineSkipList<C, A>,
    sought: Seq<u8>,
    key: Seq<u8>,
    found: Option<int>,
) -> (start: Option<int>)
    requires
        list.wf(),
        is_found_back(&list.comparator(), list@, sought, key, found),
    ensures
        is_found(&list.comparator(), list@, sought, start),
        ({
            let c = &list.comparator();
            let entries = list@;
            let from = match start {
                Some(i) => i,
                None => entries.len() - 1,
            };
            match found {
                Some(i) => {
                    &&& 0 <= i <= from
                    &&& !c.precedes(key, entries[i].key)
                    &&& forall|j: int| i < j <= from ==> c.precedes(key, (#[trigger] entries[j]).key)
                },
                None => forall|j: int|
                    0 <= j <= from ==> c.precedes(key, (#[trigger] entries[j]).key),
            }
        }),
{
    let c = &list.comparator();
    let entries = list@;
    let start = choose|start: Option<int>| #[trigger]
        is_found(c, entries, sought, start) && found == last_not_after(
            c,
            entries,
            key,
            match start {
                Some(i) => i,
                None => entries.len() - 1,
            },
        );
    lemma_last_not_after(
        c,
        entries,
        key,
        match start {
            Some(i) => i,
            None => entries.len() - 1,
        },
    );
    start
}

/// What `last_not_after` says.
proof fn lemma_last_not_after<C: Comparator>(
    c: &C,
    entries: Seq<Entry>,
    key: Seq<u8>,
    from: int,
)
    requires
        from < entries.len(),
    ensures
        match last_not_after(c, entries, key, from) {
            Some(i) => {
                &&& 0 <= i <= from
                &&& !c.precedes(key, entries[i].key)
                &&& forall|j: int| i < j <= from ==> c.precedes(key, (#[trigger] entries[j]).key)
            },
            None => forall|j: int|
                0 <= j <= from ==> c.precedes(key, (#[trigger] entries[j]).key),
        },
    decreases from + 1,
{
    if from >= 0 && c.precedes(key, entries[from].key) {
        lemma_last_not_after(c, entries, key, from - 1);
    }
}

/// An index one further, if there is one, and an index one back.
pub proof fn law_steps(i: int, len: nat)
    ensures
        0 <= i < len ==> within(i, len) == Some(i),
        !(0 <= i < len) ==> within(i, len) is None,
        i > 0 ==> before(i) == Some(i - 1),
        i <= 0 ==> before(i) is None,
{
}

/// The numbers that were drawn give the height: each level above the first was paid
/// for by a number below 536870912 of its own, and a height below twelve was ended by
/// one that is not. No number was drawn besides.
pub proof fn law_height_is_drawn(before: Seq<u32>, after: Seq<u32>, height: usize)
    requires
        drew_height(before, after, height),
    ensures
        1 <= height <= 12,
        after.len() == before.len() + (if height < 12 {
            height as int
        } else {
            11
        }),
        forall|i: int| 0 <= i < before.len() ==> #[trigger] after[i] == before[i],
        forall|i: int|
            before.len() <= i < before.len() + height - 1 ==> #[trigger] after[i] < 536870912,
        height < 12 ==> after[after.len() - 1] >= 536870912,
{
    let drawn = after.skip(before.len() as int);
    assert forall|i: int| 0 <= i < before.len() implies #[trigger] after[i] == before[i] by {
        assert(after.take(before.len() as int)[i] == after[i]);
    }
    assert forall|i: int| before.len() <= i < before.len() + height - 1 implies #[trigger] after[i]
        < 536870912 by {
        assert(drawn[i - before.len()] == after[i]);
    }
    if height < 12 {
        assert(drawn[height - 1] == after[after.len() - 1]);
    }
}

/// A random height is one that some numbers give.
pub proof fn law_random_height_is_drawn(height: usize) -> (draws: Seq<u32>)
    requires
        is_drawn(height),
    ensures
        1 <= height <= 12,
        draws.len() == (if height < 12 {
            height as int
        } else {
            11
        }),
        forall|i: int| 0 <= i < height - 1 ==> #[trigger] draws[i] < 536870912,
        height < 12 ==> draws[height - 1] >= 536870912,
{
    law_drawn(height)
}

/// Options are equal exactly if both sizes and both names are.
pub proof fn law_equal_options<F: TableFactory + ?Sized>(
    a: ColumnFamilyOptions<F>,
    b: ColumnFamilyOptions<F>,
)
    ensures
        a.eq_spec(&b) <==> a.write_buffer_size == b.write_buffer_size && a.max_write_buffer_number
            == b.max_write_buffer_number && a.factory.name_view() == b.factory.name_view()
            && a.comparator.name_view() == b.comparator.name_view(),
{
}

/// The number of bytes of links, nodes and records.
pub proof fn law_sizes(height: nat, len: nat, key_len: nat, value_len: nat)
    ensures
        usize::BITS == 64 ==> LINK_SIZE == 8 && links_size(height as int) == 8 * height
            && node_size(height, len) == 8 * height + len,
        usize::BITS == 32 ==> LINK_SIZE == 4 && links_size(height as int) == 4 * height
            && node_size(height, len) == 4 * height + len,
        record_len(key_len, value_len) == varint(key_len + 8).len() + key_len + 8 + varint(
            value_len,
        ).len() + value_len,
{
}

/// A write asks the arena for one block, for its thread, of the size of its node.
pub proof fn law_write_takes_memory<C: Comparator, A: Arena>(
    list: &InlineSkipList<C, A>,
    after: &InlineSkipList<C, A>,
    thread_id: usize,
    height: nat,
    key_len: nat,
    value_len: nat,
)
    requires
        after.grew(list, thread_id, height, key_len, value_len),
    ensures
        ({
            let links = if usize::BITS == 64 {
                8 * height
            } else {
                4 * height
            };
            let size = links + varint(key_len + 8).len() + key_len + 8 + varint(value_len).len()
                + value_len;
            &&& after.arena().used() == list.arena().used() + size
            &&& after.arena().room() == list.arena().room() - size
            &&& after.arena().requests() == list.arena().requests().push(
                Request { thread: Some(thread_id), size },
            )
        }),
{
}

/// What a list asks of a write: a height that it can have, lengths of 32 bits, room
/// for the node, and a key that the order speaks of.
pub proof fn law_accepts<C: Comparator, A: Arena>(
    list: &InlineSkipList<C, A>,
    height: nat,
    key: Seq<u8>,
    value: Seq<u8>,
    sequence: u64,
    kind: ValueType,
)
    requires
        1 <= height <= 12,
        key.len() + 8 < 0x1_0000_0000,
        value.len() < 0x1_0000_0000,
        (if usize::BITS == 64 {
            8 * height
        } else {
            4 * height
        }) + varint(key.len() + 8).len() + key.len() + 8 + varint(value.len()).len() + value.len()
            <= list.arena().room(),
        list.comparator().valid_key(internal_key(key, sequence, kind.code())),
    ensures
        list.accepts(height, key, value, sequence, kind),
{
}

/// At a level the link of a node goes to the next node that takes part in the level,
/// and to none where there is no further one. The head takes part in all levels.
pub proof fn law_link_goes_to_next<C: Comparator, A: Arena>(
    list: &InlineSkipList<C, A>,
    i: int,
    j: int,
    level: int,
)
    requires
        list.wf(),
        0 <= level < 12,
        -1 <= i < j <= list@.len(),
        i >= 0 ==> list@[i].height > level,
        j < list@.len() ==> list@[j].height > level,
        forall|k: int| i < k < j ==> (#[trigger] list@[k]).height <= level,
    ensures
        next_of(list.arena().memory(), list.node_at(i) as int, level) == list.node_at(j),
        list.node_at(list@.len() as int) == 0,
        list.node_at(i) != 0,
{
    list.lemma_link(i, j, level);
}

/// A link of a node is the number that the bytes make that stand as many links below
/// the address of the node as the level says.
pub proof fn law_link_bytes(memory: Map<int, u8>, x: int, level: int)
    ensures
        usize::BITS == 64 ==> next_of(memory, x, level) == spec_u64_from_le_bytes(
            Seq::new(8, |i: int| memory[x - 8 * level + i]),
        ) as usize,
        usize::BITS == 32 ==> next_of(memory, x, level) == spec_u32_from_le_bytes(
            Seq::new(4, |i: int| memory[x - 4 * level + i]),
        ) as usize,
{
    assert(usize::BITS == 64 ==> block(memory, x - 8 * level, 8) =~= Seq::new(
        8,
        |i: int| memory[x - 8 * level + i],
    ));
    assert(usize::BITS == 32 ==> block(memory, x - 4 * level, 4) =~= Seq::new(
        4,
        |i: int| memory[x - 4 * level + i],
    ));
}

/// Setting a link changes the bytes of that link alone, and the link is then what it
/// was set to.
pub proof fn law_link_is_set(memory: Map<int, u8>, node: int, level: int, x: usize, a: int)
    requires
        forall|b: int|
            node - links_size(level) <= b < node - links_size(level) + LINK_SIZE
                ==> #[trigger] memory.contains_key(b),
        memory.contains_key(a),
        a < node - links_size(level) || node - links_size(level) + LINK_SIZE <= a,
    ensures
        next_of(with_next(memory, node, level, x), node, level) == x,
        with_next(memory, node, level, x).contains_key(a),
        with_next(memory, node, level, x)[a] == memory[a],
{
    crate::node::lemma_next_set(memory, node, level, x);
    crate::node::law_link_round_trip(x);
}

/// What a new block, a block and a write to one are, by address.
pub proof fn law_memory(
    memory: Map<int, u8>,
    after: Map<int, u8>,
    addr: int,
    len: nat,
    data: Seq<u8>,
    a: int,
)
    ensures
        block(memory, addr, len).len() == len,
        0 <= a < len ==> block(memory, addr, len)[a] == memory[addr + a],
        holds_block(memory, addr, len) && addr <= a < addr + len ==> memory.contains_key(a),
        overwritten(memory, addr, data).contains_key(a) == memory.contains_key(a),
        memory.contains_key(a) && addr <= a < addr + data.len() ==> overwritten(
            memory,
            addr,
            data,
        )[a] == data[a - addr],
        memory.contains_key(a) && !(addr <= a < addr + data.len()) ==> overwritten(
            memory,
            addr,
            data,
        )[a] == memory[a],
        block_added(memory, after, addr, len) ==> {
            &&& 0 < addr
            &&& addr + len <= usize::MAX
            &&& addr <= a < addr + len ==> !memory.contains_key(a)
            &&& after.contains_key(a) <==> memory.contains_key(a) || addr <= a < addr + len
            &&& memory.contains_key(a) ==> after[a] == memory[a]
        },
{
}

/// The shared arena holds the bytes that it handed out and no others, from address
/// one on.
pub proof fn law_shared_arena(arena: &SharedArena, a: int)
    ensures
        arena.used() == arena@.len(),
        arena.footprint() == arena@.len(),
        arena@.len() < usize::MAX ==> arena.room() == usize::MAX - 1 - arena@.len(),
        arena.memory().contains_key(a) <==> 1 <= a <= arena@.len(),
        1 <= a <= arena@.len() ==> arena.memory()[a] == arena@[a - 1],
{
}

/// A blank splice has no height and gives no node at any of its 32 levels.
pub proof fn law_blank_splice(splice: &Splice, level: int)
    requires
        splice.is_blank(),
        0 <= level < 32,
    ensures
        splice.height() == 0,
        splice.prev().len() == 32,
        splice.next().len() == 32,
        splice.prev()[level] == 0,
        splice.next()[level] == 0,
{
}

/// A write leaves the head and no node right above the levels in use of its splice,
/// and nothing new further up.
pub proof fn law_splice_above<C: Comparator, A: Arena>(
    list: &InlineSkipList<C, A>,
    splice: &Splice,
    earlier: &Splice,
    level: int,
)
    requires
        list.caps(splice, earlier),
        list.levels() < level < 32,
    ensures
        splice.prev()[list.levels() as int] == list.node_at(-1),
        splice.next()[list.levels() as int] == 0,
        splice.prev()[level] == earlier.prev()[level],
        splice.next()[level] == earlier.next()[level],
{
}

} // verus!
