//! Nodes in an arena. A node has an address. The links of its tower stand at and
//! below the address, the link of level `l` at `l` words below; its record
//! stands behind the word at the address.

use crate::arena::{
    block, holds_block, lemma_block_untouched, lemma_block_written, overwritten, Arena,
};
use vstd::bytes::{
    spec_u32_from_le_bytes, spec_u32_to_le_bytes, spec_u64_from_le_bytes, spec_u64_to_le_bytes,
};
use vstd::prelude::*;

verus! {

/// The number of bytes of a link: those of an address.
pub const LINK_SIZE: usize = (usize::BITS / 8) as usize;

/// The address that no node has.
pub const NULL: usize = 0;

/// The number of bytes of `n` links.
pub open spec fn links_size(n: int) -> int {
    if usize::BITS == 64 {
        8 * n
    } else {
        4 * n
    }
}

/// The bytes of a link that goes to `x`, least significant first.
pub open spec fn link_bytes(x: usize) -> Seq<u8> {
    if usize::BITS == 64 {
        spec_u64_to_le_bytes(x as u64)
    } else {
        spec_u32_to_le_bytes(x as u32)
    }
}

/// Where a link with the given bytes goes.
pub open spec fn link_value(bytes: Seq<u8>) -> usize {
    if usize::BITS == 64 {
        spec_u64_from_le_bytes(bytes) as usize
    } else {
        spec_u32_from_le_bytes(bytes) as usize
    }
}

/// A link reads back as it was written.
pub proof fn law_link_round_trip(x: usize)
    ensures
        link_bytes(x).len() == LINK_SIZE,
        link_value(link_bytes(x)) == x,
{
    vstd::bytes::lemma_auto_spec_u64_to_from_le_bytes();
    vstd::bytes::lemma_auto_spec_u32_to_from_le_bytes();
    vstd::layout::unsigned_int_max_values();
    vstd::arithmetic::power2::lemma2_to64();
    assert(usize::BITS == 32 ==> spec_u32_to_le_bytes(x as u32).len() == 4 && x as u32 == x);
}

/// Where the link of `level` of the node at `node` stands.
pub open spec fn slot(node: int, level: int) -> int {
    node - links_size(level)
}

/// The link of `level` of the node at `node`.
pub open spec fn next_of(memory: Map<int, u8>, node: int, level: int) -> usize {
    link_value(block(memory, slot(node, level), LINK_SIZE as nat))
}

/// `memory` with the link of `level` of the node at `node` set to `x`.
pub open spec fn with_next(memory: Map<int, u8>, node: int, level: int, x: usize) -> Map<int, u8> {
    overwritten(memory, slot(node, level), link_bytes(x))
}

/// The number of bytes of a node with `height` links and a record of `len` bytes.
pub open spec fn node_size(height: nat, len: nat) -> nat {
    (links_size(height as int) + len) as nat
}

/// A link is what it was last set to.
pub proof fn lemma_next_set(memory: Map<int, u8>, node: int, level: int, x: usize)
    requires
        holds_block(memory, slot(node, level), LINK_SIZE as nat),
    ensures
        next_of(with_next(memory, node, level, x), node, level) == x,
{
    law_link_round_trip(x);
    lemma_block_written(memory, slot(node, level), link_bytes(x));
}

/// Setting a link leaves every block that does not overlap it as it was.
pub proof fn lemma_set_untouched(
    memory: Map<int, u8>,
    node: int,
    level: int,
    x: usize,
    addr: int,
    len: nat,
)
    requires
        holds_block(memory, addr, len),
        addr + len <= slot(node, level) || slot(node, level) + LINK_SIZE <= addr,
    ensures
        block(with_next(memory, node, level, x), addr, len) == block(memory, addr, len),
{
    law_link_round_trip(x);
    lemma_block_untouched(memory, slot(node, level), link_bytes(x), addr, len);
}

/// The number of bytes of `n` links.
pub fn size_of_links(n: usize) -> (r: usize)
    requires
        links_size(n as int) <= usize::MAX,
    ensures
        r == links_size(n as int),
{
    if usize::BITS == 64 {
        8 * n
    } else {
        4 * n
    }
}

/// The bytes of a link that goes to `x`.
fn encode_link(x: usize) -> (r: Vec<u8>)
    ensures
        r@ == link_bytes(x),
{
    if usize::BITS == 64 {
        vstd::bytes::u64_to_le_bytes(x as u64)
    } else {
        vstd::bytes::u32_to_le_bytes(x as u32)
    }
}

/// Where a link with the given bytes goes.
fn decode_link(bytes: &[u8]) -> (r: usize)
    requires
        bytes@.len() == LINK_SIZE,
    ensures
        r == link_value(bytes@),
{
    if usize::BITS == 64 {
        vstd::bytes::u64_from_le_bytes(bytes) as usize
    } else {
        vstd::bytes::u32_from_le_bytes(bytes) as usize
    }
}

/// The bytes behind the links of a node: its record, and what follows it.
pub fn key<A: Arena>(arena: &A, node: usize) -> (r: &[u8])
    requires
        arena.memory().contains_key(node + LINK_SIZE),
        node + LINK_SIZE <= usize::MAX,
    ensures
        forall|len: nat| #[trigger]
            holds_block(arena.memory(), node + LINK_SIZE, len) ==> len <= r@.len() && r@.take(
                len as int,
            ) == block(arena.memory(), node + LINK_SIZE, len),
{
    arena.bytes_from(node + LINK_SIZE)
}

/// The link of a node at a level.
pub fn get_next<A: Arena>(arena: &A, node: usize, level: usize) -> (r: usize)
    requires
        links_size(level as int) <= node,
        holds_block(arena.memory(), slot(node as int, level as int), LINK_SIZE as nat),
    ensures
        r == next_of(arena.memory(), node as int, level as int),
{
    let at: usize = node - size_of_links(level);
    assert(arena.memory().contains_key(at as int));
    let bytes: &[u8] = arena.bytes_from(at);
    assert(holds_block(arena.memory(), at as int, LINK_SIZE as nat));
    assert(bytes@.take(LINK_SIZE as int) =~= bytes@.subrange(0, LINK_SIZE as int));
    decode_link(&bytes[0..LINK_SIZE])
}

/// Sets the link of a node at a level.
pub fn set_next<A: Arena>(arena: &mut A, node: usize, level: usize, x: usize)
    requires
        links_size(level as int) <= node,
        node + LINK_SIZE <= usize::MAX,
        holds_block(old(arena).memory(), slot(node as int, level as int), LINK_SIZE as nat),
    ensures
        final(arena).memory() == with_next(old(arena).memory(), node as int, level as int, x),
        final(arena).requests() == old(arena).requests(),
        final(arena).used() == old(arena).used(),
        final(arena).room() == old(arena).room(),
        final(arena).footprint() == old(arena).footprint(),
{
    proof {
        law_link_round_trip(x);
    }
    let word: Vec<u8> = encode_link(x);
    arena.write(node - size_of_links(level), word.as_slice());
}

/// Sets the link of a node at a level if it is still `expected`, and says
/// whether it was.
pub fn cas_next<A: Arena>(
    arena: &mut A,
    node: usize,
    level: usize,
    expected: usize,
    x: usize,
) -> (swapped: bool)
    requires
        links_size(level as int) <= node,
        node + LINK_SIZE <= usize::MAX,
        holds_block(old(arena).memory(), slot(node as int, level as int), LINK_SIZE as nat),
    ensures
        swapped == (next_of(old(arena).memory(), node as int, level as int) == expected),
        swapped ==> final(arena).memory() == with_next(
            old(arena).memory(),
            node as int,
            level as int,
            x,
        ),
        !swapped ==> final(arena).memory() == old(arena).memory(),
        final(arena).requests() == old(arena).requests(),
        final(arena).used() == old(arena).used(),
        final(arena).room() == old(arena).room(),
        final(arena).footprint() == old(arena).footprint(),
{
    if get_next(arena, node, level) == expected {
        set_next(arena, node, level, x);
        true
    } else {
        false
    }
}

/// Links `node` behind `prev` at a level.
pub fn insert_after<A: Arena>(arena: &mut A, node: usize, level: usize, prev: usize)
    requires
        links_size(level as int) <= node,
        node + LINK_SIZE <= usize::MAX,
        holds_block(old(arena).memory(), slot(node as int, level as int), LINK_SIZE as nat),
        links_size(level as int) <= prev,
        prev + LINK_SIZE <= usize::MAX,
        holds_block(old(arena).memory(), slot(prev as int, level as int), LINK_SIZE as nat),
    ensures
        final(arena).memory() == with_next(
            with_next(
                old(arena).memory(),
                node as int,
                level as int,
                next_of(old(arena).memory(), prev as int, level as int),
            ),
            prev as int,
            level as int,
            node,
        ),
        final(arena).requests() == old(arena).requests(),
        final(arena).used() == old(arena).used(),
        final(arena).room() == old(arena).room(),
        final(arena).footprint() == old(arena).footprint(),
{
    let next: usize = get_next(arena, prev, level);
    set_next(arena, node, level, next);
    set_next(arena, prev, level, node);
}

} // verus!
