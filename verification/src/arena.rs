//! Memory for nodes. An arena hands out blocks of bytes by address and never
//! takes one back.

use vstd::prelude::*;

verus! {

/// Every byte of the block of `len` bytes at `addr` was handed out.
pub open spec fn holds_block(memory: Map<int, u8>, addr: int, len: nat) -> bool {
    forall|a: int| addr <= a < addr + len ==> #[trigger] memory.contains_key(a)
}

/// The bytes of the block of `len` bytes at `addr`.
pub open spec fn block(memory: Map<int, u8>, addr: int, len: nat) -> Seq<u8> {
    Seq::new(len, |i: int| memory[addr + i])
}

/// `memory` with `data` written to the block at `addr`.
pub open spec fn overwritten(memory: Map<int, u8>, addr: int, data: Seq<u8>) -> Map<int, u8> {
    Map::new(
        |a: int| memory.contains_key(a),
        |a: int|
            if addr <= a < addr + data.len() {
                data[a - addr]
            } else {
                memory[a]
            },
    )
}

/// `after` is `before` with a new block of `len` bytes at `addr`, whatever the
/// new bytes are.
pub open spec fn block_added(
    before: Map<int, u8>,
    after: Map<int, u8>,
    addr: int,
    len: nat,
) -> bool {
    &&& 0 < addr
    &&& addr + len <= usize::MAX
    &&& forall|a: int| addr <= a < addr + len ==> !#[trigger] before.contains_key(a)
    &&& forall|a: int| #[trigger]
        after.contains_key(a) <==> before.contains_key(a) || addr <= a < addr + len
    &&& forall|a: int| #[trigger] before.contains_key(a) ==> after[a] == before[a]
}

/// A block that a write does not touch keeps its bytes.
pub proof fn lemma_block_untouched(
    memory: Map<int, u8>,
    at: int,
    data: Seq<u8>,
    addr: int,
    len: nat,
)
    requires
        holds_block(memory, addr, len),
        addr + len <= at || at + data.len() <= addr,
    ensures
        block(overwritten(memory, at, data), addr, len) == block(memory, addr, len),
{
    let after = overwritten(memory, at, data);
    assert forall|a: int| addr <= a < addr + len implies #[trigger] after[a] == memory[a] by {
        assert(memory.contains_key(a));
    }
    assert(block(after, addr, len) =~= block(memory, addr, len));
}

/// A block holds what was written to it.
pub proof fn lemma_block_written(memory: Map<int, u8>, at: int, data: Seq<u8>)
    requires
        holds_block(memory, at, data.len()),
    ensures
        block(overwritten(memory, at, data), at, data.len()) == data,
{
    let after = overwritten(memory, at, data);
    assert forall|a: int| at <= a < at + data.len() implies #[trigger] after[a] == data[a - at] by {
        assert(memory.contains_key(a));
    }
    assert(block(after, at, data.len()) =~= data);
}

/// A request for a block: the thread that it was made for, if one was named, and
/// the number of bytes.
pub struct Request {
    pub thread: Option<usize>,
    pub size: nat,
}

/// Memory that is handed out in blocks.
pub trait Arena {
    /// The bytes that were handed out, by address. Zero is no address.
    spec fn memory(&self) -> Map<int, u8>;

    /// The requests that were made, in their order.
    spec fn requests(&self) -> Seq<Request>;

    /// How many bytes were handed out.
    spec fn used(&self) -> nat;

    /// How many bytes can still be handed out.
    spec fn room(&self) -> usize;

    /// How many bytes the arena holds in all.
    spec fn footprint(&self) -> nat;

    /// Hands out a block of `size` bytes that no other block overlaps.
    fn allocate(&mut self, size: usize) -> (addr: usize)
        requires
            0 < size <= old(self).room(),
        ensures
            block_added(old(self).memory(), final(self).memory(), addr as int, size as nat),
            final(self).requests() == old(self).requests().push(
                Request { thread: None, size: size as nat },
            ),
            final(self).used() == old(self).used() + size,
            final(self).room() + size == old(self).room(),
            final(self).footprint() >= old(self).footprint(),
    ;

    /// Hands out a block as `allocate` does, from the part of the arena that the
    /// given thread draws on.
    fn allocate_in_thread(&mut self, thread_id: usize, size: usize) -> (addr: usize)
        requires
            0 < size <= old(self).room(),
        ensures
            block_added(old(self).memory(), final(self).memory(), addr as int, size as nat),
            final(self).requests() == old(self).requests().push(
                Request { thread: Some(thread_id), size: size as nat },
            ),
            final(self).used() == old(self).used() + size,
            final(self).room() + size == old(self).room(),
            final(self).footprint() >= old(self).footprint(),
    ;

    /// The bytes from `addr` on: at least those of every block that starts there.
    fn bytes_from(&self, addr: usize) -> (r: &[u8])
        requires
            self.memory().contains_key(addr as int),
        ensures
            forall|len: nat| #[trigger]
                holds_block(self.memory(), addr as int, len) ==> len <= r@.len() && r@.take(
                    len as int,
                ) == block(self.memory(), addr as int, len),
    ;

    /// Writes `data` to the block at `addr`.
    fn write(&mut self, addr: usize, data: &[u8])
        requires
            holds_block(old(self).memory(), addr as int, data@.len()),
            addr + data@.len() <= usize::MAX,
        ensures
            final(self).memory() == overwritten(old(self).memory(), addr as int, data@),
            final(self).requests() == old(self).requests(),
            final(self).used() == old(self).used(),
            final(self).room() == old(self).room(),
            final(self).footprint() == old(self).footprint(),
    ;

    /// How many bytes the arena holds in all.
    fn mem_size(&self) -> (r: usize)
        ensures
            r == self.footprint(),
            r >= self.used(),
    ;
}

/// An arena of one growing block, for all threads. The byte at address `a` is
/// the one at index `a - 1`.
pub struct SharedArena {
    bytes: Vec<u8>,
    requests: Ghost<Seq<Request>>,
}

impl SharedArena {
    /// The bytes that were handed out, in the order of their addresses.
    pub closed spec fn view(&self) -> Seq<u8> {
        self.bytes@
    }

    /// An arena that has handed out nothing.
    pub fn new() -> (r: Self)
        ensures
            r@ == Seq::<u8>::empty(),
            r.requests() == Seq::<Request>::empty(),
    {
        SharedArena { bytes: Vec::new(), requests: Ghost(Seq::empty()) }
    }
}

impl Arena for SharedArena {
    open spec fn memory(&self) -> Map<int, u8> {
        Map::new(|a: int| 1 <= a <= self@.len(), |a: int| self@[a - 1])
    }

    closed spec fn requests(&self) -> Seq<Request> {
        self.requests@
    }

    open spec fn used(&self) -> nat {
        self@.len()
    }

    open spec fn room(&self) -> usize {
        if self@.len() < usize::MAX {
            (usize::MAX - 1 - self@.len()) as usize
        } else {
            0
        }
    }

    open spec fn footprint(&self) -> nat {
        self@.len()
    }

    fn allocate(&mut self, size: usize) -> (addr: usize) {
        let len: usize = self.bytes.len();
        self.bytes.resize(len + size, 0);
        proof {
            self.requests@ = self.requests@.push(Request { thread: None, size: size as nat });
        }
        len + 1
    }

    fn allocate_in_thread(&mut self, thread_id: usize, size: usize) -> (addr: usize) {
        let len: usize = self.bytes.len();
        self.bytes.resize(len + size, 0);
        proof {
            self.requests@ = self.requests@.push(
                Request { thread: Some(thread_id), size: size as nat },
            );
        }
        len + 1
    }

    fn bytes_from(&self, addr: usize) -> (r: &[u8]) {
        let len: usize = self.bytes.len();
        let r: &[u8] = &self.bytes.as_slice()[addr - 1..len];
        proof {
            assert forall|n: nat| #[trigger]
                holds_block(self.memory(), addr as int, n) implies n <= r@.len() && r@.take(
                n as int,
            ) == block(self.memory(), addr as int, n) by {
                if n > 0 {
                    assert(self.memory().contains_key(addr + n - 1));
                }
                assert(r@.take(n as int) =~= block(self.memory(), addr as int, n));
            }
        }
        r
    }

    fn write(&mut self, addr: usize, data: &[u8]) {
        let ghost before = *self;
        let mut i: usize = 0;
        proof {
            if data@.len() > 0 {
                assert(before.memory().contains_key(addr as int));
                assert(before.memory().contains_key(addr + data@.len() - 1));
            }
        }
        while i < data.len()
            invariant
                i <= data@.len(),
                addr + data@.len() <= usize::MAX,
                data@.len() > 0 ==> 1 <= addr && addr - 1 + data@.len() <= before@.len(),
                self@.len() == before@.len(),
                self.requests@ == before.requests@,
                forall|j: int|
                    0 <= j < self@.len() ==> #[trigger] self@[j] == (if addr - 1 <= j < addr - 1 + i {
                        data@[j - (addr - 1)]
                    } else {
                        before@[j]
                    }),
            decreases data@.len() - i,
        {
            self.bytes[addr - 1 + i] = data[i];
            i = i + 1;
        }
        proof {
            assert(self.memory() =~= overwritten(before.memory(), addr as int, data@));
        }
    }

    fn mem_size(&self) -> (r: usize) {
        self.bytes.len()
    }
}

} // verus!
