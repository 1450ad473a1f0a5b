//! A skip list of internal keys whose nodes, records inline, stand in an arena.

use crate::arena::{block, block_added, holds_block, Arena, Request};
use crate::chain::{
    addr_at, addresses_of, apart, below, entries_of, has_node, in_memory, index_of, laid_out,
    last_below, law_splice_survives_link, leads_through, lemma_below, lemma_chain_kept, lemma_index,
    lemma_insert_unlinked, lemma_link_in_memory, lemma_link_level, lemma_links_lead,
    lemma_raised_entries, lemma_set_in_chain, lemma_succ, lemma_succ_raised, lemma_succ_unique,
    lemma_with_node_entries, link_ok, linked, linked_on, node_after, node_before, raised, shifted,
    succ, with_node, Node,
};
use crate::common::{internal_key, ValueType, TRAILER_LEN};
use crate::comparator::{decode_key, has_prefixed_key, prefixed_key, Comparator};
use crate::draws::{is_drawn, lemma_drawn, Draws};
use crate::laws::law_prev_steps_back;
use crate::node::{
    cas_next, get_next, links_size, next_of, node_size, set_next, size_of_links, with_next,
    LINK_SIZE, NULL,
};
use crate::order::{
    all_valid, before, equal_keys, is_found, is_found_back, is_found_for_prev, is_sorted,
    last_not_after, law_found_back, lemma_filter_alike, lemma_filter_insert, lemma_passed_by, rank,
    with_entry, within, Entry,
};
pub use crate::record::encode_key;
use crate::record::{
    encode_record, kept_key, law_encoded_key_round_trip, law_record_round_trip,
    lemma_record_starts_with_key, prefixed, record, record_len,
};
use crate::util::{get_var_uint32, varint};
use rand::RngCore;
use std::cmp::Ordering;
use vstd::prelude::*;

verus! {

/// The most levels of a list.
pub const MAX_HEIGHT: usize = 12;

/// The most levels that a splice has room for.
pub const MAX_POSSIBLE_HEIGHT: usize = 32;

/// The inverse of the share of nodes that a level passes on to the next one,
/// before scaling.
pub const BRANCHING_FACTOR: usize = 4;

/// A random number below this one raises a node by a level.
pub const SCALED_INVERSE_BRANCHING: usize = (2147483647usize + 1) / BRANCHING_FACTOR;

/// Where a key falls: for each level the nodes before and after it.
pub struct Splice {
    height: usize,
    prev: [usize; 32],
    next: [usize; 32],
}

impl Splice {
    /// The height of the node that was last put in.
    pub closed spec fn height(&self) -> usize {
        self.height
    }

    /// The nodes before the key, by level.
    pub closed spec fn prev(&self) -> Seq<usize> {
        self.prev@
    }

    /// The nodes after the key, by level.
    pub closed spec fn next(&self) -> Seq<usize> {
        self.next@
    }

    /// The splice speaks of no node.
    pub open spec fn is_blank(&self) -> bool {
        &&& self.height() == 0
        &&& self.prev() == Seq::new(MAX_POSSIBLE_HEIGHT as nat, |i: int| NULL)
        &&& self.next() == Seq::new(MAX_POSSIBLE_HEIGHT as nat, |i: int| NULL)
    }

    /// A splice that speaks of no node.
    fn blank() -> (r: Self)
        ensures
            r.is_blank(),
    {
        let r = Splice { height: 0, prev: [NULL;32], next: [NULL;32] };
        assert(r.prev@ =~= Seq::new(MAX_POSSIBLE_HEIGHT as nat, |i: int| NULL));
        assert(r.next@ =~= Seq::new(MAX_POSSIBLE_HEIGHT as nat, |i: int| NULL));
        r
    }
}

impl Default for Splice {
    fn default() -> (r: Self)
        ensures
            r.is_blank(),
    {
        Splice::blank()
    }
}

impl Clone for Splice {
    /// A splice is scratch space: its copy speaks of no node.
    fn clone(&self) -> (r: Self)
        ensures
            r.is_blank(),
    {
        Splice::blank()
    }
}

/// What one thread carries from write to write.
pub struct MemTableContext {
    /// The thread that writes.
    pub thread_id: usize,
    /// Scratch space for the next write.
    pub splice: Splice,
    /// The random numbers that were drawn for the writes of the context.
    pub draws: Draws,
}

impl MemTableContext {
    /// The context of a thread.
    pub fn new(thread_id: usize) -> (r: Self)
        ensures
            r.thread_id == thread_id,
            r.splice.is_blank(),
            r.draws@ == Seq::<u32>::empty(),
    {
        MemTableContext { thread_id, splice: Splice::blank(), draws: Draws::new() }
    }

    /// The thread that writes.
    pub fn get_thread_id(&self) -> (r: usize)
        ensures
            r == self.thread_id,
    {
        self.thread_id
    }
}

impl Default for MemTableContext {
    fn default() -> (r: Self)
        ensures
            r.thread_id == 0,
            r.splice.is_blank(),
            r.draws@ == Seq::<u32>::empty(),
    {
        MemTableContext::new(0)
    }
}

/// A skip list. Its entries stand in the order of the comparator; of equal keys
/// the one that was put in last comes first.
pub struct InlineSkipList<C: Comparator, A: Arena> {
    arena: A,
    head: usize,
    max_height: usize,
    comparator: C,
    chain: Ghost<Seq<Node>>,
}

/// Calls `RngCore::next_u32` of the generator that `rand::thread_rng` gives the
/// thread. Any number may come back; the log, which exists for proofs alone, records
/// it.
#[verifier::external_body]
fn random_u32(log: &mut Draws) -> (r: u32)
    ensures
        final(log)@ == old(log)@.push(r),
{
    rand::thread_rng().next_u32()
}

/// The random number `draw` raises a node by a level.
pub fn raises(draw: u32) -> (r: bool)
    ensures
        r <==> draw < SCALED_INVERSE_BRANCHING,
{
    (draw as usize) < SCALED_INVERSE_BRANCHING
}

/// What a random number makes of a height: one level more, or `None` where the
/// height is final, because the number does not raise it or it is the greatest.
pub fn next_height(height: usize, draw: u32) -> (r: Option<usize>)
    ensures
        r == (if height < MAX_HEIGHT && height < MAX_POSSIBLE_HEIGHT && draw
            < SCALED_INVERSE_BRANCHING {
            Some((height + 1) as usize)
        } else {
            None
        }),
{
    if height < MAX_HEIGHT && height < MAX_POSSIBLE_HEIGHT && raises(draw) {
        Some(height + 1)
    } else {
        None
    }
}

/// The random numbers `draws`, and no more of them, were drawn to come to
/// `height`: those that raised the node from one level on, and then, below the
/// greatest height, one that did not.
pub open spec fn gives_height(draws: Seq<u32>, height: usize) -> bool {
    &&& 1 <= height <= MAX_HEIGHT
    &&& draws.len() == (if height < MAX_HEIGHT {
        height as nat
    } else {
        (height - 1) as nat
    })
    &&& forall|i: int| 0 <= i < height - 1 ==> (#[trigger] draws[i]) < SCALED_INVERSE_BRANCHING
    &&& height < MAX_HEIGHT ==> draws[height - 1] >= SCALED_INVERSE_BRANCHING
}

/// The random numbers of `after` are those of `before` and then those that gave
/// `height`.
pub open spec fn drew_height(before: Seq<u32>, after: Seq<u32>, height: usize) -> bool {
    &&& before.is_prefix_of(after)
    &&& gives_height(after.skip(before.len() as int), height)
}

/// Draws a height. The log tells which numbers it took.
fn draw_height(log: &mut Draws) -> (height: usize)
    ensures
        drew_height(old(log)@, final(log)@, height),
{
    let mut height: usize = 1;
    let ghost before = log@;
    proof {
        assert(before =~= before.take(before.len() as int));
    }
    while height < MAX_HEIGHT && height < MAX_POSSIBLE_HEIGHT
        invariant
            before == old(log)@,
            1 <= height <= MAX_HEIGHT,
            before.is_prefix_of(log@),
            log@.len() == before.len() + height - 1,
            forall|i: int|
                0 <= i < height - 1 ==> (#[trigger] log@.skip(before.len() as int)[i])
                    < SCALED_INVERSE_BRANCHING,
        decreases MAX_HEIGHT - height,
    {
        let ghost earlier = log@;
        let draw: u32 = random_u32(log);
        proof {
            assert(before =~= log@.take(before.len() as int)) by {
                assert(earlier.take(before.len() as int) =~= before);
            }
            assert(log@.skip(before.len() as int) =~= earlier.skip(before.len() as int).push(draw));
        }
        match next_height(height, draw) {
            Some(raised_height) => {
                height = raised_height;
            },
            None => {
                return height;
            },
        }
    }
    height
}

/// Whether a node takes part in `level`.
pub open spec fn placed_in(level: int) -> spec_fn((usize, Entry)) -> bool {
    |node: (usize, Entry)| node.1.height > level
}

/// The addresses of nodes.
pub open spec fn addresses(nodes: Seq<(usize, Entry)>) -> Seq<usize> {
    Seq::new(nodes.len(), |i: int| nodes[i].0)
}

/// The entries of nodes.
pub open spec fn entries_at(nodes: Seq<(usize, Entry)>) -> Seq<Entry> {
    Seq::new(nodes.len(), |i: int| nodes[i].1)
}

/// Nodes with the same addresses and heights have the same addresses on a level.
proof fn lemma_addresses_alike(s: Seq<Node>, t: Seq<(usize, Entry)>, level: int)
    requires
        s.len() == t.len(),
        forall|i: int|
            0 <= i < s.len() ==> (#[trigger] s[i]).addr == t[i].0 && s[i].height == t[i].1.height,
    ensures
        addresses_of(s.filter(linked_on(level))) == addresses(t.filter(placed_in(level))),
{
    let at = lemma_filter_alike(s, t, linked_on(level), placed_in(level));
    let a = addresses_of(s.filter(linked_on(level)));
    let b = addresses(t.filter(placed_in(level)));
    assert forall|k: int| 0 <= k < a.len() implies #[trigger] a[k] == b[k] by {
        assert(0 <= at[k] < s.len());
    }
    assert(a =~= b);
}

/// Which side of a key a node is on.
enum Side {
    Before,
    Same,
    After,
}

impl<C: Comparator, A: Arena> InlineSkipList<C, A> {
    /// The entries, in order.
    pub closed spec fn view(&self) -> Seq<Entry> {
        entries_of(self.chain@)
    }

    /// The order of the keys.
    pub closed spec fn comparator(&self) -> C {
        self.comparator
    }

    /// The memory that the nodes stand in.
    pub closed spec fn arena(&self) -> A {
        self.arena
    }

    /// The number of levels in use.
    pub closed spec fn levels(&self) -> usize {
        self.max_height
    }

    /// The address of the node of the entry at index `i`: that of the head before
    /// the first, and that of no node past the last.
    pub closed spec fn node_at(&self, i: int) -> usize {
        addr_at(self.chain@, i + 1)
    }

    /// The node at `x` is that of an index from `low` to `high`.
    pub open spec fn has_node_within(&self, x: usize, low: int, high: int) -> bool {
        exists|j: int| low <= j <= high && #[trigger] self.node_at(j) == x
    }

    /// The entries with the addresses of their nodes.
    pub open spec fn nodes(&self) -> Seq<(usize, Entry)> {
        Seq::new(self@.len(), |i: int| (self.node_at(i), self@[i]))
    }

    /// The nodes that take part in `level`.
    pub open spec fn level(&self, level: int) -> Seq<(usize, Entry)> {
        self.nodes().filter(placed_in(level))
    }

    /// The nodes but the one at index `i` that take part in `level`.
    pub open spec fn level_without(&self, i: int, level: int) -> Seq<(usize, Entry)> {
        self.nodes().remove(i).filter(placed_in(level))
    }

    /// The links join the nodes in order, and the records hold their entries.
    pub closed spec fn searchable(&self) -> bool {
        let chain = self.chain@;
        &&& laid_out(self.arena.memory(), chain)
        &&& linked(self.arena.memory(), chain)
        &&& chain[0].addr == self.head
        &&& chain[0].height == MAX_HEIGHT
        &&& chain[0].tower == MAX_HEIGHT
        &&& is_sorted(&self.comparator, entries_of(chain))
        &&& all_valid(&self.comparator, entries_of(chain))
        &&& forall|p: int| 1 <= p < chain.len() ==> holds_entry(#[trigger] chain[p])
        &&& 1 <= self.max_height <= MAX_HEIGHT
    }

    /// The list is searchable, and every node is linked at all its levels.
    pub closed spec fn wf(&self) -> bool {
        let chain = self.chain@;
        &&& self.searchable()
        &&& forall|p: int|
            1 <= p < chain.len() ==> 1 <= (#[trigger] chain[p]).height <= self.max_height
                && chain[p].height == chain[p].tower
    }

    /// The entries of a list are in order, and each is linked at one level at
    /// least and at no more than the list uses.
    pub proof fn law_in_order(&self)
        requires
            self.wf(),
        ensures
            is_sorted(&self.comparator(), self@),
            all_valid(&self.comparator(), self@),
            1 <= self.levels() <= MAX_HEIGHT,
            forall|i: int|
                0 <= i < self@.len() ==> 1 <= (#[trigger] self@[i]).height <= self.levels(),
    {
        assert forall|i: int| 0 <= i < self@.len() implies 1 <= (#[trigger] self@[i]).height
            <= self.levels() by {
            assert(self@[i] == self.chain@[i + 1].entry());
        }
    }

    /// At each level the links lead from the head through the nodes that take
    /// part in it, in the order of their entries, and end behind the last.
    pub proof fn law_links(&self, level: int)
        requires
            self.wf(),
            0 <= level < MAX_HEIGHT,
        ensures
            leads_through(
                self.arena().memory(),
                self.node_at(-1),
                level,
                addresses(self.level(level)),
            ),
    {
        let rest = self.chain@.skip(1);
        lemma_links_lead(self.arena.memory(), self.chain@, 0, 1, level);
        assert forall|i: int| 0 <= i < rest.len() implies (#[trigger] rest[i]).addr
            == self.nodes()[i].0 && rest[i].height == self.nodes()[i].1.height by {
            assert(rest[i] == self.chain@[i + 1]);
        }
        lemma_addresses_alike(rest, self.nodes(), level);
    }

    /// While the node at `x` is not linked yet, the links of each level lead through
    /// the other nodes that take part in it.
    pub proof fn law_links_pass_by(&self, x: usize, height: nat, level: int)
        requires
            self.unlinked(x, height),
            0 <= level < MAX_HEIGHT,
        ensures
            self.position_of(x) matches Some(i) && 0 <= i < self@.len() && self.node_at(i) == x
                && self@[i].height == height,
            leads_through(
                self.arena().memory(),
                self.node_at(-1),
                level,
                addresses(self.level_without(self.position_of(x)->0, level)),
            ),
            is_sorted(&self.comparator(), self@),
            all_valid(&self.comparator(), self@),
    {
        let i = index_of(self.chain@, x) - 1;
        let rest = self.chain@.skip(1);
        let others = rest.remove(i);
        let nodes = self.nodes().remove(i);
        assert(self@[i] == self.chain@[i + 1].entry());
        lemma_index(self.arena.memory(), self.chain@, i + 1);
        lemma_links_lead(self.arena.memory(), self.chain@, 0, 1, level);
        assert(rest =~= others.insert(i, self.chain@[i + 1]));
        lemma_filter_insert(others, i, self.chain@[i + 1], linked_on(level));
        assert forall|k: int| 0 <= k < others.len() implies (#[trigger] others[k]).addr
            == nodes[k].0 && others[k].height == nodes[k].1.height by {
            let p = if k < i { k + 1 } else { k + 2 };
            assert(others[k] == self.chain@[p]);
            if self.chain@[p].addr == x {
                lemma_index(self.arena.memory(), self.chain@, p);
            }
        }
        lemma_addresses_alike(others, nodes, level);
    }

    /// A node that is not linked yet stands right behind the entries that precede
    /// its key.
    pub proof fn law_unlinked_rank(&self, x: usize, height: nat)
        requires
            self.unlinked(x, height),
        ensures
            self.position_of(x) matches Some(i) && 0 <= i < self@.len() && i == rank(
                &self.comparator(),
                self@,
                self@[i].key,
            ),
    {
        let p = index_of(self.chain@, x);
        assert(self@[p - 1] == self.chain@[p].entry());
        lemma_index(self.arena.memory(), self.chain@, p);
    }

    /// The link of a node that takes part in a level goes to the next one that does.
    pub proof fn lemma_link(&self, i: int, j: int, level: int)
        requires
            self.wf(),
            0 <= level < MAX_HEIGHT,
            -1 <= i < j <= self@.len(),
            i >= 0 ==> self@[i].height > level,
            j < self@.len() ==> self@[j].height > level,
            forall|k: int| i < k < j ==> (#[trigger] self@[k]).height <= level,
        ensures
            next_of(self.arena().memory(), self.node_at(i) as int, level) == self.node_at(j),
            self.node_at(self@.len() as int) == NULL,
            self.node_at(i) != NULL,
    {
        let chain = self.chain@;
        assert(i >= 0 ==> self@[i] == chain[i + 1].entry());
        assert(j < self@.len() ==> self@[j] == chain[j + 1].entry());
        assert forall|r: int| i + 1 < r < j + 1 implies (#[trigger] chain[r]).height <= level by {
            assert(self@[r - 1] == chain[r].entry());
        }
        lemma_succ_unique(chain, i + 1, level, j + 1);
        assert(link_ok(self.arena.memory(), chain, i + 1, level));
        lemma_index(self.arena.memory(), chain, i + 1);
    }

    /// At the lowest level the link of each node goes to the node of the next
    /// entry.
    pub proof fn law_lowest_links(&self, i: int)
        requires
            self.wf(),
            -1 <= i < self@.len(),
        ensures
            next_of(self.arena().memory(), self.node_at(i) as int, 0) == self.node_at(i + 1),
    {
        let chain = self.chain@;
        assert(link_ok(self.arena.memory(), chain, i + 1, 0));
        if i + 2 < chain.len() {
            assert(chain[i + 2].height >= 1);
        }
        lemma_succ_unique(chain, i + 1, 0, i + 2);
    }

    /// The node at `x` is an entry of the list.
    pub closed spec fn is_entry(&self, x: usize) -> bool {
        has_node(self.chain@, x) && 1 <= index_of(self.chain@, x) < self.chain@.len()
            && self.chain@[index_of(self.chain@, x)].addr == x
    }

    /// The node at `x`.
    spec fn node(&self, x: usize) -> Node {
        self.chain@[index_of(self.chain@, x)]
    }

    /// The bytes of a node from its record on.
    fn raw_key(&self, x: usize) -> (r: &[u8])
        requires
            self.searchable(),
            self.is_entry(x),
        ensures
            self.node(x).record.is_prefix_of(r@),
            has_prefixed_key(r@),
            prefixed_key(r@) == self.node(x).key,
    {
        proof {
            let n = self.node(x);
            assert(in_memory(self.arena.memory(), n));
            assert(holds_entry(n));
            lemma_record_len(n.key, n.value);
            assert(self.arena.memory().contains_key(x + LINK_SIZE));
        }
        let r: &[u8] = crate::node::key(&self.arena, x);
        proof {
            let n = self.node(x);
            let len = n.record.len();
            assert(holds_block(self.arena.memory(), x + LINK_SIZE, len));
            assert(n.record =~= r@.take(len as int));
            law_record_round_trip(n.key, n.value, r@);
        }
        r
    }

    /// Which side of `key` the node at `x` is on.
    fn side_of(&self, x: usize, key: &[u8]) -> (r: Side)
        requires
            self.searchable(),
            self.is_entry(x),
            self.comparator.valid_key(key@),
        ensures
            r is Before <==> self.comparator.precedes(self.node(x).key, key@),
            r is After <==> self.comparator.precedes(key@, self.node(x).key),
    {
        proof {
            self.lemma_valid(x);
        }
        match self.comparator.compare_key(self.raw_key(x), key) {
            Ordering::Less => Side::Before,
            Ordering::Equal => Side::Same,
            Ordering::Greater => Side::After,
        }
    }

    /// The order speaks of the key of every node.
    proof fn lemma_valid(&self, x: usize)
        requires
            self.searchable(),
            self.is_entry(x),
        ensures
            self.comparator.valid_key(self.node(x).key),
    {
        let p = index_of(self.chain@, x);
        assert(entries_of(self.chain@)[p - 1] == self.chain@[p].entry());
    }

    /// `left` precedes `right`.
    pub fn less_than(&self, left: &[u8], right: &[u8]) -> (r: bool)
        requires
            self.comparator().valid_key(left@),
            self.comparator().valid_key(right@),
        ensures
            r == self.comparator().precedes(left@, right@),
    {
        match self.comparator.compare(left, right) {
            Ordering::Less => true,
            _ => false,
        }
    }

    /// `x` is a node, and `key` comes after it.
    fn key_is_after_node(&self, key: &[u8], x: usize) -> (r: bool)
        requires
            self.searchable(),
            x != NULL ==> self.is_entry(x),
            self.comparator.valid_key(key@),
        ensures
            r <==> x != NULL && self.comparator.precedes(self.node(x).key, key@),
    {
        x != NULL && match self.side_of(x, key) {
            Side::Before => true,
            _ => false,
        }
    }

    /// `x` is a node, and the key behind the length at the front of `key` comes
    /// after it.
    #[allow(dead_code)]
    fn raw_key_is_after_node(&self, key: &[u8], x: usize) -> (r: bool)
        requires
            self.searchable(),
            x != NULL ==> self.is_entry(x),
            has_prefixed_key(key@),
            self.comparator.valid_key(prefixed_key(key@)),
        ensures
            r <==> x != NULL && self.comparator.precedes(self.node(x).key, prefixed_key(key@)),
    {
        if x == NULL {
            return false;
        }
        proof {
            self.lemma_valid(x);
        }
        match self.comparator.compare_raw_key(self.raw_key(x), key) {
            Ordering::Less => true,
            _ => false,
        }
    }
}

impl<C: Comparator, A: Arena> InlineSkipList<C, A> {
    /// Reads the link of the node at index `p` of the chain: it goes to the
    /// successor of the node at the level.
    fn next_at(&self, x: usize, level: usize, Ghost(p): Ghost<int>) -> (r: usize)
        requires
            self.searchable(),
            0 <= p < self.chain@.len(),
            self.chain@[p].addr == x,
            level < self.chain@[p].height,
        ensures
            r == addr_at(self.chain@, succ(self.chain@, p, level as int)),
            r != NULL ==> self.is_entry(r) && index_of(self.chain@, r) == succ(
                self.chain@,
                p,
                level as int,
            ),
            r == NULL <==> succ(self.chain@, p, level as int) == self.chain@.len(),
            p < succ(self.chain@, p, level as int) <= self.chain@.len(),
    {
        proof {
            assert(in_memory(self.arena.memory(), self.chain@[p]));
            lemma_link_in_memory(self.arena.memory(), self.chain@[p], level as int);
            assert(link_ok(self.arena.memory(), self.chain@, p, level as int));
            lemma_succ(self.chain@, p, level as int);
            let q = succ(self.chain@, p, level as int);
            if q < self.chain@.len() {
                lemma_index(self.arena.memory(), self.chain@, q);
            }
        }
        get_next(&self.arena, x, level)
    }

    /// The nodes around `key` at a level: the last one before it, sought from
    /// `before` on, and the next one, which is `after` or does not come before
    /// `key`.
    fn find_splice_for_level(&self, key: &[u8], before: usize, after: usize, level: usize) -> (r: (
        usize,
        usize,
    ))
        requires
            self.searchable(),
            self.comparator.valid_key(key@),
            self.is_before(before, key@, level as int),
            self.is_after(after, key@),
        ensures
            self.is_before(r.0, key@, level as int),
            self.is_after(r.1, key@),
            r.1 == next_of(self.arena.memory(), r.0 as int, level as int),
            r.1 == addr_at(
                self.chain@,
                succ(self.chain@, index_of(self.chain@, r.0), level as int),
            ),
    {
        let mut x: usize = before;
        let ghost mut p = index_of(self.chain@, x);
        proof {
            lemma_below(&self.comparator, self.chain@, key@);
        }
        loop
            invariant
                self.searchable(),
                self.comparator.valid_key(key@),
                self.is_before(x, key@, level as int),
                self.is_after(after, key@),
                p == index_of(self.chain@, x),
                forall|q: int|
                    0 <= q < self.chain@.len() ==> (#[trigger] below(
                        &self.comparator,
                        self.chain@,
                        q,
                        key@,
                    ) <==> q <= last_below(&self.comparator, self.chain@, key@)),
            decreases self.chain@.len() - p,
        {
            let next: usize = self.next_at(x, level, Ghost(p));
            proof {
                assert(link_ok(self.arena.memory(), self.chain@, p, level as int));
                lemma_succ(self.chain@, p, level as int);
                if next != NULL {
                    assert(below(&self.comparator, self.chain@, index_of(self.chain@, next), key@)
                        <==> self.comparator.precedes(self.node(next).key, key@));
                }
            }
            if next == after || !self.key_is_after_node(key, next) {
                return (x, next);
            }
            x = next;
            proof {
                p = index_of(self.chain@, x);
            }
        }
    }

    /// `x` is a node before `key` that takes part in `level`.
    spec fn is_before(&self, x: usize, key: Seq<u8>, level: int) -> bool {
        node_before(&self.comparator, self.chain@, x, key, level)
    }

    /// `x` is no node, or one that does not come before `key`.
    spec fn is_after(&self, x: usize, key: Seq<u8>) -> bool {
        node_after(&self.comparator, self.chain@, x, key)
    }

    /// The position of the node at `x` among the entries.
    pub closed spec fn position_of(&self, x: usize) -> Option<int> {
        if x == NULL {
            None
        } else {
            Some(index_of(self.chain@, x) - 1)
        }
    }

    /// The node that a search for the key behind the length at the front of
    /// `key` finds.
    pub fn find_greater_or_equal(&self, key: &[u8]) -> (r: usize)
        requires
            self.wf(),
            has_prefixed_key(key@),
            self@.len() > 0 ==> self.comparator().valid_key(prefixed_key(key@)),
        ensures
            r != NULL ==> self.is_entry(r),
            is_found(&self.comparator(), self@, prefixed_key(key@), self.position_of(r)),
            r == self.node_at(
                match self.position_of(r) {
                    Some(i) => i,
                    None => self@.len() as int,
                },
            ),
    {
        let key_decoded: &[u8] = decode_key(key);
        let ghost target = key_decoded@;
        let mut level: usize = self.max_height - 1;
        let mut x: usize = self.head;
        let mut last_bigger: usize = NULL;
        let ghost mut p: int = 0;
        proof {
            lemma_below(&self.comparator, self.chain@, target);
            assert forall|q: int| 1 <= q < self.chain@.len() implies (
            #[trigger] self.chain@[q]).height <= level + 1 by {}
        }
        loop
            invariant
                self.wf(),
                target == key_decoded@,
                target == prefixed_key(key@),
                self@.len() > 0 ==> self.comparator.valid_key(target),
                level < self.max_height,
                0 <= p <= last_below(&self.comparator, self.chain@, target),
                p < self.chain@.len(),
                self.chain@[p].addr == x,
                level < self.chain@[p].height,
                last_bigger != NULL ==> self.is_entry(last_bigger) && self.comparator.precedes(
                    target,
                    self.node(last_bigger).key,
                ),
                forall|q: int|
                    1 <= q < self.chain@.len() && equal_keys(
                        &self.comparator,
                        (#[trigger] self.chain@[q]).key,
                        target,
                    ) ==> self.chain@[q].height <= level + 1,
            decreases level, self.chain@.len() - p,
        {
            let next: usize = self.next_at(x, level, Ghost(p));
            let side: Side = if next == NULL || next == last_bigger {
                Side::After
            } else {
                self.side_of(next, key_decoded)
            };
            proof {
                if next != NULL {
                    self.lemma_valid(next);
                    if self.comparator.precedes(self.node(next).key, target) {
                        self.comparator.law_asymmetric(self.node(next).key, target);
                    }
                }
            }
            match side {
                Side::Same => {
                    proof {
                        self.lemma_found_same(target, p, level as int);
                    }
                    return next;
                },
                Side::Before => {
                    proof {
                        lemma_below(&self.comparator, self.chain@, target);
                        assert(below(
                            &self.comparator,
                            self.chain@,
                            index_of(self.chain@, next),
                            target,
                        ));
                        lemma_succ(self.chain@, p, level as int);
                        p = index_of(self.chain@, next);
                    }
                    x = next;
                },
                Side::After => {
                    proof {
                        self.lemma_none_same(target, p, level as int);
                    }
                    if level == 0 {
                        proof {
                            self.lemma_found_after(target, p);
                        }
                        return next;
                    }
                    last_bigger = next;
                    level = level - 1;
                },
            }
        }
    }

    /// The first node of a level that does not come before `target`, if equal
    /// to it, is what a search finds, provided no higher node is equal.
    proof fn lemma_found_same(&self, target: Seq<u8>, p: int, level: int)
        requires
            self.wf(),
            self@.len() > 0 ==> self.comparator.valid_key(target),
            0 <= level < MAX_HEIGHT,
            0 <= p <= last_below(&self.comparator, self.chain@, target),
            p < self.chain@.len(),
            succ(self.chain@, p, level) < self.chain@.len(),
            equal_keys(
                &self.comparator,
                self.chain@[succ(self.chain@, p, level)].key,
                target,
            ),
            forall|q: int|
                1 <= q < self.chain@.len() && equal_keys(
                    &self.comparator,
                    (#[trigger] self.chain@[q]).key,
                    target,
                ) ==> self.chain@[q].height <= level + 1,
        ensures
            is_found(
                &self.comparator,
                self@,
                target,
                Some(succ(self.chain@, p, level) - 1),
            ),
    {
        let chain = self.chain@;
        let c = &self.comparator;
        let q = succ(chain, p, level);
        lemma_succ(chain, p, level);
        lemma_below(c, chain, target);
        assert(self@[q - 1] == chain[q].entry());
        assert forall|j: int|
            0 <= j < self@.len() && j != q - 1 && equal_keys(
                c,
                (#[trigger] self@[j]).key,
                target,
            ) implies self@[j].height < self@[q - 1].height || (self@[j].height
            == self@[q - 1].height && q - 1 < j) by {
            assert(self@[j] == chain[j + 1].entry());
            assert(!below(c, chain, j + 1, target));
            if j + 1 < q {
                assert(chain[j + 1].height <= level);
            }
        }
    }

    /// If the first node of a level that does not come before `target` comes
    /// after it, no node of the level is equal to it.
    proof fn lemma_none_same(&self, target: Seq<u8>, p: int, level: int)
        requires
            self.wf(),
            self@.len() > 0 ==> self.comparator.valid_key(target),
            0 <= level < MAX_HEIGHT,
            0 <= p <= last_below(&self.comparator, self.chain@, target),
            p < self.chain@.len(),
            succ(self.chain@, p, level) < self.chain@.len() ==> self.comparator.precedes(
                target,
                self.chain@[succ(self.chain@, p, level)].key,
            ),
        ensures
            forall|q: int|
                1 <= q < self.chain@.len() && equal_keys(
                    &self.comparator,
                    (#[trigger] self.chain@[q]).key,
                    target,
                ) ==> self.chain@[q].height <= level,
    {
        let chain = self.chain@;
        let c = &self.comparator;
        let s = succ(chain, p, level);
        lemma_succ(chain, p, level);
        lemma_below(c, chain, target);
        assert forall|q: int|
            1 <= q < chain.len() && equal_keys(
                c,
                (#[trigger] chain[q]).key,
                target,
            ) implies chain[q].height <= level by {
            assert(!below(c, chain, q, target));
            if s <= q {
                assert(self@[q - 1] == chain[q].entry());
                assert(self@[s - 1] == chain[s].entry());
                c.law_cotransitive(target, chain[q].key, chain[s].key);
            }
        }
    }

    /// If no entry is equal to `target`, the successor at the lowest level of
    /// the last node before it is what a search finds.
    proof fn lemma_found_after(&self, target: Seq<u8>, p: int)
        requires
            self.wf(),
            self@.len() > 0 ==> self.comparator.valid_key(target),
            0 <= p <= last_below(&self.comparator, self.chain@, target),
            p < self.chain@.len(),
            succ(self.chain@, p, 0) < self.chain@.len() ==> self.comparator.precedes(
                target,
                self.chain@[succ(self.chain@, p, 0)].key,
            ),
            forall|q: int|
                1 <= q < self.chain@.len() && equal_keys(
                    &self.comparator,
                    (#[trigger] self.chain@[q]).key,
                    target,
                ) ==> self.chain@[q].height <= 0,
        ensures
            is_found(
                &self.comparator,
                self@,
                target,
                within(succ(self.chain@, p, 0) - 1, self@.len()),
            ),
    {
        let chain = self.chain@;
        let c = &self.comparator;
        let s = succ(chain, p, 0);
        lemma_succ(chain, p, 0);
        lemma_below(c, chain, target);
        assert(s == p + 1) by {
            if p + 1 < s {
                assert(chain[p + 1].height <= 0);
            }
        }
        if s < chain.len() {
            assert(self@[s - 1] == chain[s].entry());
            c.law_asymmetric(target, chain[s].key);
            assert(!below(c, chain, s, target));
        }
        assert forall|j: int| 0 <= j < self@.len() implies !equal_keys(
            c,
            (#[trigger] self@[j]).key,
            target,
        ) by {
            assert(self@[j] == chain[j + 1].entry());
        }
    }

    /// The last node before the key behind the length at the front of `key`.
    pub fn find_less_than(&self, key: &[u8]) -> (r: usize)
        requires
            self.wf(),
            has_prefixed_key(key@),
            self@.len() > 0 ==> self.comparator().valid_key(prefixed_key(key@)),
        ensures
            r == self.node_at(rank(&self.comparator(), self@, prefixed_key(key@)) - 1),
            r == self.node_at(-1) <==> rank(&self.comparator(), self@, prefixed_key(key@)) == 0,
            r != self.node_at(-1) ==> self.is_entry(r) && self.position_of(r) == Some(
                rank(&self.comparator(), self@, prefixed_key(key@)) - 1,
            ),
    {
        let key_decoded: &[u8] = decode_key(key);
        let ghost target = key_decoded@;
        let mut level: usize = self.max_height - 1;
        let mut x: usize = self.head;
        let mut last_not_after: usize = NULL;
        let ghost mut p: int = 0;
        proof {
            lemma_below(&self.comparator, self.chain@, target);
        }
        loop
            invariant
                self.wf(),
                target == key_decoded@,
                target == prefixed_key(key@),
                self@.len() > 0 ==> self.comparator.valid_key(target),
                level < self.max_height,
                0 <= p <= last_below(&self.comparator, self.chain@, target),
                p < self.chain@.len(),
                self.chain@[p].addr == x,
                level < self.chain@[p].height,
                self.is_after(last_not_after, target),
            decreases level, self.chain@.len() - p,
        {
            let next: usize = self.next_at(x, level, Ghost(p));
            proof {
                lemma_below(&self.comparator, self.chain@, target);
                lemma_succ(self.chain@, p, level as int);
                if next != NULL {
                    assert(below(&self.comparator, self.chain@, index_of(self.chain@, next), target)
                        <==> self.comparator.precedes(self.node(next).key, target));
                }
            }
            if next != last_not_after && self.key_is_after_node(key_decoded, next) {
                proof {
                    p = index_of(self.chain@, next);
                }
                x = next;
            } else {
                if level == 0 {
                    proof {
                        lemma_index(self.arena.memory(), self.chain@, p);
                        lemma_index(self.arena.memory(), self.chain@, 0);
                        if p + 1 < self.chain@.len() {
                            assert(succ(self.chain@, p, 0) == p + 1);
                        }
                    }
                    return x;
                }
                last_not_after = next;
                level = level - 1;
            }
        }
    }

    /// The last node of the list, the head if it has no other.
    fn find_last(&self) -> (r: usize)
        requires
            self.wf(),
        ensures
            has_node(self.chain@, r),
            index_of(self.chain@, r) == self@.len(),
            r == self.head <==> index_of(self.chain@, r) == 0,
            r != self.head ==> self.is_entry(r),
    {
        let mut x: usize = self.head;
        let mut level: usize = self.max_height - 1;
        let ghost mut p: int = 0;
        loop
            invariant
                self.wf(),
                level < self.max_height,
                0 <= p < self.chain@.len(),
                self.chain@[p].addr == x,
                level < self.chain@[p].height,
            decreases level, self.chain@.len() - p,
        {
            let next: usize = self.next_at(x, level, Ghost(p));
            proof {
                lemma_succ(self.chain@, p, level as int);
            }
            if next == NULL {
                if level == 0 {
                    proof {
                        lemma_index(self.arena.memory(), self.chain@, p);
                        lemma_index(self.arena.memory(), self.chain@, 0);
                        if p + 1 < self.chain@.len() {
                            assert(self.chain@[p + 1].height <= 0);
                        }
                    }
                    return x;
                }
                level = level - 1;
            } else {
                proof {
                    p = index_of(self.chain@, next);
                }
                x = next;
            }
        }
    }
}

impl<C: Comparator, A: Arena> InlineSkipList<C, A> {
    /// An empty list whose nodes will stand in `arena`.
    pub fn new(arena: A, comparator: C) -> (r: Self)
        requires
            node_size(MAX_HEIGHT as nat, 0) <= arena.room(),
        ensures
            r.wf(),
            r@ == Seq::<Entry>::empty(),
            r.comparator() == comparator,
            r.levels() == 1,
            r.arena().requests() == arena.requests().push(
                Request { thread: None, size: node_size(MAX_HEIGHT as nat, 0) },
            ),
            r.arena().used() == arena.used() + node_size(MAX_HEIGHT as nat, 0),
            r.arena().room() + node_size(MAX_HEIGHT as nat, 0) == arena.room(),
            r.arena().footprint() >= arena.footprint(),
    {
        let mut arena: A = arena;
        let head: usize = Self::allocate_key_value(&mut arena, 0, MAX_HEIGHT);
        let ghost node = Node {
            addr: head,
            tower: MAX_HEIGHT as nat,
            height: MAX_HEIGHT as nat,
            record: Seq::empty(),
            key: Seq::empty(),
            value: Seq::empty(),
        };
        let ghost requests = arena.requests();
        let ghost used = arena.used();
        let ghost room = arena.room();
        let ghost footprint = arena.footprint();
        proof {
            assert(block(arena.memory(), head + LINK_SIZE, 0) =~= Seq::<u8>::empty());
            assert(in_memory(arena.memory(), node));
        }
        let mut i: usize = 0;
        while i < MAX_HEIGHT
            invariant
                i <= MAX_HEIGHT,
                node.addr == head,
                node.tower == MAX_HEIGHT,
                node.height == MAX_HEIGHT,
                in_memory(arena.memory(), node),
                forall|l: int|
                    0 <= l < i ==> #[trigger] next_of(arena.memory(), head as int, l) == NULL,
                arena.requests() == requests,
                arena.used() == used,
                arena.room() == room,
                arena.footprint() == footprint,
            decreases MAX_HEIGHT - i,
        {
            proof {
                lemma_link_in_memory(arena.memory(), node, i as int);
                crate::chain::lemma_set_own_node(arena.memory(), node, i as int, NULL);
            }
            set_next(&mut arena, head, i, NULL);
            i = i + 1;
        }
        let chain: Ghost<Seq<Node>> = Ghost(Seq::<Node>::empty().push(node));
        let r = InlineSkipList { arena, head, max_height: 1, comparator, chain };
        proof {
            let chain = r.chain@;
            assert forall|p: int, level: int|
                0 <= p < chain.len() && 0 <= level < chain[p].height implies #[trigger] link_ok(
                r.arena.memory(),
                chain,
                p,
                level,
            ) by {
                lemma_succ(chain, p, level);
            }
            assert(r@ =~= Seq::<Entry>::empty());
        }
        r
    }

    /// Takes the memory of a node with `height` links and `key_size` bytes
    /// behind them, and returns the address of the node.
    fn allocate_key_value(arena: &mut A, key_size: usize, height: usize) -> (r: usize)
        requires
            1 <= height,
            node_size(height as nat, key_size as nat) <= old(arena).room(),
        ensures
            block_added(
                old(arena).memory(),
                final(arena).memory(),
                r - links_size(height - 1),
                node_size(height as nat, key_size as nat),
            ),
            final(arena).requests() == old(arena).requests().push(
                Request { thread: None, size: node_size(height as nat, key_size as nat) },
            ),
            final(arena).used() == old(arena).used() + node_size(height as nat, key_size as nat),
            final(arena).room() + node_size(height as nat, key_size as nat) == old(arena).room(),
            final(arena).footprint() >= old(arena).footprint(),
    {
        let prefix: usize = size_of_links(height - 1);
        let addr: usize = arena.allocate(prefix + LINK_SIZE + key_size);
        addr + prefix
    }

    /// The number of bytes that the list holds in all.
    pub fn mem_size(&self) -> (r: usize)
        ensures
            r == self.arena().footprint(),
            r >= self.arena().used(),
    {
        self.arena.mem_size()
    }

    /// A random height: one level, and one more for as long as a new random
    /// number each time raises it.
    pub fn random_height(&self) -> (r: usize)
        ensures
            1 <= r <= MAX_HEIGHT,
            is_drawn(r),
    {
        let mut log: Draws = Draws::new();
        let height: usize = draw_height(&mut log);
        proof {
            assert(log@.skip(0) =~= log@);
            lemma_drawn(&log, height);
        }
        height
    }

    /// The list is searchable, and the node at `x` is being linked in: it stands
    /// right behind the nodes before its key. Other nodes may be half linked too.
    pub closed spec fn pending(&self, x: usize) -> bool {
        let chain = self.chain@;
        &&& self.searchable()
        &&& self.is_entry(x)
        &&& 1 <= self.node(x).tower <= MAX_HEIGHT
        &&& self.node(x).height <= self.node(x).tower
        &&& index_of(chain, x) == last_below(&self.comparator, chain, self.node(x).key) + 1
    }

    /// Every node but the one at `x` is linked at all its levels.
    pub closed spec fn others_linked(&self, x: usize) -> bool {
        let chain = self.chain@;
        forall|p: int|
            1 <= p < chain.len() && (#[trigger] chain[p]).addr != x ==> 1 <= chain[p].height
                <= self.max_height && chain[p].height == chain[p].tower
    }

    /// The list is in order but for the node at `x`, which has `height` links: it
    /// stands where its key falls, and no link goes to it yet.
    pub closed spec fn unlinked(&self, x: usize, height: nat) -> bool {
        &&& self.pending(x)
        &&& self.others_linked(x)
        &&& self.node(x).height == 0
        &&& self.node(x).tower == height
    }

    /// The nodes of `before` are where they were, with one put in at index `r`.
    pub open spec fn keeps_nodes(&self, before: &Self, r: int) -> bool {
        forall|i: int|
            -1 <= i <= before@.len() ==> self.node_at(shifted(i, r)) == #[trigger] before.node_at(i)
    }

    /// Puts the record of a write into the arena, behind `height` links. The
    /// node takes its place in the list, but no link goes to it yet.
    pub fn encode_key_value(
        &mut self,
        thread_id: usize,
        height: usize,
        key: &[u8],
        value: &[u8],
        sequence: u64,
        kind: ValueType,
    ) -> (x: usize)
        requires
            old(self).searchable(),
            old(self).accepts(height as nat, key@, value@, sequence, kind),
        ensures
            final(self).pending(x),
            old(self).wf() ==> final(self).unlinked(x, height as nat),
            ({
                let entry = Entry {
                    key: internal_key(key@, sequence, kind.code()),
                    value: value@,
                    height: height as nat,
                };
                let r = rank(&old(self).comparator(), old(self)@, entry.key) as int;
                &&& final(self)@ == with_entry(&old(self).comparator(), old(self)@, entry)
                &&& final(self).position_of(x) == Some(r)
                &&& final(self).node_at(r) == x
                &&& final(self).keeps_nodes(old(self), r)
            }),
            final(self).comparator() == old(self).comparator(),
            final(self).levels() == old(self).levels(),
            block_added(
                old(self).arena().memory(),
                final(self).arena().memory(),
                x - links_size(height - 1),
                node_size(height as nat, record_len(key@.len(), value@.len())),
            ),
            final(self).grew(old(self), thread_id, height as nat, key@.len(), value@.len()),
    {
        let ghost before = *self;
        let ghost ikey = internal_key(key@, sequence, kind.code());
        let data: Vec<u8> = encode_record(key, value, sequence, kind);
        let prefix: usize = size_of_links(height - 1);
        let addr: usize = self.arena.allocate_in_thread(
            thread_id,
            prefix + LINK_SIZE + data.len(),
        );
        let ghost allocated = self.arena.memory();
        let x: usize = addr + prefix;
        proof {
            assert(holds_block(allocated, x + LINK_SIZE, data@.len()));
        }
        self.arena.write(x + LINK_SIZE, data.as_slice());
        proof {
            let n = Node {
                addr: x,
                tower: height as nat,
                height: 0,
                record: data@,
                key: ikey,
                value: value@,
            };
            crate::common::law_internal_key_parts(key@, sequence, kind.code());
            let at = last_below(&self.comparator, before.chain@, ikey) + 1;
            lemma_below(&self.comparator, before.chain@, ikey);
            lemma_new_node(before.arena.memory(), allocated, self.arena.memory(), before.chain@, n);
            lemma_insert_unlinked(self.arena.memory(), before.chain@, at, n);
            self.chain@ = with_node(&self.comparator, before.chain@, n);
            self.lemma_node_added(&before, n);
            assert forall|a: int| #[trigger] before.arena.memory().contains_key(
                a,
            ) implies self.arena.memory()[a] == before.arena.memory()[a] by {
                assert(allocated.contains_key(a));
            }
        }
        x
    }

    /// Putting a node that is not linked yet where its key falls keeps the list
    /// searchable and all other nodes as they are.
    proof fn lemma_node_added(&self, before: &Self, n: Node)
        requires
            before.searchable(),
            self.comparator.valid_key(n.key),
            1 <= n.tower <= MAX_HEIGHT,
            n.height == 0,
            holds_entry(n),
            laid_out(self.arena.memory(), self.chain@),
            linked(self.arena.memory(), self.chain@),
            self.chain@ == with_node(&before.comparator, before.chain@, n),
            self.comparator == before.comparator,
            self.head == before.head,
            self.max_height == before.max_height,
        ensures
            self.pending(n.addr),
            self.node(n.addr) == n,
            before.wf() ==> self.unlinked(n.addr, n.tower),
            self@ == with_entry(&before.comparator, before@, n.entry()),
            self.position_of(n.addr) == Some(rank(&before.comparator, before@, n.key) as int),
            self.node_at(rank(&before.comparator, before@, n.key) as int) == n.addr,
            self.keeps_nodes(before, rank(&before.comparator, before@, n.key) as int),
    {
        let chain = self.chain@;
        let r = rank(&before.comparator, before@, n.key) as int;
        let at = r + 1;
        lemma_below(&self.comparator, before.chain@, n.key);
        crate::order::law_with_entry_sorted(&self.comparator, before@, n.entry());
        lemma_with_node_entries(&self.comparator, before.chain@, n);
        assert forall|p: int| 0 <= p < before.chain@.len() implies chain[shifted(p, at)]
            == #[trigger] before.chain@[p] by {}
        assert forall|p: int| 0 <= p < chain.len() && p != at implies #[trigger] chain[p]
            == before.chain@[if p < at {
            p
        } else {
            p - 1
        }] by {}
        assert(chain[at] == n);
        lemma_index(self.arena.memory(), chain, at);
        assert forall|i: int| -1 <= i <= before@.len() implies self.node_at(shifted(i, r))
            == #[trigger] before.node_at(i) by {
            if i < before@.len() {
                assert(chain[shifted(i + 1, at)] == before.chain@[i + 1]);
            }
        }
    }

    /// The list has room for a write, and its order speaks of the key.
    pub open spec fn accepts(
        &self,
        height: nat,
        key: Seq<u8>,
        value: Seq<u8>,
        sequence: u64,
        kind: ValueType,
    ) -> bool {
        &&& 1 <= height <= MAX_HEIGHT
        &&& key.len() + TRAILER_LEN <= u32::MAX
        &&& value.len() <= u32::MAX
        &&& node_size(height, record_len(key.len(), value.len())) <= self.arena().room()
        &&& self.comparator().valid_key(internal_key(key, sequence, kind.code()))
    }

    /// Since `before` the arena was asked for one block, for the given thread: a
    /// node of the given height and record.
    pub open spec fn grew(
        &self,
        before: &Self,
        thread_id: usize,
        height: nat,
        key_len: nat,
        value_len: nat,
    ) -> bool {
        let size = node_size(height, record_len(key_len, value_len));
        &&& self.arena().requests() == before.arena().requests().push(
            Request { thread: Some(thread_id), size },
        )
        &&& self.arena().used() == before.arena().used() + size
        &&& self.arena().room() + size == before.arena().room()
        &&& self.arena().footprint() >= before.arena().footprint()
    }
}

impl<C: Comparator, A: Arena> InlineSkipList<C, A> {
    /// Links the node at `x`, whose key is `key`, at the next level between the
    /// nodes that the splice gives there. Where the link between those two has
    /// changed since, looks again from the first of them on.
    fn link_level(&mut self, splice: &mut Splice, x: usize, key: &[u8], level: usize)
        requires
            old(self).pending(x),
            old(self).node(x).key == key@,
            old(self).node(x).height == level,
            level < old(self).node(x).tower,
            old(self).is_before(old(splice).prev[level as int], key@, level as int),
            old(self).is_after(old(splice).next[level as int], key@),
            old(splice).next[level as int] != x,
        ensures
            final(self).pending(x),
            final(self).chain@ == raised(old(self).chain@, index_of(old(self).chain@, x)),
            final(self).node(x).height == level + 1,
            final(self).node(x) == old(self).node(x).linked_at((level + 1) as nat),
            final(self).same_but_links(old(self)),
            final(splice).height == old(splice).height,
            final(splice).prev@ == old(splice).prev@.update(
                level as int,
                final(splice).prev[level as int],
            ),
            final(splice).next@ == old(splice).next@.update(
                level as int,
                final(splice).next[level as int],
            ),
            final(self).offers(*final(splice), key@, level as int, x),
            final(self).surrounds(*final(splice), level as int, x),
    {
        let ghost before = *self;
        let ghost chain = self.chain@;
        let ghost ix = index_of(chain, x);
        proof {
            self.lemma_valid(x);
        }
        loop
            invariant
                self.chain@ == chain,
                before == *old(self),
                chain == before.chain@,
                self.comparator.valid_key(key@),
                ix == index_of(chain, x),
                self.pending(x),
                self.same_but_links(&before),
                self.node(x).key == key@,
                self.node(x).height == level,
                level < self.node(x).tower,
                self.is_before(splice.prev[level as int], key@, level as int),
                self.is_after(splice.next[level as int], key@),
                splice.next[level as int] != x,
                splice.height == old(splice).height,
                splice.prev@ == old(splice).prev@.update(level as int, splice.prev[level as int]),
                splice.next@ == old(splice).next@.update(level as int, splice.next[level as int]),
            decreases
                (if next_of(
                    self.arena.memory(),
                    splice.prev[level as int] as int,
                    level as int,
                ) == splice.next[level as int] {
                    0nat
                } else {
                    1
                }),
        {
            let prev: usize = splice.prev[level];
            let next: usize = splice.next[level];
            let ghost p = index_of(chain, prev);
            let ghost memory = self.arena.memory();
            let ghost earlier = *self;
            proof {
                assert(in_memory(memory, chain[ix]) && in_memory(memory, chain[p]));
                lemma_link_in_memory(memory, chain[ix], level as int);
                lemma_set_in_chain(memory, chain, ix, level as int, next);
                lemma_link_in_memory(memory, chain[p], level as int);
                assert(link_ok(memory, chain, p, level as int));
            }
            set_next(&mut self.arena, x, level, next);
            proof {
                let half = self.arena.memory();
                assert forall|r: int, l: int|
                    0 <= r < chain.len() && 0 <= l < chain[r].height implies #[trigger] link_ok(
                    half,
                    chain,
                    r,
                    l,
                ) by {
                    assert(link_ok(memory, chain, r, l));
                    assert(in_memory(memory, chain[r]));
                }
                assert(in_memory(half, chain[p]));
                lemma_link_in_memory(half, chain[p], level as int);
                assert(link_ok(half, chain, p, level as int));
            }
            if cas_next(&mut self.arena, prev, level, next, x) {
                proof {
                    self.chain@ = raised(chain, ix);
                    self.lemma_level_linked(&earlier, prev, next, x);
                    law_splice_survives_link(
                        &self.comparator,
                        self.arena.memory(),
                        chain,
                        ix,
                        prev,
                        next,
                        key@,
                        level as int,
                    );
                }
                return;
            }
            let (found_prev, found_next) = self.find_splice_for_level(key, prev, NULL, level);
            proof {
                let fp = index_of(chain, found_prev);
                let q = succ(chain, fp, level as int);
                lemma_succ(chain, fp, level as int);
                if q < chain.len() {
                    lemma_index(self.arena.memory(), chain, q);
                }
            }
            splice.prev[level] = found_prev;
            splice.next[level] = found_next;
        }
    }

    /// Linking the node at `x` at its next level between `prev` and `next`, which
    /// are linked there, keeps the list in order.
    #[verifier::spinoff_prover]
    proof fn lemma_level_linked(&self, earlier: &Self, prev: usize, next: usize, x: usize)
        requires
            earlier.pending(x),
            earlier.node(x).height < earlier.node(x).tower,
            earlier.is_before(prev, earlier.node(x).key, earlier.node(x).height as int),
            earlier.is_after(next, earlier.node(x).key),
            next != x,
            next == next_of(
                earlier.arena.memory(),
                prev as int,
                earlier.node(x).height as int,
            ),
            self.arena.memory() == with_next(
                with_next(
                    earlier.arena.memory(),
                    x as int,
                    earlier.node(x).height as int,
                    next,
                ),
                prev as int,
                earlier.node(x).height as int,
                x,
            ),
            self.chain@ == raised(earlier.chain@, index_of(earlier.chain@, x)),
            self.comparator == earlier.comparator,
            self.head == earlier.head,
            self.max_height == earlier.max_height,
        ensures
            self.pending(x),
            index_of(self.chain@, x) == index_of(earlier.chain@, x),
            self.node(x) == earlier.node(x).linked_at((earlier.node(x).height + 1) as nat),
            entries_of(self.chain@) == entries_of(earlier.chain@),
            forall|splice: Splice|
                splice.prev[earlier.node(x).height as int] == prev
                    && splice.next[earlier.node(x).height as int] == next
                    ==> #[trigger] self.surrounds(splice, earlier.node(x).height as int, x),
    {
        let chain = earlier.chain@;
        let memory = earlier.arena.memory();
        let level = earlier.node(x).height as int;
        let ix = index_of(chain, x);
        let p = index_of(chain, prev);
        let q = succ(chain, p, level);
        assert(ix < q && next == addr_at(chain, q)) by {
            lemma_succ(chain, p, level);
            assert(link_ok(memory, chain, p, level));
            if q < chain.len() {
                lemma_index(memory, chain, q);
            }
        }
        assert(succ(self.chain@, p, level) == ix && succ(self.chain@, ix, level) == q) by {
            lemma_succ(chain, p, level);
            lemma_succ_raised(chain, ix, p, level);
            lemma_succ_raised(chain, ix, ix, level);
            lemma_succ(chain, ix, level);
            lemma_succ_unique(chain, p, level, succ(chain, ix, level));
        }
        lemma_link_level(memory, chain, p, ix);
        lemma_raised_entries(chain, ix);
        lemma_index(self.arena.memory(), self.chain@, ix);
        lemma_index(self.arena.memory(), self.chain@, p);
        assert forall|r: int| 1 <= r < chain.len() implies holds_entry(
            #[trigger] self.chain@[r],
        ) by {
            assert(holds_entry(chain[r]));
        }
    }

    /// The list has the entries, the order and the head of `before`, and its
    /// arena has handed out nothing since.
    spec fn same_but_links(&self, before: &Self) -> bool {
        &&& entries_of(self.chain@) == entries_of(before.chain@)
        &&& self.comparator == before.comparator
        &&& self.head == before.head
        &&& self.max_height == before.max_height
        &&& self.arena.requests() == before.arena.requests()
        &&& self.arena.used() == before.arena.used()
        &&& self.arena.room() == before.arena.room()
        &&& self.arena.footprint() == before.arena.footprint()
    }

    /// At `level` the node at `x` is linked between the nodes that the splice
    /// gives.
    spec fn surrounds(&self, splice: Splice, level: int, x: usize) -> bool {
        let p = index_of(self.chain@, splice.prev[level]);
        &&& has_node(self.chain@, splice.prev[level])
        &&& addr_at(self.chain@, succ(self.chain@, p, level)) == x
        &&& addr_at(
            self.chain@,
            succ(self.chain@, index_of(self.chain@, x), level),
        ) == splice.next[level]
    }
}

impl<C: Comparator, A: Arena> InlineSkipList<C, A> {
    /// Looks for the nodes around `key`, that of the node at `x`, from the highest
    /// level in use down, and keeps them in the splice.
    fn fill_splice(&self, splice: &mut Splice, x: usize, key: &[u8])
        requires
            self.pending(x),
            self.node(x).height == 0,
            self.node(x).key == key@,
        ensures
            final(splice).height == old(splice).height,
            self.spliced_up_to(*final(splice), 0, x),
            forall|l: int|
                0 <= l < self.max_height ==> #[trigger] self.bridges(*final(splice), l),
            self.caps(final(splice), old(splice)),
    {
        proof {
            self.lemma_valid(x);
            lemma_index(self.arena.memory(), self.chain@, 0);
        }
        let max_height: usize = self.max_height;
        splice.next[max_height] = NULL;
        splice.prev[max_height] = self.head;
        let mut i: usize = 0;
        while i < max_height
            invariant
                i <= max_height,
                max_height == self.max_height,
                self.pending(x),
                self.node(x).height == 0,
                self.comparator.valid_key(key@),
                splice.height == old(splice).height,
                self.is_before(splice.prev[max_height - i], key@, max_height - i - 1),
                self.is_after(splice.next[max_height - i], key@),
                forall|l: int|
                    max_height - i <= l < max_height ==> #[trigger] self.offers(*splice, key@, l, x),
                forall|l: int|
                    max_height - i <= l < max_height ==> #[trigger] self.bridges(*splice, l),
                self.caps(splice, old(splice)),
            decreases max_height - i,
        {
            let level: usize = max_height - i - 1;
            let (prev, next) = self.find_splice_for_level(
                key,
                splice.prev[level + 1],
                splice.next[level + 1],
                level,
            );
            proof {
                let p = index_of(self.chain@, prev);
                lemma_succ(self.chain@, p, level as int);
                let q = succ(self.chain@, p, level as int);
                if q < self.chain@.len() {
                    lemma_index(self.arena.memory(), self.chain@, q);
                }
            }
            let ghost earlier = *splice;
            splice.prev[level] = prev;
            splice.next[level] = next;
            proof {
                assert forall|l: int| level <= l < max_height implies #[trigger] self.offers(
                    *splice,
                    key@,
                    l,
                    x,
                ) by {
                    if l > level {
                        assert(self.offers(earlier, key@, l, x));
                    }
                }
                assert forall|l: int| level <= l < max_height implies #[trigger] self.bridges(
                    *splice,
                    l,
                ) by {
                    if l > level {
                        assert(self.bridges(earlier, l));
                    }
                }
            }
            i = i + 1;
        }
    }

    /// Links the node at `x` at all the levels of its tower, as many as the splice
    /// says. What nodes the splice gives does not matter.
    pub fn insert(&mut self, splice: &mut Splice, x: usize)
        requires
            old(self).unlinked(x, old(splice).height() as nat),
        ensures
            final(self).wf(),
            final(self)@ == old(self)@,
            forall|i: int|
                -1 <= i <= old(self)@.len() ==> #[trigger] final(self).node_at(i) == old(
                    self,
                ).node_at(i),
            final(self).comparator() == old(self).comparator(),
            final(self).levels() == (if old(splice).height() > old(self).levels() {
                old(splice).height()
            } else {
                old(self).levels()
            }),
            1 <= final(self).levels() <= MAX_HEIGHT,
            final(self).arena().requests() == old(self).arena().requests(),
            final(self).arena().used() == old(self).arena().used(),
            final(self).arena().room() == old(self).arena().room(),
            final(self).arena().footprint() == old(self).arena().footprint(),
            final(splice).height() == old(splice).height(),
            final(self).spliced(final(splice), old(self).position_of(x)->0),
            final(self).caps(final(splice), old(splice)),
    {
        if splice.height > self.max_height {
            self.max_height = splice.height;
        }
        let max_height: usize = self.max_height;
        let key: Vec<u8> = vstd::slice::slice_to_vec(decode_key(self.raw_key(x)));
        let height: usize = splice.height;
        let ghost ix = index_of(self.chain@, x);
        proof {
            self.lemma_valid(x);
        }
        self.fill_splice(splice, x, key.as_slice());
        let ghost found = *self;
        let mut level: usize = 0;
        proof {
            assert(self.chain@ =~= found.chain@.update(ix, found.node(x).linked_at(0)));
        }
        while level < height
            invariant
                level <= height,
                height <= max_height,
                max_height == self.max_height,
                self.same_but_links(&found),
                ix == index_of(found.chain@, x),
                0 <= ix < found.chain@.len(),
                self.chain@ == found.chain@.update(ix, found.node(x).linked_at(level as nat)),
                self.pending(x),
                self.others_linked(x),
                self.node(x).height == level,
                self.node(x).tower == height,
                self.node(x).key == key@,
                index_of(self.chain@, x) == ix,
                splice.height == height,
                self.spliced_up_to(*splice, level as int, x),
                self.caps(splice, old(splice)),
            decreases height - level,
        {
            let ghost earlier = *self;
            let ghost earlier_splice = *splice;
            assert(self.offers(*splice, key@, level as int, x));
            self.link_level(splice, x, key.as_slice(), level);
            proof {
                lemma_index(self.arena.memory(), self.chain@, ix);
                assert(self.others_linked(x)) by {
                    assert forall|p: int|
                        1 <= p < self.chain@.len() && (#[trigger] self.chain@[p]).addr != x implies 1
                        <= self.chain@[p].height <= self.max_height && self.chain@[p].height
                        == self.chain@[p].tower by {
                        assert(self.chain@[p] == earlier.chain@[p]);
                    }
                }
                assert(self.chain@ =~= found.chain@.update(
                    ix,
                    found.node(x).linked_at((level + 1) as nat),
                ));
                self.lemma_spliced_up_to(&earlier, earlier_splice, *splice, x);
            }
            level = level + 1;
        }
        proof {
            assert forall|p: int| 1 <= p < self.chain@.len() implies 1 <= (
            #[trigger] self.chain@[p]).height <= self.max_height && self.chain@[p].height
                == self.chain@[p].tower by {
                if self.chain@[p].addr == x {
                    lemma_index(self.arena.memory(), self.chain@, p);
                }
            }
            assert forall|i: int| -1 <= i <= old(self)@.len() implies #[trigger] self.node_at(i)
                == old(self).node_at(i) by {
                if i < old(self)@.len() {
                    assert(self.chain@[i + 1].addr == old(self).chain@[i + 1].addr);
                }
            }
        }
    }

    /// At `level` the splice gives a node before `key` and one after it that is
    /// not `x`.
    spec fn offers(&self, splice: Splice, key: Seq<u8>, level: int, x: usize) -> bool {
        &&& self.is_before(splice.prev[level], key, level)
        &&& self.is_after(splice.next[level], key)
        &&& splice.next[level] != x
    }

    /// The node at `x` is linked below `level` where the splice says, and can be
    /// linked where it says at the other levels of its tower.
    spec fn spliced_up_to(&self, splice: Splice, level: int, x: usize) -> bool {
        &&& forall|l: int|
            0 <= l < self.max_height ==> #[trigger] self.offers(splice, self.node(x).key, l, x)
        &&& forall|l: int| 0 <= l < level ==> #[trigger] self.surrounds(splice, l, x)
        &&& forall|l: int|
            splice.height <= l < self.max_height ==> #[trigger] self.bridges(splice, l)
    }

    /// What a splice says of all other levels stays true when the node at `x` is
    /// linked at one.
    proof fn lemma_spliced_up_to(
        &self,
        earlier: &Self,
        earlier_splice: Splice,
        splice: Splice,
        x: usize,
    )
        requires
            earlier.pending(x),
            self.pending(x),
            self.max_height == earlier.max_height,
            self.comparator == earlier.comparator,
            self.chain@ == raised(earlier.chain@, index_of(earlier.chain@, x)),
            self.node(x).key == earlier.node(x).key,
            earlier.node(x).height < splice.height <= self.max_height <= MAX_HEIGHT,
            splice.height == earlier_splice.height,
            forall|l: int|
                0 <= l <= MAX_HEIGHT && l != earlier.node(x).height ==> #[trigger] splice.prev[l]
                    == earlier_splice.prev[l],
            forall|l: int|
                0 <= l <= MAX_HEIGHT && l != earlier.node(x).height ==> #[trigger] splice.next[l]
                    == earlier_splice.next[l],
            earlier.spliced_up_to(earlier_splice, earlier.node(x).height as int, x),
            self.offers(splice, self.node(x).key, earlier.node(x).height as int, x),
            self.surrounds(splice, earlier.node(x).height as int, x),
        ensures
            self.spliced_up_to(splice, (earlier.node(x).height + 1) as int, x),
    {
        let ix = index_of(earlier.chain@, x);
        let level = earlier.node(x).height as int;
        let key = self.node(x).key;
        assert forall|l: int| 0 <= l < self.max_height && l != level implies #[trigger] self.offers(
            splice,
            key,
            l,
            x,
        ) by {
            assert(earlier.offers(earlier_splice, key, l, x));
            law_splice_survives_link(
                &self.comparator,
                self.arena.memory(),
                earlier.chain@,
                ix,
                splice.prev[l],
                splice.next[l],
                key,
                l,
            );
        }
        assert forall|l: int| splice.height <= l < self.max_height implies #[trigger] self.bridges(
            splice,
            l,
        ) by {
            assert(earlier.bridges(earlier_splice, l));
            assert(earlier.offers(earlier_splice, key, l, x));
            assert(earlier.bridges(splice, l));
            self.lemma_bridges_kept(earlier, splice, l, x);
        }
        assert forall|l: int| 0 <= l < level implies #[trigger] self.surrounds(splice, l, x) by {
            assert(earlier.surrounds(earlier_splice, l, x));
            assert(earlier.surrounds(splice, l, x));
            self.lemma_surrounds_kept(earlier, splice, l, x);
        }
    }

    /// At `level` the second node of the splice follows the first.
    spec fn bridges(&self, splice: Splice, level: int) -> bool {
        let p = index_of(self.chain@, splice.prev[level]);
        addr_at(self.chain@, succ(self.chain@, p, level)) == splice.next[level]
    }

    /// What follows a node at a level does not change when some node is linked
    /// below.
    proof fn lemma_bridges_kept(&self, earlier: &Self, splice: Splice, level: int, x: usize)
        requires
            earlier.pending(x),
            laid_out(self.arena.memory(), self.chain@),
            self.chain@ == raised(earlier.chain@, index_of(earlier.chain@, x)),
            earlier.node(x).height < level,
            earlier.bridges(splice, level),
            has_node(earlier.chain@, splice.prev[level]),
        ensures
            self.bridges(splice, level),
    {
        let ix = index_of(earlier.chain@, x);
        let p = index_of(earlier.chain@, splice.prev[level]);
        assert(0 <= p < earlier.chain@.len() && earlier.chain@[p].addr == splice.prev[level]);
        assert(self.chain@[p].addr == earlier.chain@[p].addr);
        lemma_index(self.arena.memory(), self.chain@, p);
        lemma_succ_raised(earlier.chain@, ix, p, level);
        let s = succ(earlier.chain@, p, level);
        assert(addr_at(self.chain@, s) == addr_at(earlier.chain@, s));
    }

    /// The neighbours of a node at a level do not change when it is linked above.
    proof fn lemma_surrounds_kept(&self, earlier: &Self, splice: Splice, level: int, x: usize)
        requires
            earlier.pending(x),
            laid_out(self.arena.memory(), self.chain@),
            self.chain@ == raised(earlier.chain@, index_of(earlier.chain@, x)),
            0 <= level < earlier.node(x).height,
            earlier.surrounds(splice, level, x),
        ensures
            self.surrounds(splice, level, x),
    {
        let ix = index_of(earlier.chain@, x);
        let p = index_of(earlier.chain@, splice.prev[level]);
        assert(0 <= p < earlier.chain@.len() && earlier.chain@[p].addr == splice.prev[level]);
        assert(self.chain@[p].addr == earlier.chain@[p].addr);
        lemma_index(self.arena.memory(), self.chain@, p);
        lemma_index(self.arena.memory(), self.chain@, ix);
        lemma_succ_raised(earlier.chain@, ix, p, level);
        lemma_succ_raised(earlier.chain@, ix, ix, level);
        let s = succ(earlier.chain@, p, level);
        let t = succ(earlier.chain@, ix, level);
        assert(addr_at(self.chain@, s) == addr_at(earlier.chain@, s));
        assert(addr_at(self.chain@, t) == addr_at(earlier.chain@, t));
    }

    /// At each level in use, the splice gives a node before the entry at index
    /// `i` and a node, or none, that is not before it. At the levels of the
    /// entry, the entry is linked between the two; above them, the second
    /// follows the first.
    pub closed spec fn spliced(&self, splice: &Splice, i: int) -> bool {
        self.spliced_up_to(*splice, splice.height as int, self.chain@[i + 1].addr)
    }

    /// What `spliced` says of the links: at the levels of the entry, that of the
    /// first node of the splice goes to the entry and that of the entry to the
    /// second node; above them, that of the first goes to the second. The first
    /// stands before the entry. The second, if there is one, stands behind it,
    /// provided that the entry is the first of those whose keys equal its own.
    pub proof fn law_spliced(&self, splice: &Splice, i: int)
        requires
            self.wf(),
            0 <= i < self@.len(),
            self.spliced(splice, i),
            splice.height() == self@[i].height,
        ensures
            forall|level: int|
                0 <= level < self@[i].height ==> next_of(
                    self.arena().memory(),
                    #[trigger] splice.prev()[level] as int,
                    level,
                ) == self.node_at(i) && next_of(
                    self.arena().memory(),
                    self.node_at(i) as int,
                    level,
                ) == splice.next()[level],
            forall|level: int|
                self@[i].height <= level < self.levels() ==> next_of(
                    self.arena().memory(),
                    #[trigger] splice.prev()[level] as int,
                    level,
                ) == splice.next()[level],
            forall|level: int|
                0 <= level < self.levels() ==> self.has_node_within(
                    #[trigger] splice.prev()[level],
                    -1,
                    i - 1,
                ),
            forall|level: int|
                0 <= level < self.levels() && i == rank(
                    &self.comparator(),
                    self@,
                    self@[i].key,
                ) ==> self.has_node_within(
                    #[trigger] splice.next()[level],
                    i + 1,
                    self@.len() as int,
                ),
    {
        let chain = self.chain@;
        let memory = self.arena.memory();
        let x = chain[i + 1].addr;
        let key = chain[i + 1].key;
        assert(self@[i] == chain[i + 1].entry());
        lemma_index(memory, chain, i + 1);
        lemma_below(&self.comparator, chain, key);
        crate::order::lemma_irreflexive(&self.comparator, key);
        assert(!below(&self.comparator, chain, i + 1, key));
        assert forall|level: int| 0 <= level < self.levels() implies self.offers(
            *splice,
            key,
            level,
            x,
        ) && link_ok(memory, chain, index_of(chain, #[trigger] splice.prev()[level]), level) by {
            assert(self.offers(*splice, self.node(x).key, level, x));
        }
        assert forall|level: int| 0 <= level < self@[i].height implies next_of(
            memory,
            #[trigger] splice.prev()[level] as int,
            level,
        ) == self.node_at(i) && next_of(memory, self.node_at(i) as int, level)
            == splice.next()[level] by {
            assert(self.surrounds(*splice, level, x));
            assert(link_ok(memory, chain, i + 1, level));
        }
        assert forall|level: int| self@[i].height <= level < self.levels() implies next_of(
            memory,
            #[trigger] splice.prev()[level] as int,
            level,
        ) == splice.next()[level] by {
            assert(self.bridges(*splice, level));
        }
        assert forall|level: int| 0 <= level < self.levels() implies self.has_node_within(
            #[trigger] splice.prev()[level],
            -1,
            i - 1,
        ) by {
            let p = index_of(chain, splice.prev()[level]);
            assert(self.node_at(p - 1) == splice.prev()[level]);
        }
        assert forall|level: int|
            0 <= level < self.levels() && i == rank(
                &self.comparator(),
                self@,
                self@[i].key,
            ) implies self.has_node_within(
            #[trigger] splice.next()[level],
            i + 1,
            self@.len() as int,
        ) by {
            assert(self.offers(*splice, self.node(x).key, level, x));
            if splice.next()[level] == NULL {
                assert(self.node_at(self@.len() as int) == NULL);
            } else {
                let p = index_of(chain, splice.next()[level]);
                assert(self.node_at(p - 1) == splice.next()[level]);
            }
        }
    }

    /// Right above the levels in use the splice gives the head and no node;
    /// further up it gives what it gave before.
    pub open spec fn caps(&self, splice: &Splice, before: &Splice) -> bool {
        let top = self.levels() as int;
        &&& splice.prev()[top] == self.node_at(-1)
        &&& splice.next()[top] == NULL
        &&& forall|level: int|
            top < level < MAX_POSSIBLE_HEIGHT ==> #[trigger] splice.prev()[level]
                == before.prev()[level]
        &&& forall|level: int|
            top < level < MAX_POSSIBLE_HEIGHT ==> #[trigger] splice.next()[level]
                == before.next()[level]
    }

    /// Puts a write in, linked at `height` levels.
    pub fn insert_at_height(
        &mut self,
        ctx: &mut MemTableContext,
        height: usize,
        key: &[u8],
        value: &[u8],
        sequence: u64,
        kind: ValueType,
    )
        requires
            old(self).wf(),
            old(self).accepts(height as nat, key@, value@, sequence, kind),
        ensures
            final(self).wf(),
            final(self).wrote(
                old(self),
                Entry {
                    key: internal_key(key@, sequence, kind.code()),
                    value: value@,
                    height: height as nat,
                },
            ),
            final(self).grew(
                old(self),
                old(ctx).thread_id,
                height as nat,
                key@.len(),
                value@.len(),
            ),
            final(ctx).thread_id == old(ctx).thread_id,
            final(ctx).draws@ == old(ctx).draws@,
            final(ctx).splice.height() == height,
            final(self).spliced(
                &final(ctx).splice,
                rank(
                    &old(self).comparator(),
                    old(self)@,
                    internal_key(key@, sequence, kind.code()),
                ) as int,
            ),
            final(self).caps(&final(ctx).splice, &old(ctx).splice),
    {
        let x: usize = self.encode_key_value(
            ctx.get_thread_id(),
            height,
            key,
            value,
            sequence,
            kind,
        );
        ctx.splice.height = height;
        self.insert(&mut ctx.splice, x);
        proof {
            let ikey = internal_key(key@, sequence, kind.code());
            let r = rank(&old(self).comparator, old(self)@, ikey) as int;
            lemma_below(&old(self).comparator, old(self).chain@, ikey);
            assert forall|i: int| -1 <= i <= old(self)@.len() implies self.node_at(shifted(i, r))
                == #[trigger] old(self).node_at(i) by {}
        }
    }

    /// The list is `before` with `entry` put in. All other nodes stay where they
    /// are.
    pub open spec fn wrote(&self, before: &Self, entry: Entry) -> bool {
        let r = rank(&before.comparator(), before@, entry.key) as int;
        &&& self.keeps_nodes(before, r)
        &&& self@ == with_entry(&before.comparator(), before@, entry)
        &&& self.comparator() == before.comparator()
        &&& self.levels() == (if entry.height > before.levels() {
            entry.height as usize
        } else {
            before.levels()
        })
    }

    /// Puts a value for a user key in.
    pub fn add(&mut self, ctx: &mut MemTableContext, key: &[u8], value: &[u8], sequence: u64)
        requires
            old(self).wf(),
            old(self).accepts(MAX_HEIGHT as nat, key@, value@, sequence, ValueType::TypeValue),
        ensures
            final(self).wf(),
            1 <= final(ctx).splice.height() <= MAX_HEIGHT,
            drew_height(old(ctx).draws@, final(ctx).draws@, final(ctx).splice.height()),
            final(self).wrote(
                old(self),
                Entry {
                    key: internal_key(key@, sequence, ValueType::TypeValue.code()),
                    value: value@,
                    height: final(ctx).splice.height() as nat,
                },
            ),
            final(self).grew(
                old(self),
                old(ctx).thread_id,
                final(ctx).splice.height() as nat,
                key@.len(),
                value@.len(),
            ),
            final(ctx).thread_id == old(ctx).thread_id,
            final(self).spliced(
                &final(ctx).splice,
                rank(
                    &old(self).comparator(),
                    old(self)@,
                    internal_key(key@, sequence, ValueType::TypeValue.code()),
                ) as int,
            ),
            final(self).caps(&final(ctx).splice, &old(ctx).splice),
    {
        let height: usize = draw_height(&mut ctx.draws);
        self.insert_at_height(ctx, height, key, value, sequence, ValueType::TypeValue);
    }

    /// Puts the deletion of a user key in.
    pub fn delete(&mut self, ctx: &mut MemTableContext, key: &[u8], sequence: u64)
        requires
            old(self).wf(),
            old(self).accepts(
                MAX_HEIGHT as nat,
                key@,
                Seq::empty(),
                sequence,
                ValueType::TypeDeletion,
            ),
        ensures
            final(self).wf(),
            1 <= final(ctx).splice.height() <= MAX_HEIGHT,
            drew_height(old(ctx).draws@, final(ctx).draws@, final(ctx).splice.height()),
            final(self).wrote(
                old(self),
                Entry {
                    key: internal_key(key@, sequence, ValueType::TypeDeletion.code()),
                    value: Seq::empty(),
                    height: final(ctx).splice.height() as nat,
                },
            ),
            final(self).grew(
                old(self),
                old(ctx).thread_id,
                final(ctx).splice.height() as nat,
                key@.len(),
                0,
            ),
            final(ctx).thread_id == old(ctx).thread_id,
            final(self).spliced(
                &final(ctx).splice,
                rank(
                    &old(self).comparator(),
                    old(self)@,
                    internal_key(key@, sequence, ValueType::TypeDeletion.code()),
                ) as int,
            ),
            final(self).caps(&final(ctx).splice, &old(ctx).splice),
    {
        let height: usize = draw_height(&mut ctx.draws);
        let value: [u8; 0] = [];
        proof {
            assert(value@ =~= Seq::<u8>::empty());
        }
        self.insert_at_height(
            ctx,
            height,
            key,
            value.as_slice(),
            sequence,
            ValueType::TypeDeletion,
        );
    }
}

/// A node in memory that was handed out after a chain: the chain stays as it
/// was, and the node shares no byte with it.
proof fn lemma_new_node(
    before: Map<int, u8>,
    allocated: Map<int, u8>,
    after: Map<int, u8>,
    chain: Seq<Node>,
    n: Node,
)
    requires
        laid_out(before, chain),
        linked(before, chain),
        n.tower >= 1,
        n.height == 0,
        block_added(before, allocated, n.low(), (n.high() - n.low()) as nat),
        after == crate::arena::overwritten(allocated, n.addr + LINK_SIZE, n.record),
    ensures
        laid_out(after, chain),
        linked(after, chain),
        in_memory(after, n),
        forall|p: int| 0 <= p < chain.len() ==> apart(#[trigger] chain[p], n),
{
    assert(holds_block(allocated, n.addr + LINK_SIZE, n.record.len()));
    crate::arena::lemma_block_written(allocated, n.addr + LINK_SIZE, n.record);
    assert forall|a: int| #[trigger] before.contains_key(a) implies after.contains_key(a)
        && after[a] == before[a] by {
        assert(allocated.contains_key(a));
    }
    lemma_chain_kept(before, after, chain);
    assert forall|a: int| n.low() <= a < n.high() implies #[trigger] after.contains_key(a) by {
        assert(allocated.contains_key(a));
    }
    assert forall|p: int| 0 <= p < chain.len() implies apart(#[trigger] chain[p], n) by {
        let m = chain[p];
        assert(in_memory(before, m));
        if !apart(m, n) {
            let a = if m.low() < n.low() { n.low() } else { m.low() };
            assert(before.contains_key(a));
        }
    }
}

/// The record of the node is that of its key and value, whose lengths can be
/// encoded.
spec fn holds_entry(n: Node) -> bool {
    &&& n.key.len() <= u32::MAX
    &&& n.value.len() <= u32::MAX
    &&& n.record == record(n.key, n.value)
}

/// A record takes at least two bytes.
proof fn lemma_record_len(key: Seq<u8>, value: Seq<u8>)
    requires
        key.len() <= u32::MAX,
        value.len() <= u32::MAX,
    ensures
        record(key, value).len() == varint(key.len()).len() + key.len() + varint(value.len()).len()
            + value.len(),
        record(key, value).len() >= 2,
{
    crate::util::lemma_varint_len(key.len());
    crate::util::lemma_varint_len(value.len());
}

/// An iterator over a list: it is at one of the entries, or at none.
pub struct SkipListIterator<'a, C: Comparator, A: Arena> {
    list: &'a InlineSkipList<C, A>,
    node: usize,
    current_offset: usize,
    current_key_size: usize,
}

impl<'a, C: Comparator, A: Arena> SkipListIterator<'a, C, A> {
    /// The list.
    pub closed spec fn list(&self) -> InlineSkipList<C, A> {
        *self.list
    }

    /// The index of the entry that the iterator is at.
    pub closed spec fn position(&self) -> Option<int> {
        self.list.position_of(self.node)
    }

    /// The list is in order, and the iterator knows where the key of its entry
    /// stands.
    pub closed spec fn wf(&self) -> bool {
        &&& self.list.wf()
        &&& self.node != NULL ==> self.list.is_entry(self.node) && self.knows_key()
    }

    /// The offset and the size are those of the key of the node.
    spec fn knows_key(&self) -> bool {
        let key = self.list.node(self.node).key;
        &&& self.current_offset == varint(key.len()).len()
        &&& self.current_key_size == key.len()
    }

    /// An iterator that is at an entry is at one of the list, and the list is in
    /// order.
    pub proof fn law_position(&self)
        requires
            self.wf(),
        ensures
            self.list().wf(),
            self.position() matches Some(i) ==> 0 <= i < self.list()@.len(),
    {
    }

    /// An iterator over `list` that is at no entry.
    pub fn new(list: &'a InlineSkipList<C, A>) -> (r: Self)
        requires
            list.wf(),
        ensures
            r.wf(),
            r.list() == *list,
            r.position() is None,
    {
        SkipListIterator { list, node: NULL, current_offset: 0, current_key_size: 0 }
    }

    /// The iterator is at an entry.
    pub fn valid(&self) -> (r: bool)
        ensures
            r == self.position() is Some,
    {
        self.node != NULL
    }

    /// The key of the entry.
    pub fn key(&self) -> (r: &[u8])
        requires
            self.wf(),
            self.position() is Some,
        ensures
            r@ == self.list()@[self.position()->0].key,
    {
        let raw: &[u8] = self.list.raw_key(self.node);
        proof {
            let n = self.list.node(self.node);
            assert(holds_entry(n));
            lemma_key_in_record(n.key, n.value, raw@);
            assert(raw@.len() == raw.len());
        }
        &raw[self.current_offset..self.current_offset + self.current_key_size]
    }

    /// The value of the entry.
    pub fn value(&self) -> (r: &[u8])
        requires
            self.wf(),
            self.position() is Some,
        ensures
            r@ == self.list()@[self.position()->0].value,
    {
        let raw: &[u8] = self.list.raw_key(self.node);
        let len: usize = raw.len();
        proof {
            let n = self.list.node(self.node);
            assert(holds_entry(n));
            lemma_key_in_record(n.key, n.value, raw@);
            law_record_round_trip(n.key, n.value, raw@);
        }
        let rest: &[u8] = &raw[self.current_offset + self.current_key_size..len];
        proof {
            let n = self.list.node(self.node);
            assert(rest@ =~= raw@.skip(prefixed(n.key).len() as int));
        }
        decode_key(rest)
    }

    /// Reads where the key of the entry stands from the front of its record.
    fn init_offset(&mut self)
        requires
            old(self).list.wf(),
            old(self).node != NULL ==> old(self).list.is_entry(old(self).node),
        ensures
            final(self).wf(),
            final(self).list == old(self).list,
            final(self).node == old(self).node,
            old(self).node == NULL ==> *final(self) == *old(self),
    {
        if self.valid() {
            let raw: &[u8] = self.list.raw_key(self.node);
            proof {
                let n = self.list.node(self.node);
                assert(holds_entry(n));
                lemma_key_in_record(n.key, n.value, raw@);
                crate::util::lemma_varint_len(n.key.len());
                assert(raw@.skip(0) =~= raw@);
            }
            self.current_key_size = raw[0] as usize;
            if self.current_key_size < 128 {
                self.current_offset = 1;
            } else {
                let mut offset: usize = 0;
                self.current_key_size = get_var_uint32(raw, &mut offset).unwrap() as usize;
                self.current_offset = offset;
            }
        }
    }

    /// Goes to the entry that a search for `key` finds. `buf` is scratch space: it
    /// takes the key behind its length. Of the length 32 bits are kept, so a
    /// longer key is sought by the part of it that they speak of.
    pub fn seek(&mut self, buf: &mut Vec<u8>, key: &[u8])
        requires
            old(self).wf(),
            old(self).list()@.len() > 0 ==> old(self).list().comparator().valid_key(
                kept_key(key@),
            ),
        ensures
            final(self).wf(),
            final(self).list() == old(self).list(),
            is_found(
                &old(self).list().comparator(),
                old(self).list()@,
                kept_key(key@),
                final(self).position(),
            ),
            final(buf)@ == varint(key@.len() % 0x1_0000_0000) + key@,
    {
        let target: &[u8] = encode_key(buf, key);
        proof {
            law_encoded_key_round_trip(key@);
        }
        self.node = self.list.find_greater_or_equal(target);
        self.init_offset();
    }

    /// Goes to the entry that a search backward from `key` finds. `buf` is
    /// scratch space, as in `seek`.
    pub fn seek_for_prev(&mut self, buf: &mut Vec<u8>, key: &[u8])
        requires
            old(self).wf(),
            old(self).list()@.len() > 0 ==> old(self).list().comparator().valid_key(
                kept_key(key@),
            ) && old(self).list().comparator().valid_key(key@),
        ensures
            final(self).wf(),
            final(self).list() == old(self).list(),
            is_found_back(
                &old(self).list().comparator(),
                old(self).list()@,
                kept_key(key@),
                key@,
                final(self).position(),
            ),
            key@.len() <= u32::MAX ==> is_found_for_prev(
                &old(self).list().comparator(),
                old(self).list()@,
                key@,
                final(self).position(),
            ),
            final(buf)@ == varint(key@.len() % 0x1_0000_0000) + key@,
    {
        let ghost c = self.list.comparator;
        let ghost entries = self.list@;
        self.seek(buf, key);
        let ghost found = self.position();
        if !self.valid() {
            self.seek_to_last();
        }
        self.init_offset();
        let ghost start = match found {
            Some(i) => i,
            None => entries.len() - 1,
        };
        while self.valid() && self.list.less_than(key, self.key())
            invariant
                self.wf(),
                self.list() == old(self).list(),
                c == self.list.comparator,
                entries == self.list@,
                entries.len() > 0 ==> c.valid_key(key@),
                final(buf)@ == varint(key@.len() % 0x1_0000_0000) + key@,
                last_not_after(
                    &c,
                    entries,
                    key@,
                    match self.position() {
                        Some(i) => i,
                        None => -1,
                    },
                ) == last_not_after(&c, entries, key@, start),
            decreases
                (match self.position() {
                    Some(i) => i + 1,
                    None => 0,
                }),
        {
            proof {
                self.law_position();
                self.list.law_in_order();
                let i = self.position()->0;
                let r = rank(&c, entries, entries[i].key) as int;
                law_prev_steps_back(&c, entries, i);
                assert forall|k: int| r - 1 < k <= i implies c.precedes(
                    key@,
                    (#[trigger] entries[k]).key,
                ) by {
                    c.law_cotransitive(key@, entries[k].key, entries[i].key);
                }
                lemma_passed_by(&c, entries, key@, r - 1, i);
            }
            self.prev();
        }
        proof {
            self.list.law_in_order();
            assert(is_found(&c, entries, kept_key(key@), found));
            assert(is_found_back(&c, entries, kept_key(key@), key@, self.position()));
            if key@.len() <= u32::MAX {
                law_found_back(&c, entries, key@, self.position());
            }
        }
    }

    /// Goes to the next entry.
    pub fn next(&mut self)
        requires
            old(self).wf(),
            old(self).position() is Some,
        ensures
            final(self).wf(),
            final(self).list() == old(self).list(),
            final(self).position() == within(
                old(self).position()->0 + 1,
                old(self).list()@.len(),
            ),
    {
        let ghost p = index_of(self.list.chain@, self.node);
        self.node = self.list.next_at(self.node, 0, Ghost(p));
        self.init_offset();
    }

    /// Goes to the last entry that precedes the present one.
    pub fn prev(&mut self)
        requires
            old(self).wf(),
            old(self).position() is Some,
        ensures
            final(self).wf(),
            final(self).list() == old(self).list(),
            final(self).position() == before(
                rank(
                    &old(self).list().comparator(),
                    old(self).list()@,
                    old(self).list()@[old(self).position()->0].key,
                ) as int,
            ),
    {
        proof {
            self.list.lemma_valid(self.node);
        }
        self.node = self.list.find_less_than(self.list.raw_key(self.node));
        proof {
            lemma_index(self.list.arena.memory(), self.list.chain@, 0);
        }
        if self.node == self.list.head {
            self.node = NULL;
        }
        self.init_offset();
    }

    /// Goes to the first entry.
    pub fn seek_to_first(&mut self)
        requires
            old(self).wf(),
        ensures
            final(self).wf(),
            final(self).list() == old(self).list(),
            final(self).position() == within(0, old(self).list()@.len()),
    {
        self.node = self.list.next_at(self.list.head, 0, Ghost(0));
        self.init_offset();
    }

    /// Goes to the last entry.
    pub fn seek_to_last(&mut self)
        requires
            old(self).wf(),
        ensures
            final(self).wf(),
            final(self).list() == old(self).list(),
            final(self).position() == before(old(self).list()@.len() as int),
    {
        let x: usize = self.list.find_last();
        if x != self.list.head {
            self.node = x;
        } else {
            self.node = NULL;
        }
        self.init_offset();
    }
}

/// Bytes that start with a record hold the key right behind its length.
proof fn lemma_key_in_record(key: Seq<u8>, value: Seq<u8>, bytes: Seq<u8>)
    requires
        key.len() <= u32::MAX,
        value.len() <= u32::MAX,
        record(key, value).is_prefix_of(bytes),
    ensures
        prefixed(key).len() == varint(key.len()).len() + key.len(),
        prefixed(key).len() <= bytes.len(),
        bytes.len() >= 2,
        bytes.subrange(varint(key.len()).len() as int, prefixed(key).len() as int) == key,
        bytes[0] == varint(key.len())[0],
        crate::util::parse_varint32(bytes) == Some((key.len() as u32, varint(key.len()).len())),
{
    law_record_round_trip(key, value, bytes);
    lemma_record_len(key, value);
    crate::util::lemma_varint_len(key.len());
    lemma_record_starts_with_key(key, value, bytes);
    crate::record::law_prefixed_round_trip(key, bytes);
    assert(bytes[0] == prefixed(key)[0]);
}

} // verus!
