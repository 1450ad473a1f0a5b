//! The nodes of a list in their order, as the links of an arena join them.
//!
//! A chain starts with the head. A node takes part in as many levels as its
//! height says: at each of them its link goes to the next node of the chain that
//! takes part in the level too, and to no node where there is none. The tower
//! of a node is the number of links that it has; while a node is being linked
//! in, its height grows up to its tower.

use crate::arena::{block, holds_block};
use crate::comparator::Comparator;
use crate::node::{
    lemma_next_set, lemma_set_untouched, links_size, next_of, slot, with_next, LINK_SIZE, NULL,
};
use crate::order::{
    all_valid, is_sorted, law_rank_counts, law_rank_splits, lemma_filter_one, lemma_transitive,
    rank, with_entry, Entry,
};
use vstd::prelude::*;

verus! {

/// A node of a chain.
pub struct Node {
    pub addr: usize,
    pub tower: nat,
    pub height: nat,
    pub record: Seq<u8>,
    pub key: Seq<u8>,
    pub value: Seq<u8>,
}

impl Node {
    /// The first byte of the node.
    pub open spec fn low(self) -> int {
        self.addr - links_size(self.tower - 1)
    }

    /// The byte after the last one of the node.
    pub open spec fn high(self) -> int {
        self.addr + LINK_SIZE + self.record.len()
    }

    /// The entry that the node holds.
    pub open spec fn entry(self) -> Entry {
        Entry { key: self.key, value: self.value, height: self.tower }
    }

    /// The node, linked at `height` levels.
    pub open spec fn linked_at(self, height: nat) -> Node {
        Node { height, ..self }
    }
}

/// Two nodes share no byte.
pub open spec fn apart(a: Node, b: Node) -> bool {
    a.high() <= b.low() || b.high() <= a.low()
}

/// The bytes of the node were handed out, and its record stands behind its links.
pub open spec fn in_memory(memory: Map<int, u8>, n: Node) -> bool {
    &&& 1 <= n.tower
    &&& n.height <= n.tower
    &&& 0 < n.low()
    &&& n.high() <= usize::MAX
    &&& holds_block(memory, n.low(), (n.high() - n.low()) as nat)
    &&& block(memory, n.addr + LINK_SIZE, n.record.len()) == n.record
}

/// Every node of the chain is in memory, and no two share a byte.
pub open spec fn laid_out(memory: Map<int, u8>, chain: Seq<Node>) -> bool {
    &&& chain.len() >= 1
    &&& forall|p: int| 0 <= p < chain.len() ==> in_memory(memory, #[trigger] chain[p])
    &&& forall|p: int, q: int|
        0 <= p < q < chain.len() ==> apart(#[trigger] chain[p], #[trigger] chain[q])
}

/// The index after `p` of the next node that takes part in `level`, or the
/// length of the chain.
pub open spec fn succ(chain: Seq<Node>, p: int, level: int) -> int
    decreases chain.len() - p,
{
    if p + 1 >= chain.len() {
        chain.len() as int
    } else if chain[p + 1].height > level {
        p + 1
    } else {
        succ(chain, p + 1, level)
    }
}

/// Whether a node is linked at `level`.
pub open spec fn linked_on(level: int) -> spec_fn(Node) -> bool {
    |n: Node| n.height > level
}

/// The addresses of nodes.
pub open spec fn addresses_of(nodes: Seq<Node>) -> Seq<usize> {
    Seq::new(nodes.len(), |i: int| nodes[i].addr)
}

/// The links of `level` lead from the node at `x` through those of `path`, one
/// after the other, and end there.
pub open spec fn leads_through(
    memory: Map<int, u8>,
    x: usize,
    level: int,
    path: Seq<usize>,
) -> bool
    decreases path.len(),
{
    if path.len() == 0 {
        next_of(memory, x as int, level) == NULL
    } else {
        &&& path[0] != NULL
        &&& next_of(memory, x as int, level) == path[0]
        &&& leads_through(memory, path[0], level, path.drop_first())
    }
}

/// The address of the node at `p`, or the address of none past the end.
pub open spec fn addr_at(chain: Seq<Node>, p: int) -> usize {
    if 0 <= p < chain.len() {
        chain[p].addr
    } else {
        NULL
    }
}

/// The link of the node at `p` at `level` goes where it should.
pub open spec fn link_ok(memory: Map<int, u8>, chain: Seq<Node>, p: int, level: int) -> bool {
    next_of(memory, chain[p].addr as int, level) == addr_at(chain, succ(chain, p, level))
}

/// All links go where they should.
pub open spec fn linked(memory: Map<int, u8>, chain: Seq<Node>) -> bool {
    forall|p: int, level: int|
        0 <= p < chain.len() && 0 <= level < chain[p].height ==> #[trigger] link_ok(
            memory,
            chain,
            p,
            level,
        )
}

/// The entries of the chain: those of all nodes but the head.
pub open spec fn entries_of(chain: Seq<Node>) -> Seq<Entry> {
    Seq::new((chain.len() - 1) as nat, |i: int| chain[i + 1].entry())
}

/// The chain has a node at `addr`.
pub open spec fn has_node(chain: Seq<Node>, addr: usize) -> bool {
    exists|p: int| 0 <= p < chain.len() && (#[trigger] chain[p]).addr == addr
}

/// The index of the node at `addr`.
pub open spec fn index_of(chain: Seq<Node>, addr: usize) -> int {
    choose|p: int| 0 <= p < chain.len() && (#[trigger] chain[p]).addr == addr
}

/// What `succ` says: the node there takes part in the level, and no node
/// between does.
pub proof fn lemma_succ(chain: Seq<Node>, p: int, level: int)
    requires
        0 <= p < chain.len(),
    ensures
        p < succ(chain, p, level) <= chain.len(),
        succ(chain, p, level) < chain.len() ==> chain[succ(chain, p, level)].height > level,
        forall|r: int| p < r < succ(chain, p, level) ==> (#[trigger] chain[r]).height <= level,
    decreases chain.len() - p,
{
    if p + 1 < chain.len() && chain[p + 1].height <= level {
        lemma_succ(chain, p + 1, level);
    }
}

/// Only the successor is as `succ` says.
pub proof fn lemma_succ_unique(chain: Seq<Node>, p: int, level: int, q: int)
    requires
        0 <= p < q <= chain.len(),
        q < chain.len() ==> chain[q].height > level,
        forall|r: int| p < r < q ==> (#[trigger] chain[r]).height <= level,
    ensures
        q == succ(chain, p, level),
{
    lemma_succ(chain, p, level);
    let s = succ(chain, p, level);
    if s < q {
        assert(chain[s].height <= level);
    }
    if q < s {
        assert(chain[q].height <= level);
    }
}

/// The addresses of a chain in memory are those of its nodes alone.
pub proof fn lemma_index(memory: Map<int, u8>, chain: Seq<Node>, p: int)
    requires
        laid_out(memory, chain),
        0 <= p < chain.len(),
    ensures
        has_node(chain, chain[p].addr),
        index_of(chain, chain[p].addr) == p,
        chain[p].addr != NULL,
{
    let q = index_of(chain, chain[p].addr);
    assert(in_memory(memory, chain[p]));
    assert(0 <= q < chain.len() && chain[q].addr == chain[p].addr);
    assert(in_memory(memory, chain[q]));
    if q < p {
        assert(apart(chain[q], chain[p]));
    } else if p < q {
        assert(apart(chain[p], chain[q]));
    }
}

/// At a level the links lead from the node at `p` through the nodes that are linked
/// there, from `i` on where none before `i` is.
pub proof fn lemma_links_lead(
    memory: Map<int, u8>,
    chain: Seq<Node>,
    p: int,
    i: int,
    level: int,
)
    requires
        laid_out(memory, chain),
        linked(memory, chain),
        0 <= p < i <= chain.len(),
        0 <= level < chain[p].height,
        forall|r: int| p < r < i ==> (#[trigger] chain[r]).height <= level,
    ensures
        leads_through(
            memory,
            chain[p].addr,
            level,
            addresses_of(chain.skip(i).filter(linked_on(level))),
        ),
    decreases chain.len() - i,
{
    let keep = linked_on(level);
    let rest = chain.skip(i);
    assert(link_ok(memory, chain, p, level));
    if i == chain.len() {
        lemma_succ_unique(chain, p, level, i);
        reveal(Seq::filter);
        assert(rest.filter(keep).len() == 0);
    } else {
        let one = Seq::<Node>::empty().push(chain[i]);
        let tail = chain.skip(i + 1);
        assert(rest =~= one + tail);
        Seq::filter_distributes_over_add(one, tail, keep);
        lemma_filter_one(chain[i], keep);
        if chain[i].height > level {
            lemma_succ_unique(chain, p, level, i);
            lemma_index(memory, chain, i);
            lemma_links_lead(memory, chain, i, i + 1, level);
            let path = addresses_of(rest.filter(keep));
            assert(path.drop_first() =~= addresses_of(tail.filter(keep)));
            assert(path[0] == chain[i].addr);
        } else {
            lemma_links_lead(memory, chain, p, i + 1, level);
            assert(rest.filter(keep) =~= tail.filter(keep));
        }
    }
}

/// The bytes of a link lie inside its node.
pub proof fn lemma_link_in_memory(memory: Map<int, u8>, n: Node, level: int)
    requires
        in_memory(memory, n),
        0 <= level < n.tower,
    ensures
        holds_block(memory, slot(n.addr as int, level), LINK_SIZE as nat),
        links_size(level) <= n.addr,
        n.addr + LINK_SIZE <= usize::MAX,
        n.low() <= slot(n.addr as int, level),
        slot(n.addr as int, level) + LINK_SIZE <= n.addr + LINK_SIZE,
{
}

/// Setting a link of a node that is in memory keeps a node that it shares no
/// byte with, links included.
pub proof fn lemma_set_other_node(
    memory: Map<int, u8>,
    n: Node,
    level: int,
    x: usize,
    m: Node,
)
    requires
        in_memory(memory, n),
        0 <= level < n.tower,
        in_memory(memory, m),
        apart(n, m) || apart(m, n),
    ensures
        in_memory(with_next(memory, n.addr as int, level, x), m),
        forall|l: int|
            0 <= l < m.tower ==> #[trigger] next_of(
                with_next(memory, n.addr as int, level, x),
                m.addr as int,
                l,
            ) == next_of(memory, m.addr as int, l),
{
    let after = with_next(memory, n.addr as int, level, x);
    lemma_link_in_memory(memory, n, level);
    lemma_set_untouched(
        memory,
        n.addr as int,
        level,
        x,
        m.addr + LINK_SIZE,
        m.record.len(),
    );
    assert forall|a: int| m.low() <= a < m.high() implies #[trigger] after.contains_key(a) by {
        assert(memory.contains_key(a));
    }
    assert forall|l: int| 0 <= l < m.tower implies #[trigger] next_of(after, m.addr as int, l)
        == next_of(memory, m.addr as int, l) by {
        lemma_link_in_memory(memory, m, l);
        lemma_set_untouched(
            memory,
            n.addr as int,
            level,
            x,
            slot(m.addr as int, l),
            LINK_SIZE as nat,
        );
    }
}

/// Setting a link of a node that is in memory keeps its record and its other
/// links.
pub proof fn lemma_set_own_node(memory: Map<int, u8>, n: Node, level: int, x: usize)
    requires
        in_memory(memory, n),
        0 <= level < n.tower,
    ensures
        in_memory(with_next(memory, n.addr as int, level, x), n),
        next_of(with_next(memory, n.addr as int, level, x), n.addr as int, level) == x,
        forall|l: int|
            0 <= l < n.tower && l != level ==> #[trigger] next_of(
                with_next(memory, n.addr as int, level, x),
                n.addr as int,
                l,
            ) == next_of(memory, n.addr as int, l),
{
    let after = with_next(memory, n.addr as int, level, x);
    lemma_link_in_memory(memory, n, level);
    lemma_next_set(memory, n.addr as int, level, x);
    lemma_set_untouched(
        memory,
        n.addr as int,
        level,
        x,
        n.addr + LINK_SIZE,
        n.record.len(),
    );
    assert forall|a: int| n.low() <= a < n.high() implies #[trigger] after.contains_key(a) by {
        assert(memory.contains_key(a));
    }
    assert forall|l: int| 0 <= l < n.tower && l != level implies #[trigger] next_of(
        after,
        n.addr as int,
        l,
    ) == next_of(memory, n.addr as int, l) by {
        lemma_link_in_memory(memory, n, l);
        lemma_set_untouched(
            memory,
            n.addr as int,
            level,
            x,
            slot(n.addr as int, l),
            LINK_SIZE as nat,
        );
    }
}

/// Setting a link of a node of a chain keeps the chain in memory and changes no
/// other link of it.
pub proof fn lemma_set_in_chain(
    memory: Map<int, u8>,
    chain: Seq<Node>,
    p: int,
    level: int,
    x: usize,
)
    requires
        laid_out(memory, chain),
        0 <= p < chain.len(),
        0 <= level < chain[p].tower,
    ensures
        laid_out(with_next(memory, chain[p].addr as int, level, x), chain),
        next_of(
            with_next(memory, chain[p].addr as int, level, x),
            chain[p].addr as int,
            level,
        ) == x,
        forall|q: int, l: int|
            0 <= q < chain.len() && 0 <= l < chain[q].tower && (q != p || l != level)
                ==> #[trigger] next_of(
                with_next(memory, chain[p].addr as int, level, x),
                chain[q].addr as int,
                l,
            ) == next_of(memory, chain[q].addr as int, l),
{
    let after = with_next(memory, chain[p].addr as int, level, x);
    lemma_set_own_node(memory, chain[p], level, x);
    assert forall|q: int| 0 <= q < chain.len() implies in_memory(after, #[trigger] chain[q]) by {
        if q != p {
            lemma_set_other_node(memory, chain[p], level, x, chain[q]);
        }
    }
    assert forall|q: int, l: int|
        0 <= q < chain.len() && 0 <= l < chain[q].tower && (q != p || l != level) implies #[trigger] next_of(
        after,
        chain[q].addr as int,
        l,
    ) == next_of(memory, chain[q].addr as int, l) by {
        if q != p {
            lemma_set_other_node(memory, chain[p], level, x, chain[q]);
        }
    }
}

/// The chain in which the node at `x` takes part in one level more.
pub open spec fn raised(chain: Seq<Node>, x: int) -> Seq<Node> {
    chain.update(x, chain[x].linked_at(chain[x].height + 1))
}

/// A node that takes part in one level more becomes, at that level, the
/// successor of the nodes whose successor came after it; nothing else changes.
pub proof fn lemma_succ_raised(chain: Seq<Node>, x: int, p: int, level: int)
    requires
        0 <= x < chain.len(),
        0 <= p < chain.len(),
    ensures
        succ(raised(chain, x), p, level) == (if level == chain[x].height && p < x < succ(
            chain,
            p,
            level,
        ) {
            x
        } else {
            succ(chain, p, level)
        }),
{
    let after = raised(chain, x);
    lemma_succ(chain, p, level);
    let q = succ(chain, p, level);
    if level == chain[x].height && p < x < q {
        assert forall|r: int| p < r < x implies (#[trigger] after[r]).height <= level by {
            assert(chain[r].height <= level);
        }
        lemma_succ_unique(after, p, level, x);
    } else {
        assert forall|r: int| p < r < q implies (#[trigger] after[r]).height <= level by {
            assert(chain[r].height <= level);
        }
        lemma_succ_unique(after, p, level, q);
    }
}

/// Linking a node at the next level: its own link goes to the successor of the
/// node before it, whose link then goes to the node.
pub proof fn lemma_link_level(memory: Map<int, u8>, chain: Seq<Node>, p: int, x: int)
    requires
        laid_out(memory, chain),
        linked(memory, chain),
        0 <= p < x < chain.len(),
        chain[x].height < chain[x].tower,
        chain[p].height > chain[x].height,
        succ(chain, p, chain[x].height as int) > x,
    ensures
        ({
            let level = chain[x].height as int;
            let q = succ(chain, p, level);
            let half = with_next(memory, chain[x].addr as int, level, addr_at(chain, q));
            let after = with_next(half, chain[p].addr as int, level, chain[x].addr);
            &&& next_of(half, chain[p].addr as int, level) == addr_at(chain, q)
            &&& laid_out(half, chain)
            &&& linked(half, chain)
            &&& laid_out(after, raised(chain, x))
            &&& linked(after, raised(chain, x))
        }),
{
    let level = chain[x].height as int;
    let q = succ(chain, p, level);
    let half = with_next(memory, chain[x].addr as int, level, addr_at(chain, q));
    let after = with_next(half, chain[p].addr as int, level, chain[x].addr);
    let up = raised(chain, x);
    assert(in_memory(memory, chain[p]) && in_memory(memory, chain[x]));
    lemma_set_in_chain(memory, chain, x, level, addr_at(chain, q));
    lemma_set_in_chain(half, chain, p, level, chain[x].addr);
    assert(link_ok(memory, chain, p, level));
    assert forall|r: int, l: int| 0 <= r < chain.len() && 0 <= l < chain[r].height implies #[trigger] link_ok(
        half,
        chain,
        r,
        l,
    ) by {
        assert(link_ok(memory, chain, r, l));
        assert(in_memory(memory, chain[r]));
        assert(next_of(half, chain[r].addr as int, l) == next_of(memory, chain[r].addr as int, l));
    }
    assert forall|r: int| 0 <= r < up.len() implies in_memory(after, #[trigger] up[r]) by {
        assert(in_memory(after, chain[r]));
    }
    assert forall|r: int, s: int| 0 <= r < s < up.len() implies apart(
        #[trigger] up[r],
        #[trigger] up[s],
    ) by {
        assert(apart(chain[r], chain[s]));
    }
    lemma_succ(chain, p, level);
    assert forall|r: int, l: int| 0 <= r < up.len() && 0 <= l < up[r].height implies #[trigger] link_ok(
        after,
        up,
        r,
        l,
    ) by {
        lemma_succ_raised(chain, x, r, l);
        assert(in_memory(memory, chain[r]));
        let s = succ(chain, r, l);
        assert(addr_at(up, s) == addr_at(chain, s));
        if r == p && l == level {
        } else if r == x && l == level {
            lemma_succ(chain, x, level);
            assert forall|t: int| p < t < s implies (#[trigger] chain[t]).height <= level by {}
            lemma_succ_unique(chain, p, level, s);
        } else {
            assert(link_ok(memory, chain, r, l));
            assert(next_of(half, chain[r].addr as int, l) == next_of(
                memory,
                chain[r].addr as int,
                l,
            ));
            assert(next_of(after, chain[r].addr as int, l) == next_of(
                half,
                chain[r].addr as int,
                l,
            ));
            if l == level && r < x < s {
                lemma_succ(chain, r, l);
                if r < p {
                    assert(chain[p].height <= level);
                } else {
                    assert(chain[r].height <= level);
                }
            }
        }
    }
}

/// Where an index stands once a node was put in at `x`.
pub open spec fn shifted(p: int, x: int) -> int {
    if p < x {
        p
    } else {
        p + 1
    }
}

/// A node that takes part in no level changes no successor.
pub proof fn lemma_succ_inserted(chain: Seq<Node>, x: int, n: Node, p: int, level: int)
    requires
        0 < x <= chain.len(),
        0 <= p < chain.len(),
        n.height == 0,
        0 <= level,
    ensures
        succ(chain.insert(x, n), shifted(p, x), level) == shifted(succ(chain, p, level), x),
{
    let after = chain.insert(x, n);
    lemma_succ(chain, p, level);
    let q = succ(chain, p, level);
    let q2 = shifted(q, x);
    assert forall|r: int| shifted(p, x) < r < q2 implies (#[trigger] after[r]).height <= level by {
        if r < x {
            assert(after[r] == chain[r]);
        } else if r > x {
            assert(after[r] == chain[r - 1]);
        }
    }
    if q < chain.len() {
        assert(after[q2] == chain[q]);
    }
    lemma_succ_unique(after, shifted(p, x), level, q2);
}

/// A node in memory that shares no byte with the chain can stand in it, as long
/// as it takes part in no level.
pub proof fn lemma_insert_unlinked(memory: Map<int, u8>, chain: Seq<Node>, x: int, n: Node)
    requires
        laid_out(memory, chain),
        linked(memory, chain),
        0 < x <= chain.len(),
        n.height == 0,
        in_memory(memory, n),
        forall|p: int| 0 <= p < chain.len() ==> apart(#[trigger] chain[p], n),
    ensures
        laid_out(memory, chain.insert(x, n)),
        linked(memory, chain.insert(x, n)),
{
    let after = chain.insert(x, n);
    assert forall|p: int| 0 <= p < after.len() implies in_memory(memory, #[trigger] after[p]) by {
        if p < x {
            assert(after[p] == chain[p]);
        } else if p > x {
            assert(after[p] == chain[p - 1]);
        }
    }
    assert forall|p: int, q: int| 0 <= p < q < after.len() implies apart(
        #[trigger] after[p],
        #[trigger] after[q],
    ) by {
        let a = if p < x { p } else { p - 1 };
        let b = if q < x { q } else { q - 1 };
        if p != x {
            assert(after[p] == chain[a]);
        }
        if q != x {
            assert(after[q] == chain[b]);
        }
        if p != x && q != x {
            assert(apart(chain[a], chain[b]));
        }
    }
    assert forall|p: int, level: int|
        0 <= p < after.len() && 0 <= level < after[p].height implies #[trigger] link_ok(
        memory,
        after,
        p,
        level,
    ) by {
        let a = if p < x { p } else { p - 1 };
        assert(after[p] == chain[a]);
        assert(link_ok(memory, chain, a, level));
        lemma_succ_inserted(chain, x, n, a, level);
        lemma_succ(chain, a, level);
        let s = succ(chain, a, level);
        if s < chain.len() {
            assert(after[shifted(s, x)] == chain[s]);
        }
    }
}

/// A chain stays in memory and linked when the arena hands out more.
pub proof fn lemma_chain_kept(before: Map<int, u8>, after: Map<int, u8>, chain: Seq<Node>)
    requires
        laid_out(before, chain),
        linked(before, chain),
        forall|a: int| #[trigger] before.contains_key(a) ==> after.contains_key(a) && after[a]
            == before[a],
    ensures
        laid_out(after, chain),
        linked(after, chain),
{
    assert forall|p: int| 0 <= p < chain.len() implies in_memory(after, #[trigger] chain[p]) by {
        let n = chain[p];
        assert(in_memory(before, n));
        assert(holds_block(before, n.low(), (n.high() - n.low()) as nat));
        assert forall|a: int| n.low() <= a < n.high() implies #[trigger] after.contains_key(a) by {
            assert(before.contains_key(a));
        }
        lemma_block_kept(before, after, n.addr + LINK_SIZE, n.record.len());
    }
    assert forall|p: int, level: int|
        0 <= p < chain.len() && 0 <= level < chain[p].height implies #[trigger] link_ok(
        after,
        chain,
        p,
        level,
    ) by {
        assert(link_ok(before, chain, p, level));
        assert(in_memory(before, chain[p]));
        lemma_link_in_memory(before, chain[p], level);
        lemma_block_kept(before, after, slot(chain[p].addr as int, level), LINK_SIZE as nat);
    }
}

/// A block keeps its bytes when the arena hands out more.
pub proof fn lemma_block_kept(before: Map<int, u8>, after: Map<int, u8>, addr: int, len: nat)
    requires
        holds_block(before, addr, len),
        forall|a: int| #[trigger] before.contains_key(a) ==> after.contains_key(a) && after[a]
            == before[a],
    ensures
        holds_block(after, addr, len),
        block(after, addr, len) == block(before, addr, len),
{
    assert forall|a: int| addr <= a < addr + len implies #[trigger] after.contains_key(a) by {
        assert(before.contains_key(a));
    }
    assert forall|a: int| addr <= a < addr + len implies #[trigger] after[a] == before[a] by {
        assert(before.contains_key(a));
    }
    assert(block(after, addr, len) =~= block(before, addr, len));
}

/// The node at `p` comes before `key`. The head comes before every key.
pub open spec fn below<C: Comparator>(c: &C, chain: Seq<Node>, p: int, key: Seq<u8>) -> bool {
    p == 0 || c.precedes(chain[p].key, key)
}

/// The index of the last node before `key`.
pub open spec fn last_below<C: Comparator>(c: &C, chain: Seq<Node>, key: Seq<u8>) -> int {
    rank(c, entries_of(chain), key) as int
}

/// In a sorted chain the nodes before a key are the head and the first entries.
pub proof fn lemma_below<C: Comparator>(c: &C, chain: Seq<Node>, key: Seq<u8>)
    requires
        chain.len() >= 1,
        is_sorted(c, entries_of(chain)),
        all_valid(c, entries_of(chain)),
        chain.len() > 1 ==> c.valid_key(key),
    ensures
        0 <= last_below(c, chain, key) < chain.len(),
        forall|p: int|
            0 <= p < chain.len() ==> (#[trigger] below(c, chain, p, key) <==> p <= last_below(
                c,
                chain,
                key,
            )),
{
    let entries = entries_of(chain);
    law_rank_splits(c, entries, key);
    assert forall|p: int| 0 <= p < chain.len() implies (#[trigger] below(c, chain, p, key) <==> p
        <= last_below(c, chain, key)) by {
        if p > 0 {
            assert(entries[p - 1] == chain[p].entry());
        }
    }
}

/// `x` is a node before `key` that takes part in `level`.
pub open spec fn node_before<C: Comparator>(
    c: &C,
    chain: Seq<Node>,
    x: usize,
    key: Seq<u8>,
    level: int,
) -> bool {
    let p = index_of(chain, x);
    &&& has_node(chain, x)
    &&& 0 <= p <= last_below(c, chain, key)
    &&& p < chain.len()
    &&& chain[p].addr == x
    &&& level < chain[p].height
}

/// `x` is no node, or one that does not come before `key`.
pub open spec fn node_after<C: Comparator>(
    c: &C,
    chain: Seq<Node>,
    x: usize,
    key: Seq<u8>,
) -> bool {
    let p = index_of(chain, x);
    x != NULL ==> {
        &&& has_node(chain, x)
        &&& last_below(c, chain, key) < p < chain.len()
        &&& chain[p].addr == x
    }
}

/// The chain with a node put where its key falls.
pub open spec fn with_node<C: Comparator>(c: &C, chain: Seq<Node>, n: Node) -> Seq<Node> {
    chain.insert(last_below(c, chain, n.key) + 1, n)
}

/// The entries of a chain with a node put in are those of the chain with the
/// entry of the node put in.
pub proof fn lemma_with_node_entries<C: Comparator>(c: &C, chain: Seq<Node>, n: Node)
    requires
        chain.len() >= 1,
        is_sorted(c, entries_of(chain)),
        all_valid(c, entries_of(chain)),
        c.valid_key(n.key),
    ensures
        0 <= last_below(c, chain, n.key) < chain.len(),
        entries_of(with_node(c, chain, n)) == with_entry(c, entries_of(chain), n.entry()),
{
    lemma_below(c, chain, n.key);
    assert(entries_of(with_node(c, chain, n)) =~= with_entry(c, entries_of(chain), n.entry()));
}

/// What was found around a key stays before and after it when some node is put
/// into the chain meanwhile.
pub proof fn law_splice_survives_insert<C: Comparator>(
    c: &C,
    memory: Map<int, u8>,
    chain: Seq<Node>,
    n: Node,
    prev: usize,
    next: usize,
    key: Seq<u8>,
    level: int,
)
    requires
        chain.len() >= 1,
        is_sorted(c, entries_of(chain)),
        all_valid(c, entries_of(chain)),
        c.valid_key(n.key),
        c.valid_key(key),
        laid_out(memory, with_node(c, chain, n)),
        node_before(c, chain, prev, key, level),
        node_after(c, chain, next, key),
    ensures
        node_before(c, with_node(c, chain, n), prev, key, level),
        node_after(c, with_node(c, chain, n), next, key),
{
    let entries = entries_of(chain);
    let after = with_node(c, chain, n);
    let r = rank(c, entries, key) as int;
    let rn = rank(c, entries, n.key) as int;
    let at = rn + 1;
    lemma_with_node_entries(c, chain, n);
    law_rank_splits(c, entries, key);
    law_rank_splits(c, entries, n.key);
    law_rank_counts(c, entries, rn, n.entry(), key);
    if c.precedes(n.key, key) {
        if r < rn {
            lemma_transitive(c, entries[r].key, n.key, key);
        }
    } else if rn < r {
        c.law_cotransitive(entries[rn].key, n.key, key);
    }
    let p = index_of(chain, prev);
    assert(after[shifted(p, at)] == chain[p]);
    lemma_index(memory, after, shifted(p, at));
    if next != NULL {
        let q = index_of(chain, next);
        assert(after[shifted(q, at)] == chain[q]);
        lemma_index(memory, after, shifted(q, at));
    }
}

/// What was found around a key stays before and after it when some node is
/// linked at one level more meanwhile.
pub proof fn law_splice_survives_link<C: Comparator>(
    c: &C,
    memory: Map<int, u8>,
    chain: Seq<Node>,
    x: int,
    prev: usize,
    next: usize,
    key: Seq<u8>,
    level: int,
)
    requires
        0 <= x < chain.len(),
        laid_out(memory, raised(chain, x)),
        node_before(c, chain, prev, key, level),
        node_after(c, chain, next, key),
    ensures
        node_before(c, raised(chain, x), prev, key, level),
        node_after(c, raised(chain, x), next, key),
{
    let after = raised(chain, x);
    lemma_raised_entries(chain, x);
    let p = index_of(chain, prev);
    assert(after[p].addr == chain[p].addr);
    lemma_index(memory, after, p);
    if next != NULL {
        let q = index_of(chain, next);
        assert(after[q].addr == chain[q].addr);
        lemma_index(memory, after, q);
    }
}

/// The height of a node is no part of the entries.
pub proof fn lemma_raised_entries(chain: Seq<Node>, x: int)
    requires
        0 <= x < chain.len(),
    ensures
        entries_of(raised(chain, x)) == entries_of(chain),
{
    assert(entries_of(raised(chain, x)) =~= entries_of(chain));
}

} // verus!
