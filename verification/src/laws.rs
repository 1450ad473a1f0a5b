//! What the operations of a list promise together.

use crate::arena::Arena;
use crate::chain::{leads_through, shifted};
use crate::common::{
    internal_key, law_internal_key_parts, law_packed_order, packed, trailer_of, user_key_of,
    TRAILER_LEN, VALUE_TYPE_FOR_SEEK,
};
use crate::comparator::{
    bytes_precede, internal_precedes, lemma_bytes_asymmetric,
    lemma_bytes_total, Comparator, DefaultComparator,
};
use crate::inline_skiplist::{addresses, entries_at, placed_in, InlineSkipList, MAX_HEIGHT};
use crate::node::{next_of, NULL};
use crate::options::{ColumnFamilyOptions, TableFactory};
use crate::order::{
    all_distinct, all_valid, before, equal_keys, has_equal, is_found, is_found_back,
    is_found_for_prev, is_sorted, law_rank_counts, law_rank_splits, law_with_entry_sorted,
    lemma_before_rank, lemma_filter_all, lemma_filter_alike, lemma_filter_insert,
    lemma_filter_twice, lemma_found_not_before, lemma_front, lemma_irreflexive,
    lemma_rank_of_all_or_none, lemma_rank_of_parts, lemma_transitive, lemma_without_heights,
    level_entries, rank, takes_part, with_entries, with_entry, within, without_heights, Entry,
};
use vstd::bytes::{spec_u64_from_le_bytes, spec_u64_to_le_bytes};
use vstd::prelude::*;
use vstd::std_specs::cmp::PartialEqSpec;

verus! {

/// A write adds its entry and leaves all others as they are and where they are.
pub proof fn law_write_adds_one<C: Comparator>(c: &C, entries: Seq<Entry>, entry: Entry)
    requires
        is_sorted(c, entries),
        all_valid(c, entries),
        c.valid_key(entry.key),
    ensures
        rank(c, entries, entry.key) <= entries.len(),
        with_entry(c, entries, entry).len() == entries.len() + 1,
        with_entry(c, entries, entry)[rank(c, entries, entry.key) as int] == entry,
        with_entry(c, entries, entry).remove(rank(c, entries, entry.key) as int) == entries,
{
    law_rank_splits(c, entries, entry.key);
    let r = rank(c, entries, entry.key) as int;
    assert(with_entry(c, entries, entry).remove(r) =~= entries);
}

/// Two writes whose keys differ can be done in either order.
pub proof fn law_writes_commute<C: Comparator>(c: &C, entries: Seq<Entry>, a: Entry, b: Entry)
    requires
        is_sorted(c, entries),
        all_valid(c, entries),
        c.valid_key(a.key),
        c.valid_key(b.key),
        !equal_keys(c, a.key, b.key),
    ensures
        with_entry(c, with_entry(c, entries, a), b) == with_entry(
            c,
            with_entry(c, entries, b),
            a,
        ),
{
    if c.precedes(a.key, b.key) {
        lemma_writes_commute(c, entries, a, b);
    } else {
        lemma_writes_commute(c, entries, b, a);
    }
}

/// `law_writes_commute` where the key of `a` precedes that of `b`.
proof fn lemma_writes_commute<C: Comparator>(c: &C, entries: Seq<Entry>, a: Entry, b: Entry)
    requires
        is_sorted(c, entries),
        all_valid(c, entries),
        c.valid_key(a.key),
        c.valid_key(b.key),
        c.precedes(a.key, b.key),
    ensures
        with_entry(c, with_entry(c, entries, a), b) == with_entry(
            c,
            with_entry(c, entries, b),
            a,
        ),
{
    let ra = rank(c, entries, a.key) as int;
    let rb = rank(c, entries, b.key) as int;
    law_rank_splits(c, entries, a.key);
    law_rank_splits(c, entries, b.key);
    c.law_asymmetric(a.key, b.key);
    law_rank_counts(c, entries, ra, a, b.key);
    law_rank_counts(c, entries, rb, b, a.key);
    if rb < ra {
        assert(c.precedes(entries[rb].key, a.key));
        lemma_transitive(c, entries[rb].key, a.key, b.key);
    }
    assert(entries.insert(ra, a).insert(rb + 1, b) =~= entries.insert(rb, b).insert(ra, a));
}

/// Writes whose keys all differ can be done in any order, and linked at any
/// heights: keys and values come out the same.
pub proof fn law_writes_in_any_order<C: Comparator>(
    c: &C,
    entries: Seq<Entry>,
    one: Seq<Entry>,
    other: Seq<Entry>,
)
    requires
        is_sorted(c, entries),
        all_valid(c, entries),
        all_valid(c, one),
        all_distinct(c, one),
        without_heights(one).to_multiset() == without_heights(other).to_multiset(),
    ensures
        without_heights(with_entries(c, entries, one)) == without_heights(
            with_entries(c, entries, other),
        ),
{
    let flat = without_heights(entries);
    let a = without_heights(one);
    let b = without_heights(other);
    lemma_heights_do_not_matter(c, entries, one);
    lemma_heights_do_not_matter(c, entries, other);
    lemma_without_heights(c, entries);
    lemma_without_heights(c, one);
    lemma_writes_in_any_order(c, flat, a, b);
}

/// `law_writes_in_any_order` for writes that agree in the heights too.
proof fn lemma_writes_in_any_order<C: Comparator>(
    c: &C,
    entries: Seq<Entry>,
    one: Seq<Entry>,
    other: Seq<Entry>,
)
    requires
        is_sorted(c, entries),
        all_valid(c, entries),
        all_valid(c, one),
        all_distinct(c, one),
        one.to_multiset() == other.to_multiset(),
    ensures
        with_entries(c, entries, one) == with_entries(c, entries, other),
    decreases one.len(),
{
    one.to_multiset_ensures();
    other.to_multiset_ensures();
    if one.len() > 0 {
        let front = one.drop_last();
        let last = one.last();
        let n = one.len() - 1;
        assert(one[n] == last);
        assert(one.contains(last));
        assert(other.to_multiset().count(last) > 0);
        assert(other.contains(last));
        let k = choose|k: int| 0 <= k < other.len() && other[k] == last;
        let rest = other.remove(k);
        assert(one.remove(n) =~= front);
        assert(rest.to_multiset() == front.to_multiset());
        front.to_multiset_ensures();
        rest.to_multiset_ensures();
        assert forall|j: int| 0 <= j < other.len() implies c.valid_key(
            (#[trigger] other[j]).key,
        ) && (j != k ==> !equal_keys(c, other[j].key, last.key)) by {
            if j != k {
                let m = if j < k { j } else { j - 1 };
                assert(rest[m] == other[j]);
                assert(rest.contains(other[j]));
                assert(front.to_multiset().count(other[j]) > 0);
                assert(front.contains(other[j]));
                let i = choose|i: int| 0 <= i < front.len() && front[i] == other[j];
                assert(one[i] == other[j]);
            }
        }
        lemma_write_moved(c, entries, other, k);
        lemma_front(c, one);
        lemma_writes_in_any_order(c, entries, front, rest);
        assert(rest.push(last).drop_last() =~= rest);
    }
}

/// A write whose key differs from those of the writes after it can be done last.
proof fn lemma_write_moved<C: Comparator>(
    c: &C,
    entries: Seq<Entry>,
    writes: Seq<Entry>,
    k: int,
)
    requires
        is_sorted(c, entries),
        all_valid(c, entries),
        all_valid(c, writes),
        0 <= k < writes.len(),
        forall|j: int|
            k < j < writes.len() ==> !equal_keys(c, (#[trigger] writes[j]).key, writes[k].key),
    ensures
        with_entries(c, entries, writes) == with_entries(
            c,
            entries,
            writes.remove(k).push(writes[k]),
        ),
    decreases writes.len(),
{
    let x = writes[k];
    if k == writes.len() - 1 {
        assert(writes.remove(k).push(x) =~= writes);
    } else {
        let front = writes.drop_last();
        let y = writes.last();
        lemma_front(c, writes);
        assert(front[k] == x);
        lemma_write_moved(c, entries, front, k);
        let rest = front.remove(k);
        assert forall|i: int| 0 <= i < rest.len() implies c.valid_key((#[trigger] rest[i]).key) by {
            let m = if i < k { i } else { i + 1 };
            assert(rest[i] == writes[m]);
        }
        lemma_with_entries_sorted(c, entries, rest);
        law_writes_commute(c, with_entries(c, entries, rest), x, y);
        let so_far = with_entries(c, entries, rest);
        assert(rest.push(x).drop_last() =~= rest);
        assert(with_entries(c, entries, rest.push(x)) == with_entry(c, so_far, x));
        assert(writes.remove(k) =~= rest.push(y));
        assert(rest.push(y).drop_last() =~= rest);
        assert(with_entries(c, entries, rest.push(y)) == with_entry(c, so_far, y));
        assert(rest.push(y).push(x).drop_last() =~= rest.push(y));
    }
}

/// Writes keep entries in order.
proof fn lemma_with_entries_sorted<C: Comparator>(
    c: &C,
    entries: Seq<Entry>,
    writes: Seq<Entry>,
)
    requires
        is_sorted(c, entries),
        all_valid(c, entries),
        all_valid(c, writes),
    ensures
        is_sorted(c, with_entries(c, entries, writes)),
        all_valid(c, with_entries(c, entries, writes)),
    decreases writes.len(),
{
    if writes.len() > 0 {
        let front = writes.drop_last();
        lemma_front(c, writes);
        lemma_with_entries_sorted(c, entries, front);
        law_with_entry_sorted(c, with_entries(c, entries, front), writes.last());
    }
}

/// Where entries go does not depend on heights.
proof fn lemma_heights_do_not_matter<C: Comparator>(
    c: &C,
    entries: Seq<Entry>,
    writes: Seq<Entry>,
)
    ensures
        without_heights(with_entries(c, entries, writes)) == with_entries(
            c,
            without_heights(entries),
            without_heights(writes),
        ),
    decreases writes.len(),
{
    let flat = without_heights(writes);
    if writes.len() == 0 {
        assert(flat.len() == 0);
    } else {
        let front = writes.drop_last();
        let last = writes.last();
        let so_far = with_entries(c, entries, front);
        lemma_heights_do_not_matter(c, entries, front);
        assert(flat.drop_last() =~= without_heights(front));
        lemma_rank_without_heights(c, so_far, last.key);
        assert(without_heights(with_entry(c, so_far, last)) =~= with_entry(
            c,
            without_heights(so_far),
            flat.last(),
        ));
    }
}

/// Ranks do not depend on heights.
proof fn lemma_rank_without_heights<C: Comparator>(c: &C, entries: Seq<Entry>, key: Seq<u8>)
    ensures
        rank(c, without_heights(entries), key) == rank(c, entries, key),
        rank(c, entries, key) <= entries.len(),
    decreases entries.len(),
{
    if entries.len() > 0 {
        lemma_rank_without_heights(c, entries.drop_last(), key);
        assert(without_heights(entries).drop_last() =~= without_heights(entries.drop_last()));
    }
}

/// Where no two entries have equal keys, a search finds the entry behind those
/// that precede the key.
pub proof fn law_search_without_equals<C: Comparator>(
    c: &C,
    entries: Seq<Entry>,
    key: Seq<u8>,
    found: Option<int>,
)
    requires
        is_sorted(c, entries),
        all_valid(c, entries),
        all_distinct(c, entries),
        entries.len() > 0 ==> c.valid_key(key),
        is_found(c, entries, key, found),
    ensures
        found == within(rank(c, entries, key) as int, entries.len()),
{
    law_rank_splits(c, entries, key);
    let r = rank(c, entries, key) as int;
    if found is Some {
        let i = found->0;
        lemma_found_not_before(c, entries, key, i);
        if r < i {
            assert(!equal_keys(c, entries[r].key, entries[i].key));
            c.law_cotransitive(entries[r].key, key, entries[i].key);
        }
    }
}

/// Each level is a part of the levels below it, in the same order; a level that
/// all entries take part in is the whole.
pub proof fn law_levels_nest<C: Comparator>(c: &C, entries: Seq<Entry>, low: int, high: int)
    requires
        is_sorted(c, entries),
        all_valid(c, entries),
        low <= high,
    ensures
        level_entries(level_entries(entries, low), high) == level_entries(entries, high),
        is_sorted(c, level_entries(entries, low)),
        all_valid(c, level_entries(entries, low)),
        (forall|i: int| 0 <= i < entries.len() ==> (#[trigger] entries[i]).height > low)
            ==> level_entries(entries, low) == entries,
{
    lemma_filter_twice(entries, takes_part(low), takes_part(high));
    if forall|i: int| 0 <= i < entries.len() ==> (#[trigger] entries[i]).height > low {
        lemma_filter_all(entries, takes_part(low));
    }
    let part = level_entries(entries, low);
    let at = lemma_filter_alike(entries, entries, takes_part(low), takes_part(low));
    assert forall|i: int, j: int| 0 <= i < j < part.len() implies !c.precedes(
        (#[trigger] part[j]).key,
        (#[trigger] part[i]).key,
    ) by {
        assert(at[i] < at[j]);
    }
    assert forall|i: int| 0 <= i < part.len() implies c.valid_key((#[trigger] part[i]).key) by {
        assert(0 <= at[i] < entries.len());
    }
}

/// A write changes the levels of its entry, by the entry put where its key falls,
/// and no level above.
pub proof fn law_write_on_levels<C: Comparator>(
    c: &C,
    entries: Seq<Entry>,
    entry: Entry,
    level: int,
)
    requires
        is_sorted(c, entries),
        all_valid(c, entries),
        c.valid_key(entry.key),
    ensures
        level_entries(with_entry(c, entries, entry), level) == (if entry.height > level {
            with_entry(c, level_entries(entries, level), entry)
        } else {
            level_entries(entries, level)
        }),
        rank(c, level_entries(entries, level), entry.key) == level_entries(
            entries.take(rank(c, entries, entry.key) as int),
            level,
        ).len(),
{
    let keep = takes_part(level);
    let r = rank(c, entries, entry.key) as int;
    law_rank_splits(c, entries, entry.key);
    let a = entries.take(r);
    let b = entries.skip(r);
    lemma_filter_insert(entries, r, entry, keep);
    lemma_rank_of_parts(c, a.filter(keep), b.filter(keep), entry.key);
    lemma_rank_of_all_or_none(c, a.filter(keep), entry.key);
    lemma_rank_of_all_or_none(c, b.filter(keep), entry.key);
    let at_a = lemma_filter_alike(a, a, keep, keep);
    let at_b = lemma_filter_alike(b, b, keep, keep);
    assert forall|k: int| 0 <= k < a.filter(keep).len() implies c.precedes(
        (#[trigger] a.filter(keep)[k]).key,
        entry.key,
    ) by {
        assert(a[at_a[k]] == entries[at_a[k]]);
    }
    assert forall|k: int| 0 <= k < b.filter(keep).len() implies !c.precedes(
        (#[trigger] b.filter(keep)[k]).key,
        entry.key,
    ) by {
        assert(b[at_b[k]] == entries[r + at_b[k]]);
    }
}

/// The nodes of a level hold the entries that take part in it, in order.
pub proof fn law_level_holds_entries(nodes: Seq<(usize, Entry)>, level: int)
    ensures
        entries_at(nodes.filter(placed_in(level))) == level_entries(entries_at(nodes), level),
{
    let entries = entries_at(nodes);
    let at = lemma_filter_alike(nodes, entries, placed_in(level), takes_part(level));
    let a = entries_at(nodes.filter(placed_in(level)));
    let b = level_entries(entries, level);
    assert forall|k: int| 0 <= k < a.len() implies #[trigger] a[k] == b[k] by {
        assert(0 <= at[k] < nodes.len());
    }
    assert(a =~= b);
}

/// The nodes of each level are a part of those of the levels below it, in the same
/// order, and the lowest level has all of them.
pub proof fn law_level_nodes_nest<C: Comparator, A: Arena>(
    list: &InlineSkipList<C, A>,
    low: int,
    high: int,
)
    requires
        list.wf(),
        low <= high,
    ensures
        list.level(low).filter(placed_in(high)) == list.level(high),
        list.level(0) == list.nodes(),
        entries_at(list.level(low)) == level_entries(list@, low),
{
    list.law_in_order();
    lemma_filter_twice(list.nodes(), placed_in(low), placed_in(high));
    lemma_filter_all(list.nodes(), placed_in(0));
    lemma_level_entries(list, low);
}

/// A write puts one node into each level of its entry, where the key falls, and
/// leaves all other nodes, and all nodes of the levels above, as they are and
/// where they are.
pub proof fn law_write_links_one_node<C: Comparator, A: Arena>(
    list: &InlineSkipList<C, A>,
    after: &InlineSkipList<C, A>,
    entry: Entry,
    level: int,
)
    requires
        list.wf(),
        after.wrote(list, entry),
        list.comparator().valid_key(entry.key),
    ensures
        ({
            let c = &list.comparator();
            let at = rank(c, level_entries(list@, level), entry.key) as int;
            let node = (after.node_at(rank(c, list@, entry.key) as int), entry);
            after.level(level) == (if entry.height > level {
                list.level(level).insert(at, node)
            } else {
                list.level(level)
            })
        }),
{
    let c = &list.comparator();
    let r = rank(c, list@, entry.key) as int;
    let node = (after.node_at(r), entry);
    list.law_in_order();
    law_rank_splits(c, list@, entry.key);
    assert(after.nodes() =~= list.nodes().insert(r, node)) by {
        assert forall|i: int| 0 <= i < list@.len() implies #[trigger] after.nodes()[shifted(i, r)]
            == list.nodes()[i] by {
            assert(after.node_at(shifted(i, r)) == list.node_at(i));
        }
        assert forall|j: int| 0 <= j < after.nodes().len() implies #[trigger] after.nodes()[j]
            == list.nodes().insert(r, node)[j] by {
            if j < r {
                assert(shifted(j, r) == j);
                assert(after.nodes()[shifted(j, r)] == list.nodes()[j]);
            } else if j > r {
                assert(shifted(j - 1, r) == j);
                assert(after.nodes()[shifted(j - 1, r)] == list.nodes()[j - 1]);
            }
        }
    }
    lemma_filter_insert(list.nodes(), r, node, placed_in(level));
    law_level_holds_entries(list.nodes().take(r), level);
    assert(entries_at(list.nodes().take(r)) =~= list@.take(r));
    law_write_on_levels(c, list@, entry, level);
}

/// A write raises the number of levels in use to the height of its entry, if that
/// is greater, and never lowers it.
pub proof fn law_levels_in_use<C: Comparator, A: Arena>(
    list: &InlineSkipList<C, A>,
    after: &InlineSkipList<C, A>,
    entry: Entry,
)
    requires
        list.wf(),
        after.wf(),
        after.wrote(list, entry),
    ensures
        1 <= list.levels() <= after.levels() <= MAX_HEIGHT,
        1 <= entry.height <= after.levels(),
        after.levels() == list.levels() || after.levels() == entry.height,
{
    list.law_in_order();
    after.law_in_order();
    let r = rank(&list.comparator(), list@, entry.key) as int;
    lemma_rank_without_heights(&list.comparator(), list@, entry.key);
    assert(after@[r] == entry);
}

/// What the context of a write holds beforehand has no say in where the entry is
/// linked: the same write into lists with the same entries, done with two contexts,
/// gives the same entries on the same levels. Where the nodes are at the same
/// addresses too, all other nodes stay so.
pub proof fn law_splice_has_no_say<C: Comparator, A: Arena>(
    a: &InlineSkipList<C, A>,
    b: &InlineSkipList<C, A>,
    one: &InlineSkipList<C, A>,
    other: &InlineSkipList<C, A>,
    entry: Entry,
)
    requires
        a.wf(),
        b.wf(),
        a@ == b@,
        a.levels() == b.levels(),
        a.comparator() == b.comparator(),
        a.comparator().valid_key(entry.key),
        one.wrote(a, entry),
        other.wrote(b, entry),
    ensures
        one@ == other@,
        one.levels() == other.levels(),
        forall|level: int| #[trigger]
            entries_at(one.level(level)) == entries_at(other.level(level)),
        (forall|i: int| -1 <= i <= a@.len() ==> #[trigger] a.node_at(i) == b.node_at(i))
            ==> forall|i: int|
            -1 <= i <= one@.len() && i != rank(&a.comparator(), a@, entry.key)
                ==> #[trigger] one.node_at(i) == other.node_at(i),
{
    let r = rank(&a.comparator(), a@, entry.key) as int;
    a.law_in_order();
    law_rank_splits(&a.comparator(), a@, entry.key);
    if forall|i: int| -1 <= i <= a@.len() ==> #[trigger] a.node_at(i) == b.node_at(i) {
        assert forall|i: int| -1 <= i <= one@.len() && i != r implies #[trigger] one.node_at(i)
            == other.node_at(i) by {
            let j = if i < r { i } else { i - 1 };
            assert(shifted(j, r) == i);
            assert(one.node_at(shifted(j, r)) == a.node_at(j));
            assert(other.node_at(shifted(j, r)) == b.node_at(j));
        }
    }
    assert forall|level: int| #[trigger] entries_at(one.level(level)) == entries_at(
        other.level(level),
    ) by {
        lemma_level_entries(one, level);
        lemma_level_entries(other, level);
    }
}

/// The entries of the nodes of a level are the entries that take part in it.
proof fn lemma_level_entries<C: Comparator, A: Arena>(list: &InlineSkipList<C, A>, level: int)
    ensures
        entries_at(list.level(level)) == level_entries(list@, level),
{
    law_level_holds_entries(list.nodes(), level);
    assert(entries_at(list.nodes()) =~= list@);
}

/// Linking a node puts it, once, into the nodes that the links of each of its
/// levels lead through, and leaves the levels above as they are.
pub proof fn law_insert_links_one_node<C: Comparator, A: Arena>(
    list: &InlineSkipList<C, A>,
    after: &InlineSkipList<C, A>,
    x: usize,
    height: nat,
    level: int,
)
    requires
        list.unlinked(x, height),
        after.wf(),
        after@ == list@,
        forall|i: int|
            -1 <= i <= list@.len() ==> #[trigger] after.node_at(i) == list.node_at(i),
        0 <= level < MAX_HEIGHT,
    ensures
        ({
            let i = list.position_of(x)->0;
            let others = list.level_without(i, level);
            let at = rank(&list.comparator(), entries_at(others), list@[i].key) as int;
            &&& leads_through(
                list.arena().memory(),
                list.node_at(-1),
                level,
                addresses(others),
            )
            &&& leads_through(
                after.arena().memory(),
                after.node_at(-1),
                level,
                addresses(after.level(level)),
            )
            &&& list@[i].height == height
            &&& after.level(level) == (if height > level {
                others.insert(at, (x, list@[i]))
            } else {
                others
            })
        }),
{
    let i = list.position_of(x)->0;
    let c = &list.comparator();
    let e = list@[i];
    let nodes = list.nodes().remove(i);
    let entries = list@.remove(i);
    list.law_links_pass_by(x, height, level);
    after.law_links(level);
    assert(after.nodes() =~= nodes.insert(i, (x, e))) by {
        assert(after.node_at(i) == list.node_at(i));
    }
    lemma_filter_insert(nodes, i, (x, e), placed_in(level));
    law_level_holds_entries(nodes, level);
    law_level_holds_entries(nodes.take(i), level);
    assert(entries_at(nodes) =~= entries);
    assert(entries_at(nodes.take(i)) =~= entries.take(i));
    list.law_unlinked_rank(x, height);
    law_rank_counts(c, entries, i, e, e.key);
    lemma_irreflexive(c, e.key);
    assert(entries.insert(i, e) =~= list@);
    assert forall|j: int| 0 <= j < entries.len() implies #[trigger] entries[j] == list@[if j < i {
        j
    } else {
        j + 1
    }] by {}
    law_write_on_levels(c, entries, e, level);
}

/// A list without entries has no link at any level, and no search finds anything
/// in it.
pub proof fn law_empty_list<C: Comparator, A: Arena>(
    list: &InlineSkipList<C, A>,
    key: Seq<u8>,
    found: Option<int>,
)
    requires
        list.wf(),
        list@.len() == 0,
    ensures
        forall|level: int|
            0 <= level < MAX_HEIGHT ==> #[trigger] next_of(
                list.arena().memory(),
                list.node_at(-1) as int,
                level,
            ) == NULL,
        is_found(&list.comparator(), list@, key, found) <==> found is None,
        is_found_for_prev(&list.comparator(), list@, key, found) <==> found is None,
        forall|sought: Seq<u8>|
            is_found_back(&list.comparator(), list@, sought, key, found) ==> found is None,
{
    assert forall|level: int| 0 <= level < MAX_HEIGHT implies #[trigger] next_of(
        list.arena().memory(),
        list.node_at(-1) as int,
        level,
    ) == NULL by {
        list.law_links(level);
        reveal(Seq::filter);
        assert(list.level(level).len() == 0);
    }
    assert(before(0) is None);
}

/// Where no two entries have equal keys, the lowest link of the last node before
/// a key goes to what a search for the key finds.
pub proof fn law_search_follows_last_before<C: Comparator, A: Arena>(
    list: &InlineSkipList<C, A>,
    key: Seq<u8>,
    found: Option<int>,
)
    requires
        list.wf(),
        all_distinct(&list.comparator(), list@),
        list@.len() > 0 ==> list.comparator().valid_key(key),
        is_found(&list.comparator(), list@, key, found),
    ensures
        ({
            let last_before = list.node_at(rank(&list.comparator(), list@, key) - 1);
            next_of(list.arena().memory(), last_before as int, 0) == list.node_at(
                match found {
                    Some(i) => i,
                    None => list@.len() as int,
                },
            )
        }),
{
    let c = &list.comparator();
    list.law_in_order();
    law_rank_splits(c, list@, key);
    law_search_without_equals(c, list@, key, found);
    list.law_lowest_links(rank(c, list@, key) - 1);
}

/// A search for a key that was not there before finds what was written.
pub proof fn law_write_then_seek<C: Comparator>(
    c: &C,
    entries: Seq<Entry>,
    entry: Entry,
    found: Option<int>,
)
    requires
        is_sorted(c, entries),
        all_valid(c, entries),
        c.valid_key(entry.key),
        !has_equal(c, entries, entry.key),
        is_found(c, with_entry(c, entries, entry), entry.key, found),
    ensures
        found == Some(rank(c, entries, entry.key) as int),
        with_entry(c, entries, entry)[found->0] == entry,
{
    let after = with_entry(c, entries, entry);
    let r = rank(c, entries, entry.key) as int;
    law_write_adds_one(c, entries, entry);
    law_with_entry_sorted(c, entries, entry);
    lemma_irreflexive(c, entry.key);
    assert(equal_keys(c, after[r].key, entry.key));
    match found {
        Some(i) => {
            if i != r {
                let j = if i < r { i } else { i - 1 };
                assert(after[i] == entries[j]);
                assert(!equal_keys(c, after[i].key, entry.key));
            }
        },
        None => {},
    }
}

/// A search for a key that was written, be it once or more often, finds an
/// entry whose key equals it.
pub proof fn law_seek_finds_equal<C: Comparator>(
    c: &C,
    entries: Seq<Entry>,
    key: Seq<u8>,
    found: Option<int>,
)
    requires
        is_sorted(c, entries),
        all_valid(c, entries),
        c.valid_key(key),
        has_equal(c, entries, key),
        is_found(c, entries, key, found),
    ensures
        found is Some,
        equal_keys(c, entries[found->0].key, key),
{
    lemma_before_rank(c, entries, key);
}

/// A write that falls before the sought key, or after what the search found,
/// does not change what it finds.
pub proof fn law_write_elsewhere_keeps_seek<C: Comparator>(
    c: &C,
    entries: Seq<Entry>,
    entry: Entry,
    key: Seq<u8>,
    found: Option<int>,
)
    requires
        is_sorted(c, entries),
        all_valid(c, entries),
        c.valid_key(entry.key),
        c.valid_key(key),
        is_found(c, entries, key, found),
        c.precedes(entry.key, key) || (found is Some && c.precedes(
            entries[found->0].key,
            entry.key,
        )),
    ensures
        ({
            let after = with_entry(c, entries, entry);
            match found {
                Some(i) => {
                    let j = if c.precedes(entry.key, key) {
                        i + 1
                    } else {
                        i
                    };
                    is_found(c, after, key, Some(j)) && after[j] == entries[i]
                },
                None => is_found(c, after, key, None),
            }
        }),
{
    let after = with_entry(c, entries, entry);
    let r = rank(c, entries, entry.key) as int;
    law_rank_splits(c, entries, entry.key);
    law_rank_splits(c, entries, key);
    law_rank_counts(c, entries, r, entry, key);
    if c.precedes(entry.key, key) {
        c.law_asymmetric(entry.key, key);
    }
    match found {
        Some(i) => {
            lemma_found_not_before(c, entries, key, i);
            let j = if c.precedes(entry.key, key) {
                i + 1
            } else {
                i
            };
            if c.precedes(entry.key, key) {
                // The entry falls before the found one, which does not precede the key.
                if i < r {
                    assert(c.precedes(entries[i].key, entry.key));
                    lemma_transitive(c, entries[i].key, entry.key, key);
                }
            } else {
                // The found entry precedes the new one, so the new one is after the key.
                assert(i < r);
            }
            assert(after[j] == entries[i]);
            assert(!equal_keys(c, entry.key, key)) by {
                if !c.precedes(entry.key, key) {
                    c.law_cotransitive(entries[i].key, key, entry.key);
                }
            }
            assert forall|k: int| 0 <= k < after.len() && k != j && equal_keys(
                c,
                (#[trigger] after[k]).key,
                key,
            ) implies k != r && (k < r ==> after[k] == entries[k]) && (k > r ==> after[k]
                == entries[k - 1]) by {}
            if equal_keys(c, entries[i].key, key) {
                assert forall|k: int| 0 <= k < after.len() && k != j && equal_keys(
                    c,
                    (#[trigger] after[k]).key,
                    key,
                ) implies after[k].height < after[j].height || (after[k].height
                    == after[j].height && j < k) by {
                    let m = if k < r { k } else { k - 1 };
                    assert(after[k] == entries[m]);
                }
            } else {
                assert forall|k: int| 0 <= k < after.len() implies !equal_keys(
                    c,
                    (#[trigger] after[k]).key,
                    key,
                ) by {
                    if k < r {
                        assert(after[k] == entries[k]);
                    } else if k > r {
                        assert(after[k] == entries[k - 1]);
                    }
                }
            }
        },
        None => {},
    }
}

/// Going back from an entry leads to the one before it, unless that one's key is
/// equal: then it leads past all entries whose keys are.
pub proof fn law_prev_steps_back<C: Comparator>(c: &C, entries: Seq<Entry>, i: int)
    requires
        is_sorted(c, entries),
        all_valid(c, entries),
        0 <= i < entries.len(),
    ensures
        rank(c, entries, entries[i].key) <= i,
        i > 0 && !equal_keys(c, entries[i - 1].key, entries[i].key) ==> before(
            rank(c, entries, entries[i].key) as int,
        ) == Some(i - 1),
        before(rank(c, entries, entries[i].key) as int) matches Some(j) ==> c.precedes(
            entries[j].key,
            entries[i].key,
        ),
        forall|k: int|
            rank(c, entries, entries[i].key) <= k <= i ==> equal_keys(
                c,
                (#[trigger] entries[k]).key,
                entries[i].key,
            ),
{
    let key = entries[i].key;
    law_rank_splits(c, entries, key);
    lemma_irreflexive(c, key);
    assert(!c.precedes(entries[i].key, key));
    assert forall|k: int| rank(c, entries, key) <= k <= i implies equal_keys(
        c,
        (#[trigger] entries[k]).key,
        key,
    ) by {
        if k < i {
            assert(!c.precedes(entries[i].key, entries[k].key));
        }
    }
}

/// A search backward never ends at an entry after the key, and no entry between
/// the two is left out, except for entries whose keys equal that of the one it ends
/// at.
pub proof fn law_seek_for_prev_bounds<C: Comparator>(
    c: &C,
    entries: Seq<Entry>,
    key: Seq<u8>,
    found: Option<int>,
)
    requires
        is_sorted(c, entries),
        all_valid(c, entries),
        c.valid_key(key),
        is_found_for_prev(c, entries, key, found),
    ensures
        match found {
            Some(i) => {
                &&& 0 <= i < entries.len()
                &&& !c.precedes(key, entries[i].key)
                &&& forall|j: int|
                    i < j < entries.len() ==> !c.precedes((#[trigger] entries[j]).key, key)
                &&& forall|j: int|
                    i < j < entries.len() ==> c.precedes(key, (#[trigger] entries[j]).key)
                        || equal_keys(c, entries[j].key, entries[i].key)
            },
            None => forall|j: int|
                0 <= j < entries.len() ==> c.precedes(key, (#[trigger] entries[j]).key),
        },
{
    law_rank_splits(c, entries, key);
    lemma_before_rank(c, entries, key);
    if has_equal(c, entries, key) {
        law_seek_finds_equal(c, entries, key, found);
        let i = found->0;
        assert forall|j: int| i < j < entries.len() implies !c.precedes(
            (#[trigger] entries[j]).key,
            key,
        ) by {
            if c.precedes(entries[j].key, key) {
                assert(i < rank(c, entries, key));
                assert(c.precedes(entries[i].key, key));
            }
        }
        assert forall|j: int| i < j < entries.len() implies c.precedes(
            key,
            (#[trigger] entries[j]).key,
        ) || equal_keys(c, entries[j].key, entries[i].key) by {
            if c.precedes(entries[i].key, entries[j].key) {
                c.law_cotransitive(entries[i].key, key, entries[j].key);
            }
        }
    } else if found is None {
        assert forall|j: int| 0 <= j < entries.len() implies c.precedes(
            key,
            (#[trigger] entries[j]).key,
        ) by {
            assert(!c.precedes(entries[j].key, key));
            assert(!equal_keys(c, entries[j].key, key));
        }
    }
}

/// Among internal keys, a search for a user key as of a sequence number finds the
/// newest entry of the user key that is not newer than the number; where there
/// is none, it finds no entry of the user key.
pub proof fn law_seek_reads_snapshot(
    c: &DefaultComparator,
    entries: Seq<Entry>,
    user_key: Seq<u8>,
    sequence: u64,
    found: Option<int>,
)
    requires
        is_sorted(c, entries),
        all_valid(c, entries),
        is_found(
            c,
            entries,
            internal_key(user_key, sequence, VALUE_TYPE_FOR_SEEK),
            found,
        ),
    ensures
        ({
            let bound = packed(sequence, VALUE_TYPE_FOR_SEEK);
            &&& forall|j: int|
                0 <= j < entries.len() && user_key_of((#[trigger] entries[j]).key) == user_key
                    && trailer_of(entries[j].key) <= bound ==> {
                    &&& found matches Some(i)
                    &&& user_key_of(entries[i].key) == user_key
                    &&& trailer_of(entries[j].key) <= trailer_of(entries[i].key)
                }
            &&& found is Some && user_key_of(entries[found->0].key) == user_key ==> trailer_of(
                entries[found->0].key,
            ) <= bound
        }),
{
    let target = internal_key(user_key, sequence, VALUE_TYPE_FOR_SEEK);
    let bound = packed(sequence, VALUE_TYPE_FOR_SEEK);
    law_internal_key_parts(user_key, sequence, VALUE_TYPE_FOR_SEEK);
    law_rank_splits(c, entries, target);
    if found is Some {
        let i = found->0;
        lemma_found_not_before(c, entries, target, i);
        lemma_same_or_later(target, entries[i].key);
    }
    assert forall|j: int|
        0 <= j < entries.len() && user_key_of((#[trigger] entries[j]).key) == user_key
            && trailer_of(entries[j].key) <= bound implies {
        &&& found matches Some(i)
        &&& user_key_of(entries[i].key) == user_key
        &&& trailer_of(entries[j].key) <= trailer_of(entries[i].key)
    } by {
        lemma_bytes_irreflexive(user_key);
        assert(!internal_precedes(entries[j].key, target));
        assert(j >= rank(c, entries, target));
        assert(found is Some);
        let i = found->0;
        if !equal_keys(c, entries[i].key, target) {
            assert(i == rank(c, entries, target));
            if i < j {
                assert(!internal_precedes(entries[j].key, entries[i].key));
            }
        }
    }
}

/// No byte string precedes itself.
proof fn lemma_bytes_irreflexive(a: Seq<u8>)
    ensures
        !bytes_precede(a, a),
{
    if bytes_precede(a, a) {
        lemma_bytes_asymmetric(a, a);
    }
}

/// An internal key that does not precede another one has a later user key, or
/// the same and a trailer that is no greater.
proof fn lemma_same_or_later(a: Seq<u8>, b: Seq<u8>)
    requires
        !internal_precedes(b, a),
    ensures
        bytes_precede(user_key_of(a), user_key_of(b)) || (user_key_of(a) == user_key_of(b)
            && trailer_of(b) <= trailer_of(a)),
{
    if user_key_of(a) != user_key_of(b) {
        lemma_bytes_total(user_key_of(a), user_key_of(b));
    }
}

/// A write that is newer than every entry of its user key is what a search for
/// the user key finds from then on, as of its sequence number or a later one.
pub proof fn law_newest_write_is_read(
    c: &DefaultComparator,
    entries: Seq<Entry>,
    user_key: Seq<u8>,
    sequence: u64,
    kind: u8,
    value: Seq<u8>,
    height: nat,
    now: u64,
    found: Option<int>,
)
    requires
        is_sorted(c, entries),
        all_valid(c, entries),
        kind <= VALUE_TYPE_FOR_SEEK,
        sequence <= now < 0x100_0000_0000_0000,
        forall|j: int|
            0 <= j < entries.len() && user_key_of((#[trigger] entries[j]).key) == user_key
                ==> trailer_of(entries[j].key) < packed(sequence, kind),
        ({
            let entry = Entry { key: internal_key(user_key, sequence, kind), value, height };
            is_found(
                c,
                with_entry(c, entries, entry),
                internal_key(user_key, now, VALUE_TYPE_FOR_SEEK),
                found,
            )
        }),
    ensures
        ({
            let entry = Entry { key: internal_key(user_key, sequence, kind), value, height };
            found is Some && with_entry(c, entries, entry)[found->0] == entry
        }),
{
    let entry = Entry { key: internal_key(user_key, sequence, kind), value, height };
    let after = with_entry(c, entries, entry);
    let r = rank(c, entries, entry.key) as int;
    law_internal_key_parts(user_key, sequence, kind);
    law_packed_order(sequence, kind, now, VALUE_TYPE_FOR_SEEK);
    law_write_adds_one(c, entries, entry);
    law_with_entry_sorted(c, entries, entry);
    law_seek_reads_snapshot(c, after, user_key, now, found);
    assert(user_key_of(after[r].key) == user_key);
    let i = found->0;
    if i != r {
        let j = if i < r { i } else { i - 1 };
        assert(after[i] == entries[j]);
    }
}

/// Internal keys that neither precedes the other are the same bytes: no two writes
/// that differ in user key, sequence number or kind have equal keys.
pub proof fn law_equal_internal_keys_are_same(c: &DefaultComparator, a: Seq<u8>, b: Seq<u8>)
    requires
        c.valid_key(a),
        c.valid_key(b),
    ensures
        equal_keys(c, a, b) <==> a == b,
{
    lemma_irreflexive(c, a);
    if equal_keys(c, a, b) {
        lemma_same_or_later(a, b);
        lemma_same_or_later(b, a);
        vstd::bytes::lemma_auto_spec_u64_to_from_le_bytes();
        let ta = a.skip(a.len() - TRAILER_LEN);
        let tb = b.skip(b.len() - TRAILER_LEN);
        assert(spec_u64_to_le_bytes(spec_u64_from_le_bytes(ta)) == ta);
        assert(spec_u64_to_le_bytes(spec_u64_from_le_bytes(tb)) == tb);
        assert(a =~= user_key_of(a) + ta);
        assert(b =~= user_key_of(b) + tb);
    }
}

/// Equality of column family options is an equivalence.
pub proof fn law_options_equivalence<F: TableFactory + ?Sized>(
    a: ColumnFamilyOptions<F>,
    b: ColumnFamilyOptions<F>,
    c: ColumnFamilyOptions<F>,
)
    ensures
        a.eq_spec(&a),
        a.eq_spec(&b) ==> b.eq_spec(&a),
        a.eq_spec(&b) && b.eq_spec(&c) ==> a.eq_spec(&c),
{
}

} // verus!
