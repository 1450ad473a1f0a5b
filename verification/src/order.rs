//! Sorted entries: where a key falls among them, and what a search finds.

use crate::comparator::Comparator;
use vstd::prelude::*;

verus! {

/// An entry of a list: an internal key, a value, and the number of levels that
/// link the entry.
pub struct Entry {
    pub key: Seq<u8>,
    pub value: Seq<u8>,
    pub height: nat,
}

/// Neither key precedes the other.
pub open spec fn equal_keys<C: Comparator>(c: &C, a: Seq<u8>, b: Seq<u8>) -> bool {
    !c.precedes(a, b) && !c.precedes(b, a)
}

/// No entry precedes one that stands before it.
pub open spec fn is_sorted<C: Comparator>(c: &C, entries: Seq<Entry>) -> bool {
    forall|i: int, j: int|
        0 <= i < j < entries.len() ==> !c.precedes(
            (#[trigger] entries[j]).key,
            (#[trigger] entries[i]).key,
        )
}

/// The order speaks of the key of every entry.
pub open spec fn all_valid<C: Comparator>(c: &C, entries: Seq<Entry>) -> bool {
    forall|i: int| 0 <= i < entries.len() ==> c.valid_key((#[trigger] entries[i]).key)
}

/// How many entries precede `key`.
pub open spec fn rank<C: Comparator>(c: &C, entries: Seq<Entry>, key: Seq<u8>) -> nat
    decreases entries.len(),
{
    if entries.len() == 0 {
        0
    } else {
        rank(c, entries.drop_last(), key) + if c.precedes(entries.last().key, key) {
            1nat
        } else {
            0
        }
    }
}

/// `entries` with `entry` put where its key falls, before the entries whose
/// keys equal it.
pub open spec fn with_entry<C: Comparator>(c: &C, entries: Seq<Entry>, entry: Entry) -> Seq<
    Entry,
> {
    entries.insert(rank(c, entries, entry.key) as int, entry)
}

/// `entries` with the entries of `writes` put in one after the other.
pub open spec fn with_entries<C: Comparator>(c: &C, entries: Seq<Entry>, writes: Seq<Entry>) -> Seq<
    Entry,
>
    decreases writes.len(),
{
    if writes.len() == 0 {
        entries
    } else {
        with_entry(c, with_entries(c, entries, writes.drop_last()), writes.last())
    }
}

/// Keys and values, without the heights.
pub open spec fn without_heights(entries: Seq<Entry>) -> Seq<Entry> {
    Seq::new(entries.len(), |i: int| Entry { height: 0, ..entries[i] })
}

/// No two entries have equal keys.
pub open spec fn all_distinct<C: Comparator>(c: &C, entries: Seq<Entry>) -> bool {
    forall|i: int, j: int|
        0 <= i < j < entries.len() ==> !equal_keys(
            c,
            (#[trigger] entries[i]).key,
            (#[trigger] entries[j]).key,
        )
}

/// Whether an entry takes part in `level`.
pub open spec fn takes_part(level: int) -> spec_fn(Entry) -> bool {
    |entry: Entry| entry.height > level
}

/// The entries that take part in `level`.
pub open spec fn level_entries(entries: Seq<Entry>, level: int) -> Seq<Entry> {
    entries.filter(takes_part(level))
}

/// What a search for `key` finds: of the entries whose keys equal it, the first
/// of the highest ones; where there is none, the first entry after `key`; where
/// there is none either, nothing.
pub open spec fn is_found<C: Comparator>(
    c: &C,
    entries: Seq<Entry>,
    key: Seq<u8>,
    found: Option<int>,
) -> bool {
    match found {
        Some(i) => {
            &&& 0 <= i < entries.len()
            &&& if equal_keys(c, entries[i].key, key) {
                forall|j: int|
                    0 <= j < entries.len() && j != i && equal_keys(
                        c,
                        (#[trigger] entries[j]).key,
                        key,
                    ) ==> entries[j].height < entries[i].height || (entries[j].height
                        == entries[i].height && i < j)
            } else {
                &&& i == rank(c, entries, key)
                &&& forall|j: int|
                    0 <= j < entries.len() ==> !equal_keys(c, (#[trigger] entries[j]).key, key)
            }
        },
        None => rank(c, entries, key) == entries.len(),
    }
}

/// What a search backward from `key` finds: an entry whose key equals it, as
/// `is_found` says; where there is none, the last entry before `key`; where
/// there is none either, nothing.
pub open spec fn is_found_for_prev<C: Comparator>(
    c: &C,
    entries: Seq<Entry>,
    key: Seq<u8>,
    found: Option<int>,
) -> bool {
    if has_equal(c, entries, key) {
        is_found(c, entries, key, found)
    } else {
        found == before(rank(c, entries, key) as int)
    }
}

/// The last entry up to index `i` that does not come after `key`, if there is one.
pub open spec fn last_not_after<C: Comparator>(
    c: &C,
    entries: Seq<Entry>,
    key: Seq<u8>,
    i: int,
) -> Option<int>
    decreases i + 1,
{
    if i < 0 {
        None
    } else if c.precedes(key, entries[i].key) {
        last_not_after(c, entries, key, i - 1)
    } else {
        Some(i)
    }
}

/// What going back from what a search for `sought` finds, or from the last entry
/// where it finds none, to an entry that does not come after `key` ends at.
pub open spec fn is_found_back<C: Comparator>(
    c: &C,
    entries: Seq<Entry>,
    sought: Seq<u8>,
    key: Seq<u8>,
    found: Option<int>,
) -> bool {
    exists|start: Option<int>| #[trigger]
        is_found(c, entries, sought, start) && found == last_not_after(
            c,
            entries,
            key,
            match start {
                Some(i) => i,
                None => entries.len() - 1,
            },
        )
}

/// The key of some entry equals `key`.
pub open spec fn has_equal<C: Comparator>(c: &C, entries: Seq<Entry>, key: Seq<u8>) -> bool {
    exists|j: int| 0 <= j < entries.len() && equal_keys(c, (#[trigger] entries[j]).key, key)
}

/// The index before `i`, if there is one.
pub open spec fn before(i: int) -> Option<int> {
    if i > 0 {
        Some(i - 1)
    } else {
        None
    }
}

/// The index `i`, if it is one of `len`.
pub open spec fn within(i: int, len: nat) -> Option<int> {
    if 0 <= i < len {
        Some(i)
    } else {
        None
    }
}

/// In a strict weak order, precedence passes on.
pub proof fn lemma_transitive<C: Comparator>(c: &C, x: Seq<u8>, y: Seq<u8>, z: Seq<u8>)
    requires
        c.valid_key(x),
        c.valid_key(y),
        c.valid_key(z),
        c.precedes(x, y),
        c.precedes(y, z),
    ensures
        c.precedes(x, z),
{
    c.law_cotransitive(x, z, y);
    c.law_asymmetric(y, z);
}

/// No key precedes itself.
pub proof fn lemma_irreflexive<C: Comparator>(c: &C, x: Seq<u8>)
    requires
        c.valid_key(x),
    ensures
        !c.precedes(x, x),
{
    if c.precedes(x, x) {
        c.law_asymmetric(x, x);
    }
}

/// All entries but the last are as valid, sorted and distinct as all of them are.
pub proof fn lemma_front<C: Comparator>(c: &C, entries: Seq<Entry>)
    requires
        entries.len() > 0,
    ensures
        all_valid(c, entries) ==> all_valid(c, entries.drop_last()) && c.valid_key(
            entries.last().key,
        ),
        is_sorted(c, entries) ==> is_sorted(c, entries.drop_last()),
        all_distinct(c, entries) ==> all_distinct(c, entries.drop_last()),
{
    let front = entries.drop_last();
    assert(entries.last() == entries[entries.len() - 1]);
    assert forall|i: int| 0 <= i < front.len() implies #[trigger] front[i] == entries[i] by {}
}

/// Whether entries are valid, sorted and distinct does not depend on heights.
pub proof fn lemma_without_heights<C: Comparator>(c: &C, entries: Seq<Entry>)
    ensures
        all_valid(c, entries) ==> all_valid(c, without_heights(entries)),
        is_sorted(c, entries) ==> is_sorted(c, without_heights(entries)),
        all_distinct(c, entries) ==> all_distinct(c, without_heights(entries)),
{
    let flat = without_heights(entries);
    assert forall|i: int| 0 <= i < flat.len() implies (#[trigger] flat[i]).key
        == entries[i].key by {}
}

/// Among sorted entries those that precede a key are the first ones, as many as
/// its rank says.
pub proof fn law_rank_splits<C: Comparator>(c: &C, entries: Seq<Entry>, key: Seq<u8>)
    requires
        is_sorted(c, entries),
        all_valid(c, entries),
        entries.len() > 0 ==> c.valid_key(key),
    ensures
        rank(c, entries, key) <= entries.len(),
        forall|i: int|
            0 <= i < entries.len() ==> (c.precedes((#[trigger] entries[i]).key, key) <==> i < rank(
                c,
                entries,
                key,
            )),
    decreases entries.len(),
{
    if entries.len() > 0 {
        let front = entries.drop_last();
        let last = entries.len() - 1;
        lemma_front(c, entries);
        law_rank_splits(c, front, key);
        if c.precedes(entries[last].key, key) {
            if rank(c, front, key) < front.len() {
                let i = rank(c, front, key) as int;
                assert(!c.precedes(front[i].key, key));
                assert(front[i] == entries[i]);
                c.law_cotransitive(entries[last].key, entries[i].key, key);
            }
        }
        assert forall|i: int| 0 <= i < entries.len() implies (c.precedes(
            (#[trigger] entries[i]).key,
            key,
        ) <==> i < rank(c, entries, key)) by {
            if i < last {
                assert(front[i] == entries[i]);
            }
        }
    }
}

/// The rank of a key counts a new entry exactly if it precedes the key, wherever
/// it is put in.
pub proof fn law_rank_counts<C: Comparator>(
    c: &C,
    entries: Seq<Entry>,
    i: int,
    entry: Entry,
    key: Seq<u8>,
)
    requires
        0 <= i <= entries.len(),
    ensures
        rank(c, entries.insert(i, entry), key) == rank(c, entries, key) + if c.precedes(
            entry.key,
            key,
        ) {
            1nat
        } else {
            0
        },
    decreases entries.len(),
{
    let after = entries.insert(i, entry);
    if i == entries.len() {
        assert(after.drop_last() =~= entries);
    } else {
        law_rank_counts(c, entries.drop_last(), i, entry, key);
        assert(after.drop_last() =~= entries.drop_last().insert(i, entry));
        assert(after.last() == entries.last());
    }
}

/// The ranks in two parts add up.
pub proof fn lemma_rank_of_parts<C: Comparator>(
    c: &C,
    a: Seq<Entry>,
    b: Seq<Entry>,
    key: Seq<u8>,
)
    ensures
        rank(c, a + b, key) == rank(c, a, key) + rank(c, b, key),
    decreases b.len(),
{
    if b.len() == 0 {
        assert(a + b =~= a);
    } else {
        lemma_rank_of_parts(c, a, b.drop_last(), key);
        assert((a + b).drop_last() =~= a + b.drop_last());
        assert((a + b).last() == b.last());
    }
}

/// The rank is the number of the entries where all of them precede the key, and
/// zero where none does.
pub proof fn lemma_rank_of_all_or_none<C: Comparator>(c: &C, entries: Seq<Entry>, key: Seq<u8>)
    ensures
        (forall|i: int| 0 <= i < entries.len() ==> c.precedes((#[trigger] entries[i]).key, key))
            ==> rank(c, entries, key) == entries.len(),
        (forall|i: int| 0 <= i < entries.len() ==> !c.precedes((#[trigger] entries[i]).key, key))
            ==> rank(c, entries, key) == 0,
    decreases entries.len(),
{
    if entries.len() > 0 {
        let front = entries.drop_last();
        lemma_rank_of_all_or_none(c, front, key);
        assert(forall|i: int| 0 <= i < front.len() ==> front[i] == entries[i]);
    }
}

/// A filter keeps what it keeps where it stands: an entry that is put in comes
/// out behind what was kept of the entries before it.
pub proof fn lemma_filter_insert<T>(s: Seq<T>, i: int, x: T, keep: spec_fn(T) -> bool)
    requires
        0 <= i <= s.len(),
    ensures
        s.filter(keep) == s.take(i).filter(keep) + s.skip(i).filter(keep),
        s.insert(i, x).filter(keep) == (if keep(x) {
            s.filter(keep).insert(s.take(i).filter(keep).len() as int, x)
        } else {
            s.filter(keep)
        }),
{
    let a = s.take(i);
    let b = s.skip(i);
    let one = Seq::<T>::empty().push(x);
    assert(s =~= a + b);
    assert(s.insert(i, x) =~= a + (one + b));
    Seq::filter_distributes_over_add(a, b, keep);
    Seq::filter_distributes_over_add(a, one + b, keep);
    Seq::filter_distributes_over_add(one, b, keep);
    lemma_filter_one(x, keep);
    if keep(x) {
        assert(a.filter(keep) + (one + b.filter(keep)) =~= (a.filter(keep) + b.filter(
            keep,
        )).insert(a.filter(keep).len() as int, x));
    } else {
        assert(a.filter(keep) + (one.filter(keep) + b.filter(keep)) =~= a.filter(keep) + b.filter(
            keep,
        ));
    }
}

/// A filter on one thing.
pub proof fn lemma_filter_one<T>(x: T, keep: spec_fn(T) -> bool)
    ensures
        Seq::<T>::empty().push(x).filter(keep) == (if keep(x) {
            Seq::<T>::empty().push(x)
        } else {
            Seq::<T>::empty()
        }),
{
    let one = Seq::<T>::empty().push(x);
    reveal_with_fuel(Seq::filter, 2);
    assert(one.drop_last() =~= Seq::<T>::empty());
    assert(one.filter(keep) =~= (if keep(x) {
        one
    } else {
        Seq::<T>::empty()
    }));
}

/// A filter that keeps less can follow one that keeps more.
pub proof fn lemma_filter_twice<T>(
    s: Seq<T>,
    more: spec_fn(T) -> bool,
    less: spec_fn(T) -> bool,
)
    requires
        forall|x: T| #[trigger] less(x) ==> more(x),
    ensures
        s.filter(more).filter(less) == s.filter(less),
    decreases s.len(),
{
    reveal(Seq::filter);
    if s.len() > 0 {
        let part = s.drop_last().filter(more);
        lemma_filter_twice(s.drop_last(), more, less);
        assert(less(s.last()) ==> more(s.last()));
        if more(s.last()) {
            assert(part.push(s.last()).drop_last() =~= part);
        }
    }
}

/// A filter that keeps all leaves all as it is.
pub proof fn lemma_filter_all<T>(s: Seq<T>, keep: spec_fn(T) -> bool)
    requires
        forall|i: int| 0 <= i < s.len() ==> keep(#[trigger] s[i]),
    ensures
        s.filter(keep) == s,
    decreases s.len(),
{
    reveal(Seq::filter);
    if s.len() > 0 {
        let front = s.drop_last();
        assert forall|i: int| 0 <= i < front.len() implies keep(#[trigger] front[i]) by {
            assert(front[i] == s[i]);
        }
        lemma_filter_all(front, keep);
        assert(keep(s[s.len() - 1]));
        assert(front.push(s.last()) =~= s);
    }
}

/// What a filter keeps is among what there was, in the same order. Two filters
/// that keep things at the same places keep as many.
pub proof fn lemma_filter_alike<S, T>(
    s: Seq<S>,
    t: Seq<T>,
    keep_s: spec_fn(S) -> bool,
    keep_t: spec_fn(T) -> bool,
) -> (at: Seq<int>)
    requires
        s.len() == t.len(),
        forall|i: int| 0 <= i < s.len() ==> keep_s(#[trigger] s[i]) == keep_t(t[i]),
    ensures
        at.len() == s.filter(keep_s).len(),
        at.len() == t.filter(keep_t).len(),
        forall|k: int|
            0 <= k < at.len() ==> 0 <= #[trigger] at[k] < s.len() && s.filter(keep_s)[k] == s[at[k]]
                && t.filter(keep_t)[k] == t[at[k]],
        forall|k: int, m: int| 0 <= k < m < at.len() ==> #[trigger] at[k] < #[trigger] at[m],
    decreases s.len(),
{
    reveal(Seq::filter);
    if s.len() == 0 {
        Seq::empty()
    } else {
        let n = s.len() - 1;
        assert forall|i: int| 0 <= i < n implies keep_s(#[trigger] s.drop_last()[i]) == keep_t(
            t.drop_last()[i],
        ) by {
            assert(s.drop_last()[i] == s[i]);
        }
        let front = lemma_filter_alike(s.drop_last(), t.drop_last(), keep_s, keep_t);
        assert(keep_s(s[n]) == keep_t(t[n]));
        if keep_s(s.last()) {
            front.push(n)
        } else {
            front
        }
    }
}

/// A search finds one thing only.
pub proof fn law_found_is_unique<C: Comparator>(
    c: &C,
    entries: Seq<Entry>,
    key: Seq<u8>,
    a: Option<int>,
    b: Option<int>,
)
    requires
        is_sorted(c, entries),
        all_valid(c, entries),
        c.valid_key(key),
        is_found(c, entries, key, a),
        is_found(c, entries, key, b),
    ensures
        a == b,
{
    law_rank_splits(c, entries, key);
    match (a, b) {
        (Some(i), Some(j)) => {
            assert(entries[i] == entries[i] && entries[j] == entries[j]);
        },
        (Some(i), None) => {
            assert(c.precedes(entries[i].key, key));
            c.law_asymmetric(entries[i].key, key);
        },
        (None, Some(j)) => {
            assert(c.precedes(entries[j].key, key));
            c.law_asymmetric(entries[j].key, key);
        },
        (None, None) => {},
    }
}

/// Putting an entry in keeps the entries sorted, and the new one stands right
/// behind the entries that precede it.
pub proof fn law_with_entry_sorted<C: Comparator>(c: &C, entries: Seq<Entry>, entry: Entry)
    requires
        is_sorted(c, entries),
        all_valid(c, entries),
        c.valid_key(entry.key),
    ensures
        is_sorted(c, with_entry(c, entries, entry)),
        all_valid(c, with_entry(c, entries, entry)),
        rank(c, with_entry(c, entries, entry), entry.key) == rank(c, entries, entry.key),
{
    let r = rank(c, entries, entry.key) as int;
    let after = with_entry(c, entries, entry);
    law_rank_splits(c, entries, entry.key);
    assert forall|i: int| 0 <= i < after.len() implies c.valid_key((#[trigger] after[i]).key) by {
        if i < r {
            assert(after[i] == entries[i]);
        } else if i > r {
            assert(after[i] == entries[i - 1]);
        }
    }
    assert forall|i: int, j: int| 0 <= i < j < after.len() implies !c.precedes(
        (#[trigger] after[j]).key,
        (#[trigger] after[i]).key,
    ) by {
        let a = if i < r { i } else { i - 1 };
        let b = if j < r { j } else { j - 1 };
        if i != r {
            assert(after[i] == entries[a]);
        }
        if j != r {
            assert(after[j] == entries[b]);
        }
        if j == r {
            c.law_asymmetric(entries[a].key, entry.key);
        }
    }
    law_rank_splits(c, after, entry.key);
    lemma_irreflexive(c, entry.key);
    assert(after[r] == entry);
    if r > 0 {
        assert(after[r - 1] == entries[r - 1]);
    }
}

/// The entry before the rank of a key precedes it; past the last rank no key is
/// equal.
pub proof fn lemma_before_rank<C: Comparator>(c: &C, entries: Seq<Entry>, key: Seq<u8>)
    requires
        is_sorted(c, entries),
        all_valid(c, entries),
        c.valid_key(key),
    ensures
        before(rank(c, entries, key) as int) matches Some(i) ==> 0 <= i < entries.len()
            && !c.precedes(key, entries[i].key),
        rank(c, entries, key) == entries.len() ==> !has_equal(c, entries, key),
{
    law_rank_splits(c, entries, key);
    let r = rank(c, entries, key) as int;
    if r > 0 {
        assert(c.precedes(entries[r - 1].key, key));
        c.law_asymmetric(entries[r - 1].key, key);
    }
}

/// Entries that come after the key are passed by on the way back.
pub proof fn lemma_passed_by<C: Comparator>(
    c: &C,
    entries: Seq<Entry>,
    key: Seq<u8>,
    low: int,
    high: int,
)
    requires
        -1 <= low <= high,
        forall|i: int| low < i <= high ==> c.precedes(key, (#[trigger] entries[i]).key),
    ensures
        last_not_after(c, entries, key, high) == last_not_after(c, entries, key, low),
    decreases high - low,
{
    if low < high {
        assert(c.precedes(key, entries[high].key));
        lemma_passed_by(c, entries, key, low, high - 1);
    }
}

/// Going back from what a search for the key itself finds ends where a search
/// backward from the key does.
pub proof fn law_found_back<C: Comparator>(
    c: &C,
    entries: Seq<Entry>,
    key: Seq<u8>,
    found: Option<int>,
)
    requires
        is_sorted(c, entries),
        all_valid(c, entries),
        entries.len() > 0 ==> c.valid_key(key),
        is_found_back(c, entries, key, key, found),
    ensures
        is_found_for_prev(c, entries, key, found),
{
    law_rank_splits(c, entries, key);
    let r = rank(c, entries, key) as int;
    let start = choose|start: Option<int>| #[trigger]
        is_found(c, entries, key, start) && found == last_not_after(
            c,
            entries,
            key,
            match start {
                Some(i) => i,
                None => entries.len() - 1,
            },
        );
    if has_equal(c, entries, key) {
        lemma_before_rank(c, entries, key);
    } else {
        if start is Some {
            lemma_found_not_before(c, entries, key, start->0);
        }
        if r > 0 {
            assert(c.precedes(entries[r - 1].key, key));
            c.law_asymmetric(entries[r - 1].key, key);
        }
        reveal_with_fuel(last_not_after, 3);
    }
}

/// What a search finds is equal to the key or comes after it.
pub proof fn lemma_found_not_before<C: Comparator>(
    c: &C,
    entries: Seq<Entry>,
    key: Seq<u8>,
    i: int,
)
    requires
        is_sorted(c, entries),
        all_valid(c, entries),
        c.valid_key(key),
        is_found(c, entries, key, Some(i)),
    ensures
        0 <= i < entries.len(),
        equal_keys(c, entries[i].key, key) || c.precedes(key, entries[i].key),
{
    law_rank_splits(c, entries, key);
}

} // verus!
