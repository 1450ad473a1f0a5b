use memtable::arena::{Arena, SharedArena};
use memtable::common::{
    extract_user_key, pack_sequence_and_type, ValueType, VALUE_TYPE_FOR_SEEK,
};
use memtable::comparator::{
    Comparator, DefaultComparator, InternalKeyComparator, KeyComparator,
};
use memtable::inline_skiplist::{
    next_height, raises, InlineSkipList, MemTableContext, SkipListIterator, Splice, MAX_HEIGHT,
    SCALED_INVERSE_BRANCHING,
};
use memtable::node::LINK_SIZE;
use memtable::record::encode_key;
use std::cmp::Ordering;

type List = InlineSkipList<DefaultComparator, SharedArena>;

fn new_list() -> List {
    InlineSkipList::new(
        SharedArena::new(),
        DefaultComparator::new(InternalKeyComparator::default()),
    )
}

fn ikey(user: &[u8], sequence: u64, kind: u8) -> Vec<u8> {
    let mut k = user.to_vec();
    k.extend_from_slice(&pack_sequence_and_type(sequence, kind).to_le_bytes());
    k
}

fn keys_forward(list: &List) -> Vec<Vec<u8>> {
    let mut iter = SkipListIterator::new(list);
    let mut keys = vec![];
    iter.seek_to_first();
    while iter.valid() {
        keys.push(iter.key().to_vec());
        iter.next();
    }
    keys
}

#[test]
fn test_find_near() {
    let comp = InternalKeyComparator::default();
    let mut list = InlineSkipList::new(SharedArena::new(), DefaultComparator::new(comp.clone()));
    let mut ctx = MemTableContext::default();
    let v = vec![1u8; 100];
    for i in 0..10000 {
        let k = i.to_string().into_bytes();
        list.add(&mut ctx, &k, &v, i);
    }
    let mut buf = vec![];
    let mut tmp = Vec::with_capacity(20);
    let mut keys = vec![];
    for i in 0..10000 {
        let k = i.to_string().into_bytes();
        buf.clear();
        buf.extend_from_slice(&k);
        buf.extend_from_slice(
            &pack_sequence_and_type(10000, VALUE_TYPE_FOR_SEEK).to_le_bytes(),
        );
        let mut iter = SkipListIterator::new(&list);
        iter.seek(&mut tmp, &buf);
        assert!(iter.valid());
        let key = iter.key();
        assert_eq!(key[..(key.len() - 8)].to_vec(), k);
        keys.push(k);
    }
    keys.sort();
    let mut iter = SkipListIterator::new(&list);
    iter.seek_to_last();
    assert!(iter.valid());
    let mut count = 0;
    for k in keys.iter().rev() {
        let key = iter.key();
        let user_key = extract_user_key(key);
        let a = String::from_utf8(user_key.to_vec()).unwrap();
        let b = String::from_utf8(k.to_vec()).unwrap();
        assert_eq!(user_key, k, "the {}th failed, {} compare {}", count, a, b);
        iter.prev();
        count += 1;
    }
}

#[test]
fn empty_list_has_no_entry() {
    let list = new_list();
    let mut buf = vec![];
    let mut iter = SkipListIterator::new(&list);
    assert!(!iter.valid());
    iter.seek_to_first();
    assert!(!iter.valid());
    iter.seek_to_last();
    assert!(!iter.valid());
    iter.seek(&mut buf, &ikey(b"a", 1, 1));
    assert!(!iter.valid());
    iter.seek_for_prev(&mut buf, &ikey(b"a", 1, 1));
    assert!(!iter.valid());
}

#[test]
fn entries_come_back_sorted_with_their_values() {
    let mut list = new_list();
    let mut ctx = MemTableContext::default();
    let users: [&[u8]; 5] = [b"m", b"", b"zz", b"ma", b"b"];
    for (i, u) in users.iter().enumerate() {
        list.add(&mut ctx, u, &vec![i as u8; i], 7);
    }
    let mut iter = SkipListIterator::new(&list);
    iter.seek_to_first();
    let mut seen = vec![];
    while iter.valid() {
        seen.push((extract_user_key(iter.key()).to_vec(), iter.value().to_vec()));
        iter.next();
    }
    assert_eq!(
        seen,
        vec![
            (b"".to_vec(), vec![1]),
            (b"b".to_vec(), vec![4; 4]),
            (b"m".to_vec(), vec![]),
            (b"ma".to_vec(), vec![3; 3]),
            (b"zz".to_vec(), vec![2; 2]),
        ]
    );
}

#[test]
fn long_keys_and_values_read_back() {
    let mut list = new_list();
    let mut ctx = MemTableContext::new(3);
    let lens = [0usize, 119, 120, 127, 128, 200, 16375, 16376, 20000];
    for (i, n) in lens.iter().enumerate() {
        list.add(&mut ctx, &vec![i as u8; *n], &vec![9u8; *n + 1], 1);
    }
    let mut buf = vec![];
    for (i, n) in lens.iter().enumerate() {
        let target = ikey(&vec![i as u8; *n], 1, 1);
        let mut iter = SkipListIterator::new(&list);
        iter.seek(&mut buf, &target);
        assert!(iter.valid());
        assert_eq!(iter.key(), &target[..]);
        assert_eq!(iter.value(), &vec![9u8; *n + 1][..]);
    }
    assert_eq!(ctx.get_thread_id(), 3);
}

#[test]
fn snapshot_reads_the_newest_entry_not_newer() {
    let mut list = new_list();
    let mut ctx = MemTableContext::default();
    list.add(&mut ctx, b"k", b"v10", 10);
    list.add(&mut ctx, b"k", b"v30", 30);
    list.delete(&mut ctx, b"k", 20);
    list.add(&mut ctx, b"j", b"other", 99);
    let mut buf = vec![];
    let mut iter = SkipListIterator::new(&list);
    iter.seek(&mut buf, &ikey(b"k", 15, VALUE_TYPE_FOR_SEEK));
    assert_eq!(iter.key(), &ikey(b"k", 10, 1)[..]);
    assert_eq!(iter.value(), b"v10");
    iter.seek(&mut buf, &ikey(b"k", 25, VALUE_TYPE_FOR_SEEK));
    assert_eq!(iter.key(), &ikey(b"k", 20, 0)[..]);
    assert_eq!(iter.value(), b"");
    iter.seek(&mut buf, &ikey(b"k", 1000, VALUE_TYPE_FOR_SEEK));
    assert_eq!(iter.value(), b"v30");
    iter.seek(&mut buf, &ikey(b"k", 9, VALUE_TYPE_FOR_SEEK));
    assert!(!iter.valid());
}

#[test]
fn newest_write_is_read_and_older_snapshots_stay() {
    let mut list = new_list();
    let mut ctx = MemTableContext::default();
    let mut buf = vec![];
    for s in 1u64..50 {
        list.add(&mut ctx, b"key", &s.to_le_bytes(), s);
        let mut iter = SkipListIterator::new(&list);
        for t in 1..s + 1 {
            iter.seek(&mut buf, &ikey(b"key", t, VALUE_TYPE_FOR_SEEK));
            assert!(iter.valid());
            assert_eq!(iter.value(), &t.to_le_bytes()[..]);
        }
    }
}

#[test]
fn deletion_adds_an_entry() {
    let mut list = new_list();
    let mut ctx = MemTableContext::default();
    list.add(&mut ctx, b"a", b"1", 1);
    list.delete(&mut ctx, b"a", 2);
    assert_eq!(keys_forward(&list), vec![ikey(b"a", 2, 0), ikey(b"a", 1, 1)]);
}

#[test]
fn writes_in_either_order_give_the_same_entries() {
    let mut a = new_list();
    let mut b = new_list();
    let mut ctx = MemTableContext::default();
    for i in 0u64..200 {
        a.add(&mut ctx, &i.to_le_bytes(), b"", i);
    }
    for i in (0u64..200).rev() {
        b.add(&mut ctx, &i.to_le_bytes(), b"", i);
    }
    assert_eq!(keys_forward(&a), keys_forward(&b));
}

#[test]
fn writes_in_any_order_and_at_any_heights_give_the_same_entries() {
    let mut a = new_list();
    let mut b = new_list();
    let mut ctx = MemTableContext::default();
    for i in 0u64..211 {
        let height = 1 + i as usize % MAX_HEIGHT;
        a.insert_at_height(&mut ctx, height, &[i as u8], &[7, i as u8], i, ValueType::TypeValue);
    }
    for j in 0u64..211 {
        let i = j * 59 % 211;
        let height = 1 + (i * 5 + 3) as usize % MAX_HEIGHT;
        b.insert_at_height(&mut ctx, height, &[i as u8], &[7, i as u8], i, ValueType::TypeValue);
    }
    let mut left = SkipListIterator::new(&a);
    let mut right = SkipListIterator::new(&b);
    left.seek_to_first();
    right.seek_to_first();
    for i in 0u8..211 {
        assert_eq!(left.key(), &ikey(&[i], i as u64, 1)[..]);
        assert_eq!(right.key(), left.key());
        assert_eq!(left.value(), &[7, i]);
        assert_eq!(right.value(), left.value());
        left.next();
        right.next();
    }
    assert!(!left.valid() && !right.valid());
}

#[test]
fn what_a_context_holds_has_no_say() {
    let mut other = new_list();
    let mut used = MemTableContext::new(3);
    for i in 0u8..40 {
        other.insert_at_height(&mut used, 12, &[i, i], b"other", 1, ValueType::TypeValue);
    }
    let mut a = new_list();
    let mut b = new_list();
    for i in 0u8..40 {
        let key = [i * 3 % 40];
        let height = 1 + i as usize % 4;
        let mut fresh = MemTableContext::default();
        a.insert_at_height(&mut fresh, height, &key, &key, 1, ValueType::TypeValue);
        b.insert_at_height(&mut used, height, &key, &key, 1, ValueType::TypeValue);
    }
    let expected: Vec<Vec<u8>> = (0u8..40).map(|i| ikey(&[i], 1, 1)).collect();
    assert_eq!(keys_forward(&a), expected);
    assert_eq!(keys_forward(&b), expected);
    assert_eq!(a.mem_size(), b.mem_size());
    assert_eq!(used.get_thread_id(), 3);
}

#[test]
fn a_search_follows_the_last_entry_before() {
    let mut list = new_list();
    let mut ctx = MemTableContext::default();
    for i in 1u8..60 {
        list.insert_at_height(
            &mut ctx,
            1 + i as usize % MAX_HEIGHT,
            &[2 * i],
            &[2 * i],
            1,
            ValueType::TypeValue,
        );
    }
    let mut buf = vec![];
    let mut forward = SkipListIterator::new(&list);
    let mut backward = SkipListIterator::new(&list);
    for i in 3u8..118 {
        forward.seek(&mut buf, &ikey(&[i], 1, 1));
        let found = forward.key().to_vec();
        assert_eq!(found, ikey(&[i + i % 2], 1, 1));
        forward.prev();
        assert_eq!(forward.value(), &[i + i % 2 - 2]);
        if i % 2 == 1 {
            backward.seek_for_prev(&mut buf, &ikey(&[i], 1, 1));
            assert_eq!(backward.key(), forward.key());
            backward.next();
            assert_eq!(backward.key(), &found[..]);
        }
    }
}

#[test]
fn the_node_before_a_key_is_the_node_of_the_entry_before() {
    let mut list = new_list();
    let mut ctx = MemTableContext::default();
    for i in 0u8..30 {
        list.insert_at_height(&mut ctx, 1 + i as usize % 5, &[i], b"", 1, ValueType::TypeValue);
    }
    let mut buf = vec![];
    let mut before = list.find_less_than(encode_key(&mut buf, &ikey(&[0], 1, 1)));
    assert_ne!(before, 0);
    for i in 0u8..30 {
        let found = list.find_greater_or_equal(encode_key(&mut buf, &ikey(&[i], 1, 1)));
        assert_ne!(found, 0);
        assert_ne!(found, before);
        before = list.find_less_than(encode_key(&mut buf, &ikey(&[i, 0], 1, 1)));
        assert_eq!(found, before);
    }
    assert_eq!(list.find_greater_or_equal(encode_key(&mut buf, &ikey(&[30], 1, 1))), 0);
}

#[test]
fn a_node_can_be_found_once_it_is_linked() {
    let mut list = new_list();
    let mut ctx = MemTableContext::new(7);
    list.insert_at_height(&mut ctx, 3, b"b", b"2", 1, ValueType::TypeValue);
    let x = list.encode_key_value(7, 3, b"a", b"1", 1, ValueType::TypeValue);
    assert_eq!(keys_forward(&list), vec![ikey(b"b", 1, 1)]);
    list.insert(&mut ctx.splice, x);
    assert_eq!(keys_forward(&list), vec![ikey(b"a", 1, 1), ikey(b"b", 1, 1)]);
    let mut buf = vec![];
    assert_eq!(list.find_greater_or_equal(encode_key(&mut buf, &ikey(b"a", 1, 1))), x);
}

#[test]
fn no_key_is_too_short_for_an_empty_list() {
    let list = new_list();
    let mut buf = vec![];
    let mut iter = SkipListIterator::new(&list);
    iter.seek(&mut buf, b"abc");
    assert!(!iter.valid());
    assert_eq!(buf, vec![3, b'a', b'b', b'c']);
    iter.seek_for_prev(&mut buf, b"");
    assert!(!iter.valid());
    assert_eq!(buf, vec![0]);
}

#[test]
fn entries_of_every_height_are_found() {
    let mut list = new_list();
    let mut ctx = MemTableContext::default();
    for height in (1..=MAX_HEIGHT).rev() {
        list.insert_at_height(
            &mut ctx,
            height,
            &[height as u8],
            &[height as u8; 3],
            9,
            ValueType::TypeValue,
        );
    }
    let mut buf = vec![];
    let mut iter = SkipListIterator::new(&list);
    for height in 1..=MAX_HEIGHT {
        iter.seek(&mut buf, &ikey(&[height as u8], 9, 1));
        assert_eq!(iter.value(), &[height as u8; 3]);
    }
    iter.seek_to_last();
    assert_eq!(iter.value(), &[MAX_HEIGHT as u8; 3]);
}

#[test]
fn seek_goes_to_the_first_entry_after() {
    let mut list = new_list();
    let mut ctx = MemTableContext::default();
    for i in (0u8..100).step_by(2) {
        list.add(&mut ctx, &[i], &[i], 1);
    }
    let mut buf = vec![];
    let mut iter = SkipListIterator::new(&list);
    for i in 0u8..98 {
        iter.seek(&mut buf, &ikey(&[i], 1, 1));
        assert_eq!(iter.value(), &[if i % 2 == 0 { i } else { i + 1 }]);
    }
    iter.seek(&mut buf, &ikey(&[99], 1, 1));
    assert!(!iter.valid());
}

#[test]
fn seek_for_prev_goes_to_the_last_entry_not_after() {
    let mut list = new_list();
    let mut ctx = MemTableContext::default();
    for i in (2u8..100).step_by(2) {
        list.add(&mut ctx, &[i], &[i], 1);
    }
    let mut buf = vec![];
    let mut iter = SkipListIterator::new(&list);
    for i in 2u8..120 {
        iter.seek_for_prev(&mut buf, &ikey(&[i], 1, 1));
        assert!(iter.valid());
        assert_eq!(iter.value(), &[std::cmp::min(98, i - i % 2)]);
    }
    iter.seek_for_prev(&mut buf, &ikey(&[1], 1, 1));
    assert!(!iter.valid());
}

#[test]
fn prev_undoes_next() {
    let mut list = new_list();
    let mut ctx = MemTableContext::default();
    for i in 0u8..50 {
        list.add(&mut ctx, &[i], &[i], 1);
    }
    let mut iter = SkipListIterator::new(&list);
    iter.seek_to_first();
    for i in 0u8..49 {
        iter.next();
        iter.prev();
        assert_eq!(iter.value(), &[i]);
        iter.next();
    }
    iter.next();
    assert!(!iter.valid());
    iter.seek_to_first();
    iter.prev();
    assert!(!iter.valid());
}

#[test]
fn of_equal_keys_the_highest_is_found_and_the_last_written_comes_first() {
    let mut list = new_list();
    let mut ctx = MemTableContext::default();
    list.insert_at_height(&mut ctx, 1, b"k", b"first", 5, ValueType::TypeValue);
    list.insert_at_height(&mut ctx, 3, b"k", b"second", 5, ValueType::TypeValue);
    list.insert_at_height(&mut ctx, 2, b"k", b"third", 5, ValueType::TypeValue);
    list.insert_at_height(&mut ctx, 1, b"a", b"before", 5, ValueType::TypeValue);
    let mut buf = vec![];
    let mut iter = SkipListIterator::new(&list);
    iter.seek_to_first();
    assert_eq!(iter.value(), b"before");
    iter.next();
    assert_eq!(iter.value(), b"third");
    iter.next();
    assert_eq!(iter.value(), b"second");
    iter.next();
    assert_eq!(iter.value(), b"first");
    iter.prev();
    assert_eq!(iter.value(), b"before");
    iter.seek(&mut buf, &ikey(b"k", 5, 1));
    assert_eq!(iter.value(), b"second");
    iter.seek_for_prev(&mut buf, &ikey(b"k", 5, 1));
    assert_eq!(iter.value(), b"second");
}

#[test]
fn memory_grows_by_the_size_of_the_node() {
    let mut list = new_list();
    let mut ctx = MemTableContext::default();
    assert_eq!(list.mem_size(), 12 * LINK_SIZE);
    list.insert_at_height(&mut ctx, 3, b"abc", b"xy", 1, ValueType::TypeValue);
    // Three links; one byte of length, eleven of key, one of length, two of value.
    assert_eq!(list.mem_size(), 15 * LINK_SIZE + 15);
    list.insert_at_height(&mut ctx, 12, b"", b"", 1, ValueType::TypeDeletion);
    assert_eq!(list.mem_size(), 27 * LINK_SIZE + 15 + 10);
}

#[test]
fn less_than_follows_the_order_of_internal_keys() {
    let list = new_list();
    assert!(list.less_than(&ikey(b"a", 1, 1), &ikey(b"b", 9, 1)));
    assert!(list.less_than(&ikey(b"a", 2, 1), &ikey(b"a", 1, 1)));
    assert!(!list.less_than(&ikey(b"a", 1, 1), &ikey(b"a", 1, 1)));
    assert!(!list.less_than(&ikey(b"b", 1, 1), &ikey(b"a", 1, 1)));
}

#[test]
fn random_heights_vary_within_their_bounds() {
    let list = new_list();
    let mut counts = [0usize; MAX_HEIGHT + 1];
    for _ in 0..20000 {
        let h = list.random_height();
        assert!(1 <= h && h <= MAX_HEIGHT);
        counts[h] += 1;
    }
    assert!(counts[1] > 10000);
    assert!(counts[2] > 500);
    assert!(counts[3] > 10);
}

#[test]
fn a_draw_below_the_threshold_raises() {
    assert_eq!(SCALED_INVERSE_BRANCHING, 536870912);
    assert!(raises(0));
    assert!(raises(536870911));
    assert!(!raises(536870912));
    assert!(!raises(u32::MAX));
}

#[test]
fn a_height_grows_by_one_level_at_a_time_up_to_the_greatest() {
    assert_eq!(next_height(1, 536870911), Some(2));
    assert_eq!(next_height(1, 536870912), None);
    assert_eq!(next_height(11, 0), Some(12));
    assert_eq!(next_height(12, 0), None);
}

#[test]
fn splices_start_blank_and_copy_blank() {
    let mut list = new_list();
    let mut ctx = MemTableContext::default();
    list.add(&mut ctx, b"a", b"b", 1);
    let copy = ctx.splice.clone();
    ctx.splice = copy;
    list.add(&mut ctx, b"c", b"d", 2);
    ctx.splice = Splice::default();
    list.add(&mut ctx, b"b", b"e", 3);
    assert_eq!(
        keys_forward(&list),
        vec![ikey(b"a", 1, 1), ikey(b"b", 3, 1), ikey(b"c", 2, 1)]
    );
}

#[test]
fn comparator_takes_keys_bare_and_behind_lengths() {
    let c = DefaultComparator::new(InternalKeyComparator::default());
    let a = ikey(&[7u8; 200], 1, 1);
    let b = ikey(&[7u8; 201], 1, 1);
    let mut buf_a = vec![];
    let mut buf_b = vec![];
    let raw_a = encode_key(&mut buf_a, &a);
    let raw_b = encode_key(&mut buf_b, &b);
    assert_eq!(c.compare(&a, &b), Ordering::Less);
    assert_eq!(c.compare(&b, &a), Ordering::Greater);
    assert_eq!(c.compare(&a, &a), Ordering::Equal);
    assert_eq!(c.compare_key(raw_a, &b), Ordering::Less);
    assert_eq!(c.compare_key(raw_b, &a), Ordering::Greater);
    assert_eq!(c.compare_raw_key(raw_a, raw_b), Ordering::Less);
    assert_eq!(c.compare_raw_key(raw_b, raw_b), Ordering::Equal);
    let k = InternalKeyComparator::default();
    assert_eq!(k.compare_key(&a, &b), Ordering::Less);
    assert_eq!(k.name(), "InternalKeyComparator");
}

#[test]
fn arena_blocks_keep_their_bytes() {
    let mut arena = SharedArena::new();
    assert_eq!(arena.mem_size(), 0);
    let a = arena.allocate(4);
    let b = arena.allocate_in_thread(5, 3);
    assert!(a != 0 && b != 0);
    arena.write(a, &[1, 2, 3, 4]);
    arena.write(b, &[5, 6, 7]);
    arena.write(a + 1, &[9]);
    assert_eq!(&arena.bytes_from(a)[..4], &[1, 9, 3, 4]);
    assert_eq!(&arena.bytes_from(b)[..3], &[5, 6, 7]);
    assert_eq!(arena.mem_size(), 7);
}
