use cursor_api::bucket::{DoublyLinkedList, LruList, BUCKET_LEN};
use cursor_api::pool::IdentityHasher;
use cursor_api::rep_move::{CountingReplicator, RepMove, Replicator, UncheckedRepMove};
use cursor_api::tree_index::{range_contains, KeyBound, KeyRange, RemoveRangeState};
use cursor_api::utils::likely;

/// Promotes, then applies the new tail.
fn promote(list: &mut DoublyLinkedList, tail: &mut u32, entry: u8) {
    if let Some(t) = list.promote(*tail, entry) {
        *tail = t;
    }
}

#[test]
fn lru_evicts_least_recently_used_first() {
    let mut list = DoublyLinkedList::default();
    let mut tail = 0u32;
    for e in [3u8, 7, 0, 12] {
        promote(&mut list, &mut tail, e);
        assert_eq!(tail, u32::from(e) + 1);
    }
    // 3 is used again: 7 becomes the oldest.
    promote(&mut list, &mut tail, 3);
    let mut evicted = Vec::new();
    while let Some((e, t)) = list.evict(tail) {
        evicted.push(e);
        tail = t;
    }
    assert_eq!(evicted, vec![7, 0, 12, 3]);
    assert_eq!(tail, 0);
    assert_eq!(list.evict(0), None);
}

#[test]
fn lru_promoting_the_head_changes_nothing() {
    let mut list = DoublyLinkedList::default();
    let mut tail = 0;
    promote(&mut list, &mut tail, 5);
    assert_eq!(list.promote(tail, 5), None);
    assert_eq!(list.evict(tail), Some((5, 0)));
}

#[test]
fn lru_remove() {
    let mut list = DoublyLinkedList::default();
    let mut tail = 0;
    for e in [1u8, 2, 3] {
        promote(&mut list, &mut tail, e);
    }
    // Order now 3, 2, 1. Removing a middle entry keeps the head.
    assert_eq!(list.remove(tail, 2), None);
    // Removing an entry that is not there does nothing.
    assert_eq!(list.remove(tail, 9), None);
    // Removing the head moves it to the next entry.
    assert_eq!(list.remove(tail, 3), Some(2));
    tail = 2;
    assert_eq!(list.remove(tail, 1), Some(0));
    assert_eq!(list.remove(0, 1), None);
}

#[test]
fn lru_two_entries_with_slot_zero() {
    // With slot 0 in a list of two, the other entry's pair reads (0, 0).
    let mut list = DoublyLinkedList::default();
    let mut tail = 0;
    promote(&mut list, &mut tail, 4);
    promote(&mut list, &mut tail, 0);
    assert_eq!(tail, 1);
    promote(&mut list, &mut tail, 4);
    assert_eq!(tail, 5);
    assert_eq!(list.evict(tail), Some((0, 5)));
    assert_eq!(list.evict(tail), Some((4, 0)));
}

#[test]
fn lru_fills_every_slot() {
    let mut list = DoublyLinkedList::default();
    let mut tail = 0;
    for e in 0..BUCKET_LEN as u8 {
        promote(&mut list, &mut tail, e);
    }
    for e in 0..BUCKET_LEN as u8 {
        let (evicted, t) = list.evict(tail).unwrap();
        assert_eq!(evicted, e);
        tail = t;
    }
    assert_eq!(tail, 0);
}

#[test]
fn untracked_list_does_nothing() {
    let mut unit = ();
    assert_eq!(unit.evict(3), None);
    assert_eq!(unit.remove(3, 1), None);
    assert_eq!(unit.promote(3, 1), None);
}

#[test]
fn remove_range_states() {
    let range = KeyRange { start: KeyBound::Included(10), end: KeyBound::Excluded(20) };
    assert!(range_contains(&range, 10));
    assert!(!range_contains(&range, 20));
    let s = RemoveRangeState::Below;
    assert_eq!(s.next(5, &range, false), RemoveRangeState::Below);
    assert_eq!(s.next(12, &range, false), RemoveRangeState::MaybeBelow);
    assert_eq!(s.next(12, &range, true), RemoveRangeState::FullyContained);
    assert_eq!(s.next(25, &range, false), RemoveRangeState::MaybeAbove);
    assert_eq!(
        RemoveRangeState::MaybeBelow.next(15, &range, false),
        RemoveRangeState::FullyContained
    );
    assert_eq!(
        RemoveRangeState::FullyContained.next(30, &range, false),
        RemoveRangeState::MaybeAbove
    );
    let excl = KeyRange { start: KeyBound::Excluded(10), end: KeyBound::Unbounded };
    assert_eq!(RemoveRangeState::Below.next(10, &excl, false), RemoveRangeState::Below);
    let empty = KeyRange { start: KeyBound::Included(10), end: KeyBound::Excluded(10) };
    assert_eq!(RemoveRangeState::Below.next(10, &empty, false), RemoveRangeState::MaybeAbove);
}

#[test]
fn likely_and_hasher() {
    assert!(likely(true));
    assert!(!likely(false));
    let mut h = IdentityHasher::new();
    assert_eq!(h.finish(), 0);
    h.write_u64(0xdead_beef);
    h.write_u64(42);
    assert_eq!(h.finish(), 42);
}

struct Cloner;

impl Replicator<Vec<i32>> for Cloner {
    fn replicates(&self, _source: Vec<i32>, _remaining: usize, _replica: Vec<i32>) -> bool {
        unreachable!("what a replicator may make is only described in proofs")
    }

    fn replicate(&mut self, source: &Vec<i32>, _remaining: usize) -> Vec<i32> {
        source.clone()
    }
}

struct Tagger;

impl Replicator<String> for Tagger {
    fn replicates(&self, _source: String, _remaining: usize, _replica: String) -> bool {
        unreachable!("what a replicator may make is only described in proofs")
    }

    fn replicate(&mut self, source: &String, remaining: usize) -> String {
        format!("{source}-{remaining}")
    }
}

#[test]
fn clone_three_times() {
    let v = vec![1, 2, 3];
    let mut iter = RepMove::new(v, Cloner, 3);

    assert_eq!(iter.len(), 3);
    assert_eq!(iter.next(), Some(vec![1, 2, 3]));
    assert_eq!(iter.len(), 2);
    assert_eq!(iter.next(), Some(vec![1, 2, 3]));
    assert_eq!(iter.len(), 1);
    assert_eq!(iter.next(), Some(vec![1, 2, 3])); // moved
    assert_eq!(iter.len(), 0);
    assert_eq!(iter.next(), None);
}

#[test]
fn remaining_aware_replicator() {
    let mut iter = RepMove::new(String::from("test"), Tagger, 2);
    assert_eq!(iter.next(), Some("test-1".to_string()));
    assert_eq!(iter.next(), Some("test".to_string()));
    assert_eq!(iter.next(), None);

    let tagged: Vec<String> = {
        let mut it = RepMove::new(String::from("item"), Tagger, 3);
        let mut out = Vec::new();
        while let Some(s) = it.next() {
            out.push(s);
        }
        out
    };
    assert_eq!(tagged, ["item-2", "item-1", "item"]);
}

#[test]
fn zero_count_and_into_inner() {
    let mut iter = RepMove::new(vec![1, 2, 3], Cloner, 0);
    assert_eq!(iter.len(), 0);
    assert_eq!(iter.next(), None);
    assert_eq!(iter.into_inner(), None);

    let iter = RepMove::new(vec![1, 2, 3], Cloner, 5);
    assert_eq!(iter.into_inner(), Some(vec![1, 2, 3]));

    let mut single = RepMove::new(vec![42], Cloner, 1);
    assert_eq!(single.next(), Some(vec![42]));
    assert_eq!(single.next(), None);
    assert_eq!(single.into_inner(), None);
    assert_eq!(RepMove::<Vec<i32>, Cloner>::empty().len(), 0);
}

struct StopNow;

impl CountingReplicator<Vec<i32>> for StopNow {
    fn replicates(&self, _source: Vec<i32>, _remaining: usize, _replica: Vec<i32>, _left: usize) -> bool {
        unreachable!("what a replicator may make is only described in proofs")
    }

    fn replicate(&mut self, source: &Vec<i32>, remaining: &mut usize) -> Vec<i32> {
        *remaining = 0;
        source.clone()
    }
}

struct CountDown;

impl CountingReplicator<Vec<i32>> for CountDown {
    fn replicates(&self, _source: Vec<i32>, _remaining: usize, _replica: Vec<i32>, _left: usize) -> bool {
        unreachable!("what a replicator may make is only described in proofs")
    }

    fn replicate(&mut self, source: &Vec<i32>, remaining: &mut usize) -> Vec<i32> {
        *remaining = remaining.saturating_sub(1);
        source.clone()
    }
}

#[test]
fn unchecked_early_stop() {
    let mut iter = UncheckedRepMove::new(vec![1, 2, 3], StopNow, 5);
    assert_eq!(iter.next(), Some(vec![1, 2, 3]));
    assert_eq!(iter.next(), Some(vec![1, 2, 3]));
    assert_eq!(iter.next(), None);
}

#[test]
fn unchecked_gradual_countdown() {
    let mut iter = UncheckedRepMove::new(vec![1, 2, 3], CountDown, 4);
    for _ in 0..4 {
        assert_eq!(iter.next(), Some(vec![1, 2, 3]));
    }
    assert_eq!(iter.next(), None);
    assert_eq!(UncheckedRepMove::<Vec<i32>, CountDown>::empty().into_inner(), None);
}
