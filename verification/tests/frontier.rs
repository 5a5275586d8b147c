use castle_search::entry::HeapEntry;
use castle_search::frontier::Frontier;
use castle_search::tracker::BestTracker;

fn entry(value: i64, item: u32) -> HeapEntry<u32> {
    HeapEntry { value, item }
}

#[test]
fn an_empty_frontier_gives_nothing() {
    let mut frontier: Frontier<u32> = Frontier::new();
    assert!(frontier.is_empty());
    assert_eq!(frontier.len(), 0);
    assert!(frontier.peek().is_none());
    assert!(frontier.pop().is_none());
    assert_eq!(frontier.len(), 0);
}

#[test]
fn entries_leave_greatest_first() {
    let mut frontier: Frontier<u32> = Frontier::new();
    let values = [5i64, -2, 17, 3, 9, 0, 12, 8, -7, 4];
    for (item, value) in values.iter().enumerate() {
        frontier.push(entry(*value, item as u32));
    }
    assert_eq!(frontier.len(), 10);
    assert!(!frontier.is_empty());
    let top = frontier.peek().expect("ten entries wait");
    assert_eq!((top.value, top.item), (17, 2));
    let mut out = Vec::new();
    while let Some(e) = frontier.pop() {
        assert_eq!(values[e.item as usize], e.value);
        out.push(e.value);
    }
    assert_eq!(out, vec![17, 12, 9, 8, 5, 4, 3, 0, -2, -7]);
    assert!(frontier.is_empty());
}

#[test]
fn entries_of_equal_fitness_all_leave() {
    let mut frontier: Frontier<u32> = Frontier::new();
    frontier.push(entry(1, 10));
    frontier.push(entry(2, 20));
    frontier.push(entry(2, 21));
    frontier.push(entry(1, 11));
    frontier.push(entry(2, 22));
    let mut twos = Vec::new();
    for _ in 0..3 {
        let e = frontier.pop().expect("entries wait");
        assert_eq!(e.value, 2);
        twos.push(e.item);
    }
    twos.sort();
    assert_eq!(twos, vec![20, 21, 22]);
    let mut ones = Vec::new();
    for _ in 0..2 {
        let e = frontier.pop().expect("entries wait");
        assert_eq!(e.value, 1);
        ones.push(e.item);
    }
    ones.sort();
    assert_eq!(ones, vec![10, 11]);
    assert!(frontier.pop().is_none());
}

#[test]
fn pushes_and_pops_may_alternate() {
    let mut frontier: Frontier<u32> = Frontier::new();
    frontier.push(entry(4, 0));
    frontier.push(entry(6, 1));
    assert_eq!(frontier.pop().map(|e| e.value), Some(6));
    frontier.push(entry(5, 2));
    frontier.push(entry(1, 3));
    assert_eq!(frontier.pop().map(|e| e.value), Some(5));
    assert_eq!(frontier.pop().map(|e| e.value), Some(4));
    frontier.push(entry(i64::MAX, 4));
    frontier.push(entry(i64::MIN, 5));
    assert_eq!(frontier.pop().map(|e| e.value), Some(i64::MAX));
    assert_eq!(frontier.pop().map(|e| e.value), Some(1));
    assert_eq!(frontier.pop().map(|e| e.value), Some(i64::MIN));
    assert_eq!(frontier.len(), 0);
}

#[test]
fn the_tracker_starts_empty() {
    let tracker: BestTracker<u32> = BestTracker::new();
    assert!(tracker.peek_best().is_none());
    assert_eq!(tracker.len(), 0);
    assert!(tracker.beats(i64::MIN));
}

#[test]
fn the_tracker_keeps_only_new_records() {
    let mut tracker: BestTracker<u32> = BestTracker::new();
    tracker.record(1, 10);
    assert_eq!(tracker.len(), 1);
    tracker.record(2, 10);
    assert_eq!(tracker.len(), 1);
    tracker.record(3, 7);
    assert_eq!(tracker.len(), 1);
    let best = tracker.peek_best().expect("one record");
    assert_eq!((best.item, best.value), (1, 10));
    assert!(!tracker.beats(10));
    assert!(tracker.beats(11));
    tracker.record(4, 11);
    assert_eq!(tracker.len(), 2);
    let best = tracker.peek_best().expect("two records");
    assert_eq!((best.item, best.value), (4, 11));
}

#[test]
fn the_best_fitness_never_falls() {
    let mut tracker: BestTracker<u32> = BestTracker::new();
    let offers = [3i64, -1, 3, 8, 8, 2, 100, 99, -50, 101];
    let mut best_so_far = i64::MIN;
    for (item, fitness) in offers.iter().enumerate() {
        tracker.record(item as u32, *fitness);
        let now = tracker.peek_best().expect("something was recorded").value;
        assert!(now >= best_so_far);
        assert!(now >= *fitness);
        best_so_far = now;
    }
    assert_eq!(best_so_far, 101);
    assert_eq!(tracker.len(), 4);
}

#[test]
fn entries_compare_by_fitness_alone() {
    let low = entry(1, 99);
    let high = entry(2, 0);
    let twin = entry(2, 7);
    assert!(low < high);
    assert!(high > low);
    assert!(high >= twin);
    assert!(high <= twin);
    assert!(high == twin);
    assert!(low != high);
    assert_eq!(low.partial_cmp(&high), Some(std::cmp::Ordering::Less));
    assert_eq!(high.partial_cmp(&low), Some(std::cmp::Ordering::Greater));
    assert_eq!(high.partial_cmp(&twin), Some(std::cmp::Ordering::Equal));
    assert_eq!(entry(i64::MIN, 0).partial_cmp(&entry(i64::MAX, 0)), Some(std::cmp::Ordering::Less));
}

#[test]
fn a_cloned_entry_keeps_fitness_and_state() {
    let first = HeapEntry { value: -4, item: vec![1u8, 2, 3] };
    let second = first.clone();
    assert_eq!(second.value, -4);
    assert_eq!(second.item, vec![1u8, 2, 3]);
    assert_eq!(first.item, second.item);
}
