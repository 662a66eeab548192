use timewise_deque::{Timestamp, TimewiseDeque};

fn at(seconds: i64) -> Timestamp {
    Timestamp::new(seconds, 0)
}

#[test]
fn prune_then_fetch_keeps_recent_suffix() {
    let mut q = TimewiseDeque::new();
    q.add_item(at(0), 10u64);
    q.add_item(at(1), 20);
    q.add_item(at(2), 30);
    q.add_item(at(3), 40);
    q.prune_before(&at(2));
    assert_eq!(q.len(), 2);
    let r = q.fetch_items_since(at(1));
    assert_eq!(r.len(), 2);
    assert_eq!(*r[0], (at(2), 30));
    assert_eq!(*r[1], (at(3), 40));
}

#[test]
fn empty_buffer_operations_are_no_ops() {
    let mut q = TimewiseDeque::<u32>::new();
    q.prune_before(&at(7));
    assert_eq!(q.len(), 0);
    let r = q.fetch_items_since(at(-100));
    assert!(r.is_empty());
    let r = q.fetch_items_since(at(100));
    assert!(r.is_empty());
}

#[test]
fn equal_timestamps_keep_insertion_order() {
    let mut q = TimewiseDeque::new();
    q.add_item(at(5), 1u8);
    q.add_item(at(5), 2);
    q.add_item(at(5), 3);
    let r = q.fetch_items_since(at(5));
    assert_eq!(r.len(), 3);
    assert_eq!(r[0].1, 1);
    assert_eq!(r[1].1, 2);
    assert_eq!(r[2].1, 3);
}

#[test]
fn prune_with_older_cutoff_changes_nothing() {
    let mut q = TimewiseDeque::new();
    for s in 1..=5i64 {
        q.add_item(at(s), s as u32);
    }
    q.prune_before(&at(3));
    let after_first: Vec<(Timestamp, u32)> =
        q.fetch_items_since(at(i64::MIN)).into_iter().map(|p| (p.0, p.1)).collect();
    q.prune_before(&at(2));
    let after_second: Vec<(Timestamp, u32)> =
        q.fetch_items_since(at(i64::MIN)).into_iter().map(|p| (p.0, p.1)).collect();
    assert_eq!(after_first, vec![(at(3), 3), (at(4), 4), (at(5), 5)]);
    assert_eq!(after_first, after_second);
}

#[test]
fn insertions_stay_in_chronological_order() {
    let mut q = TimewiseDeque::new();
    let stamps = [at(0), at(0), at(2), Timestamp::new(2, 500), at(3), at(3)];
    for (k, t) in stamps.iter().enumerate() {
        q.add_item(*t, k);
    }
    let r = q.fetch_items_since(at(i64::MIN));
    assert_eq!(r.len(), stamps.len());
    for w in r.windows(2) {
        assert!(w[0].0.le(&w[1].0));
    }
    for (k, p) in r.iter().enumerate() {
        assert_eq!(p.1, k);
    }
}

#[test]
fn out_of_order_insertion_is_rejected() {
    let mut q = TimewiseDeque::new();
    q.add_item(at(10), "a");
    assert_eq!(q.try_add_item(at(9), "b"), Err((at(9), "b")));
    assert_eq!(q.len(), 1);
    let r = q.fetch_items_since(at(i64::MIN));
    assert_eq!(*r[0], (at(10), "a"));
}

#[test]
fn checked_insertion_accepts_ties_and_newer() {
    let mut q = TimewiseDeque::new();
    assert_eq!(q.try_add_item(at(4), 'x'), Ok(()));
    assert_eq!(q.try_add_item(at(4), 'y'), Ok(()));
    assert_eq!(q.try_add_item(at(6), 'z'), Ok(()));
    assert_eq!(q.len(), 3);
}

#[test]
fn prune_is_idempotent() {
    let mut q = TimewiseDeque::new();
    for s in 0..6i64 {
        q.add_item(at(s), s);
    }
    q.prune_before(&at(4));
    let once: Vec<(Timestamp, i64)> =
        q.fetch_items_since(at(i64::MIN)).into_iter().map(|p| (p.0, p.1)).collect();
    q.prune_before(&at(4));
    let twice: Vec<(Timestamp, i64)> =
        q.fetch_items_since(at(i64::MIN)).into_iter().map(|p| (p.0, p.1)).collect();
    assert_eq!(once, vec![(at(4), 4), (at(5), 5)]);
    assert_eq!(once, twice);
}

#[test]
fn prune_keeps_entry_at_the_cutoff() {
    let mut q = TimewiseDeque::new();
    q.add_item(at(1), 'a');
    q.add_item(at(2), 'b');
    q.prune_before(&at(2));
    assert_eq!(q.len(), 1);
    let r = q.fetch_items_since(at(i64::MIN));
    assert_eq!(*r[0], (at(2), 'b'));
}

#[test]
fn fetch_yields_exactly_the_qualifying_suffix() {
    let mut q = TimewiseDeque::new();
    q.add_item(at(1), 100u16);
    q.add_item(at(3), 200);
    q.add_item(at(3), 300);
    q.add_item(at(8), 400);
    let r = q.fetch_items_since(at(3));
    assert_eq!(r.len(), 3);
    assert_eq!(*r[0], (at(3), 200));
    assert_eq!(*r[1], (at(3), 300));
    assert_eq!(*r[2], (at(8), 400));
    let none = q.fetch_items_since(at(9));
    assert!(none.is_empty());
}

#[test]
fn milliseconds_break_ties_between_equal_seconds() {
    let mut q = TimewiseDeque::new();
    q.add_item(Timestamp::new(1, 500), 'a');
    q.add_item(Timestamp::new(1, 700), 'b');
    q.add_item(Timestamp::new(2, 0), 'c');
    q.prune_before(&Timestamp::new(1, 600));
    let r = q.fetch_items_since(Timestamp::new(0, 0));
    assert_eq!(r.len(), 2);
    assert_eq!(*r[0], (Timestamp::new(1, 700), 'b'));
    assert_eq!(*r[1], (Timestamp::new(2, 0), 'c'));
}

#[test]
fn new_and_default_are_empty() {
    let q = TimewiseDeque::<String>::new();
    assert_eq!(q.len(), 0);
    let d = TimewiseDeque::<String>::default();
    assert_eq!(d.len(), 0);
}
