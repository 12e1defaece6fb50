//! The bounded memo.

use boreas_core::fifo::BoundedFifo;

#[test]
fn a_memo_never_exceeds_its_capacity_and_forgets_oldest_first() {
    let mut memo = BoundedFifo::new(2);
    let made = std::cell::Cell::new(0);
    let make = |k: u32| {
        made.set(made.get() + 1);
        k * 10
    };

    assert_eq!(*memo.get_or_insert_with(1, || make(1)), 10);
    assert_eq!(*memo.get_or_insert_with(1, || make(1)), 10);
    assert_eq!(made.get(), 1, "a hit computes nothing");

    memo.get_or_insert_with(2, || make(2));
    memo.get_or_insert_with(3, || make(3));
    assert_eq!(memo.len(), 2);
    assert_eq!(memo.get(&1).copied(), None, "the oldest entry is gone");
    assert_eq!(memo.get(&3).copied(), Some(30));
}
