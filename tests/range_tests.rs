use custom_ecs::{RangeAllocator, ValidEntityRange};

fn range(lower: usize, upper: Option<usize>) -> ValidEntityRange {
    ValidEntityRange::new(lower, upper)
}

#[test]
fn allocate_three_then_release_middle_and_first() {
    let mut alloc = RangeAllocator::new();
    assert_eq!(alloc.allocate_lowest(), Some(0));
    assert_eq!(alloc.allocate_lowest(), Some(1));
    assert_eq!(alloc.allocate_lowest(), Some(2));
    alloc.release(1);
    assert_eq!(alloc.ranges(), vec![range(1, Some(1)), range(3, None)]);
    alloc.release(0);
    assert_eq!(alloc.ranges(), vec![range(0, Some(1)), range(3, None)]);
}

#[test]
fn fresh_allocator_has_one_unbounded_range() {
    let alloc = RangeAllocator::new();
    assert_eq!(alloc.ranges(), vec![range(0, None)]);
    assert_eq!(alloc.first_valid_entity(), Some(0));
}

#[test]
fn allocate_returns_smallest_free_identifier() {
    let mut alloc = RangeAllocator::new();
    for expected in 0..5usize {
        assert_eq!(alloc.allocate_lowest(), Some(expected));
    }
    alloc.release(3);
    alloc.release(1);
    assert_eq!(alloc.allocate_lowest(), Some(1));
    assert_eq!(alloc.allocate_lowest(), Some(3));
    assert_eq!(alloc.allocate_lowest(), Some(5));
}

#[test]
fn release_of_allocated_restores_ranges() {
    let mut alloc = RangeAllocator::new();
    for _ in 0..6 {
        alloc.allocate_lowest();
    }
    alloc.release(2);
    alloc.release(4);
    let before = alloc.ranges();
    let id = alloc.allocate_lowest().unwrap();
    assert_eq!(id, 2);
    alloc.release(id);
    assert_eq!(alloc.ranges(), before);
}

#[test]
fn release_merges_both_neighbours() {
    let mut alloc = RangeAllocator::new();
    for _ in 0..5 {
        alloc.allocate_lowest();
    }
    alloc.release(1);
    alloc.release(3);
    assert_eq!(alloc.ranges(), vec![range(1, Some(1)), range(3, Some(3)), range(5, None)]);
    alloc.release(2);
    assert_eq!(alloc.ranges(), vec![range(1, Some(3)), range(5, None)]);
    alloc.release(4);
    assert_eq!(alloc.ranges(), vec![range(1, None)]);
}

#[test]
fn remove_from_the_middle_splits_a_range() {
    let mut alloc = RangeAllocator::new();
    alloc.remove_valid_entity(4);
    assert_eq!(alloc.ranges(), vec![range(0, Some(3)), range(5, None)]);
    alloc.remove_valid_entity(4);
    assert_eq!(alloc.ranges(), vec![range(0, Some(3)), range(5, None)]);
    alloc.add_valid_entity(4);
    assert_eq!(alloc.ranges(), vec![range(0, None)]);
}

#[test]
fn largest_identifier_round_trip() {
    let mut alloc = RangeAllocator::new();
    alloc.remove_valid_entity(usize::MAX);
    assert_eq!(alloc.ranges(), vec![range(0, Some(usize::MAX - 1))]);
    alloc.add_valid_entity(usize::MAX);
    assert_eq!(alloc.ranges(), vec![range(0, None)]);
}

#[test]
fn double_release_keeps_ranges() {
    let mut alloc = RangeAllocator::new();
    alloc.allocate_lowest();
    alloc.release(7);
    assert_eq!(alloc.ranges(), vec![range(1, None)]);
}

#[test]
fn split_at_cuts_below_and_moves_lower_bound() {
    let mut r = range(2, Some(9));
    assert_eq!(r.split_at(&5), Some(range(2, Some(4))));
    assert_eq!(r, range(6, Some(9)));
    let mut r = range(2, None);
    assert_eq!(r.split_at(&2), None);
    assert_eq!(r, range(3, None));
    let mut r = range(4, Some(6));
    assert_eq!(r.split_at(&1), None);
    assert_eq!(r, range(4, Some(6)));
}

#[test]
fn merge_with_adjacent_and_unbounded() {
    let mut a = range(0, Some(2));
    assert!(a.merge_with(&range(3, Some(5))));
    assert_eq!(a, range(0, Some(5)));
    let mut b = range(4, Some(6));
    assert!(b.merge_with(&range(7, None)));
    assert_eq!(b, range(4, None));
    let mut c = range(0, Some(1));
    assert!(!c.merge_with(&range(3, Some(4))));
    assert_eq!(c, range(0, Some(1)));
}

#[test]
fn touches_and_intersects() {
    assert!(range(0, Some(2)).touches(&range(3, Some(5))));
    assert!(!range(0, Some(2)).intersects(&range(3, Some(5))));
    assert!(range(0, Some(3)).intersects(&range(3, Some(5))));
    assert!(!range(0, Some(1)).touches(&range(3, None)));
    assert!(range(5, None).touches(&range(9, None)));
    assert!(range(5, None).intersects(&range(0, Some(5))));
}

#[test]
fn contains_and_is_valid() {
    assert!(range(2, Some(4)).contains(&2));
    assert!(range(2, Some(4)).contains(&4));
    assert!(!range(2, Some(4)).contains(&5));
    assert!(!range(2, None).contains(&1));
    assert!(range(2, None).contains(&usize::MAX));
    assert!(range(3, Some(3)).is_valid());
    assert!(!range(4, Some(3)).is_valid());
    assert!(range(4, None).is_valid());
}
