use teardown::scope::{Status, Tracker};

#[test]
fn new_tracker_is_empty() {
    let t = Tracker::new();
    assert_eq!(t.entries.len(), 0);
    assert_eq!(t.log, Vec::<u64>::new());
}

#[test]
fn ending_an_empty_scope_notifies_nothing() {
    let mut t = Tracker::new();
    t.end_scope();
    assert_eq!(t.log, Vec::<u64>::new());
}

#[test]
fn construction_produces_no_notification() {
    let mut t = Tracker::new();
    let a = t.construct_leaf(1);
    let b = t.construct_composite(2, 3);
    assert_eq!(a, 0);
    assert_eq!(b, 1);
    assert_eq!(t.log, Vec::<u64>::new());
    assert!(matches!(t.entries[a].status, Status::Live));
    assert!(matches!(t.entries[b].status, Status::Live));
}

#[test]
fn early_release_is_immediate_and_outer_before_inner() {
    let mut t = Tracker::new();
    let c = t.construct_composite(1, 2);
    t.release_now(c);
    assert_eq!(t.log, vec![1, 2]);
    assert!(matches!(t.entries[c].status, Status::Released));
}

#[test]
fn early_release_then_scope_end_notifies_exactly_once() {
    let mut t = Tracker::new();
    let c = t.construct_composite(1, 2);
    let z: i32 = 10;
    t.release_now(c);
    assert_eq!(t.log, vec![1, 2]);
    t.end_scope();
    assert_eq!(t.log, vec![1, 2]);
    assert_eq!(z, 10);
}

#[test]
fn scope_end_releases_composite_outer_before_inner() {
    let mut t = Tracker::new();
    let _c = t.construct_composite(4, 5);
    t.end_scope();
    assert_eq!(t.log, vec![4, 5]);
}

#[test]
fn scope_end_releases_siblings_in_reverse_construction_order() {
    let mut t = Tracker::new();
    let _a = t.construct_leaf(1);
    let _b = t.construct_leaf(2);
    t.end_scope();
    assert_eq!(t.log, vec![2, 1]);
}

#[test]
fn scope_end_mixes_reverse_order_with_outer_before_inner() {
    let mut t = Tracker::new();
    let _a = t.construct_leaf(3);
    let _c = t.construct_composite(4, 5);
    let _b = t.construct_leaf(6);
    t.end_scope();
    assert_eq!(t.log, vec![6, 4, 5, 3]);
}

#[test]
fn early_release_in_the_middle_skips_only_that_entry() {
    let mut t = Tracker::new();
    let _a = t.construct_leaf(1);
    let b = t.construct_leaf(2);
    let _c = t.construct_leaf(3);
    t.release_now(b);
    assert_eq!(t.log, vec![2]);
    t.end_scope();
    assert_eq!(t.log, vec![2, 3, 1]);
}

#[test]
fn early_release_of_a_leaf_notifies_once() {
    let mut t = Tracker::new();
    let a = t.construct_leaf(7);
    t.release_now(a);
    t.end_scope();
    assert_eq!(t.log, vec![7]);
}

#[test]
fn scope_end_marks_every_entry_released() {
    let mut t = Tracker::new();
    let _a = t.construct_leaf(1);
    let _c = t.construct_composite(2, 3);
    t.end_scope();
    for e in &t.entries {
        assert!(matches!(e.status, Status::Released));
    }
}
