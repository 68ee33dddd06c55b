use std::cmp::Ordering;

use set_timeout::ScheduledTimeoutIdentifier;

#[test]
fn new_keeps_fields() {
    let id = ScheduledTimeoutIdentifier::new(1234, 99);
    assert_eq!(id.run_at, 1234);
    assert_eq!(id.boxed_future_addr, 99);
}

#[test]
fn get_delay_waits_for_remaining_time() {
    let id = ScheduledTimeoutIdentifier::new(100, 7);
    assert_eq!(id.get_delay(40, 10), Some(60));
    assert_eq!(id.get_delay(40, 0), Some(60));
    assert_eq!(id.get_delay(0, 0), Some(100));
}

#[test]
fn get_delay_below_minimum_is_none() {
    let id = ScheduledTimeoutIdentifier::new(100, 7);
    assert_eq!(id.get_delay(95, 10), None);
    assert_eq!(id.get_delay(91, 10), None);
}

#[test]
fn get_delay_at_minimum_boundary() {
    let id = ScheduledTimeoutIdentifier::new(100, 7);
    // run_at == now + min is not smaller than now + min, so the scheduler waits for it.
    assert_eq!(id.get_delay(90, 10), Some(10));
    // due exactly now, with no minimum delay: wait for zero nanoseconds.
    assert_eq!(id.get_delay(100, 0), Some(0));
}

#[test]
fn get_delay_in_the_past_is_none() {
    let id = ScheduledTimeoutIdentifier::new(100, 7);
    assert_eq!(id.get_delay(150, 0), None);
    assert_eq!(id.get_delay(101, 0), None);
}

#[test]
fn get_delay_with_huge_values_does_not_overflow() {
    let id = ScheduledTimeoutIdentifier::new(5, 1);
    assert_eq!(id.get_delay(u128::MAX, u128::MAX), None);
    let far = ScheduledTimeoutIdentifier::new(u128::MAX, 1);
    assert_eq!(far.get_delay(0, u128::MAX), Some(u128::MAX));
    assert_eq!(far.get_delay(1, u128::MAX), None);
}

#[test]
fn identifiers_are_ordered_by_run_at_first() {
    let early = ScheduledTimeoutIdentifier::new(10, 500);
    let late = ScheduledTimeoutIdentifier::new(20, 1);
    assert_eq!(early.partial_cmp(&late), Some(Ordering::Less));
    assert_eq!(late.partial_cmp(&early), Some(Ordering::Greater));
    assert!(early < late);
    assert_eq!(early.cmp(&late), Ordering::Less);
    assert!(early.is_before(&late));
    assert!(!late.is_before(&early));
}

#[test]
fn identifiers_with_same_run_at_are_ordered_by_address() {
    let a = ScheduledTimeoutIdentifier::new(10, 1);
    let b = ScheduledTimeoutIdentifier::new(10, 2);
    assert_eq!(a.partial_cmp(&b), Some(Ordering::Less));
    assert_eq!(b.partial_cmp(&a), Some(Ordering::Greater));
    assert_eq!(a.cmp(&b), Ordering::Less);
    assert!(a.is_before(&b));
    assert_ne!(a, b);
}

#[test]
fn equal_identifiers_compare_equal() {
    let a = ScheduledTimeoutIdentifier::new(10, 3);
    let b = ScheduledTimeoutIdentifier::new(10, 3);
    assert_eq!(a, b);
    assert_eq!(a.partial_cmp(&b), Some(Ordering::Equal));
    assert_eq!(a.cmp(&b), Ordering::Equal);
    assert!(!a.is_before(&b));
}

#[test]
fn sorting_identifiers_follows_their_order() {
    let mut ids = vec![
        ScheduledTimeoutIdentifier::new(30, 1),
        ScheduledTimeoutIdentifier::new(10, 9),
        ScheduledTimeoutIdentifier::new(10, 2),
        ScheduledTimeoutIdentifier::new(20, 5),
    ];
    ids.sort();
    let pairs: Vec<(u128, usize)> = ids.iter().map(|id| (id.run_at, id.boxed_future_addr)).collect();
    assert_eq!(pairs, vec![(10, 2), (10, 9), (20, 5), (30, 1)]);
}
