use libdoh::globals::{saturating_predecessor, ClientsCount};

#[test]
fn test_clients_count_default_is_zero() {
    let count = ClientsCount::default();
    assert_eq!(count.current(), 0);
}

#[test]
fn test_increment_returns_previous_value() {
    let count = ClientsCount::default();
    assert_eq!(count.increment(), 0);
    assert_eq!(count.current(), 1);
    assert_eq!(count.increment(), 1);
    assert_eq!(count.current(), 2);
}

#[test]
fn test_decrement_reduces_count() {
    let count = ClientsCount::default();
    count.increment();
    count.increment();
    assert_eq!(count.current(), 2);
    count.decrement();
    assert_eq!(count.current(), 1);
    count.decrement();
    assert_eq!(count.current(), 0);
}

#[test]
fn test_decrement_at_zero_does_not_underflow() {
    let count = ClientsCount::default();
    assert_eq!(count.current(), 0);
    count.decrement();
    assert_eq!(count.current(), 0);
}

#[test]
fn test_clone_shares_state() {
    let count = ClientsCount::default();
    count.increment();
    let count2 = count.clone();
    assert_eq!(count2.current(), 1);
    count.increment();
    assert_eq!(count2.current(), 2);
}

#[test]
fn test_increment_then_decrement_returns_to_zero() {
    let count = ClientsCount::default();
    for _ in 0..5 {
        count.increment();
    }
    assert_eq!(count.current(), 5);
    for _ in 0..5 {
        count.decrement();
    }
    assert_eq!(count.current(), 0);
}

#[test]
fn decrement_returns_count_before() {
    let count = ClientsCount::default();
    assert_eq!(count.decrement(), 0);
    count.increment();
    count.increment();
    assert_eq!(count.decrement(), 2);
    assert_eq!(saturating_predecessor(0), None);
    assert_eq!(saturating_predecessor(3), Some(2));
}
