use event_catalog::counter::{fetch_plus, Counter};

#[test]
fn counter_starts_from_saved_digits() {
    let counter = Counter::new(Some("1234"));
    assert_eq!(counter.get_count(), 1234);
}

#[test]
fn counter_starts_at_zero_without_a_file() {
    let counter = Counter::new(None);
    assert_eq!(counter.get_count(), 0);
}

#[test]
fn counter_rejects_illegal_saved_text() {
    assert_eq!(Counter::new(Some("")).get_count(), 0);
    assert_eq!(Counter::new(Some("12x4")).get_count(), 0);
    assert_eq!(Counter::new(Some("-3")).get_count(), 0);
    assert_eq!(Counter::new(Some(" 7")).get_count(), 0);
    assert_eq!(Counter::new(Some("99999999999999999999999999999999")).get_count(), 0);
}

#[test]
fn counter_accepts_the_largest_count() {
    let largest = usize::MAX.to_string();
    let counter = Counter::new(Some(&largest));
    assert_eq!(counter.get_count(), usize::MAX);
}

#[test]
fn counter_accepts_leading_zeros() {
    assert_eq!(Counter::new(Some("0042")).get_count(), 42);
    assert_eq!(Counter::new(Some("0")).get_count(), 0);
}

#[test]
fn increment_returns_the_updated_count() {
    let mut counter = Counter::new(Some("9"));
    assert_eq!(counter.increment(), 10);
    assert_eq!(counter.increment(), 11);
    assert_eq!(counter.get_count(), 11);
}

#[test]
fn fetch_plus_returns_the_sum() {
    assert_eq!(fetch_plus(0, 1), 1);
    assert_eq!(fetch_plus(41, 1), 42);
    assert_eq!(fetch_plus(usize::MAX - 1, 1), usize::MAX);
}
