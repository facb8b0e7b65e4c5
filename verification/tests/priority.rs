//! Priority bounds and the deadline check on concrete values.

use chrono::NaiveDateTime;
use todo::item::Item;
use todo::priority::Priority;
use todo::tag::TagSet;

#[test]
fn priority_construction_rejects_out_of_range_values() {
    assert!(Priority::try_from(Priority::MIN).is_ok());
    assert!(Priority::try_from(Priority::MAX).is_ok());
    assert!(Priority::try_from(Priority::MIN - 1).is_err());
    assert!(Priority::try_from(Priority::MAX + 1).is_err());
    assert_eq!(Priority::try_from(2).unwrap().value(), 2);
}

#[test]
fn priority_upgrade_and_downgrade_saturate_at_the_bounds() {
    let mut p = Priority::try_from(2).unwrap();
    p.upgrade();
    assert_eq!(p.value(), 3);
    p.upgrade();
    assert_eq!(p.value(), 3);

    let mut q = Priority::try_from(-2).unwrap();
    q.downgrade();
    assert_eq!(q.value(), -3);
    q.downgrade();
    assert_eq!(q.value(), -3);
}

#[test]
fn an_item_expires_exactly_at_its_deadline() {
    let deadline = NaiveDateTime::parse_from_str("2023-06-17 23:20:00", "%Y-%m-%d %H:%M:%S")
        .unwrap()
        .and_utc()
        .timestamp();
    let item = Item::new(
        "Expiring",
        "",
        deadline,
        TagSet::new(),
        Priority::try_from(0).unwrap(),
    );
    assert!(!item.is_expired(deadline - 1));
    assert!(item.is_expired(deadline));
    assert!(item.is_expired(deadline + 1));
}
