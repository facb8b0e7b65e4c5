//! Filtered, ordered listing through the select use-case.

use chrono::NaiveDateTime;
use todo::item::Item;
use todo::priority::Priority;
use todo::store::MemoryPool;
use todo::tag::TagSet;
use todo::usecase::select;

fn parse_time(time: &str) -> i64 {
    NaiveDateTime::parse_from_str(time, "%Y-%m-%d %H:%M:%S")
        .unwrap()
        .and_utc()
        .timestamp()
}

fn new_item(title: &str, time: &str, priority: i32, tags: &[&str]) -> Item {
    let mut tag_set = TagSet::new();
    for &t in tags.iter() {
        tag_set.insert(t.to_owned());
    }
    Item::new(
        title,
        "",
        parse_time(time),
        tag_set,
        Priority::try_from(priority).unwrap(),
    )
}

fn tag_set(tags: &[&str]) -> TagSet {
    let mut set = TagSet::new();
    for &t in tags.iter() {
        set.insert(t.to_owned());
    }
    set
}

#[test]
fn it_should_return_a_set_of_items_containing_given_tags() {
    let items = vec![
        new_item("1", "2023-06-18 3:51:01", 1, &["a"]),
        new_item("2", "2023-06-18 3:51:01", 1, &["b"]),
        new_item("3", "2023-06-18 3:51:01", 1, &["c"]),
        new_item("4", "2023-06-18 3:51:01", 1, &["a", "b"]),
        new_item("5", "2023-06-18 3:51:00", 1, &["a", "c"]),
        new_item("6", "2023-06-18 3:51:00", 0, &["b", "c"]),
        new_item("7", "2023-06-18 3:51:00", 0, &["a", "b", "c"]),
    ];
    let pool = MemoryPool::from_items(items);

    let request = select::Request {
        tags: tag_set(&["a", "b"]),
        before: None,
        after: None,
    };

    let res = select::execute(&pool, request);

    assert_eq!(
        res,
        Ok(select::Response {
            items: vec![
                new_item("7", "2023-06-18 3:51:00", 0, &["a", "b", "c"]),
                new_item("4", "2023-06-18 3:51:01", 1, &["a", "b"]),
            ]
        })
    );
}

#[test]
fn it_should_return_all_items_when_the_given_tag_set_is_empty() {
    let items = vec![
        new_item("1", "2023-06-18 3:51:00", 1, &["a"]),
        new_item("2", "2023-06-18 3:51:01", 2, &["b"]),
        new_item("3", "2023-06-18 3:51:00", 2, &[]),
    ];
    let pool = MemoryPool::from_items(items);

    let request = select::Request {
        tags: TagSet::new(),
        before: None,
        after: None,
    };

    let res = select::execute(&pool, request);

    assert_eq!(
        res,
        Ok(select::Response {
            items: vec![
                new_item("3", "2023-06-18 3:51:00", 2, &[]),
                new_item("1", "2023-06-18 3:51:00", 1, &["a"]),
                new_item("2", "2023-06-18 3:51:01", 2, &["b"]),
            ]
        })
    );
}

#[test]
fn it_should_return_not_found_when_no_suitable_item_exists() {
    let items = vec![
        new_item("1", "2023-06-18 3:51:00", 1, &["a"]),
        new_item("2", "2023-06-18 3:51:01", 2, &["b"]),
        new_item("3", "2023-06-18 3:51:00", 2, &["c"]),
    ];
    let pool = MemoryPool::from_items(items);

    let time = "2023-06-18 3:50:00";

    let request = select::Request {
        tags: TagSet::new(),
        before: Some(parse_time(time)),
        after: None,
    };

    let res = select::execute(&pool, request);
    assert_eq!(res, Err(select::SelectItemError::NotFound));
}

#[test]
fn it_should_return_not_found_when_no_such_tag_exists() {
    let items = vec![
        new_item("1", "2023-06-18 3:51:00", 1, &["a"]),
        new_item("2", "2023-06-18 3:51:01", 2, &["b"]),
        new_item("3", "2023-06-18 3:51:00", 2, &["c"]),
    ];
    let pool = MemoryPool::from_items(items);

    let request = select::Request {
        tags: tag_set(&["d"]),
        before: None,
        after: None,
    };

    let res = select::execute(&pool, request);
    assert_eq!(res, Err(select::SelectItemError::NotFound));
}

#[test]
fn select_rejects_an_inverted_time_window_as_invalid() {
    let items = vec![new_item("1", "2023-06-18 3:51:00", 1, &["a"])];
    let pool = MemoryPool::from_items(items);

    let request = select::Request {
        tags: TagSet::new(),
        before: Some(parse_time("2023-06-18 3:50:00")),
        after: Some(parse_time("2023-06-18 3:51:00")),
    };

    let res = select::execute(&pool, request);
    assert_eq!(res, Err(select::SelectItemError::Invalid));
}

#[test]
fn select_keeps_a_closed_window_with_equal_bounds() {
    let items = vec![
        new_item("1", "2023-06-18 3:51:00", 1, &[]),
        new_item("2", "2023-06-18 3:51:01", 2, &[]),
    ];
    let pool = MemoryPool::from_items(items);

    let bound = parse_time("2023-06-18 3:51:00");
    let request = select::Request {
        tags: TagSet::new(),
        before: Some(bound),
        after: Some(bound),
    };

    let res = select::execute(&pool, request);
    assert_eq!(
        res,
        Ok(select::Response {
            items: vec![new_item("1", "2023-06-18 3:51:00", 1, &[])]
        })
    );
}
