//! Creating items through the add use-case.

use chrono::NaiveDateTime;
use todo::item::Item;
use todo::priority::Priority;
use todo::store::MemoryPool;
use todo::tag::TagSet;
use todo::usecase::add;

fn get_deadline() -> i64 {
    NaiveDateTime::parse_from_str("2023-06-17 23:20:00", "%Y-%m-%d %H:%M:%S")
        .unwrap()
        .and_utc()
        .timestamp()
}

fn new_test_item() -> Item {
    Item::new(
        "Test",
        "This is content.",
        get_deadline(),
        TagSet::new(),
        Priority::try_from(0).unwrap(),
    )
}

#[test]
fn add_it_should_return_an_id_when_creating_item_succeeded() {
    let item = new_test_item();
    let id = item.id();

    let request = add::Request {
        title: item.summary().to_owned(),
        description: item.content().to_owned(),
        deadline: item.deadline(),
        tags: item.tags().clone(),
        priority: item.priority().value(),
    };

    let mut pool = MemoryPool::new();
    let res = add::execute(&mut pool, request);
    assert_eq!(res, Ok(add::Response { id }));
}

#[test]
fn it_should_return_invalid_error_when_title_is_empty() {
    let request = add::Request {
        title: String::new(),
        description: String::from("This is description."),
        deadline: get_deadline(),
        tags: TagSet::new(),
        priority: 0i32,
    };

    let mut pool = MemoryPool::new();
    let res = add::execute(&mut pool, request);
    assert_eq!(res, Err(add::AddItemError::Invalid));
}

#[test]
fn it_should_return_invalid_error_when_priority_is_out_of_bound() {
    let request = add::Request {
        title: String::from("Test"),
        description: String::from("This is description."),
        deadline: get_deadline(),
        tags: TagSet::new(),
        priority: 10i32,
    };

    let mut pool = MemoryPool::new();
    let res = add::execute(&mut pool, request);
    assert_eq!(res, Err(add::AddItemError::Invalid));
}

#[test]
fn it_should_return_conflict_error_when_adding_two_same_items() {
    let request = add::Request {
        title: String::from("Test"),
        description: String::from("This is description."),
        deadline: get_deadline(),
        tags: TagSet::new(),
        priority: 0i32,
    };
    let request_again = add::Request {
        title: String::from("Test"),
        description: String::from("This is description."),
        deadline: get_deadline(),
        tags: TagSet::new(),
        priority: 0i32,
    };

    let mut pool = MemoryPool::new();
    let _ = add::execute(&mut pool, request);
    let res = add::execute(&mut pool, request_again);
    assert_eq!(res, Err(add::AddItemError::Conflict));
}
