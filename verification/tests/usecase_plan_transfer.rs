//! Planning and transferring items across the stores and the ID pool.

use chrono::NaiveDateTime;
use todo::item::Item;
use todo::priority::Priority;
use todo::store::{GetError, MemoryPool};
use todo::tag::TagSet;
use todo::trie::{Trie, TriePool};
use todo::usecase::{plan, transfer};

fn get_deadline() -> i64 {
    NaiveDateTime::parse_from_str("2023-06-17 23:20:00", "%Y-%m-%d %H:%M:%S")
        .unwrap()
        .and_utc()
        .timestamp()
}

fn new_test_item() -> Item {
    Item::new(
        "Test",
        "This is content.",
        get_deadline(),
        TagSet::new(),
        Priority::try_from(0).unwrap(),
    )
}

#[test]
fn plan_it_should_return_an_id_when_creating_item_succeeded() {
    let item = new_test_item();
    let id = item.id();

    let request = plan::Request {
        title: item.summary().to_owned(),
        description: item.content().to_owned(),
        deadline: item.deadline(),
        tags: item.tags().clone(),
        priority: item.priority().value(),
    };

    let mut planned = MemoryPool::new();
    let mut ids = TriePool::new();
    let res = plan::execute(&mut planned, &mut ids, request);
    assert_eq!(res, Ok(plan::Response { id }));
    assert!(ids.remove(res.unwrap().id));
}

#[test]
fn transfer_it_should_return_ok_when_succeeded() {
    let item = new_test_item();
    let id = item.id();

    let mut source = MemoryPool::from_items(vec![item]);
    let mut destination = MemoryPool::new();

    let mut trie = Trie::new();
    trie.insert(id);
    let mut ids = TriePool::from_trie(trie);

    let request = transfer::Request { id };
    let res = transfer::execute(&mut source, &mut destination, &mut ids, request);

    assert_eq!(res, Ok(()));
    assert!(matches!(source.get(id), Err(GetError::NotFound)));
    assert!(matches!(destination.get(id), Ok(_)));
    assert!(!ids.remove(id));
}

#[test]
fn transfer_it_should_return_not_found_error_when_the_target_does_not_exist() {
    let mut source = MemoryPool::new();
    let mut destination = MemoryPool::new();
    let mut ids = TriePool::new();
    let request = transfer::Request { id: 0 };
    let res = transfer::execute(&mut source, &mut destination, &mut ids, request);
    assert_eq!(res, Err(transfer::TransferError::NotFound));
}
