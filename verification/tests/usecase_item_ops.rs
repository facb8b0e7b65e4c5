//! Reading, removing and mutating single items through the use-cases.

use chrono::NaiveDateTime;
use todo::item::Item;
use todo::priority::Priority;
use todo::store::MemoryPool;
use todo::tag::TagSet;
use todo::usecase::{add_tag, get, remove, remove_tag, set_priority};

fn get_deadline() -> i64 {
    NaiveDateTime::parse_from_str("2023-06-17 23:20:00", "%Y-%m-%d %H:%M:%S")
        .unwrap()
        .and_utc()
        .timestamp()
}

fn new_test_item() -> Item {
    Item::new(
        "Test",
        "This is content.",
        get_deadline(),
        TagSet::new(),
        Priority::try_from(0).unwrap(),
    )
}

#[test]
fn it_should_return_the_corresponding_item_when_getting_item() {
    let item = new_test_item();
    let id = item.id();

    let pool = MemoryPool::from_items(vec![item.clone()]);

    let request = get::Request { id };
    let res = get::execute(&pool, request);

    let response = get::Response {
        id,
        title: item.summary().to_owned(),
        description: item.content().to_owned(),
        deadline: item.deadline(),
        tags: item.tags().clone(),
        priority: item.priority(),
    };

    assert_eq!(res, Ok(response.clone()));

    // Do twice
    let request = get::Request { id };
    let res = get::execute(&pool, request);
    assert_eq!(res, Ok(response));
}

#[test]
fn get_it_should_return_not_found_error_when_the_target_does_not_exist() {
    let pool = MemoryPool::new();
    let request = get::Request { id: 0u64 };
    let res = get::execute(&pool, request);
    assert_eq!(res, Err(get::GetItemError::NotFound));
}

#[test]
fn it_should_return_the_corresponding_item_when_removing_with_id() {
    let item = new_test_item();
    let id = item.id();

    let mut pool = MemoryPool::from_items(vec![item.clone()]);

    let request = remove::Request { id };
    let res = remove::execute(&mut pool, request);

    assert_eq!(
        res,
        Ok(remove::Response {
            id,
            title: item.summary().to_owned(),
            description: item.content().to_owned(),
            deadline: item.deadline(),
            tags: item.tags().clone(),
            priority: item.priority(),
        })
    );
}

#[test]
fn remove_it_should_return_not_found_error_when_the_target_does_not_exist() {
    let mut pool = MemoryPool::new();
    let request = remove::Request { id: 0u64 };
    let res = remove::execute(&mut pool, request);
    assert_eq!(res, Err(remove::RemoveItemError::NotFound));
}

#[test]
fn add_tag_it_should_return_ok_when_succeeding() {
    let item = new_test_item();
    let id = item.id();

    let mut pool = MemoryPool::from_items(vec![item]);

    let mut tags = TagSet::new();
    tags.insert("a".to_owned());
    tags.insert("b".to_owned());

    let request = add_tag::Request { id, tags };
    let res = add_tag::execute(&mut pool, request);

    assert_eq!(res, Ok(()));

    if let Ok(item) = pool.get(id) {
        assert!(item.find_tag(&"a".to_owned()));
        assert!(item.find_tag(&"b".to_owned()));
    } else {
        unreachable!()
    }
}

#[test]
fn it_should_return_conflict_error_but_add_the_rest_when_some_tags_exist() {
    let mut item = new_test_item();
    item.add_tag(String::from("a"));
    let id = item.id();

    let mut pool = MemoryPool::from_items(vec![item]);

    let mut tags = TagSet::new();
    tags.insert("a".to_owned());
    tags.insert("b".to_owned());

    let request = add_tag::Request { id, tags };
    let res = add_tag::execute(&mut pool, request);

    assert_eq!(res, Err(add_tag::AddTagError::Conflict));

    if let Ok(item) = pool.get(id) {
        assert!(item.find_tag(&"a".to_owned()));
        assert!(item.find_tag(&"b".to_owned()));
    } else {
        unreachable!()
    }
}

#[test]
fn it_should_return_not_found_error_when_target_is_not_found() {
    let mut pool = MemoryPool::new();

    let request = add_tag::Request {
        id: 0,
        tags: TagSet::new(),
    };

    let res = add_tag::execute(&mut pool, request);
    assert_eq!(res, Err(add_tag::AddTagError::NotFound));
}

#[test]
fn remove_tag_it_should_return_ok_when_succeeding() {
    let mut item = new_test_item();
    let id = item.id();
    item.add_tag("a".to_owned());
    item.add_tag("b".to_owned());

    let mut pool = MemoryPool::from_items(vec![item]);

    let mut tags = TagSet::new();
    tags.insert("a".to_owned());
    tags.insert("b".to_owned());

    let request = remove_tag::Request { id, tags };
    let res = remove_tag::execute(&mut pool, request);
    assert_eq!(res, Ok(()));

    if let Ok(item) = pool.get(id) {
        assert!(!item.find_tag(&"a".to_owned()));
        assert!(!item.find_tag(&"b".to_owned()));
    } else {
        unreachable!()
    }
}

#[test]
fn it_should_return_tag_not_found_but_remove_the_rest_when_tags_do_not_exist() {
    let mut item = new_test_item();
    let id = item.id();
    item.add_tag("a".to_owned());
    item.add_tag("b".to_owned());

    let mut pool = MemoryPool::from_items(vec![item]);

    let mut tags = TagSet::new();
    tags.insert("c".to_owned());
    tags.insert("d".to_owned());

    let request = remove_tag::Request { id, tags };
    let res = remove_tag::execute(&mut pool, request);
    assert_eq!(res, Err(remove_tag::RemoveTagError::TagNotFound));
}

#[test]
fn it_should_return_item_not_found_error_when_the_target_does_not_exist() {
    let mut pool = MemoryPool::new();

    let request = remove_tag::Request {
        id: 0,
        tags: TagSet::new(),
    };

    let res = remove_tag::execute(&mut pool, request);
    assert_eq!(res, Err(remove_tag::RemoveTagError::ItemNotFound));
}

#[test]
fn set_priority_it_should_return_ok_when_succeeded() {
    let item = new_test_item();
    let id = item.id();

    let mut pool = MemoryPool::from_items(vec![item]);

    let request = set_priority::Request { id, priority: 3 };
    let res = set_priority::execute(&mut pool, request);

    assert_eq!(res, Ok(()));

    if let Ok(item) = pool.get(id) {
        assert_eq!(3, item.priority().value());
    } else {
        unreachable!();
    }
}

#[test]
fn set_priority_it_should_return_not_found_error_when_the_target_does_not_exist() {
    let mut pool = MemoryPool::new();

    let request = set_priority::Request {
        id: 0u64,
        priority: 0,
    };

    let res = set_priority::execute(&mut pool, request);
    assert_eq!(res, Err(set_priority::SetPriorityError::NotFound));
}

#[test]
fn it_should_return_invalid_when_priority_is_out_of_bound() {
    let item = new_test_item();
    let id = item.id();

    let mut pool = MemoryPool::from_items(vec![item]);

    let request = set_priority::Request { id, priority: 10 };
    let res = set_priority::execute(&mut pool, request);

    assert_eq!(res, Err(set_priority::SetPriorityError::Invalid));

    if let Ok(item) = pool.get(id) {
        assert_eq!(0, item.priority().value());
    } else {
        unreachable!();
    }
}
