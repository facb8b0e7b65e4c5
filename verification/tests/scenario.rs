//! End-to-end scenarios through the repository coordinator, and the store
//! laws on concrete values.

use chrono::NaiveDateTime;
use todo::item::Item;
use todo::priority::Priority;
use todo::repository::{Data, Repository};
use todo::store::MemoryPool;
use todo::tag::TagSet;
use todo::trie::TriePool;
use todo::usecase::{add, clean, get, plan, remove, select, transfer};

fn get_deadline() -> i64 {
    NaiveDateTime::parse_from_str("2023-06-17 23:20:00", "%Y-%m-%d %H:%M:%S")
        .unwrap()
        .and_utc()
        .timestamp()
}

fn new_repository() -> Repository {
    Repository::new(Data {
        planned: MemoryPool::new(),
        finished: MemoryPool::new(),
        canceled: MemoryPool::new(),
        ids: TriePool::new(),
    })
}

fn test_request() -> plan::Request {
    plan::Request {
        title: String::from("Test"),
        description: String::new(),
        deadline: get_deadline(),
        tags: TagSet::new(),
        priority: 0,
    }
}

#[test]
fn a_planned_item_can_be_finished_and_cleaned() {
    let repo = new_repository();

    // add: a new numeric ID comes back
    let res = repo.apply_planned_ids(|mut planned: MemoryPool, mut ids: TriePool| {
        let r = plan::execute(&mut planned, &mut ids, test_request());
        (planned, ids, r)
    });
    let id = res.expect("planning a fresh item must succeed").id;

    // a second add with identical title/description/deadline conflicts
    let res = repo.apply_planned_ids(|mut planned: MemoryPool, mut ids: TriePool| {
        let r = plan::execute(&mut planned, &mut ids, test_request());
        (planned, ids, r)
    });
    assert_eq!(res, Err(add::AddItemError::Conflict));

    // get: priority is zero and the tag set is empty
    let res = repo.apply_planned(|planned: MemoryPool| {
        let r = get::execute(&planned, get::Request { id });
        (planned, r)
    });
    let response = res.expect("the planned item must be retrievable");
    assert_eq!(response.priority.value(), 0);
    assert_eq!(response.tags, TagSet::new());

    // finish: the item moves from planned to finished
    let res = repo.apply_planned_finished_ids(
        |mut planned: MemoryPool, mut finished: MemoryPool, mut ids: TriePool| {
            let r = transfer::execute(&mut planned, &mut finished, &mut ids, transfer::Request {
                id,
            });
            (planned, finished, ids, r)
        },
    );
    assert_eq!(res, Ok(()));

    let res = repo.apply_planned(|planned: MemoryPool| {
        let r = get::execute(&planned, get::Request { id });
        (planned, r)
    });
    assert_eq!(res, Err(get::GetItemError::NotFound));

    let res = repo.apply_finished(|finished: MemoryPool| {
        let r = get::execute(&finished, get::Request { id });
        (finished, r)
    });
    assert!(res.is_ok());

    // clean: the finished store empties
    repo.apply_finished(|mut finished: MemoryPool| {
        clean::execute(&mut finished);
        (finished, ())
    });
    let res = repo.apply_finished(|finished: MemoryPool| {
        let r = get::execute(&finished, get::Request { id });
        (finished, r)
    });
    assert_eq!(res, Err(get::GetItemError::NotFound));
}

#[test]
fn canceling_moves_an_item_to_the_canceled_store() {
    let repo = new_repository();
    let res = repo.apply_planned_ids(|mut planned: MemoryPool, mut ids: TriePool| {
        let r = plan::execute(&mut planned, &mut ids, test_request());
        (planned, ids, r)
    });
    let id = res.unwrap().id;

    let res = repo.apply_planned_canceled_ids(
        |mut planned: MemoryPool, mut canceled: MemoryPool, mut ids: TriePool| {
            let r = transfer::execute(&mut planned, &mut canceled, &mut ids, transfer::Request {
                id,
            });
            (planned, canceled, ids, r)
        },
    );
    assert_eq!(res, Ok(()));

    let res = repo.apply_canceled(|canceled: MemoryPool| {
        let r = select::execute(
            &canceled,
            select::Request {
                tags: TagSet::new(),
                before: None,
                after: None,
            },
        );
        (canceled, r)
    });
    let listed = res.unwrap();
    assert_eq!(listed.items.len(), 1);
    assert_eq!(listed.items[0].id(), id);
}

#[test]
fn removing_a_just_added_item_returns_it_and_empties_the_store() {
    let item = Item::new(
        "Inverse",
        "Add, then remove.",
        get_deadline(),
        TagSet::new(),
        Priority::try_from(2).unwrap(),
    );
    let id = item.id();

    let mut pool = MemoryPool::new();
    assert_eq!(pool.add(item.clone()), Ok(id));

    let removed = pool.remove(id).expect("the item was just added");
    assert_eq!(removed, item);
    assert!(matches!(
        pool.get(id),
        Err(todo::store::GetError::NotFound)
    ));
}

#[test]
fn a_store_rebuilt_from_its_items_holds_the_same_ids() {
    let mut first = Item::new(
        "One",
        "First item.",
        get_deadline(),
        TagSet::new(),
        Priority::try_from(1).unwrap(),
    );
    first.add_tag(String::from("x"));
    let second = Item::new(
        "Two",
        "Second item.",
        get_deadline() + 60,
        TagSet::new(),
        Priority::try_from(-1).unwrap(),
    );

    let mut pool = MemoryPool::new();
    pool.add(first.clone()).unwrap();
    pool.add(second.clone()).unwrap();

    let rebuilt = MemoryPool::from_items(pool.clone_inner());
    for id in [first.id(), second.id()] {
        let a = pool.get(id).unwrap();
        let b = rebuilt.get(id).unwrap();
        assert_eq!(a, b);
    }
}

#[test]
fn loading_duplicate_records_collapses_them_to_one_entry() {
    let item = Item::new(
        "Twin",
        "Same content twice.",
        get_deadline(),
        TagSet::new(),
        Priority::try_from(0).unwrap(),
    );
    let id = item.id();

    let pool = MemoryPool::from_items(vec![item.clone(), item.clone()]);
    assert!(pool.get(id).is_ok());

    let remaining = pool.clone_inner();
    assert_eq!(remaining.len(), 1);
}

#[test]
fn an_item_rebuilt_from_the_same_content_keeps_its_id() {
    let a = Item::new(
        "Same",
        "Hash input.",
        get_deadline(),
        TagSet::new(),
        Priority::try_from(0).unwrap(),
    );
    // the priority does not participate in the identity hash
    let b = Item::new(
        "Same",
        "Hash input.",
        get_deadline(),
        TagSet::new(),
        Priority::try_from(3).unwrap(),
    );
    let c = Item::new(
        "Same",
        "Hash input!",
        get_deadline(),
        TagSet::new(),
        Priority::try_from(0).unwrap(),
    );
    assert_eq!(a.id(), b.id());
    assert_ne!(a.id(), c.id());
}

#[test]
fn remove_reports_which_ids_stay_live() {
    let mut ids = TriePool::new();
    assert!(ids.add(111411222));
    assert!(ids.add(1114333));
    assert!(ids.remove(111411222));
    assert!(!ids.remove(111411222));
    let found = ids.find(1114).unwrap();
    assert_eq!(found, vec![1114333]);
}
