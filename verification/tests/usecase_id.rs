//! Registering, retiring and completing IDs through the pool use-cases.

use todo::trie::{Trie, TriePool};
use todo::usecase::{add_id, complete_id, remove_id};

#[test]
fn add_id_it_should_return_ok_when_succeeded() {
    let request = add_id::Request { id: 123456 };
    let mut pool = TriePool::new();
    assert_eq!(add_id::execute(&mut pool, request), Ok(()));
}

#[test]
fn it_should_return_conflict_error_when_id_exists() {
    let mut trie = Trie::new();
    trie.insert(123456);
    let mut pool = TriePool::from_trie(trie);

    let request = add_id::Request { id: 123456 };
    assert_eq!(
        add_id::execute(&mut pool, request),
        Err(add_id::AddIdError::Conflict)
    );
}

#[test]
fn remove_id_it_should_return_ok_when_succeeded() {
    let mut trie = Trie::new();
    trie.insert(123456);
    let mut pool = TriePool::from_trie(trie);

    let request = remove_id::Request { id: 123456 };
    assert_eq!(remove_id::execute(&mut pool, request), Ok(()));
}

#[test]
fn it_should_return_conflict_error_when_id_does_not_exist() {
    let mut trie = Trie::new();
    trie.insert(111111);
    let mut pool = TriePool::from_trie(trie);

    let request = remove_id::Request { id: 123456 };
    assert_eq!(
        remove_id::execute(&mut pool, request),
        Err(remove_id::RemoveIdError::NotFound)
    );
}

#[test]
fn it_should_return_an_unique_id_when_finding_id_starting_with_a_prefix() {
    let mut trie = Trie::new();
    trie.insert(111411222);
    trie.insert(1114333);
    let pool = TriePool::from_trie(trie);

    let request = complete_id::Request { pattern: 11141 };
    let res = complete_id::execute(&pool, request);
    assert_eq!(res, Ok(complete_id::Response { id: 111411222 }));
}

#[test]
fn it_should_return_a_not_found_error_when_no_id_matches_the_pattern() {
    let mut trie = Trie::new();
    trie.insert(111411222);
    trie.insert(1114333);
    let pool = TriePool::from_trie(trie);

    let request = complete_id::Request { pattern: 11151 };
    let res = complete_id::execute(&pool, request);
    assert_eq!(res, Err(complete_id::CompleteIdError::NotFound));
}

#[test]
fn it_should_return_an_ambiguous_error_when_many_ids_match_the_pattern() {
    let mut trie = Trie::new();
    trie.insert(111411222);
    trie.insert(1114333);
    let pool = TriePool::from_trie(trie);

    let request = complete_id::Request { pattern: 111 };
    let res = complete_id::execute(&pool, request);
    assert_eq!(res, Err(complete_id::CompleteIdError::Ambiguous));
}
