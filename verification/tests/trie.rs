//! The trie's prefix completion, round trip and idempotence on concrete
//! values.

use todo::trie::Trie;

#[test]
fn it_should_complete_number_when_giving_prefix() {
    let mut trie = Trie::new();
    trie.insert(1234567);
    trie.insert(1234568);
    trie.insert(123457);
    trie.insert(12345);
    assert_eq!(trie.match_or_complete_suffix(12345), Some(vec![12345]));
    assert_eq!(
        trie.match_or_complete_suffix(123456),
        Some(vec![1234567, 1234568])
    );
}

#[test]
fn trie_round_trip_inserted_members_are_found_exactly() {
    let members: [u64; 5] = [0, 7, 1234, 1235, 98765];
    let mut trie = Trie::new();
    for &m in members.iter() {
        assert!(trie.insert(m));
    }
    for &m in members.iter() {
        assert_eq!(trie.match_or_complete_suffix(m), Some(vec![m]));
    }
    assert!(trie.remove(1235));
    assert_eq!(trie.match_or_complete_suffix(1235), None);
    // 123 still matches the surviving 1234
    assert_eq!(trie.match_or_complete_suffix(123), Some(vec![1234]));
    assert!(trie.remove(98765));
    assert_eq!(trie.match_or_complete_suffix(98765), None);
    assert_eq!(trie.match_or_complete_suffix(9), None);
}

#[test]
fn trie_insert_twice_reports_already_present() {
    let mut trie = Trie::new();
    assert!(trie.insert(42));
    assert!(!trie.insert(42));
    assert_eq!(trie.match_or_complete_suffix(42), Some(vec![42]));
    assert!(trie.remove(42));
    assert!(!trie.remove(42));
    assert_eq!(trie.match_or_complete_suffix(42), None);
}

#[test]
fn trie_handles_zero_as_a_single_digit() {
    let mut trie = Trie::new();
    assert!(trie.insert(0));
    assert_eq!(trie.match_or_complete_suffix(0), Some(vec![0]));
    assert!(trie.remove(0));
    assert_eq!(trie.match_or_complete_suffix(0), None);
}

#[test]
fn completion_lists_extensions_in_digit_order() {
    // "134" precedes "19" in digit order even though 19 < 134 numerically
    let mut trie = Trie::new();
    trie.insert(19);
    trie.insert(134);
    assert_eq!(trie.match_or_complete_suffix(1), Some(vec![134, 19]));
}
