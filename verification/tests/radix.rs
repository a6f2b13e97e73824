use codecrafters_redis::bytes::{bytes_eq, bytes_lt, common_prefix};
use codecrafters_redis::radx::RadixT;

fn keys(v: &[&[u8]]) -> Vec<Vec<u8>> {
    v.iter().map(|k| k.to_vec()).collect()
}

#[test]
fn common_prefix_counts_shared_bytes() {
    assert_eq!(common_prefix(b"abc", b"abd"), 2);
    assert_eq!(common_prefix(b"abc", b"abc"), 3);
    assert_eq!(common_prefix(b"abc", b"ab"), 2);
    assert_eq!(common_prefix(b"", b"a"), 0);
    assert_eq!(common_prefix(b"x", b"y"), 0);
}

#[test]
fn byte_order_and_equality() {
    assert!(bytes_lt(b"ab", b"abc"));
    assert!(bytes_lt(b"abc", b"abd"));
    assert!(!bytes_lt(b"abd", b"abc"));
    assert!(!bytes_lt(b"abc", b"abc"));
    assert!(bytes_eq(b"abc", b"abc"));
    assert!(!bytes_eq(b"abc", b"ab"));
}

#[test]
fn new_tree_is_empty() {
    let t = RadixT::new();
    assert!(!t.search(b""));
    assert!(t.range(b"", b"\xff").is_empty());
    assert!(!t.has_empty_edge());
}

#[test]
fn insert_then_range_lists_key() {
    let mut t = RadixT::new();
    t.insert(b"abc");
    assert_eq!(t.range(b"a", b"z"), keys(&[b"abc"]));
    assert_eq!(t.range(b"abd", b"z"), keys(&[]));
    assert_eq!(t.range(b"abc", b"abc"), keys(&[b"abc"]));
}

#[test]
fn split_keeps_both_keys_and_range_walks_edges_backwards() {
    let mut t = RadixT::new();
    t.insert(b"abc");
    t.insert(b"abd");
    // the shared "ab" becomes an inner node; its edges are reported last first
    assert_eq!(t.range(b"a", b"z"), keys(&[b"abd", b"abc"]));
    assert_eq!(t.range(b"abc", b"abc"), keys(&[b"abc"]));
}

#[test]
fn longer_key_goes_below_existing_one() {
    let mut t = RadixT::new();
    t.insert(b"ab");
    t.insert(b"abc");
    assert_eq!(t.range(b"a", b"z"), keys(&[b"ab", b"abc"]));
}

#[test]
fn inserting_a_prefix_of_a_label_marks_that_label() {
    let mut t = RadixT::new();
    t.insert(b"abc");
    t.insert(b"ab");
    assert_eq!(t.range(b"a", b"z"), keys(&[b"abc"]));
}

#[test]
fn search_only_answers_for_the_root() {
    let mut t = RadixT::new();
    t.insert(b"abc");
    assert!(!t.search(b"abc"));
    assert!(!t.search(b"a"));
    assert!(!t.search(b""));
}

#[test]
fn empty_key_makes_an_empty_edge() {
    let mut t = RadixT::new();
    t.insert(b"");
    assert!(t.has_empty_edge());
    assert!(!t.search(b""));
    assert!(!t.search(b"x"));
}

#[test]
fn delete_removes_key_and_prunes() {
    let mut t = RadixT::new();
    t.insert(b"abc");
    t.insert(b"abd");
    assert!(t.delete(b"abc").is_ok());
    assert_eq!(t.range(b"a", b"z"), keys(&[b"abd"]));
    assert!(t.delete(b"abc").is_err());
    assert!(t.delete(b"zz").is_err());
    assert!(t.delete(b"abd").is_ok());
    assert!(t.range(b"", b"\xff").is_empty());
}

#[test]
fn delete_of_missing_key_fails() {
    let mut t = RadixT::new();
    assert!(t.delete(b"").is_err());
    assert!(t.delete(b"a").is_err());
}

#[test]
fn iterator_reaches_pairs_of_a_key() {
    let mut t = RadixT::new();
    t.insert(b"1-0");
    {
        let m = t.iterator(b"1-0").unwrap();
        m.insert(b"temp".to_vec(), b"25".to_vec());
        m.insert(b"temp".to_vec(), b"26".to_vec());
    }
    let m = t.iterator(b"1-0").unwrap();
    assert_eq!(m.get(b"temp"), Some(&b"26".to_vec()));
    assert_eq!(m.len(), 1);
    assert!(t.iterator(b"1-").is_none());
    assert!(t.iterator(b"2-0").is_none());
}

#[test]
fn law_inserted_key_is_reported_by_range() {
    let mut t = RadixT::new();
    for k in [&b"romane"[..], b"romanus", b"romulus", b"rubens", b"ruber"] {
        t.insert(k);
    }
    let mut all = t.range(b"", b"\xff");
    all.sort();
    assert_eq!(all, keys(&[b"romane", b"romanus", b"romulus", b"rubens", b"ruber"]));
    let mut some = t.range(b"romb", b"rubenz");
    some.sort();
    assert_eq!(some, keys(&[b"romulus", b"rubens"]));
}

#[test]
fn law_deleted_key_is_gone_others_stay() {
    let mut t = RadixT::new();
    for k in [&b"romane"[..], b"romanus", b"romulus"] {
        t.insert(k);
    }
    assert!(t.delete(b"romanus").is_ok());
    let mut all = t.range(b"", b"\xff");
    all.sort();
    assert_eq!(all, keys(&[b"romane", b"romulus"]));
}

#[test]
fn keys_after_the_empty_key_go_below_its_edge() {
    let mut t = RadixT::new();
    t.insert(b"");
    t.insert(b"a");
    assert_eq!(t.range(b"", b"z"), keys(&[b"", b"a"]));
    assert!(t.has_empty_edge());
    assert!(t.iterator(b"").is_some());
    assert!(t.iterator(b"a").is_some());
}

#[test]
fn law_inserting_twice_is_inserting_once() {
    let mut a = RadixT::new();
    let mut b = RadixT::new();
    for k in [&b"abc"[..], b"abd", b"x"] {
        a.insert(k);
        b.insert(k);
    }
    a.insert(b"abd");
    a.insert(b"abd");
    b.insert(b"abd");
    assert_eq!(a.range(b"", b"\xff"), b.range(b"", b"\xff"));
    assert!(a.delete(b"abd").is_ok());
    assert!(a.delete(b"abd").is_err());
}

#[test]
fn law_pairs_survive_inserts_and_other_deletes() {
    let mut t = RadixT::new();
    t.insert(b"1-0");
    t.iterator(b"1-0").unwrap().insert(b"f".to_vec(), b"v".to_vec());
    t.insert(b"1-1");
    t.insert(b"2-0");
    t.insert(b"1-0");
    assert!(t.delete(b"2-0").is_ok());
    assert!(t.delete(b"1-1").is_ok());
    let m = t.iterator(b"1-0").unwrap();
    assert_eq!(m.get(b"f"), Some(&b"v".to_vec()));
    assert_eq!(m.len(), 1);
}

#[test]
fn law_delete_leaves_no_dead_node() {
    let mut t = RadixT::new();
    t.insert(b"ab");
    t.insert(b"ac");
    assert!(t.delete(b"ab").is_ok());
    assert!(t.delete(b"ac").is_ok());
    assert!(t.range(b"", b"\xff").is_empty());
    assert!(t.iterator(b"a").is_none());
    assert!(t.iterator(b"ac").is_none());
}

#[test]
fn law_range_reports_each_key_once_example() {
    let mut t = RadixT::new();
    for k in [&b"a"[..], b"ab", b"abc", b"b", b"ab", b""] {
        t.insert(k);
    }
    let mut all = t.range(b"", b"\xff");
    let n = all.len();
    all.sort();
    all.dedup();
    assert_eq!(all.len(), n);
}

#[test]
fn law_pairs_survive_a_sequence_of_changes() {
    let mut t = RadixT::new();
    t.insert(b"5-0");
    t.iterator(b"5-0").unwrap().insert(b"a".to_vec(), b"1".to_vec());
    for k in [&b"5-1"[..], b"5", b"50", b"6-0", b"5-0", b"5-00"] {
        t.insert(k);
    }
    for k in [&b"5-1"[..], b"6-0", b"5-00", b"nothing"] {
        let _ = t.delete(k);
    }
    assert_eq!(t.iterator(b"5-0").unwrap().get(b"a"), Some(&b"1".to_vec()));
}
