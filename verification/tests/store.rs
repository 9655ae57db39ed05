use dr::codec::{decode, encode};
use dr::store::{contains_name, fresh_name, locate};

fn names(raw: &[&[u8]]) -> Vec<Vec<u8>> {
    raw.iter().map(|n| n.to_vec()).collect()
}

#[test]
fn locate_returns_every_match_in_scan_order() {
    let store = names(&[
        b"1000_/a",
        b"1001_/a",
        b"1000_/b",
        b"junk",
        b"1000.1_/a",
    ]);
    let found = locate(&store, b"/a");
    assert_eq!(
        found,
        names(&[b"1000_/a", b"1001_/a", b"1000.1_/a"])
    );
}

#[test]
fn locate_finds_nothing_for_unknown_path() {
    let store = names(&[b"1000_/a", b"junk"]);
    let found = locate(&store, b"/nope");
    assert!(found.is_empty());
}

#[test]
fn locate_skips_unparseable_entries() {
    let store = names(&[b"no-separator", b"abc_bad-prefix", b"1000_/a"]);
    let found = locate(&store, b"/a");
    assert_eq!(found, names(&[b"1000_/a"]));
}

#[test]
fn locate_matches_path_that_contains_separator() {
    let store = names(&[b"5_/a_b", b"5_/a"]);
    let found = locate(&store, b"/a_b");
    assert_eq!(found, names(&[b"5_/a_b"]));
}

#[test]
fn fresh_name_in_empty_store_uses_plain_encoding() {
    let store: Vec<Vec<u8>> = Vec::new();
    let name = fresh_name(1000, b"/a/b/foo.txt", &store);
    assert_eq!(name, b"1000_/a/b/foo.txt".to_vec());
}

#[test]
fn double_drop_same_second_yields_two_distinct_entries() {
    let mut store: Vec<Vec<u8>> = Vec::new();
    let first = fresh_name(1000, b"/a/b/foo.txt", &store);
    store.push(first.clone());
    let second = fresh_name(1000, b"/a/b/foo.txt", &store);
    assert_ne!(first, second);
    assert_eq!(second, b"1000.1_/a/b/foo.txt".to_vec());
    store.push(second.clone());
    let third = fresh_name(1000, b"/a/b/foo.txt", &store);
    assert_ne!(third, first);
    assert_ne!(third, second);

    let d1 = decode(&first).unwrap();
    let d2 = decode(&second).unwrap();
    assert_eq!(d1.original_path, b"/a/b/foo.txt".to_vec());
    assert_eq!(d2.original_path, b"/a/b/foo.txt".to_vec());
    assert_eq!(d1.drop_timestamp, 1000);
    assert_eq!(d2.drop_timestamp, 1000);

    let found = locate(&store, b"/a/b/foo.txt");
    assert_eq!(found.len(), 2);
    assert_eq!(found[0], first);
    assert_eq!(found[1], second);
}

#[test]
fn fresh_name_skips_over_foreign_collisions() {
    let store = names(&[b"1000_/a", b"1000.1_/a"]);
    let name = fresh_name(1000, b"/a", &store);
    assert_eq!(name, b"1000.2_/a".to_vec());
}

#[test]
fn contains_name_looks_for_exact_bytes() {
    let store = names(&[b"1000_/a", b"junk"]);
    assert!(contains_name(&store, b"1000_/a"));
    assert!(contains_name(&store, b"junk"));
    assert!(!contains_name(&store, b"1000_/b"));
    assert!(!contains_name(&store, b"1000_/a "));
}

#[test]
fn purge_removes_every_match_model() {
    let store = names(&[b"1000_/a", b"1001_/a", b"1000_/b", b"junk"]);
    let doomed = locate(&store, b"/a");
    assert_eq!(doomed.len(), 2);
    let remaining: Vec<Vec<u8>> = store
        .iter()
        .filter(|n| !doomed.contains(n))
        .cloned()
        .collect();
    assert!(locate(&remaining, b"/a").is_empty());
    assert_eq!(locate(&remaining, b"/b"), names(&[b"1000_/b"]));
}

#[test]
fn drop_then_recover_model() {
    let mut store = names(&[b"77_/other"]);
    let stored = fresh_name(500, b"/a/b/foo.txt", &store);
    store.push(stored.clone());

    let found = locate(&store, b"/a/b/foo.txt");
    assert_eq!(found, vec![stored.clone()]);

    let after: Vec<Vec<u8>> = store.iter().filter(|n| **n != stored).cloned().collect();
    assert!(locate(&after, b"/a/b/foo.txt").is_empty());
    assert_eq!(locate(&after, b"/other"), names(&[b"77_/other"]));
}

#[test]
fn encode_and_locate_agree() {
    let store = vec![encode(42, 0, b"/x/y"), encode(43, 1, b"/x/y")];
    let found = locate(&store, b"/x/y");
    assert_eq!(found.len(), 2);
}
