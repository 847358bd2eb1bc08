use std::collections::HashMap;

use picman::duplication::DuplicationMap;
use picman::entry::Entry;
use picman::pipeline::group;
use picman::utils::{CursorReadOpener, Digester, IoError};

/// Hands out a fixed digest per path, once: a second request for a path fails.
struct StubDigester {
    map: HashMap<String, Result<String, IoError>>,
    calls: usize,
}

impl StubDigester {
    fn new() -> StubDigester {
        StubDigester { map: HashMap::new(), calls: 0 }
    }

    fn add_path_digest(&mut self, p: &str, result: Result<String, IoError>) {
        self.map.insert(p.to_string(), result);
    }
}

impl Digester for StubDigester {
    fn get_digest(&mut self, path: &str) -> Result<String, IoError> {
        self.calls += 1;
        match self.map.remove(path) {
            Some(v) => v,
            None => Err(IoError::Open {
                path: path.to_string(),
                detail: "digest not found".to_string(),
            }),
        }
    }
}

fn create_cursor(hash: &str) -> Vec<u8> {
    hash.as_bytes().to_vec()
}

fn entry(path: &str, primary_hash: &str, secondary_hash: &str) -> Entry {
    let mut entry = Entry::new(path, primary_hash);
    entry.secondary_hash = Some(secondary_hash.to_owned());
    entry
}

#[test]
fn test_duplication_map_groups_duplicate_entries() {
    let mut opener = CursorReadOpener::new();
    opener.add_path("entry-1", create_cursor("hash-1"));
    opener.add_path("entry-2", create_cursor("hash-1"));

    let mut digester = StubDigester::new();
    digester.add_path_digest("entry-1", Ok("second-hash-1".to_owned()));
    digester.add_path_digest("entry-2", Ok("second-hash-1".to_owned()));

    let mut map = DuplicationMap::new();
    assert!(map.push(&mut digester, Entry::new("entry-1", "hash-1")).is_ok());
    assert!(map.push(&mut digester, Entry::new("entry-2", "hash-1")).is_ok());

    let mut iter = map.into_iter();

    let expected = Some(vec![
        entry("entry-1", "hash-1", "second-hash-1"),
        entry("entry-2", "hash-1", "second-hash-1"),
    ]);

    assert_eq!(iter.next(), expected);
}

#[test]
fn test_duplication_map_splits_unique_entries() {
    let mut opener = CursorReadOpener::new();
    opener.add_path("entry-1", create_cursor("hash-1"));
    opener.add_path("entry-2", create_cursor("hash-2"));

    let mut secondary_digester = StubDigester::new();
    secondary_digester.add_path_digest("entry-1", Ok("second-hash-1".to_owned()));
    secondary_digester.add_path_digest("entry-2", Ok("second-hash-2".to_owned()));

    let mut map = DuplicationMap::new();
    assert!(map.push(&mut secondary_digester, Entry::new("entry-1", "hash-1")).is_ok());
    assert!(map.push(&mut secondary_digester, Entry::new("entry-2", "hash-2")).is_ok());

    let mut iter = map.into_iter();

    assert_eq!(iter.next().unwrap().len(), 1);
    assert_eq!(iter.next().unwrap().len(), 1);
}

#[test]
fn test_duplication_map_splits_second_hash_unique() {
    let mut secondary_digester = StubDigester::new();
    secondary_digester.add_path_digest("entry-1", Ok("second-hash-1".to_owned()));
    secondary_digester.add_path_digest("entry-2", Ok("second-hash-2".to_owned()));

    let mut map = DuplicationMap::new();
    assert!(map.push(&mut secondary_digester, Entry::new("entry-1", "hash-1")).is_ok());
    assert!(map.push(&mut secondary_digester, Entry::new("entry-2", "hash-1")).is_ok());

    let mut iter = map.into_iter();

    assert_eq!(iter.next().unwrap().len(), 1);
    assert_eq!(iter.next().unwrap().len(), 1);
}

#[test]
fn test_duplication_map_groups_duplicate_entries_sorted() {
    let mut opener = CursorReadOpener::new();
    opener.add_path("entry-1", create_cursor("hash-1"));
    opener.add_path("entry-2", create_cursor("hash-1"));
    opener.add_path("entry-3", create_cursor("hash-1"));

    let mut digester = StubDigester::new();
    digester.add_path_digest("entry-1", Ok("second-hash-1".to_owned()));
    digester.add_path_digest("entry-2", Ok("second-hash-2".to_owned()));
    digester.add_path_digest("entry-3", Ok("second-hash-1".to_owned()));

    let mut map = DuplicationMap::new();
    assert!(map.push(&mut digester, Entry::new("entry-1", "hash-1")).is_ok());
    assert!(map.push(&mut digester, Entry::new("entry-2", "hash-1")).is_ok());
    assert!(map.push(&mut digester, Entry::new("entry-3", "hash-1")).is_ok());

    let mut iter = map.into_iter();

    let expected_a = vec![
        entry("entry-1", "hash-1", "second-hash-1"),
        entry("entry-3", "hash-1", "second-hash-1"),
    ];
    let expected_b = vec![entry("entry-2", "hash-1", "second-hash-2")];

    let first = iter.next().unwrap();
    assert!(first == expected_a || first == expected_b);
    let second = iter.next().unwrap();
    assert!(second == expected_a || second == expected_b);
}

#[test]
fn secondary_digest_is_computed_once_per_record() {
    let mut digester = StubDigester::new();
    digester.add_path_digest("entry-1", Ok("second-hash-1".to_owned()));
    digester.add_path_digest("entry-2", Ok("second-hash-1".to_owned()));
    digester.add_path_digest("entry-3", Ok("second-hash-1".to_owned()));

    let mut map = DuplicationMap::new();
    assert!(map.push(&mut digester, Entry::new("entry-1", "hash-1")).is_ok());
    assert_eq!(digester.calls, 0);
    assert!(map.push(&mut digester, Entry::new("entry-2", "hash-1")).is_ok());
    assert_eq!(digester.calls, 2);
    // The stub fails on a second request for a path, so this push fails if entry-1 or
    // entry-2 is digested again.
    assert!(map.push(&mut digester, Entry::new("entry-3", "hash-1")).is_ok());
    assert_eq!(digester.calls, 3);

    let mut iter = map.into_iter();
    assert_eq!(
        iter.next(),
        Some(vec![
            entry("entry-1", "hash-1", "second-hash-1"),
            entry("entry-2", "hash-1", "second-hash-1"),
            entry("entry-3", "hash-1", "second-hash-1"),
        ])
    );
    assert_eq!(iter.next(), None);
}

#[test]
fn unique_records_are_singletons_without_secondary_digest() {
    let mut digester = StubDigester::new();
    digester.add_path_digest("entry-1", Ok("second-hash-1".to_owned()));
    digester.add_path_digest("entry-2", Ok("second-hash-2".to_owned()));

    let mut map = DuplicationMap::new();
    assert!(map.push(&mut digester, Entry::new("entry-1", "hash-1")).is_ok());
    assert!(map.push(&mut digester, Entry::new("entry-2", "hash-2")).is_ok());
    assert_eq!(digester.calls, 0);

    let mut iter = map.into_iter();
    let mut clusters = vec![iter.next().unwrap(), iter.next().unwrap()];
    assert_eq!(iter.next(), None);
    clusters.sort_by(|a, b| a[0].path.cmp(&b[0].path));
    assert_eq!(clusters[0], vec![Entry::new("entry-1", "hash-1")]);
    assert_eq!(clusters[1], vec![Entry::new("entry-2", "hash-2")]);
}

#[test]
fn three_records_split_on_secondary_digest() {
    let mut digester = StubDigester::new();
    digester.add_path_digest("entry-1", Ok("second-hash-1".to_owned()));
    digester.add_path_digest("entry-2", Ok("second-hash-2".to_owned()));
    digester.add_path_digest("entry-3", Ok("second-hash-1".to_owned()));

    let mut map = DuplicationMap::new();
    for p in ["entry-1", "entry-2", "entry-3"] {
        assert!(map.push(&mut digester, Entry::new(p, "hash-1")).is_ok());
    }

    let mut iter = map.into_iter();
    // Groups come in the order of their first record.
    assert_eq!(
        iter.next(),
        Some(vec![
            entry("entry-1", "hash-1", "second-hash-1"),
            entry("entry-3", "hash-1", "second-hash-1"),
        ])
    );
    assert_eq!(iter.next(), Some(vec![entry("entry-2", "hash-1", "second-hash-2")]));
    assert_eq!(iter.next(), None);
}

#[test]
fn no_records_give_no_clusters() {
    let map = DuplicationMap::new();
    let mut iter = map.into_iter();
    assert_eq!(iter.next(), None);
    assert_eq!(iter.next(), None);
}

#[test]
fn every_record_lands_in_one_cluster() {
    let mut digester = StubDigester::new();
    let names = ["a", "b", "c", "d", "e", "f", "g"];
    let primaries = ["red", "red", "green", "red", "blue", "green", "red"];
    let secondaries = ["s1", "s2", "s3", "s1", "s4", "s3", "s2"];
    for i in 0..names.len() {
        digester.add_path_digest(names[i], Ok(secondaries[i].to_owned()));
    }
    let mut map = DuplicationMap::new();
    for i in 0..names.len() {
        assert!(map.push(&mut digester, Entry::new(names[i], primaries[i])).is_ok());
    }
    let mut iter = map.into_iter();
    let mut seen: Vec<String> = Vec::new();
    let mut sizes: Vec<usize> = Vec::new();
    while let Some(cluster) = iter.next() {
        sizes.push(cluster.len());
        for e in cluster {
            seen.push(e.path);
        }
    }
    seen.sort();
    assert_eq!(seen, vec!["a", "b", "c", "d", "e", "f", "g"]);
    sizes.sort();
    // red: {a, d} {b, g}; green: {c, f}; blue: {e}
    assert_eq!(sizes, vec![1, 2, 2, 2]);
}

#[test]
fn failed_secondary_digest_keeps_the_record() {
    let mut digester = StubDigester::new();
    digester.add_path_digest("entry-1", Ok("second-hash-1".to_owned()));
    digester.add_path_digest(
        "entry-2",
        Err(IoError::Read { path: "entry-2".to_owned(), detail: "broken".to_owned() }),
    );

    let mut map = DuplicationMap::new();
    assert!(map.push(&mut digester, Entry::new("entry-1", "hash-1")).is_ok());
    let err = map.push(&mut digester, Entry::new("entry-2", "hash-1")).unwrap_err();
    assert_eq!(err, IoError::Read { path: "entry-2".to_owned(), detail: "broken".to_owned() });

    // The record without a secondary digest is set aside before clustering.
    let (resolved, aside) = map.into_resolved();
    assert_eq!(aside, vec![Entry::new("entry-2", "hash-1")]);
    let mut iter = resolved.into_iter();
    assert_eq!(iter.next(), Some(vec![entry("entry-1", "hash-1", "second-hash-1")]));
    assert_eq!(iter.next(), None);
}

#[test]
fn group_collects_clusters_and_failures() {
    let mut digester = StubDigester::new();
    digester.add_path_digest("entry-1", Ok("second-hash-1".to_owned()));
    digester.add_path_digest("entry-2", Ok("second-hash-1".to_owned()));
    let records = vec![
        Entry::new("entry-1", "hash-1"),
        Entry::new("entry-2", "hash-1"),
        Entry::new("entry-3", "hash-1"),
    ];
    let (mut iter, failures, aside) = group(records, &mut digester);
    assert_eq!(failures.len(), 1);
    assert_eq!(aside, vec![Entry::new("entry-3", "hash-1")]);
    assert_eq!(
        iter.next(),
        Some(vec![
            entry("entry-1", "hash-1", "second-hash-1"),
            entry("entry-2", "hash-1", "second-hash-1"),
        ])
    );
    assert_eq!(iter.next(), None);
}

#[test]
fn grouping_no_records_gives_no_clusters_and_no_error() {
    let mut digester = StubDigester::new();
    let (mut iter, failures, aside) = group(Vec::new(), &mut digester);
    assert!(failures.is_empty());
    assert!(aside.is_empty());
    assert_eq!(iter.next(), None);
    assert_eq!(digester.calls, 0);
}

#[test]
fn colliding_lookup_keys_keep_buckets_apart() {
    // "Aa" and "BB" fold to the same lookup key, yet are different digests.
    let mut digester = StubDigester::new();
    let mut map = DuplicationMap::new();
    assert!(map.push(&mut digester, Entry::new("x", "Aa")).is_ok());
    assert!(map.push(&mut digester, Entry::new("y", "BB")).is_ok());
    assert_eq!(digester.calls, 0);
    let mut iter = map.into_iter();
    assert_eq!(iter.next(), Some(vec![Entry::new("x", "Aa")]));
    assert_eq!(iter.next(), Some(vec![Entry::new("y", "BB")]));
    assert_eq!(iter.next(), None);
}

#[test]
fn many_records_are_grouped_by_primary_digest() {
    let mut digester = StubDigester::new();
    let mut map = DuplicationMap::new();
    for i in 0..3000 {
        let path = format!("file-{}", i);
        digester.add_path_digest(&path, Ok(format!("second-{}", i % 7)));
        assert!(map.push(&mut digester, Entry::new(&path, &format!("hash-{}", i % 1000))).is_ok());
    }
    let mut iter = map.into_iter();
    let mut total = 0;
    while let Some(cluster) = iter.next() {
        let primary = cluster[0].primary_hash.clone();
        let secondary = cluster[0].secondary_hash.clone();
        assert!(cluster.iter().all(|e| e.primary_hash == primary && e.secondary_hash == secondary));
        total += cluster.len();
    }
    assert_eq!(total, 3000);
}
