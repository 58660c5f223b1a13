use iron_carrier::crypto::calculate_hash;
use iron_carrier::fs::FileInfo;
use std::collections::hash_map::DefaultHasher;
use std::hash::Hasher;

fn live(path: &str, modified_at: u64, size: u64) -> FileInfo {
    FileInfo {
        alias: "a".to_string(),
        path: path.to_string(),
        modified_at: Some(modified_at),
        created_at: Some(1),
        deleted_at: None,
        size: Some(size),
    }
}

#[test]
fn calc_hash() {
    let file = FileInfo {
        alias: "a".to_owned(),
        created_at: Some(0),
        modified_at: Some(0),
        path: "./some_file_path".to_owned(),
        size: Some(100),
        deleted_at: None,
    };

    let files = vec![file];
    assert_eq!(calculate_hash(&files), 1762848629165523426);
}

#[test]
fn hash_of_nothing() {
    assert_eq!(calculate_hash(&vec![]), 13646096770106105413);
}

#[test]
fn hash_exact_values() {
    let two = vec![live("a.txt", 100, 5), live("b.txt", 200, 10)];
    assert_eq!(calculate_hash(&two), 9967654943490671244);
    let gone = FileInfo {
        alias: "a".to_string(),
        path: "a.txt".to_string(),
        modified_at: None,
        created_at: None,
        deleted_at: Some(300),
        size: None,
    };
    assert_eq!(calculate_hash(&vec![gone, live("b.txt", 200, 10)]), 17716758253440170734);
    assert_eq!(calculate_hash(&vec![live("a.txt", 100, 5)]), 164735976765768222);
    assert_eq!(calculate_hash(&vec![live("some_file_path", 0, 100)]), 15254604049699173364);
}

#[test]
fn hash_reads_the_components_of_a_path() {
    let mut record = live("/x/../y//z/./w", 7, 8);
    record.alias = "docs".to_string();
    assert_eq!(calculate_hash(&vec![record]), 7458849609211149073);
    // Pieces that name nothing are not fed.
    let base = calculate_hash(&vec![live("a/b", 1, 1)]);
    assert_eq!(calculate_hash(&vec![live("a//b", 1, 1)]), base);
    assert_eq!(calculate_hash(&vec![live("a/./b", 1, 1)]), base);
    assert_eq!(calculate_hash(&vec![live("a/b/", 1, 1)]), base);
    assert_eq!(calculate_hash(&vec![live("a/b/.", 1, 1)]), base);
    assert_ne!(calculate_hash(&vec![live("./a/b", 1, 1)]), base);
    assert_ne!(calculate_hash(&vec![live("/a/b", 1, 1)]), base);
    assert_ne!(calculate_hash(&vec![live("a/../b", 1, 1)]), base);
    assert_ne!(calculate_hash(&vec![live("ab", 1, 1)]), base);
}

#[test]
fn record_hash_feeds_the_hasher() {
    let record = live("a.txt", 100, 5);
    let next = live("b.txt", 200, 10);
    let mut hasher = DefaultHasher::new();
    hasher.write(&2u64.to_le_bytes());
    record.hash(&mut hasher);
    next.hash(&mut hasher);
    assert_eq!(hasher.finish(), 9967654943490671244);
    assert_eq!(hasher.finish(), calculate_hash(&vec![record, next]));
}

#[test]
fn hash_is_deterministic() {
    let one = vec![live("a.txt", 100, 5), live("b.txt", 200, 10)];
    let two = vec![live("a.txt", 100, 5), live("b.txt", 200, 10)];
    assert_eq!(calculate_hash(&one), calculate_hash(&two));
    assert_eq!(calculate_hash(&one), calculate_hash(&one));
}

#[test]
fn hash_shows_a_change_of_size_or_time() {
    let base = calculate_hash(&vec![live("a.txt", 100, 5), live("b.txt", 200, 10)]);
    let size = calculate_hash(&vec![live("a.txt", 100, 6), live("b.txt", 200, 10)]);
    let time = calculate_hash(&vec![live("a.txt", 101, 5), live("b.txt", 200, 10)]);
    let last = calculate_hash(&vec![live("a.txt", 100, 5), live("b.txt", 200, 11)]);
    assert_ne!(base, size);
    assert_ne!(base, time);
    assert_ne!(base, last);
    assert_ne!(size, time);
    assert_eq!(calculate_hash(&vec![live("a.txt", 100, 6)]), 8974416394690039955);
    assert_eq!(calculate_hash(&vec![live("a.txt", 101, 5)]), 12194210744339306954);
}

#[test]
fn hash_does_not_read_creation_or_deletion() {
    let mut changed = live("a.txt", 100, 5);
    changed.created_at = Some(999);
    changed.deleted_at = Some(12);
    let mut missing = live("a.txt", 100, 5);
    missing.created_at = None;
    let base = calculate_hash(&vec![live("a.txt", 100, 5)]);
    assert_eq!(calculate_hash(&vec![changed]), base);
    assert_eq!(calculate_hash(&vec![missing]), base);
}

#[test]
fn hash_reads_alias_path_and_order() {
    let base = calculate_hash(&vec![live("a.txt", 100, 5), live("b.txt", 200, 10)]);
    let swapped = calculate_hash(&vec![live("b.txt", 200, 10), live("a.txt", 100, 5)]);
    assert_ne!(base, swapped);
    let mut other_alias = live("a.txt", 100, 5);
    other_alias.alias = "b".to_string();
    assert_ne!(calculate_hash(&vec![other_alias]), calculate_hash(&vec![live("a.txt", 100, 5)]));
    assert_ne!(
        calculate_hash(&vec![live("a.txu", 100, 5)]),
        calculate_hash(&vec![live("a.txt", 100, 5)])
    );
}

#[test]
fn hash_tells_a_missing_value_from_zero() {
    let mut none = live("a", 0, 0);
    none.modified_at = None;
    assert_ne!(calculate_hash(&vec![none]), calculate_hash(&vec![live("a", 0, 0)]));
    let mut no_size = live("a", 0, 0);
    no_size.size = None;
    assert_ne!(calculate_hash(&vec![no_size]), calculate_hash(&vec![live("a", 0, 0)]));
}
