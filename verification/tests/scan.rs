use iron_carrier::crypto::calculate_hash;
use iron_carrier::fs::{FileInfo, Metadata};
use iron_carrier::sort::sort_by_path;
use iron_carrier::time::ClockTime;
use iron_carrier::walk::{get_files_with_hash, get_hash_for_alias, Deletion, EntryKind, TreeWalk};

fn at(secs: u64) -> ClockTime {
    ClockTime::SinceEpoch { secs, nanos: 0 }
}

fn file(modified: u64, len: u64) -> EntryKind {
    EntryKind::File(Metadata { created: Some(at(modified)), modified: Some(at(modified)), len })
}

fn deletion(path: &str, secs: u64) -> Deletion {
    Deletion { path: path.to_string(), at: at(secs) }
}

fn paths(snapshot: &[FileInfo]) -> Vec<&str> {
    snapshot.iter().map(|record| record.path.as_str()).collect()
}

/// A tree, as the listing of each of its folders.
fn scan(tree: &[(&str, Vec<(&str, EntryKind)>)], alias: &str, deletions: Vec<Deletion>) -> TreeWalk {
    let mut walk = TreeWalk::new(alias, deletions);
    while let Some(folder) = walk.next_dir() {
        let listing = tree.iter().find(|(path, _)| *path == folder).expect("a folder of the tree");
        for (name, kind) in &listing.1 {
            walk.visit(&folder, name, *kind);
        }
    }
    walk
}

#[test]
fn can_read_local_files() {
    let tree = [("", vec![("file_1", file(0, 0)), ("file_2", file(0, 0))])];
    let files = scan(&tree, "a", vec![]).finish();
    assert_eq!(files[0].path.as_str(), "file_1");
    assert_eq!(files[1].path.as_str(), "file_2");
}

#[test]
fn scan_of_two_files_then_of_one_deleted() {
    let tree = [("", vec![("b.txt", file(200, 10)), ("a.txt", file(100, 5))])];
    let first = scan(&tree, "docs", vec![]).finish();
    assert_eq!(paths(&first), vec!["a.txt", "b.txt"]);
    assert_eq!(first[0].modified_at, Some(100));
    assert_eq!(first[0].size, Some(5));
    assert_eq!(first[0].deleted_at, None);
    assert_eq!(first[1].modified_at, Some(200));
    assert_eq!(first[1].size, Some(10));
    assert_eq!(first[1].deleted_at, None);

    let tree = [("", vec![("b.txt", file(200, 10))])];
    let second = scan(&tree, "docs", vec![deletion("a.txt", 300)]).finish();
    assert_eq!(paths(&second), vec!["a.txt", "b.txt"]);
    assert_eq!(second[0].deleted_at, Some(300));
    assert_eq!(second[0].modified_at, None);
    assert_eq!(second[0].created_at, None);
    assert_eq!(second[0].size, None);
    assert_eq!(second[1].modified_at, Some(200));
    assert_eq!(second[1].size, Some(10));
    assert_eq!(second[1].deleted_at, None);
}

#[test]
fn scan_walks_into_folders() {
    let tree = [
        ("", vec![("z.txt", file(1, 1)), ("sub", EntryKind::Directory), ("a", EntryKind::Directory)]),
        ("sub", vec![("inner", EntryKind::Directory), ("m.txt", file(2, 2))]),
        ("sub/inner", vec![("deep.txt", file(3, 3))]),
        ("a", vec![]),
    ];
    let files = scan(&tree, "docs", vec![]).finish();
    assert_eq!(paths(&files), vec!["sub/inner/deep.txt", "sub/m.txt", "z.txt"]);
    for record in &files {
        assert_eq!(record.alias, "docs");
    }
}

#[test]
fn folders_are_read_last_found_first() {
    let mut walk = TreeWalk::new("a", vec![]);
    assert_eq!(walk.next_dir(), Some("".to_string()));
    assert_eq!(walk.next_dir(), None);
    walk.visit("", "one", EntryKind::Directory);
    walk.visit("", "two", EntryKind::Directory);
    assert_eq!(walk.next_dir(), Some("two".to_string()));
    walk.visit("two", "three", EntryKind::Directory);
    assert_eq!(walk.next_dir(), Some("two/three".to_string()));
    assert_eq!(walk.next_dir(), Some("one".to_string()));
    assert_eq!(walk.next_dir(), None);
    assert!(walk.finish().is_empty());
}

#[test]
fn scan_is_sorted_and_has_no_path_twice() {
    let tree = [
        ("", vec![
            ("m", file(1, 1)),
            ("b", EntryKind::Directory),
            ("a.b", file(1, 1)),
            ("a", EntryKind::Directory),
            ("zz", file(1, 1)),
        ]),
        ("a", vec![("b", file(1, 1)), ("c", file(1, 1))]),
        ("b", vec![("x y", file(1, 1)), ("x", file(1, 1))]),
    ];
    let files = scan(&tree, "docs", vec![deletion("k", 5), deletion("a/a", 6)]).finish();
    assert_eq!(paths(&files), vec!["a/a", "a/b", "a/c", "a.b", "b/x", "b/x y", "k", "m", "zz"]);
    for pair in files.windows(2) {
        assert!(pair[0].comes_before(&pair[1]));
        assert!(std::path::Path::new(&pair[0].path) < std::path::Path::new(&pair[1].path));
    }
}

#[test]
fn scan_passes_over_scratch_files() {
    let tree = [
        ("", vec![
            ("a.ironcarrier", file(1, 1)),
            (".ironcarrier", file(1, 1)),
            ("ironcarrier", file(1, 1)),
            ("keep.txt", file(1, 1)),
            ("folder.ironcarrier", EntryKind::Directory),
            ("sub", EntryKind::Directory),
        ]),
        ("sub", vec![("b.ironcarrier", file(1, 1)), ("b.txt", file(1, 1))]),
    ];
    let files = scan(&tree, "docs", vec![]).finish();
    assert_eq!(paths(&files), vec!["keep.txt", "sub/b.txt"]);
}

#[test]
fn scratch_folder_is_not_read() {
    let mut walk = TreeWalk::new("a", vec![]);
    assert_eq!(walk.next_dir(), Some("".to_string()));
    walk.visit("", "part.ironcarrier", EntryKind::Directory);
    assert_eq!(walk.next_dir(), None);
}

#[test]
fn tombstone_of_a_missing_file_stands_once() {
    let tree = [("", vec![("b", file(1, 1)), ("d", file(1, 1))])];
    let deletions = vec![deletion("c", 30), deletion("a", 10), deletion("e", 50)];
    let files = scan(&tree, "docs", deletions).finish();
    assert_eq!(paths(&files), vec!["a", "b", "c", "d", "e"]);
    for (index, secs) in [(0, 10), (2, 30), (4, 50)] {
        assert_eq!(files[index].deleted_at, Some(secs));
        assert_eq!(files[index].modified_at, None);
        assert_eq!(files[index].created_at, None);
        assert_eq!(files[index].size, None);
        assert_eq!(files[index].alias, "docs");
    }
    assert_eq!(files.iter().filter(|record| record.path == "c").count(), 1);
}

#[test]
fn tombstone_stands_in_front_of_a_file_that_came_back() {
    let tree = [("", vec![("a", file(7, 1)), ("b", file(8, 2))])];
    let files = scan(&tree, "docs", vec![deletion("b", 3)]).finish();
    assert_eq!(paths(&files), vec!["a", "b", "b"]);
    assert_eq!(files[1].deleted_at, Some(3));
    assert_eq!(files[1].size, None);
    assert_eq!(files[2].deleted_at, None);
    assert_eq!(files[2].size, Some(2));
}

#[test]
fn scan_of_an_empty_tree() {
    let tree = [("", vec![])];
    assert!(scan(&tree, "docs", vec![]).finish().is_empty());
    let only = scan(&tree, "docs", vec![deletion("x", 1)]).finish();
    assert_eq!(paths(&only), vec!["x"]);
}

#[test]
fn sort_is_stable() {
    let record = |path: &str, size: u64| FileInfo {
        alias: "a".to_string(),
        path: path.to_string(),
        modified_at: Some(0),
        created_at: Some(0),
        deleted_at: None,
        size: Some(size),
    };
    let files = vec![
        record("m", 1),
        record("c", 2),
        record("m", 3),
        record("a", 4),
        record("c", 5),
        record("m", 6),
        record("z", 7),
        record("a", 8),
    ];
    let sorted = sort_by_path(files);
    let seen: Vec<(&str, u64)> =
        sorted.iter().map(|r| (r.path.as_str(), r.size.unwrap())).collect();
    assert_eq!(
        seen,
        vec![("a", 4), ("a", 8), ("c", 2), ("c", 5), ("m", 1), ("m", 3), ("m", 6), ("z", 7)]
    );
}

#[test]
fn sort_agrees_with_sorting_paths() {
    let names = [
        "q/w", "a", "a/b", "a.b", "b", "a/b/c", "a-b", "k", "a b", "zz/1", "zz/0", "zz", "c/d/e", "c/d",
        "c.d", "0", "m/n", "m",
    ];
    let files: Vec<FileInfo> = names
        .iter()
        .map(|name| FileInfo::new_deleted("a".to_string(), name.to_string(), Some(at(1))))
        .collect();
    let sorted = sort_by_path(files);
    let mut expected: Vec<std::path::PathBuf> = names.iter().map(std::path::PathBuf::from).collect();
    expected.sort();
    let expected: Vec<&str> = expected.iter().map(|p| p.to_str().unwrap()).collect();
    assert_eq!(paths(&sorted), expected);
}

#[test]
fn sort_of_nothing_and_of_one() {
    assert!(sort_by_path(vec![]).is_empty());
    let one = sort_by_path(vec![FileInfo::new_deleted("a".to_string(), "x".to_string(), Some(at(1)))]);
    assert_eq!(paths(&one), vec!["x"]);
}

#[test]
fn files_with_hash_gives_the_fingerprint_of_the_snapshot() {
    let tree = [("", vec![("b.txt", file(200, 10)), ("a.txt", file(100, 5))])];
    let (hash, files) = get_files_with_hash(scan(&tree, "a", vec![]));
    assert_eq!(paths(&files), vec!["a.txt", "b.txt"]);
    assert_eq!(hash, calculate_hash(&files));
    assert_eq!(hash, 9967654943490671244);
}

#[test]
fn hash_for_alias_pairs_each_alias_with_its_fingerprint() {
    let docs = [("", vec![("b.txt", file(200, 10)), ("a.txt", file(100, 5))])];
    let empty = [("", vec![])];
    let walks = vec![scan(&docs, "a", vec![]), scan(&empty, "empty", vec![]), scan(&docs, "a", vec![])];
    let hashes = get_hash_for_alias(walks);
    assert_eq!(hashes.len(), 3);
    assert_eq!(hashes[0].alias, "a");
    assert_eq!(hashes[0].hash, 9967654943490671244);
    assert_eq!(hashes[1].alias, "empty");
    assert_eq!(hashes[1].hash, 13646096770106105413);
    assert_eq!(hashes[2].alias, "a");
    assert_eq!(hashes[2].hash, hashes[0].hash);
    assert!(get_hash_for_alias(vec![]).is_empty());
}
