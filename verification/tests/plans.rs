use iron_carrier::config::{AliasRoot, Config};
use iron_carrier::fs::{
    delete_file, flush_temp_file, get_temp_file, is_special_file, move_file, DeleteAction, FileInfo,
    PathKind,
};
use iron_carrier::IronCarrierError;

fn config() -> Config {
    Config {
        paths: vec![
            AliasRoot { alias: "docs".to_string(), root: Some("/home/me/docs".to_string()) },
            AliasRoot { alias: "gone".to_string(), root: None },
            AliasRoot { alias: "media".to_string(), root: Some("/mnt/media".to_string()) },
            AliasRoot { alias: "docs".to_string(), root: Some("/second".to_string()) },
        ],
    }
}

fn record(alias: &str, path: &str) -> FileInfo {
    FileInfo {
        alias: alias.to_string(),
        path: path.to_string(),
        modified_at: Some(1_600_000_000),
        created_at: Some(1_500_000_000),
        deleted_at: None,
        size: Some(3),
    }
}

fn not_available(error: &IronCarrierError, alias: &str) -> bool {
    matches!(error, IronCarrierError::AliasNotAvailable(name) if name == alias)
}

#[test]
fn absolute_path_is_the_path_below_the_root() {
    let config = config();
    assert_eq!(record("docs", "a.txt").get_absolute_path(&config).unwrap(), "/home/me/docs/a.txt");
    assert_eq!(
        record("media", "films/x.mkv").get_absolute_path(&config).unwrap(),
        "/mnt/media/films/x.mkv"
    );
    assert_eq!(record("docs", "").get_absolute_path(&config).unwrap(), "/home/me/docs");
}

#[test]
fn absolute_path_of_an_unknown_alias() {
    let error = record("nope", "a.txt").get_absolute_path(&config()).unwrap_err();
    assert!(not_available(&error, "nope"));
    let error = record("nope", "a.txt").get_absolute_path(&Config { paths: vec![] }).unwrap_err();
    assert!(not_available(&error, "nope"));
}

#[test]
fn absolute_path_of_an_alias_without_a_canonical_root() {
    let error = record("gone", "a.txt").get_absolute_path(&config()).unwrap_err();
    assert!(not_available(&error, "gone"));
}

#[test]
fn config_root_takes_the_first_entry() {
    let config = config();
    assert_eq!(config.root("docs"), Some(&"/home/me/docs".to_string()));
    assert_eq!(config.root("media"), Some(&"/mnt/media".to_string()));
    assert_eq!(config.root("gone"), None);
    assert_eq!(config.root("doc"), None);
    assert_eq!(config.root(""), None);
}

#[test]
fn delete_of_a_missing_file_does_nothing() {
    let action = delete_file(&record("docs", "a.txt"), &config(), PathKind::Missing).unwrap();
    assert!(matches!(action, DeleteAction::Nothing));
}

#[test]
fn delete_of_a_folder_removes_all_of_it() {
    let action = delete_file(&record("docs", "sub"), &config(), PathKind::Directory).unwrap();
    assert!(matches!(action, DeleteAction::RemoveDirAll(path) if path == "/home/me/docs/sub"));
}

#[test]
fn delete_of_a_file_removes_the_file() {
    let action = delete_file(&record("docs", "sub/a.txt"), &config(), PathKind::File).unwrap();
    assert!(matches!(action, DeleteAction::RemoveFile(path) if path == "/home/me/docs/sub/a.txt"));
}

#[test]
fn delete_fails_for_an_unknown_alias() {
    for found in [PathKind::Missing, PathKind::Directory, PathKind::File] {
        let error = delete_file(&record("nope", "a.txt"), &config(), found).unwrap_err();
        assert!(not_available(&error, "nope"));
    }
}

#[test]
fn move_renames_from_source_to_destination() {
    let rename =
        move_file(&record("docs", "a.txt"), &record("media", "b/a.txt"), &config()).unwrap();
    assert_eq!(rename.from, "/home/me/docs/a.txt");
    assert_eq!(rename.to, "/mnt/media/b/a.txt");
}

#[test]
fn move_fails_for_an_unknown_alias() {
    let config = config();
    let error = move_file(&record("nope", "a"), &record("docs", "b"), &config).unwrap_err();
    assert!(not_available(&error, "nope"));
    let error = move_file(&record("docs", "a"), &record("gone", "b"), &config).unwrap_err();
    assert!(not_available(&error, "gone"));
    let error = move_file(&record("nope", "a"), &record("gone", "b"), &config).unwrap_err();
    assert!(not_available(&error, "nope"));
}

#[test]
fn temp_file_lies_beside_the_final_path() {
    let temp = get_temp_file(&record("docs", "sub/a.txt"), &config()).unwrap();
    assert_eq!(temp.path, "/home/me/docs/sub/a.ironcarrier");
    assert_eq!(temp.parent, Some("/home/me/docs/sub".to_string()));
    assert!(is_special_file(&temp.path));
    let temp = get_temp_file(&record("docs", "plain"), &config()).unwrap();
    assert_eq!(temp.path, "/home/me/docs/plain.ironcarrier");
    assert_eq!(temp.parent, Some("/home/me/docs".to_string()));
    assert!(is_special_file(&temp.path));
}

#[test]
fn temp_file_fails_for_an_unknown_alias() {
    let error = get_temp_file(&record("gone", "a.txt"), &config()).unwrap_err();
    assert!(not_available(&error, "gone"));
}

#[test]
fn flush_renames_the_temp_file_and_sets_the_time() {
    let commit = flush_temp_file(&record("docs", "sub/a.txt"), &config()).unwrap();
    assert_eq!(commit.rename.from, "/home/me/docs/sub/a.ironcarrier");
    assert_eq!(commit.rename.to, "/home/me/docs/sub/a.txt");
    let mtime = commit.mtime.expect("a time that a file can be given");
    assert_eq!(mtime.seconds, 1_600_000_000);
    assert_eq!(mtime.nanos, 0);
    let temp = get_temp_file(&record("docs", "sub/a.txt"), &config()).unwrap();
    assert_eq!(temp.path, commit.rename.from);
}

#[test]
fn flush_sets_the_time_of_the_record() {
    for seconds in [0u64, 1, 100, 4_102_444_800, 253_402_300_799] {
        let mut file = record("docs", "a.txt");
        file.modified_at = Some(seconds);
        let commit = flush_temp_file(&file, &config()).unwrap();
        let mtime = commit.mtime.expect("a time that a file can be given");
        assert_eq!(mtime.seconds, seconds as i64);
        assert_eq!(mtime.nanos, 0);
    }
}

#[test]
fn flush_has_no_time_for_a_time_beyond_the_clock() {
    for seconds in [i64::MAX as u64 + 1, u64::MAX] {
        let mut file = record("docs", "a.txt");
        file.modified_at = Some(seconds);
        let commit = flush_temp_file(&file, &config()).unwrap();
        assert_eq!(commit.rename.from, "/home/me/docs/a.ironcarrier");
        assert_eq!(commit.rename.to, "/home/me/docs/a.txt");
        assert!(commit.mtime.is_none());
    }
}

#[test]
fn config_without_an_alias_twice_finds_every_entry() {
    let config = Config {
        paths: vec![
            AliasRoot { alias: "a".to_string(), root: Some("/a".to_string()) },
            AliasRoot { alias: "b".to_string(), root: None },
            AliasRoot { alias: "c".to_string(), root: Some("/c".to_string()) },
        ],
    };
    for entry in &config.paths {
        assert_eq!(config.root(&entry.alias), entry.root.as_ref());
    }
}

#[test]
fn flush_fails_for_an_unknown_alias() {
    let error = flush_temp_file(&record("nope", "a.txt"), &config()).unwrap_err();
    assert!(not_available(&error, "nope"));
}
