use iron_carrier::path::{join_path, parent_of, sorts_before, temp_path_of};
use iron_carrier::text::same_text;
use std::path::{Path, PathBuf};

const CLEAN: [&str; 16] = [
    "a",
    "a/b",
    "a.b",
    "a b",
    "a-b",
    "a/b/c",
    "a/b.txt",
    "ab",
    "b",
    "B",
    "file_1",
    "file_2",
    "dir/file",
    "dir.d/file",
    "dir/sub/file",
    "zeta/\u{e9}t\u{e9}",
];

#[test]
fn order_is_that_of_the_components() {
    for a in CLEAN {
        for b in CLEAN {
            let expected = Path::new(a) < Path::new(b);
            assert_eq!(sorts_before(a, b), expected, "{a} before {b}");
        }
    }
}

#[test]
fn separator_sorts_before_every_other_byte() {
    assert!(sorts_before("a/b", "a.b"));
    assert!(sorts_before("a/b", "a b"));
    assert!(sorts_before("a/z", "a\u{1}"));
    assert!(!sorts_before("a.b", "a/b"));
}

#[test]
fn a_prefix_sorts_first() {
    assert!(sorts_before("", "a"));
    assert!(sorts_before("a", "ab"));
    assert!(sorts_before("a", "a/b"));
    assert!(!sorts_before("ab", "a"));
    assert!(!sorts_before("a", "a"));
    assert!(!sorts_before("", ""));
}

#[test]
fn order_is_total_on_samples() {
    for a in CLEAN {
        for b in CLEAN {
            let forward = sorts_before(a, b);
            let backward = sorts_before(b, a);
            assert!(!(forward && backward));
            assert_eq!(!forward && !backward, a == b);
        }
    }
}

#[test]
fn join_appends_below_the_root() {
    assert_eq!(join_path("/data", "a.txt"), "/data/a.txt");
    assert_eq!(join_path("/data", "a/b.txt"), "/data/a/b.txt");
    assert_eq!(join_path("/data/", "a.txt"), "/data/a.txt");
    assert_eq!(join_path("/", "a.txt"), "/a.txt");
    assert_eq!(join_path("", "a.txt"), "a.txt");
    assert_eq!(join_path("/data", ""), "/data");
    assert_eq!(join_path("", ""), "");
    assert_eq!(join_path("dir", "sub"), "dir/sub");
}

#[test]
fn join_agrees_with_extending_a_path() {
    for root in ["/data", "/", "/srv/sync root", ""] {
        for tail in CLEAN {
            let mut expected = PathBuf::from(root);
            expected.extend(Path::new(tail).components());
            assert_eq!(Path::new(&join_path(root, tail)), expected.as_path());
            assert_eq!(join_path(root, tail), expected.to_str().unwrap());
        }
    }
}

#[test]
fn join_keeps_the_tail_as_written() {
    assert_eq!(join_path("/data", "../x"), "/data/../x");
    assert_eq!(join_path("/data", "/etc/passwd"), "/data//etc/passwd");
}

#[test]
fn temp_path_replaces_the_extension() {
    assert_eq!(temp_path_of("/data/a.txt"), "/data/a.ironcarrier");
    assert_eq!(temp_path_of("/data/a"), "/data/a.ironcarrier");
    assert_eq!(temp_path_of("/data/a.tar.gz"), "/data/a.tar.ironcarrier");
    assert_eq!(temp_path_of("/data/.hidden"), "/data/.hidden.ironcarrier");
    assert_eq!(temp_path_of("/data/.hidden.txt"), "/data/.hidden.ironcarrier");
    assert_eq!(temp_path_of("/data/a."), "/data/a.ironcarrier");
    assert_eq!(temp_path_of("/data.d/a"), "/data.d/a.ironcarrier");
    assert_eq!(temp_path_of("a.txt"), "a.ironcarrier");
    assert_eq!(temp_path_of("/data/\u{e9}t\u{e9}.txt"), "/data/\u{e9}t\u{e9}.ironcarrier");
}

#[test]
fn temp_path_of_a_path_without_a_file_name() {
    assert_eq!(temp_path_of(""), "");
    assert_eq!(temp_path_of("/"), "/");
    assert_eq!(temp_path_of("/data/"), "/data/");
    assert_eq!(temp_path_of("/data/.."), "/data/..");
    assert_eq!(temp_path_of(".."), "..");
    assert_eq!(temp_path_of("."), ".");
}

#[test]
fn temp_path_agrees_with_setting_the_extension() {
    let names = [
        "a.txt", "a", "a.tar.gz", ".hidden", ".hidden.txt", "a.", "..a", "a..b", "...", "a b.c d",
        "\u{e9}.\u{e9}",
    ];
    for folder in ["/data", "/data.d/sub", "", "/"] {
        for name in names {
            let path = join_path(folder, name);
            let mut expected = PathBuf::from(&path);
            expected.set_extension("ironcarrier");
            assert_eq!(temp_path_of(&path), expected.to_str().unwrap(), "{path}");
        }
    }
}

#[test]
fn parent_is_the_folder_of_the_file() {
    assert_eq!(parent_of("/data/a.txt"), Some("/data".to_string()));
    assert_eq!(parent_of("/data/sub/a.txt"), Some("/data/sub".to_string()));
    assert_eq!(parent_of("/a.txt"), Some("/".to_string()));
    assert_eq!(parent_of("a.txt"), Some("".to_string()));
    assert_eq!(parent_of("/\u{e9}/\u{e9}"), Some("/\u{e9}".to_string()));
    assert_eq!(parent_of("/"), None);
    assert_eq!(parent_of(""), None);
    assert_eq!(parent_of("/data/"), None);
}

#[test]
fn parent_agrees_with_the_parent_of_a_path() {
    for folder in ["/data", "/data.d/sub", "", "/"] {
        for name in CLEAN {
            let path = join_path(folder, name);
            let expected = Path::new(&path).parent().map(|p| p.to_str().unwrap().to_string());
            assert_eq!(parent_of(&path), expected, "{path}");
        }
    }
}

#[test]
fn same_text_compares_whole_texts() {
    assert!(same_text("", ""));
    assert!(same_text("alias", "alias"));
    assert!(same_text("\u{e9}", "\u{e9}"));
    assert!(!same_text("alias", "alia"));
    assert!(!same_text("alias", "aliaz"));
    assert!(!same_text("", "a"));
}
