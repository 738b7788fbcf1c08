use dupscan::entry::{list_entries, Config, FileEntry, FileKind, KeyKind, OutputFormat, WalkItem};
use dupscan::error::{check_root, ScanError};
use dupscan::hashing::{files_to_hash, group_digests, hash_file, HashPass, HashedFile};
use dupscan::path::{display_path, shown_from};
use dupscan::scan::{entry_key, scan_entries};
use dupscan::table::{file_path, same_key, Group, Key};

fn entry(name: &str, path: &str, size: u64) -> FileEntry {
    FileEntry { name: name.to_string(), path: path.to_string(), size }
}

fn strings(items: &[&str]) -> Vec<String> {
    items.iter().map(|s| s.to_string()).collect()
}

fn name_size(name: &str, size: u64, paths: &[&str]) -> Group {
    Group { key: Key::NameSize(name.to_string(), size), paths: strings(paths) }
}

#[test]
fn default_config() {
    let config = Config::default();
    assert_eq!(config.format, OutputFormat::Console);
    assert!(!config.name_only);
    assert!(!config.hash_only_dup_names);
    assert!(config.list_empty);
    assert_eq!(config.min_size, 0);
    assert_eq!(config.key, KeyKind::NameSize);
}

#[test]
fn keys_compare_by_kind_and_value() {
    let a = Key::Name("x".to_string());
    assert!(same_key(&a, &Key::Name("x".to_string())));
    assert!(!same_key(&a, &Key::Name("y".to_string())));
    assert!(!same_key(&a, &Key::Digest("x".to_string())));
    assert!(!same_key(&a, &Key::NameSize("x".to_string(), 0)));
    let b = Key::NameSize("x".to_string(), 3);
    assert!(same_key(&b, &Key::NameSize("x".to_string(), 3)));
    assert!(!same_key(&b, &Key::NameSize("x".to_string(), 4)));
    assert!(!same_key(&b, &Key::NameSize("y".to_string(), 3)));
    let c = Key::Digest("ab".to_string());
    assert!(same_key(&c, &Key::Digest("ab".to_string())));
    assert!(!same_key(&c, &Key::Digest("ac".to_string())));
}

#[test]
fn entry_keys() {
    let e = entry("x.txt", "a/x.txt", 10);
    assert_eq!(entry_key(&e, KeyKind::Name), Key::Name("x.txt".to_string()));
    assert_eq!(entry_key(&e, KeyKind::NameSize), Key::NameSize("x.txt".to_string(), 10));
}

#[test]
fn filing_opens_and_fills_groups() {
    let mut table: Vec<Group> = Vec::new();
    file_path(&mut table, Key::Name("x".to_string()), "a/x".to_string());
    file_path(&mut table, Key::Name("y".to_string()), "a/y".to_string());
    file_path(&mut table, Key::Name("x".to_string()), "b/x".to_string());
    assert_eq!(
        table,
        vec![
            Group { key: Key::Name("x".to_string()), paths: strings(&["a/x", "b/x"]) },
            Group { key: Key::Name("y".to_string()), paths: strings(&["a/y"]) },
        ]
    );
}

#[test]
fn scan_of_nothing() {
    let scan = scan_entries(&Vec::new(), 0, KeyKind::NameSize);
    assert!(scan.empty.is_empty());
    assert!(scan.table.is_empty());
}

#[test]
fn scan_groups_by_name_and_size() {
    let entries = vec![
        entry("x.txt", "a/x.txt", 10),
        entry("y.txt", "a/y.txt", 10),
        entry("x.txt", "b/x.txt", 10),
        entry("x.txt", "c/x.txt", 11),
        entry("y.txt", "c/y.txt", 10),
        entry("x.txt", "d/x.txt", 10),
    ];
    let scan = scan_entries(&entries, 0, KeyKind::NameSize);
    assert!(scan.empty.is_empty());
    assert_eq!(
        scan.table,
        vec![
            name_size("x.txt", 10, &["a/x.txt", "b/x.txt", "d/x.txt"]),
            name_size("y.txt", 10, &["a/y.txt", "c/y.txt"]),
            name_size("x.txt", 11, &["c/x.txt"]),
        ]
    );
}

#[test]
fn same_name_with_different_sizes() {
    let entries = vec![entry("x.txt", "a/x.txt", 10), entry("x.txt", "b/x.txt", 20)];
    let by_both = scan_entries(&entries, 0, KeyKind::NameSize);
    assert_eq!(
        by_both.table,
        vec![name_size("x.txt", 10, &["a/x.txt"]), name_size("x.txt", 20, &["b/x.txt"])]
    );
    assert!(by_both.table.iter().all(|g| g.paths.len() == 1));
    let by_name = scan_entries(&entries, 0, KeyKind::Name);
    assert_eq!(
        by_name.table,
        vec![Group { key: Key::Name("x.txt".to_string()), paths: strings(&["a/x.txt", "b/x.txt"]) }]
    );
}

#[test]
fn empty_files_are_set_aside() {
    let entries = vec![
        entry("e", "a/e", 0),
        entry("x", "a/x", 5),
        entry("e", "b/e", 0),
        entry("x", "b/x", 5),
    ];
    let scan = scan_entries(&entries, 0, KeyKind::NameSize);
    assert_eq!(scan.empty, strings(&["a/e", "b/e"]));
    assert_eq!(scan.table, vec![name_size("x", 5, &["a/x", "b/x"])]);
    let by_name = scan_entries(&entries, 0, KeyKind::Name);
    assert_eq!(by_name.empty, strings(&["a/e", "b/e"]));
    assert_eq!(by_name.table, vec![Group { key: Key::Name("x".to_string()), paths: strings(&["a/x", "b/x"]) }]);
}

#[test]
fn empty_files_stay_with_a_size_threshold() {
    let entries = vec![entry("e", "a/e", 0), entry("x", "a/x", 5)];
    let scan = scan_entries(&entries, 100, KeyKind::NameSize);
    assert_eq!(scan.empty, strings(&["a/e"]));
    assert!(scan.table.is_empty());
}

#[test]
fn size_threshold_drops_smaller_files() {
    let entries = vec![
        entry("s", "a/s", 9),
        entry("m", "a/m", 10),
        entry("l", "a/l", 11),
        entry("s", "b/s", 9),
        entry("m", "b/m", 10),
        entry("one", "a/one", 1),
    ];
    let scan = scan_entries(&entries, 10, KeyKind::NameSize);
    assert!(scan.empty.is_empty());
    assert_eq!(
        scan.table,
        vec![name_size("m", 10, &["a/m", "b/m"]), name_size("l", 11, &["a/l"])]
    );
    let all = scan_entries(&entries, 0, KeyKind::NameSize);
    assert_eq!(all.table.len(), 4);
    let most = scan_entries(&entries, 1, KeyKind::NameSize);
    assert_eq!(most.table, all.table);
    let none = scan_entries(&entries, 12, KeyKind::NameSize);
    assert!(none.table.is_empty());
}

#[test]
fn largest_size_passes_the_largest_threshold() {
    let entries = vec![entry("big", "a/big", u64::MAX), entry("big", "b/big", u64::MAX - 1)];
    let scan = scan_entries(&entries, u64::MAX, KeyKind::NameSize);
    assert_eq!(scan.table, vec![name_size("big", u64::MAX, &["a/big"])]);
}

#[test]
fn no_path_is_filed_twice() {
    let entries = vec![
        entry("x", "a/x", 1),
        entry("y", "a/y", 1),
        entry("x", "b/x", 1),
        entry("z", "a/z", 0),
        entry("y", "b/y", 2),
    ];
    for kind in [KeyKind::Name, KeyKind::NameSize] {
        let scan = scan_entries(&entries, 0, kind);
        let mut seen: Vec<String> = scan.empty.clone();
        for group in &scan.table {
            assert!(!group.paths.is_empty());
            seen.extend(group.paths.iter().cloned());
        }
        seen.sort();
        assert_eq!(seen, strings(&["a/x", "a/y", "a/z", "b/x", "b/y"]));
        for (i, g) in scan.table.iter().enumerate() {
            for h in &scan.table[i + 1..] {
                assert!(!same_key(&g.key, &h.key));
            }
        }
    }
}

fn membership(table: &[Group]) -> Vec<(String, Vec<String>)> {
    let mut groups: Vec<(String, Vec<String>)> = table
        .iter()
        .map(|g| {
            let mut paths = g.paths.clone();
            paths.sort();
            (format!("{:?}", g.key), paths)
        })
        .collect();
    groups.sort();
    groups
}

#[test]
fn order_of_the_walk_does_not_change_membership() {
    let forward = vec![
        entry("x", "a/x", 3),
        entry("y", "a/y", 3),
        entry("x", "b/x", 3),
        entry("e", "a/e", 0),
        entry("y", "b/y", 4),
        entry("x", "c/x", 3),
    ];
    let mut backward = forward.clone();
    backward.reverse();
    let mut rotated = forward.clone();
    rotated.rotate_left(2);
    for kind in [KeyKind::Name, KeyKind::NameSize] {
        let one = scan_entries(&forward, 0, kind);
        let again = scan_entries(&forward, 0, kind);
        assert_eq!(one, again);
        for other in [&backward, &rotated] {
            let two = scan_entries(other, 0, kind);
            assert_eq!(membership(&one.table), membership(&two.table));
            let mut a = one.empty.clone();
            let mut b = two.empty.clone();
            a.sort();
            b.sort();
            assert_eq!(a, b);
        }
    }
}

#[test]
fn all_groups_are_hashed_by_default() {
    let table = vec![
        name_size("x", 1, &["a/x", "b/x"]),
        name_size("y", 1, &["a/y"]),
        name_size("z", 2, &["a/z", "b/z", "c/z"]),
    ];
    assert_eq!(files_to_hash(&table, false), strings(&["a/x", "b/x", "a/y", "a/z", "b/z", "c/z"]));
}

#[test]
fn only_shared_keys_are_hashed_on_request() {
    let table = vec![
        name_size("x", 1, &["a/x", "b/x"]),
        name_size("y", 1, &["a/y"]),
        name_size("z", 2, &["a/z", "b/z", "c/z"]),
    ];
    assert_eq!(files_to_hash(&table, true), strings(&["a/x", "b/x", "a/z", "b/z", "c/z"]));
    assert!(files_to_hash(&Vec::new(), true).is_empty());
    assert!(files_to_hash(&vec![name_size("y", 1, &["a/y"])], true).is_empty());
}

#[test]
fn hashed_file_carries_path_and_digest() {
    let file = hash_file("a/x.txt".to_string(), b"hello world");
    assert_eq!(
        file,
        HashedFile {
            path: "a/x.txt".to_string(),
            digest: "2aae6c35c94fcfb415dbe95f408b9ce91ee846ed".to_string(),
        }
    );
}

#[test]
fn digests_group_files() {
    let files = vec![
        HashedFile { path: "a".to_string(), digest: "d1".to_string() },
        HashedFile { path: "b".to_string(), digest: "d2".to_string() },
        HashedFile { path: "c".to_string(), digest: "d1".to_string() },
    ];
    assert_eq!(
        group_digests(&files),
        vec![
            Group { key: Key::Digest("d1".to_string()), paths: strings(&["a", "c"]) },
            Group { key: Key::Digest("d2".to_string()), paths: strings(&["b"]) },
        ]
    );
    assert!(group_digests(&Vec::new()).is_empty());
}

#[test]
fn pass_asks_for_each_file_in_turn() {
    let mut pass = HashPass::new(strings(&["a", "b", "c"]));
    assert_eq!(pass.next_path(), Some("a".to_string()));
    assert_eq!(pass.next_path(), Some("a".to_string()));
    assert!(pass.supply(Some(b"one")).is_ok());
    assert_eq!(pass.next_path(), Some("b".to_string()));
    assert!(pass.supply(Some(b"two")).is_ok());
    assert_eq!(pass.next_path(), Some("c".to_string()));
    assert!(pass.supply(Some(b"one")).is_ok());
    assert_eq!(pass.next_path(), None);
    let table = pass.finish().unwrap();
    assert_eq!(
        table,
        vec![
            Group {
                key: Key::Digest("fe05bcdcdc4928012781a5f1a2a77cbb5398e106".to_string()),
                paths: strings(&["a", "c"]),
            },
            Group {
                key: Key::Digest("ad782ecdac770fc6eb9a62e44f90873fb97fb26b".to_string()),
                paths: strings(&["b"]),
            },
        ]
    );
}

#[test]
fn pass_over_nothing_is_complete() {
    let pass = HashPass::new(Vec::new());
    assert_eq!(pass.next_path(), None);
    assert_eq!(pass.finish(), Some(Vec::new()));
}

#[test]
fn unreadable_file_ends_the_pass() {
    let mut pass = HashPass::new(strings(&["a", "b"]));
    assert!(pass.supply(Some(b"one")).is_ok());
    let outcome = pass.supply(None);
    assert_eq!(outcome, Err(ScanError::Unreadable("b".to_string())));
    assert_eq!(outcome.unwrap_err().message(), "cannot read \"b\"");
    assert_eq!(pass.next_path(), Some("b".to_string()));
    assert_eq!(pass.finish(), None);
}

#[test]
fn unfinished_pass_gives_no_table() {
    let mut pass = HashPass::new(strings(&["a", "b"]));
    assert!(pass.supply(Some(b"one")).is_ok());
    assert_eq!(pass.finish(), None);
}

#[test]
fn missing_root_is_an_error() {
    assert_eq!(check_root("somewhere", true), Ok(()));
    let outcome = check_root("no/such/dir", false);
    assert_eq!(outcome, Err(ScanError::RootNotFound("no/such/dir".to_string())));
    assert_eq!(outcome.unwrap_err().message(), "\"no/such/dir\" directory does not exist");
}

#[test]
fn walk_lists_regular_files_with_metadata() {
    let item = |name: &str, kind: FileKind, size: Option<u64>| WalkItem {
        name: name.to_string(),
        path: format!("root/{}", name),
        kind,
        size,
    };
    let items = vec![
        item("dir", FileKind::Directory, Some(4096)),
        item("a", FileKind::File, Some(3)),
        item("link", FileKind::Symlink, Some(1)),
        item("gone", FileKind::File, None),
        item("pipe", FileKind::Other, Some(0)),
        item("b", FileKind::File, Some(0)),
    ];
    assert_eq!(list_entries(&items), vec![entry("a", "root/a", 3), entry("b", "root/b", 0)]);
    assert!(list_entries(&Vec::new()).is_empty());
}

#[test]
fn shown_path_is_the_rest_or_the_path() {
    assert_eq!(shown_from("./a/b", Some("a/b".to_string())), "a/b");
    assert_eq!(shown_from("a/b", None), "a/b");
}

#[test]
fn leading_current_directory_is_not_shown() {
    assert_eq!(display_path("./a/x.txt"), "a/x.txt");
    assert_eq!(display_path("a/x.txt"), "a/x.txt");
    assert_eq!(display_path("/abs/x.txt"), "/abs/x.txt");
    assert_eq!(display_path("../up/x.txt"), "../up/x.txt");
    assert_eq!(display_path("./x.txt"), "x.txt");
}

#[test]
fn shown_path_is_what_stripping_gives() {
    for path in ["./a/x.txt", "a/x.txt", "./x.txt", ".//a/x.txt", "./", ".", "", "/abs/./x.txt", "../x"] {
        let expected = match std::path::Path::new(path).strip_prefix("./") {
            Ok(rest) => rest.to_string_lossy().into_owned(),
            Err(_) => path.to_string(),
        };
        assert_eq!(display_path(path), expected);
        assert_eq!(display_path(path), display_path(path));
    }
}
