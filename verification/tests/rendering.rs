use dupscan::entry::{Config, FileEntry, KeyKind, OutputFormat};
use dupscan::hashing::{files_to_hash, HashPass};
use dupscan::pipeline::{final_report, second_pass};
use dupscan::report::{csv_line_of, heading_of, join_paths, render_report};
use dupscan::scan::scan_entries;
use dupscan::table::{Group, Key};

fn entry(name: &str, path: &str, size: u64) -> FileEntry {
    FileEntry { name: name.to_string(), path: path.to_string(), size }
}

fn strings(items: &[&str]) -> Vec<String> {
    items.iter().map(|s| s.to_string()).collect()
}

fn config(format: OutputFormat, name_only: bool, list_empty: bool) -> Config {
    Config { format, name_only, list_empty, ..Config::default() }
}

fn names() -> Vec<Group> {
    vec![
        Group { key: Key::NameSize("x.txt".to_string(), 10), paths: strings(&["a/x.txt", "b/x.txt"]) },
        Group { key: Key::NameSize("y.txt".to_string(), 7), paths: strings(&["c/y.txt"]) },
        Group {
            key: Key::NameSize("z.txt".to_string(), 1234),
            paths: strings(&["a/z.txt", "b/z.txt", "c/z.txt"]),
        },
    ]
}

fn digests() -> Vec<Group> {
    vec![
        Group { key: Key::Digest("aa11".to_string()), paths: strings(&["a/x.txt", "b/x.txt"]) },
        Group { key: Key::Digest("bb22".to_string()), paths: strings(&["c/y.txt"]) },
    ]
}

#[test]
fn paths_are_joined_by_commas() {
    assert_eq!(join_paths(&Vec::new()), "");
    assert_eq!(join_paths(&strings(&["a"])), "a");
    assert_eq!(join_paths(&strings(&["a", "b"])), "a,b");
    assert_eq!(join_paths(&strings(&["a/x", "b/x", "c/x"])), "a/x,b/x,c/x");
}

#[test]
fn headings() {
    assert_eq!(heading_of(&Key::NameSize("x.txt".to_string(), 10)), "x.txt (10 B):");
    assert_eq!(heading_of(&Key::NameSize("x.txt".to_string(), 0)), "x.txt (0 B):");
    assert_eq!(heading_of(&Key::Name("x.txt".to_string())), "x.txt:");
    assert_eq!(heading_of(&Key::Digest("aa11".to_string())), "aa11:");
}

#[test]
fn csv_lines() {
    let table = names();
    assert_eq!(csv_line_of(&table[0]), "x.txt,10,a/x.txt,b/x.txt");
    assert_eq!(csv_line_of(&table[2]), "z.txt,1234,a/z.txt,b/z.txt,c/z.txt");
    assert_eq!(csv_line_of(&digests()[0]), "aa11,a/x.txt,b/x.txt");
    let by_name = Group { key: Key::Name("x.txt".to_string()), paths: strings(&["a/x.txt", "b/x.txt"]) };
    assert_eq!(csv_line_of(&by_name), "x.txt,a/x.txt,b/x.txt");
}

#[test]
fn name_report_on_the_console() {
    let lines = render_report(&names(), &strings(&["e/one", "e/two"]), &config(OutputFormat::Console, true, true));
    assert_eq!(
        lines,
        strings(&[
            "3 issues found:",
            "x.txt (10 B):",
            "    a/x.txt",
            "    b/x.txt",
            "",
            "z.txt (1234 B):",
            "    a/z.txt",
            "    b/z.txt",
            "    c/z.txt",
            "",
            "2 empty files:",
            "    e/one",
            "    e/two",
        ])
    );
}

#[test]
fn name_report_without_the_empty_files() {
    let lines = render_report(&names(), &strings(&["e/one"]), &config(OutputFormat::Console, true, false));
    assert_eq!(
        lines,
        strings(&[
            "3 issues found:",
            "x.txt (10 B):",
            "    a/x.txt",
            "    b/x.txt",
            "",
            "z.txt (1234 B):",
            "    a/z.txt",
            "    b/z.txt",
            "    c/z.txt",
            "",
        ])
    );
}

#[test]
fn name_report_as_csv() {
    for list_empty in [true, false] {
        let lines = render_report(&names(), &strings(&["e/one"]), &config(OutputFormat::Csv, true, list_empty));
        assert_eq!(lines, strings(&["x.txt,10,a/x.txt,b/x.txt", "z.txt,1234,a/z.txt,b/z.txt,c/z.txt"]));
    }
}

#[test]
fn digest_report_on_the_console() {
    let lines = render_report(&digests(), &strings(&["e/one"]), &config(OutputFormat::Console, false, true));
    assert_eq!(
        lines,
        strings(&["aa11:", "    a/x.txt", "    b/x.txt", "", "1 empty files:", "    e/one"])
    );
    let bare = render_report(&digests(), &strings(&["e/one"]), &config(OutputFormat::Console, false, false));
    assert_eq!(bare, strings(&["aa11:", "    a/x.txt", "    b/x.txt", ""]));
}

#[test]
fn digest_report_as_csv() {
    let lines = render_report(&digests(), &strings(&["e/one"]), &config(OutputFormat::Csv, false, true));
    assert_eq!(lines, strings(&["aa11,a/x.txt,b/x.txt"]));
}

#[test]
fn report_of_nothing() {
    let none: Vec<Group> = Vec::new();
    let empty: Vec<String> = Vec::new();
    assert_eq!(
        render_report(&none, &empty, &config(OutputFormat::Console, true, true)),
        strings(&["0 issues found:", "0 empty files:"])
    );
    assert_eq!(
        render_report(&none, &empty, &config(OutputFormat::Console, false, true)),
        strings(&["0 empty files:"])
    );
    assert!(render_report(&none, &empty, &config(OutputFormat::Console, false, false)).is_empty());
    assert!(render_report(&none, &empty, &config(OutputFormat::Csv, true, true)).is_empty());
}

#[test]
fn rendering_leaves_its_input_alone() {
    let table = names();
    let empty = strings(&["e/one"]);
    let first = render_report(&table, &empty, &config(OutputFormat::Console, true, true));
    let second = render_report(&table, &empty, &config(OutputFormat::Console, true, true));
    assert_eq!(first, second);
    assert_eq!(table, names());
    assert_eq!(empty, strings(&["e/one"]));
}

fn content_of(path: &str) -> Option<&'static [u8]> {
    match path {
        "a/x.txt" => Some(b"the same bytes"),
        "b/x.txt" => Some(b"the same bytes"),
        "c/y.txt" => Some(b"other bytes!!!"),
        "d/copy.bin" => Some(b"the same bytes"),
        _ => None,
    }
}

fn hash_report(entries: &[FileEntry], config: &Config) -> Vec<String> {
    let scan = scan_entries(&entries.to_vec(), config.min_size, config.key);
    let mut pass = second_pass(&scan, config);
    if let Some(pass) = pass.as_mut() {
        while let Some(path) = pass.next_path() {
            assert!(pass.supply(content_of(&path)).is_ok());
        }
    }
    final_report(&scan, pass, config).unwrap()
}

#[test]
fn name_report_needs_no_second_pass() {
    let entries = vec![entry("x.txt", "a/x.txt", 14), entry("x.txt", "b/x.txt", 14)];
    let config = Config { name_only: true, list_empty: false, ..Config::default() };
    let scan = scan_entries(&entries, config.min_size, config.key);
    assert!(second_pass(&scan, &config).is_none());
    assert_eq!(
        final_report(&scan, None, &config),
        Some(strings(&["1 issues found:", "x.txt (14 B):", "    a/x.txt", "    b/x.txt", ""]))
    );
    let stray = HashPass::new(strings(&["a/x.txt"]));
    assert_eq!(
        final_report(&scan, Some(stray), &config),
        Some(strings(&["1 issues found:", "x.txt (14 B):", "    a/x.txt", "    b/x.txt", ""]))
    );
}

#[test]
fn second_pass_asks_for_the_files_to_hash() {
    let entries = vec![
        entry("x.txt", "a/x.txt", 14),
        entry("y.txt", "c/y.txt", 14),
        entry("x.txt", "b/x.txt", 14),
    ];
    let scan = scan_entries(&entries, 0, KeyKind::NameSize);
    let mut asked: Vec<String> = Vec::new();
    let mut pass = second_pass(&scan, &Config::default()).unwrap();
    while let Some(path) = pass.next_path() {
        assert!(pass.supply(content_of(&path)).is_ok());
        asked.push(path);
    }
    assert_eq!(asked, files_to_hash(&scan.table, false));
    assert_eq!(asked, strings(&["a/x.txt", "b/x.txt", "c/y.txt"]));
    let shared = Config { hash_only_dup_names: true, ..Config::default() };
    let pass = second_pass(&scan, &shared).unwrap();
    assert_eq!(pass.next_path(), Some("a/x.txt".to_string()));
}

#[test]
fn no_report_after_an_unreadable_file() {
    let entries = vec![entry("x.txt", "a/x.txt", 14), entry("x.txt", "gone/x.txt", 14)];
    let config = Config::default();
    let scan = scan_entries(&entries, config.min_size, config.key);
    let mut pass = second_pass(&scan, &config).unwrap();
    assert!(pass.supply(content_of("a/x.txt")).is_ok());
    assert_eq!(pass.next_path(), Some("gone/x.txt".to_string()));
    assert!(pass.supply(content_of("gone/x.txt")).is_err());
    assert_eq!(final_report(&scan, Some(pass), &config), None);
    assert_eq!(final_report(&scan, None, &config), None);
}

#[test]
fn identical_content_under_two_paths() {
    let entries = vec![
        entry("x.txt", "a/x.txt", 14),
        entry("x.txt", "b/x.txt", 14),
        entry("y.txt", "c/y.txt", 14),
    ];
    let scan = scan_entries(&entries, 0, KeyKind::NameSize);
    let mut pass = HashPass::new(files_to_hash(&scan.table, false));
    while let Some(path) = pass.next_path() {
        assert!(pass.supply(content_of(&path)).is_ok());
    }
    let table = pass.finish().unwrap();
    let shared: Vec<&Group> = table.iter().filter(|g| g.paths.len() > 1).collect();
    assert_eq!(shared.len(), 1);
    assert_eq!(shared[0].paths, strings(&["a/x.txt", "b/x.txt"]));
    let lines = render_report(&table, &scan.empty, &config(OutputFormat::Console, false, true));
    assert_eq!(
        lines,
        strings(&[
            "df894a77e4c89e6ae4b340b8078a009f60316b6d:",
            "    a/x.txt",
            "    b/x.txt",
            "",
            "0 empty files:",
        ])
    );
    assert!(lines.iter().all(|line| !line.contains("y.txt")));
    let csv = render_report(&table, &scan.empty, &config(OutputFormat::Csv, false, true));
    assert_eq!(csv, strings(&["df894a77e4c89e6ae4b340b8078a009f60316b6d,a/x.txt,b/x.txt"]));
}

#[test]
fn name_only_with_different_sizes() {
    let entries = vec![entry("x.txt", "a/x.txt", 10), entry("x.txt", "b/x.txt", 20)];
    let by_both = scan_entries(&entries, 0, KeyKind::NameSize);
    let lines = render_report(&by_both.table, &by_both.empty, &config(OutputFormat::Console, true, false));
    assert_eq!(lines, strings(&["2 issues found:"]));
    let csv = render_report(&by_both.table, &by_both.empty, &config(OutputFormat::Csv, true, false));
    assert!(csv.is_empty());
    let by_name = scan_entries(&entries, 0, KeyKind::Name);
    let lines = render_report(&by_name.table, &by_name.empty, &config(OutputFormat::Console, true, false));
    assert_eq!(lines, strings(&["1 issues found:", "x.txt:", "    a/x.txt", "    b/x.txt", ""]));
}

#[test]
fn same_content_under_different_names() {
    let entries = vec![
        entry("x.txt", "a/x.txt", 14),
        entry("copy.bin", "d/copy.bin", 14),
        entry("y.txt", "c/y.txt", 14),
    ];
    let all = hash_report(&entries, &Config { format: OutputFormat::Csv, ..Config::default() });
    assert_eq!(all, strings(&["df894a77e4c89e6ae4b340b8078a009f60316b6d,a/x.txt,d/copy.bin"]));
    let shared_names_only = hash_report(
        &entries,
        &Config { format: OutputFormat::Csv, hash_only_dup_names: true, ..Config::default() },
    );
    assert!(shared_names_only.is_empty());
}

#[test]
fn empty_files_are_listed_and_never_hashed() {
    let entries = vec![
        entry("x.txt", "a/x.txt", 14),
        entry("nothing", "a/nothing", 0),
        entry("x.txt", "b/x.txt", 14),
        entry("nothing", "b/nothing", 0),
    ];
    let lines = hash_report(&entries, &Config::default());
    assert_eq!(
        lines,
        strings(&[
            "df894a77e4c89e6ae4b340b8078a009f60316b6d:",
            "    a/x.txt",
            "    b/x.txt",
            "",
            "2 empty files:",
            "    a/nothing",
            "    b/nothing",
        ])
    );
}

#[test]
fn small_files_are_not_reported() {
    let entries = vec![entry("x.txt", "a/x.txt", 14), entry("x.txt", "b/x.txt", 14)];
    let config = Config { format: OutputFormat::Csv, min_size: 15, ..Config::default() };
    assert!(hash_report(&entries, &config).is_empty());
    let config = Config { format: OutputFormat::Csv, min_size: 14, ..Config::default() };
    assert_eq!(hash_report(&entries, &config).len(), 1);
}

fn digest_membership(entries: &[FileEntry], config: &Config) -> Vec<(String, Vec<String>)> {
    let scan = scan_entries(&entries.to_vec(), config.min_size, config.key);
    let mut pass = second_pass(&scan, config).unwrap();
    while let Some(path) = pass.next_path() {
        assert!(pass.supply(content_of(&path)).is_ok());
    }
    let mut groups: Vec<(String, Vec<String>)> = pass
        .finish()
        .unwrap()
        .into_iter()
        .map(|g| {
            let mut paths = g.paths;
            paths.sort();
            (format!("{:?}", g.key), paths)
        })
        .collect();
    groups.sort();
    groups
}

#[test]
fn order_of_the_walk_does_not_change_the_digest_groups() {
    let forward = vec![
        entry("x.txt", "a/x.txt", 14),
        entry("y.txt", "c/y.txt", 14),
        entry("copy.bin", "d/copy.bin", 14),
        entry("x.txt", "b/x.txt", 14),
    ];
    let mut backward = forward.clone();
    backward.reverse();
    let mut rotated = forward.clone();
    rotated.rotate_left(1);
    for only_shared in [false, true] {
        let config = Config { hash_only_dup_names: only_shared, ..Config::default() };
        let one = digest_membership(&forward, &config);
        assert_eq!(one, digest_membership(&forward, &config));
        assert_eq!(one, digest_membership(&backward, &config));
        assert_eq!(one, digest_membership(&rotated, &config));
    }
    let all = digest_membership(&forward, &Config::default());
    assert_eq!(all.len(), 2);
    assert_eq!(all.iter().map(|g| g.1.len()).sum::<usize>(), 4);
}
