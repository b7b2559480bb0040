use sizetree::order::listing_order;
use sizetree::render::{report, walk_dir, Row};
use sizetree::tree::{compute_size, Entry};

fn file(name: &str, len: u64) -> Entry {
    Entry::file(String::from(name), len)
}

fn dir(name: &str, children: Vec<Entry>) -> Entry {
    Entry::dir(String::from(name), children)
}

fn sample() -> Entry {
    dir("t", vec![file("a.txt", 10), dir("sub", vec![file("b.txt", 20)])])
}

fn names(rows: &[Row]) -> Vec<String> {
    rows.iter().map(|r| r.name.clone()).collect()
}

#[test]
fn aggregate_files_only() {
    let d = dir("d", vec![file("a", 3), file("b", 5), file("c", 11)]);
    assert_eq!(compute_size(&d), 19);
}

#[test]
fn aggregate_empty_directory() {
    assert_eq!(compute_size(&dir("d", vec![])), 0);
}

#[test]
fn aggregate_nested_and_file() {
    assert_eq!(compute_size(&sample()), 30);
    assert_eq!(compute_size(&file("x", 42)), 42);
    let deep = dir("r", vec![dir("a", vec![dir("b", vec![file("c", 7)])]), file("d", 1)]);
    assert_eq!(compute_size(&deep), 8);
}

#[test]
fn aggregate_saturates() {
    let d = dir("d", vec![file("a", u64::MAX), file("b", 1)]);
    assert_eq!(compute_size(&d), u64::MAX);
}

#[test]
fn scenario_sorted_by_size() {
    let lines = report("/tmp/t", &sample(), None, 0, true);
    assert_eq!(
        lines,
        vec![
            "/tmp/t (30 B)",
            "├── 📂 sub (20 B)",
            "│   └── 📄 b.txt (20 B)",
            "└── 📄 a.txt (10 B)",
        ]
    );
}

#[test]
fn scenario_sorted_by_name() {
    let lines = report("/tmp/t", &sample(), None, 0, false);
    assert_eq!(
        lines,
        vec![
            "/tmp/t (30 B)",
            "├── 📄 a.txt (10 B)",
            "└── 📂 sub (20 B)",
            "    └── 📄 b.txt (20 B)",
        ]
    );
}

#[test]
fn root_below_minimum() {
    let lines = report("/tmp/t", &sample(), None, 31, true);
    assert_eq!(lines, vec!["/tmp/t (30 B)", "No entries meet the minimum size criteria."]);
}

#[test]
fn filtering_hides_small_entries() {
    let rows = walk_dir(&sample(), "", None, 15, true, 0);
    assert_eq!(names(&rows), vec!["sub", "b.txt"]);
    assert!(rows.iter().all(|r| r.size >= 15));
    let d = dir("d", vec![dir("big", vec![file("x", 100), file("y", 1)]), file("z", 2)]);
    let rows = walk_dir(&d, "", None, 50, true, 0);
    assert_eq!(names(&rows), vec!["big", "x"]);
}

#[test]
fn depth_zero_lists_only_root_entries() {
    let rows = walk_dir(&sample(), "", Some(0), 0, true, 0);
    assert_eq!(names(&rows), vec!["sub", "a.txt"]);
    assert!(rows.iter().all(|r| r.prefix.is_empty()));
    let lines = report("/tmp/t", &sample(), Some(0), 0, false);
    assert_eq!(lines, vec!["/tmp/t (30 B)", "├── 📄 a.txt (10 B)", "└── 📂 sub (20 B)"]);
}

#[test]
fn depth_past_limit_lists_nothing() {
    assert!(walk_dir(&sample(), "", Some(1), 0, true, 2).is_empty());
    let rows = walk_dir(&sample(), "", Some(1), 0, true, 0);
    assert_eq!(names(&rows), vec!["sub", "b.txt", "a.txt"]);
}

#[test]
fn file_has_no_listing() {
    assert!(walk_dir(&file("f", 3), "", None, 0, true, 0).is_empty());
}

#[test]
fn sort_by_size_descending_stable() {
    let d = dir("d", vec![file("a", 5), file("b", 9), file("c", 5), file("e", 1), file("f", 9)]);
    assert_eq!(listing_order(&d.children, 0, true), vec![1, 4, 0, 2, 3]);
    assert_eq!(listing_order(&d.children, 5, true), vec![1, 4, 0, 2]);
}

#[test]
fn sort_by_name_ordinal() {
    let d = dir("d", vec![file("b", 1), file("B", 1), file("a", 1), file("ab", 1), file("é", 1)]);
    assert_eq!(listing_order(&d.children, 0, false), vec![1, 2, 3, 0, 4]);
}

#[test]
fn row_text_shapes() {
    let row = Row {
        prefix: String::from("│   "),
        last: false,
        is_dir: false,
        name: String::from("notes.txt"),
        size: 1536,
    };
    assert_eq!(row.text(), "│   ├── 📄 notes.txt (1.50 KB)");
    let row = Row { prefix: String::new(), last: true, is_dir: true, name: String::from("d"), size: 0 };
    assert_eq!(row.text(), "└── 📂 d (0 B)");
}

#[test]
fn prefixes_follow_last_siblings() {
    let d = dir(
        "r",
        vec![dir("x", vec![dir("y", vec![file("z", 1)]), file("w", 5)]), file("v", 1)],
    );
    let lines = report("r", &d, None, 0, true);
    assert_eq!(
        lines,
        vec![
            "r (7 B)",
            "├── 📂 x (6 B)",
            "│   ├── 📄 w (5 B)",
            "│   └── 📂 y (1 B)",
            "│       └── 📄 z (1 B)",
            "└── 📄 v (1 B)",
        ]
    );
}
