use dirsize::crawler::{Crawler, DirTree, FsEntry};
use dirsize::render::TreeRenderer;
use dirsize::size::{format_size, from_unit_value, to_unit_value, SizeUnit};

fn file(path: &str, size: u64) -> FsEntry {
    FsEntry { is_dir: false, path: path.to_string(), size, children: vec![] }
}

fn dir(path: &str, children: Vec<FsEntry>) -> FsEntry {
    FsEntry { is_dir: true, path: path.to_string(), size: 0, children }
}

fn indent_of(line: &str) -> usize {
    line.chars().take_while(|c| *c == '\t').count()
}

#[test]
fn aggregates_directory_sizes_bottom_up() {
    let snapshot = vec![dir(
        "root/a",
        vec![file("root/a/x", 10), dir("root/a/b", vec![file("root/a/b/y", 20), file("root/a/b/z", 30)])],
    )];
    let forest = Crawler::new(0).walk(&snapshot);
    assert_eq!(forest.len(), 1);
    assert_eq!(forest[0].size, 60);
    assert_eq!(forest[0].children.len(), 2);
    assert_eq!(forest[0].children[0].size, 10);
    assert_eq!(forest[0].children[1].size, 50);
}

#[test]
fn directory_size_ignores_threshold() {
    let snapshot = vec![dir("d", vec![file("d/x", 10), file("d/y", 20)])];
    let low = Crawler::new(0).walk(&snapshot);
    let high = Crawler::new(15).walk(&snapshot);
    assert_eq!(low[0].size, 30);
    assert_eq!(high[0].size, 30);
}

#[test]
fn filter_keeps_size_from_unfiltered_children() {
    // One file below the threshold and one above: the directory reports the
    // sum of both, but keeps only the one above.
    let snapshot = vec![dir("d", vec![file("d/small", 100), file("d/large", 5000)])];
    let forest = Crawler::new(1000).walk(&snapshot);
    assert_eq!(forest.len(), 1);
    assert_eq!(forest[0].size, 5100);
    assert_eq!(forest[0].children.len(), 1);
    assert_eq!(forest[0].children[0].path, "d/large");
    assert_eq!(forest[0].children[0].size, 5000);
}

#[test]
fn threshold_boundary_is_inclusive() {
    let snapshot = vec![file("exact", 1000), file("below", 999)];
    let forest = Crawler::new(1000).walk(&snapshot);
    assert_eq!(forest.len(), 1);
    assert_eq!(forest[0].path, "exact");
}

#[test]
fn aggregation_is_repeatable() {
    let snapshot = vec![
        dir("d", vec![file("d/x", 10), dir("d/e", vec![file("d/e/y", 2000)])]),
        file("f", 1500),
    ];
    let crawler = Crawler::new(100);
    let first = crawler.walk(&snapshot);
    let second = crawler.walk(&snapshot);
    assert_eq!(first, second);
}

#[test]
fn missing_sibling_leaves_others_untouched() {
    // The same forest with and without one sibling (say it could not be
    // read): the remaining siblings aggregate identically, and the parent
    // total merely lacks the missing subtree's bytes.
    let full = vec![dir(
        "d",
        vec![
            file("d/a", 700),
            dir("d/broken", vec![file("d/broken/y", 50)]),
            dir("d/b", vec![file("d/b/x", 900)]),
        ],
    )];
    let partial = vec![dir(
        "d",
        vec![file("d/a", 700), dir("d/b", vec![file("d/b/x", 900)])],
    )];
    let crawler = Crawler::new(0);
    let with_all = crawler.walk(&full);
    let with_skip = crawler.walk(&partial);
    assert_eq!(with_all[0].size, 1650);
    assert_eq!(with_skip[0].size, 1600);
    assert_eq!(with_all[0].children[0], with_skip[0].children[0]);
    assert_eq!(with_all[0].children[2], with_skip[0].children[1]);
}

#[test]
fn walk_of_empty_snapshot_is_empty() {
    let forest = Crawler::new(5).walk(&vec![]);
    assert!(forest.is_empty());
}

#[test]
fn unit_multiples_round_trip() {
    let (whole, rem) = to_unit_value(5_000_000, SizeUnit::Megabyte);
    assert_eq!((whole, rem), (5, 0));
    assert_eq!(from_unit_value(whole, SizeUnit::Megabyte), Some(5_000_000));

    let (w2, r2) = to_unit_value(1_234, SizeUnit::Kilobyte);
    assert_eq!((w2, r2), (1, 234));
}

#[test]
fn from_unit_value_reports_overflow() {
    assert_eq!(from_unit_value(u64::MAX, SizeUnit::Kilobyte), None);
    assert_eq!(from_unit_value(3, SizeUnit::Gigabyte), Some(3_000_000_000));
}

#[test]
fn formats_exact_decimal_values() {
    assert_eq!(format_size(2_000_000, SizeUnit::Megabyte), "2M");
    assert_eq!(format_size(3_000_500, SizeUnit::Megabyte), "3.0005M");
    assert_eq!(format_size(500, SizeUnit::Byte), "500b");
    assert_eq!(format_size(1_500, SizeUnit::Kilobyte), "1.5K");
    assert_eq!(format_size(0, SizeUnit::Kilobyte), "0K");
    assert_eq!(format_size(1_000_000_000, SizeUnit::Gigabyte), "1G");
    assert_eq!(format_size(1_234, SizeUnit::Kilobyte), "1.234K");
    assert_eq!(format_size(123, SizeUnit::Gigabyte), "0.000000123G");
}

#[test]
fn renders_name_and_size_with_indentation() {
    let node = DirTree { is_dir: false, path: "a/b/c.txt".to_string(), size: 2_000, children: vec![] };
    let renderer = TreeRenderer::new(SizeUnit::Kilobyte);
    let line = renderer.render_record(2, &node);
    assert_eq!(line, "\t\tc.txt 2K");
}

#[test]
fn rendering_indents_one_level_per_depth() {
    let snapshot = vec![dir(
        "root",
        vec![dir("root/childA", vec![file("root/childA/grandchild", 10)])],
    )];
    let forest = Crawler::new(0).walk(&snapshot);
    let lines = TreeRenderer::new(SizeUnit::Byte).render_tree(&forest);
    assert_eq!(lines.len(), 3);
    assert!(lines[0].starts_with("root"));
    assert_eq!(indent_of(&lines[0]), 0);
    assert_eq!(indent_of(&lines[1]), 1);
    assert_eq!(indent_of(&lines[2]), 2);
    assert_eq!(indent_of(&lines[2]), indent_of(&lines[0]) + 2);
    assert_eq!(indent_of(&lines[2]), indent_of(&lines[1]) + 1);
}

#[test]
fn end_to_end_example() {
    // root/big.txt (2,000,000) and root/sub/{small.txt (500), bigger.txt
    // (3,000,000)}, threshold one megabyte, displayed in megabytes.
    let snapshot = vec![
        file("root/big.txt", 2_000_000),
        dir("root/sub", vec![file("root/sub/small.txt", 500), file("root/sub/bigger.txt", 3_000_000)]),
    ];
    let forest = Crawler::new(1_000_000).walk(&snapshot);

    assert_eq!(forest.len(), 2);
    assert_eq!(forest[0].path, "root/big.txt");
    assert_eq!(forest[0].size, 2_000_000);
    assert_eq!(forest[1].path, "root/sub");
    assert_eq!(forest[1].size, 3_000_500);
    assert_eq!(forest[1].children.len(), 1);
    assert_eq!(forest[1].children[0].path, "root/sub/bigger.txt");

    let total: u64 = forest.iter().map(|t| t.size).sum();
    assert_eq!(total, 5_000_500);

    let lines = TreeRenderer::new(SizeUnit::Megabyte).render_tree(&forest);
    assert_eq!(lines, vec!["big.txt 2M", "sub 3.0005M", "\tbigger.txt 3M"]);
    assert!(lines.iter().all(|l| !l.contains("small.txt")));
}
