use reduce_target::stats::{render_stats, sort_stats, sum_target, sum_targets, Record};
use reduce_target::tree::FsNode;

fn dir(name: &str, children: Vec<FsNode>) -> FsNode {
    FsNode::Dir { name: name.to_string(), children }
}

fn file(name: &str, size: u64) -> FsNode {
    FsNode::File { name: name.to_string(), size }
}

#[test]
fn aggregate_one_file_one_empty_subdir() {
    // The scanned directory itself is not counted; its subdirectory is.
    let root = dir("target", vec![file("data.bin", 1500), dir("empty", vec![])]);
    let rec = sum_target(&root);
    assert_eq!(rec, Record { size: 1500, files: 1, directories: 1 });
}

#[test]
fn aggregate_nested() {
    let root = dir(
        "target",
        vec![
            dir("debug", vec![file("a", 10), dir("deps", vec![file("b", 20), file("c", 30)])]),
            file("top", 1),
        ],
    );
    let rec = sum_target(&root);
    assert_eq!(rec, Record { size: 61, files: 4, directories: 2 });
}

#[test]
fn record_plus_commutes() {
    let a = Record { size: 1, files: 2, directories: 3 };
    let b = Record { size: 10, files: 20, directories: 30 };
    assert_eq!(a.plus(b), b.plus(a));
    assert_eq!(a.plus(b), Record { size: 11, files: 22, directories: 33 });
    let c = Record { size: 100, files: 0, directories: 7 };
    assert_eq!(a.plus(b).plus(c), a.plus(b.plus(c)));
}

#[test]
fn record_plus_saturates() {
    let a = Record { size: u64::MAX, files: 1, directories: 0 };
    let b = Record { size: 1, files: 1, directories: 0 };
    assert_eq!(a.plus(b), Record { size: u64::MAX, files: 2, directories: 0 });
}

#[test]
fn sum_targets_deduplicates() {
    let root = dir("work", vec![dir("target", vec![file("a", 5)])]);
    let t = vec!["target".to_string()];
    let sums = sum_targets(&root, &vec![t.clone(), t.clone()]);
    assert_eq!(sums.len(), 1);
    assert_eq!(sums[0].0, t);
    assert_eq!(sums[0].1, Record { size: 5, files: 1, directories: 0 });
}

#[test]
fn sum_targets_missing_path_is_zero() {
    let root = dir("work", vec![]);
    let sums = sum_targets(&root, &vec![vec!["absent".to_string()]]);
    assert_eq!(sums.len(), 1);
    assert_eq!(sums[0].1, Record::default());
}

#[test]
fn sort_stats_descending_by_size() {
    let small = (vec!["s".to_string()], Record { size: 1, files: 9, directories: 9 });
    let big = (vec!["b".to_string()], Record { size: 100, files: 0, directories: 0 });
    let mid = (vec!["m".to_string()], Record { size: 50, files: 5, directories: 5 });
    let sorted = sort_stats(vec![small.clone(), big.clone(), mid.clone()]);
    assert_eq!(sorted, vec![big, mid, small]);
}

#[test]
fn render_stats_empty() {
    let out = render_stats(&Vec::new(), 0);
    let expected = format!(
        "{}\nin 0 top-level directories:\n size:     0.00 B\nfiles:          0\n dirs:          0\n",
        "-".repeat(40)
    );
    assert_eq!(out, expected);
}

#[test]
fn render_stats_one_entry() {
    let entries = vec![(
        vec!["proj".to_string(), "target".to_string()],
        Record { size: 1536, files: 1000, directories: 2 },
    )];
    let out = render_stats(&entries, 1);
    let expected = format!(
        "proj/target\n size:     1.50 K\nfiles:      1,000\n dirs:          2\n{}\nin 1 top-level directories:\n size:     1.50 K\nfiles:      1,000\n dirs:          2\n",
        "-".repeat(40)
    );
    assert_eq!(out, expected);
}
