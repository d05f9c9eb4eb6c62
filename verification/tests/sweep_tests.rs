use reduce_target::find_targets_filtered;
use reduce_target::tree::{is_dir_at, sweep, FsNode};

fn dir(name: &str, children: Vec<FsNode>) -> FsNode {
    FsNode::Dir { name: name.to_string(), children }
}

fn file(name: &str, size: u64) -> FsNode {
    FsNode::File { name: name.to_string(), size }
}

fn path(comps: &[&str]) -> Vec<String> {
    comps.iter().map(|c| c.to_string()).collect()
}

#[test]
fn sweep_removes_listed_dirs_and_keeps_siblings() {
    let root = dir(
        "work",
        vec![
            dir("proj1", vec![dir("target", vec![file("junk", 9)]), dir("src", vec![])]),
            dir("proj2", vec![dir("target", vec![])]),
        ],
    );
    let after = sweep(
        root,
        &vec![path(&["proj1", "target"]), path(&["proj2", "target"])],
    );
    assert!(!is_dir_at(&after, &path(&["proj1", "target"])));
    assert!(!is_dir_at(&after, &path(&["proj2", "target"])));
    // Siblings survive untouched.
    assert!(is_dir_at(&after, &path(&["proj1", "src"])));
    assert!(is_dir_at(&after, &path(&["proj1"])));
    assert!(is_dir_at(&after, &path(&["proj2"])));
}

#[test]
fn sweep_skips_paths_already_gone() {
    let root = dir("work", vec![dir("proj", vec![dir("target", vec![])])]);
    // The same directory listed twice, and one that never existed: the first
    // occurrence deletes it, the others find nothing and are skipped.
    let after = sweep(
        root,
        &vec![
            path(&["proj", "target"]),
            path(&["proj", "target"]),
            path(&["ghostly"]),
        ],
    );
    assert!(!is_dir_at(&after, &path(&["proj", "target"])));
    assert!(is_dir_at(&after, &path(&["proj"])));
}

#[test]
fn sweep_handles_overlapping_paths() {
    let root = dir(
        "work",
        vec![dir(
            "target",
            vec![dir("debug", vec![dir("deps", vec![file("a", 4)])]), dir("doc", vec![])],
        )],
    );
    let after = sweep(
        root,
        &vec![path(&["target", "debug"]), path(&["target", "debug", "deps"])],
    );
    assert!(!is_dir_at(&after, &path(&["target", "debug"])));
    assert!(!is_dir_at(&after, &path(&["target", "debug", "deps"])));
    assert!(is_dir_at(&after, &path(&["target", "doc"])));
}

#[test]
fn filtered_locator_keeps_matching_subdirs() {
    let root = dir(
        "work",
        vec![dir(
            "proj",
            vec![dir(
                "target",
                vec![
                    dir("debug", vec![]),
                    dir("release", vec![]),
                    dir("doc", vec![]),
                    file("CACHEDIR.TAG", 1),
                ],
            )],
        )],
    );
    let names = vec!["debug".to_string(), "doc".to_string()];
    let found = find_targets_filtered(&root, &names);
    assert_eq!(
        found,
        vec![
            path(&["proj", "target", "debug"]),
            path(&["proj", "target", "doc"]),
        ]
    );
}

#[test]
fn filtered_locator_without_names_is_plain_locator() {
    let root = dir("work", vec![dir("proj", vec![dir("target", vec![])])]);
    let found = find_targets_filtered(&root, &Vec::new());
    assert_eq!(found, vec![path(&["proj", "target"])]);
}

#[test]
fn filtered_locator_skips_targets_without_matches() {
    let root = dir(
        "work",
        vec![dir("proj", vec![dir("target", vec![dir("doc", vec![])])])],
    );
    let found = find_targets_filtered(&root, &vec!["release".to_string()]);
    assert!(found.is_empty());
}
