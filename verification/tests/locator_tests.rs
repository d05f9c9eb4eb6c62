use reduce_target::find_targets;
use reduce_target::tree::{is_dir_at, FsNode};
use reduce_target::{Input, Profile, TargetKind};

fn dir(name: &str, children: Vec<FsNode>) -> FsNode {
    FsNode::Dir { name: name.to_string(), children }
}

fn file(name: &str, size: u64) -> FsNode {
    FsNode::File { name: name.to_string(), size }
}

#[test]
fn input_resolve() {
    // The search root is itself named `target`, so it is the sole result.
    let root = dir(
        "target",
        vec![
            dir(
                "debug",
                vec![dir("incremental", vec![]), dir("examples", vec![file("a.bin", 8)])],
            ),
            dir("doc", vec![file("index.html", 100)]),
        ],
    );
    let targets = find_targets(&root);
    assert_eq!(targets, vec![Vec::<String>::new()]);

    let mut input = Input::new();
    input.add(Profile::Debug, TargetKind::Incremental);
    input.add(Profile::Debug, TargetKind::Examples);
    input.add(Profile::Doc, TargetKind::All);

    let resolved = input.filter(&root, &targets);
    assert!(!resolved.is_empty());
    for p in resolved {
        assert!(is_dir_at(&root, &p));
    }
}

#[test]
fn finds_targets_recursively() {
    let root = dir(
        "work",
        vec![
            dir("proj1", vec![dir("target", vec![file("junk", 1)]), file("main.rs", 5)]),
            dir("proj2", vec![dir("nested", vec![dir("target", vec![])])]),
            file("readme.md", 3),
        ],
    );
    let targets = find_targets(&root);
    assert_eq!(
        targets,
        vec![
            vec!["proj1".to_string(), "target".to_string()],
            vec!["proj2".to_string(), "nested".to_string(), "target".to_string()],
        ]
    );
}

#[test]
fn does_not_descend_into_targets() {
    // A target nested inside another target is never reported: the search
    // stops at the outer one.
    let root = dir(
        "work",
        vec![dir(
            "proj",
            vec![dir(
                "target",
                vec![dir("debug", vec![dir("target", vec![])])],
            )],
        )],
    );
    let targets = find_targets(&root);
    assert_eq!(targets, vec![vec!["proj".to_string(), "target".to_string()]]);
}

#[test]
fn no_targets_found() {
    let root = dir("work", vec![dir("src", vec![file("lib.rs", 10)])]);
    assert!(find_targets(&root).is_empty());
}

#[test]
fn files_named_target_ignored() {
    let root = dir("work", vec![file("target", 7)]);
    assert!(find_targets(&root).is_empty());
}
