use reduce_target::stats::{sum_targets, Record};
use reduce_target::tree::FsNode;
use reduce_target::{find_targets, Input, Profile, TargetKind};

fn dir(name: &str, children: Vec<FsNode>) -> FsNode {
    FsNode::Dir { name: name.to_string(), children }
}

fn file(name: &str, size: u64) -> FsNode {
    FsNode::File { name: name.to_string(), size }
}

fn sample_tree() -> FsNode {
    dir(
        "work",
        vec![dir(
            "proj",
            vec![dir(
                "target",
                vec![
                    dir("debug", vec![dir("deps", vec![file("a", 10), file("b", 20)])]),
                    dir("doc", vec![file("index.html", 30)]),
                ],
            )],
        )],
    )
}

#[test]
fn end_to_end_debug_deps() {
    let root = sample_tree();
    let targets = find_targets(&root);
    assert_eq!(targets, vec![vec!["proj".to_string(), "target".to_string()]]);

    let mut input = Input::new();
    input.add(Profile::Debug, TargetKind::Deps);
    let resolved = input.filter(&root, &targets);
    assert_eq!(
        resolved,
        vec![vec![
            "proj".to_string(),
            "target".to_string(),
            "debug".to_string(),
            "deps".to_string(),
        ]]
    );

    // Only the files under debug/deps are counted, not those under doc.
    let sums = sum_targets(&root, &resolved);
    assert_eq!(sums.len(), 1);
    assert_eq!(sums[0].1, Record { size: 30, files: 2, directories: 0 });
}

#[test]
fn adding_same_pair_twice_resolves_once() {
    let root = sample_tree();
    let targets = find_targets(&root);

    let mut once = Input::new();
    once.add(Profile::Debug, TargetKind::Deps);

    let mut twice = Input::new();
    twice.add(Profile::Debug, TargetKind::Deps);
    twice.add(Profile::Debug, TargetKind::Deps);

    assert_eq!(once.filter(&root, &targets), twice.filter(&root, &targets));
}

#[test]
fn missing_candidates_are_dropped() {
    let root = sample_tree();
    let targets = find_targets(&root);
    let mut input = Input::new();
    input.add(Profile::Release, TargetKind::Build);
    assert!(input.filter(&root, &targets).is_empty());
}

#[test]
fn all_selects_target_root_itself() {
    let root = sample_tree();
    let targets = find_targets(&root);
    let mut input = Input::new();
    input.add(Profile::All, TargetKind::All);
    let resolved = input.filter(&root, &targets);
    assert_eq!(resolved, vec![vec!["proj".to_string(), "target".to_string()]]);
}

#[test]
fn overlapping_selections_deduplicate() {
    let root = sample_tree();
    let targets = find_targets(&root);
    let mut input = Input::new();
    input.add(Profile::Debug, TargetKind::Deps);
    input.add(Profile::Debug, TargetKind::All);
    input.add(Profile::All, TargetKind::All);
    let resolved = input.filter(&root, &targets);
    assert_eq!(
        resolved,
        vec![
            vec![
                "proj".to_string(),
                "target".to_string(),
                "debug".to_string(),
                "deps".to_string(),
            ],
            vec!["proj".to_string(), "target".to_string(), "debug".to_string()],
            vec!["proj".to_string(), "target".to_string()],
        ]
    );
}

#[test]
fn render_lists_full_catalog_when_empty() {
    let input = Input::new();
    let expected = "debug\n- build\n- deps\n- examples\n- incremental\n\
                    release\n- build\n- deps\n- examples\n- incremental\n\
                    doc\n- build\n- deps\n- examples\n- incremental\n";
    assert_eq!(input.render(), expected);
}

#[test]
fn render_lists_used_names() {
    let mut input = Input::new();
    input.add(Profile::Debug, TargetKind::Deps);
    assert_eq!(input.render(), "debug\n- deps\n");

    let mut all_kinds = Input::new();
    all_kinds.add(Profile::Doc, TargetKind::All);
    assert_eq!(
        all_kinds.render(),
        "doc\n- build\n- deps\n- examples\n- incremental\n"
    );
}

#[test]
fn profile_names_round_trip() {
    assert_eq!(Profile::from_str("dbg"), Ok(Profile::Debug));
    assert_eq!(Profile::from_str("debug"), Ok(Profile::Debug));
    assert_eq!(Profile::from_str("rel"), Ok(Profile::Release));
    assert_eq!(Profile::from_str("release"), Ok(Profile::Release));
    assert_eq!(Profile::from_str("d"), Ok(Profile::Doc));
    assert_eq!(Profile::from_str("doc"), Ok(Profile::Doc));
    assert_eq!(Profile::from_str("docs"), Ok(Profile::Doc));
    assert_eq!(Profile::from_str("all"), Ok(Profile::All));
    assert_eq!(
        Profile::from_str("bogus"),
        Err("unknown profile: 'bogus'".to_string())
    );
    assert_eq!(Profile::default(), Profile::All);
    assert_eq!(Profile::Debug.as_str(), Some("debug"));
    assert_eq!(Profile::All.as_str(), None);
}

#[test]
fn kind_names_round_trip() {
    assert_eq!(TargetKind::from_str("b"), Ok(TargetKind::Build));
    assert_eq!(TargetKind::from_str("build"), Ok(TargetKind::Build));
    assert_eq!(TargetKind::from_str("d"), Ok(TargetKind::Deps));
    assert_eq!(TargetKind::from_str("deps"), Ok(TargetKind::Deps));
    assert_eq!(TargetKind::from_str("ex"), Ok(TargetKind::Examples));
    assert_eq!(TargetKind::from_str("examples"), Ok(TargetKind::Examples));
    assert_eq!(TargetKind::from_str("inc"), Ok(TargetKind::Incremental));
    assert_eq!(TargetKind::from_str("incremental"), Ok(TargetKind::Incremental));
    assert_eq!(TargetKind::from_str("all"), Ok(TargetKind::All));
    assert_eq!(
        TargetKind::from_str("junk"),
        Err("unknown target kind: 'junk'".to_string())
    );
    assert_eq!(TargetKind::default(), TargetKind::All);
    assert_eq!(TargetKind::Deps.as_str(), Some("deps"));
    assert_eq!(TargetKind::All.as_str(), None);
}
