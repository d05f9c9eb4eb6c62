//! Locates build-artifact directories named `target` in a directory tree,
//! resolves profile/kind selections beneath them, aggregates size statistics,
//! and plans their deletion. The tree itself is held as a value, so every
//! decision the tool makes is a verified function of that value.

use vstd::prelude::*;

mod input;
mod profile;
pub mod stats;
mod target_kind;
pub mod tree;
pub mod util;

pub use input::Input;
pub use profile::Profile;
pub use target_kind::TargetKind;

use tree::{clone_path, contains_name, lookup, node_at, path_view, paths_view, FsNode};
use util::str_eq;

verus! {

/// The target directories strictly inside `n`, as paths relative to `n`:
/// every directory named `target` reachable without passing through another
/// directory named `target`.
pub open spec fn targets_below(n: FsNode) -> Seq<Seq<Seq<char>>>
    decreases n, 0int,
{
    match n {
        FsNode::File { .. } => seq![],
        FsNode::Dir { children, .. } => targets_in_list(children@),
    }
}

/// The target directories found among a list of sibling entries, in order.
pub open spec fn targets_in_list(cs: Seq<FsNode>) -> Seq<Seq<Seq<char>>>
    decreases cs, 0int,
{
    if cs.len() == 0 {
        seq![]
    } else {
        targets_in_list(cs.drop_last()) + child_targets(cs.last())
    }
}

/// What one child entry contributes to the search: itself if it is a
/// directory named `target` (the search does not descend into it), and
/// otherwise whatever is found below it, each path prefixed with its name.
pub open spec fn child_targets(c: FsNode) -> Seq<Seq<Seq<char>>>
    decreases c, 1int,
{
    match c {
        FsNode::File { .. } => seq![],
        FsNode::Dir { name, .. } => if name@ == "target"@ {
            seq![seq![name@]]
        } else {
            targets_below(c).map_values(|p: Seq<Seq<char>>| seq![name@] + p)
        },
    }
}

/// All target directories to operate on under `root`, relative to `root`.
/// A root itself named `target` is the sole result, without any scan.
pub open spec fn spec_find_targets(root: FsNode) -> Seq<Seq<Seq<char>>> {
    if root.spec_name() == "target"@ {
        seq![Seq::<Seq<char>>::empty()]
    } else {
        targets_below(root)
    }
}

/// The shape every located path has: it names a directory called `target` and
/// passes through no other directory called `target` on the way.
pub open spec fn is_target_path(p: Seq<Seq<char>>) -> bool {
    &&& p.len() >= 1
    &&& p.last() == "target"@
    &&& forall|k: int| 0 <= k < p.len() - 1 ==> p[k] != "target"@
}

proof fn lemma_child_targets_shape(c: FsNode)
    ensures
        forall|t: int|
            0 <= t < child_targets(c).len() ==> is_target_path(#[trigger] child_targets(c)[t]),
    decreases c, 1int,
{
    match c {
        FsNode::File { .. } => {
        },
        FsNode::Dir { name, .. } => {
            if name@ == "target"@ {
                assert(child_targets(c)[0] == seq![name@]);
                assert(seq![name@].last() == name@);
            } else {
                lemma_targets_below_shape(c);
                let sub = targets_below(c);
                assert forall|t: int| 0 <= t < child_targets(c).len() implies is_target_path(
                    #[trigger] child_targets(c)[t],
                ) by {
                    let p = sub[t];
                    let q = child_targets(c)[t];
                    assert(q == seq![name@] + p);
                    assert(is_target_path(p));
                    assert(q.last() == p.last());
                    assert forall|k: int| 0 <= k < q.len() - 1 implies q[k] != "target"@ by {
                        if k == 0 {
                            assert(q[0] == name@);
                        } else {
                            assert(q[k] == p[k - 1]);
                        }
                    }
                }
            }
        },
    }
}

proof fn lemma_targets_in_list_shape(cs: Seq<FsNode>)
    ensures
        forall|t: int|
            0 <= t < targets_in_list(cs).len() ==> is_target_path(
                #[trigger] targets_in_list(cs)[t],
            ),
    decreases cs, 0int,
{
    if cs.len() > 0 {
        lemma_targets_in_list_shape(cs.drop_last());
        lemma_child_targets_shape(cs.last());
        let left = targets_in_list(cs.drop_last());
        let right = child_targets(cs.last());
        assert forall|t: int| 0 <= t < targets_in_list(cs).len() implies is_target_path(
            #[trigger] targets_in_list(cs)[t],
        ) by {
            if t < left.len() {
                assert(targets_in_list(cs)[t] == left[t]);
            } else {
                assert(targets_in_list(cs)[t] == right[t - left.len()]);
            }
        }
    }
}

proof fn lemma_targets_below_shape(n: FsNode)
    ensures
        forall|t: int|
            0 <= t < targets_below(n).len() ==> is_target_path(#[trigger] targets_below(n)[t]),
    decreases n, 0int,
{
    match n {
        FsNode::File { .. } => {
            assert(targets_below(n).len() == 0);
        },
        FsNode::Dir { children, .. } => {
            lemma_targets_in_list_shape(children@);
            assert(targets_below(n) == targets_in_list(children@));
            assert forall|t: int| 0 <= t < targets_below(n).len() implies is_target_path(
                #[trigger] targets_below(n)[t],
            ) by {
                assert(targets_below(n)[t] == targets_in_list(children@)[t]);
            }
        },
    }
}

/// A path that leads strictly inside the directory another path leads to.
pub open spec fn is_strict_prefix(a: Seq<Seq<char>>, b: Seq<Seq<char>>) -> bool {
    a.len() < b.len() && a == b.subrange(0, a.len() as int)
}

/// The locator never recurses into a directory it has already classified as a
/// target root: no located path leads inside the directory of another located
/// path, so no tree is counted twice.
pub proof fn lemma_find_targets_no_nesting(root: FsNode)
    ensures
        forall|i: int, j: int|
            #![trigger spec_find_targets(root)[i], spec_find_targets(root)[j]]
            0 <= i < spec_find_targets(root).len() && 0 <= j < spec_find_targets(root).len()
                ==> !is_strict_prefix(spec_find_targets(root)[i], spec_find_targets(root)[j]),
{
    let r = spec_find_targets(root);
    if root.spec_name() == "target"@ {
        assert(forall|i: int| 0 <= i < r.len() ==> r[i] == Seq::<Seq<char>>::empty());
    } else {
        lemma_targets_below_shape(root);
        assert forall|i: int, j: int|
            0 <= i < r.len() && 0 <= j < r.len() implies !is_strict_prefix(r[i], r[j]) by {
            let a = r[i];
            let b = r[j];
            assert(is_target_path(a));
            assert(is_target_path(b));
            if is_strict_prefix(a, b) {
                assert(a[a.len() - 1] == b.subrange(0, a.len() as int)[a.len() - 1]);
                assert(b[a.len() - 1] == "target"@);
                assert(false);
            }
        }
    }
}

fn child_targets_exec(c: &FsNode) -> (r: Vec<Vec<String>>)
    ensures
        paths_view(r@) == child_targets(*c),
    decreases *c, 1int,
{
    match c {
        FsNode::File { .. } => {
            let r: Vec<Vec<String>> = Vec::new();
            proof {
                assert(paths_view(r@) =~~= child_targets(*c));
            }
            r
        },
        FsNode::Dir { name, .. } => {
            if str_eq(name.as_str(), "target") {
                let mut p: Vec<String> = Vec::new();
                p.push(name.clone());
                let mut r: Vec<Vec<String>> = Vec::new();
                r.push(p);
                proof {
                    assert(path_view(r@[0]) =~~= seq![name@]);
                    assert(paths_view(r@) =~~= child_targets(*c));
                }
                r
            } else {
                let sub = targets_below_exec(c);
                let ghost subs = targets_below(*c);
                let ghost prefixed = child_targets(*c);
                proof {
                    assert(prefixed == subs.map_values(|p: Seq<Seq<char>>| seq![name@] + p));
                }
                let mut r: Vec<Vec<String>> = Vec::new();
                let mut k: usize = 0;
                while k < sub.len()
                    invariant
                        0 <= k <= sub.len(),
                        paths_view(sub@) == subs,
                        sub@.len() == subs.len(),
                        prefixed == subs.map_values(|p: Seq<Seq<char>>| seq![name@] + p),
                        r@.len() == k,
                        forall|t: int| 0 <= t < k ==> path_view(#[trigger] r@[t]) == prefixed[t],
                    decreases sub.len() - k,
                {
                    let src = &sub[k];
                    let mut q: Vec<String> = Vec::new();
                    q.push(name.clone());
                    let mut m: usize = 0;
                    while m < src.len()
                        invariant
                            0 <= m <= src.len(),
                            q@.len() == m + 1,
                            q@[0]@ == name@,
                            forall|t: int| 1 <= t <= m ==> #[trigger] q@[t]@ == src@[t - 1]@,
                        decreases src.len() - m,
                    {
                        q.push(src[m].clone());
                        m = m + 1;
                    }
                    proof {
                        assert(path_view(q) =~~= seq![name@] + path_view(sub@[k as int]));
                        assert(path_view(sub@[k as int]) == subs[k as int]);
                    }
                    r.push(q);
                    k = k + 1;
                }
                proof {
                    assert(paths_view(r@) =~~= prefixed);
                }
                r
            }
        },
    }
}

fn targets_in_list_exec(cs: &Vec<FsNode>) -> (r: Vec<Vec<String>>)
    ensures
        paths_view(r@) == targets_in_list(cs@),
    decreases cs@, 0int,
{
    let mut r: Vec<Vec<String>> = Vec::new();
    let mut i: usize = 0;
    proof {
        assert(cs@.subrange(0, 0) =~~= Seq::<FsNode>::empty());
        assert(paths_view(r@) =~~= targets_in_list(cs@.subrange(0, 0)));
    }
    while i < cs.len()
        invariant
            0 <= i <= cs.len(),
            paths_view(r@) == targets_in_list(cs@.subrange(0, i as int)),
        decreases cs.len() - i,
    {
        let mut part = child_targets_exec(&cs[i]);
        proof {
            assert(cs@.subrange(0, i as int + 1).drop_last() =~~= cs@.subrange(0, i as int));
            assert(cs@.subrange(0, i as int + 1).last() == cs@[i as int]);
        }
        let ghost old_r = r@;
        let ghost old_part = part@;
        r.append(&mut part);
        proof {
            assert(paths_view(r@) =~~= paths_view(old_r) + paths_view(old_part));
        }
        i = i + 1;
    }
    proof {
        assert(cs@.subrange(0, cs@.len() as int) =~~= cs@);
    }
    r
}

fn targets_below_exec(n: &FsNode) -> (r: Vec<Vec<String>>)
    ensures
        paths_view(r@) == targets_below(*n),
    decreases *n, 0int,
{
    match n {
        FsNode::File { .. } => {
            let r: Vec<Vec<String>> = Vec::new();
            proof {
                assert(paths_view(r@) =~~= targets_below(*n));
            }
            r
        },
        FsNode::Dir { children, .. } => targets_in_list_exec(children),
    }
}

/// Find every directory to treat as a target root under `root`: directories
/// named exactly `target`, searched depth-first, never descending into one
/// already found. The returned paths are relative to `root`.
pub fn find_targets(root: &FsNode) -> (r: Vec<Vec<String>>)
    requires
        *root is Dir,
    ensures
        paths_view(r@) == spec_find_targets(*root),
{
    if str_eq(root.name().as_str(), "target") {
        let p: Vec<String> = Vec::new();
        let mut r: Vec<Vec<String>> = Vec::new();
        r.push(p);
        proof {
            assert(path_view(r@[0]) =~~= Seq::<Seq<char>>::empty());
            assert(paths_view(r@) =~~= spec_find_targets(*root));
        }
        r
    } else {
        targets_below_exec(root)
    }
}

/// The names of the directory entries of a child list whose name is among the
/// requested ones, in directory order.
pub open spec fn matching_children(cs: Seq<FsNode>, fs: Seq<Seq<char>>) -> Seq<Seq<char>>
    decreases cs.len(),
{
    if cs.len() == 0 {
        seq![]
    } else {
        matching_children(cs.drop_last(), fs) + if cs.last() is Dir && fs.contains(
            cs.last().spec_name(),
        ) {
            seq![cs.last().spec_name()]
        } else {
            seq![]
        }
    }
}

/// What one located target directory becomes under a kind filter: with no
/// filter it stands itself; with a filter, one level of its subdirectories is
/// read and only those named like a requested kind are kept.
pub open spec fn expand_one(root: FsNode, p: Seq<Seq<char>>, fs: Seq<Seq<char>>) -> Seq<
    Seq<Seq<char>>,
> {
    if fs.len() == 0 {
        seq![p]
    } else {
        match lookup(root, p) {
            Some(FsNode::Dir { children, .. }) => matching_children(children@, fs).map_values(
                |n: Seq<char>| p.push(n),
            ),
            _ => seq![],
        }
    }
}

/// Every located target directory, expanded under the kind filter, in order.
pub open spec fn expand_kinds(
    root: FsNode,
    ts: Seq<Seq<Seq<char>>>,
    fs: Seq<Seq<char>>,
) -> Seq<Seq<Seq<char>>>
    decreases ts.len(),
{
    if ts.len() == 0 {
        seq![]
    } else {
        expand_kinds(root, ts.drop_last(), fs) + expand_one(root, ts.last(), fs)
    }
}

/// What the kind-aware locator returns.
pub open spec fn spec_find_targets_filtered(root: FsNode, fs: Seq<Seq<char>>) -> Seq<
    Seq<Seq<char>>,
> {
    expand_kinds(root, spec_find_targets(root), fs)
}

proof fn lemma_expand_empty(root: FsNode, ts: Seq<Seq<Seq<char>>>)
    ensures
        expand_kinds(root, ts, seq![]) == ts,
    decreases ts.len(),
{
    if ts.len() == 0 {
        assert(expand_kinds(root, ts, seq![]) =~~= ts);
    } else {
        lemma_expand_empty(root, ts.drop_last());
        assert(expand_kinds(root, ts, seq![]) =~~= ts);
    }
}

/// The kind-aware locator: find every target directory, and where explicit
/// kind names are given, return the matching subdirectories one level inside
/// each found target instead of the target itself.
pub fn find_targets_filtered(root: &FsNode, names: &Vec<String>) -> (r: Vec<Vec<String>>)
    requires
        *root is Dir,
    ensures
        paths_view(r@) == spec_find_targets_filtered(*root, path_view(*names)),
{
    let ghost fs = path_view(*names);
    let targets = find_targets(root);
    let ghost tsv = spec_find_targets(*root);
    if names.len() == 0 {
        proof {
            assert(fs =~~= Seq::<Seq<char>>::empty());
            lemma_expand_empty(*root, tsv);
        }
        return targets;
    }
    let mut out: Vec<Vec<String>> = Vec::new();
    let mut i: usize = 0;
    proof {
        assert(tsv.subrange(0, 0) =~~= Seq::<Seq<Seq<char>>>::empty());
        assert(paths_view(out@) =~~= expand_kinds(*root, tsv.subrange(0, 0), fs));
    }
    while i < targets.len()
        invariant
            0 <= i <= targets.len(),
            fs == path_view(*names),
            fs.len() > 0,
            paths_view(targets@) == tsv,
            targets@.len() == tsv.len(),
            paths_view(out@) == expand_kinds(*root, tsv.subrange(0, i as int), fs),
        decreases targets.len() - i,
    {
        let t = &targets[i];
        let ghost pv = tsv[i as int];
        proof {
            assert(pv == path_view(targets@[i as int]));
            assert(tsv.subrange(0, i as int + 1).drop_last() =~~= tsv.subrange(0, i as int));
            assert(tsv.subrange(0, i as int + 1).last() == pv);
        }
        let ghost before = paths_view(out@);
        match node_at(root, t) {
            Some(node) => match node {
                FsNode::Dir { children, .. } => {
                    let ghost cv = children@;
                    let ghost part = expand_one(*root, pv, fs);
                    proof {
                        assert(part == matching_children(cv, fs).map_values(
                            |n: Seq<char>| pv.push(n),
                        ));
                        assert(cv.subrange(0, 0) =~~= Seq::<FsNode>::empty());
                        assert(before + matching_children(cv.subrange(0, 0), fs).map_values(
                            |n: Seq<char>| pv.push(n),
                        ) =~~= before);
                    }
                    let mut j: usize = 0;
                    while j < children.len()
                        invariant
                            0 <= j <= children.len(),
                            fs == path_view(*names),
                            cv == children@,
                            cv.len() == children.len(),
                            pv == path_view(*t),
                            paths_view(out@) == before + matching_children(
                                cv.subrange(0, j as int),
                                fs,
                            ).map_values(|n: Seq<char>| pv.push(n)),
                        decreases children.len() - j,
                    {
                        let c = &children[j];
                        proof {
                            assert(cv.subrange(0, j as int + 1).drop_last() =~~= cv.subrange(
                                0,
                                j as int,
                            ));
                            assert(cv.subrange(0, j as int + 1).last() == cv[j as int]);
                        }
                        if c.is_dir() && contains_name(names, c.name()) {
                            let mut q = clone_path(t);
                            q.push(c.name().clone());
                            let ghost mid = paths_view(out@);
                            out.push(q);
                            proof {
                                assert(path_view(q) =~~= pv.push(cv[j as int].spec_name()));
                                assert(paths_view(out@) =~~= mid.push(path_view(q)));
                                assert(paths_view(out@) =~~= before + matching_children(
                                    cv.subrange(0, j as int + 1),
                                    fs,
                                ).map_values(|n: Seq<char>| pv.push(n)));
                            }
                        } else {
                            proof {
                                assert(matching_children(cv.subrange(0, j as int + 1), fs)
                                    =~~= matching_children(cv.subrange(0, j as int), fs));
                            }
                        }
                        j = j + 1;
                    }
                    proof {
                        assert(cv.subrange(0, cv.len() as int) =~~= cv);
                        assert(paths_view(out@) =~~= expand_kinds(
                            *root,
                            tsv.subrange(0, i as int + 1),
                            fs,
                        ));
                    }
                },
                FsNode::File { .. } => {
                    proof {
                        assert(expand_one(*root, pv, fs) =~~= Seq::<Seq<Seq<char>>>::empty());
                        assert(paths_view(out@) =~~= expand_kinds(
                            *root,
                            tsv.subrange(0, i as int + 1),
                            fs,
                        ));
                    }
                },
            },
            None => {
                proof {
                    assert(expand_one(*root, pv, fs) =~~= Seq::<Seq<Seq<char>>>::empty());
                    assert(paths_view(out@) =~~= expand_kinds(
                        *root,
                        tsv.subrange(0, i as int + 1),
                        fs,
                    ));
                }
            },
        }
        i = i + 1;
    }
    proof {
        assert(tsv.subrange(0, tsv.len() as int) =~~= tsv);
    }
    out
}

} // verus!
