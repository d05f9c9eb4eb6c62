use vstd::prelude::*;
use crate::util::str_eq;

verus! {

/// One node of an in-memory picture of a directory tree: a regular file with
/// its size, or a directory with its children. Entries that could not be read
/// when the picture was taken are simply absent, and symbolic links are never
/// included, so the picture is always a finite tree.
pub enum FsNode {
    File { name: String, size: u64 },
    Dir { name: String, children: Vec<FsNode> },
}

/// A path as a sequence of component names, relative to some root node.
pub open spec fn path_view(p: Vec<String>) -> Seq<Seq<char>> {
    p@.map_values(|s: String| s@)
}

/// The views of a list of paths.
pub open spec fn paths_view(ps: Seq<Vec<String>>) -> Seq<Seq<Seq<char>>> {
    ps.map_values(|p: Vec<String>| path_view(p))
}

impl FsNode {
    pub open spec fn spec_name(self) -> Seq<char> {
        match self {
            FsNode::File { name, .. } => name@,
            FsNode::Dir { name, .. } => name@,
        }
    }

    /// The last path component of the entry this node pictures.
    pub fn name(&self) -> (r: &String)
        ensures
            r@ == self.spec_name(),
    {
        match self {
            FsNode::File { name, .. } => name,
            FsNode::Dir { name, .. } => name,
        }
    }

    pub fn is_dir(&self) -> (r: bool)
        ensures
            r == (self is Dir),
    {
        match self {
            FsNode::Dir { .. } => true,
            FsNode::File { .. } => false,
        }
    }
}

/// The first child with the given name, if any.
pub open spec fn find_child(cs: Seq<FsNode>, name: Seq<char>) -> Option<FsNode>
    decreases cs.len(),
{
    if cs.len() == 0 {
        None
    } else if cs[0].spec_name() == name {
        Some(cs[0])
    } else {
        find_child(cs.drop_first(), name)
    }
}

/// The node reached from `node` by following `path` one component at a time,
/// taking at each step the first child carrying that name.
pub open spec fn lookup(node: FsNode, path: Seq<Seq<char>>) -> Option<FsNode>
    decreases path.len(),
{
    if path.len() == 0 {
        Some(node)
    } else {
        match node {
            FsNode::File { .. } => None,
            FsNode::Dir { children, .. } => match find_child(children@, path[0]) {
                None => None,
                Some(c) => lookup(c, path.drop_first()),
            },
        }
    }
}

/// Whether `path` leads to a directory below `root`.
pub open spec fn dir_exists(root: FsNode, path: Seq<Seq<char>>) -> bool {
    match lookup(root, path) {
        Some(n) => n is Dir,
        None => false,
    }
}

fn find_child_ref<'a>(children: &'a Vec<FsNode>, name: &String) -> (r: Option<&'a FsNode>)
    ensures
        match r {
            Some(c) => find_child(children@, name@) == Some(*c),
            None => find_child(children@, name@) is None,
        },
{
    let mut j: usize = 0;
    proof {
        assert(children@.skip(0) =~= children@);
    }
    while j < children.len()
        invariant
            0 <= j <= children.len(),
            find_child(children@, name@) == find_child(children@.skip(j as int), name@),
        decreases children.len() - j,
    {
        let c = &children[j];
        proof {
            assert(children@.skip(j as int)[0] == children@[j as int]);
            assert(children@.skip(j as int).drop_first() =~= children@.skip(j as int + 1));
        }
        if str_eq(c.name().as_str(), name.as_str()) {
            return Some(c);
        }
        j = j + 1;
    }
    None
}

/// A directory tree as the filesystem presents it: within each directory the
/// entry names are distinct.
pub open spec fn wf_node(n: FsNode) -> bool
    decreases n,
{
    match n {
        FsNode::File { .. } => true,
        FsNode::Dir { children, .. } => {
            &&& forall|i: int, j: int|
                0 <= i < j < children@.len() ==> (#[trigger] children@[i].spec_name())
                    != (#[trigger] children@[j].spec_name())
            &&& forall|i: int| 0 <= i < children@.len() ==> wf_node(#[trigger] children@[i])
        },
    }
}

/// One path leads into or to where the other leads: `a` is `b` itself or an
/// ancestor of it.
pub open spec fn is_path_prefix(a: Seq<Seq<char>>, b: Seq<Seq<char>>) -> bool {
    a.len() <= b.len() && a == b.subrange(0, a.len() as int)
}

proof fn lemma_find_child_at(cs: Seq<FsNode>, m: Seq<char>, idx: int)
    requires
        0 <= idx < cs.len(),
        cs[idx].spec_name() == m,
        forall|t: int| 0 <= t < idx ==> cs[t].spec_name() != m,
    ensures
        find_child(cs, m) == Some(cs[idx]),
    decreases cs.len(),
{
    if idx == 0 {
    } else {
        assert(cs.drop_first()[idx - 1] == cs[idx]);
        assert forall|t: int| 0 <= t < idx - 1 implies cs.drop_first()[t].spec_name() != m by {
            assert(cs.drop_first()[t] == cs[t + 1]);
        }
        lemma_find_child_at(cs.drop_first(), m, idx - 1);
    }
}

proof fn lemma_find_child_none(cs: Seq<FsNode>, m: Seq<char>)
    requires
        forall|t: int| 0 <= t < cs.len() ==> (#[trigger] cs[t].spec_name()) != m,
    ensures
        find_child(cs, m) is None,
    decreases cs.len(),
{
    if cs.len() > 0 {
        assert forall|t: int| 0 <= t < cs.drop_first().len() implies (#[trigger] cs.drop_first()[t].spec_name())
            != m by {
            assert(cs.drop_first()[t] == cs[t + 1]);
        }
        lemma_find_child_none(cs.drop_first(), m);
    }
}

proof fn lemma_find_child_remove(cs: Seq<FsNode>, idx: int, m: Seq<char>)
    requires
        0 <= idx < cs.len(),
        cs[idx].spec_name() != m,
    ensures
        find_child(cs.remove(idx), m) == find_child(cs, m),
    decreases cs.len(),
{
    if idx == 0 {
        assert(cs.remove(0) =~= cs.drop_first());
    } else {
        assert(cs.remove(idx)[0] == cs[0]);
        if cs[0].spec_name() == m {
        } else {
            assert(cs.remove(idx).drop_first() =~= cs.drop_first().remove(idx - 1));
            assert(cs.drop_first()[idx - 1] == cs[idx]);
            lemma_find_child_remove(cs.drop_first(), idx - 1, m);
        }
    }
}

proof fn lemma_find_child_update(cs: Seq<FsNode>, idx: int, c: FsNode, m: Seq<char>)
    requires
        0 <= idx < cs.len(),
        cs[idx].spec_name() != m,
        c.spec_name() == cs[idx].spec_name(),
    ensures
        find_child(cs.update(idx, c), m) == find_child(cs, m),
    decreases cs.len(),
{
    if idx == 0 {
        assert(cs.update(0, c)[0] == c);
        assert(cs.update(0, c).drop_first() =~= cs.drop_first());
    } else {
        assert(cs.update(idx, c)[0] == cs[0]);
        if cs[0].spec_name() == m {
        } else {
            assert(cs.update(idx, c).drop_first() =~= cs.drop_first().update(idx - 1, c));
            assert(cs.drop_first()[idx - 1] == cs[idx]);
            lemma_find_child_update(cs.drop_first(), idx - 1, c, m);
        }
    }
}

/// Looking a concatenated path up goes through the first part, then the rest.
proof fn lemma_lookup_append(n: FsNode, a: Seq<Seq<char>>, b: Seq<Seq<char>>)
    ensures
        lookup(n, a + b) == match lookup(n, a) {
            None => None::<FsNode>,
            Some(m) => lookup(m, b),
        },
    decreases a.len(),
{
    if a.len() == 0 {
        assert(a + b =~~= b);
    } else {
        assert((a + b)[0] == a[0]);
        assert((a + b).drop_first() =~~= a.drop_first() + b);
        match n {
            FsNode::File { .. } => {
            },
            FsNode::Dir { children, .. } => {
                match find_child(children@, a[0]) {
                    None => {
                    },
                    Some(c) => {
                        lemma_lookup_append(c, a.drop_first(), b);
                    },
                }
            },
        }
    }
}

/// Below a missing path everything is missing.
pub proof fn lemma_lookup_extend_none(n: FsNode, p: Seq<Seq<char>>, q: Seq<Seq<char>>)
    requires
        lookup(n, p) is None,
        is_path_prefix(p, q),
    ensures
        lookup(n, q) is None,
{
    let rest = q.subrange(p.len() as int, q.len() as int);
    assert(q =~~= p + rest);
    lemma_lookup_append(n, p, rest);
}

/// Keeps the first occurrence of each path and drops later repeats.
pub open spec fn dedup(s: Seq<Seq<Seq<char>>>) -> Seq<Seq<Seq<char>>>
    decreases s.len(),
{
    if s.len() == 0 {
        seq![]
    } else if s.drop_last().contains(s.last()) {
        dedup(s.drop_last())
    } else {
        dedup(s.drop_last()).push(s.last())
    }
}

/// A path is kept by `dedup` exactly when it occurs in the input.
pub proof fn lemma_dedup_membership(s: Seq<Seq<Seq<char>>>)
    ensures
        forall|x: Seq<Seq<char>>| #[trigger] dedup(s).contains(x) <==> s.contains(x),
    decreases s.len(),
{
    if s.len() == 0 {
    } else {
        let pre = s.drop_last();
        let last = s.last();
        lemma_dedup_membership(pre);
        assert forall|x: Seq<Seq<char>>| #[trigger] dedup(s).contains(x) <==> s.contains(x) by {
            if dedup(s).contains(x) {
                if pre.contains(last) {
                    assert(dedup(s) == dedup(pre));
                    assert(dedup(pre).contains(x));
                    assert(pre.contains(x));
                    let w = choose|w: int| 0 <= w < pre.len() && pre[w] == x;
                    assert(s[w] == x);
                    assert(s.contains(x));
                } else {
                    assert(dedup(s) == dedup(pre).push(last));
                    let w = choose|w: int| 0 <= w < dedup(s).len() && dedup(s)[w] == x;
                    if w < dedup(pre).len() {
                        assert(dedup(pre)[w] == x);
                        assert(dedup(pre).contains(x));
                        assert(pre.contains(x));
                        let u = choose|u: int| 0 <= u < pre.len() && pre[u] == x;
                        assert(s[u] == x);
                        assert(s.contains(x));
                    } else {
                        assert(x == last);
                        assert(s[s.len() - 1] == x);
                        assert(s.contains(x));
                    }
                }
            }
            if s.contains(x) {
                let w = choose|w: int| 0 <= w < s.len() && s[w] == x;
                if w < s.len() - 1 {
                    assert(pre[w] == x);
                    assert(pre.contains(x));
                    assert(dedup(pre).contains(x));
                    let u = choose|u: int| 0 <= u < dedup(pre).len() && dedup(pre)[u] == x;
                    if pre.contains(last) {
                        assert(dedup(s)[u] == x);
                    } else {
                        assert(dedup(s)[u] == x);
                    }
                    assert(dedup(s).contains(x));
                } else {
                    assert(x == last);
                    if pre.contains(last) {
                        assert(dedup(pre).contains(x));
                        let u = choose|u: int| 0 <= u < dedup(pre).len() && dedup(pre)[u] == x;
                        assert(dedup(s)[u] == x);
                    } else {
                        assert(dedup(s)[dedup(s).len() - 1] == x);
                    }
                    assert(dedup(s).contains(x));
                }
            }
        }
    }
}

/// `dedup` returns each path at most once.
pub proof fn lemma_dedup_distinct(s: Seq<Seq<Seq<char>>>)
    ensures
        forall|i: int, j: int|
            0 <= i < j < dedup(s).len() ==> #[trigger] dedup(s)[i] != #[trigger] dedup(s)[j],
    decreases s.len(),
{
    if s.len() == 0 {
    } else {
        let pre = s.drop_last();
        lemma_dedup_distinct(pre);
        lemma_dedup_membership(pre);
        let d = dedup(pre);
        if !pre.contains(s.last()) {
            assert forall|i: int, j: int|
                0 <= i < j < dedup(s).len() implies dedup(s)[i] != dedup(s)[j] by {
                if j < d.len() {
                    assert(d[i] != d[j]);
                } else {
                    assert(dedup(s)[j] == s.last());
                    assert(dedup(s)[i] == d[i]);
                    if d[i] == s.last() {
                        assert(d.contains(s.last()));
                    }
                }
            }
        }
    }
}

proof fn lemma_prefix_cons(m: Seq<char>, a: Seq<Seq<char>>, b: Seq<Seq<char>>)
    ensures
        is_path_prefix(seq![m] + a, seq![m] + b) == is_path_prefix(a, b),
{
    if is_path_prefix(a, b) {
        assert((seq![m] + a) =~~= (seq![m] + b).subrange(0, (seq![m] + a).len() as int));
    }
    if is_path_prefix(seq![m] + a, seq![m] + b) {
        assert(a =~~= b.subrange(0, a.len() as int)) by {
            assert forall|t: int| 0 <= t < a.len() implies a[t] == b.subrange(
                0,
                a.len() as int,
            )[t] by {
                assert((seq![m] + a)[t + 1] == (seq![m] + b).subrange(
                    0,
                    (seq![m] + a).len() as int,
                )[t + 1]);
            }
        }
    }
}

fn find_child_index(children: &Vec<FsNode>, name: &String) -> (r: Option<usize>)
    ensures
        match r {
            Some(idx) => idx < children@.len() && children@[idx as int].spec_name() == name@
                && forall|t: int| 0 <= t < idx ==> children@[t].spec_name() != name@,
            None => forall|t: int|
                0 <= t < children@.len() ==> (#[trigger] children@[t].spec_name()) != name@,
        },
{
    let mut j: usize = 0;
    while j < children.len()
        invariant
            0 <= j <= children.len(),
            forall|t: int| 0 <= t < j ==> children@[t].spec_name() != name@,
        decreases children.len() - j,
    {
        if str_eq(children[j].name().as_str(), name.as_str()) {
            return Some(j);
        }
        j = j + 1;
    }
    None
}

fn remove_at(node: FsNode, path: &Vec<String>, i: usize) -> (r: FsNode)
    requires
        wf_node(node),
        i < path@.len(),
        lookup(node, path_view(*path).skip(i as int)) is Some,
    ensures
        wf_node(r),
        r.spec_name() == node.spec_name(),
        (r is Dir) == (node is Dir),
        lookup(r, path_view(*path).skip(i as int)) is None,
        forall|q: Seq<Seq<char>>|
            !is_path_prefix(path_view(*path).skip(i as int), q) && !is_path_prefix(
                q,
                path_view(*path).skip(i as int),
            ) ==> lookup(r, q) == lookup(node, q),
        forall|q: Seq<Seq<char>>|
            !is_path_prefix(path_view(*path).skip(i as int), q) ==> (lookup(r, q) is Some
                <==> lookup(node, q) is Some),
    decreases path@.len() - i,
{
    let n = path.len();
    let ghost pv = path_view(*path);
    let ghost rest = pv.skip(i as int);
    let ghost m = pv[i as int];
    proof {
        assert(i < n);
        assert(rest.len() > 0);
        assert(rest[0] == m);
        assert(rest.drop_first() =~~= pv.skip(i as int + 1));
        assert(rest =~~= seq![m] + rest.drop_first());
    }
    match node {
        FsNode::File { name, size } => {
            proof {
                assert(false);
            }
            FsNode::File { name, size }
        },
        FsNode::Dir { name, children } => {
            let ghost cv = children@;
            match find_child_index(&children, &path[i]) {
                None => {
                    proof {
                        lemma_find_child_none(cv, m);
                        assert(false);
                    }
                    FsNode::Dir { name, children }
                },
                Some(idx) => {
                    let mut cs = children;
                    if i + 1 == n {
                        cs.remove(idx);
                        let r = FsNode::Dir { name, children: cs };
                        proof {
                            assert(cs@ =~= cv.remove(idx as int));
                            assert(rest.len() == 1);
                            assert forall|t: int|
                                0 <= t < cs@.len() implies (#[trigger] cs@[t].spec_name())
                                != m by {
                                if t < idx as int {
                                    assert(cs@[t] == cv[t]);
                                } else {
                                    assert(cs@[t] == cv[t + 1]);
                                }
                            }
                            lemma_find_child_none(cs@, m);
                            assert(lookup(r, rest) is None);
                            assert(wf_node(r)) by {
                                assert forall|t: int| 0 <= t < cs@.len() implies wf_node(
                                    #[trigger] cs@[t],
                                ) by {
                                    if t < idx as int {
                                        assert(cs@[t] == cv[t]);
                                    } else {
                                        assert(cs@[t] == cv[t + 1]);
                                    }
                                }
                                assert forall|t: int, u: int|
                                    0 <= t < u < cs@.len() implies (
                                #[trigger] cs@[t].spec_name()) != (
                                #[trigger] cs@[u].spec_name()) by {
                                    let t2: int = if t < idx as int {
                                        t
                                    } else {
                                        t + 1
                                    };
                                    let u2: int = if u < idx as int {
                                        u
                                    } else {
                                        u + 1
                                    };
                                    assert(cs@[t] == cv[t2]);
                                    assert(cs@[u] == cv[u2]);
                                }
                            }
                            assert forall|q: Seq<Seq<char>>|
                                !is_path_prefix(rest, q) && !is_path_prefix(
                                    q,
                                    rest,
                                ) implies lookup(r, q) == lookup(node, q) by {
                                if q.len() == 0 {
                                    assert(q =~~= rest.subrange(0, 0));
                                    assert(is_path_prefix(q, rest));
                                } else {
                                    if q[0] == m {
                                        assert(rest =~~= q.subrange(0, 1));
                                        assert(is_path_prefix(rest, q));
                                    } else {
                                        lemma_find_child_remove(cv, idx as int, q[0]);
                                    }
                                }
                            }
                            assert forall|q: Seq<Seq<char>>| !is_path_prefix(rest, q) implies (
                            lookup(r, q) is Some <==> lookup(node, q) is Some) by {
                                if q.len() > 0 {
                                    if q[0] == m {
                                        assert(rest =~~= q.subrange(0, 1));
                                        assert(is_path_prefix(rest, q));
                                    } else {
                                        if is_path_prefix(q, rest) {
                                            assert(q[0] == rest.subrange(0, q.len() as int)[0]);
                                        }
                                        assert(lookup(r, q) == lookup(node, q));
                                    }
                                }
                            }
                        }
                        r
                    } else {
                        let child = cs.remove(idx);
                        proof {
                            assert(child == cv[idx as int]);
                            assert(wf_node(child));
                            lemma_find_child_at(cv, m, idx as int);
                            assert(lookup(node, rest) == lookup(child, rest.drop_first()));
                            assert(rest.drop_first() =~~= pv.skip(i as int + 1));
                        }
                        let child2 = remove_at(child, path, i + 1);
                        cs.insert(idx, child2);
                        let r = FsNode::Dir { name, children: cs };
                        proof {
                            assert(child == cv[idx as int]);
                            assert(wf_node(child));
                            assert(cs@ =~= cv.update(idx as int, child2));
                            assert(child2.spec_name() == m);
                            lemma_find_child_at(cv, m, idx as int);
                            assert(lookup(node, rest) == lookup(child, rest.drop_first()));
                            assert forall|t: int|
                                0 <= t < idx implies cs@[t].spec_name() != m by {
                                assert(cs@[t] == cv[t]);
                            }
                            lemma_find_child_at(cs@, m, idx as int);
                            assert(lookup(r, rest) == lookup(child2, rest.drop_first()));
                            assert(lookup(r, rest) is None);
                            assert(wf_node(r)) by {
                                assert forall|t: int| 0 <= t < cs@.len() implies wf_node(
                                    #[trigger] cs@[t],
                                ) by {
                                    if t != idx as int {
                                        assert(cs@[t] == cv[t]);
                                    }
                                }
                                assert forall|t: int, u: int|
                                    0 <= t < u < cs@.len() implies (
                                #[trigger] cs@[t].spec_name()) != (
                                #[trigger] cs@[u].spec_name()) by {
                                    assert(cs@[t].spec_name() == cv[t].spec_name());
                                    assert(cs@[u].spec_name() == cv[u].spec_name());
                                }
                            }
                            assert forall|q: Seq<Seq<char>>|
                                !is_path_prefix(rest, q) && !is_path_prefix(
                                    q,
                                    rest,
                                ) implies lookup(r, q) == lookup(node, q) by {
                                if q.len() == 0 {
                                    assert(q =~~= rest.subrange(0, 0));
                                    assert(is_path_prefix(q, rest));
                                } else {
                                    if q[0] == m {
                                        let qrest = q.drop_first();
                                        assert(q =~~= seq![m] + qrest);
                                        lemma_prefix_cons(m, rest.drop_first(), qrest);
                                        lemma_prefix_cons(m, qrest, rest.drop_first());
                                        assert(!is_path_prefix(rest.drop_first(), qrest));
                                        assert(!is_path_prefix(qrest, rest.drop_first()));
                                        assert(lookup(r, q) == lookup(child2, qrest));
                                        assert(lookup(node, q) == lookup(child, qrest));
                                        assert(lookup(child2, qrest) == lookup(child, qrest));
                                    } else {
                                        lemma_find_child_update(cv, idx as int, child2, q[0]);
                                    }
                                }
                            }
                            assert forall|q: Seq<Seq<char>>| !is_path_prefix(rest, q) implies (
                            lookup(r, q) is Some <==> lookup(node, q) is Some) by {
                                if q.len() > 0 {
                                    if q[0] == m {
                                        let qrest = q.drop_first();
                                        assert(q =~~= seq![m] + qrest);
                                        assert(lookup(r, q) == lookup(child2, qrest));
                                        assert(lookup(node, q) == lookup(child, qrest));
                                        lemma_prefix_cons(m, rest.drop_first(), qrest);
                                        assert(!is_path_prefix(rest.drop_first(), qrest));
                                    } else {
                                        if is_path_prefix(q, rest) {
                                            assert(q[0] == rest.subrange(0, q.len() as int)[0]);
                                        }
                                        assert(lookup(r, q) == lookup(node, q));
                                    }
                                }
                            }
                        }
                        r
                    }
                },
            }
        },
    }
}

/// Delete each listed directory from the picture of the tree: afterwards none
/// of the listed paths leads anywhere, and every path unrelated to the listed
/// ones (no listed path is an ancestor of it or below it) leads to exactly
/// what it led to before. A path already missing when its turn comes is simply
/// skipped. Each listed path must name something below the root, not the root
/// itself.
pub fn sweep(root: FsNode, dirs: &Vec<Vec<String>>) -> (r: FsNode)
    requires
        wf_node(root),
        forall|t: int| 0 <= t < dirs@.len() ==> (#[trigger] dirs@[t]@.len()) > 0,
    ensures
        wf_node(r),
        forall|t: int|
            0 <= t < dirs@.len() ==> lookup(r, #[trigger] paths_view(dirs@)[t]) is None,
        forall|q: Seq<Seq<char>>|
            #![trigger lookup(r, q)]
            (forall|t: int|
                0 <= t < dirs@.len() ==> !is_path_prefix(#[trigger] paths_view(dirs@)[t], q)
                    && !is_path_prefix(q, paths_view(dirs@)[t])) ==> lookup(r, q) == lookup(
                root,
                q,
            ),
        forall|q: Seq<Seq<char>>|
            #![trigger lookup(r, q)]
            (forall|t: int|
                0 <= t < dirs@.len() ==> !is_path_prefix(#[trigger] paths_view(dirs@)[t], q))
                ==> (lookup(r, q) is Some <==> lookup(root, q) is Some),
{
    let ghost dv = paths_view(dirs@);
    let mut cur = root;
    let mut t: usize = 0;
    while t < dirs.len()
        invariant
            0 <= t <= dirs.len(),
            dv == paths_view(dirs@),
            dv.len() == dirs.len(),
            forall|u: int| 0 <= u < dirs@.len() ==> (#[trigger] dirs@[u]@.len()) > 0,
            wf_node(cur),
            forall|u: int| 0 <= u < t ==> lookup(cur, #[trigger] dv[u]) is None,
            forall|q: Seq<Seq<char>>|
                #![trigger lookup(cur, q)]
                (forall|u: int|
                    0 <= u < t ==> !is_path_prefix(#[trigger] dv[u], q) && !is_path_prefix(
                        q,
                        dv[u],
                    )) ==> lookup(cur, q) == lookup(root, q),
            forall|q: Seq<Seq<char>>|
                #![trigger lookup(cur, q)]
                (forall|u: int| 0 <= u < t ==> !is_path_prefix(#[trigger] dv[u], q)) ==> (lookup(
                    cur,
                    q,
                ) is Some <==> lookup(root, q) is Some),
        decreases dirs.len() - t,
    {
        let ghost p = dv[t as int];
        proof {
            assert(p == path_view(dirs@[t as int]));
            assert(p.skip(0) =~~= p);
        }
        let present = match node_at(&cur, &dirs[t]) {
            Some(_) => true,
            None => false,
        };
        if present {
            let ghost before = cur;
            let d = &dirs[t];
            proof {
                assert(path_view(*d) == p);
            }
            cur = remove_at(cur, d, 0);
            proof {
                assert forall|u: int| 0 <= u < t + 1 implies lookup(
                    cur,
                    #[trigger] dv[u],
                ) is None by {
                    if u < t {
                        if is_path_prefix(dv[u], p) {
                            lemma_lookup_extend_none(before, dv[u], p);
                            assert(false);
                        } else if is_path_prefix(p, dv[u]) {
                            lemma_lookup_extend_none(cur, p, dv[u]);
                        } else {
                            assert(lookup(cur, dv[u]) == lookup(before, dv[u]));
                        }
                    }
                }
            }
        } else {
            proof {
                assert(lookup(cur, p) is None);
            }
        }
        t = t + 1;
    }
    cur
}

/// A fresh copy of a path, component by component.
pub fn clone_path(p: &Vec<String>) -> (r: Vec<String>)
    ensures
        path_view(r) == path_view(*p),
{
    let mut r: Vec<String> = Vec::new();
    let mut i: usize = 0;
    while i < p.len()
        invariant
            0 <= i <= p.len(),
            r@.len() == i,
            forall|t: int| 0 <= t < i ==> #[trigger] r@[t]@ == p@[t]@,
        decreases p.len() - i,
    {
        r.push(p[i].clone());
        i = i + 1;
    }
    proof {
        assert(path_view(r) =~~= path_view(*p));
    }
    r
}

/// Whether two paths name the same sequence of components.
pub fn path_eq(a: &Vec<String>, b: &Vec<String>) -> (r: bool)
    ensures
        r == (path_view(*a) == path_view(*b)),
{
    if a.len() != b.len() {
        proof {
            assert(path_view(*a).len() != path_view(*b).len());
        }
        return false;
    }
    let mut i: usize = 0;
    while i < a.len()
        invariant
            0 <= i <= a.len(),
            a@.len() == b@.len(),
            forall|t: int| 0 <= t < i ==> #[trigger] a@[t]@ == b@[t]@,
        decreases a.len() - i,
    {
        if !str_eq(a[i].as_str(), b[i].as_str()) {
            proof {
                assert(path_view(*a)[i as int] != path_view(*b)[i as int]);
            }
            return false;
        }
        i = i + 1;
    }
    proof {
        assert(path_view(*a) =~~= path_view(*b));
    }
    true
}

/// Whether the list holds this name.
pub fn contains_name(v: &Vec<String>, s: &String) -> (r: bool)
    ensures
        r == path_view(*v).contains(s@),
{
    let mut j: usize = 0;
    while j < v.len()
        invariant
            0 <= j <= v.len(),
            forall|t: int| 0 <= t < j ==> path_view(*v)[t] != s@,
        decreases v.len() - j,
    {
        if str_eq(v[j].as_str(), s.as_str()) {
            proof {
                assert(path_view(*v)[j as int] == s@);
            }
            return true;
        }
        j = j + 1;
    }
    proof {
        if path_view(*v).contains(s@) {
            let w = choose|w: int| 0 <= w < path_view(*v).len() && path_view(*v)[w] == s@;
            assert(path_view(*v)[w] != s@);
        }
    }
    false
}

/// Whether the list already holds this path.
pub fn contains_path(v: &Vec<Vec<String>>, p: &Vec<String>) -> (r: bool)
    ensures
        r == paths_view(v@).contains(path_view(*p)),
{
    let mut j: usize = 0;
    while j < v.len()
        invariant
            0 <= j <= v.len(),
            forall|t: int| 0 <= t < j ==> paths_view(v@)[t] != path_view(*p),
        decreases v.len() - j,
    {
        if path_eq(&v[j], p) {
            proof {
                assert(paths_view(v@)[j as int] == path_view(*p));
            }
            return true;
        }
        j = j + 1;
    }
    proof {
        if paths_view(v@).contains(path_view(*p)) {
            let w = choose|w: int|
                0 <= w < paths_view(v@).len() && paths_view(v@)[w] == path_view(*p);
            assert(paths_view(v@)[w] != path_view(*p));
        }
    }
    false
}

/// The node `path` leads to below `root`, if any: the executable form of
/// `lookup`.
pub fn node_at<'a>(root: &'a FsNode, path: &Vec<String>) -> (r: Option<&'a FsNode>)
    ensures
        match r {
            Some(n) => lookup(*root, path_view(*path)) == Some(*n),
            None => lookup(*root, path_view(*path)) is None,
        },
{
    let ghost pv = path_view(*path);
    let mut cur: &FsNode = root;
    let mut i: usize = 0;
    proof {
        assert(pv.skip(0) =~= pv);
    }
    while i < path.len()
        invariant
            0 <= i <= path.len(),
            pv == path_view(*path),
            pv.len() == path.len(),
            lookup(*root, pv) == lookup(*cur, pv.skip(i as int)),
        decreases path.len() - i,
    {
        proof {
            assert(pv.skip(i as int)[0] == pv[i as int]);
            assert(pv.skip(i as int).drop_first() =~= pv.skip(i as int + 1));
        }
        match cur {
            FsNode::File { .. } => {
                return None;
            },
            FsNode::Dir { children, .. } => {
                match find_child_ref(children, &path[i]) {
                    Some(c) => {
                        cur = c;
                    },
                    None => {
                        return None;
                    },
                }
            },
        }
        i = i + 1;
    }
    proof {
        assert(pv.skip(i as int) =~= Seq::<Seq<char>>::empty());
    }
    Some(cur)
}

/// Whether `path` leads to a directory below `root`: the executable form of
/// `dir_exists`.
pub fn is_dir_at(root: &FsNode, path: &Vec<String>) -> (r: bool)
    ensures
        r == dir_exists(*root, path_view(*path)),
{
    let ghost pv = path_view(*path);
    let mut cur: &FsNode = root;
    let mut i: usize = 0;
    proof {
        assert(pv.skip(0) =~= pv);
    }
    while i < path.len()
        invariant
            0 <= i <= path.len(),
            pv == path_view(*path),
            pv.len() == path.len(),
            lookup(*root, pv) == lookup(*cur, pv.skip(i as int)),
        decreases path.len() - i,
    {
        proof {
            assert(pv.skip(i as int)[0] == pv[i as int]);
            assert(pv.skip(i as int).drop_first() =~= pv.skip(i as int + 1));
        }
        match cur {
            FsNode::File { .. } => {
                return false;
            },
            FsNode::Dir { children, .. } => {
                match find_child_ref(children, &path[i]) {
                    Some(c) => {
                        cur = c;
                    },
                    None => {
                        return false;
                    },
                }
            },
        }
        i = i + 1;
    }
    proof {
        assert(pv.skip(i as int) =~= Seq::<Seq<char>>::empty());
    }
    cur.is_dir()
}

} // verus!
