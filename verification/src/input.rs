use vstd::prelude::*;
use crate::profile::Profile;
use crate::target_kind::TargetKind;
use crate::tree::{clone_path, contains_path, dedup, dir_exists, is_dir_at, lemma_dedup_distinct,
    lemma_dedup_membership, path_view, paths_view, FsNode};
use vstd::string::StringExecFns;

verus! {

/// The selections to resolve: for each requested profile, the list of
/// requested kinds, in the order they were added. One entry per profile.
pub struct Input {
    entries: Vec<(Profile, Vec<TargetKind>)>,
}

impl View for Input {
    type V = Seq<(Profile, Seq<TargetKind>)>;

    closed spec fn view(&self) -> Seq<(Profile, Seq<TargetKind>)> {
        self.entries@.map_values(|e: (Profile, Vec<TargetKind>)| (e.0, e.1@))
    }
}

/// Whether any entry holds the given profile.
pub open spec fn has_profile(m: Seq<(Profile, Seq<TargetKind>)>, p: Profile) -> bool {
    exists|i: int| 0 <= i < m.len() && m[i].0 == p
}

/// Whether the pair (profile, kind) was registered.
pub open spec fn has_pair(m: Seq<(Profile, Seq<TargetKind>)>, p: Profile, k: TargetKind) -> bool {
    exists|i: int| 0 <= i < m.len() && m[i].0 == p && m[i].1.contains(k)
}

/// The first entry holding the given profile.
pub open spec fn profile_index(m: Seq<(Profile, Seq<TargetKind>)>, p: Profile) -> int
    decreases m.len(),
{
    if m.len() == 0 {
        0
    } else if m[0].0 == p {
        0
    } else {
        1 + profile_index(m.drop_first(), p)
    }
}

/// Where a profile occurs, `profile_index` finds its first entry.
pub proof fn lemma_profile_index(m: Seq<(Profile, Seq<TargetKind>)>, p: Profile)
    requires
        has_profile(m, p),
    ensures
        0 <= profile_index(m, p) < m.len(),
        m[profile_index(m, p)].0 == p,
        forall|t: int| 0 <= t < profile_index(m, p) ==> m[t].0 != p,
    decreases m.len(),
{
    let w = choose|w: int| 0 <= w < m.len() && m[w].0 == p;
    if m[0].0 == p {
    } else {
        let rest = m.drop_first();
        assert(rest[w - 1] == m[w]);
        assert(has_profile(rest, p));
        lemma_profile_index(rest, p);
        let i = profile_index(rest, p);
        assert(m[1 + i] == rest[i]);
        assert forall|t: int| 0 <= t < profile_index(m, p) implies m[t].0 != p by {
            if t > 0 {
                assert(rest[t - 1] == m[t]);
            }
        }
    }
}

/// What adding one (profile, kind) selection does: the kind joins the
/// profile's entry, or opens a new entry for a profile not seen before.
pub open spec fn spec_add(
    m: Seq<(Profile, Seq<TargetKind>)>,
    p: Profile,
    k: TargetKind,
) -> Seq<(Profile, Seq<TargetKind>)> {
    if has_profile(m, p) {
        let i = profile_index(m, p);
        m.update(i, (p, m[i].1.push(k)))
    } else {
        m.push((p, seq![k]))
    }
}

impl Input {
    /// Each profile has at most one entry.
    pub open spec fn wf(self) -> bool {
        forall|i: int, j: int| 0 <= i < j < self@.len() ==> self@[i].0 != self@[j].0
    }

    pub fn new() -> (r: Input)
        ensures
            r@ == Seq::<(Profile, Seq<TargetKind>)>::empty(),
            r.wf(),
    {
        let r = Input { entries: Vec::new() };
        proof {
            assert(r@ =~= Seq::<(Profile, Seq<TargetKind>)>::empty());
        }
        r
    }

    /// Register interest in one (profile, kind) combination.
    pub fn add(&mut self, profile: Profile, kind: TargetKind)
        requires
            old(self).wf(),
        ensures
            final(self).wf(),
            final(self)@ == spec_add(old(self)@, profile, kind),
    {
        let ghost m = old(self)@;
        let mut i: usize = 0;
        while i < self.entries.len()
            invariant
                0 <= i <= self.entries.len(),
                m == old(self)@,
                m == self@,
                self.wf(),
                forall|t: int| 0 <= t < i ==> m[t].0 != profile,
            decreases self.entries.len() - i,
        {
            if self.entries[i].0 == profile {
                proof {
                    assert(m[i as int] == (self.entries@[i as int].0, self.entries@[i as int].1@));
                    assert(has_profile(m, profile));
                    lemma_profile_index(m, profile);
                    let w = profile_index(m, profile);
                    if w > i as int {
                        assert(m[i as int].0 != profile);
                    }
                    assert(w == i as int);
                }
                let mut e = self.entries.remove(i);
                e.1.push(kind);
                let ghost updated = (e.0, e.1@);
                self.entries.insert(i, e);
                proof {
                    assert(updated == (profile, m[i as int].1.push(kind)));
                    assert(self@ =~~= m.update(i as int, updated));
                    assert(self@ =~~= spec_add(m, profile, kind));
                }
                return ;
            }
            i = i + 1;
        }
        let mut ks: Vec<TargetKind> = Vec::new();
        ks.push(kind);
        self.entries.push((profile, ks));
        proof {
            assert(!has_profile(m, profile));
            assert(self@ =~~= m.push((profile, seq![kind])));
        }
    }
}

/// The (profile, kind) pairs of one entry, in the order the kinds were added.
pub open spec fn kinds_pairs(p: Profile, ks: Seq<TargetKind>) -> Seq<(Profile, TargetKind)>
    decreases ks.len(),
{
    if ks.len() == 0 {
        seq![]
    } else {
        kinds_pairs(p, ks.drop_last()).push((p, ks.last()))
    }
}

/// All registered (profile, kind) pairs, in entry order.
pub open spec fn flat_pairs(m: Seq<(Profile, Seq<TargetKind>)>) -> Seq<(Profile, TargetKind)>
    decreases m.len(),
{
    if m.len() == 0 {
        seq![]
    } else {
        flat_pairs(m.drop_last()) + kinds_pairs(m.last().0, m.last().1)
    }
}

/// The directory one pair selects under one target root: the root, extended
/// by the profile's component and the kind's component (`All` adds none).
pub open spec fn candidate(t: Seq<Seq<char>>, p: Profile, k: TargetKind) -> Seq<Seq<char>> {
    t + p.comps() + k.comps()
}

/// The candidates of all pairs under one target root.
pub open spec fn target_candidates(
    t: Seq<Seq<char>>,
    ps: Seq<(Profile, TargetKind)>,
) -> Seq<Seq<Seq<char>>>
    decreases ps.len(),
{
    if ps.len() == 0 {
        seq![]
    } else {
        target_candidates(t, ps.drop_last()).push(candidate(t, ps.last().0, ps.last().1))
    }
}

/// The candidates of all pairs under every target root, roots outermost.
pub open spec fn all_candidates(
    ts: Seq<Seq<Seq<char>>>,
    ps: Seq<(Profile, TargetKind)>,
) -> Seq<Seq<Seq<char>>>
    decreases ts.len(),
{
    if ts.len() == 0 {
        seq![]
    } else {
        all_candidates(ts.drop_last(), ps) + target_candidates(ts.last(), ps)
    }
}

/// Keeps only the candidates that lead to a directory in the tree; a missing
/// candidate is silently dropped, not an error.
pub open spec fn existing(root: FsNode, cs: Seq<Seq<Seq<char>>>) -> Seq<Seq<Seq<char>>>
    decreases cs.len(),
{
    if cs.len() == 0 {
        seq![]
    } else {
        existing(root, cs.drop_last()) + if dir_exists(root, cs.last()) {
            seq![cs.last()]
        } else {
            seq![]
        }
    }
}

/// Everything `filter` returns: each distinct directory that some registered
/// pair selects under some target root and that exists in the tree, listed
/// once, in first-occurrence order.
pub open spec fn spec_resolve(
    m: Seq<(Profile, Seq<TargetKind>)>,
    root: FsNode,
    ts: Seq<Seq<Seq<char>>>,
) -> Seq<Seq<Seq<char>>> {
    dedup(existing(root, all_candidates(ts, flat_pairs(m))))
}

/// The resolved directories as a set: membership depends only on which pairs
/// were registered, not on how often or in what order.
pub open spec fn resolved_set(
    m: Seq<(Profile, Seq<TargetKind>)>,
    root: FsNode,
    ts: Seq<Seq<Seq<char>>>,
) -> Set<Seq<Seq<char>>> {
    Set::new(
        |c: Seq<Seq<char>>|
            dir_exists(root, c) && exists|ti: int, p: Profile, k: TargetKind|
                0 <= ti < ts.len() && has_pair(m, p, k) && c == candidate(ts[ti], p, k),
    )
}

/// One listed name, or nothing.
pub open spec fn maybe_name(b: bool, s: Seq<char>) -> Seq<Seq<char>> {
    if b {
        seq![s]
    } else {
        seq![]
    }
}

/// Whether a profile's name belongs in the listing: it does when nothing was
/// selected (the "everything" default), when it was selected itself, and when
/// `All` was selected, which stands for the whole catalog.
pub open spec fn uses_profile(m: Seq<(Profile, Seq<TargetKind>)>, p: Profile) -> bool {
    m.len() == 0 || exists|i: int|
        0 <= i < m.len() && (#[trigger] m[i].0 == p || m[i].0 == Profile::All)
}

/// Whether a kind's name belongs in the listing, under the same rule.
pub open spec fn uses_kind(m: Seq<(Profile, Seq<TargetKind>)>, k: TargetKind) -> bool {
    m.len() == 0 || exists|i: int|
        0 <= i < m.len() && (#[trigger] m[i].1.contains(k) || m[i].1.contains(TargetKind::All))
}

/// The profile names to list, in catalog order.
pub open spec fn profile_names(m: Seq<(Profile, Seq<TargetKind>)>) -> Seq<Seq<char>> {
    maybe_name(uses_profile(m, Profile::Debug), "debug"@) + maybe_name(
        uses_profile(m, Profile::Release),
        "release"@,
    ) + maybe_name(uses_profile(m, Profile::Doc), "doc"@)
}

/// The kind names to list, in catalog order.
pub open spec fn kind_names(m: Seq<(Profile, Seq<TargetKind>)>) -> Seq<Seq<char>> {
    maybe_name(uses_kind(m, TargetKind::Build), "build"@) + maybe_name(
        uses_kind(m, TargetKind::Deps),
        "deps"@,
    ) + maybe_name(uses_kind(m, TargetKind::Examples), "examples"@) + maybe_name(
        uses_kind(m, TargetKind::Incremental),
        "incremental"@,
    )
}

/// The lines listing the kinds, one `- name` line each.
pub open spec fn kind_lines(vs: Seq<Seq<char>>) -> Seq<char>
    decreases vs.len(),
{
    if vs.len() == 0 {
        Seq::<char>::empty()
    } else {
        kind_lines(vs.drop_last()) + "- "@ + vs.last() + seq!['\n']
    }
}

/// One block per profile name: the name on its own line, then the kind lines.
pub open spec fn profile_blocks(ks: Seq<Seq<char>>, vs: Seq<Seq<char>>) -> Seq<char>
    decreases ks.len(),
{
    if ks.len() == 0 {
        Seq::<char>::empty()
    } else {
        profile_blocks(ks.drop_last(), vs) + ks.last() + seq!['\n'] + kind_lines(vs)
    }
}

/// The listing `render` produces: the distinct profile names used and, under
/// each, the distinct kind names used; with no selections, the full catalog.
pub open spec fn spec_render_input(m: Seq<(Profile, Seq<TargetKind>)>) -> Seq<char> {
    profile_blocks(profile_names(m), kind_names(m))
}

fn kinds_use(v: &Vec<TargetKind>, k: TargetKind) -> (r: bool)
    ensures
        r == (v@.contains(k) || v@.contains(TargetKind::All)),
{
    let mut j: usize = 0;
    while j < v.len()
        invariant
            0 <= j <= v.len(),
            forall|t: int| 0 <= t < j ==> v@[t] != k && v@[t] != TargetKind::All,
        decreases v.len() - j,
    {
        if v[j] == k || v[j] == TargetKind::All {
            return true;
        }
        j = j + 1;
    }
    proof {
        if v@.contains(k) {
            let w = choose|w: int| 0 <= w < v@.len() && v@[w] == k;
            assert(v@[w] != k);
        }
        if v@.contains(TargetKind::All) {
            let w = choose|w: int| 0 <= w < v@.len() && v@[w] == TargetKind::All;
            assert(v@[w] != TargetKind::All);
        }
    }
    false
}

impl Input {
    fn uses_profile_exec(&self, p: Profile) -> (r: bool)
        ensures
            r == uses_profile(self@, p),
    {
        if self.entries.len() == 0 {
            return true;
        }
        let mut i: usize = 0;
        while i < self.entries.len()
            invariant
                0 <= i <= self.entries.len(),
                self@.len() == self.entries.len(),
                forall|t: int|
                    0 <= t < i ==> !(#[trigger] self@[t].0 == p || self@[t].0 == Profile::All),
            decreases self.entries.len() - i,
        {
            proof {
                assert(self@[i as int] == (
                    self.entries@[i as int].0,
                    self.entries@[i as int].1@,
                ));
            }
            if self.entries[i].0 == p || self.entries[i].0 == Profile::All {
                proof {
                    assert(self@[i as int].0 == p || self@[i as int].0 == Profile::All);
                    assert(uses_profile(self@, p));
                }
                return true;
            }
            i = i + 1;
        }
        proof {
            if uses_profile(self@, p) {
                let w = choose|w: int|
                    0 <= w < self@.len() && (#[trigger] self@[w].0 == p || self@[w].0
                        == Profile::All);
                assert(!(self@[w].0 == p || self@[w].0 == Profile::All));
            }
        }
        false
    }

    fn uses_kind_exec(&self, k: TargetKind) -> (r: bool)
        ensures
            r == uses_kind(self@, k),
    {
        if self.entries.len() == 0 {
            return true;
        }
        let mut i: usize = 0;
        while i < self.entries.len()
            invariant
                0 <= i <= self.entries.len(),
                self@.len() == self.entries.len(),
                forall|t: int|
                    0 <= t < i ==> !(#[trigger] self@[t].1.contains(k) || self@[t].1.contains(
                        TargetKind::All,
                    )),
            decreases self.entries.len() - i,
        {
            proof {
                assert(self@[i as int] == (
                    self.entries@[i as int].0,
                    self.entries@[i as int].1@,
                ));
            }
            if kinds_use(&self.entries[i].1, k) {
                proof {
                    assert(self@[i as int].1.contains(k) || self@[i as int].1.contains(
                        TargetKind::All,
                    ));
                    assert(uses_kind(self@, k));
                }
                return true;
            }
            i = i + 1;
        }
        proof {
            if uses_kind(self@, k) {
                let w = choose|w: int|
                    0 <= w < self@.len() && (#[trigger] self@[w].1.contains(k)
                        || self@[w].1.contains(TargetKind::All));
                assert(!(self@[w].1.contains(k) || self@[w].1.contains(TargetKind::All)));
            }
        }
        false
    }

    /// The text form of the selections: each profile name in use on a line of
    /// its own, each followed by one `- name` line per kind in use. With no
    /// selections at all, the full catalog of profiles and kinds is listed.
    #[verifier::rlimit(50)]
    pub fn render(&self) -> (r: String)
        ensures
            r@ == spec_render_input(self@),
    {
        let mut pnames: Vec<&'static str> = Vec::new();
        if self.uses_profile_exec(Profile::Debug) {
            pnames.push("debug");
        }
        if self.uses_profile_exec(Profile::Release) {
            pnames.push("release");
        }
        if self.uses_profile_exec(Profile::Doc) {
            pnames.push("doc");
        }
        let mut knames: Vec<&'static str> = Vec::new();
        if self.uses_kind_exec(TargetKind::Build) {
            knames.push("build");
        }
        if self.uses_kind_exec(TargetKind::Deps) {
            knames.push("deps");
        }
        if self.uses_kind_exec(TargetKind::Examples) {
            knames.push("examples");
        }
        if self.uses_kind_exec(TargetKind::Incremental) {
            knames.push("incremental");
        }
        let ghost ks = profile_names(self@);
        let ghost vs = kind_names(self@);
        proof {
            assert(pnames@.map_values(|s: &str| s@) =~~= ks);
            assert(knames@.map_values(|s: &str| s@) =~~= vs);
        }
        let mut kblock = String::new();
        let mut j: usize = 0;
        proof {
            assert(vs.subrange(0, 0) =~~= Seq::<Seq<char>>::empty());
            assert(kblock@ =~= kind_lines(vs.subrange(0, 0)));
        }
        while j < knames.len()
            invariant
                0 <= j <= knames.len(),
                knames@.map_values(|s: &str| s@) == vs,
                vs.len() == knames.len(),
                kblock@ == kind_lines(vs.subrange(0, j as int)),
            decreases knames.len() - j,
        {
            kblock.append("- ");
            kblock.append(knames[j]);
            kblock.append("\n");
            proof {
                reveal_strlit("- ");
                reveal_strlit("\n");
                assert(vs.subrange(0, j as int + 1).drop_last() =~~= vs.subrange(0, j as int));
                assert(vs.subrange(0, j as int + 1).last() == vs[j as int]);
                assert(kblock@ =~= kind_lines(vs.subrange(0, j as int + 1)));
            }
            j = j + 1;
        }
        proof {
            assert(vs.subrange(0, vs.len() as int) =~~= vs);
        }
        let mut r = String::new();
        let mut i: usize = 0;
        proof {
            assert(ks.subrange(0, 0) =~~= Seq::<Seq<char>>::empty());
            assert(r@ =~= profile_blocks(ks.subrange(0, 0), vs));
        }
        while i < pnames.len()
            invariant
                0 <= i <= pnames.len(),
                pnames@.map_values(|s: &str| s@) == ks,
                ks.len() == pnames.len(),
                kblock@ == kind_lines(vs),
                r@ == profile_blocks(ks.subrange(0, i as int), vs),
            decreases pnames.len() - i,
        {
            r.append(pnames[i]);
            r.append("\n");
            r.append(kblock.as_str());
            proof {
                reveal_strlit("\n");
                assert(ks.subrange(0, i as int + 1).drop_last() =~~= ks.subrange(0, i as int));
                assert(ks.subrange(0, i as int + 1).last() == ks[i as int]);
                assert(r@ =~= profile_blocks(ks.subrange(0, i as int + 1), vs));
            }
            i = i + 1;
        }
        proof {
            assert(ks.subrange(0, ks.len() as int) =~~= ks);
        }
        r
    }
}

proof fn lemma_kinds_pairs_membership(p0: Profile, ks: Seq<TargetKind>)
    ensures
        forall|p: Profile, k: TargetKind| #[trigger]
            kinds_pairs(p0, ks).contains((p, k)) <==> p == p0 && ks.contains(k),
    decreases ks.len(),
{
    if ks.len() == 0 {
    } else {
        let pre = ks.drop_last();
        lemma_kinds_pairs_membership(p0, pre);
        assert forall|p: Profile, k: TargetKind| #[trigger]
            kinds_pairs(p0, ks).contains((p, k)) <==> p == p0 && ks.contains(k) by {
            let d = kinds_pairs(p0, pre);
            if kinds_pairs(p0, ks).contains((p, k)) {
                let w = choose|w: int|
                    0 <= w < kinds_pairs(p0, ks).len() && kinds_pairs(p0, ks)[w] == (p, k);
                if w < d.len() {
                    assert(d[w] == (p, k));
                    assert(d.contains((p, k)));
                    let u = choose|u: int| 0 <= u < pre.len() && pre[u] == k;
                    assert(ks[u] == k);
                    assert(ks.contains(k));
                } else {
                    assert((p, k) == (p0, ks.last()));
                    assert(ks[ks.len() - 1] == k);
                    assert(ks.contains(k));
                }
            }
            if p == p0 && ks.contains(k) {
                let w = choose|w: int| 0 <= w < ks.len() && ks[w] == k;
                if w < ks.len() - 1 {
                    assert(pre[w] == k);
                    assert(pre.contains(k));
                    assert(d.contains((p, k)));
                    let u = choose|u: int| 0 <= u < d.len() && d[u] == (p, k);
                    assert(kinds_pairs(p0, ks)[u] == (p, k));
                } else {
                    assert(kinds_pairs(p0, ks)[d.len() as int] == (p0, ks.last()));
                }
                assert(kinds_pairs(p0, ks).contains((p, k)));
            }
        }
    }
}

proof fn lemma_flat_pairs_membership(m: Seq<(Profile, Seq<TargetKind>)>)
    ensures
        forall|p: Profile, k: TargetKind| #[trigger]
            flat_pairs(m).contains((p, k)) <==> has_pair(m, p, k),
    decreases m.len(),
{
    if m.len() == 0 {
    } else {
        let pre = m.drop_last();
        let e = m.last();
        lemma_flat_pairs_membership(pre);
        lemma_kinds_pairs_membership(e.0, e.1);
        assert forall|p: Profile, k: TargetKind| #[trigger]
            flat_pairs(m).contains((p, k)) <==> has_pair(m, p, k) by {
            let left = flat_pairs(pre);
            let right = kinds_pairs(e.0, e.1);
            if flat_pairs(m).contains((p, k)) {
                let w = choose|w: int| 0 <= w < flat_pairs(m).len() && flat_pairs(m)[w] == (p, k);
                if w < left.len() {
                    assert(left[w] == (p, k));
                    assert(left.contains((p, k)));
                    assert(has_pair(pre, p, k));
                    let u = choose|u: int| 0 <= u < pre.len() && pre[u].0 == p && pre[u].1.contains(k);
                    assert(m[u] == pre[u]);
                    assert(has_pair(m, p, k));
                } else {
                    assert(right[w - left.len()] == (p, k));
                    assert(right.contains((p, k)));
                    assert(m[m.len() - 1] == e);
                    assert(has_pair(m, p, k));
                }
            }
            if has_pair(m, p, k) {
                let u = choose|u: int| 0 <= u < m.len() && m[u].0 == p && m[u].1.contains(k);
                if u < m.len() - 1 {
                    assert(pre[u] == m[u]);
                    assert(has_pair(pre, p, k));
                    assert(left.contains((p, k)));
                    let w = choose|w: int| 0 <= w < left.len() && left[w] == (p, k);
                    assert(flat_pairs(m)[w] == (p, k));
                } else {
                    assert(m[u] == e);
                    assert(right.contains((p, k)));
                    let w = choose|w: int| 0 <= w < right.len() && right[w] == (p, k);
                    assert(flat_pairs(m)[left.len() + w] == (p, k));
                }
                assert(flat_pairs(m).contains((p, k)));
            }
        }
    }
}

proof fn lemma_target_candidates_membership(t: Seq<Seq<char>>, ps: Seq<(Profile, TargetKind)>)
    ensures
        forall|c: Seq<Seq<char>>| #[trigger]
            target_candidates(t, ps).contains(c) <==> exists|pr: (Profile, TargetKind)|
                #[trigger] ps.contains(pr) && c == candidate(t, pr.0, pr.1),
    decreases ps.len(),
{
    if ps.len() == 0 {
    } else {
        let pre = ps.drop_last();
        lemma_target_candidates_membership(t, pre);
        assert forall|c: Seq<Seq<char>>| #[trigger]
            target_candidates(t, ps).contains(c) <==> exists|pr: (Profile, TargetKind)|
                #[trigger] ps.contains(pr) && c == candidate(t, pr.0, pr.1) by {
            let d = target_candidates(t, pre);
            if target_candidates(t, ps).contains(c) {
                let w = choose|w: int|
                    0 <= w < target_candidates(t, ps).len() && target_candidates(t, ps)[w] == c;
                if w < d.len() {
                    assert(d[w] == c);
                    assert(d.contains(c));
                    let pr = choose|pr: (Profile, TargetKind)|
                        #[trigger] pre.contains(pr) && c == candidate(t, pr.0, pr.1);
                    let u = choose|u: int| 0 <= u < pre.len() && pre[u] == pr;
                    assert(ps[u] == pr);
                    assert(ps.contains(pr));
                } else {
                    assert(c == candidate(t, ps.last().0, ps.last().1));
                    assert(ps[ps.len() - 1] == ps.last());
                    assert(ps.contains(ps.last()));
                }
            }
            if exists|pr: (Profile, TargetKind)| #[trigger] ps.contains(pr) && c == candidate(
                t,
                pr.0,
                pr.1,
            ) {
                let pr = choose|pr: (Profile, TargetKind)|
                    #[trigger] ps.contains(pr) && c == candidate(t, pr.0, pr.1);
                let u = choose|u: int| 0 <= u < ps.len() && ps[u] == pr;
                if u < ps.len() - 1 {
                    assert(pre[u] == pr);
                    assert(pre.contains(pr));
                    assert(d.contains(c));
                    let w = choose|w: int| 0 <= w < d.len() && d[w] == c;
                    assert(target_candidates(t, ps)[w] == c);
                } else {
                    assert(target_candidates(t, ps)[d.len() as int] == candidate(
                        t,
                        ps.last().0,
                        ps.last().1,
                    ));
                }
                assert(target_candidates(t, ps).contains(c));
            }
        }
    }
}

proof fn lemma_all_candidates_membership(ts: Seq<Seq<Seq<char>>>, ps: Seq<(Profile, TargetKind)>)
    ensures
        forall|c: Seq<Seq<char>>| #[trigger]
            all_candidates(ts, ps).contains(c) <==> exists|ti: int, pr: (Profile, TargetKind)|
                0 <= ti < ts.len() && ps.contains(pr) && c == #[trigger] candidate(
                    ts[ti],
                    pr.0,
                    pr.1,
                ),
    decreases ts.len(),
{
    if ts.len() == 0 {
    } else {
        let pre = ts.drop_last();
        lemma_all_candidates_membership(pre, ps);
        lemma_target_candidates_membership(ts.last(), ps);
        assert forall|c: Seq<Seq<char>>| #[trigger]
            all_candidates(ts, ps).contains(c) <==> exists|ti: int, pr: (Profile, TargetKind)|
                0 <= ti < ts.len() && ps.contains(pr) && c == #[trigger] candidate(
                    ts[ti],
                    pr.0,
                    pr.1,
                ) by {
            let left = all_candidates(pre, ps);
            let right = target_candidates(ts.last(), ps);
            if all_candidates(ts, ps).contains(c) {
                let w = choose|w: int|
                    0 <= w < all_candidates(ts, ps).len() && all_candidates(ts, ps)[w] == c;
                if w < left.len() {
                    assert(left[w] == c);
                    assert(left.contains(c));
                    let (ti, pr) = choose|ti: int, pr: (Profile, TargetKind)|
                        0 <= ti < pre.len() && ps.contains(pr) && c == #[trigger] candidate(
                            pre[ti],
                            pr.0,
                            pr.1,
                        );
                    assert(ts[ti] == pre[ti]);
                } else {
                    assert(right[w - left.len()] == c);
                    assert(right.contains(c));
                    let pr = choose|pr: (Profile, TargetKind)|
                        #[trigger] ps.contains(pr) && c == candidate(ts.last(), pr.0, pr.1);
                    assert(ts[ts.len() - 1] == ts.last());
                }
            }
            if exists|ti: int, pr: (Profile, TargetKind)|
                0 <= ti < ts.len() && ps.contains(pr) && c == #[trigger] candidate(
                    ts[ti],
                    pr.0,
                    pr.1,
                ) {
                let (ti, pr) = choose|ti: int, pr: (Profile, TargetKind)|
                    0 <= ti < ts.len() && ps.contains(pr) && c == #[trigger] candidate(
                        ts[ti],
                        pr.0,
                        pr.1,
                    );
                if ti < ts.len() - 1 {
                    assert(pre[ti] == ts[ti]);
                    assert(left.contains(c));
                    let w = choose|w: int| 0 <= w < left.len() && left[w] == c;
                    assert(all_candidates(ts, ps)[w] == c);
                } else {
                    assert(right.contains(c));
                    let w = choose|w: int| 0 <= w < right.len() && right[w] == c;
                    assert(all_candidates(ts, ps)[left.len() + w] == c);
                }
                assert(all_candidates(ts, ps).contains(c));
            }
        }
    }
}

proof fn lemma_existing_membership(root: FsNode, cs: Seq<Seq<Seq<char>>>)
    ensures
        forall|c: Seq<Seq<char>>| #[trigger]
            existing(root, cs).contains(c) <==> cs.contains(c) && dir_exists(root, c),
    decreases cs.len(),
{
    if cs.len() == 0 {
    } else {
        let pre = cs.drop_last();
        lemma_existing_membership(root, pre);
        assert forall|c: Seq<Seq<char>>| #[trigger]
            existing(root, cs).contains(c) <==> cs.contains(c) && dir_exists(root, c) by {
            let left = existing(root, pre);
            if existing(root, cs).contains(c) {
                let w = choose|w: int|
                    0 <= w < existing(root, cs).len() && existing(root, cs)[w] == c;
                if w < left.len() {
                    assert(left[w] == c);
                    assert(left.contains(c));
                    let u = choose|u: int| 0 <= u < pre.len() && pre[u] == c;
                    assert(cs[u] == c);
                } else {
                    assert(c == cs.last());
                    assert(cs[cs.len() - 1] == c);
                }
                assert(cs.contains(c));
            }
            if cs.contains(c) && dir_exists(root, c) {
                let u = choose|u: int| 0 <= u < cs.len() && cs[u] == c;
                if u < cs.len() - 1 {
                    assert(pre[u] == c);
                    assert(pre.contains(c));
                    assert(left.contains(c));
                    let w = choose|w: int| 0 <= w < left.len() && left[w] == c;
                    assert(existing(root, cs)[w] == c);
                } else {
                    assert(existing(root, cs)[left.len() as int] == c);
                }
                assert(existing(root, cs).contains(c));
            }
        }
    }
}

/// What `filter` returns, seen as a set: exactly the directories selected by
/// some registered pair under some target root that exist in the tree.
pub proof fn lemma_resolve_membership(
    m: Seq<(Profile, Seq<TargetKind>)>,
    root: FsNode,
    ts: Seq<Seq<Seq<char>>>,
)
    ensures
        forall|c: Seq<Seq<char>>| #[trigger]
            spec_resolve(m, root, ts).contains(c) <==> resolved_set(m, root, ts).contains(c),
{
    let ps = flat_pairs(m);
    let ac = all_candidates(ts, ps);
    let ex = existing(root, ac);
    lemma_dedup_membership(ex);
    lemma_existing_membership(root, ac);
    lemma_all_candidates_membership(ts, ps);
    lemma_flat_pairs_membership(m);
    assert forall|c: Seq<Seq<char>>| #[trigger]
        spec_resolve(m, root, ts).contains(c) <==> resolved_set(m, root, ts).contains(c) by {
        if spec_resolve(m, root, ts).contains(c) {
            assert(ex.contains(c));
            assert(ac.contains(c) && dir_exists(root, c));
            let (ti, pr) = choose|ti: int, pr: (Profile, TargetKind)|
                0 <= ti < ts.len() && ps.contains(pr) && c == #[trigger] candidate(
                    ts[ti],
                    pr.0,
                    pr.1,
                );
            assert(ps.contains((pr.0, pr.1)));
            assert(has_pair(m, pr.0, pr.1));
            assert(resolved_set(m, root, ts).contains(c));
        }
        if resolved_set(m, root, ts).contains(c) {
            let (ti, p, k) = choose|ti: int, p: Profile, k: TargetKind|
                0 <= ti < ts.len() && has_pair(m, p, k) && c == candidate(ts[ti], p, k);
            assert(ps.contains((p, k)));
            let pr = (p, k);
            assert(0 <= ti < ts.len() && ps.contains(pr) && c == candidate(ts[ti], pr.0, pr.1));
            assert(ac.contains(c));
            assert(ex.contains(c));
            assert(spec_resolve(m, root, ts).contains(c));
        }
    }
}

proof fn lemma_has_pair_add(
    m: Seq<(Profile, Seq<TargetKind>)>,
    p: Profile,
    k: TargetKind,
    p2: Profile,
    k2: TargetKind,
)
    ensures
        has_pair(spec_add(m, p, k), p2, k2) <==> (has_pair(m, p2, k2) || (p2 == p && k2 == k)),
{
    if has_profile(m, p) {
        lemma_profile_index(m, p);
        let i = profile_index(m, p);
        let m2 = m.update(i, (p, m[i].1.push(k)));
        assert(spec_add(m, p, k) == m2);
        if has_pair(m2, p2, k2) {
            let j = choose|j: int| 0 <= j < m2.len() && m2[j].0 == p2 && m2[j].1.contains(k2);
            if j != i {
                assert(m[j] == m2[j]);
                assert(has_pair(m, p2, k2));
            } else {
                assert(p2 == p);
                let w = choose|w: int|
                    0 <= w < m[i].1.push(k).len() && m[i].1.push(k)[w] == k2;
                if w < m[i].1.len() {
                    assert(m[i].1[w] == k2);
                    assert(m[i].1.contains(k2));
                    assert(has_pair(m, p2, k2));
                } else {
                    assert(k2 == k);
                }
            }
        }
        if has_pair(m, p2, k2) {
            let j = choose|j: int| 0 <= j < m.len() && m[j].0 == p2 && m[j].1.contains(k2);
            if j != i {
                assert(m2[j] == m[j]);
            } else {
                let w = choose|w: int| 0 <= w < m[i].1.len() && m[i].1[w] == k2;
                assert(m[i].1.push(k)[w] == k2);
                assert(m2[i].1.contains(k2));
            }
            assert(has_pair(m2, p2, k2));
        }
        if p2 == p && k2 == k {
            assert(m2[i].1[m[i].1.len() as int] == k);
            assert(m2[i].1.contains(k2));
            assert(has_pair(m2, p2, k2));
        }
    } else {
        let m2 = m.push((p, seq![k]));
        assert(spec_add(m, p, k) == m2);
        if has_pair(m2, p2, k2) {
            let j = choose|j: int| 0 <= j < m2.len() && m2[j].0 == p2 && m2[j].1.contains(k2);
            if j < m.len() {
                assert(m[j] == m2[j]);
                assert(has_pair(m, p2, k2));
            } else {
                assert(p2 == p);
                let w = choose|w: int| 0 <= w < seq![k].len() && seq![k][w] == k2;
                assert(k2 == k);
            }
        }
        if has_pair(m, p2, k2) {
            let j = choose|j: int| 0 <= j < m.len() && m[j].0 == p2 && m[j].1.contains(k2);
            assert(m2[j] == m[j]);
            assert(has_pair(m2, p2, k2));
        }
        if p2 == p && k2 == k {
            assert(m2[m.len() as int].1[0] == k);
            assert(m2[m.len() as int].1.contains(k2));
            assert(has_pair(m2, p2, k2));
        }
    }
}

/// Adding the same (profile, kind) pair a second time changes nothing about
/// which directories resolve: resolution is idempotent in the selections.
pub proof fn lemma_add_idempotent(
    m: Seq<(Profile, Seq<TargetKind>)>,
    p: Profile,
    k: TargetKind,
    root: FsNode,
    ts: Seq<Seq<Seq<char>>>,
)
    ensures
        resolved_set(spec_add(spec_add(m, p, k), p, k), root, ts) == resolved_set(
            spec_add(m, p, k),
            root,
            ts,
        ),
{
    let m1 = spec_add(m, p, k);
    let m2 = spec_add(m1, p, k);
    assert forall|p2: Profile, k2: TargetKind| #[trigger]
        has_pair(m2, p2, k2) <==> has_pair(m1, p2, k2) by {
        lemma_has_pair_add(m, p, k, p2, k2);
        lemma_has_pair_add(m1, p, k, p2, k2);
    }
    assert(resolved_set(m2, root, ts) =~= resolved_set(m1, root, ts));
}

impl Input {
    /// Resolve the selections against the discovered target roots: every
    /// registered (profile, kind) pair is joined onto every root, candidates
    /// that do not exist as directories in the tree are dropped, and each
    /// surviving directory is listed once, in first-occurrence order.
    pub fn filter(&self, tree: &FsNode, targets: &Vec<Vec<String>>) -> (r: Vec<Vec<String>>)
        ensures
            paths_view(r@) == spec_resolve(self@, *tree, paths_view(targets@)),
            forall|i: int, j: int|
                0 <= i < j < r@.len() ==> paths_view(r@)[i] != paths_view(r@)[j],
    {
        let ghost mv = self@;
        let ghost tsv = paths_view(targets@);

        // Flatten the selections into (profile, kind) pairs, in entry order.
        let mut pairs: Vec<(Profile, TargetKind)> = Vec::new();
        let mut i: usize = 0;
        proof {
            assert(mv.subrange(0, 0) =~~= Seq::<(Profile, Seq<TargetKind>)>::empty());
            assert(pairs@ =~~= flat_pairs(mv.subrange(0, 0)));
        }
        while i < self.entries.len()
            invariant
                0 <= i <= self.entries.len(),
                mv == self@,
                mv.len() == self.entries.len(),
                pairs@ == flat_pairs(mv.subrange(0, i as int)),
            decreases self.entries.len() - i,
        {
            let e = &self.entries[i];
            let ghost p0 = mv[i as int].0;
            let ghost ks = mv[i as int].1;
            proof {
                assert(mv[i as int] == (self.entries@[i as int].0, self.entries@[i as int].1@));
                assert(ks.subrange(0, 0) =~~= Seq::<TargetKind>::empty());
            }
            let mut j: usize = 0;
            while j < e.1.len()
                invariant
                    0 <= j <= e.1.len(),
                    e == &self.entries@[i as int],
                    p0 == e.0,
                    ks == e.1@,
                    pairs@ == flat_pairs(mv.subrange(0, i as int)) + kinds_pairs(
                        p0,
                        ks.subrange(0, j as int),
                    ),
                decreases e.1.len() - j,
            {
                proof {
                    assert(ks.subrange(0, j as int + 1).drop_last() =~~= ks.subrange(0, j as int));
                    assert(ks.subrange(0, j as int + 1).last() == ks[j as int]);
                }
                pairs.push((e.0, e.1[j]));
                j = j + 1;
            }
            proof {
                assert(ks.subrange(0, ks.len() as int) =~~= ks);
                assert(mv.subrange(0, i as int + 1).drop_last() =~~= mv.subrange(0, i as int));
                assert(mv.subrange(0, i as int + 1).last() == mv[i as int]);
            }
            i = i + 1;
        }
        let ghost fp = flat_pairs(mv);
        proof {
            assert(mv.subrange(0, mv.len() as int) =~~= mv);
            assert(pairs@ == fp);
        }

        // Join every pair onto every target root.
        let mut cands: Vec<Vec<String>> = Vec::new();
        let mut ti: usize = 0;
        proof {
            assert(tsv.subrange(0, 0) =~~= Seq::<Seq<Seq<char>>>::empty());
            assert(paths_view(cands@) =~~= all_candidates(tsv.subrange(0, 0), fp));
        }
        while ti < targets.len()
            invariant
                0 <= ti <= targets.len(),
                tsv == paths_view(targets@),
                tsv.len() == targets.len(),
                pairs@ == fp,
                paths_view(cands@) == all_candidates(tsv.subrange(0, ti as int), fp),
            decreases targets.len() - ti,
        {
            let t = &targets[ti];
            let ghost tv = tsv[ti as int];
            proof {
                assert(tv == path_view(targets@[ti as int]));
                assert(fp.subrange(0, 0) =~~= Seq::<(Profile, TargetKind)>::empty());
                assert(target_candidates(tv, fp.subrange(0, 0)) =~~= Seq::<
                    Seq<Seq<char>>,
                >::empty());
                assert(paths_view(cands@) + target_candidates(tv, fp.subrange(0, 0)) =~~= paths_view(
                    cands@,
                ));
            }
            let mut pi: usize = 0;
            while pi < pairs.len()
                invariant
                    0 <= pi <= pairs.len(),
                    tsv == paths_view(targets@),
                    tsv.len() == targets.len(),
                    ti < targets.len(),
                    tv == tsv[ti as int],
                    tv == path_view(targets@[ti as int]),
                    pairs@ == fp,
                    paths_view(cands@) == all_candidates(tsv.subrange(0, ti as int), fp)
                        + target_candidates(tv, fp.subrange(0, pi as int)),
                decreases pairs.len() - pi,
            {
                let pr = pairs[pi];
                let mut cand = clone_path(&targets[ti]);
                match pr.0.as_str() {
                    Some(s) => {
                        cand.push(s.to_owned());
                        proof {
                            assert(path_view(cand) =~~= tv + pr.0.comps());
                        }
                    },
                    None => {
                        proof {
                            assert(path_view(cand) =~~= tv + pr.0.comps());
                        }
                    },
                }
                let ghost base = path_view(cand);
                match pr.1.as_str() {
                    Some(s) => {
                        cand.push(s.to_owned());
                        proof {
                            assert(path_view(cand) =~~= base + pr.1.comps());
                        }
                    },
                    None => {
                        proof {
                            assert(path_view(cand) =~~= base + pr.1.comps());
                        }
                    },
                }
                proof {
                    assert(path_view(cand) =~~= candidate(tv, pr.0, pr.1));
                    assert(fp.subrange(0, pi as int + 1).drop_last() =~~= fp.subrange(0, pi as int));
                    assert(fp.subrange(0, pi as int + 1).last() == fp[pi as int]);
                }
                let ghost before = paths_view(cands@);
                cands.push(cand);
                proof {
                    assert(paths_view(cands@) =~~= before.push(candidate(tv, pr.0, pr.1)));
                    assert(paths_view(cands@) =~~= all_candidates(tsv.subrange(0, ti as int), fp)
                        + target_candidates(tv, fp.subrange(0, pi as int + 1)));
                }
                pi = pi + 1;
            }
            proof {
                assert(fp.subrange(0, fp.len() as int) =~~= fp);
                assert(tsv.subrange(0, ti as int + 1).drop_last() =~~= tsv.subrange(0, ti as int));
                assert(tsv.subrange(0, ti as int + 1).last() == tsv[ti as int]);
            }
            ti = ti + 1;
        }
        let ghost allc = all_candidates(tsv, fp);
        proof {
            assert(tsv.subrange(0, tsv.len() as int) =~~= tsv);
            assert(paths_view(cands@) == allc);
        }

        // Keep the candidates that exist as directories, first occurrence only.
        let mut out: Vec<Vec<String>> = Vec::new();
        let mut ci: usize = 0;
        proof {
            assert(allc.subrange(0, 0) =~~= Seq::<Seq<Seq<char>>>::empty());
            assert(paths_view(out@) =~~= dedup(existing(*tree, allc.subrange(0, 0))));
        }
        while ci < cands.len()
            invariant
                0 <= ci <= cands.len(),
                paths_view(cands@) == allc,
                cands@.len() == allc.len(),
                paths_view(out@) == dedup(existing(*tree, allc.subrange(0, ci as int))),
            decreases cands.len() - ci,
        {
            let ghost cv = allc[ci as int];
            let ghost ex = existing(*tree, allc.subrange(0, ci as int));
            proof {
                assert(cv == path_view(cands@[ci as int]));
                assert(allc.subrange(0, ci as int + 1).drop_last() =~~= allc.subrange(
                    0,
                    ci as int,
                ));
                assert(allc.subrange(0, ci as int + 1).last() == cv);
                lemma_dedup_membership(ex);
            }
            if is_dir_at(tree, &cands[ci]) {
                proof {
                    assert(existing(*tree, allc.subrange(0, ci as int + 1)) =~~= ex.push(cv));
                    assert(ex.push(cv).drop_last() =~~= ex);
                }
                if !contains_path(&out, &cands[ci]) {
                    let ghost before = paths_view(out@);
                    out.push(clone_path(&cands[ci]));
                    proof {
                        assert(paths_view(out@) =~~= before.push(cv));
                    }
                }
            } else {
                proof {
                    assert(existing(*tree, allc.subrange(0, ci as int + 1)) =~~= ex);
                }
            }
            ci = ci + 1;
        }
        proof {
            assert(allc.subrange(0, allc.len() as int) =~~= allc);
            lemma_dedup_distinct(existing(*tree, allc));
        }
        out
    }
}

} // verus!
