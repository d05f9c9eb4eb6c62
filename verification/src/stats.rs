use vstd::prelude::*;
use crate::tree::{clone_path, contains_path, dedup, lemma_dedup_membership, lookup, node_at,
    path_view, paths_view, FsNode};
use crate::util::{commaize, dec_seq, fix_display_path, humanize, pad_left, spec_commaize,
    spec_display_path, spec_humanize, spec_pad_left, to_decimal};
use vstd::string::StringExecFns;

verus! {

/// Aggregate statistics for one directory: total byte size of the regular
/// files below it, how many such files there are, and how many directories
/// lie strictly below it (the directory itself is not counted).
#[derive(Debug, Copy, Clone, PartialEq, Eq, Hash, Structural)]
pub struct Record {
    pub size: u64,
    pub files: u64,
    pub directories: u64,
}

/// Saturating addition on one counter: counts never overflow, they cap.
pub open spec fn sat_add(x: u64, y: u64) -> u64 {
    if x + y > u64::MAX {
        u64::MAX
    } else {
        (x + y) as u64
    }
}

impl Record {
    pub open spec fn spec_zero() -> Record {
        Record { size: 0, files: 0, directories: 0 }
    }

    /// Component-wise saturating addition of two records.
    pub open spec fn spec_plus(self, other: Record) -> Record {
        Record {
            size: sat_add(self.size, other.size),
            files: sat_add(self.files, other.files),
            directories: sat_add(self.directories, other.directories),
        }
    }

    pub fn zero() -> (r: Record)
        ensures
            r == Record::spec_zero(),
    {
        Record { size: 0, files: 0, directories: 0 }
    }

    /// Add another record's counters into this one, saturating at the top.
    pub fn plus(self, other: Record) -> (r: Record)
        ensures
            r == self.spec_plus(other),
    {
        Record {
            size: self.size.saturating_add(other.size),
            files: self.files.saturating_add(other.files),
            directories: self.directories.saturating_add(other.directories),
        }
    }
}

impl Default for Record {
    fn default() -> (r: Record)
        ensures
            r == Record::spec_zero(),
    {
        Record::zero()
    }
}

/// Record addition is commutative: accumulating in any order gives the same
/// totals.
pub proof fn lemma_record_plus_commutative(a: Record, b: Record)
    ensures
        a.spec_plus(b) == b.spec_plus(a),
{
}

/// Record addition is associative: accumulating over any partition of the
/// entries gives the same totals.
pub proof fn lemma_record_plus_associative(a: Record, b: Record, c: Record)
    ensures
        a.spec_plus(b).spec_plus(c) == a.spec_plus(b.spec_plus(c)),
{
}

/// The zero record is the identity of record addition.
pub proof fn lemma_record_plus_zero(a: Record)
    ensures
        a.spec_plus(Record::spec_zero()) == a,
        Record::spec_zero().spec_plus(a) == a,
{
}

/// What one child entry contributes to the record of the directory holding
/// it: a file brings its size and one file; a directory brings itself plus
/// everything below it.
pub open spec fn node_total(n: FsNode) -> Record
    decreases n,
{
    match n {
        FsNode::File { size, .. } => Record { size, files: 1, directories: 0 },
        FsNode::Dir { children, .. } => Record {
            size: 0,
            files: 0,
            directories: 1,
        }.spec_plus(list_total(children@)),
    }
}

/// The combined contribution of a list of child entries.
pub open spec fn list_total(cs: Seq<FsNode>) -> Record
    decreases cs,
{
    if cs.len() == 0 {
        Record::spec_zero()
    } else {
        list_total(cs.drop_last()).spec_plus(node_total(cs.last()))
    }
}

/// The record reported for a node handed to the aggregator: for a directory,
/// everything strictly below it; for a plain file, the file itself.
pub open spec fn dir_total(n: FsNode) -> Record {
    match n {
        FsNode::File { .. } => node_total(n),
        FsNode::Dir { children, .. } => list_total(children@),
    }
}

fn node_total_exec(n: &FsNode) -> (r: Record)
    ensures
        r == node_total(*n),
    decreases *n,
{
    match n {
        FsNode::File { size, .. } => Record { size: *size, files: 1, directories: 0 },
        FsNode::Dir { children, .. } => {
            let base = Record { size: 0, files: 0, directories: 1 };
            base.plus(list_total_exec(children))
        },
    }
}

fn list_total_exec(cs: &Vec<FsNode>) -> (r: Record)
    ensures
        r == list_total(cs@),
    decreases cs@,
{
    let mut acc = Record::zero();
    let mut i: usize = 0;
    proof {
        assert(cs@.subrange(0, 0) =~= Seq::<FsNode>::empty());
    }
    while i < cs.len()
        invariant
            0 <= i <= cs.len(),
            acc == list_total(cs@.subrange(0, i as int)),
        decreases cs.len() - i,
    {
        proof {
            assert(cs@.subrange(0, i as int + 1).drop_last() =~= cs@.subrange(0, i as int));
            assert(cs@.subrange(0, i as int + 1).last() == cs@[i as int]);
        }
        acc = acc.plus(node_total_exec(&cs[i]));
        i = i + 1;
    }
    proof {
        assert(cs@.subrange(0, cs@.len() as int) =~= cs@);
    }
    acc
}

/// The record computed for one path: the aggregate of the directory (or
/// single file) the path leads to, and all-zero where the path leads nowhere.
pub open spec fn record_at(root: FsNode, path: Seq<Seq<char>>) -> Record {
    match lookup(root, path) {
        Some(n) => dir_total(n),
        None => Record::spec_zero(),
    }
}

/// Aggregate one node handed to the aggregator.
pub fn sum_target(n: &FsNode) -> (r: Record)
    ensures
        r == dir_total(*n),
{
    match n {
        FsNode::File { .. } => node_total_exec(n),
        FsNode::Dir { children, .. } => list_total_exec(children),
    }
}

/// The view of an aggregation result: each path with its record.
pub open spec fn stats_view(s: Seq<(Vec<String>, Record)>) -> Seq<(Seq<Seq<char>>, Record)> {
    s.map_values(|e: (Vec<String>, Record)| (path_view(e.0), e.1))
}

/// What `sum_targets` returns: each distinct path of the input, in
/// first-occurrence order, with the record aggregated below it.
pub open spec fn spec_sum_targets(root: FsNode, ts: Seq<Seq<Seq<char>>>) -> Seq<
    (Seq<Seq<char>>, Record),
> {
    dedup(ts).map_values(|p: Seq<Seq<char>>| (p, record_at(root, p)))
}

/// Aggregate every distinct directory of the list: a path appearing twice is
/// summed exactly once, and a path leading nowhere yields the zero record.
pub fn sum_targets(tree: &FsNode, targets: &Vec<Vec<String>>) -> (r: Vec<(Vec<String>, Record)>)
    ensures
        stats_view(r@) == spec_sum_targets(*tree, paths_view(targets@)),
{
    let ghost tsv = paths_view(targets@);
    let mut seen: Vec<Vec<String>> = Vec::new();
    let mut out: Vec<(Vec<String>, Record)> = Vec::new();
    let mut i: usize = 0;
    proof {
        assert(tsv.subrange(0, 0) =~~= Seq::<Seq<Seq<char>>>::empty());
        assert(paths_view(seen@) =~~= dedup(tsv.subrange(0, 0)));
        assert(stats_view(out@) =~~= spec_sum_targets(*tree, tsv.subrange(0, 0)));
    }
    while i < targets.len()
        invariant
            0 <= i <= targets.len(),
            tsv == paths_view(targets@),
            tsv.len() == targets.len(),
            paths_view(seen@) == dedup(tsv.subrange(0, i as int)),
            stats_view(out@) == spec_sum_targets(*tree, tsv.subrange(0, i as int)),
        decreases targets.len() - i,
    {
        let ghost pv = tsv[i as int];
        let ghost pre = tsv.subrange(0, i as int);
        proof {
            assert(pv == path_view(targets@[i as int]));
            assert(tsv.subrange(0, i as int + 1).drop_last() =~~= pre);
            assert(tsv.subrange(0, i as int + 1).last() == pv);
            lemma_dedup_membership(pre);
        }
        if !contains_path(&seen, &targets[i]) {
            let rec = match node_at(tree, &targets[i]) {
                Some(n) => sum_target(n),
                None => Record::zero(),
            };
            seen.push(clone_path(&targets[i]));
            let ghost before = stats_view(out@);
            out.push((clone_path(&targets[i]), rec));
            proof {
                assert(paths_view(seen@) =~~= dedup(pre).push(pv));
                assert(stats_view(out@) =~~= before.push((pv, record_at(*tree, pv))));
                assert(stats_view(out@) =~~= spec_sum_targets(*tree, tsv.subrange(0, i as int + 1)));
            }
        } else {
            proof {
                assert(dedup(tsv.subrange(0, i as int + 1)) == dedup(pre));
            }
        }
        i = i + 1;
    }
    proof {
        assert(tsv.subrange(0, tsv.len() as int) =~~= tsv);
    }
    out
}

/// The full record order: by size first, then files, then directories.
pub open spec fn record_le(a: Record, b: Record) -> bool {
    if a.size != b.size {
        a.size < b.size
    } else if a.files != b.files {
        a.files < b.files
    } else {
        a.directories <= b.directories
    }
}

impl Record {
    /// Compare two records, size first, then files, then directories.
    pub fn le(&self, other: &Record) -> (r: bool)
        ensures
            r == record_le(*self, *other),
    {
        if self.size != other.size {
            self.size < other.size
        } else if self.files != other.files {
            self.files < other.files
        } else {
            self.directories <= other.directories
        }
    }
}

/// Order the aggregation results for display, largest consumers first: the
/// same entries, sorted descending by their records.
pub fn sort_stats(stats: Vec<(Vec<String>, Record)>) -> (r: Vec<(Vec<String>, Record)>)
    ensures
        r@.to_multiset() == stats@.to_multiset(),
        r@.len() == stats@.len(),
        forall|i: int, j: int|
            0 <= i <= j < r@.len() ==> record_le(#[trigger] r@[j].1, #[trigger] r@[i].1),
{
    broadcast use vstd::seq_lib::group_to_multiset_ensures;

    let mut src = stats;
    let mut r: Vec<(Vec<String>, Record)> = Vec::new();
    proof {
        assert(r@.to_multiset().add(src@.to_multiset()) =~= stats@.to_multiset());
    }
    while src.len() > 0
        invariant
            r@.to_multiset().add(src@.to_multiset()) == stats@.to_multiset(),
            r@.len() + src@.len() == stats@.len(),
            forall|i: int, j: int|
                0 <= i <= j < r@.len() ==> record_le(#[trigger] r@[j].1, #[trigger] r@[i].1),
            forall|i: int, j: int|
                0 <= i < r@.len() && 0 <= j < src@.len() ==> record_le(
                    #[trigger] src@[j].1,
                    #[trigger] r@[i].1,
                ),
        decreases src.len(),
    {
        let mut mi: usize = 0;
        let mut t: usize = 1;
        while t < src.len()
            invariant
                0 <= mi < src@.len(),
                mi < t <= src@.len(),
                forall|u: int| 0 <= u < t ==> record_le(#[trigger] src@[u].1, src@[mi as int].1),
            decreases src.len() - t,
        {
            if src[mi].1.le(&src[t].1) {
                mi = t;
            }
            t = t + 1;
        }
        let ghost old_src = src@;
        let ghost old_r = r@;
        let e = src.remove(mi);
        r.push(e);
        proof {
            assert(old_src[mi as int] == e);
            assert(old_src.contains(e));
            vstd::seq_lib::to_multiset_remove(old_src, mi as int);
            vstd::seq_lib::to_multiset_build(old_r, e);
            vstd::seq_lib::to_multiset_contains(old_src, e);
            assert(src@.to_multiset() =~= old_src.to_multiset().remove(e));
            assert(r@.to_multiset() =~= old_r.to_multiset().insert(e));
            assert(r@.to_multiset().add(src@.to_multiset()) =~= old_r.to_multiset().add(
                old_src.to_multiset(),
            ));
            assert forall|i: int, j: int|
                0 <= i < r@.len() && 0 <= j < src@.len() implies record_le(
                #[trigger] src@[j].1,
                #[trigger] r@[i].1,
            ) by {
                if j < mi as int {
                    assert(src@[j] == old_src[j]);
                } else {
                    assert(src@[j] == old_src[j + 1]);
                }
                if i < old_r.len() {
                    assert(r@[i] == old_r[i]);
                } else {
                    assert(r@[i] == e);
                }
            }
        }
    }
    proof {
        assert(src@.to_multiset().len() == 0);
        assert(r@.to_multiset() =~= r@.to_multiset().add(src@.to_multiset()));
    }
    r
}

/// One labelled value of a report: the label right-aligned to five columns,
/// a separating colon, the value right-aligned to ten columns.
pub open spec fn stat_line(label: Seq<char>, value: Seq<char>) -> Seq<char> {
    spec_pad_left(label, 5) + ": "@ + spec_pad_left(value, 10) + seq!['\n']
}

/// The block printed for one directory: its path, then its size, file count
/// and directory count, each formatted for reading.
pub open spec fn entry_block(p: Seq<Seq<char>>, rec: Record) -> Seq<char> {
    spec_display_path(p) + seq!['\n'] + stat_line("size"@, spec_humanize(rec.size as nat))
        + stat_line("files"@, spec_commaize(rec.files as nat)) + stat_line(
        "dirs"@,
        spec_commaize(rec.directories as nat),
    )
}

/// The blocks of all entries, in order.
pub open spec fn entry_blocks(s: Seq<(Seq<Seq<char>>, Record)>) -> Seq<char>
    decreases s.len(),
{
    if s.len() == 0 {
        Seq::<char>::empty()
    } else {
        entry_blocks(s.drop_last()) + entry_block(s.last().0, s.last().1)
    }
}

/// The grand total over all entries' records.
pub open spec fn records_total(s: Seq<(Seq<Seq<char>>, Record)>) -> Record
    decreases s.len(),
{
    if s.len() == 0 {
        Record::spec_zero()
    } else {
        records_total(s.drop_last()).spec_plus(s.last().1)
    }
}

/// A run of dashes.
pub open spec fn dashes(n: nat) -> Seq<char>
    decreases n,
{
    if n == 0 {
        Seq::<char>::empty()
    } else {
        dashes((n - 1) as nat) + seq!['-']
    }
}

/// The whole report: one block per entry, a separator line, then the entry
/// count and the grand totals.
pub open spec fn spec_render_stats(s: Seq<(Seq<Seq<char>>, Record)>, count: nat) -> Seq<char> {
    let tot = records_total(s);
    entry_blocks(s) + dashes(40) + seq!['\n'] + "in "@ + dec_seq(count)
        + " top-level directories:"@ + seq!['\n'] + stat_line(
        "size"@,
        spec_humanize(tot.size as nat),
    ) + stat_line("files"@, spec_commaize(tot.files as nat)) + stat_line(
        "dirs"@,
        spec_commaize(tot.directories as nat),
    )
}

fn push_stat_line(r: &mut String, label: &str, value: &String)
    ensures
        final(r)@ == old(r)@ + stat_line(label@, value@),
{
    let l = pad_left(label, 5);
    r.append(l.as_str());
    r.append(": ");
    let v = pad_left(value.as_str(), 10);
    r.append(v.as_str());
    r.append("\n");
    proof {
        reveal_strlit(": ");
        reveal_strlit("\n");
        assert(r@ =~= old(r)@ + stat_line(label@, value@));
    }
}

/// Render the report for the given entries; `count` is the number of
/// top-level directories it covers.
pub fn render_stats(stats: &Vec<(Vec<String>, Record)>, count: usize) -> (r: String)
    ensures
        r@ == spec_render_stats(stats_view(stats@), count as nat),
{
    let ghost sv = stats_view(stats@);
    let mut r = String::new();
    let mut tot = Record::zero();
    let mut i: usize = 0;
    proof {
        assert(sv.subrange(0, 0) =~~= Seq::<(Seq<Seq<char>>, Record)>::empty());
        assert(r@ =~= entry_blocks(sv.subrange(0, 0)));
    }
    while i < stats.len()
        invariant
            0 <= i <= stats.len(),
            sv == stats_view(stats@),
            sv.len() == stats.len(),
            r@ == entry_blocks(sv.subrange(0, i as int)),
            tot == records_total(sv.subrange(0, i as int)),
        decreases stats.len() - i,
    {
        let ghost pre = sv.subrange(0, i as int);
        proof {
            assert(sv.subrange(0, i as int + 1).drop_last() =~~= pre);
            assert(sv.subrange(0, i as int + 1).last() == sv[i as int]);
            assert(sv[i as int] == (path_view(stats@[i as int].0), stats@[i as int].1));
        }
        let e = &stats[i];
        tot = tot.plus(e.1);
        let p = fix_display_path(&e.0);
        r.append(p.as_str());
        r.append("\n");
        push_stat_line(&mut r, "size", &humanize(e.1.size));
        push_stat_line(&mut r, "files", &commaize(e.1.files));
        push_stat_line(&mut r, "dirs", &commaize(e.1.directories));
        proof {
            reveal_strlit("\n");
            assert(r@ =~= entry_blocks(sv.subrange(0, i as int + 1)));
        }
        i = i + 1;
    }
    proof {
        assert(sv.subrange(0, sv.len() as int) =~~= sv);
    }
    let mut d: usize = 0;
    let ghost mid = r@;
    while d < 40
        invariant
            0 <= d <= 40,
            r@ == mid + dashes(d as nat),
        decreases 40 - d,
    {
        r.append("-");
        proof {
            reveal_strlit("-");
            assert(r@ =~= mid + dashes(d as nat + 1));
        }
        d = d + 1;
    }
    r.append("\n");
    r.append("in ");
    let c = to_decimal(count as u64);
    r.append(c.as_str());
    r.append(" top-level directories:");
    r.append("\n");
    push_stat_line(&mut r, "size", &humanize(tot.size));
    push_stat_line(&mut r, "files", &commaize(tot.files));
    push_stat_line(&mut r, "dirs", &commaize(tot.directories));
    proof {
        reveal_strlit("\n");
        reveal_strlit("in ");
        reveal_strlit(" top-level directories:");
        assert(r@ =~= spec_render_stats(sv, count as nat));
    }
    r
}

} // verus!
