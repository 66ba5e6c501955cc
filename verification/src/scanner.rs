//! The discovery-and-aggregation pipeline.
//!
//! A scan works in three phases over a snapshot of the directory tree:
//! discovery walks every directory and records the first strategy that
//! matches it; deduplication orders the candidates ancestors-first and
//! drops any candidate lying under an already accepted candidate's named
//! artifact directory; sizing resolves each accepted candidate's existing
//! artifact directories and sums the bytes of the files under them.

use vstd::prelude::*;
use crate::path::DirPath;
use crate::path::is_prefix_of;
use crate::snapshot::DirV;
use crate::snapshot::FsDir;
use crate::snapshot::dir_at;
use crate::snapshot::dir_at_exec;
use crate::snapshot::dv_size;
use crate::snapshot::find_sub;
use crate::snapshot::paths_v;
use crate::snapshot::targets_size;
use crate::snapshot::targets_size_exec;
use crate::strategy::StrategyKind;
use crate::strategy::RiskLevel;
use crate::strategy::kind_detects;
use crate::strategy::kind_name_chars;
use crate::strategy::kind_risk;
use crate::strategy::kind_risk_level;
use crate::strategy::kind_target_paths;
use crate::strategy::kind_targets;
use crate::strategy::detect_kind;

verus! {

/// A discovered project whose artifacts can be reclaimed.
pub struct CleanableProject {
    /// Absolute path of the project root.
    pub root_path: DirPath,
    /// The strategy that matched it.
    pub kind: StrategyKind,
    /// Absolute paths of the artifact directories that exist.
    pub targets: Vec<DirPath>,
    /// Bytes of the regular files under the existing artifact directories.
    pub total_size: u64,
    /// Risk of deleting the artifacts.
    pub risk_level: RiskLevel,
}

/// Mathematical image of a discovered project.
#[verifier::ext_equal]
pub struct ProjV {
    pub root_path: Seq<Seq<u8>>,
    pub kind: StrategyKind,
    pub targets: Seq<Seq<Seq<u8>>>,
    pub total_size: u64,
    pub risk_level: RiskLevel,
}

impl View for CleanableProject {
    type V = ProjV;

    open spec fn view(&self) -> ProjV {
        ProjV {
            root_path: self.root_path@,
            kind: self.kind,
            targets: paths_v(self.targets@),
            total_size: self.total_size,
            risk_level: self.risk_level,
        }
    }
}

/// The views of a list of projects.
pub open spec fn projs_v(s: Seq<CleanableProject>) -> Seq<ProjV> {
    s.map_values(|p: CleanableProject| p@)
}

impl CleanableProject {
    /// Display name of the strategy that matched this project.
    pub fn strategy_name(&self) -> (r: &'static str)
        ensures
            r@ == kind_name_chars(self.kind),
    {
        crate::strategy::kind_name(self.kind)
    }
}

impl Clone for CleanableProject {
    fn clone(&self) -> (r: Self)
        ensures
            r@ == self@,
    {
        let mut targets: Vec<DirPath> = Vec::new();
        let mut i: usize = 0;
        while i < self.targets.len()
            invariant
                0 <= i <= self.targets@.len(),
                targets@.len() == i,
                paths_v(targets@) =~= paths_v(self.targets@).take(i as int),
                paths_v(self.targets@).len() == self.targets@.len(),
                forall|j: int|
                    0 <= j < self.targets@.len() ==> paths_v(self.targets@)[j]
                        == self.targets@[j]@,
            decreases self.targets.len() - i,
        {
            targets.push(self.targets[i].clone());
            proof {
                assert(paths_v(targets@) =~= paths_v(self.targets@).take(i + 1));
            }
            i = i + 1;
        }
        proof {
            assert(paths_v(self.targets@).take(self.targets@.len() as int) =~= paths_v(
                self.targets@,
            ));
        }
        let r = CleanableProject {
            root_path: self.root_path.clone(),
            kind: self.kind,
            targets,
            total_size: self.total_size,
            risk_level: self.risk_level,
        };
        proof {
            assert(r@ =~= self@);
        }
        r
    }
}

/// Events a scan reports while it runs: best-effort progress, one event
/// per accepted project, and a single terminal completion.
pub enum ScanEvent {
    Scanning(String),
    ProjectFound(CleanableProject),
    Complete,
}

/// A directory matched by a strategy, before deduplication. Its path is
/// relative to the scan root.
pub struct Candidate {
    pub rel: DirPath,
    pub kind: StrategyKind,
}

/// Mathematical image of a candidate.
#[verifier::ext_equal]
pub struct CandV {
    pub rel: Seq<Seq<u8>>,
    pub kind: StrategyKind,
}

impl View for Candidate {
    type V = CandV;

    open spec fn view(&self) -> CandV {
        CandV { rel: self.rel@, kind: self.kind }
    }
}

/// The views of a list of candidates.
pub open spec fn cands_v(s: Seq<Candidate>) -> Seq<CandV> {
    s.map_values(|c: Candidate| c@)
}

impl Clone for Candidate {
    fn clone(&self) -> (r: Self)
        ensures
            r@ == self@,
    {
        Candidate { rel: self.rel.clone(), kind: self.kind }
    }
}

/// The first strategy in the list that matches the directory.
pub open spec fn first_match(ks: Seq<StrategyKind>, v: DirV) -> Option<StrategyKind>
    decreases ks,
{
    if ks.len() == 0 {
        None
    } else if kind_detects(ks[0], v) {
        Some(ks[0])
    } else {
        first_match(ks.drop_first(), v)
    }
}

/// Every candidate of the subtree rooted at `v`, in pre-order: the
/// directory itself where a strategy matches it, then its subdirectories.
/// `rel` is the path from the scan root to `v`.
pub open spec fn spec_candidates(v: DirV, rel: Seq<Seq<u8>>, ks: Seq<StrategyKind>) -> Seq<CandV>
    decreases v, 1int,
{
    let own: Seq<CandV> = match first_match(ks, v) {
        Some(k) => seq![CandV { rel, kind: k }],
        None => Seq::empty(),
    };
    own + spec_candidates_subs(v.subdirs, rel, ks)
}

pub open spec fn spec_candidates_subs(
    s: Seq<DirV>,
    rel: Seq<Seq<u8>>,
    ks: Seq<StrategyKind>,
) -> Seq<CandV>
    decreases s, 0int,
{
    if s.len() == 0 {
        Seq::empty()
    } else {
        spec_candidates(s[0], rel.push(s[0].name), ks) + spec_candidates_subs(
            s.drop_first(),
            rel,
            ks,
        )
    }
}

pub proof fn lemma_spec_candidates_subs_append(
    a: Seq<DirV>,
    b: Seq<DirV>,
    rel: Seq<Seq<u8>>,
    ks: Seq<StrategyKind>,
)
    ensures
        spec_candidates_subs(a + b, rel, ks) == spec_candidates_subs(a, rel, ks)
            + spec_candidates_subs(b, rel, ks),
    decreases a,
{
    if a.len() == 0 {
        assert(a + b =~= b);
        assert(spec_candidates_subs(a, rel, ks) + spec_candidates_subs(b, rel, ks)
            =~= spec_candidates_subs(b, rel, ks));
    } else {
        assert((a + b).drop_first() =~= a.drop_first() + b);
        lemma_spec_candidates_subs_append(a.drop_first(), b, rel, ks);
        assert(spec_candidates_subs(a + b, rel, ks) =~= spec_candidates_subs(a, rel, ks)
            + spec_candidates_subs(b, rel, ks));
    }
}

fn first_match_exec(ks: &Vec<StrategyKind>, d: &FsDir) -> (r: Option<StrategyKind>)
    ensures
        r == first_match(ks@, d@),
{
    proof {
        assert(ks@.skip(0) =~= ks@);
    }
    first_match_from(ks, d, 0)
}

fn first_match_from(ks: &Vec<StrategyKind>, d: &FsDir, i: usize) -> (r: Option<StrategyKind>)
    requires
        i <= ks.len(),
    ensures
        r == first_match(ks@.skip(i as int), d@),
    decreases ks.len() - i,
{
    proof {
        if i < ks.len() {
            assert(ks@.skip(i as int)[0] == ks@[i as int]);
            assert(ks@.skip(i as int).drop_first() =~= ks@.skip(i + 1));
        }
    }
    if i == ks.len() {
        None
    } else if detect_kind(ks[i], d) {
        Some(ks[i])
    } else {
        first_match_from(ks, d, i + 1)
    }
}

/// Discovery: walks the subtree of `d` and appends every candidate, in
/// pre-order, to `out`.
fn discover(d: &FsDir, rel: &DirPath, ks: &Vec<StrategyKind>, out: &mut Vec<Candidate>)
    ensures
        cands_v(final(out)@) == cands_v(old(out)@) + spec_candidates(d@, rel@, ks@),
    decreases *d,
{
    let ghost base = cands_v(old(out)@);
    match first_match_exec(ks, d) {
        Some(k) => {
            out.push(Candidate { rel: rel.clone(), kind: k });
        },
        None => {
        },
    }
    proof {
        crate::snapshot::lemma_dirs_v_index(d.subdirs@);
        assert(cands_v(out@) =~= base + spec_candidates(d@, rel@, ks@).take(
            spec_candidates(d@, rel@, ks@).len() - spec_candidates_subs(
                d@.subdirs,
                rel@,
                ks@,
            ).len(),
        ));
    }
    let ghost own_len = spec_candidates(d@, rel@, ks@).len() - spec_candidates_subs(
        d@.subdirs,
        rel@,
        ks@,
    ).len();
    let mut k: usize = 0;
    while k < d.subdirs.len()
        invariant
            0 <= k <= d.subdirs.len(),
            d@.subdirs.len() == d.subdirs@.len(),
            forall|j: int|
                0 <= j < d.subdirs@.len() ==> d@.subdirs[j] == crate::snapshot::dir_v(
                    d.subdirs@[j],
                ),
            cands_v(out@) =~= base + spec_candidates(d@, rel@, ks@).take(own_len)
                + spec_candidates_subs(d@.subdirs.take(k as int), rel@, ks@),
        decreases d.subdirs.len() - k,
    {
        let mut child_rel = rel.clone();
        child_rel.push_seg(crate::path::clone_bytes(&d.subdirs[k].name));
        proof {
            assert(child_rel@ == rel@.push(d@.subdirs[k as int].name));
            assert(d@.subdirs.take(k + 1) =~= d@.subdirs.take(k as int) + seq![
                d@.subdirs[k as int],
            ]);
            lemma_spec_candidates_subs_append(
                d@.subdirs.take(k as int),
                seq![d@.subdirs[k as int]],
                rel@,
                ks@,
            );
            assert(spec_candidates_subs(seq![d@.subdirs[k as int]], rel@, ks@) =~= spec_candidates(
                d@.subdirs[k as int],
                rel@.push(d@.subdirs[k as int].name),
                ks@,
            )) by {
                assert(seq![d@.subdirs[k as int]].drop_first() =~= Seq::<DirV>::empty());
                assert(spec_candidates_subs(Seq::<DirV>::empty(), rel@, ks@)
                    =~= Seq::<CandV>::empty());
            }
        }
        discover(&d.subdirs[k], &child_rel, ks, out);
        proof {
            assert(cands_v(out@) =~= base + spec_candidates(d@, rel@, ks@).take(own_len)
                + spec_candidates_subs(d@.subdirs.take(k + 1), rel@, ks@));
        }
        k = k + 1;
    }
    proof {
        assert(d@.subdirs.take(d.subdirs@.len() as int) =~= d@.subdirs);
        assert(spec_candidates(d@, rel@, ks@).take(own_len) + spec_candidates_subs(
            d@.subdirs,
            rel@,
            ks@,
        ) =~= spec_candidates(d@, rel@, ks@));
        assert(cands_v(out@) =~= base + spec_candidates(d@, rel@, ks@));
    }
}

} // verus!

verus! {

/// Inserts a candidate behind every element of no greater depth: the
/// insertion step of a stable sort by component count.
pub open spec fn insert_by_depth(s: Seq<CandV>, c: CandV) -> Seq<CandV>
    decreases s,
{
    if s.len() == 0 {
        seq![c]
    } else if s.last().rel.len() <= c.rel.len() {
        s.push(c)
    } else {
        insert_by_depth(s.drop_last(), c).push(s.last())
    }
}

/// Stable sort of the candidates by depth, ascending: ancestors come
/// before descendants, candidates of equal depth keep discovery order.
pub open spec fn sort_by_depth(s: Seq<CandV>) -> Seq<CandV>
    decreases s,
{
    if s.len() == 0 {
        Seq::empty()
    } else {
        insert_by_depth(sort_by_depth(s.drop_last()), s.last())
    }
}

/// Ascending depth over the whole sequence.
pub open spec fn depth_sorted(s: Seq<CandV>) -> bool {
    forall|i: int, j: int| 0 <= i < j < s.len() ==> s[i].rel.len() <= s[j].rel.len()
}

/// Where the insertion point is known, the insertion step is a splice.
pub proof fn lemma_insert_by_depth_at(s: Seq<CandV>, c: CandV, j: int)
    requires
        0 <= j <= s.len(),
        forall|k: int| j <= k < s.len() ==> s[k].rel.len() > c.rel.len(),
        j > 0 ==> s[j - 1].rel.len() <= c.rel.len(),
    ensures
        insert_by_depth(s, c) == s.take(j).push(c) + s.skip(j),
    decreases s,
{
    if s.len() == 0 {
        assert(insert_by_depth(s, c) =~= s.take(j).push(c) + s.skip(j));
    } else if j == s.len() {
        assert(s.take(j) =~= s);
        assert(s.skip(j) =~= Seq::<CandV>::empty());
        assert(insert_by_depth(s, c) =~= s.take(j).push(c) + s.skip(j));
    } else {
        assert(s.last().rel.len() > c.rel.len());
        lemma_insert_by_depth_at(s.drop_last(), c, j);
        assert(s.drop_last().take(j) =~= s.take(j));
        assert(insert_by_depth(s.drop_last(), c).push(s.last()) =~= s.take(j).push(c) + s.skip(j))
            by {
            assert(s.drop_last().skip(j).push(s.last()) =~= s.skip(j));
        }
    }
}

pub proof fn lemma_insert_by_depth_sorted(s: Seq<CandV>, c: CandV)
    requires
        depth_sorted(s),
    ensures
        depth_sorted(insert_by_depth(s, c)),
        insert_by_depth(s, c).len() == s.len() + 1,
        forall|x: CandV| insert_by_depth(s, c).contains(x) ==> s.contains(x) || x == c,
    decreases s,
{
    if s.len() == 0 {
    } else if s.last().rel.len() <= c.rel.len() {
        assert forall|x: CandV| insert_by_depth(s, c).contains(x) implies s.contains(x) || x
            == c by {
            let i = choose|i: int| 0 <= i < s.push(c).len() && s.push(c)[i] == x;
            if i < s.len() {
                assert(s[i] == x);
            }
        }
    } else {
        assert(depth_sorted(s.drop_last())) by {
            assert(forall|i: int, j: int|
                0 <= i < j < s.drop_last().len() ==> s.drop_last()[i] == s[i] && s.drop_last()[j]
                    == s[j]);
        }
        lemma_insert_by_depth_sorted(s.drop_last(), c);
        let t = insert_by_depth(s.drop_last(), c);
        assert forall|x: CandV| t.push(s.last()).contains(x) implies s.contains(x) || x == c by {
            let i = choose|i: int| 0 <= i < t.push(s.last()).len() && t.push(s.last())[i] == x;
            if i < t.len() {
                assert(t.contains(x));
                if s.drop_last().contains(x) {
                    let m = choose|m: int|
                        0 <= m < s.drop_last().len() && s.drop_last()[m] == x;
                    assert(s[m] == x);
                }
            } else {
                assert(x == s.last());
                assert(s[s.len() - 1] == x);
            }
        }
        assert forall|k: int| 0 <= k < t.len() implies t[k].rel.len() <= s.last().rel.len() by {
            assert(t.contains(t[k]));
            if s.drop_last().contains(t[k]) {
                let m = choose|m: int|
                    0 <= m < s.drop_last().len() && s.drop_last()[m] == t[k];
                assert(s[m] == t[k]);
                assert(s[m].rel.len() <= s.last().rel.len());
            } else {
                assert(t[k] == c);
            }
        }
        assert(depth_sorted(t.push(s.last()))) by {
            assert forall|i: int, j: int|
                0 <= i < j < t.push(s.last()).len() implies t.push(s.last())[i].rel.len()
                <= t.push(s.last())[j].rel.len() by {
                if j < t.len() {
                } else {
                    assert(t.push(s.last())[j] == s.last());
                    assert(t.push(s.last())[i] == t[i]);
                }
            }
        }
    }
}

pub proof fn lemma_sort_by_depth_props(s: Seq<CandV>)
    ensures
        depth_sorted(sort_by_depth(s)),
        sort_by_depth(s).len() == s.len(),
        forall|x: CandV| sort_by_depth(s).contains(x) ==> s.contains(x),
    decreases s,
{
    if s.len() > 0 {
        lemma_sort_by_depth_props(s.drop_last());
        lemma_insert_by_depth_sorted(sort_by_depth(s.drop_last()), s.last());
        let t = insert_by_depth(sort_by_depth(s.drop_last()), s.last());
        assert(sort_by_depth(s) == t);
        assert forall|x: CandV| sort_by_depth(s).contains(x) implies s.contains(x) by {
            assert(t.contains(x));
            if sort_by_depth(s.drop_last()).contains(x) {
                assert(s.drop_last().contains(x));
                let m = choose|m: int|
                    0 <= m < s.drop_last().len() && s.drop_last()[m] == x;
                assert(s[m] == x);
            } else {
                assert(x == s.last());
                assert(s[s.len() - 1] == x);
            }
        }
    }
}

/// Sorts the candidates by depth, ascending and stable.
fn sort_candidates(cands: Vec<Candidate>) -> (r: Vec<Candidate>)
    ensures
        cands_v(r@) == sort_by_depth(cands_v(cands@)),
{
    let mut sorted: Vec<Candidate> = Vec::new();
    let mut i: usize = 0;
    proof {
        assert(cands_v(cands@).take(0) =~= Seq::<CandV>::empty());
        assert(cands_v(sorted@) =~= sort_by_depth(cands_v(cands@).take(0)));
    }
    while i < cands.len()
        invariant
            0 <= i <= cands.len(),
            cands_v(cands@).len() == cands@.len(),
            forall|j: int| 0 <= j < cands@.len() ==> cands_v(cands@)[j] == cands@[j]@,
            cands_v(sorted@).len() == sorted@.len(),
            forall|j: int| 0 <= j < sorted@.len() ==> cands_v(sorted@)[j] == sorted@[j]@,
            cands_v(sorted@) == sort_by_depth(cands_v(cands@).take(i as int)),
            depth_sorted(cands_v(sorted@)),
        decreases cands.len() - i,
    {
        let c = cands[i].clone();
        let ghost cv = cands@[i as int]@;
        let ghost pre = cands_v(sorted@);
        let mut j: usize = sorted.len();
        while j > 0 && sorted[j - 1].rel.segments.len() > c.rel.segments.len()
            invariant
                0 <= j <= sorted.len(),
                cands_v(sorted@).len() == sorted@.len(),
                forall|m: int| 0 <= m < sorted@.len() ==> cands_v(sorted@)[m] == sorted@[m]@,
                c@ == cv,
                forall|k: int|
                    j <= k < sorted@.len() ==> cands_v(sorted@)[k].rel.len() > cv.rel.len(),
            decreases j,
        {
            proof {
                assert(sorted@[j - 1]@.rel.len() == sorted@[j - 1].rel.segments@.len());
                assert(cv.rel.len() == c.rel.segments@.len());
            }
            j = j - 1;
        }
        proof {
            if j > 0 {
                assert(sorted@[j - 1]@.rel.len() <= cv.rel.len());
            }
            lemma_insert_by_depth_at(pre, cv, j as int);
        }
        sorted.insert(j, c);
        proof {
            assert(cands_v(sorted@) =~= pre.take(j as int).push(cv) + pre.skip(j as int));
            assert(cands_v(cands@).take(i + 1) =~= cands_v(cands@).take(i as int).push(cv));
            assert(sort_by_depth(cands_v(cands@).take(i + 1)) == insert_by_depth(
                sort_by_depth(cands_v(cands@).take(i as int)),
                cv,
            )) by {
                assert(cands_v(cands@).take(i + 1).drop_last() =~= cands_v(cands@).take(i as int));
            }
            lemma_insert_by_depth_sorted(pre, cv);
        }
        i = i + 1;
    }
    proof {
        assert(cands_v(cands@).take(cands@.len() as int) =~= cands_v(cands@));
    }
    sorted
}

} // verus!

verus! {

/// The candidate's named artifact directories, relative to the scan root:
/// the prefixes under which later candidates are suppressed.
pub open spec fn target_abs_rels(c: CandV) -> Seq<Seq<Seq<u8>>> {
    kind_target_paths(c.kind).map_values(|t: Seq<Seq<u8>>| c.rel + t)
}

/// Whether one of the ignored prefixes leads to `p`.
pub open spec fn under_any(p: Seq<Seq<u8>>, ignored: Seq<Seq<Seq<u8>>>) -> bool {
    exists|i: int| 0 <= i < ignored.len() && is_prefix_of(ignored[i], p)
}

pub proof fn lemma_under_any_append(p: Seq<Seq<u8>>, a: Seq<Seq<Seq<u8>>>, b: Seq<Seq<Seq<u8>>>)
    ensures
        under_any(p, a + b) == (under_any(p, a) || under_any(p, b)),
{
    if under_any(p, a + b) {
        let i = choose|i: int| 0 <= i < (a + b).len() && is_prefix_of((a + b)[i], p);
        if i < a.len() {
            assert(a[i] == (a + b)[i]);
        } else {
            assert(b[i - a.len()] == (a + b)[i]);
        }
    }
    if under_any(p, a) {
        let i = choose|i: int| 0 <= i < a.len() && is_prefix_of(a[i], p);
        assert((a + b)[i] == a[i]);
    }
    if under_any(p, b) {
        let i = choose|i: int| 0 <= i < b.len() && is_prefix_of(b[i], p);
        assert((a + b)[a.len() + i] == b[i]);
    }
}

/// Deduplication: walks the candidates in order, drops every candidate
/// lying under an ignored prefix, and on acceptance adds the candidate's
/// named artifact directories to the ignored prefixes.
pub open spec fn spec_dedup(cands: Seq<CandV>, ignored: Seq<Seq<Seq<u8>>>) -> Seq<CandV>
    decreases cands,
{
    if cands.len() == 0 {
        Seq::empty()
    } else if under_any(cands[0].rel, ignored) {
        spec_dedup(cands.drop_first(), ignored)
    } else {
        seq![cands[0]] + spec_dedup(cands.drop_first(), ignored + target_abs_rels(cands[0]))
    }
}

/// What deduplication guarantees: no accepted candidate lies under a
/// prefix that was ignored when it was examined, and in particular no
/// accepted candidate lies under an earlier accepted candidate's named
/// artifact directories.
pub proof fn lemma_dedup_props(cands: Seq<CandV>, ignored: Seq<Seq<Seq<u8>>>)
    ensures
        forall|j: int|
            0 <= j < spec_dedup(cands, ignored).len() ==> !under_any(
                #[trigger] spec_dedup(cands, ignored)[j].rel,
                ignored,
            ),
        forall|i: int, j: int|
            0 <= i < j < spec_dedup(cands, ignored).len() ==> !under_any(
                #[trigger] spec_dedup(cands, ignored)[j].rel,
                target_abs_rels(#[trigger] spec_dedup(cands, ignored)[i]),
            ),
        forall|x: CandV| spec_dedup(cands, ignored).contains(x) ==> cands.contains(x),
        depth_sorted(cands) ==> depth_sorted(spec_dedup(cands, ignored)),
    decreases cands,
{
    let out = spec_dedup(cands, ignored);
    if cands.len() == 0 {
    } else if under_any(cands[0].rel, ignored) {
        lemma_dedup_props(cands.drop_first(), ignored);
        assert forall|x: CandV| out.contains(x) implies cands.contains(x) by {
            assert(spec_dedup(cands.drop_first(), ignored).contains(x));
            assert(cands.drop_first().contains(x));
            let m = choose|m: int|
                0 <= m < cands.drop_first().len() && cands.drop_first()[m] == x;
            assert(cands[m + 1] == x);
        }
        if depth_sorted(cands) {
            assert(depth_sorted(cands.drop_first())) by {
                assert(forall|i: int|
                    0 <= i < cands.drop_first().len() ==> #[trigger] cands.drop_first()[i]
                        == cands[i + 1]);
            }
        }
    } else {
        let c = cands[0];
        let ign2 = ignored + target_abs_rels(c);
        let out2 = spec_dedup(cands.drop_first(), ign2);
        lemma_dedup_props(cands.drop_first(), ign2);
        assert(out == seq![c] + out2);
        assert(out[0] == c);
        assert(forall|j: int| 1 <= j < out.len() ==> out[j] == out2[j - 1]);
        assert forall|j: int| 0 <= j < out.len() implies !under_any(out[j].rel, ignored) by {
            if j > 0 {
                assert(!under_any(out2[j - 1].rel, ign2));
                lemma_under_any_append(out2[j - 1].rel, ignored, target_abs_rels(c));
            }
        }
        assert forall|i: int, j: int| 0 <= i < j < out.len() implies !under_any(
            out[j].rel,
            target_abs_rels(out[i]),
        ) by {
            if i == 0 {
                assert(!under_any(out2[j - 1].rel, ign2));
                lemma_under_any_append(out2[j - 1].rel, ignored, target_abs_rels(c));
            } else {
                assert(!under_any(out2[j - 1].rel, target_abs_rels(out2[i - 1])));
            }
        }
        assert forall|x: CandV| out.contains(x) implies cands.contains(x) by {
            let m = choose|m: int| 0 <= m < out.len() && out[m] == x;
            if m == 0 {
                assert(cands[0] == x);
            } else {
                assert(out2.contains(x));
                assert(cands.drop_first().contains(x));
                let n = choose|n: int|
                    0 <= n < cands.drop_first().len() && cands.drop_first()[n] == x;
                assert(cands[n + 1] == x);
            }
        }
        if depth_sorted(cands) {
            assert(depth_sorted(cands.drop_first())) by {
                assert(forall|i: int|
                    0 <= i < cands.drop_first().len() ==> #[trigger] cands.drop_first()[i]
                        == cands[i + 1]);
            }
            assert forall|i: int, j: int| 0 <= i < j < out.len() implies out[i].rel.len()
                <= out[j].rel.len() by {
                if i == 0 {
                    assert(out2.contains(out2[j - 1]));
                    assert(cands.drop_first().contains(out2[j - 1]));
                    let n = choose|n: int|
                        0 <= n < cands.drop_first().len() && cands.drop_first()[n] == out2[j - 1];
                    assert(cands[n + 1] == out2[j - 1]);
                    assert(cands[0].rel.len() <= cands[n + 1].rel.len());
                }
            }
        }
    }
}

fn under_any_exec(p: &DirPath, ignored: &Vec<DirPath>) -> (r: bool)
    ensures
        r == under_any(p@, paths_v(ignored@)),
{
    let mut i: usize = 0;
    while i < ignored.len()
        invariant
            0 <= i <= ignored.len(),
            paths_v(ignored@).len() == ignored@.len(),
            forall|j: int| 0 <= j < ignored@.len() ==> paths_v(ignored@)[j] == ignored@[j]@,
            forall|j: int| 0 <= j < i ==> !is_prefix_of(paths_v(ignored@)[j], p@),
        decreases ignored.len() - i,
    {
        if p.starts_with(&ignored[i]) {
            proof {
                assert(is_prefix_of(paths_v(ignored@)[i as int], p@));
            }
            return true;
        }
        i = i + 1;
    }
    false
}

/// Deduplication over a sorted candidate list.
fn dedup_candidates(sorted: &Vec<Candidate>) -> (r: Vec<Candidate>)
    ensures
        cands_v(r@) == spec_dedup(cands_v(sorted@), Seq::empty()),
{
    let mut accepted: Vec<Candidate> = Vec::new();
    let mut ignored: Vec<DirPath> = Vec::new();
    let mut i: usize = 0;
    proof {
        assert(cands_v(sorted@).skip(0) =~= cands_v(sorted@));
        assert(paths_v(ignored@) =~= Seq::<Seq<Seq<u8>>>::empty());
        assert(cands_v(accepted@) =~= Seq::<CandV>::empty());
    }
    while i < sorted.len()
        invariant
            0 <= i <= sorted.len(),
            cands_v(sorted@).len() == sorted@.len(),
            forall|j: int| 0 <= j < sorted@.len() ==> cands_v(sorted@)[j] == sorted@[j]@,
            cands_v(accepted@).len() == accepted@.len(),
            forall|j: int| 0 <= j < accepted@.len() ==> cands_v(accepted@)[j] == accepted@[j]@,
            paths_v(ignored@).len() == ignored@.len(),
            forall|j: int| 0 <= j < ignored@.len() ==> paths_v(ignored@)[j] == ignored@[j]@,
            spec_dedup(cands_v(sorted@), Seq::empty()) == cands_v(accepted@) + spec_dedup(
                cands_v(sorted@).skip(i as int),
                paths_v(ignored@),
            ),
        decreases sorted.len() - i,
    {
        let ghost rest = cands_v(sorted@).skip(i as int);
        proof {
            assert(rest[0] == cands_v(sorted@)[i as int]);
            assert(rest.drop_first() =~= cands_v(sorted@).skip(i + 1));
        }
        if under_any_exec(&sorted[i].rel, &ignored) {
            proof {
                assert(spec_dedup(rest, paths_v(ignored@)) == spec_dedup(
                    rest.drop_first(),
                    paths_v(ignored@),
                ));
            }
        } else {
            let c = sorted[i].clone();
            let ghost cv = cands_v(sorted@)[i as int];
            let ghost pre_acc = cands_v(accepted@);
            let ghost pre_ign = paths_v(ignored@);
            let targets = kind_targets(c.kind);
            let mut t: usize = 0;
            while t < targets.len()
                invariant
                    0 <= t <= targets.len(),
                    c@ == cv,
                    paths_v(targets@) == kind_target_paths(cv.kind),
                    paths_v(targets@).len() == targets@.len(),
                    forall|j: int| 0 <= j < targets@.len() ==> paths_v(targets@)[j] == targets@[j]@,
                    paths_v(ignored@).len() == ignored@.len(),
                    forall|j: int|
                        0 <= j < ignored@.len() ==> paths_v(ignored@)[j] == ignored@[j]@,
                    paths_v(ignored@) =~= pre_ign + target_abs_rels(cv).take(t as int),
                decreases targets.len() - t,
            {
                let joined = c.rel.join(&targets[t]);
                let ghost pre_vec = ignored@;
                let ghost joined_view = joined@;
                ignored.push(joined);
                proof {
                    assert(target_abs_rels(cv).len() == kind_target_paths(cv.kind).len());
                    assert(target_abs_rels(cv)[t as int] == cv.rel + kind_target_paths(cv.kind)[t as int]);
                    assert(ignored@ == pre_vec.push(joined));
                    assert(paths_v(ignored@) =~= paths_v(pre_vec).push(joined_view));
                    assert(joined_view == cv.rel + kind_target_paths(cv.kind)[t as int]) by {
                        assert(c.rel@ == cv.rel);
                        assert(targets@[t as int]@ == kind_target_paths(cv.kind)[t as int]);
                    }
                    assert(paths_v(ignored@) =~= pre_ign + target_abs_rels(cv).take(t + 1));
                }
                t = t + 1;
            }
            accepted.push(c);
            proof {
                assert(target_abs_rels(cv).take(targets@.len() as int) =~= target_abs_rels(cv));
                assert(paths_v(ignored@) =~= pre_ign + target_abs_rels(cv));
                assert(cands_v(accepted@) =~= pre_acc.push(cv));
                assert(spec_dedup(rest, pre_ign) == seq![cv] + spec_dedup(
                    rest.drop_first(),
                    pre_ign + target_abs_rels(cv),
                ));
                assert(pre_acc + spec_dedup(rest, pre_ign) =~= cands_v(accepted@) + spec_dedup(
                    cands_v(sorted@).skip(i + 1),
                    paths_v(ignored@),
                ));
            }
        }
        i = i + 1;
    }
    proof {
        assert(cands_v(sorted@).skip(sorted@.len() as int) =~= Seq::<CandV>::empty());
        assert(cands_v(accepted@) + spec_dedup(Seq::empty(), paths_v(ignored@)) =~= cands_v(
            accepted@,
        ));
    }
    accepted
}

} // verus!

verus! {

/// What discovery guarantees of a candidate found under `v` (where `rel0`
/// is the path from the scan root to `v`): its directory exists in the
/// snapshot, it is the first strategy match there, and it is no larger
/// than `v`.
pub open spec fn resolve_ok(v: DirV, rel0: Seq<Seq<u8>>, ks: Seq<StrategyKind>, c: CandV) -> bool {
    &&& rel0.len() <= c.rel.len()
    &&& c.rel.take(rel0.len() as int) == rel0
    &&& dir_at(v, c.rel.skip(rel0.len() as int)) is Some
    &&& first_match(ks, dir_at(v, c.rel.skip(rel0.len() as int))->0) == Some(c.kind)
    &&& crate::snapshot::wf_dir(dir_at(v, c.rel.skip(rel0.len() as int))->0)
    &&& dv_size(dir_at(v, c.rel.skip(rel0.len() as int))->0) <= dv_size(v)
}

pub proof fn lemma_cands_subs_split(
    s: Seq<DirV>,
    rel: Seq<Seq<u8>>,
    ks: Seq<StrategyKind>,
    c: CandV,
)
    requires
        spec_candidates_subs(s, rel, ks).contains(c),
    ensures
        exists|k: int|
            0 <= k < s.len() && #[trigger] spec_candidates(s[k], rel.push(s[k].name), ks).contains(
                c,
            ),
    decreases s,
{
    let whole = spec_candidates_subs(s, rel, ks);
    let own = spec_candidates(s[0], rel.push(s[0].name), ks);
    let rest = spec_candidates_subs(s.drop_first(), rel, ks);
    let m = choose|m: int| 0 <= m < whole.len() && whole[m] == c;
    if m < own.len() {
        assert(own[m] == c);
        assert(own.contains(c));
    } else {
        assert(rest[m - own.len()] == c);
        assert(rest.contains(c));
        lemma_cands_subs_split(s.drop_first(), rel, ks, c);
        let k = choose|k: int|
            0 <= k < s.drop_first().len() && #[trigger] spec_candidates(
                s.drop_first()[k],
                rel.push(s.drop_first()[k].name),
                ks,
            ).contains(c);
        assert(s.drop_first()[k] == s[k + 1]);
    }
}

/// Every candidate that discovery reports resolves in the snapshot to the
/// directory where its strategy matched.
pub proof fn lemma_cands_resolve(v: DirV, rel0: Seq<Seq<u8>>, ks: Seq<StrategyKind>)
    requires
        crate::snapshot::wf_dir(v),
    ensures
        forall|c: CandV|
            spec_candidates(v, rel0, ks).contains(c) ==> resolve_ok(v, rel0, ks, c),
    decreases v,
{
    assert forall|c: CandV| spec_candidates(v, rel0, ks).contains(c) implies resolve_ok(
        v,
        rel0,
        ks,
        c,
    ) by {
        let whole = spec_candidates(v, rel0, ks);
        let subs = spec_candidates_subs(v.subdirs, rel0, ks);
        let m = choose|m: int| 0 <= m < whole.len() && whole[m] == c;
        let own_len = whole.len() - subs.len();
        if m < own_len {
            assert(c.rel == rel0);
            assert(c.rel.take(rel0.len() as int) =~= rel0);
            assert(c.rel.skip(rel0.len() as int) =~= Seq::<Seq<u8>>::empty());
            assert(dir_at(v, c.rel.skip(rel0.len() as int)) == Some(v));
            assert(first_match(ks, v) == Some(c.kind));
        } else {
            assert(subs[m - own_len] == c);
            assert(subs.contains(c));
            lemma_cands_subs_split(v.subdirs, rel0, ks, c);
            let k = choose|k: int|
                0 <= k < v.subdirs.len() && #[trigger] spec_candidates(
                    v.subdirs[k],
                    rel0.push(v.subdirs[k].name),
                    ks,
                ).contains(c);
            let child = v.subdirs[k];
            let rel1 = rel0.push(child.name);
            crate::snapshot::lemma_wf_dirs_index(v.subdirs);
            assert(crate::snapshot::wf_dir(child));
            lemma_cands_resolve(child, rel1, ks);
            assert(resolve_ok(child, rel1, ks, c));
            assert(c.rel.take(rel1.len() as int) == rel1);
            assert(c.rel.take(rel0.len() as int) =~= rel0) by {
                assert(forall|x: int|
                    0 <= x < rel0.len() ==> c.rel.take(rel1.len() as int)[x] == c.rel[x]);
            }
            assert(c.rel[rel0.len() as int] == child.name) by {
                assert(c.rel.take(rel1.len() as int)[rel0.len() as int] == rel1[rel0.len() as int]);
            }
            let down = c.rel.skip(rel0.len() as int);
            assert(down[0] == child.name);
            assert(down.drop_first() =~= c.rel.skip(rel1.len() as int));
            crate::snapshot::lemma_find_sub_distinct(v.subdirs, k);
            assert(find_sub(v.subdirs, down[0]) == Some(child));
            assert(dir_at(v, down) == dir_at(child, c.rel.skip(rel1.len() as int)));
            crate::snapshot::lemma_sum_dirs_bounds_element(v.subdirs, k);
        }
    }
}

} // verus!

verus! {

/// The target paths that exist as directories under `v`.
pub open spec fn existing_of(tps: Seq<Seq<Seq<u8>>>, v: DirV) -> Seq<Seq<Seq<u8>>>
    decreases tps,
{
    if tps.len() == 0 {
        Seq::empty()
    } else {
        let rest = existing_of(tps.drop_first(), v);
        if dir_at(v, tps[0]) is Some {
            seq![tps[0]] + rest
        } else {
            rest
        }
    }
}

pub proof fn lemma_existing_of_append(a: Seq<Seq<Seq<u8>>>, b: Seq<Seq<Seq<u8>>>, v: DirV)
    ensures
        existing_of(a + b, v) == existing_of(a, v) + existing_of(b, v),
    decreases a,
{
    if a.len() == 0 {
        assert(a + b =~= b);
        assert(existing_of(a, v) + existing_of(b, v) =~= existing_of(b, v));
    } else {
        assert((a + b).drop_first() =~= a.drop_first() + b);
        lemma_existing_of_append(a.drop_first(), b, v);
        assert(existing_of(a + b, v) =~= existing_of(a, v) + existing_of(b, v));
    }
}

pub proof fn lemma_existing_of_contains(tps: Seq<Seq<Seq<u8>>>, v: DirV)
    ensures
        forall|x: Seq<Seq<u8>>| existing_of(tps, v).contains(x) ==> tps.contains(x),
    decreases tps,
{
    if tps.len() > 0 {
        lemma_existing_of_contains(tps.drop_first(), v);
        let e = existing_of(tps, v);
        assert forall|x: Seq<Seq<u8>>| e.contains(x) implies tps.contains(x) by {
            let m = choose|m: int| 0 <= m < e.len() && e[m] == x;
            let rest = existing_of(tps.drop_first(), v);
            if dir_at(v, tps[0]) is Some && m == 0 {
                assert(tps[0] == x);
            } else {
                assert(rest.contains(x));
                assert(tps.drop_first().contains(x));
                let n = choose|n: int|
                    0 <= n < tps.drop_first().len() && tps.drop_first()[n] == x;
                assert(tps[n + 1] == x);
            }
        }
    }
}

/// The project built for an accepted candidate `c` whose directory in the
/// snapshot is `cd`: its existing artifact directories resolved to
/// absolute paths, and the bytes of the files under them.
pub open spec fn spec_project(rp: Seq<Seq<u8>>, cd: DirV, c: CandV) -> ProjV {
    ProjV {
        root_path: rp + c.rel,
        kind: c.kind,
        targets: existing_of(kind_target_paths(c.kind), cd).map_values(
            |t: Seq<Seq<u8>>| rp + c.rel + t,
        ),
        total_size: targets_size(cd, existing_of(kind_target_paths(c.kind), cd)) as u64,
        risk_level: kind_risk(c.kind),
    }
}

pub open spec fn spec_projects(rp: Seq<Seq<u8>>, root: DirV, cs: Seq<CandV>) -> Seq<ProjV>
    decreases cs,
{
    if cs.len() == 0 {
        Seq::empty()
    } else {
        seq![spec_project(rp, dir_at(root, cs[0].rel)->0, cs[0])] + spec_projects(
            rp,
            root,
            cs.drop_first(),
        )
    }
}

pub proof fn lemma_spec_projects_index(rp: Seq<Seq<u8>>, root: DirV, cs: Seq<CandV>)
    ensures
        spec_projects(rp, root, cs).len() == cs.len(),
        forall|i: int|
            0 <= i < cs.len() ==> spec_projects(rp, root, cs)[i] == spec_project(
                rp,
                dir_at(root, cs[i].rel)->0,
                #[trigger] cs[i],
            ),
    decreases cs,
{
    if cs.len() > 0 {
        lemma_spec_projects_index(rp, root, cs.drop_first());
        assert(forall|i: int|
            1 <= i < cs.len() ==> cs.drop_first()[i - 1] == cs[i] && spec_projects(
                rp,
                root,
                cs,
            )[i] == spec_projects(rp, root, cs.drop_first())[i - 1]);
    }
}

/// The accepted candidates of a scan: discovery, depth sort, then
/// deduplication.
pub open spec fn spec_accepted(root: DirV, ks: Seq<StrategyKind>) -> Seq<CandV> {
    spec_dedup(sort_by_depth(spec_candidates(root, Seq::empty(), ks)), Seq::empty())
}

/// Everything a scan reports, as a function of the snapshot alone.
pub open spec fn spec_scan(rp: Seq<Seq<u8>>, root: DirV, ks: Seq<StrategyKind>) -> Seq<ProjV> {
    spec_projects(rp, root, spec_accepted(root, ks))
}

/// The scanner: an ordered list of strategies, first match wins.
pub struct Scanner {
    pub strategies: Vec<StrategyKind>,
}

fn existing_targets_exec(cd: &FsDir, kind: StrategyKind) -> (r: Vec<DirPath>)
    ensures
        paths_v(r@) == existing_of(kind_target_paths(kind), cd@),
{
    let named = kind_targets(kind);
    let mut out: Vec<DirPath> = Vec::new();
    let mut t: usize = 0;
    proof {
        assert(paths_v(out@) =~= Seq::<Seq<Seq<u8>>>::empty());
        assert(existing_of(paths_v(named@).take(0), cd@) =~= Seq::<Seq<Seq<u8>>>::empty());
    }
    while t < named.len()
        invariant
            0 <= t <= named.len(),
            paths_v(named@) == kind_target_paths(kind),
            paths_v(named@).len() == named@.len(),
            forall|j: int| 0 <= j < named@.len() ==> paths_v(named@)[j] == named@[j]@,
            paths_v(out@).len() == out@.len(),
            forall|j: int| 0 <= j < out@.len() ==> paths_v(out@)[j] == out@[j]@,
            paths_v(out@) =~= existing_of(paths_v(named@).take(t as int), cd@),
        decreases named.len() - t,
    {
        proof {
            assert(paths_v(named@).take(t + 1) =~= paths_v(named@).take(t as int) + seq![
                paths_v(named@)[t as int],
            ]);
            lemma_existing_of_append(
                paths_v(named@).take(t as int),
                seq![paths_v(named@)[t as int]],
                cd@,
            );
            assert(seq![paths_v(named@)[t as int]].drop_first() =~= Seq::<Seq<Seq<u8>>>::empty());
            assert(existing_of(Seq::<Seq<Seq<u8>>>::empty(), cd@) =~= Seq::<Seq<Seq<u8>>>::empty());
        }
        let ghost pre_vec = out@;
        match dir_at_exec(cd, &named[t]) {
            Some(_found) => {
                let tp = named[t].clone();
                out.push(tp);
                proof {
                    assert(paths_v(out@) =~= paths_v(pre_vec).push(named@[t as int]@));
                    assert(existing_of(seq![paths_v(named@)[t as int]], cd@) =~= seq![
                        paths_v(named@)[t as int],
                    ]);
                    assert(paths_v(out@) =~= existing_of(paths_v(named@).take(t + 1), cd@));
                }
            },
            None => {
                proof {
                    assert(existing_of(seq![paths_v(named@)[t as int]], cd@)
                        =~= Seq::<Seq<Seq<u8>>>::empty());
                    assert(paths_v(out@) =~= existing_of(paths_v(named@).take(t + 1), cd@));
                }
            },
        }
        t = t + 1;
    }
    proof {
        assert(paths_v(named@).take(named@.len() as int) =~= paths_v(named@));
    }
    out
}

impl Scanner {
    /// A scanner over the given strategies, tried in order.
    pub fn new(strategies: Vec<StrategyKind>) -> (s: Self)
        ensures
            s.strategies@ == strategies@,
    {
        Scanner { strategies }
    }

    /// Scans the snapshot rooted at `root` (whose absolute path is
    /// `root_path`) and returns the accepted projects: every first
    /// strategy match not nested under an earlier accepted project's
    /// named artifact directory, each with its existing artifact
    /// directories and their summed file bytes.
    ///
    /// The snapshot is expected to come from a real directory tree: no
    /// two siblings share a name, and the file sizes are summable.
    pub fn scan(&self, root_path: &DirPath, root: &FsDir) -> (r: Vec<CleanableProject>)
        requires
            crate::snapshot::wf_dir(root@),
            dv_size(root@) <= u64::MAX,
        ensures
            projs_v(r@) == spec_scan(root_path@, root@, self.strategies@),
            forall|i: int, j: int, t: int|
                0 <= i < r@.len() && 0 <= j < r@.len() && i != j && 0 <= t < r@[i]@.targets.len()
                    ==> !is_prefix_of(#[trigger] r@[i]@.targets[t], #[trigger] r@[j]@.root_path),
    {
        let ks = &self.strategies;
        let mut cands: Vec<Candidate> = Vec::new();
        let rel0 = DirPath::empty();
        proof {
            assert(cands_v(cands@) =~= Seq::<CandV>::empty());
        }
        discover(root, &rel0, ks, &mut cands);
        proof {
            assert(cands_v(cands@) =~= spec_candidates(root@, Seq::empty(), ks@));
        }
        let sorted = sort_candidates(cands);
        let accepted = dedup_candidates(&sorted);
        let ghost all_cands = spec_candidates(root@, Seq::empty(), ks@);
        let ghost acc = spec_accepted(root@, ks@);
        proof {
            assert(cands_v(accepted@) == acc);
            lemma_sort_by_depth_props(all_cands);
            lemma_dedup_props(sort_by_depth(all_cands), Seq::empty());
            lemma_cands_resolve(root@, Seq::empty(), ks@);
            lemma_spec_projects_index(root_path@, root@, acc);
            assert(forall|c: CandV| acc.contains(c) ==> sort_by_depth(all_cands).contains(c));
            assert(forall|c: CandV| acc.contains(c) ==> all_cands.contains(c));
            assert(forall|c: CandV| acc.contains(c) ==> resolve_ok(root@, Seq::empty(), ks@, c));
        }
        let mut out: Vec<CleanableProject> = Vec::new();
        let mut i: usize = 0;
        proof {
            assert(projs_v(out@) =~= spec_projects(root_path@, root@, acc).take(0));
        }
        while i < accepted.len()
            invariant
                0 <= i <= accepted.len(),
                cands_v(accepted@) == acc,
                cands_v(accepted@).len() == accepted@.len(),
                forall|j: int| 0 <= j < accepted@.len() ==> cands_v(accepted@)[j] == accepted@[j]@,
                crate::snapshot::wf_dir(root@),
                dv_size(root@) <= u64::MAX,
                forall|c: CandV| acc.contains(c) ==> resolve_ok(root@, Seq::empty(), ks@, c),
                spec_projects(root_path@, root@, acc).len() == acc.len(),
                forall|j: int|
                    0 <= j < acc.len() ==> spec_projects(root_path@, root@, acc)[j]
                        == spec_project(root_path@, dir_at(root@, acc[j].rel)->0, #[trigger] acc[j]),
                projs_v(out@).len() == out@.len(),
                forall|j: int| 0 <= j < out@.len() ==> projs_v(out@)[j] == out@[j]@,
                projs_v(out@) =~= spec_projects(root_path@, root@, acc).take(i as int),
            decreases accepted.len() - i,
        {
            let ghost cv = acc[i as int];
            proof {
                assert(acc.contains(cv));
                assert(resolve_ok(root@, Seq::empty(), ks@, cv));
                assert(cv.rel.take(0) =~= Seq::<Seq<u8>>::empty());
                assert(cv.rel.skip(0) =~= cv.rel);
                assert(dir_at(root@, cv.rel) is Some);
                assert(accepted@[i as int]@.rel == cv.rel);
            }
            match dir_at_exec(root, &accepted[i].rel) {
                Some(cd) => {
                    proof {
                        assert(cd@ == dir_at(root@, cv.rel)->0);
                        assert(dv_size(cd@) <= u64::MAX);
                    }
                    let existing = existing_targets_exec(cd, accepted[i].kind);
                    let total = targets_size_exec(cd, &existing);
                    let proj_root = root_path.join(&accepted[i].rel);
                    let mut abs_targets: Vec<DirPath> = Vec::new();
                    let ghost exist_v = existing_of(kind_target_paths(cv.kind), cd@);
                    let mut t: usize = 0;
                    proof {
                        assert(paths_v(abs_targets@) =~= exist_v.map_values(
                            |tp: Seq<Seq<u8>>| root_path@ + cv.rel + tp,
                        ).take(0));
                    }
                    while t < existing.len()
                        invariant
                            0 <= t <= existing.len(),
                            paths_v(existing@) == exist_v,
                            paths_v(existing@).len() == existing@.len(),
                            forall|j: int|
                                0 <= j < existing@.len() ==> paths_v(existing@)[j]
                                    == existing@[j]@,
                            proj_root@ == root_path@ + cv.rel,
                            paths_v(abs_targets@).len() == abs_targets@.len(),
                            forall|j: int|
                                0 <= j < abs_targets@.len() ==> paths_v(abs_targets@)[j]
                                    == abs_targets@[j]@,
                            paths_v(abs_targets@) =~= exist_v.map_values(
                                |tp: Seq<Seq<u8>>| root_path@ + cv.rel + tp,
                            ).take(t as int),
                        decreases existing.len() - t,
                    {
                        let joined = proj_root.join(&existing[t]);
                        let ghost pre_vec = abs_targets@;
                        abs_targets.push(joined);
                        proof {
                            assert(paths_v(abs_targets@) =~= paths_v(pre_vec).push(
                                (root_path@ + cv.rel) + existing@[t as int]@,
                            ));
                            assert(exist_v.map_values(
                                |tp: Seq<Seq<u8>>| root_path@ + cv.rel + tp,
                            )[t as int] == root_path@ + cv.rel + exist_v[t as int]);
                            assert(paths_v(abs_targets@) =~= exist_v.map_values(
                                |tp: Seq<Seq<u8>>| root_path@ + cv.rel + tp,
                            ).take(t + 1));
                        }
                        t = t + 1;
                    }
                    let proj = CleanableProject {
                        root_path: proj_root,
                        kind: accepted[i].kind,
                        targets: abs_targets,
                        total_size: total,
                        risk_level: kind_risk_level(accepted[i].kind),
                    };
                    let ghost pre_out = out@;
                    out.push(proj);
                    proof {
                        let m = exist_v.map_values(|tp: Seq<Seq<u8>>| root_path@ + cv.rel + tp);
                        assert(m.take(m.len() as int) =~= m);
                        assert(proj@ =~= spec_project(root_path@, cd@, cv)) by {
                            crate::snapshot::lemma_targets_size_le(cd@, exist_v);
                        }
                        assert(projs_v(out@) =~= projs_v(pre_out).push(proj@));
                        assert(projs_v(out@) =~= spec_projects(root_path@, root@, acc).take(i + 1));
                    }
                },
                None => {
                    proof {
                        // Unreachable: the candidate's directory resolves.
                        assert(false);
                    }
                },
            }
            i = i + 1;
        }
        proof {
            assert(spec_projects(root_path@, root@, acc).take(acc.len() as int) =~= spec_projects(
                root_path@,
                root@,
                acc,
            ));
            lemma_scan_no_nesting(root_path@, root@, ks@);
            let res = spec_scan(root_path@, root@, ks@);
            assert(projs_v(out@) == res);
            assert forall|i: int, j: int, t: int|
                0 <= i < out@.len() && 0 <= j < out@.len() && i != j && 0 <= t
                    < out@[i]@.targets.len() implies !is_prefix_of(
                #[trigger] out@[i]@.targets[t],
                #[trigger] out@[j]@.root_path,
            ) by {
                assert(out@[i]@ == res[i]);
                assert(out@[j]@ == res[j]);
                assert(!is_prefix_of(res[i].targets[t], res[j].root_path));
            }
        }
        out
    }
}

/// The kinds' artifact paths all have at least one component.
pub proof fn lemma_kind_targets_nonempty(k: StrategyKind)
    ensures
        forall|m: int|
            0 <= m < kind_target_paths(k).len() ==> #[trigger] kind_target_paths(k)[m].len() >= 1,
{
    match k {
        StrategyKind::NodeJs => {
            assert(forall|m: int|
                0 <= m < kind_target_paths(StrategyKind::NodeJs).len()
                    ==> #[trigger] kind_target_paths(StrategyKind::NodeJs)[m].len() >= 1);
        },
        StrategyKind::Rust => {
            assert(forall|m: int|
                0 <= m < kind_target_paths(StrategyKind::Rust).len()
                    ==> #[trigger] kind_target_paths(StrategyKind::Rust)[m].len() >= 1);
        },
        StrategyKind::Flutter => {
            assert(forall|m: int|
                0 <= m < kind_target_paths(StrategyKind::Flutter).len()
                    ==> #[trigger] kind_target_paths(StrategyKind::Flutter)[m].len() >= 1);
        },
        StrategyKind::Android => {
            assert(forall|m: int|
                0 <= m < kind_target_paths(StrategyKind::Android).len()
                    ==> #[trigger] kind_target_paths(StrategyKind::Android)[m].len() >= 1);
        },
    }
}

/// Appending a common prefix on both sides keeps the ancestor relation.
pub proof fn lemma_prefix_shift(a: Seq<Seq<u8>>, x: Seq<Seq<u8>>, y: Seq<Seq<u8>>)
    ensures
        is_prefix_of(a + x, a + y) == is_prefix_of(x, y),
{
    if is_prefix_of(a + x, a + y) {
        assert((a + y).subrange(0, (a + x).len() as int) == a + x);
        assert(y.subrange(0, x.len() as int) =~= x) by {
            assert(forall|m: int|
                0 <= m < x.len() ==> (a + y).subrange(0, (a + x).len() as int)[a.len() + m] == y[m]
                    && (a + x)[a.len() + m] == x[m]);
        }
    }
    if is_prefix_of(x, y) {
        assert((a + y).subrange(0, (a + x).len() as int) =~= a + x) by {
            assert(forall|m: int| 0 <= m < x.len() ==> y.subrange(0, x.len() as int)[m] == y[m]);
        }
    }
}

/// No reported project's root lies inside another reported project's
/// artifact directory: the deduplication invariant, stated of the whole
/// scan result.
pub proof fn lemma_scan_no_nesting(rp: Seq<Seq<u8>>, root: DirV, ks: Seq<StrategyKind>)
    ensures
        forall|i: int, j: int, t: int|
            0 <= i < spec_scan(rp, root, ks).len() && 0 <= j < spec_scan(rp, root, ks).len() && i
                != j && 0 <= t < spec_scan(rp, root, ks)[i].targets.len() ==> !is_prefix_of(
                #[trigger] spec_scan(rp, root, ks)[i].targets[t],
                #[trigger] spec_scan(rp, root, ks)[j].root_path,
            ),
{
    let all = spec_candidates(root, Seq::empty(), ks);
    let srt = sort_by_depth(all);
    let acc = spec_accepted(root, ks);
    let out = spec_scan(rp, root, ks);
    lemma_sort_by_depth_props(all);
    lemma_dedup_props(srt, Seq::empty());
    lemma_spec_projects_index(rp, root, acc);
    assert forall|i: int, j: int, t: int|
        0 <= i < out.len() && 0 <= j < out.len() && i != j && 0 <= t
            < out[i].targets.len() implies !is_prefix_of(
        #[trigger] out[i].targets[t],
        #[trigger] out[j].root_path,
    ) by {
        let ci = acc[i];
        let cj = acc[j];
        let cdi = dir_at(root, ci.rel)->0;
        let exist = existing_of(kind_target_paths(ci.kind), cdi);
        assert(out[i] == spec_project(rp, cdi, ci));
        assert(out[j] == spec_project(rp, dir_at(root, cj.rel)->0, cj));
        let m = exist.map_values(|tp: Seq<Seq<u8>>| rp + ci.rel + tp);
        assert(out[i].targets == m);
        let te = exist[t];
        assert(m[t] == rp + ci.rel + te);
        lemma_existing_of_contains(kind_target_paths(ci.kind), cdi);
        assert(exist.contains(te));
        assert(kind_target_paths(ci.kind).contains(te));
        let n = choose|n: int|
            0 <= n < kind_target_paths(ci.kind).len() && kind_target_paths(ci.kind)[n] == te;
        assert(target_abs_rels(ci)[n] == ci.rel + te);
        lemma_kind_targets_nonempty(ci.kind);
        assert(te.len() >= 1);
        assert(rp + ci.rel + te =~= rp + (ci.rel + te));
        lemma_prefix_shift(rp, ci.rel + te, cj.rel);
        if i < j {
            assert(!under_any(acc[j].rel, target_abs_rels(acc[i])));
            assert(!is_prefix_of(ci.rel + te, cj.rel));
        } else {
            assert(depth_sorted(acc));
            assert(cj.rel.len() <= ci.rel.len());
            if is_prefix_of(ci.rel + te, cj.rel) {
                assert(cj.rel.len() >= ci.rel.len() + te.len());
                assert(false);
            }
        }
    }
}

} // verus!

verus! {

/// The artifact paths of one kind never share a first component.
pub proof fn lemma_kind_heads_distinct(k: StrategyKind)
    ensures
        crate::snapshot::heads_distinct(kind_target_paths(k)),
{
    lemma_kind_targets_nonempty(k);
    let tps = kind_target_paths(k);
    assert forall|i: int, j: int| 0 <= i < j < tps.len() implies tps[i][0] != tps[j][0] by {
        match k {
            StrategyKind::NodeJs => {
                assert(crate::strategy::spec_node_modules().len() == 12);
                assert(crate::strategy::spec_dot_next().len() == 5);
                assert(crate::strategy::spec_dist().len() == 4);
                assert(crate::strategy::spec_build().len() == 5);
                assert(crate::strategy::spec_dot_next()[0] == 46);
                assert(crate::strategy::spec_build()[0] == 98);
            },
            StrategyKind::Rust => {
            },
            StrategyKind::Flutter => {
                assert(crate::strategy::spec_build().len() == 5);
                assert(crate::strategy::spec_dot_dart_tool().len() == 10);
            },
            StrategyKind::Android => {
                assert(crate::strategy::spec_app_dir().len() == 3);
                assert(crate::strategy::spec_build().len() == 5);
                assert(crate::strategy::spec_dot_gradle().len() == 7);
            },
        }
    }
}

/// The existing targets keep the kind's pairwise-distinct first
/// components.
pub proof fn lemma_existing_heads_distinct(tps: Seq<Seq<Seq<u8>>>, v: DirV)
    requires
        crate::snapshot::heads_distinct(tps),
    ensures
        crate::snapshot::heads_distinct(existing_of(tps, v)),
    decreases tps,
{
    if tps.len() > 0 {
        let rest = tps.drop_first();
        assert(crate::snapshot::heads_distinct(rest)) by {
            assert(forall|i: int| 0 <= i < rest.len() ==> rest[i] == tps[i + 1]);
        }
        lemma_existing_heads_distinct(rest, v);
        lemma_existing_of_contains(rest, v);
        let e = existing_of(tps, v);
        let er = existing_of(rest, v);
        if dir_at(v, tps[0]) is Some {
            assert(e =~= seq![tps[0]] + er);
            assert forall|i: int| 0 <= i < e.len() implies (#[trigger] e[i]).len() > 0 by {
                if i > 0 {
                    assert(e[i] == er[i - 1]);
                    assert(er.contains(er[i - 1]));
                    assert(rest.contains(er[i - 1]));
                }
            }
            assert forall|i: int, j: int| 0 <= i < j < e.len() implies e[i][0] != e[j][0] by {
                if i == 0 {
                    assert(e[j] == er[j - 1]);
                    assert(er.contains(er[j - 1]));
                    assert(rest.contains(er[j - 1]));
                    let m = choose|m: int| 0 <= m < rest.len() && rest[m] == er[j - 1];
                    assert(tps[m + 1] == er[j - 1]);
                    assert(tps[0][0] != tps[m + 1][0]);
                } else {
                    assert(e[i] == er[i - 1] && e[j] == er[j - 1]);
                }
            }
        } else {
            assert(e =~= er);
        }
    }
}

/// Since no two of a kind's artifact paths overlap, a project's total
/// size is exactly the per-target sum of the directories it reclaims:
/// no byte is counted twice, none is dropped.
pub proof fn lemma_project_size_per_target(rp: Seq<Seq<u8>>, cd: DirV, c: CandV)
    requires
        crate::snapshot::wf_dir(cd),
        dv_size(cd) <= u64::MAX,
    ensures
        spec_project(rp, cd, c).total_size == crate::snapshot::sum_target_sizes(
            cd,
            existing_of(kind_target_paths(c.kind), cd),
        ),
{
    let exist = existing_of(kind_target_paths(c.kind), cd);
    lemma_kind_heads_distinct(c.kind);
    lemma_existing_heads_distinct(kind_target_paths(c.kind), cd);
    crate::snapshot::lemma_targets_size_additive(cd, exist);
    crate::snapshot::lemma_targets_size_le(cd, exist);
}

} // verus!
