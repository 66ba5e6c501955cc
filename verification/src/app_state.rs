//! The selection state machine: the projects discovered so far, the
//! active sort/filter/view projection, the navigation cursor, and the
//! queries and mutators the presentation layer drives.

use vstd::prelude::*;
use vstd::relations::sorted_by;
use crate::path::DirPath;
use crate::path::path_lt;
use crate::scanner::CleanableProject;
use crate::scanner::ProjV;
use crate::scanner::projs_v;
use crate::strategy::StrategyKind;
use crate::tree::TreeNode;
use crate::tree::TreeFlatNode;
use crate::tree::NodeV;
use crate::tree::NodeOp;
use crate::tree::forest_v;
use crate::tree::forest_sizes;
use crate::tree::flats_v;
use crate::tree::visible_forest;
use crate::tree::spec_flatten_forest;
use crate::tree::spec_apply_at_forest;
use crate::tree::spec_checked_projects;
use crate::tree::sum_proj_sizes;
use crate::tree::spec_build_tree;
use crate::events::AppEvent;

verus! {

/// The orderings a List view can show.
#[derive(Clone, Copy, PartialEq, Eq, Structural, Debug)]
pub enum SortMode {
    SizeDesc,
    SizeAsc,
    NameAsc,
    NameDesc,
}

/// Which strategy's projects the views show.
#[derive(Clone, Copy, PartialEq, Eq, Structural, Debug)]
pub enum FilterMode {
    All,
    NodeJs,
    Rust,
    Flutter,
    Android,
}

/// The successor in the filter cycle.
pub open spec fn spec_next_filter(f: FilterMode) -> FilterMode {
    match f {
        FilterMode::All => FilterMode::NodeJs,
        FilterMode::NodeJs => FilterMode::Rust,
        FilterMode::Rust => FilterMode::Flutter,
        FilterMode::Flutter => FilterMode::Android,
        FilterMode::Android => FilterMode::All,
    }
}

/// The strategy a filter admits; `None` admits everything.
pub open spec fn filter_kind(f: FilterMode) -> Option<StrategyKind> {
    match f {
        FilterMode::All => None,
        FilterMode::NodeJs => Some(StrategyKind::NodeJs),
        FilterMode::Rust => Some(StrategyKind::Rust),
        FilterMode::Flutter => Some(StrategyKind::Flutter),
        FilterMode::Android => Some(StrategyKind::Android),
    }
}

impl FilterMode {
    /// The next filter in the cycle: everything, then one strategy at a
    /// time, then everything again.
    pub fn next(&self) -> (r: Self)
        ensures
            r == spec_next_filter(*self),
    {
        match self {
            FilterMode::All => FilterMode::NodeJs,
            FilterMode::NodeJs => FilterMode::Rust,
            FilterMode::Rust => FilterMode::Flutter,
            FilterMode::Flutter => FilterMode::Android,
            FilterMode::Android => FilterMode::All,
        }
    }

    /// The filter's display label.
    pub fn label(&self) -> (r: &'static str)
        ensures
            (match *self {
                FilterMode::All => r@ == ("All")@,
                FilterMode::NodeJs => r@ == ("Node.js")@,
                FilterMode::Rust => r@ == ("Rust")@,
                FilterMode::Flutter => r@ == ("Flutter")@,
                FilterMode::Android => r@ == ("Android")@,
            }),
    {
        match self {
            FilterMode::All => "All",
            FilterMode::NodeJs => "Node.js",
            FilterMode::Rust => "Rust",
            FilterMode::Flutter => "Flutter",
            FilterMode::Android => "Android",
        }
    }
}

/// Whether the views show a flat list or the path hierarchy.
#[derive(Clone, Copy, PartialEq, Eq, Structural, Debug)]
pub enum ViewMode {
    List,
    Tree,
}

/// Mathematical image of the whole state machine.
#[verifier::ext_equal]
pub struct StateV {
    pub scan_path: Seq<Seq<u8>>,
    pub all: Seq<ProjV>,
    pub visible: Seq<ProjV>,
    pub selected_index: nat,
    pub selected: Seq<int>,
    pub sort_mode: SortMode,
    pub filter_mode: FilterMode,
    pub view_mode: ViewMode,
    pub tree: Seq<NodeV>,
    pub show_confirmation: bool,
    pub deletion_confirmed: bool,
    pub scanning: bool,
    pub scanning_path: Seq<char>,
    pub spinner: nat,
}

/// The state of one interactive run.
pub struct AppState {
    /// Root path of the scan.
    pub scan_path: DirPath,
    /// Every project discovered this run, in arrival order.
    pub all_projects: Vec<CleanableProject>,
    /// The filtered, sorted projection shown in List mode.
    pub visible_projects: Vec<CleanableProject>,
    /// Cursor into the active projection.
    pub selected_index: usize,
    /// Selected positions in the List projection; Tree-mode selection
    /// lives in the nodes' checked flags instead.
    pub selected_projects: Vec<usize>,
    /// Active ordering of the List projection.
    pub sort_mode: SortMode,
    /// Active strategy filter.
    pub filter_mode: FilterMode,
    /// Active view.
    pub view_mode: ViewMode,
    /// The forest shown in Tree mode.
    pub tree_roots: Vec<TreeNode>,
    /// Whether the confirmation modal is up.
    pub show_confirmation: bool,
    /// Set once the operator confirms deletion; the state is then frozen.
    pub deletion_confirmed: bool,
    /// Whether the scan is still running.
    pub scanning: bool,
    /// The path the scanner last reported looking at.
    pub scanning_path: String,
    /// Ticker for the progress indicator.
    pub spinner_index: usize,
}

pub open spec fn sel_v(s: Seq<usize>) -> Seq<int> {
    s.map_values(|x: usize| x as int)
}

impl View for AppState {
    type V = StateV;

    open spec fn view(&self) -> StateV {
        StateV {
            scan_path: self.scan_path@,
            all: projs_v(self.all_projects@),
            visible: projs_v(self.visible_projects@),
            selected_index: self.selected_index as nat,
            selected: sel_v(self.selected_projects@),
            sort_mode: self.sort_mode,
            filter_mode: self.filter_mode,
            view_mode: self.view_mode,
            tree: forest_v(self.tree_roots@),
            show_confirmation: self.show_confirmation,
            deletion_confirmed: self.deletion_confirmed,
            scanning: self.scanning,
            scanning_path: self.scanning_path@,
            spinner: self.spinner_index as nat,
        }
    }
}

/// What always holds of a state the mutators produce: sizes stay
/// summable and the selection holds no position twice.
pub open spec fn state_wf(s: StateV) -> bool {
    &&& sum_proj_sizes(s.all) <= u64::MAX
    &&& sum_proj_sizes(s.visible) <= u64::MAX
    &&& forest_sizes(s.tree) <= u64::MAX
    &&& forall|i: int, j: int| 0 <= i < j < s.selected.len() ==> s.selected[i] != s.selected[j]
}

/// Whether a project passes the filter.
pub open spec fn passes_filter(p: ProjV, f: FilterMode) -> bool {
    match filter_kind(f) {
        None => true,
        Some(k) => p.kind == k,
    }
}

/// The projects that pass the filter, in arrival order.
pub open spec fn spec_filter_projects(all: Seq<ProjV>, f: FilterMode) -> Seq<ProjV>
    decreases all,
{
    if all.len() == 0 {
        Seq::empty()
    } else {
        (if passes_filter(all[0], f) {
            seq![all[0]]
        } else {
            Seq::empty()
        }) + spec_filter_projects(all.drop_first(), f)
    }
}

/// The List ordering: how two projects compare under a sort mode.
pub open spec fn proj_le(m: SortMode, a: ProjV, b: ProjV) -> bool {
    match m {
        SortMode::SizeDesc => a.total_size >= b.total_size,
        SortMode::SizeAsc => a.total_size <= b.total_size,
        SortMode::NameAsc => !path_lt(b.root_path, a.root_path),
        SortMode::NameDesc => !path_lt(a.root_path, b.root_path),
    }
}

/// Stable insertion of a project behind every project that does not
/// come after it under the mode's ordering.
pub open spec fn insert_by_mode(s: Seq<ProjV>, p: ProjV, m: SortMode) -> Seq<ProjV>
    decreases s,
{
    if s.len() == 0 {
        seq![p]
    } else if proj_le(m, s.last(), p) {
        s.push(p)
    } else {
        insert_by_mode(s.drop_last(), p, m).push(s.last())
    }
}

/// Stable sort of the projects under the mode's ordering: what the List
/// projection shows, pinned to one sequence.
pub open spec fn sort_by_mode(s: Seq<ProjV>, m: SortMode) -> Seq<ProjV>
    decreases s,
{
    if s.len() == 0 {
        Seq::empty()
    } else {
        insert_by_mode(sort_by_mode(s.drop_last(), m), s.last(), m)
    }
}

pub proof fn lemma_insert_by_mode_at(s: Seq<ProjV>, p: ProjV, m: SortMode, j: int)
    requires
        0 <= j <= s.len(),
        forall|k: int| j <= k < s.len() ==> !proj_le(m, #[trigger] s[k], p),
        j > 0 ==> proj_le(m, s[j - 1], p),
    ensures
        insert_by_mode(s, p, m) == s.take(j).push(p) + s.skip(j),
    decreases s,
{
    if s.len() == 0 {
        assert(insert_by_mode(s, p, m) =~= s.take(j).push(p) + s.skip(j));
    } else if j == s.len() {
        assert(s.take(j) =~= s);
        assert(s.skip(j) =~= Seq::<ProjV>::empty());
        assert(insert_by_mode(s, p, m) =~= s.take(j).push(p) + s.skip(j));
    } else {
        assert(!proj_le(m, s.last(), p));
        lemma_insert_by_mode_at(s.drop_last(), p, m, j);
        assert(s.drop_last().take(j) =~= s.take(j));
        assert(insert_by_mode(s.drop_last(), p, m).push(s.last()) =~= s.take(j).push(p) + s.skip(
            j,
        )) by {
            assert(s.drop_last().skip(j).push(s.last()) =~= s.skip(j));
        }
    }
}

/// How many rows the active projection has.
pub open spec fn spec_count(s: StateV) -> nat {
    match s.view_mode {
        ViewMode::List => s.visible.len(),
        ViewMode::Tree => visible_forest(s.tree).len(),
    }
}

/// The cursor after a refresh: clamped into the projection.
pub open spec fn spec_clamp(idx: nat, count: nat) -> nat {
    if idx >= count && count > 0 {
        (count - 1) as nat
    } else {
        idx
    }
}

/// What `refresh_visible` establishes, given the state's own membership
/// and projection parameters: in List mode the visible projects are the
/// filtered ones, ordered by the active sort mode (the forest is left
/// alone); in Tree mode the forest is rebuilt from the filtered
/// projects (the visible list is left alone). The cursor is clamped.
pub open spec fn refreshed(pre: StateV, post: StateV) -> bool {
    &&& post.scan_path == pre.scan_path
    &&& post.all == pre.all
    &&& post.selected == pre.selected
    &&& post.sort_mode == pre.sort_mode
    &&& post.filter_mode == pre.filter_mode
    &&& post.view_mode == pre.view_mode
    &&& post.show_confirmation == pre.show_confirmation
    &&& post.deletion_confirmed == pre.deletion_confirmed
    &&& post.scanning == pre.scanning
    &&& post.scanning_path == pre.scanning_path
    &&& post.spinner == pre.spinner
    &&& (match pre.view_mode {
        ViewMode::List => {
            &&& post.tree == pre.tree
            &&& post.visible == sort_by_mode(
                spec_filter_projects(pre.all, pre.filter_mode),
                pre.sort_mode,
            )
            &&& sorted_by(post.visible, |a: ProjV, b: ProjV| proj_le(pre.sort_mode, a, b))
            &&& post.visible.to_multiset() == spec_filter_projects(
                pre.all,
                pre.filter_mode,
            ).to_multiset()
        },
        ViewMode::Tree => {
            &&& post.visible == pre.visible
            &&& post.tree == spec_build_tree(
                spec_filter_projects(pre.all, pre.filter_mode),
                pre.scan_path,
            )
        },
    })
    &&& post.selected_index == spec_clamp(pre.selected_index, spec_count(post))
}

} // verus!

verus! {

/// Whether the selection holds this position.
fn contains_idx(v: &Vec<usize>, x: usize) -> (r: bool)
    ensures
        r == sel_v(v@).contains(x as int),
{
    let mut i: usize = 0;
    while i < v.len()
        invariant
            0 <= i <= v@.len(),
            sel_v(v@).len() == v@.len(),
            forall|j: int| 0 <= j < v@.len() ==> sel_v(v@)[j] == v@[j] as int,
            forall|j: int| 0 <= j < i ==> sel_v(v@)[j] != x as int,
        decreases v.len() - i,
    {
        if v[i] == x {
            proof {
                assert(sel_v(v@)[i as int] == x as int);
            }
            return true;
        }
        i = i + 1;
    }
    proof {
        if sel_v(v@).contains(x as int) {
            let m = choose|m: int| 0 <= m < sel_v(v@).len() && sel_v(v@)[m] == x as int;
            assert(false);
        }
    }
    false
}

/// Size of the selected rows of the List projection, from position `i`
/// on: each visible index in the selection contributes its project once.
pub open spec fn list_sel_size_from(visible: Seq<ProjV>, sel: Seq<int>, i: int) -> nat
    decreases visible.len() - i,
{
    if i < 0 || i >= visible.len() {
        0
    } else {
        (if sel.contains(i) {
            visible[i].total_size as nat
        } else {
            0
        }) + list_sel_size_from(visible, sel, i + 1)
    }
}

/// The selected projects of the List projection, in position order,
/// from position `i` on.
pub open spec fn list_selected_from(visible: Seq<ProjV>, sel: Seq<int>, i: int) -> Seq<ProjV>
    decreases visible.len() - i,
{
    if i < 0 || i >= visible.len() {
        Seq::empty()
    } else {
        (if sel.contains(i) {
            seq![visible[i]]
        } else {
            Seq::empty()
        }) + list_selected_from(visible, sel, i + 1)
    }
}

pub proof fn lemma_list_sel_size_bound(visible: Seq<ProjV>, sel: Seq<int>, i: int)
    requires
        0 <= i <= visible.len(),
    ensures
        list_sel_size_from(visible, sel, i) <= sum_proj_sizes(visible.skip(i)),
    decreases visible.len() - i,
{
    if i < visible.len() {
        lemma_list_sel_size_bound(visible, sel, i + 1);
        assert(visible.skip(i)[0] == visible[i]);
        assert(visible.skip(i).drop_first() =~= visible.skip(i + 1));
    }
}

/// The view of an optional project.
pub open spec fn opt_proj_v(r: Option<CleanableProject>) -> Option<ProjV> {
    match r {
        Some(p) => Some(p@),
        None => None,
    }
}

impl AppState {
    /// A fresh state at the start of a run: no projects yet, default
    /// projection, scan marked as running.
    pub fn new(scan_path: DirPath) -> (s: Self)
        ensures
            s@ == (StateV {
                scan_path: scan_path@,
                all: Seq::empty(),
                visible: Seq::empty(),
                selected_index: 0,
                selected: Seq::empty(),
                sort_mode: SortMode::SizeDesc,
                filter_mode: FilterMode::All,
                view_mode: ViewMode::List,
                tree: Seq::empty(),
                show_confirmation: false,
                deletion_confirmed: false,
                scanning: true,
                scanning_path: Seq::empty(),
                spinner: 0,
            }),
            state_wf(s@),
    {
        let s = AppState {
            scan_path,
            all_projects: Vec::new(),
            visible_projects: Vec::new(),
            selected_index: 0,
            selected_projects: Vec::new(),
            sort_mode: SortMode::SizeDesc,
            filter_mode: FilterMode::All,
            view_mode: ViewMode::List,
            tree_roots: Vec::new(),
            show_confirmation: false,
            deletion_confirmed: false,
            scanning: true,
            scanning_path: String::new(),
            spinner_index: 0,
        };
        proof {
            assert(projs_v(s.all_projects@) =~= Seq::<ProjV>::empty());
            assert(projs_v(s.visible_projects@) =~= Seq::<ProjV>::empty());
            assert(sel_v(s.selected_projects@) =~= Seq::<int>::empty());
            assert(forest_v(s.tree_roots@) =~= Seq::<NodeV>::empty());
            assert(s@ =~= StateV {
                scan_path: s.scan_path@,
                all: Seq::empty(),
                visible: Seq::empty(),
                selected_index: 0,
                selected: Seq::empty(),
                sort_mode: SortMode::SizeDesc,
                filter_mode: FilterMode::All,
                view_mode: ViewMode::List,
                tree: Seq::empty(),
                show_confirmation: false,
                deletion_confirmed: false,
                scanning: true,
                scanning_path: Seq::empty(),
                spinner: 0,
            });
        }
        s
    }

    /// The projects the List projection shows, in order.
    pub fn visible_projects(&self) -> (r: &Vec<CleanableProject>)
        ensures
            projs_v(r@) == self@.visible,
    {
        &self.visible_projects
    }

    /// The flattened, guide-decorated rows of the Tree projection.
    pub fn get_flat_tree(&self) -> (r: Vec<TreeFlatNode>)
        requires
            state_wf(self@),
        ensures
            flats_v(r@) == spec_flatten_forest(self@.tree),
    {
        crate::tree::flatten_tree(&self.tree_roots)
    }

    /// How many rows the active projection has.
    pub fn visible_count(&self) -> (r: usize)
        requires
            state_wf(self@),
        ensures
            r == spec_count(self@),
    {
        match self.view_mode {
            ViewMode::List => self.visible_projects.len(),
            ViewMode::Tree => {
                let flat = self.get_flat_tree();
                proof {
                    crate::tree::lemma_flatten_forest_len(self@.tree);
                }
                flat.len()
            },
        }
    }

    /// Whether the row at `index` is selected: by membership in the
    /// List selection, by the node's checked flag in Tree mode.
    pub fn is_selected(&self, index: usize) -> (r: bool)
        requires
            state_wf(self@),
        ensures
            (match self@.view_mode {
                ViewMode::List => r == self@.selected.contains(index as int),
                ViewMode::Tree => r == (index < visible_forest(self@.tree).len()
                    && spec_flatten_forest(self@.tree)[index as int].checked),
            }),
    {
        match self.view_mode {
            ViewMode::List => contains_idx(&self.selected_projects, index),
            ViewMode::Tree => {
                let flat = self.get_flat_tree();
                proof {
                    crate::tree::lemma_flatten_forest_len(self@.tree);
                }
                if index < flat.len() {
                    proof {
                        assert(flats_v(flat@)[index as int] == flat@[index as int]@);
                    }
                    flat[index].checked
                } else {
                    false
                }
            },
        }
    }

    /// How many projects are selected.
    pub fn selected_count(&self) -> (r: usize)
        requires
            state_wf(self@),
        ensures
            (match self@.view_mode {
                ViewMode::List => r == self@.selected.len(),
                ViewMode::Tree => r == spec_checked_projects(self@.tree).len(),
            }),
    {
        match self.view_mode {
            ViewMode::List => self.selected_projects.len(),
            ViewMode::Tree => crate::tree::count_checked_projects(&self.tree_roots),
        }
    }

    /// Total size of the selected projects.
    pub fn total_selected_size(&self) -> (r: u64)
        requires
            state_wf(self@),
        ensures
            (match self@.view_mode {
                ViewMode::List => r == list_sel_size_from(self@.visible, self@.selected, 0),
                ViewMode::Tree => r == sum_proj_sizes(spec_checked_projects(self@.tree)),
            }),
    {
        match self.view_mode {
            ViewMode::List => {
                let ghost vis = self@.visible;
                let ghost sel = self@.selected;
                proof {
                    lemma_list_sel_size_bound(vis, sel, 0);
                    assert(vis.skip(0) =~= vis);
                }
                let mut total: u64 = 0;
                let mut i: usize = 0;
                while i < self.visible_projects.len()
                    invariant
                        0 <= i <= self.visible_projects.len(),
                        vis == projs_v(self.visible_projects@),
                        sel == sel_v(self.selected_projects@),
                        vis.len() == self.visible_projects@.len(),
                        forall|j: int|
                            0 <= j < self.visible_projects@.len() ==> vis[j]
                                == self.visible_projects@[j]@,
                        list_sel_size_from(vis, sel, 0) <= u64::MAX,
                        total + list_sel_size_from(vis, sel, i as int) == list_sel_size_from(
                            vis,
                            sel,
                            0,
                        ),
                    decreases self.visible_projects.len() - i,
                {
                    if contains_idx(&self.selected_projects, i) {
                        total = total + self.visible_projects[i].total_size;
                    }
                    i = i + 1;
                }
                total
            },
            ViewMode::Tree => crate::tree::sum_checked_size(&self.tree_roots),
        }
    }

    /// The selected projects, materialized for the deletion step: in
    /// List mode in projection order, in Tree mode in pre-order.
    pub fn get_selected_projects(&self) -> (r: Vec<CleanableProject>)
        requires
            state_wf(self@),
        ensures
            (match self@.view_mode {
                ViewMode::List => projs_v(r@) == list_selected_from(
                    self@.visible,
                    self@.selected,
                    0,
                ),
                ViewMode::Tree => projs_v(r@) == spec_checked_projects(self@.tree),
            }),
    {
        match self.view_mode {
            ViewMode::List => {
                let ghost vis = self@.visible;
                let ghost sel = self@.selected;
                let mut out: Vec<CleanableProject> = Vec::new();
                proof {
                    assert(projs_v(out@) =~= Seq::<ProjV>::empty());
                }
                let mut i: usize = 0;
                while i < self.visible_projects.len()
                    invariant
                        0 <= i <= self.visible_projects.len(),
                        vis == projs_v(self.visible_projects@),
                        sel == sel_v(self.selected_projects@),
                        vis.len() == self.visible_projects@.len(),
                        forall|j: int|
                            0 <= j < self.visible_projects@.len() ==> vis[j]
                                == self.visible_projects@[j]@,
                        projs_v(out@).len() == out@.len(),
                        forall|j: int| 0 <= j < out@.len() ==> projs_v(out@)[j] == out@[j]@,
                        projs_v(out@) + list_selected_from(vis, sel, i as int)
                            == list_selected_from(vis, sel, 0),
                    decreases self.visible_projects.len() - i,
                {
                    let ghost pre = projs_v(out@);
                    if contains_idx(&self.selected_projects, i) {
                        out.push(self.visible_projects[i].clone());
                        proof {
                            assert(projs_v(out@) =~= pre.push(vis[i as int]));
                            assert(projs_v(out@) + list_selected_from(vis, sel, i + 1)
                                =~= list_selected_from(vis, sel, 0));
                        }
                    } else {
                        proof {
                            assert(projs_v(out@) + list_selected_from(vis, sel, i + 1)
                                =~= list_selected_from(vis, sel, 0));
                        }
                    }
                    i = i + 1;
                }
                out
            },
            ViewMode::Tree => crate::tree::collect_checked_projects(&self.tree_roots),
        }
    }

    /// The project under the cursor, if the cursor stands on one.
    pub fn current_project(&self) -> (r: Option<CleanableProject>)
        requires
            state_wf(self@),
        ensures
            (match self@.view_mode {
                ViewMode::List => {
                    &&& self@.selected_index < self@.visible.len() ==> opt_proj_v(r) == Some(
                        self@.visible[self@.selected_index as int],
                    )
                    &&& self@.selected_index >= self@.visible.len() ==> r is None
                },
                ViewMode::Tree => {
                    &&& self@.selected_index < visible_forest(self@.tree).len() ==> opt_proj_v(r)
                        == spec_flatten_forest(self@.tree)[self@.selected_index as int].project
                    &&& self@.selected_index >= visible_forest(self@.tree).len() ==> r is None
                },
            }),
    {
        match self.view_mode {
            ViewMode::List => {
                if self.selected_index < self.visible_projects.len() {
                    proof {
                        assert(projs_v(self.visible_projects@)[self.selected_index as int]
                            == self.visible_projects@[self.selected_index as int]@);
                    }
                    Some(self.visible_projects[self.selected_index].clone())
                } else {
                    None
                }
            },
            ViewMode::Tree => {
                let flat = self.get_flat_tree();
                proof {
                    crate::tree::lemma_flatten_forest_len(self@.tree);
                }
                if self.selected_index < flat.len() {
                    proof {
                        assert(flats_v(flat@)[self.selected_index as int]
                            == flat@[self.selected_index as int]@);
                    }
                    match &flat[self.selected_index].project {
                        Some(p) => Some(p.clone()),
                        None => None,
                    }
                } else {
                    None
                }
            },
        }
    }

    /// Freezes the state for the deletion step.
    pub fn confirm_deletion(&mut self)
        ensures
            final(self)@ == (StateV { deletion_confirmed: true, ..old(self)@ }),
    {
        self.deletion_confirmed = true;
        proof {
            assert(self@ =~= StateV { deletion_confirmed: true, ..old(self)@ });
        }
    }

    /// Moves the cursor one row up, stopping at the first row.
    pub fn move_up(&mut self)
        ensures
            final(self)@ == (StateV {
                selected_index: if old(self)@.selected_index > 0 {
                    (old(self)@.selected_index - 1) as nat
                } else {
                    0
                },
                ..old(self)@
            }),
    {
        if self.selected_index > 0 {
            self.selected_index = self.selected_index - 1;
        }
        proof {
            assert(self@ =~= StateV {
                selected_index: if old(self)@.selected_index > 0 {
                    (old(self)@.selected_index - 1) as nat
                } else {
                    0
                },
                ..old(self)@
            });
        }
    }

    /// Moves the cursor one row down, stopping at the last row of the
    /// active projection.
    pub fn move_down(&mut self)
        requires
            state_wf(old(self)@),
        ensures
            final(self)@ == (StateV {
                selected_index: if old(self)@.selected_index + 1 < spec_count(old(self)@) {
                    old(self)@.selected_index + 1
                } else {
                    old(self)@.selected_index
                },
                ..old(self)@
            }),
    {
        let count = self.visible_count();
        if count > 0 && self.selected_index < count - 1 {
            self.selected_index = self.selected_index + 1;
        }
        proof {
            assert(self@ =~= StateV {
                selected_index: if old(self)@.selected_index + 1 < spec_count(old(self)@) {
                    old(self)@.selected_index + 1
                } else {
                    old(self)@.selected_index
                },
                ..old(self)@
            });
        }
    }
}

} // verus!

verus! {

pub proof fn lemma_filter_append(a: Seq<ProjV>, b: Seq<ProjV>, f: FilterMode)
    ensures
        spec_filter_projects(a + b, f) == spec_filter_projects(a, f) + spec_filter_projects(b, f),
    decreases a,
{
    if a.len() == 0 {
        assert(a + b =~= b);
        assert(spec_filter_projects(a, f) + spec_filter_projects(b, f) =~= spec_filter_projects(
            b,
            f,
        ));
    } else {
        assert((a + b).drop_first() =~= a.drop_first() + b);
        lemma_filter_append(a.drop_first(), b, f);
        assert(spec_filter_projects(a + b, f) =~= spec_filter_projects(a, f)
            + spec_filter_projects(b, f));
    }
}

/// What passes the filter weighs no more than the whole list.
pub proof fn lemma_filter_sum_le(all: Seq<ProjV>, f: FilterMode)
    ensures
        sum_proj_sizes(spec_filter_projects(all, f)) <= sum_proj_sizes(all),
    decreases all,
{
    if all.len() > 0 {
        lemma_filter_sum_le(all.drop_first(), f);
        if passes_filter(all[0], f) {
            crate::tree::lemma_sum_proj_sizes_append(seq![all[0]], spec_filter_projects(
                all.drop_first(),
                f,
            ));
            crate::tree::lemma_sum_proj_sizes_singleton(all[0]);
        } else {
            assert(spec_filter_projects(all, f) =~= spec_filter_projects(all.drop_first(), f));
        }
    }
}

/// Whether the project passes the filter.
fn passes_filter_exec(p: &CleanableProject, f: FilterMode) -> (r: bool)
    ensures
        r == passes_filter(p@, f),
{
    match f {
        FilterMode::All => true,
        FilterMode::NodeJs => p.kind == StrategyKind::NodeJs,
        FilterMode::Rust => p.kind == StrategyKind::Rust,
        FilterMode::Flutter => p.kind == StrategyKind::Flutter,
        FilterMode::Android => p.kind == StrategyKind::Android,
    }
}

/// The projects that pass the filter, in arrival order.
fn filter_projects(all: &Vec<CleanableProject>, f: FilterMode) -> (r: Vec<CleanableProject>)
    ensures
        projs_v(r@) == spec_filter_projects(projs_v(all@), f),
{
    let ghost av = projs_v(all@);
    let mut out: Vec<CleanableProject> = Vec::new();
    let mut i: usize = 0;
    proof {
        assert(projs_v(out@) =~= Seq::<ProjV>::empty());
        assert(spec_filter_projects(av.take(0), f) =~= Seq::<ProjV>::empty());
    }
    while i < all.len()
        invariant
            0 <= i <= all.len(),
            av == projs_v(all@),
            av.len() == all@.len(),
            forall|j: int| 0 <= j < all@.len() ==> av[j] == all@[j]@,
            projs_v(out@).len() == out@.len(),
            forall|j: int| 0 <= j < out@.len() ==> projs_v(out@)[j] == out@[j]@,
            projs_v(out@) =~= spec_filter_projects(av.take(i as int), f),
        decreases all.len() - i,
    {
        proof {
            assert(av.take(i + 1) =~= av.take(i as int) + seq![av[i as int]]);
            lemma_filter_append(av.take(i as int), seq![av[i as int]], f);
            assert(seq![av[i as int]].drop_first() =~= Seq::<ProjV>::empty());
            assert(spec_filter_projects(Seq::<ProjV>::empty(), f) =~= Seq::<ProjV>::empty());
        }
        let ghost pre = projs_v(out@);
        if passes_filter_exec(&all[i], f) {
            out.push(all[i].clone());
            proof {
                assert(projs_v(out@) =~= pre.push(av[i as int]));
                assert(projs_v(out@) =~= spec_filter_projects(av.take(i + 1), f));
            }
        } else {
            proof {
                assert(projs_v(out@) =~= spec_filter_projects(av.take(i + 1), f));
            }
        }
        i = i + 1;
    }
    proof {
        assert(av.take(all@.len() as int) =~= av);
    }
    out
}

/// How two projects compare under the sort mode.
fn proj_le_exec(m: SortMode, a: &CleanableProject, b: &CleanableProject) -> (r: bool)
    ensures
        r == proj_le(m, a@, b@),
{
    match m {
        SortMode::SizeDesc => a.total_size >= b.total_size,
        SortMode::SizeAsc => a.total_size <= b.total_size,
        SortMode::NameAsc => !b.root_path.path_less(&a.root_path),
        SortMode::NameDesc => !a.root_path.path_less(&b.root_path),
    }
}

/// The List ordering is total and transitive.
pub proof fn lemma_proj_le_props(m: SortMode)
    ensures
        forall|a: ProjV, b: ProjV| #[trigger] proj_le(m, a, b) || #[trigger] proj_le(m, b, a),
        forall|a: ProjV, b: ProjV, c: ProjV|
            #[trigger] proj_le(m, a, b) && #[trigger] proj_le(m, b, c) ==> proj_le(m, a, c),
{
    crate::path::lemma_path_lt_strict_total();
    let plt = |a: Seq<Seq<u8>>, b: Seq<Seq<u8>>| path_lt(a, b);
    assert forall|a: ProjV, b: ProjV| #[trigger] proj_le(m, a, b) || #[trigger] proj_le(
        m,
        b,
        a,
    ) by {
        if m is NameAsc || m is NameDesc {
            assert(plt(a.root_path, b.root_path) ==> !plt(b.root_path, a.root_path));
        }
    }
    assert forall|a: ProjV, b: ProjV, c: ProjV|
        #[trigger] proj_le(m, a, b) && #[trigger] proj_le(m, b, c) implies proj_le(m, a, c) by {
        if m is NameAsc {
            if path_lt(c.root_path, a.root_path) {
                assert(!plt(b.root_path, a.root_path) && !plt(c.root_path, b.root_path));
                assert(plt(c.root_path, a.root_path));
                if plt(a.root_path, b.root_path) {
                    assert(plt(c.root_path, b.root_path));
                    assert(false);
                } else {
                    assert(a.root_path == b.root_path);
                    assert(false);
                }
            }
        }
        if m is NameDesc {
            if path_lt(a.root_path, c.root_path) {
                assert(!plt(a.root_path, b.root_path) && !plt(b.root_path, c.root_path));
                if plt(b.root_path, a.root_path) {
                    assert(plt(b.root_path, c.root_path));
                    assert(false);
                } else {
                    assert(a.root_path == b.root_path);
                    assert(false);
                }
            }
        }
    }
}

/// Sorts the projects by the active mode: the result is ordered and
/// holds the same projects, byte for byte.
fn sort_visible(list: Vec<CleanableProject>, m: SortMode) -> (r: Vec<CleanableProject>)
    ensures
        projs_v(r@) == sort_by_mode(projs_v(list@), m),
        sorted_by(projs_v(r@), |a: ProjV, b: ProjV| proj_le(m, a, b)),
        projs_v(r@).to_multiset() == projs_v(list@).to_multiset(),
        sum_proj_sizes(projs_v(r@)) == sum_proj_sizes(projs_v(list@)),
{
    let ghost leq = |a: ProjV, b: ProjV| proj_le(m, a, b);
    proof {
        lemma_proj_le_props(m);
        broadcast use vstd::seq_lib::group_to_multiset_ensures;

    }
    let mut sorted: Vec<CleanableProject> = Vec::new();
    let mut i: usize = 0;
    proof {
        assert(projs_v(sorted@) =~= Seq::<ProjV>::empty());
        assert(projs_v(list@).take(0) =~= Seq::<ProjV>::empty());
        assert(projs_v(sorted@) == sort_by_mode(projs_v(list@).take(0), m));
        assert(projs_v(sorted@).to_multiset() =~= projs_v(list@).take(0).to_multiset());
    }
    while i < list.len()
        invariant
            0 <= i <= list.len(),
            projs_v(list@).len() == list@.len(),
            forall|j: int| 0 <= j < list@.len() ==> projs_v(list@)[j] == list@[j]@,
            projs_v(sorted@).len() == sorted@.len(),
            forall|j: int| 0 <= j < sorted@.len() ==> projs_v(sorted@)[j] == sorted@[j]@,
            leq == (|a: ProjV, b: ProjV| proj_le(m, a, b)),
            sorted_by(projs_v(sorted@), leq),
            projs_v(sorted@) == sort_by_mode(projs_v(list@).take(i as int), m),
            projs_v(sorted@).to_multiset() == projs_v(list@).take(i as int).to_multiset(),
            sum_proj_sizes(projs_v(sorted@)) == sum_proj_sizes(projs_v(list@).take(i as int)),
        decreases list.len() - i,
    {
        proof {
            broadcast use vstd::seq_lib::group_to_multiset_ensures;

        }
        let c = list[i].clone();
        let ghost cv = projs_v(list@)[i as int];
        let ghost pre = projs_v(sorted@);
        let mut j: usize = sorted.len();
        while j > 0 && !proj_le_exec(m, &sorted[j - 1], &c)
            invariant
                0 <= j <= sorted.len(),
                projs_v(sorted@).len() == sorted@.len(),
                forall|mm: int| 0 <= mm < sorted@.len() ==> projs_v(sorted@)[mm] == sorted@[mm]@,
                c@ == cv,
                forall|k: int|
                    j <= k < sorted@.len() ==> !proj_le(m, (#[trigger] projs_v(sorted@)[k]), cv),
            decreases j,
        {
            j = j - 1;
        }
        proof {
            lemma_proj_le_props(m);
            lemma_insert_by_mode_at(pre, cv, m, j as int);
        }
        sorted.insert(j, c);
        proof {
            assert(sorted@[j as int]@ == cv);
            assert(projs_v(sorted@) =~= pre.insert(j as int, cv));
            assert(pre.insert(j as int, cv) =~= pre.take(j as int).push(cv) + pre.skip(j as int));
            assert(projs_v(sorted@) == insert_by_mode(pre, cv, m));
            assert(sort_by_mode(projs_v(list@).take(i + 1), m) == insert_by_mode(
                sort_by_mode(projs_v(list@).take(i as int), m),
                cv,
                m,
            )) by {
                assert(projs_v(list@).take(i + 1).drop_last() =~= projs_v(list@).take(i as int));
                assert(projs_v(list@).take(i + 1).last() == cv);
            }
            assert(pre.insert(j as int, cv) =~= pre.take(j as int).push(cv) + pre.skip(j as int));
            // The spliced sequence stays ordered.
            assert(sorted_by(projs_v(sorted@), leq)) by {
                let cur = pre.take(j as int).push(cv) + pre.skip(j as int);
                assert forall|x: int, y: int| 0 <= x < y < cur.len() implies leq(
                    cur[x],
                    cur[y],
                ) by {
                    if y < j {
                        assert(cur[x] == pre[x] && cur[y] == pre[y]);
                        assert(leq(pre[x], pre[y]));
                    } else if y == j {
                        assert(cur[y] == cv);
                        assert(cur[x] == pre[x]);
                        if j < pre.len() + 1 && x < j {
                            if x == j - 1 {
                                assert(proj_le(m, pre[x], cv));
                            } else {
                                assert(leq(pre[x], pre[j - 1]));
                                assert(proj_le(m, pre[j - 1], cv));
                            }
                        }
                    } else {
                        assert(cur[y] == pre[y - 1]);
                        assert(!proj_le(m, pre[y - 1], cv));
                        assert(proj_le(m, cv, pre[y - 1]));
                        if x == j {
                            assert(cur[x] == cv);
                        } else if x < j {
                            assert(cur[x] == pre[x]);
                            if x == j - 1 {
                                assert(proj_le(m, pre[x], cv));
                            } else {
                                assert(leq(pre[x], pre[j - 1]));
                                assert(proj_le(m, pre[j - 1], cv));
                            }
                            assert(proj_le(m, pre[x], cv));
                            assert(proj_le(m, cv, pre[y - 1]));
                        } else {
                            assert(cur[x] == pre[x - 1]);
                            assert(leq(pre[x - 1], pre[y - 1]));
                        }
                    }
                }
            }
            broadcast use vstd::seq_lib::group_to_multiset_ensures;

            vstd::seq_lib::to_multiset_insert(pre, j as int, cv);
            assert(projs_v(list@).take(i + 1) =~= projs_v(list@).take(i as int).push(cv));
            // Sizes move with the elements.
            crate::tree::lemma_sum_proj_sizes_append(
                pre.take(j as int).push(cv),
                pre.skip(j as int),
            );
            crate::tree::lemma_sum_proj_sizes_append(pre.take(j as int), seq![cv]);
            crate::tree::lemma_sum_proj_sizes_singleton(cv);
            assert(pre.take(j as int).push(cv) =~= pre.take(j as int) + seq![cv]);
            assert(pre =~= pre.take(j as int) + pre.skip(j as int));
            crate::tree::lemma_sum_proj_sizes_append(pre.take(j as int), pre.skip(j as int));
            crate::tree::lemma_sum_proj_sizes_append(projs_v(list@).take(i as int), seq![cv]);
            assert(projs_v(list@).take(i + 1) =~= projs_v(list@).take(i as int) + seq![cv]);
        }
        i = i + 1;
    }
    proof {
        assert(projs_v(list@).take(list@.len() as int) =~= projs_v(list@));
    }
    sorted
}

impl AppState {
    /// Re-derives the active projection from the project set, the
    /// filter and the sort mode, and clamps the cursor. A Tree-mode
    /// refresh rebuilds the forest from scratch: prior checked and
    /// collapsed flags are discarded.
    fn refresh_visible(&mut self)
        requires
            state_wf(old(self)@),
        ensures
            state_wf(final(self)@),
            refreshed(old(self)@, final(self)@),
    {
        let ghost pre = old(self)@;
        let filtered = filter_projects(&self.all_projects, self.filter_mode);
        proof {
            lemma_filter_sum_le(pre.all, self.filter_mode);
        }
        match self.view_mode {
            ViewMode::List => {
                let ghost fv = projs_v(filtered@);
                self.visible_projects = sort_visible(filtered, self.sort_mode);
                proof {
                    assert(sum_proj_sizes(projs_v(self.visible_projects@)) == sum_proj_sizes(fv));
                    assert(self@.selected == pre.selected);
                    assert(state_wf(self@));
                }
            },
            ViewMode::Tree => {
                let ghost fv = projs_v(filtered@);
                self.tree_roots = crate::tree::build_tree(&filtered, &self.scan_path);
                proof {
                    crate::tree::lemma_build_tree_sizes(fv, pre.scan_path);
                    assert(forest_sizes(forest_v(self.tree_roots@)) <= u64::MAX);
                    assert(self@.selected == pre.selected);
                    assert(state_wf(self@));
                }
            },
        }
        let count = self.visible_count();
        if self.selected_index >= count && count > 0 {
            self.selected_index = count - 1;
        }
        proof {
            assert(state_wf(self@));
            assert(refreshed(pre, self@));
        }
    }

    /// Takes one more discovered project into the set and re-derives
    /// the projection.
    pub fn add_project(&mut self, project: CleanableProject)
        requires
            state_wf(old(self)@),
            sum_proj_sizes(old(self)@.all) + project@.total_size <= u64::MAX,
        ensures
            state_wf(final(self)@),
            refreshed((StateV { all: old(self)@.all.push(project@), ..old(self)@ }), final(self)@),
    {
        let ghost pv = project@;
        proof {
            crate::tree::lemma_sum_proj_sizes_append(old(self)@.all, seq![pv]);
            crate::tree::lemma_sum_proj_sizes_singleton(pv);
            assert(old(self)@.all.push(pv) =~= old(self)@.all + seq![pv]);
        }
        self.all_projects.push(project);
        proof {
            assert(projs_v(self.all_projects@) =~= old(self)@.all.push(pv));
            assert(self@ =~= StateV { all: old(self)@.all.push(pv), ..old(self)@ });
        }
        self.refresh_visible();
    }

    /// Marks the scan as finished and re-derives the projection.
    pub fn finish_scan(&mut self)
        requires
            state_wf(old(self)@),
        ensures
            state_wf(final(self)@),
            refreshed((StateV { scanning: false, ..old(self)@ }), final(self)@),
    {
        self.scanning = false;
        proof {
            assert(self@ =~= StateV { scanning: false, ..old(self)@ });
        }
        self.refresh_visible();
    }

    /// Swaps between List and Tree, resets the cursor, and re-derives
    /// the active projection.
    pub fn toggle_view_mode(&mut self)
        requires
            state_wf(old(self)@),
        ensures
            state_wf(final(self)@),
            refreshed(
                (StateV {
                    view_mode: (match old(self)@.view_mode {
                        ViewMode::List => ViewMode::Tree,
                        ViewMode::Tree => ViewMode::List,
                    }),
                    selected_index: 0,
                    ..old(self)@
                }),
                final(self)@,
            ),
    {
        self.view_mode = match self.view_mode {
            ViewMode::List => ViewMode::Tree,
            ViewMode::Tree => ViewMode::List,
        };
        self.selected_index = 0;
        proof {
            assert(self@ =~= StateV {
                view_mode: (match old(self)@.view_mode {
                    ViewMode::List => ViewMode::Tree,
                    ViewMode::Tree => ViewMode::List,
                }),
                selected_index: 0,
                ..old(self)@
            });
        }
        self.refresh_visible();
    }

    /// The successor in the sort cycle.
    pub open spec fn spec_next_sort(m: SortMode) -> SortMode {
        match m {
            SortMode::SizeDesc => SortMode::SizeAsc,
            SortMode::SizeAsc => SortMode::NameAsc,
            SortMode::NameAsc => SortMode::NameDesc,
            SortMode::NameDesc => SortMode::SizeDesc,
        }
    }

    /// Advances the sort cycle by one mode and re-derives the
    /// projection.
    pub fn toggle_sort(&mut self)
        requires
            state_wf(old(self)@),
        ensures
            state_wf(final(self)@),
            refreshed(
                (StateV { sort_mode: Self::spec_next_sort(old(self)@.sort_mode), ..old(self)@ }),
                final(self)@,
            ),
    {
        self.sort_mode = match self.sort_mode {
            SortMode::SizeDesc => SortMode::SizeAsc,
            SortMode::SizeAsc => SortMode::NameAsc,
            SortMode::NameAsc => SortMode::NameDesc,
            SortMode::NameDesc => SortMode::SizeDesc,
        };
        proof {
            assert(self@ =~= StateV {
                sort_mode: Self::spec_next_sort(old(self)@.sort_mode),
                ..old(self)@
            });
        }
        self.refresh_visible();
    }

    /// Advances the filter cycle, resets the cursor and the List-mode
    /// selection, and re-derives the projection.
    pub fn cycle_filter(&mut self)
        requires
            state_wf(old(self)@),
        ensures
            state_wf(final(self)@),
            refreshed(
                (StateV {
                    filter_mode: spec_next_filter(old(self)@.filter_mode),
                    selected_index: 0,
                    selected: Seq::empty(),
                    ..old(self)@
                }),
                final(self)@,
            ),
    {
        self.filter_mode = self.filter_mode.next();
        self.selected_index = 0;
        self.selected_projects = Vec::new();
        proof {
            assert(sel_v(self.selected_projects@) =~= Seq::<int>::empty());
            assert(self@ =~= StateV {
                filter_mode: spec_next_filter(old(self)@.filter_mode),
                selected_index: 0,
                selected: Seq::empty(),
                ..old(self)@
            });
        }
        self.refresh_visible();
    }
}

} // verus!

verus! {

/// How many projects are selected, per the active view.
pub open spec fn spec_selected_count(s: StateV) -> nat {
    match s.view_mode {
        ViewMode::List => s.selected.len(),
        ViewMode::Tree => spec_checked_projects(s.tree).len(),
    }
}

/// What toggling the selection does: in List mode the cursor position
/// joins or leaves the selection; in Tree mode the node under the
/// cursor has its checked flag flipped and propagated to its subtree.
pub open spec fn rel_toggle_selection(pre: StateV, post: StateV) -> bool {
    match pre.view_mode {
        ViewMode::List => {
            if pre.visible.len() == 0 {
                post == pre
            } else if pre.selected.contains(pre.selected_index as int) {
                exists|m: int|
                    0 <= m < pre.selected.len() && pre.selected[m] == pre.selected_index as int
                        && post == (StateV { selected: pre.selected.remove(m), ..pre })
            } else {
                post == (StateV {
                    selected: pre.selected.push(pre.selected_index as int),
                    ..pre
                })
            }
        },
        ViewMode::Tree => {
            if pre.selected_index < visible_forest(pre.tree).len() {
                post == (StateV {
                    tree: spec_apply_at_forest(
                        pre.tree,
                        pre.selected_index as int,
                        NodeOp::ToggleChecked,
                    ),
                    ..pre
                })
            } else {
                post == pre
            }
        },
    }
}

/// What toggling expansion does: in Tree mode the node under the cursor
/// has its collapsed flag flipped if it has children; List mode is
/// untouched.
pub open spec fn rel_toggle_expand(pre: StateV, post: StateV) -> bool {
    match pre.view_mode {
        ViewMode::List => post == pre,
        ViewMode::Tree => {
            if pre.selected_index < visible_forest(pre.tree).len() {
                post == (StateV {
                    tree: spec_apply_at_forest(
                        pre.tree,
                        pre.selected_index as int,
                        NodeOp::ToggleExpand,
                    ),
                    ..pre
                })
            } else {
                post == pre
            }
        },
    }
}

impl AppState {
    /// Flips the selection under the cursor. In List mode the cursor
    /// position joins or leaves the selection set; selection is
    /// positional, so a later re-sort or re-filter may let a held
    /// position point at a different project. In Tree mode the node
    /// under the cursor has its checked flag flipped and propagated to
    /// its whole subtree; its siblings are untouched.
    pub fn toggle_selection(&mut self)
        requires
            state_wf(old(self)@),
        ensures
            state_wf(final(self)@),
            rel_toggle_selection(old(self)@, final(self)@),
    {
        let ghost pre = old(self)@;
        match self.view_mode {
            ViewMode::List => {
                if self.visible_projects.len() == 0 {
                    proof {
                        assert(self@ =~= pre);
                    }
                    return ;
                }
                let idx = self.selected_index;
                let ghost sel = pre.selected;
                let mut m: usize = 0;
                while m < self.selected_projects.len()
                    invariant
                        0 <= m <= self.selected_projects@.len(),
                        sel == sel_v(self.selected_projects@),
                        sel.len() == self.selected_projects@.len(),
                        forall|j: int|
                            0 <= j < self.selected_projects@.len() ==> sel[j]
                                == self.selected_projects@[j] as int,
                        forall|j: int| 0 <= j < m ==> sel[j] != idx as int,
                        pre == old(self)@,
                        self@ == pre,
                        state_wf(pre),
                        sel == pre.selected,
                        pre.visible.len() > 0,
                        pre.view_mode == ViewMode::List,
                        idx == pre.selected_index,
                    decreases self.selected_projects.len() - m,
                {
                    if self.selected_projects[m] == idx {
                        let ghost pre_sel = self.selected_projects@;
                        self.selected_projects.remove(m);
                        proof {
                            assert(self.selected_projects@ =~= pre_sel.remove(m as int));
                            assert(sel_v(self.selected_projects@) =~= sel.remove(m as int));
                            assert(sel[m as int] == idx as int);
                            assert(sel.contains(idx as int));
                            assert(self@ =~= StateV { selected: sel.remove(m as int), ..pre });
                            assert(0 <= (m as int) && (m as int) < pre.selected.len()
                                && pre.selected[m as int]
                                == pre.selected_index as int && self@ == (StateV {
                                selected: pre.selected.remove(m as int),
                                ..pre
                            }));
                            assert(pre.selected.contains(pre.selected_index as int));
                            assert(forall|i: int, j: int|
                                0 <= i < j < sel.len() ==> sel[i] != sel[j]);
                            assert(sel.remove(m as int) =~= sel.take(m as int) + sel.skip(
                                m as int + 1,
                            ));
                            assert forall|i: int, j: int|
                                0 <= i < j < sel.remove(m as int).len() implies sel.remove(
                                m as int,
                            )[i] != sel.remove(m as int)[j] by {
                                if i < m {
                                    assert(sel.remove(m as int)[i] == sel[i]);
                                } else {
                                    assert(sel.remove(m as int)[i] == sel[i + 1]);
                                }
                                if j < m {
                                    assert(sel.remove(m as int)[j] == sel[j]);
                                } else {
                                    assert(sel.remove(m as int)[j] == sel[j + 1]);
                                }
                            }
                        }
                        return ;
                    }
                    m = m + 1;
                }
                proof {
                    if sel.contains(idx as int) {
                        let w = choose|w: int| 0 <= w < sel.len() && sel[w] == idx as int;
                        assert(false);
                    }
                }
                let ghost pre_sel = self.selected_projects@;
                self.selected_projects.push(idx);
                proof {
                    assert(sel_v(self.selected_projects@) =~= sel.push(idx as int));
                    assert(self@ =~= StateV { selected: sel.push(idx as int), ..pre });
                    assert forall|i: int, j: int|
                        0 <= i < j < sel.push(idx as int).len() implies sel.push(idx as int)[i]
                        != sel.push(idx as int)[j] by {
                        if j == sel.len() {
                            assert(sel.push(idx as int)[i] == sel[i]);
                            assert(sel.push(idx as int)[j] == idx as int);
                            if sel[i] == idx as int {
                                assert(sel.contains(idx as int));
                                assert(false);
                            }
                        }
                    }
                }
            },
            ViewMode::Tree => {
                let idx = self.selected_index;
                let found = crate::tree::apply_tree_op(
                    &mut self.tree_roots,
                    idx,
                    NodeOp::ToggleChecked,
                );
                proof {
                    crate::tree::lemma_apply_at_forest_sizes(
                        pre.tree,
                        idx as int,
                        NodeOp::ToggleChecked,
                    );
                    if found {
                        assert(self@ =~= StateV {
                            tree: spec_apply_at_forest(pre.tree, idx as int, NodeOp::ToggleChecked),
                            ..pre
                        });
                    } else {
                        assert(self@ =~= pre);
                    }
                }
            },
        }
    }

    /// In Tree mode, flips the collapsed flag of the node under the
    /// cursor if it has children; in List mode, does nothing.
    pub fn toggle_expand(&mut self)
        requires
            state_wf(old(self)@),
        ensures
            state_wf(final(self)@),
            rel_toggle_expand(old(self)@, final(self)@),
    {
        let ghost pre = old(self)@;
        match self.view_mode {
            ViewMode::List => {
                proof {
                    assert(self@ =~= pre);
                }
            },
            ViewMode::Tree => {
                let idx = self.selected_index;
                let found = crate::tree::apply_tree_op(
                    &mut self.tree_roots,
                    idx,
                    NodeOp::ToggleExpand,
                );
                proof {
                    crate::tree::lemma_apply_at_forest_sizes(
                        pre.tree,
                        idx as int,
                        NodeOp::ToggleExpand,
                    );
                    if found {
                        assert(self@ =~= StateV {
                            tree: spec_apply_at_forest(pre.tree, idx as int, NodeOp::ToggleExpand),
                            ..pre
                        });
                    } else {
                        assert(self@ =~= pre);
                    }
                }
            },
        }
    }
}

} // verus!

verus! {

impl AppState {
    /// Drives one step of the state machine from a user intent and says
    /// whether the interactive loop should end. While the confirmation
    /// modal is up, confirming with a non-empty selection freezes the
    /// state and ends the loop; any other answer closes the modal.
    /// Otherwise each intent maps to its mutator, and quitting ends the
    /// loop.
    pub fn handle_event(&mut self, event: AppEvent) -> (quit: bool)
        requires
            state_wf(old(self)@),
        ensures
            state_wf(final(self)@),
            (if old(self)@.show_confirmation {
                match event {
                    AppEvent::ConfirmAction => {
                        if spec_selected_count(old(self)@) > 0 {
                            quit && final(self)@ == (StateV {
                                deletion_confirmed: true,
                                ..old(self)@
                            })
                        } else {
                            !quit && final(self)@ == (StateV {
                                show_confirmation: false,
                                ..old(self)@
                            })
                        }
                    },
                    AppEvent::CloseModal | AppEvent::Quit => !quit && final(self)@ == (StateV {
                        show_confirmation: false,
                        ..old(self)@
                    }),
                    _ => !quit && final(self)@ == old(self)@,
                }
            } else {
                match event {
                    AppEvent::Quit => quit && final(self)@ == old(self)@,
                    AppEvent::MoveUp => !quit && final(self)@ == (StateV {
                        selected_index: if old(self)@.selected_index > 0 {
                            (old(self)@.selected_index - 1) as nat
                        } else {
                            0
                        },
                        ..old(self)@
                    }),
                    AppEvent::MoveDown => !quit && final(self)@ == (StateV {
                        selected_index: if old(self)@.selected_index + 1 < spec_count(
                            old(self)@,
                        ) {
                            old(self)@.selected_index + 1
                        } else {
                            old(self)@.selected_index
                        },
                        ..old(self)@
                    }),
                    AppEvent::ToggleSelection => !quit && rel_toggle_selection(
                        old(self)@,
                        final(self)@,
                    ),
                    AppEvent::ConfirmAction => !quit && final(self)@ == (StateV {
                        show_confirmation: true,
                        ..old(self)@
                    }),
                    AppEvent::ToggleSort => !quit && refreshed(
                        (StateV {
                            sort_mode: Self::spec_next_sort(old(self)@.sort_mode),
                            ..old(self)@
                        }),
                        final(self)@,
                    ),
                    AppEvent::CycleFilter => !quit && refreshed(
                        (StateV {
                            filter_mode: spec_next_filter(old(self)@.filter_mode),
                            selected_index: 0,
                            selected: Seq::empty(),
                            ..old(self)@
                        }),
                        final(self)@,
                    ),
                    AppEvent::ToggleViewMode => !quit && refreshed(
                        (StateV {
                            view_mode: (match old(self)@.view_mode {
                                ViewMode::List => ViewMode::Tree,
                                ViewMode::Tree => ViewMode::List,
                            }),
                            selected_index: 0,
                            ..old(self)@
                        }),
                        final(self)@,
                    ),
                    AppEvent::ToggleExpand => !quit && rel_toggle_expand(
                        old(self)@,
                        final(self)@,
                    ),
                    AppEvent::CloseModal => !quit && final(self)@ == old(self)@,
                }
            }),
    {
        let ghost pre = old(self)@;
        if self.show_confirmation {
            match event {
                AppEvent::ConfirmAction => {
                    if self.selected_count() > 0 {
                        self.confirm_deletion();
                        true
                    } else {
                        self.show_confirmation = false;
                        proof {
                            assert(self@ =~= StateV { show_confirmation: false, ..pre });
                        }
                        false
                    }
                },
                AppEvent::CloseModal | AppEvent::Quit => {
                    self.show_confirmation = false;
                    proof {
                        assert(self@ =~= StateV { show_confirmation: false, ..pre });
                    }
                    false
                },
                _ => false,
            }
        } else {
            match event {
                AppEvent::Quit => true,
                AppEvent::MoveUp => {
                    self.move_up();
                    false
                },
                AppEvent::MoveDown => {
                    self.move_down();
                    false
                },
                AppEvent::ToggleSelection => {
                    self.toggle_selection();
                    false
                },
                AppEvent::ConfirmAction => {
                    self.show_confirmation = true;
                    proof {
                        assert(self@ =~= StateV { show_confirmation: true, ..pre });
                    }
                    false
                },
                AppEvent::ToggleSort => {
                    self.toggle_sort();
                    false
                },
                AppEvent::CycleFilter => {
                    self.cycle_filter();
                    false
                },
                AppEvent::ToggleViewMode => {
                    self.toggle_view_mode();
                    false
                },
                AppEvent::ToggleExpand => {
                    self.toggle_expand();
                    false
                },
                AppEvent::CloseModal => false,
            }
        }
    }
}

/// Cycling the sort mode four times returns to where it started.
pub proof fn lemma_sort_cycle_returns(m: SortMode)
    ensures
        AppState::spec_next_sort(
            AppState::spec_next_sort(AppState::spec_next_sort(AppState::spec_next_sort(m))),
        ) == m,
{
}

/// Cycling the filter five times (everything, then one strategy at a
/// time) returns to where it started.
pub proof fn lemma_filter_cycle_returns(f: FilterMode)
    ensures
        spec_next_filter(
            spec_next_filter(spec_next_filter(spec_next_filter(spec_next_filter(f)))),
        ) == f,
{
}

} // verus!
