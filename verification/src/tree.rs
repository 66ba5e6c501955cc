//! The project tree: a forest keyed by path segments, with per-node
//! aggregate size, tri-state selection and a flattened, guide-decorated
//! view for linear presentation.

use vstd::prelude::*;
use crate::path::DirPath;
use crate::path::clone_bytes;
use crate::scanner::CleanableProject;
use crate::scanner::ProjV;
use crate::scanner::projs_v;

verus! {

/// A node of the display hierarchy. A node that is itself a discovered
/// project root carries the project; interior folder nodes carry none.
pub struct TreeNode {
    /// Absolute path of the node.
    pub path: DirPath,
    /// Child nodes, one per path segment below this one.
    pub children: Vec<TreeNode>,
    /// The project rooted exactly here, if any.
    pub project: Option<CleanableProject>,
    /// Whether the node's children are hidden in the flattened view.
    pub collapsed: bool,
    /// Tri-state selection: true means this node and everything under it
    /// is selected for deletion.
    pub checked: bool,
}

/// Mathematical image of a tree node.
#[verifier::ext_equal]
pub struct NodeV {
    pub path: Seq<Seq<u8>>,
    pub children: Seq<NodeV>,
    pub project: Option<ProjV>,
    pub collapsed: bool,
    pub checked: bool,
}

pub open spec fn forest_v(s: Seq<TreeNode>) -> Seq<NodeV>
    decreases s,
{
    if s.len() == 0 {
        Seq::empty()
    } else {
        seq![node_v(s[0])] + forest_v(s.drop_first())
    }
}

pub open spec fn node_v(n: TreeNode) -> NodeV
    decreases n,
{
    NodeV {
        path: n.path@,
        children: forest_v(n.children@),
        project: match n.project {
            Some(p) => Some(p@),
            None => None,
        },
        collapsed: n.collapsed,
        checked: n.checked,
    }
}

impl View for TreeNode {
    type V = NodeV;

    open spec fn view(&self) -> NodeV {
        node_v(*self)
    }
}

pub proof fn lemma_forest_v_index(s: Seq<TreeNode>)
    ensures
        forest_v(s).len() == s.len(),
        forall|i: int| 0 <= i < s.len() ==> forest_v(s)[i] == node_v(s[i]),
    decreases s,
{
    if s.len() > 0 {
        lemma_forest_v_index(s.drop_first());
        assert(forall|i: int|
            1 <= i < s.len() ==> forest_v(s)[i] == forest_v(s.drop_first())[i - 1]
                && s.drop_first()[i - 1] == s[i]);
    }
}

/// The node's own contribution: its project's size, 0 for a folder node.
pub open spec fn own_size(v: NodeV) -> nat {
    match v.project {
        Some(p) => p.total_size as nat,
        None => 0,
    }
}

/// Total size of a subtree: the node's own project size plus the sizes of
/// all its children's subtrees.
pub open spec fn subtree_size(v: NodeV) -> nat
    decreases v,
{
    own_size(v) + forest_sizes(v.children)
}

pub open spec fn forest_sizes(s: Seq<NodeV>) -> nat
    decreases s,
{
    if s.len() == 0 {
        0
    } else {
        subtree_size(s[0]) + forest_sizes(s.drop_first())
    }
}

pub proof fn lemma_forest_sizes_append(a: Seq<NodeV>, b: Seq<NodeV>)
    ensures
        forest_sizes(a + b) == forest_sizes(a) + forest_sizes(b),
    decreases a,
{
    if a.len() == 0 {
        assert(a + b =~= b);
    } else {
        assert((a + b).drop_first() =~= a.drop_first() + b);
        lemma_forest_sizes_append(a.drop_first(), b);
    }
}

pub proof fn lemma_forest_sizes_bounds_element(s: Seq<NodeV>, i: int)
    requires
        0 <= i < s.len(),
    ensures
        subtree_size(s[i]) <= forest_sizes(s),
    decreases s,
{
    if i > 0 {
        lemma_forest_sizes_bounds_element(s.drop_first(), i - 1);
    }
}

/// The decomposition that defines a subtree's total size: the node's own
/// project size plus the sum of its children's subtree sizes, at every
/// level of the hierarchy.
pub proof fn lemma_subtree_size_decomposes(v: NodeV)
    ensures
        subtree_size(v) == own_size(v) + forest_sizes(v.children),
        forall|i: int|
            0 <= i < v.children.len() ==> subtree_size(#[trigger] v.children[i]) <= forest_sizes(
                v.children,
            ),
{
    assert forall|i: int|
        0 <= i < v.children.len() implies subtree_size(#[trigger] v.children[i]) <= forest_sizes(
        v.children,
    ) by {
        lemma_forest_sizes_bounds_element(v.children, i);
    }
}

impl TreeNode {
    /// A fresh, unchecked, expanded node with no children.
    pub fn new(path: DirPath) -> (r: Self)
        ensures
            r@ == (NodeV {
                path: path@,
                children: Seq::empty(),
                project: None,
                collapsed: false,
                checked: false,
            }),
    {
        let r = TreeNode { path, children: Vec::new(), project: None, collapsed: false, checked: false };
        proof {
            assert(forest_v(r.children@) =~= Seq::<NodeV>::empty());
            assert(r@ =~= NodeV {
                path: r.path@,
                children: Seq::empty(),
                project: None,
                collapsed: false,
                checked: false,
            });
        }
        r
    }

    /// The node's display label: its last path component.
    pub fn label(&self) -> (r: Vec<u8>)
        ensures
            r@ == spec_label(self@),
    {
        if self.path.segments.len() == 0 {
            let r: Vec<u8> = Vec::new();
            proof {
                assert(r@ =~= spec_label(self@));
            }
            r
        } else {
            let r = clone_bytes(&self.path.segments[self.path.segments.len() - 1]);
            proof {
                assert(self.path@[self.path@.len() - 1] == self.path.segments@[self.path.segments@.len() - 1]@);
            }
            r
        }
    }

    /// Total size of this node's subtree.
    pub fn total_size(&self) -> (r: u64)
        requires
            subtree_size(self@) <= u64::MAX,
        ensures
            r == subtree_size(self@),
        decreases *self,
    {
        let own: u64 = match &self.project {
            Some(p) => p.total_size,
            None => 0,
        };
        let mut total: u64 = own;
        proof {
            lemma_forest_v_index(self.children@);
        }
        let mut i: usize = 0;
        while i < self.children.len()
            invariant
                0 <= i <= self.children.len(),
                self@.children.len() == self.children@.len(),
                forall|j: int|
                    0 <= j < self.children@.len() ==> self@.children[j] == node_v(
                        self.children@[j],
                    ),
                subtree_size(self@) <= u64::MAX,
                total == own_size(self@) + forest_sizes(self@.children.take(i as int)),
                own_size(self@) + forest_sizes(self@.children.take(i as int)) <= subtree_size(
                    self@,
                ),
            decreases self.children.len() - i,
        {
            proof {
                assert(self@.children.take(i + 1) =~= self@.children.take(i as int) + seq![
                    self@.children[i as int],
                ]);
                lemma_forest_sizes_append(self@.children.take(i as int), seq![
                    self@.children[i as int],
                ]);
                assert(forest_sizes(seq![self@.children[i as int]]) == subtree_size(
                    self@.children[i as int],
                )) by {
                    assert(seq![self@.children[i as int]].drop_first() =~= Seq::<NodeV>::empty());
                    assert(forest_sizes(Seq::<NodeV>::empty()) == 0);
                }
                assert(self@.children =~= self@.children.take(i + 1) + self@.children.skip(i + 1));
                lemma_forest_sizes_append(self@.children.take(i + 1), self@.children.skip(i + 1));
            }
            let sub = self.children[i].total_size();
            total = total + sub;
            i = i + 1;
        }
        proof {
            assert(self@.children.take(self.children@.len() as int) =~= self@.children);
        }
        total
    }
}

/// The node's display label, its last path component.
pub open spec fn spec_label(v: NodeV) -> Seq<u8> {
    if v.path.len() > 0 {
        v.path[v.path.len() - 1]
    } else {
        Seq::empty()
    }
}

/// The subtree with every `checked` flag set to `b`.
pub open spec fn spec_set_checked(v: NodeV, b: bool) -> NodeV
    decreases v,
{
    NodeV {
        path: v.path,
        children: spec_set_checked_forest(v.children, b),
        project: v.project,
        collapsed: v.collapsed,
        checked: b,
    }
}

pub open spec fn spec_set_checked_forest(s: Seq<NodeV>, b: bool) -> Seq<NodeV>
    decreases s,
{
    if s.len() == 0 {
        Seq::empty()
    } else {
        seq![spec_set_checked(s[0], b)] + spec_set_checked_forest(s.drop_first(), b)
    }
}

pub proof fn lemma_set_checked_forest_index(s: Seq<NodeV>, b: bool)
    ensures
        spec_set_checked_forest(s, b).len() == s.len(),
        forall|i: int|
            0 <= i < s.len() ==> spec_set_checked_forest(s, b)[i] == spec_set_checked(s[i], b),
    decreases s,
{
    if s.len() > 0 {
        lemma_set_checked_forest_index(s.drop_first(), b);
        assert(forall|i: int|
            1 <= i < s.len() ==> spec_set_checked_forest(s, b)[i] == spec_set_checked_forest(
                s.drop_first(),
                b,
            )[i - 1] && s.drop_first()[i - 1] == s[i]);
    }
}

/// Whether every node of the subtree has `checked == b`.
pub open spec fn all_checked(v: NodeV, b: bool) -> bool
    decreases v,
{
    v.checked == b && all_checked_forest(v.children, b)
}

pub open spec fn all_checked_forest(s: Seq<NodeV>, b: bool) -> bool
    decreases s,
{
    if s.len() == 0 {
        true
    } else {
        all_checked(s[0], b) && all_checked_forest(s.drop_first(), b)
    }
}

/// Tri-state propagation: setting `checked` marks the whole subtree, and
/// changes nothing else about the tree's shape or contents.
pub proof fn lemma_set_checked_propagates(v: NodeV, b: bool)
    ensures
        all_checked(spec_set_checked(v, b), b),
        spec_set_checked(v, b).path == v.path,
        spec_set_checked(v, b).project == v.project,
        spec_set_checked(v, b).collapsed == v.collapsed,
        spec_set_checked(v, b).children.len() == v.children.len(),
    decreases v,
{
    lemma_set_checked_forest_index(v.children, b);
    lemma_set_checked_forest_propagates(v.children, b);
}

pub proof fn lemma_set_checked_forest_propagates(s: Seq<NodeV>, b: bool)
    ensures
        all_checked_forest(spec_set_checked_forest(s, b), b),
    decreases s,
{
    if s.len() > 0 {
        lemma_set_checked_propagates(s[0], b);
        lemma_set_checked_forest_propagates(s.drop_first(), b);
        assert(spec_set_checked_forest(s, b).drop_first() =~= spec_set_checked_forest(
            s.drop_first(),
            b,
        ));
        assert(spec_set_checked_forest(s, b)[0] == spec_set_checked(s[0], b));
    }
}

/// Height of a subtree, the measure for recursion over mutable nodes.
pub open spec fn nheight(v: NodeV) -> nat
    decreases v,
{
    1 + nheight_forest(v.children)
}

pub open spec fn nheight_forest(s: Seq<NodeV>) -> nat
    decreases s,
{
    if s.len() == 0 {
        0
    } else if nheight(s[0]) >= nheight_forest(s.drop_first())  {
        nheight(s[0])
    } else {
        nheight_forest(s.drop_first())
    }
}

pub proof fn lemma_nheight_forest_bounds(s: Seq<NodeV>, i: int)
    requires
        0 <= i < s.len(),
    ensures
        nheight(s[i]) <= nheight_forest(s),
    decreases s,
{
    if i > 0 {
        lemma_nheight_forest_bounds(s.drop_first(), i - 1);
    }
}

pub proof fn lemma_nheight_child(v: NodeV, i: int)
    requires
        0 <= i < v.children.len(),
    ensures
        nheight(v.children[i]) < nheight(v),
{
    lemma_nheight_forest_bounds(v.children, i);
}

fn child_at_mut(v: &mut Vec<TreeNode>, i: usize) -> (r: &mut TreeNode)
    requires
        i < old(v).len(),
    ensures
        *r == old(v)@[i as int],
        final(v)@ == old(v)@.update(i as int, *final(r)),
{
    &mut v[i]
}

impl TreeNode {
    /// Sets the selection flag on this node and every node under it.
    pub fn set_checked(&mut self, checked: bool)
        ensures
            final(self)@ == spec_set_checked(old(self)@, checked),
        decreases nheight(old(self)@),
    {
        self.checked = checked;
        let ghost orig = old(self)@;
        proof {
            lemma_forest_v_index(self.children@);
            lemma_set_checked_forest_index(orig.children, checked);
        }
        let mut i: usize = 0;
        #[verifier::loop_isolation(false)]
        while i < self.children.len()
            invariant
                0 <= i <= self.children.len(),
                self.path@ == orig.path,
                (match self.project {
                    Some(p) => Some(p@),
                    None => None,
                }) == orig.project,
                self.collapsed == orig.collapsed,
                self.checked == checked,
                self.children@.len() == orig.children.len(),
                spec_set_checked_forest(orig.children, checked).len() == orig.children.len(),
                forall|j: int|
                    0 <= j < orig.children.len() ==> spec_set_checked_forest(
                        orig.children,
                        checked,
                    )[j] == spec_set_checked(orig.children[j], checked),
                forall|j: int|
                    0 <= j < i ==> node_v(#[trigger] self.children@[j]) == spec_set_checked(
                        orig.children[j],
                        checked,
                    ),
                forall|j: int|
                    i <= j < self.children@.len() ==> node_v(#[trigger] self.children@[j])
                        == orig.children[j],
            decreases self.children.len() - i,
        {
            let child = child_at_mut(&mut self.children, i);
            proof {
                assert(node_v(*child) == orig.children[i as int]);
                lemma_nheight_child(orig, i as int);
            }
            child.set_checked(checked);
            i = i + 1;
        }
        proof {
            lemma_forest_v_index(self.children@);
            assert(forest_v(self.children@) =~= spec_set_checked_forest(orig.children, checked));
            assert(self@ =~= spec_set_checked(orig, checked));
        }
    }
}

} // verus!

verus! {

/// The connector drawn directly before a node's label.
pub open spec fn connector_chars(is_last: bool) -> Seq<char> {
    if is_last {
        ("└─ ")@
    } else {
        ("├─ ")@
    }
}

/// Continuation columns for the ancestors: blank where the ancestor was
/// its parent's last child, a vertical bar where siblings continue below.
pub open spec fn anc_chars(anc: Seq<bool>) -> Seq<char>
    decreases anc,
{
    if anc.len() == 0 {
        Seq::empty()
    } else {
        (if anc[0] {
            ("   ")@
        } else {
            ("│  ")@
        }) + anc_chars(anc.drop_first())
    }
}

/// The guide prefix of a node: continuation columns for every ancestor
/// below the root level, then the connector. Root-level nodes get an
/// empty prefix. `anc` holds one flag per ancestor, outermost first.
pub open spec fn guide_chars(anc: Seq<bool>, is_last: bool) -> Seq<char> {
    if anc.len() == 0 {
        Seq::empty()
    } else {
        anc_chars(anc.drop_first()) + connector_chars(is_last)
    }
}

pub proof fn lemma_anc_chars_append(a: Seq<bool>, b: Seq<bool>)
    ensures
        anc_chars(a + b) == anc_chars(a) + anc_chars(b),
    decreases a,
{
    if a.len() == 0 {
        assert(a + b =~= b);
        assert(anc_chars(a) + anc_chars(b) =~= anc_chars(b));
    } else {
        assert((a + b).drop_first() =~= a.drop_first() + b);
        lemma_anc_chars_append(a.drop_first(), b);
        assert(anc_chars(a + b) =~= anc_chars(a) + anc_chars(b));
    }
}

/// Builds the guide-prefix string for a node.
pub fn build_guide_prefix(anc: &Vec<bool>, is_last: bool) -> (r: String)
    ensures
        r@ == guide_chars(anc@, is_last),
{
    let mut s = String::new();
    if anc.len() == 0 {
        proof {
            assert(s@ =~= guide_chars(anc@, is_last));
        }
        return s;
    }
    let mut i: usize = 1;
    proof {
        assert(anc@.drop_first().subrange(0, 0) =~= Seq::<bool>::empty());
        assert(s@ =~= anc_chars(anc@.drop_first().subrange(0, 0)));
    }
    while i < anc.len()
        invariant
            1 <= i <= anc@.len(),
            s@ == anc_chars(anc@.drop_first().subrange(0, i - 1)),
        decreases anc.len() - i,
    {
        proof {
            let done = anc@.drop_first().subrange(0, i - 1);
            assert(anc@.drop_first().subrange(0, i as int) =~= done + seq![anc@[i as int]]);
            lemma_anc_chars_append(done, seq![anc@[i as int]]);
            assert(seq![anc@[i as int]].drop_first() =~= Seq::<bool>::empty());
            assert(anc_chars(Seq::<bool>::empty()) =~= Seq::<char>::empty());
            if anc@[i as int] {
                assert(anc_chars(seq![anc@[i as int]]) =~= ("   ")@);
            } else {
                assert(anc_chars(seq![anc@[i as int]]) =~= ("│  ")@);
            }
        }
        if anc[i] {
            s.append("   ");
        } else {
            s.append("│  ");
        }
        proof {
            assert(s@ =~= anc_chars(anc@.drop_first().subrange(0, i as int)));
        }
        i = i + 1;
    }
    proof {
        assert(anc@.drop_first().subrange(0, anc@.len() - 1) =~= anc@.drop_first());
    }
    if is_last {
        s.append("└─ ");
    } else {
        s.append("├─ ");
    }
    s
}

/// One row of the flattened tree: what the presentation layer needs to
/// draw the node, with its depth and precomputed guide prefix.
pub struct TreeFlatNode {
    pub depth: usize,
    pub guide_prefix: String,
    pub label: Vec<u8>,
    pub collapsed: bool,
    pub checked: bool,
    pub has_children: bool,
    pub project: Option<CleanableProject>,
    pub subtree_size: u64,
}

/// Mathematical image of a flattened row.
#[verifier::ext_equal]
pub struct FlatV {
    pub depth: nat,
    pub prefix: Seq<char>,
    pub label: Seq<u8>,
    pub collapsed: bool,
    pub checked: bool,
    pub has_children: bool,
    pub project: Option<ProjV>,
    pub subtree_size: nat,
}

impl View for TreeFlatNode {
    type V = FlatV;

    open spec fn view(&self) -> FlatV {
        FlatV {
            depth: self.depth as nat,
            prefix: self.guide_prefix@,
            label: self.label@,
            collapsed: self.collapsed,
            checked: self.checked,
            has_children: self.has_children,
            project: match self.project {
                Some(p) => Some(p@),
                None => None,
            },
            subtree_size: self.subtree_size as nat,
        }
    }
}

/// The views of a list of flattened rows.
pub open spec fn flats_v(s: Seq<TreeFlatNode>) -> Seq<FlatV> {
    s.map_values(|f: TreeFlatNode| f@)
}

/// The flattened row of one node.
pub open spec fn spec_flat_node(n: NodeV, anc: Seq<bool>, is_last: bool) -> FlatV {
    FlatV {
        depth: anc.len(),
        prefix: guide_chars(anc, is_last),
        label: spec_label(n),
        collapsed: n.collapsed,
        checked: n.checked,
        has_children: n.children.len() > 0,
        project: n.project,
        subtree_size: subtree_size(n),
    }
}

/// Pre-order flattening of a subtree: the node's own row, then, where
/// the node is not collapsed, the rows of its children.
pub open spec fn spec_flatten(n: NodeV, anc: Seq<bool>, is_last: bool) -> Seq<FlatV>
    decreases n, 1int,
{
    seq![spec_flat_node(n, anc, is_last)] + (if n.collapsed {
        Seq::empty()
    } else {
        spec_flatten_children(n.children, anc.push(is_last))
    })
}

pub open spec fn spec_flatten_children(s: Seq<NodeV>, anc: Seq<bool>) -> Seq<FlatV>
    decreases s, 0int,
{
    if s.len() == 0 {
        Seq::empty()
    } else {
        spec_flatten(s[0], anc, s.len() == 1) + spec_flatten_children(s.drop_first(), anc)
    }
}

/// The flattened, guide-decorated view of a whole forest.
pub open spec fn spec_flatten_forest(roots: Seq<NodeV>) -> Seq<FlatV> {
    spec_flatten_children(roots, Seq::empty())
}

/// A copy of a vector of flags.
fn clone_bools(v: &Vec<bool>) -> (r: Vec<bool>)
    ensures
        r@ == v@,
{
    let mut out: Vec<bool> = Vec::new();
    let mut i: usize = 0;
    while i < v.len()
        invariant
            0 <= i <= v@.len(),
            out@ =~= v@.subrange(0, i as int),
        decreases v.len() - i,
    {
        out.push(v[i]);
        proof {
            assert(out@ =~= v@.subrange(0, i + 1));
        }
        i = i + 1;
    }
    proof {
        assert(out@ =~= v@);
    }
    out
}

fn flatten_rec(n: &TreeNode, anc: &Vec<bool>, is_last: bool, out: &mut Vec<TreeFlatNode>)
    requires
        subtree_size(n@) <= u64::MAX,
    ensures
        flats_v(final(out)@) == flats_v(old(out)@) + spec_flatten(n@, anc@, is_last),
    decreases *n,
{
    let ghost base = flats_v(old(out)@);
    let guide = build_guide_prefix(anc, is_last);
    let label = n.label();
    let size = n.total_size();
    let project: Option<CleanableProject> = match &n.project {
        Some(p) => Some(p.clone()),
        None => None,
    };
    let row = TreeFlatNode {
        depth: anc.len(),
        guide_prefix: guide,
        label,
        collapsed: n.collapsed,
        checked: n.checked,
        has_children: n.children.len() > 0,
        project,
        subtree_size: size,
    };
    let ghost pre_vec = out@;
    out.push(row);
    proof {
        lemma_forest_v_index(n.children@);
        assert(row@ =~= spec_flat_node(n@, anc@, is_last));
        assert(flats_v(out@) =~= base + seq![spec_flat_node(n@, anc@, is_last)]);
    }
    if !n.collapsed {
        let mut anc2 = clone_bools(anc);
        anc2.push(is_last);
        let ghost kids = n@.children;
        let n_children = n.children.len();
        let mut i: usize = 0;
        proof {
            assert(kids.skip(0) =~= kids);
        }
        while i < n_children
            invariant
                0 <= i <= n_children,
                n_children == n.children@.len(),
                subtree_size(n@) <= u64::MAX,
                kids == n@.children,
                kids.len() == n.children@.len(),
                forall|j: int| 0 <= j < n.children@.len() ==> kids[j] == node_v(n.children@[j]),
                anc2@ == anc@.push(is_last),
                flats_v(out@) + spec_flatten_children(kids.skip(i as int), anc2@) == base + seq![
                    spec_flat_node(n@, anc@, is_last),
                ] + spec_flatten_children(kids, anc2@),
            decreases n_children - i,
        {
            proof {
                assert(kids.skip(i as int)[0] == kids[i as int]);
                assert(kids.skip(i as int).drop_first() =~= kids.skip(i + 1));
                assert((kids.skip(i as int).len() == 1) == (i == n_children - 1));
                lemma_forest_sizes_bounds_element(kids, i as int);
            }
            flatten_rec(&n.children[i], &anc2, i == n_children - 1, out);
            i = i + 1;
        }
        proof {
            assert(kids.skip(n_children as int) =~= Seq::<NodeV>::empty());
            assert(spec_flatten_children(Seq::<NodeV>::empty(), anc2@) =~= Seq::<FlatV>::empty());
            assert(flats_v(out@) =~= base + spec_flatten(n@, anc@, is_last));
        }
    } else {
        proof {
            assert(flats_v(out@) =~= base + spec_flatten(n@, anc@, is_last));
        }
    }
}

/// Flattens a forest for rendering: one row per visible node, in
/// pre-order, each with its depth and guide prefix. The rows are a
/// function of the forest alone: flattening an unmodified forest twice
/// yields the same rows.
pub fn flatten_tree(roots: &Vec<TreeNode>) -> (r: Vec<TreeFlatNode>)
    requires
        forest_sizes(forest_v(roots@)) <= u64::MAX,
    ensures
        flats_v(r@) == spec_flatten_forest(forest_v(roots@)),
{
    let mut out: Vec<TreeFlatNode> = Vec::new();
    let anc: Vec<bool> = Vec::new();
    let ghost rv = forest_v(roots@);
    let n_roots = roots.len();
    let mut i: usize = 0;
    proof {
        lemma_forest_v_index(roots@);
        assert(rv.skip(0) =~= rv);
        assert(flats_v(out@) =~= Seq::<FlatV>::empty());
        assert(anc@ =~= Seq::<bool>::empty());
    }
    while i < n_roots
        invariant
            0 <= i <= n_roots,
            n_roots == roots@.len(),
            rv == forest_v(roots@),
            rv.len() == roots@.len(),
            forall|j: int| 0 <= j < roots@.len() ==> rv[j] == node_v(roots@[j]),
            forest_sizes(rv) <= u64::MAX,
            anc@ =~= Seq::<bool>::empty(),
            flats_v(out@) + spec_flatten_children(rv.skip(i as int), anc@) == spec_flatten_children(
                rv,
                anc@,
            ),
        decreases n_roots - i,
    {
        proof {
            assert(rv.skip(i as int)[0] == rv[i as int]);
            assert(rv.skip(i as int).drop_first() =~= rv.skip(i + 1));
            assert((rv.skip(i as int).len() == 1) == (i == n_roots - 1));
            lemma_forest_sizes_bounds_element(rv, i as int);
        }
        flatten_rec(&roots[i], &anc, i == n_roots - 1, &mut out);
        i = i + 1;
    }
    proof {
        assert(rv.skip(n_roots as int) =~= Seq::<NodeV>::empty());
        assert(spec_flatten_children(Seq::<NodeV>::empty(), anc@) =~= Seq::<FlatV>::empty());
        assert(flats_v(out@) =~= spec_flatten_forest(rv));
    }
    out
}

} // verus!

verus! {

/// Index of the first node at this level with the given label.
pub open spec fn find_label(s: Seq<NodeV>, name: Seq<u8>) -> Option<int>
    decreases s,
{
    if s.len() == 0 {
        None
    } else if spec_label(s[0]) == name {
        Some(0)
    } else {
        match find_label(s.drop_first(), name) {
            Some(i) => Some(i + 1),
            None => None,
        }
    }
}

pub proof fn lemma_find_label_at(s: Seq<NodeV>, name: Seq<u8>, j: int)
    requires
        0 <= j <= s.len(),
        forall|m: int| 0 <= m < j ==> spec_label(#[trigger] s[m]) != name,
        j < s.len() ==> spec_label(s[j]) == name,
    ensures
        j < s.len() ==> find_label(s, name) == Some(j),
        j == s.len() ==> find_label(s, name) is None,
    decreases s,
{
    if s.len() > 0 && j > 0 {
        assert(spec_label(s[0]) != name);
        lemma_find_label_at(s.drop_first(), name, j - 1);
        assert(forall|m: int|
            0 <= m < s.drop_first().len() ==> s.drop_first()[m] == s[m + 1]);
    }
}

/// Index of the first node at this level with the given path.
pub open spec fn find_path_idx(s: Seq<NodeV>, path: Seq<Seq<u8>>) -> Option<int>
    decreases s,
{
    if s.len() == 0 {
        None
    } else if s[0].path == path {
        Some(0)
    } else {
        match find_path_idx(s.drop_first(), path) {
            Some(i) => Some(i + 1),
            None => None,
        }
    }
}

pub proof fn lemma_find_path_at(s: Seq<NodeV>, path: Seq<Seq<u8>>, j: int)
    requires
        0 <= j <= s.len(),
        forall|m: int| 0 <= m < j ==> (#[trigger] s[m]).path != path,
        j < s.len() ==> s[j].path == path,
    ensures
        j < s.len() ==> find_path_idx(s, path) == Some(j),
        j == s.len() ==> find_path_idx(s, path) is None,
    decreases s,
{
    if s.len() > 0 && j > 0 {
        lemma_find_path_at(s.drop_first(), path, j - 1);
        assert(forall|m: int|
            0 <= m < s.drop_first().len() ==> s.drop_first()[m] == s[m + 1]);
    }
}

/// A fresh folder node for this path.
pub open spec fn new_node_v(path: Seq<Seq<u8>>) -> NodeV {
    NodeV { path, children: Seq::empty(), project: None, collapsed: false, checked: false }
}

/// Walks or creates the chain of nodes for the components `comps` below
/// `base`, and attaches the project at the terminal node.
pub open spec fn spec_insert_path(
    nodes: Seq<NodeV>,
    comps: Seq<Seq<u8>>,
    p: ProjV,
    base: Seq<Seq<u8>>,
) -> Seq<NodeV>
    decreases comps.len(),
{
    if comps.len() == 0 {
        nodes
    } else {
        let name = comps[0];
        let node_path = base.push(name);
        match find_label(nodes, name) {
            Some(i) => {
                if comps.len() == 1 {
                    nodes.update(i, NodeV { project: Some(p), ..nodes[i] })
                } else {
                    nodes.update(
                        i,
                        NodeV {
                            children: spec_insert_path(
                                nodes[i].children,
                                comps.drop_first(),
                                p,
                                node_path,
                            ),
                            ..nodes[i]
                        },
                    )
                }
            },
            None => {
                if comps.len() == 1 {
                    nodes.push(NodeV { project: Some(p), ..new_node_v(node_path) })
                } else {
                    nodes.push(
                        NodeV {
                            children: spec_insert_path(
                                Seq::empty(),
                                comps.drop_first(),
                                p,
                                node_path,
                            ),
                            ..new_node_v(node_path)
                        },
                    )
                }
            },
        }
    }
}

fn find_label_exec(nodes: &Vec<TreeNode>, name: &Vec<u8>) -> (r: Option<usize>)
    ensures
        (r matches Some(i) ==> i < nodes@.len() && find_label(forest_v(nodes@), name@) == Some(
            i as int,
        )),
        (r is None ==> find_label(forest_v(nodes@), name@) is None),
{
    let ghost fv = forest_v(nodes@);
    proof {
        lemma_forest_v_index(nodes@);
    }
    let mut j: usize = 0;
    while j < nodes.len()
        invariant
            0 <= j <= nodes@.len(),
            fv == forest_v(nodes@),
            fv.len() == nodes@.len(),
            forall|m: int| 0 <= m < nodes@.len() ==> fv[m] == node_v(nodes@[m]),
            forall|m: int| 0 <= m < j ==> spec_label(#[trigger] fv[m]) != name@,
        decreases nodes.len() - j,
    {
        let lbl = nodes[j].label();
        if crate::order::bytes_eq(&lbl, name) {
            proof {
                lemma_find_label_at(fv, name@, j as int);
            }
            return Some(j);
        }
        j = j + 1;
    }
    proof {
        lemma_find_label_at(fv, name@, nodes@.len() as int);
    }
    None
}

fn insert_path(
    nodes: &mut Vec<TreeNode>,
    comps: &DirPath,
    from: usize,
    p: &CleanableProject,
    base: &DirPath,
)
    requires
        from < comps@.len(),
    ensures
        forest_v(final(nodes)@) == spec_insert_path(
            forest_v(old(nodes)@),
            comps@.skip(from as int),
            p@,
            base@,
        ),
    decreases comps@.len() - from,
{
    let ghost orig = forest_v(old(nodes)@);
    let ghost rest = comps@.skip(from as int);
    proof {
        assert(rest[0] == comps@[from as int]);
        assert(rest.drop_first() =~= comps@.skip(from + 1));
        lemma_forest_v_index(nodes@);
    }
    proof {
        assert(comps@.len() == comps.segments@.len());
    }
    let name = clone_bytes(&comps.segments[from]);
    let n_comps = comps.segments.len();
    let is_terminal = from == n_comps - 1;
    let mut node_path = base.clone();
    node_path.push_seg(clone_bytes(&comps.segments[from]));
    let found = find_label_exec(nodes, &name);
    let idx: usize = match found {
        Some(fj) => fj,
        None => {
            let node = TreeNode::new(node_path.clone());
            nodes.push(node);
            proof {
                lemma_forest_v_index(nodes@);
                assert(forest_v(nodes@) =~= orig.push(new_node_v(base@.push(comps@[from as int]))));
            }
            nodes.len() - 1
        },
    };
    let ghost before = forest_v(nodes@);
    proof {
        lemma_forest_v_index(nodes@);
    }
    let child = child_at_mut(nodes, idx);
    let ghost child_orig = node_v(*child);
    if is_terminal {
        child.project = Some(p.clone());
        proof {
            assert(node_v(*child) =~= NodeV { project: Some(p@), ..child_orig });
        }
    } else {
        insert_path(&mut child.children, comps, from + 1, p, &node_path);
        proof {
            assert(node_v(*child) =~= NodeV {
                children: spec_insert_path(
                    child_orig.children,
                    comps@.skip(from + 1),
                    p@,
                    base@.push(comps@[from as int]),
                ),
                ..child_orig
            });
        }
    }
    proof {
        lemma_forest_v_index(nodes@);
        assert(forest_v(nodes@) =~= before.update(idx as int, node_v(nodes@[idx as int])));
        assert(forest_v(nodes@) =~= spec_insert_path(orig, rest, p@, base@));
    }
}

} // verus!

verus! {

/// Inserts one project into the forest: under the scan root it walks or
/// creates the node chain for its relative path; at the scan root itself
/// it lands on a synthetic root node; outside the scan root it becomes
/// its own root node.
pub open spec fn spec_insert_project(
    forest: Seq<NodeV>,
    p: ProjV,
    root: Seq<Seq<u8>>,
) -> Seq<NodeV> {
    if crate::path::is_prefix_of(root, p.root_path) {
        let rel = p.root_path.skip(root.len() as int);
        if rel.len() == 0 {
            match find_path_idx(forest, root) {
                Some(i) => forest.update(i, NodeV { project: Some(p), ..forest[i] }),
                None => forest.push(NodeV { project: Some(p), ..new_node_v(root) }),
            }
        } else {
            spec_insert_path(forest, rel, p, root)
        }
    } else {
        if p.root_path.len() > 0 {
            forest.push(NodeV { project: Some(p), ..new_node_v(p.root_path) })
        } else {
            forest
        }
    }
}

/// The forest after inserting the projects one after the other.
pub open spec fn spec_build_unsorted(projs: Seq<ProjV>, root: Seq<Seq<u8>>) -> Seq<NodeV>
    decreases projs,
{
    if projs.len() == 0 {
        Seq::empty()
    } else {
        spec_insert_project(spec_build_unsorted(projs.drop_last(), root), projs.last(), root)
    }
}

/// Stable insertion of a project behind every project whose path does
/// not come after it.
pub open spec fn insert_by_path(s: Seq<ProjV>, p: ProjV) -> Seq<ProjV>
    decreases s,
{
    if s.len() == 0 {
        seq![p]
    } else if !crate::path::path_lt(p.root_path, s.last().root_path) {
        s.push(p)
    } else {
        insert_by_path(s.drop_last(), p).push(s.last())
    }
}

/// Stable sort of the projects by root path, ascending.
pub open spec fn sort_by_path(s: Seq<ProjV>) -> Seq<ProjV>
    decreases s,
{
    if s.len() == 0 {
        Seq::empty()
    } else {
        insert_by_path(sort_by_path(s.drop_last()), s.last())
    }
}

pub proof fn lemma_insert_by_path_at(s: Seq<ProjV>, p: ProjV, j: int)
    requires
        0 <= j <= s.len(),
        forall|k: int|
            j <= k < s.len() ==> crate::path::path_lt(p.root_path, (#[trigger] s[k]).root_path),
        j > 0 ==> !crate::path::path_lt(p.root_path, s[j - 1].root_path),
    ensures
        insert_by_path(s, p) == s.take(j).push(p) + s.skip(j),
    decreases s,
{
    if s.len() == 0 {
        assert(insert_by_path(s, p) =~= s.take(j).push(p) + s.skip(j));
    } else if j == s.len() {
        assert(s.take(j) =~= s);
        assert(s.skip(j) =~= Seq::<ProjV>::empty());
        assert(insert_by_path(s, p) =~= s.take(j).push(p) + s.skip(j));
    } else {
        assert(crate::path::path_lt(p.root_path, s.last().root_path));
        lemma_insert_by_path_at(s.drop_last(), p, j);
        assert(s.drop_last().take(j) =~= s.take(j));
        assert(insert_by_path(s.drop_last(), p).push(s.last()) =~= s.take(j).push(p) + s.skip(j))
            by {
            assert(s.drop_last().skip(j).push(s.last()) =~= s.skip(j));
        }
    }
}

/// Sorts the projects by root path, ascending and stable.
fn sort_projects(projects: &Vec<CleanableProject>) -> (r: Vec<CleanableProject>)
    ensures
        projs_v(r@) == sort_by_path(projs_v(projects@)),
{
    let mut sorted: Vec<CleanableProject> = Vec::new();
    let mut i: usize = 0;
    proof {
        assert(projs_v(projects@).take(0) =~= Seq::<ProjV>::empty());
        assert(projs_v(sorted@) =~= sort_by_path(projs_v(projects@).take(0)));
    }
    while i < projects.len()
        invariant
            0 <= i <= projects.len(),
            projs_v(projects@).len() == projects@.len(),
            forall|j: int| 0 <= j < projects@.len() ==> projs_v(projects@)[j] == projects@[j]@,
            projs_v(sorted@).len() == sorted@.len(),
            forall|j: int| 0 <= j < sorted@.len() ==> projs_v(sorted@)[j] == sorted@[j]@,
            projs_v(sorted@) == sort_by_path(projs_v(projects@).take(i as int)),
        decreases projects.len() - i,
    {
        let c = projects[i].clone();
        let ghost cv = projects@[i as int]@;
        let ghost pre = projs_v(sorted@);
        let mut j: usize = sorted.len();
        while j > 0 && c.root_path.path_less(&sorted[j - 1].root_path)
            invariant
                0 <= j <= sorted.len(),
                projs_v(sorted@).len() == sorted@.len(),
                forall|m: int| 0 <= m < sorted@.len() ==> projs_v(sorted@)[m] == sorted@[m]@,
                c@ == cv,
                forall|k: int|
                    j <= k < sorted@.len() ==> crate::path::path_lt(
                        cv.root_path,
                        (#[trigger] projs_v(sorted@)[k]).root_path,
                    ),
            decreases j,
        {
            j = j - 1;
        }
        proof {
            lemma_insert_by_path_at(pre, cv, j as int);
        }
        sorted.insert(j, c);
        proof {
            assert(projs_v(sorted@) =~= pre.take(j as int).push(cv) + pre.skip(j as int));
            assert(projs_v(projects@).take(i + 1) =~= projs_v(projects@).take(i as int).push(cv));
            assert(sort_by_path(projs_v(projects@).take(i + 1)) == insert_by_path(
                sort_by_path(projs_v(projects@).take(i as int)),
                cv,
            )) by {
                assert(projs_v(projects@).take(i + 1).drop_last() =~= projs_v(projects@).take(
                    i as int,
                ));
            }
        }
        i = i + 1;
    }
    proof {
        assert(projs_v(projects@).take(projects@.len() as int) =~= projs_v(projects@));
    }
    sorted
}

} // verus!

verus! {

/// Case-insensitive label order used to sort each level.
pub open spec fn label_lt(a: NodeV, b: NodeV) -> bool {
    crate::order::bytes_lt(
        crate::order::lower_bytes(spec_label(a)),
        crate::order::lower_bytes(spec_label(b)),
    )
}

/// Stable insertion of a node behind every node whose label does not
/// come after it.
pub open spec fn insert_by_label(s: Seq<NodeV>, n: NodeV) -> Seq<NodeV>
    decreases s,
{
    if s.len() == 0 {
        seq![n]
    } else if !label_lt(n, s.last()) {
        s.push(n)
    } else {
        insert_by_label(s.drop_last(), n).push(s.last())
    }
}

/// Stable sort of one level by case-insensitive label.
pub open spec fn sort_level(s: Seq<NodeV>) -> Seq<NodeV>
    decreases s,
{
    if s.len() == 0 {
        Seq::empty()
    } else {
        insert_by_label(sort_level(s.drop_last()), s.last())
    }
}

/// The forest sorted recursively: every node's children sorted the same
/// way, then the level itself sorted by label.
pub open spec fn spec_sort_tree(s: Seq<NodeV>) -> Seq<NodeV>
    decreases s, 1int,
{
    sort_level(spec_sort_each(s))
}

pub open spec fn spec_sort_each(s: Seq<NodeV>) -> Seq<NodeV>
    decreases s, 0int,
{
    if s.len() == 0 {
        Seq::empty()
    } else {
        seq![NodeV { children: spec_sort_tree(s[0].children), ..s[0] }] + spec_sort_each(
            s.drop_first(),
        )
    }
}

pub proof fn lemma_spec_sort_each_index(s: Seq<NodeV>)
    ensures
        spec_sort_each(s).len() == s.len(),
        forall|i: int|
            0 <= i < s.len() ==> spec_sort_each(s)[i] == (NodeV {
                children: spec_sort_tree((#[trigger] s[i]).children),
                ..s[i]
            }),
    decreases s,
{
    if s.len() > 0 {
        lemma_spec_sort_each_index(s.drop_first());
        assert(forall|i: int|
            1 <= i < s.len() ==> spec_sort_each(s)[i] == spec_sort_each(s.drop_first())[i - 1]
                && s.drop_first()[i - 1] == s[i]);
    }
}

pub proof fn lemma_insert_by_label_at(s: Seq<NodeV>, n: NodeV, j: int)
    requires
        0 <= j <= s.len(),
        forall|k: int| j <= k < s.len() ==> label_lt(n, #[trigger] s[k]),
        j > 0 ==> !label_lt(n, s[j - 1]),
    ensures
        insert_by_label(s, n) == s.take(j).push(n) + s.skip(j),
    decreases s,
{
    if s.len() == 0 {
        assert(insert_by_label(s, n) =~= s.take(j).push(n) + s.skip(j));
    } else if j == s.len() {
        assert(s.take(j) =~= s);
        assert(s.skip(j) =~= Seq::<NodeV>::empty());
        assert(insert_by_label(s, n) =~= s.take(j).push(n) + s.skip(j));
    } else {
        assert(label_lt(n, s.last()));
        lemma_insert_by_label_at(s.drop_last(), n, j);
        assert(s.drop_last().take(j) =~= s.take(j));
        assert(insert_by_label(s.drop_last(), n).push(s.last()) =~= s.take(j).push(n) + s.skip(j))
            by {
            assert(s.drop_last().skip(j).push(s.last()) =~= s.skip(j));
        }
    }
}

/// Whether `a` sorts before `b`, by case-insensitive label.
fn label_less(a: &TreeNode, b: &TreeNode) -> (r: bool)
    ensures
        r == label_lt(a@, b@),
{
    let la = a.label();
    let lb = b.label();
    crate::order::ci_less(&la, &lb)
}

/// Sorts the forest recursively: children first, then each level by
/// case-insensitive label, stable.
pub fn sort_tree(nodes: &mut Vec<TreeNode>)
    ensures
        forest_v(final(nodes)@) == spec_sort_tree(forest_v(old(nodes)@)),
    decreases nheight_forest(forest_v(old(nodes)@)),
{
    let ghost orig = forest_v(old(nodes)@);
    proof {
        lemma_forest_v_index(nodes@);
        lemma_spec_sort_each_index(orig);
    }
    let n = nodes.len();
    let mut i: usize = 0;
    #[verifier::loop_isolation(false)]
    while i < n
        invariant
            0 <= i <= n,
            n == nodes@.len(),
            nodes@.len() == orig.len(),
            forall|j: int|
                0 <= j < i ==> node_v(#[trigger] nodes@[j]) == (NodeV {
                    children: spec_sort_tree(orig[j].children),
                    ..orig[j]
                }),
            forall|j: int| i <= j < nodes@.len() ==> node_v(#[trigger] nodes@[j]) == orig[j],
        decreases n - i,
    {
        let child = child_at_mut(nodes, i);
        let ghost child_orig = node_v(*child);
        proof {
            assert(child_orig == orig[i as int]);
            assert(nheight(orig[i as int]) <= nheight_forest(orig)) by {
                lemma_nheight_forest_bounds(orig, i as int);
            }
        }
        sort_tree(&mut child.children);
        proof {
            assert(node_v(*child) =~= NodeV {
                children: spec_sort_tree(child_orig.children),
                ..child_orig
            });
        }
        i = i + 1;
    }
    let ghost each = spec_sort_each(orig);
    proof {
        lemma_forest_v_index(nodes@);
        assert(forest_v(nodes@) =~= each);
    }
    // Sort this level, stable, by case-insensitive label.
    let mut result: Vec<TreeNode> = Vec::new();
    let mut k: usize = 0;
    proof {
        assert(sort_level(each.take(0)) =~= Seq::<NodeV>::empty());
        assert(forest_v(result@) =~= Seq::<NodeV>::empty());
    }
    #[verifier::loop_isolation(false)]
    while k < n
        invariant
            0 <= k <= n,
            nodes@.len() == n - k,
            forall|j: int|
                0 <= j < nodes@.len() ==> node_v(#[trigger] nodes@[j]) == each[k + j],
            forest_v(result@).len() == result@.len(),
            forall|j: int|
                0 <= j < result@.len() ==> forest_v(result@)[j] == node_v(result@[j]),
            forest_v(result@) == sort_level(each.take(k as int)),
        decreases n - k,
    {
        let nd = nodes.remove(0);
        let ghost ndv = each[k as int];
        proof {
            lemma_forest_v_index(nodes@);
            assert(node_v(nd) == ndv);
        }
        let ghost pre = forest_v(result@);
        let mut j: usize = result.len();
        #[verifier::loop_isolation(false)]
        while j > 0 && label_less(&nd, &result[j - 1])
            invariant
                0 <= j <= result.len(),
                forall|m: int|
                    j <= m < result@.len() ==> label_lt(ndv, #[trigger] forest_v(result@)[m]),
            decreases j,
        {
            j = j - 1;
        }
        proof {
            lemma_insert_by_label_at(pre, ndv, j as int);
        }
        result.insert(j, nd);
        proof {
            lemma_forest_v_index(result@);
            assert(forest_v(result@) =~= pre.take(j as int).push(ndv) + pre.skip(j as int));
            assert(each.take(k + 1) =~= each.take(k as int).push(ndv));
            assert(sort_level(each.take(k + 1)) == insert_by_label(
                sort_level(each.take(k as int)),
                ndv,
            )) by {
                assert(each.take(k + 1).drop_last() =~= each.take(k as int));
            }
        }
        k = k + 1;
    }
    *nodes = result;
    proof {
        assert(each.take(n as int) =~= each);
        assert(forest_v(nodes@) =~= spec_sort_tree(orig));
    }
}

} // verus!

verus! {

fn find_path_exec(nodes: &Vec<TreeNode>, path: &DirPath) -> (r: Option<usize>)
    ensures
        (r matches Some(i) ==> i < nodes@.len() && find_path_idx(forest_v(nodes@), path@) == Some(
            i as int,
        )),
        (r is None ==> find_path_idx(forest_v(nodes@), path@) is None),
{
    let ghost fv = forest_v(nodes@);
    proof {
        lemma_forest_v_index(nodes@);
    }
    let mut j: usize = 0;
    while j < nodes.len()
        invariant
            0 <= j <= nodes@.len(),
            fv == forest_v(nodes@),
            fv.len() == nodes@.len(),
            forall|m: int| 0 <= m < nodes@.len() ==> fv[m] == node_v(nodes@[m]),
            forall|m: int| 0 <= m < j ==> (#[trigger] fv[m]).path != path@,
        decreases nodes.len() - j,
    {
        if nodes[j].path.path_eq(path) {
            proof {
                lemma_find_path_at(fv, path@, j as int);
            }
            return Some(j);
        }
        j = j + 1;
    }
    proof {
        lemma_find_path_at(fv, path@, nodes@.len() as int);
    }
    None
}

/// The whole derivation of the display forest from a project list.
pub open spec fn spec_build_tree(projs: Seq<ProjV>, root: Seq<Seq<u8>>) -> Seq<NodeV> {
    spec_sort_tree(spec_build_unsorted(sort_by_path(projs), root))
}

/// Builds the display forest for the projects, relative to the scan
/// root: one node chain per project path, folder nodes created on
/// demand, every level sorted by case-insensitive label. A project at
/// the scan root itself lands on a synthetic root node; one outside the
/// scan root becomes its own root node.
pub fn build_tree(projects: &Vec<CleanableProject>, scan_root: &DirPath) -> (r: Vec<TreeNode>)
    ensures
        forest_v(r@) == spec_build_tree(projs_v(projects@), scan_root@),
{
    let sorted = sort_projects(projects);
    let ghost sv = projs_v(sorted@);
    let mut roots: Vec<TreeNode> = Vec::new();
    let mut i: usize = 0;
    proof {
        assert(forest_v(roots@) =~= Seq::<NodeV>::empty());
        assert(spec_build_unsorted(sv.take(0), scan_root@) =~= Seq::<NodeV>::empty());
    }
    while i < sorted.len()
        invariant
            0 <= i <= sorted.len(),
            sv == projs_v(sorted@),
            sv.len() == sorted@.len(),
            forall|j: int| 0 <= j < sorted@.len() ==> sv[j] == sorted@[j]@,
            forest_v(roots@) == spec_build_unsorted(sv.take(i as int), scan_root@),
        decreases sorted.len() - i,
    {
        let ghost pv = sv[i as int];
        let ghost pre = forest_v(roots@);
        proof {
            assert(sv.take(i + 1).drop_last() =~= sv.take(i as int));
            assert(sv.take(i + 1).last() == pv);
            assert(spec_build_unsorted(sv.take(i + 1), scan_root@) == spec_insert_project(
                pre,
                pv,
                scan_root@,
            ));
        }
        let p = &sorted[i];
        match p.root_path.strip_prefix(scan_root) {
            Some(rel) => {
                if rel.segments.len() == 0 {
                    proof {
                        assert(rel@.len() == 0);
                        assert(pv.root_path.skip(scan_root@.len() as int) =~= rel@);
                    }
                    match find_path_exec(&roots, scan_root) {
                        Some(idx) => {
                            proof {
                                lemma_forest_v_index(roots@);
                            }
                            let node = child_at_mut(&mut roots, idx);
                            let ghost node_orig = node_v(*node);
                            node.project = Some(p.clone());
                            proof {
                                assert(node_v(*node) =~= NodeV {
                                    project: Some(pv),
                                    ..node_orig
                                });
                                lemma_forest_v_index(roots@);
                                assert(forest_v(roots@) =~= pre.update(
                                    idx as int,
                                    NodeV { project: Some(pv), ..pre[idx as int] },
                                ));
                            }
                        },
                        None => {
                            let mut node = TreeNode::new(scan_root.clone());
                            node.project = Some(p.clone());
                            let ghost nv = node_v(node);
                            proof {
                                lemma_forest_v_index(roots@);
                            }
                            roots.push(node);
                            proof {
                                assert(nv =~= NodeV {
                                    project: Some(pv),
                                    ..new_node_v(scan_root@)
                                });
                                lemma_forest_v_index(roots@);
                                assert(forest_v(roots@) =~= pre.push(nv));
                            }
                        },
                    }
                } else {
                    proof {
                        assert(rel@.len() > 0);
                        assert(pv.root_path.skip(scan_root@.len() as int) =~= rel@);
                        assert(rel@.skip(0) =~= rel@);
                    }
                    insert_path(&mut roots, &rel, 0, p, scan_root);
                }
            },
            None => {
                if p.root_path.segments.len() > 0 {
                    let mut node = TreeNode::new(p.root_path.clone());
                    node.project = Some(p.clone());
                    let ghost nv = node_v(node);
                    proof {
                        lemma_forest_v_index(roots@);
                    }
                    roots.push(node);
                    proof {
                        assert(pv.root_path.len() > 0);
                        assert(nv =~= NodeV { project: Some(pv), ..new_node_v(pv.root_path) });
                        lemma_forest_v_index(roots@);
                        assert(forest_v(roots@) =~= pre.push(nv));
                    }
                } else {
                    proof {
                        assert(pv.root_path.len() == 0);
                    }
                }
            },
        }
        i = i + 1;
    }
    proof {
        assert(sv.take(sorted@.len() as int) =~= sv);
    }
    sort_tree(&mut roots);
    roots
}

} // verus!

verus! {

/// The visible nodes of a subtree, in pre-order: the node, then, where
/// it is not collapsed, its children's visible nodes.
pub open spec fn visible_nodes(n: NodeV) -> Seq<NodeV>
    decreases n, 1int,
{
    seq![n] + (if n.collapsed {
        Seq::empty()
    } else {
        visible_forest(n.children)
    })
}

pub open spec fn visible_forest(s: Seq<NodeV>) -> Seq<NodeV>
    decreases s, 0int,
{
    if s.len() == 0 {
        Seq::empty()
    } else {
        visible_nodes(s[0]) + visible_forest(s.drop_first())
    }
}

/// Flattening yields one row per visible node.
pub proof fn lemma_flatten_len(n: NodeV, anc: Seq<bool>, is_last: bool)
    ensures
        spec_flatten(n, anc, is_last).len() == visible_nodes(n).len(),
    decreases n, 1int,
{
    if !n.collapsed {
        lemma_flatten_children_len(n.children, anc.push(is_last));
    }
}

pub proof fn lemma_flatten_children_len(s: Seq<NodeV>, anc: Seq<bool>)
    ensures
        spec_flatten_children(s, anc).len() == visible_forest(s).len(),
    decreases s, 0int,
{
    if s.len() > 0 {
        lemma_flatten_len(s[0], anc, s.len() == 1);
        lemma_flatten_children_len(s.drop_first(), anc);
    }
}

/// The length of the flattened forest equals the number of visible
/// nodes, whatever the ancestry flags.
pub proof fn lemma_flatten_forest_len(roots: Seq<NodeV>)
    ensures
        spec_flatten_forest(roots).len() == visible_forest(roots).len(),
{
    lemma_flatten_children_len(roots, Seq::empty());
}

/// An operation applied to the node at a visible position.
#[derive(Clone, Copy, PartialEq, Eq, Structural)]
pub enum NodeOp {
    /// Flip the node's selection and propagate it to the whole subtree.
    ToggleChecked,
    /// Flip the node's collapsed flag, if it has children.
    ToggleExpand,
}

/// The operation's effect on one node.
pub open spec fn spec_apply_op(n: NodeV, op: NodeOp) -> NodeV {
    match op {
        NodeOp::ToggleChecked => spec_set_checked(n, !n.checked),
        NodeOp::ToggleExpand => if n.children.len() > 0 {
            NodeV { collapsed: !n.collapsed, ..n }
        } else {
            n
        },
    }
}

/// The forest with the operation applied to the node at visible
/// position `i`.
pub open spec fn spec_apply_at_forest(s: Seq<NodeV>, i: int, op: NodeOp) -> Seq<NodeV>
    decreases s, 0int,
{
    if s.len() == 0 {
        s
    } else if i < visible_nodes(s[0]).len() {
        seq![spec_apply_at_node(s[0], i, op)] + s.drop_first()
    } else {
        seq![s[0]] + spec_apply_at_forest(s.drop_first(), i - visible_nodes(s[0]).len(), op)
    }
}

pub open spec fn spec_apply_at_node(n: NodeV, i: int, op: NodeOp) -> NodeV
    decreases n, 1int,
{
    if i == 0 {
        spec_apply_op(n, op)
    } else if !n.collapsed {
        NodeV { children: spec_apply_at_forest(n.children, i - 1, op), ..n }
    } else {
        n
    }
}

fn apply_at_node(n: &mut TreeNode, cur: &mut usize, idx: usize, op: NodeOp) -> (found: bool)
    requires
        *old(cur) <= idx,
    ensures
        found ==> idx - *old(cur) < visible_nodes(old(n)@).len() && final(n)@ == spec_apply_at_node(
            old(n)@,
            idx - *old(cur),
            op,
        ),
        !found ==> idx - *old(cur) >= visible_nodes(old(n)@).len() && final(n)@ == old(n)@
            && *final(cur) == *old(cur) + visible_nodes(old(n)@).len(),
    decreases nheight(old(n)@), 0int,
{
    let ghost orig = old(n)@;
    if *cur == idx {
        match op {
            NodeOp::ToggleChecked => {
                let v = !n.checked;
                n.set_checked(v);
            },
            NodeOp::ToggleExpand => {
                if n.children.len() > 0 {
                    n.collapsed = !n.collapsed;
                    proof {
                        assert(n@ =~= NodeV { collapsed: !orig.collapsed, ..orig });
                    }
                } else {
                    proof {
                        assert(forest_v(n.children@).len() == 0) by {
                            lemma_forest_v_index(n.children@);
                        }
                        assert(n@ =~= orig);
                    }
                }
            },
        }
        return true;
    }
    *cur = *cur + 1;
    if n.collapsed {
        proof {
            assert(visible_nodes(orig).len() == 1);
        }
        false
    } else {
        let found = apply_at_forest(&mut n.children, cur, idx, op);
        proof {
            if found {
                assert(n@ =~= NodeV {
                    children: spec_apply_at_forest(orig.children, idx - *old(cur) - 1, op),
                    ..orig
                });
            } else {
                assert(n@ =~= orig);
            }
        }
        found
    }
}

fn apply_at_forest(nodes: &mut Vec<TreeNode>, cur: &mut usize, idx: usize, op: NodeOp) -> (found:
    bool)
    requires
        *old(cur) <= idx,
    ensures
        found ==> idx - *old(cur) < visible_forest(forest_v(old(nodes)@)).len() && forest_v(
            final(nodes)@,
        ) == spec_apply_at_forest(forest_v(old(nodes)@), idx - *old(cur), op),
        !found ==> idx - *old(cur) >= visible_forest(forest_v(old(nodes)@)).len() && forest_v(
            final(nodes)@,
        ) == forest_v(old(nodes)@) && *final(cur) == *old(cur) + visible_forest(
            forest_v(old(nodes)@),
        ).len(),
    decreases nheight_forest(forest_v(old(nodes)@)), 1int,
{
    let ghost orig = forest_v(old(nodes)@);
    let ghost cur0 = *old(cur);
    proof {
        lemma_forest_v_index(nodes@);
    }
    let n = nodes.len();
    let mut m: usize = 0;
    #[verifier::loop_isolation(false)]
    while m < n
        invariant
            0 <= m <= n,
            n == nodes@.len(),
            nodes@.len() == orig.len(),
            forall|j: int| 0 <= j < nodes@.len() ==> node_v(#[trigger] nodes@[j]) == orig[j],
            *cur <= idx,
            *cur == cur0 + visible_forest(orig.take(m as int)).len(),
            idx - cur0 >= visible_forest(orig.take(m as int)).len(),
        decreases n - m,
    {
        proof {
            lemma_nheight_forest_bounds(orig, m as int);
        }
        let ghost cur_pre = *cur;
        let child = child_at_mut(nodes, m);
        let found = apply_at_node(child, cur, idx, op);
        proof {
            lemma_visible_forest_take_step(orig, m as int);
        }
        if found {
            proof {
                assert(visible_forest(orig.take(m + 1)).len() <= visible_forest(orig).len()) by {
                    assert(orig =~= orig.take(m + 1) + orig.skip(m + 1));
                    lemma_visible_forest_append(orig.take(m + 1), orig.skip(m + 1));
                }
                lemma_forest_v_index(nodes@);
                assert(forest_v(nodes@) =~= orig.update(
                    m as int,
                    spec_apply_at_node(orig[m as int], idx - cur_pre, op),
                ));
                lemma_apply_at_forest_skip(orig, m as int, (idx - cur0) as int, op);
                assert(forest_v(nodes@) =~= spec_apply_at_forest(orig, idx - cur0, op));
            }
            return true;
        }
        proof {
            lemma_forest_v_index(nodes@);
        }
        m = m + 1;
    }
    proof {
        assert(orig.take(n as int) =~= orig);
        lemma_forest_v_index(nodes@);
        assert(forest_v(nodes@) =~= orig);
    }
    false
}

/// Unrolls the visible count of a forest prefix by one element.
pub proof fn lemma_visible_forest_take_step(s: Seq<NodeV>, m: int)
    requires
        0 <= m < s.len(),
    ensures
        visible_forest(s.take(m + 1)).len() == visible_forest(s.take(m)).len() + visible_nodes(
            s[m],
        ).len(),
{
    lemma_visible_forest_append(s.take(m), seq![s[m]]);
    assert(s.take(m + 1) =~= s.take(m) + seq![s[m]]);
    assert(visible_forest(seq![s[m]]) =~= visible_nodes(s[m])) by {
        assert(seq![s[m]].drop_first() =~= Seq::<NodeV>::empty());
        assert(visible_forest(Seq::<NodeV>::empty()) =~= Seq::<NodeV>::empty());
    }
}

pub proof fn lemma_visible_forest_append(a: Seq<NodeV>, b: Seq<NodeV>)
    ensures
        visible_forest(a + b) == visible_forest(a) + visible_forest(b),
    decreases a,
{
    if a.len() == 0 {
        assert(a + b =~= b);
        assert(visible_forest(a) + visible_forest(b) =~= visible_forest(b));
    } else {
        assert((a + b).drop_first() =~= a.drop_first() + b);
        lemma_visible_forest_append(a.drop_first(), b);
        assert(visible_forest(a + b) =~= visible_forest(a) + visible_forest(b));
    }
}

/// Where the target index falls in the `m`-th subtree, the update leaves
/// the elements around `m` unchanged.
pub proof fn lemma_apply_at_forest_skip(s: Seq<NodeV>, m: int, i: int, op: NodeOp)
    requires
        0 <= m < s.len(),
        visible_forest(s.take(m)).len() <= i,
        i - visible_forest(s.take(m)).len() < visible_nodes(s[m]).len(),
    ensures
        spec_apply_at_forest(s, i, op) == s.update(
            m,
            spec_apply_at_node(s[m], i - visible_forest(s.take(m)).len(), op),
        ),
    decreases s,
{
    if m == 0 {
        assert(visible_forest(s.take(0)).len() == 0);
        assert(spec_apply_at_forest(s, i, op) =~= s.update(
            0,
            spec_apply_at_node(s[0], i, op),
        ));
    } else {
        lemma_visible_forest_take_step(s, 0);
        assert(s.take(1) =~= seq![s[0]]);
        assert(visible_forest(s.take(0)).len() == 0);
        let c0 = visible_nodes(s[0]).len() as int;
        assert(s.drop_first().take(m - 1) =~= s.take(m).drop_first());
        assert(visible_forest(s.take(m)) =~= visible_nodes(s[0]) + visible_forest(
            s.drop_first().take(m - 1),
        )) by {
            lemma_visible_forest_append(seq![s[0]], s.drop_first().take(m - 1));
            assert(s.take(m) =~= seq![s[0]] + s.drop_first().take(m - 1));
            assert(visible_forest(seq![s[0]]) =~= visible_nodes(s[0])) by {
                assert(seq![s[0]].drop_first() =~= Seq::<NodeV>::empty());
            }
        }
        assert(i >= c0);
        lemma_apply_at_forest_skip(s.drop_first(), m - 1, i - c0, op);
        assert(s.drop_first()[m - 1] == s[m]);
        assert(spec_apply_at_forest(s, i, op) =~= s.update(
            m,
            spec_apply_at_node(s[m], i - visible_forest(s.take(m)).len(), op),
        ));
    }
}

/// Applies the operation to the node at visible position `idx` of the
/// forest; reports whether the position exists.
pub fn apply_tree_op(roots: &mut Vec<TreeNode>, idx: usize, op: NodeOp) -> (found: bool)
    ensures
        found == (idx < visible_forest(forest_v(old(roots)@)).len()),
        found ==> forest_v(final(roots)@) == spec_apply_at_forest(
            forest_v(old(roots)@),
            idx as int,
            op,
        ),
        !found ==> forest_v(final(roots)@) == forest_v(old(roots)@),
{
    let mut cur: usize = 0;
    apply_at_forest(roots, &mut cur, idx, op)
}

} // verus!

verus! {

/// The checked, project-bearing nodes of the forest, in pre-order.
pub open spec fn spec_checked_projects(s: Seq<NodeV>) -> Seq<ProjV>
    decreases s, 0int,
{
    if s.len() == 0 {
        Seq::empty()
    } else {
        spec_checked_of_node(s[0]) + spec_checked_projects(s.drop_first())
    }
}

pub open spec fn spec_checked_of_node(n: NodeV) -> Seq<ProjV>
    decreases n, 1int,
{
    (if n.checked && n.project is Some {
        seq![n.project->0]
    } else {
        Seq::empty()
    }) + spec_checked_projects(n.children)
}

/// Sum of the projects' sizes.
pub open spec fn sum_proj_sizes(s: Seq<ProjV>) -> nat
    decreases s,
{
    if s.len() == 0 {
        0
    } else {
        (s[0].total_size + sum_proj_sizes(s.drop_first())) as nat
    }
}

pub proof fn lemma_sum_proj_sizes_append(a: Seq<ProjV>, b: Seq<ProjV>)
    ensures
        sum_proj_sizes(a + b) == sum_proj_sizes(a) + sum_proj_sizes(b),
    decreases a,
{
    if a.len() == 0 {
        assert(a + b =~= b);
    } else {
        assert((a + b).drop_first() =~= a.drop_first() + b);
        lemma_sum_proj_sizes_append(a.drop_first(), b);
    }
}

/// What is checked weighs no more than the whole forest.
pub proof fn lemma_checked_sum_le_forest(s: Seq<NodeV>)
    ensures
        sum_proj_sizes(spec_checked_projects(s)) <= forest_sizes(s),
    decreases s, 0int,
{
    if s.len() > 0 {
        lemma_checked_sum_le_node(s[0]);
        lemma_checked_sum_le_forest(s.drop_first());
        lemma_sum_proj_sizes_append(spec_checked_of_node(s[0]), spec_checked_projects(
            s.drop_first(),
        ));
    }
}

pub proof fn lemma_checked_sum_le_node(n: NodeV)
    ensures
        sum_proj_sizes(spec_checked_of_node(n)) <= subtree_size(n),
    decreases n, 1int,
{
    lemma_checked_sum_le_forest(n.children);
    let own: Seq<ProjV> = if n.checked && n.project is Some {
        seq![n.project->0]
    } else {
        Seq::empty()
    };
    lemma_sum_proj_sizes_append(own, spec_checked_projects(n.children));
    if n.checked && n.project is Some {
        assert(sum_proj_sizes(own) == n.project->0.total_size) by {
            assert(own.drop_first() =~= Seq::<ProjV>::empty());
            assert(sum_proj_sizes(Seq::<ProjV>::empty()) == 0);
        }
    } else {
        assert(sum_proj_sizes(own) == 0);
    }
}

fn collect_checked_rec(n: &TreeNode, out: &mut Vec<CleanableProject>)
    ensures
        projs_v(final(out)@) == projs_v(old(out)@) + spec_checked_of_node(n@),
    decreases *n,
{
    let ghost base = projs_v(old(out)@);
    if n.checked {
        match &n.project {
            Some(p) => {
                let ghost pre_vec = out@;
                out.push(p.clone());
                proof {
                    assert(projs_v(out@) =~= base.push(n@.project->0));
                }
            },
            None => {
            },
        }
    }
    let ghost own: Seq<ProjV> = (if n@.checked && n@.project is Some {
        seq![n@.project->0]
    } else {
        Seq::<ProjV>::empty()
    });
    proof {
        assert(projs_v(out@) =~= base + own);
        lemma_forest_v_index(n.children@);
    }
    let ghost kids = n@.children;
    let mut i: usize = 0;
    proof {
        assert(kids.skip(0) =~= kids);
    }
    while i < n.children.len()
        invariant
            0 <= i <= n.children.len(),
            kids == n@.children,
            kids.len() == n.children@.len(),
            forall|j: int| 0 <= j < n.children@.len() ==> kids[j] == node_v(n.children@[j]),
            projs_v(out@) + spec_checked_projects(kids.skip(i as int)) == base + own
                + spec_checked_projects(kids),
        decreases n.children.len() - i,
    {
        proof {
            assert(kids.skip(i as int)[0] == kids[i as int]);
            assert(kids.skip(i as int).drop_first() =~= kids.skip(i + 1));
        }
        collect_checked_rec(&n.children[i], out);
        i = i + 1;
    }
    proof {
        assert(kids.skip(n.children@.len() as int) =~= Seq::<NodeV>::empty());
        assert(spec_checked_projects(Seq::<NodeV>::empty()) =~= Seq::<ProjV>::empty());
        assert(projs_v(out@) =~= base + spec_checked_of_node(n@));
    }
}

/// The checked, project-bearing nodes of the forest, in pre-order.
pub fn collect_checked_projects(roots: &Vec<TreeNode>) -> (r: Vec<CleanableProject>)
    ensures
        projs_v(r@) == spec_checked_projects(forest_v(roots@)),
{
    let mut out: Vec<CleanableProject> = Vec::new();
    let ghost rv = forest_v(roots@);
    proof {
        lemma_forest_v_index(roots@);
        assert(rv.skip(0) =~= rv);
        assert(projs_v(out@) =~= Seq::<ProjV>::empty());
    }
    let mut i: usize = 0;
    while i < roots.len()
        invariant
            0 <= i <= roots.len(),
            rv == forest_v(roots@),
            rv.len() == roots@.len(),
            forall|j: int| 0 <= j < roots@.len() ==> rv[j] == node_v(roots@[j]),
            projs_v(out@) + spec_checked_projects(rv.skip(i as int)) == spec_checked_projects(rv),
        decreases roots.len() - i,
    {
        proof {
            assert(rv.skip(i as int)[0] == rv[i as int]);
            assert(rv.skip(i as int).drop_first() =~= rv.skip(i + 1));
            assert(spec_checked_projects(rv.skip(i as int)) == spec_checked_of_node(rv[i as int])
                + spec_checked_projects(rv.skip(i + 1)));
        }
        collect_checked_rec(&roots[i], &mut out);
        i = i + 1;
    }
    proof {
        assert(rv.skip(roots@.len() as int) =~= Seq::<NodeV>::empty());
        assert(spec_checked_projects(Seq::<NodeV>::empty()) =~= Seq::<ProjV>::empty());
        assert(projs_v(out@) =~= spec_checked_projects(rv));
    }
    out
}

/// How many checked, project-bearing nodes the forest holds.
pub fn count_checked_projects(roots: &Vec<TreeNode>) -> (r: usize)
    ensures
        r == spec_checked_projects(forest_v(roots@)).len(),
{
    let list = collect_checked_projects(roots);
    list.len()
}

/// Total size of the checked, project-bearing nodes.
pub fn sum_checked_size(roots: &Vec<TreeNode>) -> (r: u64)
    requires
        forest_sizes(forest_v(roots@)) <= u64::MAX,
    ensures
        r == sum_proj_sizes(spec_checked_projects(forest_v(roots@))),
{
    let list = collect_checked_projects(roots);
    let ghost lv = projs_v(list@);
    proof {
        lemma_checked_sum_le_forest(forest_v(roots@));
    }
    let mut total: u64 = 0;
    let mut i: usize = 0;
    while i < list.len()
        invariant
            0 <= i <= list.len(),
            lv == projs_v(list@),
            lv.len() == list@.len(),
            forall|j: int| 0 <= j < list@.len() ==> lv[j] == list@[j]@,
            sum_proj_sizes(lv) <= u64::MAX,
            total == sum_proj_sizes(lv.take(i as int)),
            sum_proj_sizes(lv.take(i as int)) <= sum_proj_sizes(lv),
        decreases list.len() - i,
    {
        proof {
            assert(lv.take(i + 1) =~= lv.take(i as int) + seq![lv[i as int]]);
            lemma_sum_proj_sizes_append(lv.take(i as int), seq![lv[i as int]]);
            assert(sum_proj_sizes(seq![lv[i as int]]) == lv[i as int].total_size) by {
                assert(seq![lv[i as int]].drop_first() =~= Seq::<ProjV>::empty());
                assert(sum_proj_sizes(Seq::<ProjV>::empty()) == 0);
            }
            assert(lv =~= lv.take(i + 1) + lv.skip(i + 1));
            lemma_sum_proj_sizes_append(lv.take(i + 1), lv.skip(i + 1));
        }
        total = total + list[i].total_size;
        i = i + 1;
    }
    proof {
        assert(lv.take(list@.len() as int) =~= lv);
    }
    total
}

} // verus!

verus! {

pub proof fn lemma_set_checked_sizes(v: NodeV, b: bool)
    ensures
        subtree_size(spec_set_checked(v, b)) == subtree_size(v),
    decreases v,
{
    lemma_set_checked_forest_sizes(v.children, b);
}

pub proof fn lemma_set_checked_forest_sizes(s: Seq<NodeV>, b: bool)
    ensures
        forest_sizes(spec_set_checked_forest(s, b)) == forest_sizes(s),
    decreases s,
{
    if s.len() > 0 {
        lemma_set_checked_sizes(s[0], b);
        lemma_set_checked_forest_sizes(s.drop_first(), b);
        assert(spec_set_checked_forest(s, b)[0] == spec_set_checked(s[0], b));
        assert(spec_set_checked_forest(s, b).drop_first() =~= spec_set_checked_forest(
            s.drop_first(),
            b,
        ));
    }
}

/// Applying an operation at a visible position moves no bytes: the
/// forest's total size is unchanged.
pub proof fn lemma_apply_at_forest_sizes(s: Seq<NodeV>, i: int, op: NodeOp)
    ensures
        forest_sizes(spec_apply_at_forest(s, i, op)) == forest_sizes(s),
    decreases s, 0int,
{
    if s.len() > 0 {
        let t = spec_apply_at_forest(s, i, op);
        if i < visible_nodes(s[0]).len() {
            lemma_apply_at_node_sizes(s[0], i, op);
            assert(t[0] == spec_apply_at_node(s[0], i, op));
            assert(t.drop_first() =~= s.drop_first());
        } else {
            lemma_apply_at_forest_sizes(s.drop_first(), i - visible_nodes(s[0]).len(), op);
            assert(t[0] == s[0]);
            assert(t.drop_first() =~= spec_apply_at_forest(
                s.drop_first(),
                i - visible_nodes(s[0]).len(),
                op,
            ));
        }
    }
}

pub proof fn lemma_apply_at_node_sizes(n: NodeV, i: int, op: NodeOp)
    ensures
        subtree_size(spec_apply_at_node(n, i, op)) == subtree_size(n),
    decreases n, 1int,
{
    if i == 0 {
        match op {
            NodeOp::ToggleChecked => {
                lemma_set_checked_sizes(n, !n.checked);
            },
            NodeOp::ToggleExpand => {
            },
        }
    } else if !n.collapsed {
        lemma_apply_at_forest_sizes(n.children, i - 1, op);
    }
}

} // verus!

verus! {

pub proof fn lemma_forest_sizes_singleton(n: NodeV)
    ensures
        forest_sizes(seq![n]) == subtree_size(n),
{
    assert(seq![n].drop_first() =~= Seq::<NodeV>::empty());
    assert(forest_sizes(Seq::<NodeV>::empty()) == 0);
}

pub proof fn lemma_forest_sizes_update(s: Seq<NodeV>, i: int, n: NodeV)
    requires
        0 <= i < s.len(),
    ensures
        forest_sizes(s.update(i, n)) + subtree_size(s[i]) == forest_sizes(s) + subtree_size(n),
{
    assert(s =~= s.take(i) + seq![s[i]] + s.skip(i + 1));
    assert(s.update(i, n) =~= s.take(i) + seq![n] + s.skip(i + 1));
    lemma_forest_sizes_append(s.take(i) + seq![s[i]], s.skip(i + 1));
    lemma_forest_sizes_append(s.take(i), seq![s[i]]);
    lemma_forest_sizes_append(s.take(i) + seq![n], s.skip(i + 1));
    lemma_forest_sizes_append(s.take(i), seq![n]);
    lemma_forest_sizes_singleton(s[i]);
    lemma_forest_sizes_singleton(n);
}

pub proof fn lemma_insert_by_label_sizes(s: Seq<NodeV>, n: NodeV)
    ensures
        forest_sizes(insert_by_label(s, n)) == forest_sizes(s) + subtree_size(n),
    decreases s,
{
    if s.len() == 0 {
        lemma_forest_sizes_singleton(n);
    } else if !label_lt(n, s.last()) {
        assert(s.push(n) =~= s + seq![n]);
        lemma_forest_sizes_append(s, seq![n]);
        lemma_forest_sizes_singleton(n);
    } else {
        lemma_insert_by_label_sizes(s.drop_last(), n);
        let t = insert_by_label(s.drop_last(), n);
        assert(t.push(s.last()) =~= t + seq![s.last()]);
        lemma_forest_sizes_append(t, seq![s.last()]);
        lemma_forest_sizes_singleton(s.last());
        assert(s =~= s.drop_last() + seq![s.last()]);
        lemma_forest_sizes_append(s.drop_last(), seq![s.last()]);
    }
}

pub proof fn lemma_sort_level_sizes(s: Seq<NodeV>)
    ensures
        forest_sizes(sort_level(s)) == forest_sizes(s),
    decreases s,
{
    if s.len() > 0 {
        lemma_sort_level_sizes(s.drop_last());
        lemma_insert_by_label_sizes(sort_level(s.drop_last()), s.last());
        assert(s =~= s.drop_last() + seq![s.last()]);
        lemma_forest_sizes_append(s.drop_last(), seq![s.last()]);
        lemma_forest_sizes_singleton(s.last());
    }
}

/// Sorting the forest moves no bytes.
pub proof fn lemma_sort_tree_sizes(s: Seq<NodeV>)
    ensures
        forest_sizes(spec_sort_tree(s)) == forest_sizes(s),
    decreases s, 1int,
{
    lemma_sort_each_sizes(s);
    lemma_sort_level_sizes(spec_sort_each(s));
}

pub proof fn lemma_sort_each_sizes(s: Seq<NodeV>)
    ensures
        forest_sizes(spec_sort_each(s)) == forest_sizes(s),
    decreases s, 0int,
{
    if s.len() > 0 {
        lemma_sort_tree_sizes(s[0].children);
        lemma_sort_each_sizes(s.drop_first());
        let h = NodeV { children: spec_sort_tree(s[0].children), ..s[0] };
        assert(spec_sort_each(s) =~= seq![h] + spec_sort_each(s.drop_first()));
        assert(spec_sort_each(s)[0] == h);
        assert(spec_sort_each(s).drop_first() =~= spec_sort_each(s.drop_first()));
        assert(subtree_size(h) == subtree_size(s[0]));
    }
}

/// Inserting a project's node chain adds at most the project's size.
pub proof fn lemma_insert_path_sizes(
    nodes: Seq<NodeV>,
    comps: Seq<Seq<u8>>,
    p: ProjV,
    base: Seq<Seq<u8>>,
)
    ensures
        forest_sizes(spec_insert_path(nodes, comps, p, base)) <= forest_sizes(nodes)
            + p.total_size,
    decreases comps.len(),
{
    if comps.len() > 0 {
        let name = comps[0];
        let node_path = base.push(name);
        match find_label(nodes, name) {
            Some(i) => {
                lemma_find_label_in_range(nodes, name);
                if comps.len() == 1 {
                    let h = NodeV { project: Some(p), ..nodes[i] };
                    lemma_forest_sizes_update(nodes, i, h);
                } else {
                    lemma_insert_path_sizes(nodes[i].children, comps.drop_first(), p, node_path);
                    let h = NodeV {
                        children: spec_insert_path(
                            nodes[i].children,
                            comps.drop_first(),
                            p,
                            node_path,
                        ),
                        ..nodes[i]
                    };
                    lemma_forest_sizes_update(nodes, i, h);
                }
            },
            None => {
                if comps.len() == 1 {
                    let h = NodeV { project: Some(p), ..new_node_v(node_path) };
                    assert(nodes.push(h) =~= nodes + seq![h]);
                    lemma_forest_sizes_append(nodes, seq![h]);
                    lemma_forest_sizes_singleton(h);
                } else {
                    lemma_insert_path_sizes(Seq::empty(), comps.drop_first(), p, node_path);
                    let h = NodeV {
                        children: spec_insert_path(Seq::empty(), comps.drop_first(), p, node_path),
                        ..new_node_v(node_path)
                    };
                    assert(nodes.push(h) =~= nodes + seq![h]);
                    lemma_forest_sizes_append(nodes, seq![h]);
                    lemma_forest_sizes_singleton(h);
                }
            },
        }
    }
}

pub proof fn lemma_find_label_in_range(s: Seq<NodeV>, name: Seq<u8>)
    requires
        find_label(s, name) is Some,
    ensures
        0 <= find_label(s, name)->0 < s.len(),
    decreases s,
{
    if s.len() > 0 && spec_label(s[0]) != name {
        lemma_find_label_in_range(s.drop_first(), name);
    }
}

pub proof fn lemma_find_path_in_range(s: Seq<NodeV>, path: Seq<Seq<u8>>)
    requires
        find_path_idx(s, path) is Some,
    ensures
        0 <= find_path_idx(s, path)->0 < s.len(),
    decreases s,
{
    if s.len() > 0 && s[0].path != path {
        lemma_find_path_in_range(s.drop_first(), path);
    }
}

/// Inserting a project adds at most the project's size.
pub proof fn lemma_insert_project_sizes(forest: Seq<NodeV>, p: ProjV, root: Seq<Seq<u8>>)
    ensures
        forest_sizes(spec_insert_project(forest, p, root)) <= forest_sizes(forest) + p.total_size,
{
    if crate::path::is_prefix_of(root, p.root_path) {
        let rel = p.root_path.skip(root.len() as int);
        if rel.len() == 0 {
            match find_path_idx(forest, root) {
                Some(i) => {
                    lemma_find_path_in_range(forest, root);
                    lemma_forest_sizes_update(forest, i, NodeV { project: Some(p), ..forest[i] });
                },
                None => {
                    let h = NodeV { project: Some(p), ..new_node_v(root) };
                    assert(forest.push(h) =~= forest + seq![h]);
                    lemma_forest_sizes_append(forest, seq![h]);
                    lemma_forest_sizes_singleton(h);
                },
            }
        } else {
            lemma_insert_path_sizes(forest, rel, p, root);
        }
    } else {
        if p.root_path.len() > 0 {
            let h = NodeV { project: Some(p), ..new_node_v(p.root_path) };
            assert(forest.push(h) =~= forest + seq![h]);
            lemma_forest_sizes_append(forest, seq![h]);
            lemma_forest_sizes_singleton(h);
        }
    }
}

pub proof fn lemma_sum_proj_sizes_singleton(p: ProjV)
    ensures
        sum_proj_sizes(seq![p]) == p.total_size,
{
    assert(seq![p].drop_first() =~= Seq::<ProjV>::empty());
    assert(sum_proj_sizes(Seq::<ProjV>::empty()) == 0);
}

pub proof fn lemma_insert_by_path_sizes(s: Seq<ProjV>, p: ProjV)
    ensures
        sum_proj_sizes(insert_by_path(s, p)) == sum_proj_sizes(s) + p.total_size,
    decreases s,
{
    if s.len() == 0 {
        lemma_sum_proj_sizes_singleton(p);
    } else if !crate::path::path_lt(p.root_path, s.last().root_path) {
        assert(s.push(p) =~= s + seq![p]);
        lemma_sum_proj_sizes_append(s, seq![p]);
        lemma_sum_proj_sizes_singleton(p);
    } else {
        lemma_insert_by_path_sizes(s.drop_last(), p);
        let t = insert_by_path(s.drop_last(), p);
        assert(t.push(s.last()) =~= t + seq![s.last()]);
        lemma_sum_proj_sizes_append(t, seq![s.last()]);
        lemma_sum_proj_sizes_singleton(s.last());
        assert(s =~= s.drop_last() + seq![s.last()]);
        lemma_sum_proj_sizes_append(s.drop_last(), seq![s.last()]);
    }
}

pub proof fn lemma_sort_by_path_sizes(s: Seq<ProjV>)
    ensures
        sum_proj_sizes(sort_by_path(s)) == sum_proj_sizes(s),
    decreases s,
{
    if s.len() > 0 {
        lemma_sort_by_path_sizes(s.drop_last());
        lemma_insert_by_path_sizes(sort_by_path(s.drop_last()), s.last());
        assert(s =~= s.drop_last() + seq![s.last()]);
        lemma_sum_proj_sizes_append(s.drop_last(), seq![s.last()]);
        lemma_sum_proj_sizes_singleton(s.last());
    }
}

pub proof fn lemma_build_unsorted_sizes(projs: Seq<ProjV>, root: Seq<Seq<u8>>)
    ensures
        forest_sizes(spec_build_unsorted(projs, root)) <= sum_proj_sizes(projs),
    decreases projs,
{
    if projs.len() > 0 {
        lemma_build_unsorted_sizes(projs.drop_last(), root);
        lemma_insert_project_sizes(
            spec_build_unsorted(projs.drop_last(), root),
            projs.last(),
            root,
        );
        assert(projs =~= projs.drop_last() + seq![projs.last()]);
        lemma_sum_proj_sizes_append(projs.drop_last(), seq![projs.last()]);
        lemma_sum_proj_sizes_singleton(projs.last());
    }
}

/// The forest built for a project list holds at most the projects'
/// summed sizes.
pub proof fn lemma_build_tree_sizes(projs: Seq<ProjV>, root: Seq<Seq<u8>>)
    ensures
        forest_sizes(spec_build_tree(projs, root)) <= sum_proj_sizes(projs),
{
    lemma_sort_by_path_sizes(projs);
    lemma_build_unsorted_sizes(sort_by_path(projs), root);
    lemma_sort_tree_sizes(spec_build_unsorted(sort_by_path(projs), root));
}

} // verus!

verus! {

/// Applying an operation at one visible position touches at most one
/// root subtree: every sibling of the node's whole ancestor chain keeps
/// its state.
pub proof fn lemma_apply_touches_one_subtree(s: Seq<NodeV>, i: int, op: NodeOp)
    requires
        0 <= i,
    ensures
        spec_apply_at_forest(s, i, op) == s || exists|m: int|
            0 <= m < s.len() && spec_apply_at_forest(s, i, op) == s.update(
                m,
                spec_apply_at_node(s[m], i - visible_forest(s.take(m)).len(), op),
            ),
    decreases s,
{
    if s.len() == 0 {
    } else if i < visible_nodes(s[0]).len() {
        assert(visible_forest(s.take(0)).len() == 0) by {
            assert(s.take(0) =~= Seq::<NodeV>::empty());
        }
        assert(spec_apply_at_forest(s, i, op) =~= s.update(
            0,
            spec_apply_at_node(s[0], i - visible_forest(s.take(0)).len(), op),
        ));
    } else {
        let c0 = visible_nodes(s[0]).len() as int;
        lemma_apply_touches_one_subtree(s.drop_first(), i - c0, op);
        let rest = spec_apply_at_forest(s.drop_first(), i - c0, op);
        if rest == s.drop_first() {
            assert(spec_apply_at_forest(s, i, op) =~= s);
        } else {
            let m = choose|m: int|
                0 <= m < s.drop_first().len() && rest == s.drop_first().update(
                    m,
                    spec_apply_at_node(
                        s.drop_first()[m],
                        i - c0 - visible_forest(s.drop_first().take(m)).len(),
                        op,
                    ),
                );
            assert(s.drop_first()[m] == s[m + 1]);
            assert(visible_forest(s.take(m + 1)).len() == c0 + visible_forest(
                s.drop_first().take(m),
            ).len()) by {
                assert(s.take(m + 1) =~= seq![s[0]] + s.drop_first().take(m));
                lemma_visible_forest_append(seq![s[0]], s.drop_first().take(m));
                assert(visible_forest(seq![s[0]]) =~= visible_nodes(s[0])) by {
                    assert(seq![s[0]].drop_first() =~= Seq::<NodeV>::empty());
                    assert(visible_forest(Seq::<NodeV>::empty()) =~= Seq::<NodeV>::empty());
                }
            }
            assert(spec_apply_at_forest(s, i, op) =~= s.update(
                m + 1,
                spec_apply_at_node(s[m + 1], i - visible_forest(s.take(m + 1)).len(), op),
            ));
        }
    }
}

} // verus!
