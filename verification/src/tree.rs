//! The partition tree of one output: an arena of groups and leaves, with the
//! invariant that ties the stored sizes to the shape of the tree.

use vstd::prelude::*;
use id_tree::{NodeId, Tree};
use crate::arena::{
    children_of, children_sound, climbs, data_of, keys, new_tree, node_key, once, opt_key,
    parent_of, root_of, same_node, tree_nodes, tree_root, without, TreeNode,
};
use crate::data::{Data, DataView};

verus! {

/// Partition tree of one output.
///
/// Every group has exactly two children: inserting a window wraps an existing
/// node and the new leaf in a new group, and removing one of two children
/// dissolves their group. Size lists of any length are served by
/// [`Data::add_window`] and [`Data::remove_window`]; with three sizes or
/// more, rounding can leave the last one negative, so such a list is no
/// list of rectangles, and no tree holds one.
pub struct PartitionTree {
    pub(crate) tree: Tree<Data>,
    pub(crate) rank: Ghost<Map<int, nat>>,
    pub(crate) bound: Ghost<nat>,
}

/// Mathematical value of a [`PartitionTree`].
pub struct TreeView {
    /// The nodes by key, with their links.
    pub nodes: Map<int, TreeNode>,
    /// Key of the root; `None` for the empty tree.
    pub root: Option<int>,
    /// A number for each node that is smaller than that of its parent. It
    /// witnesses that the links form a tree, and has no other meaning.
    pub rank: Map<int, nat>,
    /// A number that no rank exceeds.
    pub bound: nat,
}

impl TreeView {
    pub open spec fn contains(self, k: int) -> bool {
        self.nodes.contains_key(k)
    }

    pub open spec fn data(self, k: int) -> DataView {
        self.nodes[k].data
    }

    pub open spec fn parent(self, k: int) -> Option<int> {
        self.nodes[k].parent
    }

    pub open spec fn children(self, k: int) -> Seq<int> {
        self.nodes[k].children
    }

    pub open spec fn is_empty(self) -> bool {
        self.root.is_none()
    }

    /// The tree without nodes.
    pub open spec fn empty() -> TreeView {
        TreeView { nodes: Map::empty(), root: None, rank: Map::empty(), bound: 0 }
    }

    /// Parent and child links agree, no node is listed twice, and only the
    /// root is without a parent.
    pub open spec fn linked(self) -> bool {
        &&& forall|k: int| #[trigger]
            self.contains(k) ==> self.children(k).no_duplicates() && match self.parent(k) {
                Some(p) => self.contains(p) && self.children(p).contains(k),
                None => self.root == Some(k),
            }
        &&& forall|k: int, i: int|
            self.contains(k) && 0 <= i < self.children(k).len() ==> self.contains(
                #[trigger] self.children(k)[i],
            ) && self.parent(self.children(k)[i]) == Some(k)
        &&& match self.root {
            Some(r) => self.contains(r) && self.parent(r).is_none(),
            None => forall|k: int| !self.contains(k),
        }
    }

    /// Every node has a rank within the bound, below that of its parent.
    pub open spec fn ranked(self) -> bool {
        forall|k: int| #[trigger]
            self.contains(k) ==> self.rank.contains_key(k) && self.rank[k] <= self.bound
                && match self.parent(k) {
                Some(p) => self.rank.contains_key(p) && self.rank[k] < self.rank[p],
                None => true,
            }
    }

    /// The node under `k` is well formed by itself and has as many children
    /// as its kind asks for: two for a group, with one size each, none for a
    /// leaf.
    pub open spec fn shaped_at(self, k: int) -> bool {
        &&& self.data(k).wf()
        &&& self.data(k).is_group() ==> self.children(k).len() == 2 && self.data(k).sizes().len()
            == 2
        &&& self.data(k).is_leaf() ==> self.children(k).len() == 0
    }

    pub open spec fn shaped(self) -> bool {
        forall|k: int| #[trigger] self.contains(k) ==> self.shaped_at(k)
    }

    /// The links form a tree.
    pub open spec fn skeleton(self) -> bool {
        self.linked() && self.ranked()
    }

    /// The invariant of a partition tree.
    pub open spec fn wf(self) -> bool {
        self.skeleton() && self.shaped()
    }

    /// The nodes after the node under `k` and a new leaf under `l` were put,
    /// in this order, under a new group `g` that takes the place of `k`.
    pub open spec fn wrapped(
        self,
        k: int,
        g: int,
        l: int,
        group: DataView,
        leaf: DataView,
    ) -> Map<int, TreeNode> {
        let base = match self.parent(k) {
            Some(p) => self.nodes.insert(
                p,
                TreeNode {
                    children: self.children(p).update(self.children(p).index_of(k), g),
                    ..self.nodes[p]
                },
            ),
            None => self.nodes,
        };
        base.insert(k, TreeNode { parent: Some(g), ..self.nodes[k] }).insert(
            g,
            TreeNode { data: group, parent: self.parent(k), children: seq![k, l] },
        ).insert(l, TreeNode { data: leaf, parent: Some(g), children: Seq::empty() })
    }
}

/// Ranks that rise along every parent link of `nodes`.
pub open spec fn rising(nodes: Map<int, TreeNode>, rank: Map<int, nat>) -> bool {
    forall|k: int| #[trigger]
        nodes.contains_key(k) ==> match nodes[k].parent {
            Some(p) => rank.contains_key(k) && rank.contains_key(p) && rank[k] < rank[p],
            None => true,
        }
}

/// Where ranks rise along the parent links, climbing leads to a higher rank.
pub proof fn lemma_climbs_rises(
    nodes: Map<int, TreeNode>,
    rank: Map<int, nat>,
    from: int,
    to: int,
    steps: nat,
)
    requires
        rising(nodes, rank),
        climbs(nodes, from, to, steps),
    ensures
        rank.contains_key(from),
        rank.contains_key(to),
        rank[from] < rank[to],
    decreases steps,
{
    let q = nodes[from].parent.unwrap();
    if q != to {
        lemma_climbs_rises(nodes, rank, q, to, (steps - 1) as nat);
    }
}

/// In a list without duplicates, the position of an entry is the only one
/// that holds it.
pub proof fn lemma_index_of(s: Seq<int>, i: int)
    requires
        s.no_duplicates(),
        0 <= i < s.len(),
    ensures
        s.index_of(s[i]) == i,
{
    let j = s.index_of(s[i]);
    assert(0 <= j < s.len() && s[j] == s[i]);
}

/// Taking out an entry that a list does not hold leaves the list as it is.
pub proof fn lemma_without_absent(s: Seq<int>, k: int)
    requires
        !s.contains(k),
    ensures
        without(s, k) == s,
    decreases s.len(),
{
    if s.len() > 0 {
        assert(s.last() != k) by {
            assert(s[s.len() - 1] == s.last());
        }
        assert forall|i: int| 0 <= i < s.drop_last().len() implies s.drop_last()[i] != k by {
            assert(s[i] == s.drop_last()[i]);
        }
        lemma_without_absent(s.drop_last(), k);
        assert(s.drop_last().push(s.last()) =~= s);
    }
}

/// In a list without duplicates, taking out the entries equal to the one at
/// position `i` removes exactly that position.
pub proof fn lemma_without_once(s: Seq<int>, i: int)
    requires
        s.no_duplicates(),
        0 <= i < s.len(),
    ensures
        without(s, s[i]) == s.remove(i),
        once(s, s[i]),
    decreases s.len(),
{
    let k = s[i];
    let front = s.drop_last();
    assert(front.no_duplicates());
    if i == s.len() - 1 {
        assert(!front.contains(k)) by {
            if front.contains(k) {
                let j = front.index_of(k);
                assert(s[j] == k);
            }
        }
        lemma_without_absent(front, k);
        assert(front =~= s.remove(i));
    } else {
        assert(s.last() != k);
        assert(front[i] == k);
        lemma_without_once(front, i);
        assert(front.remove(i).push(s.last()) =~= s.remove(i));
    }
    assert(s.contains(k));
}

/// Where ranks rise along the parent links, and the nodes that `p` lists are
/// in the arena with `p` as their parent, these children are sound.
pub proof fn lemma_children_sound(nodes: Map<int, TreeNode>, rank: Map<int, nat>, p: int)
    requires
        rising(nodes, rank),
        forall|i: int|
            0 <= i < nodes[p].children.len() ==> nodes.contains_key(#[trigger] nodes[p].children[i])
                && nodes[nodes[p].children[i]].parent == Some(p),
    ensures
        children_sound(nodes, p),
{
    assert forall|i: int, steps: nat| 0 <= i < nodes[p].children.len() implies !#[trigger] climbs(
        nodes,
        p,
        nodes[p].children[i],
        steps,
    ) by {
        let c = nodes[p].children[i];
        if climbs(nodes, p, c, steps) {
            lemma_climbs_rises(nodes, rank, p, c, steps);
            assert(nodes.contains_key(c));
        }
    }
}

impl View for PartitionTree {
    type V = TreeView;

    closed spec fn view(&self) -> TreeView {
        TreeView {
            nodes: tree_nodes(self.tree),
            root: tree_root(self.tree),
            rank: self.rank@,
            bound: self.bound@,
        }
    }
}

impl PartitionTree {
    /// What the view is made of.
    pub(crate) proof fn unfold(&self)
        ensures
            self@.nodes == tree_nodes(self.tree),
            self@.root == tree_root(self.tree),
            self@.rank == self.rank@,
            self@.bound == self.bound@,
    {
    }

    /// The invariant holds.
    pub open spec fn wf(&self) -> bool {
        self@.wf()
    }

    /// The empty tree.
    pub fn new() -> (t: PartitionTree)
        ensures
            t.wf(),
            t@.is_empty(),
            t@.nodes == crate::arena::no_nodes(),
            t@ == TreeView::empty(),
    {
        PartitionTree { tree: new_tree(), rank: Ghost(Map::empty()), bound: Ghost(0) }
    }

    /// Identifier of the root, if the tree is not empty.
    pub fn root(&self) -> (r: Option<NodeId>)
        ensures
            opt_key(r) == self@.root,
    {
        root_of(&self.tree)
    }

    /// Data of the node under `id`, if there is one.
    pub fn get(&self, id: &NodeId) -> (d: Option<&Data>)
        ensures
            d.is_some() == self@.contains(node_key(*id)),
            d.is_some() ==> d.unwrap()@ == self@.data(node_key(*id)),
    {
        data_of(&self.tree, id)
    }

    /// Identifier of the parent of the node under `id`.
    pub fn parent(&self, id: &NodeId) -> (p: Option<NodeId>)
        requires
            self@.contains(node_key(*id)),
        ensures
            opt_key(p) == self@.parent(node_key(*id)),
    {
        parent_of(&self.tree, id)
    }

    /// Identifiers of the children of the node under `id`, in order.
    pub fn children(&self, id: &NodeId) -> (c: Vec<NodeId>)
        requires
            self@.contains(node_key(*id)),
        ensures
            keys(c@) == self@.children(node_key(*id)),
            c@.len() == self@.children(node_key(*id)).len(),
    {
        let c = children_of(&self.tree, id);
        proof {
            assert(keys(c@).len() == c@.len());
        }
        c
    }

    /// Position of the node under `id` among the children of its parent.
    pub fn position(&self, parent: &NodeId, id: &NodeId) -> (pos: usize)
        requires
            self@.linked(),
            self@.contains(node_key(*id)),
            self@.parent(node_key(*id)) == Some(node_key(*parent)),
        ensures
            pos < self@.children(node_key(*parent)).len(),
            self@.children(node_key(*parent))[pos as int] == node_key(*id),
            self@.children(node_key(*parent)).index_of(node_key(*id)) == pos,
    {
        let siblings = self.children(parent);
        let ghost list = self@.children(node_key(*parent));
        let ghost at = list.index_of(node_key(*id));
        proof {
            assert(self@.contains(node_key(*id)));
            assert(list.contains(node_key(*id)));
            assert(0 <= at < list.len() && list[at] == node_key(*id));
            assert(self@.contains(node_key(*parent)));
        }
        let mut i: usize = 0;
        while i < siblings.len()
            invariant
                i <= at < siblings@.len(),
                list == keys(siblings@),
                list == self@.children(node_key(*parent)),
                list.no_duplicates(),
                list[at] == node_key(*id),
                forall|j: int| 0 <= j < i ==> list[j] != node_key(*id),
            decreases siblings.len() - i,
        {
            if same_node(&siblings[i], id) {
                proof {
                    assert(list[i as int] == node_key(siblings@[i as int]));
                    lemma_index_of(list, i as int);
                }
                return i;
            }
            proof {
                assert(list[i as int] == node_key(siblings@[i as int]));
            }
            i = i + 1;
        }
        0
    }
}

} // verus!
