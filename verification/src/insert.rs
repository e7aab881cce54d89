//! Insertion: a node and a new one are put under a new group that takes the
//! node's place.

use vstd::prelude::*;
use id_tree::NodeId;
use crate::arena::{
    climbs, insert_root, insert_under, make_nth_sibling, move_under, moved, node_key, tree_nodes,
    TreeNode,
};
use crate::data::{Data, DataView};
use crate::geometry::{placeholder, placeholder_rect, Orientation, Size};
use crate::sizes::sum;
use crate::tree::{
    lemma_children_sound, lemma_climbs_rises, lemma_without_once, rising, PartitionTree, TreeView,
};

verus! {

/// The ranks after a node was wrapped: all old ranks are spread out to make
/// room for the new group right above the wrapped node.
pub open spec fn spread_rank(rank: Map<int, nat>, k: int, g: int, l: int) -> Map<int, nat> {
    Map::new(
        |j: int| j == g || j == l || rank.contains_key(j),
        |j: int|
            if j == g {
                2 * rank[k] + 2
            } else if j == l {
                0
            } else {
                2 * rank[j] + 1
            },
    )
}

/// A fresh group over the placeholder rectangle is well formed.
pub proof fn lemma_halved_placeholder(orientation: Orientation, alive: u64)
    ensures
        DataView::halved(orientation, placeholder(), alive).wf(),
        DataView::halved(orientation, placeholder(), alive).sizes().len() == 2,
        DataView::halved(orientation, placeholder(), alive).sizes() == seq![50int, 50int],
{
    reveal_with_fuel(sum, 3);
    let d = DataView::halved(orientation, placeholder(), alive);
    assert(d.sizes() =~= seq![50int, 50int]);
}

impl PartitionTree {
    /// Puts the data `new` into an empty tree, as its root.
    pub fn insert_first(&mut self, new: Data) -> (id: NodeId)
        requires
            old(self).wf(),
            old(self)@.is_empty(),
            new@.is_leaf(),
            new@.wf(),
        ensures
            final(self).wf(),
            final(self)@.root == Some(node_key(id)),
            final(self)@.nodes == old(self)@.nodes.insert(
                node_key(id),
                TreeNode { data: new@, parent: None, children: Seq::empty() },
            ),
    {
        proof {
            self.unfold();
        }
        let ghost v0 = self@;
        let id = insert_root(&mut self.tree, new);
        self.rank = Ghost(self.rank@.insert(node_key(id), 0));
        proof {
            self.unfold();
            let v = self@;
            assert forall|j: int| #[trigger] v.contains(j) implies j == node_key(id) by {
                if j != node_key(id) {
                    assert(v0.contains(j));
                }
            }
            assert(v.children(node_key(id)) =~= Seq::<int>::empty());
            assert(v.linked());
            assert(v.ranked());
            assert(v.shaped());
        }
        id
    }

    /// Wraps the node under `old_id` in a new group of the given orientation
    /// and adds `new` as the group's second child. The group takes the
    /// node's place: same parent, same position among its siblings. Returns
    /// the identifier of the node that holds `new`.
    pub fn new_group(
        &mut self,
        old_id: &NodeId,
        new: Data,
        orientation: Orientation,
        marker: u64,
    ) -> (id: NodeId)
        requires
            old(self).wf(),
            old(self)@.contains(node_key(*old_id)),
        ensures
            !old(self)@.contains(node_key(id)),
            final(self)@.contains(node_key(id)),
            final(self)@.parent(node_key(id)).is_some(),
            !old(self)@.contains(final(self)@.parent(node_key(id)).unwrap()),
            final(self)@.parent(node_key(id)).unwrap() != node_key(id),
            final(self)@.nodes == old(self)@.wrapped(
                node_key(*old_id),
                final(self)@.parent(node_key(id)).unwrap(),
                node_key(id),
                DataView::halved(orientation, placeholder(), marker),
                new@,
            ),
            final(self)@.root == if old(self)@.root == Some(node_key(*old_id)) {
                final(self)@.parent(node_key(id))
            } else {
                old(self)@.root
            },
            final(self)@.skeleton(),
            forall|j: int|
                final(self)@.contains(j) && j != node_key(id) ==> final(self)@.shaped_at(j),
            new@.is_leaf() && new@.wf() ==> final(self).wf(),
    {
        proof {
            self.unfold();
            lemma_halved_placeholder(orientation, marker);
        }
        let ghost v0 = self@;
        let ghost k = node_key(*old_id);
        let ghost leaf = new@;
        let group = Data::new_group(orientation, placeholder_rect(), marker);
        let ghost gd = group@;
        let parent_id = self.parent(old_id);
        let id = match parent_id {
            Some(p_id) => {
                let ghost p = node_key(p_id);
                let ghost cp = v0.children(p);
                let pos = self.position(&p_id, old_id);
                assert(v0.contains(p));
                let g_id = insert_under(&mut self.tree, group, &p_id);
                let ghost g = node_key(g_id);
                let ghost n1 = tree_nodes(self.tree);
                proof {
                    let r1 = spread_rank(v0.rank, k, g, g);
                    assert(rising(n1, r1)) by {
                        assert forall|j: int| #[trigger] n1.contains_key(j) implies match n1[j].parent {
                            Some(q) => r1.contains_key(j) && r1.contains_key(q) && r1[j] < r1[q],
                            None => true,
                        } by {
                            if j != g {
                                assert(v0.contains(j));
                            }
                        }
                    }
                    assert forall|steps: nat| !climbs(n1, g, k, steps) by {
                        if climbs(n1, g, k, steps) {
                            lemma_climbs_rises(n1, r1, g, k, steps);
                        }
                    }
                    assert(cp.push(g).no_duplicates());
                    lemma_without_once(cp.push(g), pos as int);
                    assert(cp.push(g).remove(pos as int) =~= cp.remove(pos as int).push(g));
                    assert(p != k) by {
                        assert(v0.rank[k] < v0.rank[p]);
                    }
                }
                move_under(&mut self.tree, old_id, &g_id);
                let ghost n2 = tree_nodes(self.tree);
                proof {
                    let r1 = spread_rank(v0.rank, k, g, g);
                    let s = cp.remove(pos as int).push(g);
                    assert(n2[p].children == s);
                    assert(s.no_duplicates());
                    lemma_without_once(s, s.len() - 1);
                    assert(s.remove(s.len() - 1) =~= cp.remove(pos as int));
                    assert(moved(s, g, pos as int) =~= cp.update(pos as int, g));
                    assert(rising(n2, r1)) by {
                        assert forall|j: int| #[trigger] n2.contains_key(j) implies match n2[j].parent {
                            Some(q) => r1.contains_key(j) && r1.contains_key(q) && r1[j] < r1[q],
                            None => true,
                        } by {
                            assert(n1.contains_key(j));
                            if j != k {
                                assert(n2[j].parent == n1[j].parent);
                            }
                        }
                    }
                    assert forall|i: int| 0 <= i < n2[p].children.len() implies n2.contains_key(
                        #[trigger] n2[p].children[i],
                    ) && n2[n2[p].children[i]].parent == Some(p) by {
                        let c = s[i];
                        if i < s.len() - 1 {
                            let a = if i < pos {
                                i
                            } else {
                                i + 1
                            };
                            assert(c == cp[a]);
                            assert(v0.contains(cp[a]) && v0.parent(cp[a]) == Some(p));
                            assert(c != k);
                        }
                    }
                    lemma_children_sound(n2, r1, p);
                }
                make_nth_sibling(&mut self.tree, &g_id, pos);
                let l_id = insert_under(&mut self.tree, new, &g_id);
                proof {
                    let l = node_key(l_id);
                    assert(Seq::<int>::empty().push(k).push(l) =~= seq![k, l]);
                    assert(tree_nodes(self.tree) =~= v0.wrapped(k, g, l, gd, leaf));
                }
                self.rank = Ghost(spread_rank(v0.rank, k, g, node_key(l_id)));
                self.bound = Ghost(2 * v0.bound + 2);
                l_id
            },
            None => {
                assert(v0.root == Some(k));
                let g_id = insert_root(&mut self.tree, group);
                let ghost g = node_key(g_id);
                let ghost n1 = tree_nodes(self.tree);
                proof {
                    assert forall|steps: nat| !climbs(n1, g, k, steps) by {}
                    lemma_without_once(seq![k], 0);
                    assert(seq![k].remove(0) =~= Seq::<int>::empty());
                    assert(Seq::<int>::empty().push(k) =~= seq![k]);
                }
                move_under(&mut self.tree, old_id, &g_id);
                proof {
                    assert(tree_nodes(self.tree) =~= n1);
                }
                let l_id = insert_under(&mut self.tree, new, &g_id);
                proof {
                    let l = node_key(l_id);
                    assert(seq![k].push(l) =~= seq![k, l]);
                    assert(tree_nodes(self.tree) =~= v0.wrapped(k, g, l, gd, leaf));
                }
                self.rank = Ghost(spread_rank(v0.rank, k, g, node_key(l_id)));
                self.bound = Ghost(2 * v0.bound + 2);
                l_id
            },
        };
        proof {
            self.unfold();
            let l = node_key(id);
            let g = self@.parent(l).unwrap();
            lemma_wrapped_wf(v0, self@, k, g, l, gd, leaf);
        }
        id
    }
}

impl TreeView {
    /// The node that a new window is put beside: the leaf of the most
    /// recently focused window that the tree holds, else the root.
    pub open spec fn insertion_point(self, stack: Seq<u64>) -> Option<int> {
        match self.last_active(stack) {
            Some(i) => self.leaf_of(stack[i]),
            None => self.root,
        }
    }

    /// The orientation of the group that a new window gets: side by side
    /// where the rectangle beside which it is put is wider than tall, else
    /// stacked. That rectangle is the one of the most recently focused
    /// window, or `fallback` if the tree holds none.
    pub open spec fn split_for(self, stack: Seq<u64>, fallback: Size) -> Orientation {
        let size = match self.last_active(stack) {
            Some(i) => self.data(self.leaf_of(stack[i]).unwrap()).geometry().size,
            None => fallback,
        };
        if size.w > size.h {
            Orientation::Vertical
        } else {
            Orientation::Horizontal
        }
    }

    /// `after` is the tree `self` with a leaf for `window` added under the
    /// key `l`: as the root of an empty tree, else wrapped together with the
    /// insertion point in a new group.
    pub open spec fn grown(
        self,
        after: TreeView,
        stack: Seq<u64>,
        fallback: Size,
        window: u64,
        l: int,
        marker: u64,
    ) -> bool {
        let leaf = DataView::Mapped { window, geometry: placeholder() };
        &&& !self.contains(l)
        &&& match self.insertion_point(stack) {
            None => after.root == Some(l) && after.nodes == self.nodes.insert(
                l,
                TreeNode { data: leaf, parent: None, children: Seq::empty() },
            ),
            Some(k) => {
                let g = after.parent(l).unwrap();
                &&& after.contains(l)
                &&& after.parent(l).is_some()
                &&& !self.contains(g)
                &&& g != l
                &&& after.nodes == self.wrapped(
                    k,
                    g,
                    l,
                    DataView::halved(self.split_for(stack, fallback), placeholder(), marker),
                    leaf,
                )
                &&& after.root == if self.root == Some(k) {
                    Some(g)
                } else {
                    self.root
                }
            },
        }
    }
}

impl PartitionTree {
    /// Adds a leaf for `window`, beside the most recently focused window of
    /// `focus_stack` that the tree holds, else beside the root, else as the
    /// root. Returns the identifier of the new leaf.
    pub fn insert(
        &mut self,
        window: u64,
        focus_stack: &Vec<u64>,
        fallback: Size,
        marker: u64,
    ) -> (id: NodeId)
        requires
            old(self).wf(),
        ensures
            final(self).wf(),
            old(self)@.grown(final(self)@, focus_stack@, fallback, window, node_key(id), marker),
            final(self)@.contains(node_key(id)),
            final(self)@.data(node_key(id)) == (DataView::Mapped { window, geometry: placeholder() }),
    {
        let new = Data::new_mapped(window, placeholder_rect());
        let reference: Option<(NodeId, Size)> = match self.last_active_window(focus_stack) {
            Some((_, id)) => {
                let size = match self.get(&id) {
                    Some(data) => data.geometry().size,
                    None => fallback,
                };
                Some((id, size))
            },
            None => match self.root() {
                Some(root) => Some((root, fallback)),
                None => None,
            },
        };
        match reference {
            Some((old_id, size)) => {
                let orientation = if size.w > size.h {
                    Orientation::Vertical
                } else {
                    Orientation::Horizontal
                };
                self.new_group(&old_id, new, orientation, marker)
            },
            None => self.insert_first(new),
        }
    }
}

/// Wrapping a node of a well-formed tree gives a tree whose links are sound
/// and whose nodes, but perhaps the new one, have the shape of their kind.
pub proof fn lemma_wrapped_wf(
    v0: TreeView,
    v: TreeView,
    k: int,
    g: int,
    l: int,
    group: DataView,
    leaf: DataView,
)
    requires
        v0.wf(),
        v0.contains(k),
        !v0.contains(g),
        !v0.contains(l),
        g != l,
        group.wf(),
        group.is_group(),
        group.sizes().len() == 2,
        v.nodes == v0.wrapped(k, g, l, group, leaf),
        v.root == if v0.root == Some(k) {
            Some(g)
        } else {
            v0.root
        },
        v.rank == spread_rank(v0.rank, k, g, l),
        v.bound == 2 * v0.bound + 2,
    ensures
        v.skeleton(),
        forall|j: int| v.contains(j) && j != l ==> v.shaped_at(j),
        leaf.is_leaf() && leaf.wf() ==> v.wf(),
{
    let po = v0.parent(k);
    assert forall|j: int| #[trigger] v.contains(j) implies (j == g || j == l || v0.contains(j)) by {}
    if po.is_some() {
        let p = po.unwrap();
        let cp = v0.children(p);
        let pos = cp.index_of(k);
        assert(v0.contains(p) && cp.contains(k));
        assert(0 <= pos < cp.len() && cp[pos] == k);
        assert(p != k) by {
            assert(v0.rank[k] < v0.rank[p]);
        }
        let np = cp.update(pos, g);
        assert(v.children(p) == np);
        assert(np.no_duplicates()) by {
            assert forall|a: int, b: int| 0 <= a < np.len() && 0 <= b < np.len() && a != b implies np[a]
                != np[b] by {
                if a == pos {
                    assert(v0.contains(cp[b]));
                } else if b == pos {
                    assert(v0.contains(cp[a]));
                }
            }
        }
        assert(np.contains(g)) by {
            assert(np[pos] == g);
        }
        assert forall|j: int| v0.contains(j) && j != k && v0.parent(j) == Some(p) implies np.contains(
            j,
        ) by {
            let a = cp.index_of(j);
            assert(cp.contains(j));
            assert(np[a] == j);
        }
    }
    assert(v.children(g) == seq![k, l]);
    assert(seq![k, l].no_duplicates());
    assert(seq![k, l].contains(k)) by {
        assert(seq![k, l][0] == k);
    }
    assert(seq![k, l].contains(l)) by {
        assert(seq![k, l][1] == l);
    }
    assert forall|j: int| #[trigger] v.contains(j) implies v.children(j).no_duplicates() && match v.parent(
        j,
    ) {
        Some(q) => v.contains(q) && v.children(q).contains(j),
        None => v.root == Some(j),
    } by {
        if j != g && j != l && j != k {
            assert(v0.contains(j));
            if po.is_some() && j == po.unwrap() {
            } else {
                assert(v.nodes[j] == v0.nodes[j]);
            }
            match v0.parent(j) {
                Some(q) => {
                    assert(v0.contains(q));
                    if po == Some(q) {
                    } else {
                        assert(v.children(q) == v0.children(q));
                    }
                },
                None => {},
            }
        }
    }
    assert forall|j: int, i: int| v.contains(j) && 0 <= i < v.children(j).len() implies v.contains(
        #[trigger] v.children(j)[i],
    ) && v.parent(v.children(j)[i]) == Some(j) by {
        if j == g {
        } else if j == l {
        } else if po == Some(j) {
            let cp = v0.children(j);
            if i != cp.index_of(k) {
                assert(v0.contains(cp[i]));
                assert(cp[i] != k);
            }
        } else {
            assert(v0.contains(j));
            let c = v0.children(j)[i];
            assert(v0.contains(c));
            assert(c != k);
        }
    }
    assert(v.linked());
    assert forall|j: int| #[trigger] v.contains(j) implies v.rank.contains_key(j) && v.rank[j]
        <= v.bound && match v.parent(j) {
        Some(q) => v.rank.contains_key(q) && v.rank[j] < v.rank[q],
        None => true,
    } by {
        if j != g && j != l {
            assert(v0.contains(j));
        }
        assert(v0.contains(k));
    }
    assert forall|j: int| v.contains(j) && j != l implies v.shaped_at(j) by {
        if j != g {
            assert(v0.contains(j));
            assert(v0.shaped_at(j));
            assert(v.data(j) == v0.data(j));
            assert(v.children(j).len() == v0.children(j).len());
        }
    }
}

} // verus!
