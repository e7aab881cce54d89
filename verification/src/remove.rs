//! Removal: a leaf leaves the tree, and a group that is left with a single
//! child gives its place to that child.

use vstd::prelude::*;
use id_tree::NodeId;
use crate::arena::{
    climbs, copy_id, make_nth_sibling, move_to_root, move_under, moved, node_key, remove_leaf,
    remove_orphaning, tree_nodes, without, TreeNode,
};
use crate::tree::{
    lemma_children_sound, lemma_climbs_rises, lemma_without_once, rising, PartitionTree, TreeView,
};
use crate::window::{is_dead, reported_dead, WindowState};

verus! {

impl TreeView {
    /// The child of the two-child group `p` that is not at position `pos`.
    pub open spec fn sibling(self, p: int, pos: int) -> int {
        self.children(p).remove(pos)[0]
    }

    /// The nodes after the leaf under `k` was removed.
    ///
    /// A root leaf leaves nothing behind. Any other leaf takes its group
    /// with it: the child that stays takes the group's place under the
    /// group's parent, at the group's position.
    pub open spec fn without_leaf(self, k: int) -> Map<int, TreeNode> {
        match self.parent(k) {
            None => self.nodes.remove(k),
            Some(p) => {
                let other = self.sibling(p, self.children(p).index_of(k));
                let base = self.nodes.remove(k).remove(p).insert(
                    other,
                    TreeNode { parent: self.parent(p), ..self.nodes[other] },
                );
                match self.parent(p) {
                    Some(gp) => base.insert(
                        gp,
                        TreeNode {
                            children: self.children(gp).update(self.children(gp).index_of(p), other),
                            ..self.nodes[gp]
                        },
                    ),
                    None => base,
                }
            },
        }
    }

    /// The tree after the leaf under `k` was removed. A key that names no
    /// leaf changes nothing.
    pub open spec fn without(self, k: int) -> TreeView {
        if self.contains(k) && self.data(k).is_leaf() {
            TreeView { nodes: self.without_leaf(k), root: self.root_without_leaf(k), ..self }
        } else {
            self
        }
    }

    /// The tree after the leaves `ks` were removed, one after the other.
    pub open spec fn swept(self, ks: Seq<int>) -> TreeView
        decreases ks.len(),
    {
        if ks.len() == 0 {
            self
        } else {
            self.without(ks[0]).swept(ks.drop_first())
        }
    }

    /// Those of the leaves `ks` whose window is reported dead, in order.
    pub open spec fn dead_among(self, ks: Seq<int>, states: Seq<WindowState>) -> Seq<int>
        decreases ks.len(),
    {
        if ks.len() == 0 {
            Seq::empty()
        } else {
            let front = self.dead_among(ks.drop_last(), states);
            if self.data(ks.last()).is_leaf() && reported_dead(states, self.window_at(ks.last())) {
                front.push(ks.last())
            } else {
                front
            }
        }
    }

    /// The tree after every leaf whose window is reported dead was removed.
    pub open spec fn without_dead(self, states: Seq<WindowState>) -> TreeView {
        self.swept(self.dead_among(self.leaves(), states))
    }

    /// The root after the leaf under `k` was removed.
    pub open spec fn root_without_leaf(self, k: int) -> Option<int> {
        match self.parent(k) {
            None => None,
            Some(p) => if self.parent(p).is_none() {
                Some(self.sibling(p, self.children(p).index_of(k)))
            } else {
                self.root
            },
        }
    }
}

impl PartitionTree {
    /// Removes the leaf under `id`. If its group is left with one child, the
    /// group is removed too and that child moves up into the group's place.
    pub fn remove(&mut self, id: &NodeId)
        requires
            old(self).wf(),
            old(self)@.contains(node_key(*id)),
            old(self)@.data(node_key(*id)).is_leaf(),
        ensures
            final(self).wf(),
            final(self)@ == old(self)@.without(node_key(*id)),
    {
        proof {
            self.unfold();
        }
        let ghost v0 = self@;
        let ghost k = node_key(*id);
        assert(v0.shaped_at(k));
        let parent_id = self.parent(id);
        match parent_id {
            None => {
                remove_leaf(&mut self.tree, id);
                proof {
                    self.unfold();
                    lemma_root_leaf(v0, k);
                    assert(self@.nodes =~= v0.without_leaf(k));
                    assert forall|j: int| !self@.contains(j) by {
                        if self@.contains(j) {
                            assert(v0.contains(j));
                        }
                    }
                    assert(self@.wf());
                }
            },
            Some(p_id) => {
                let ghost p = node_key(p_id);
                assert(v0.contains(p));
                assert(v0.shaped_at(p));
                assert(v0.children(p).contains(k));
                let pos = self.position(&p_id, id);
                let grand_id = self.parent(&p_id);
                let fork_pos: Option<usize> = match &grand_id {
                    Some(gp_id) => Some(self.position(gp_id, &p_id)),
                    None => None,
                };
                self.dissolve(id, &p_id, grand_id, pos, fork_pos);
            },
        }
    }

    /// Removes the leaf under `id` and its group, which has two children,
    /// and puts the child that stays in the group's place.
    fn dissolve(
        &mut self,
        id: &NodeId,
        p_id: &NodeId,
        grand_id: Option<NodeId>,
        pos: usize,
        fork_pos: Option<usize>,
    )
        requires
            old(self).wf(),
            old(self)@.contains(node_key(*id)),
            old(self)@.data(node_key(*id)).is_leaf(),
            old(self)@.parent(node_key(*id)) == Some(node_key(*p_id)),
            old(self)@.children(node_key(*p_id)).len() == 2,
            pos < 2,
            old(self)@.children(node_key(*p_id)).index_of(node_key(*id)) == pos,
            old(self)@.children(node_key(*p_id))[pos as int] == node_key(*id),
            crate::arena::opt_key(grand_id) == old(self)@.parent(node_key(*p_id)),
            match fork_pos {
                Some(f) => grand_id.is_some() && f < old(self)@.children(
                    node_key(grand_id.unwrap()),
                ).len() && old(self)@.children(node_key(grand_id.unwrap())).index_of(
                    node_key(*p_id),
                ) == f && old(self)@.children(node_key(grand_id.unwrap()))[f as int] == node_key(
                    *p_id,
                ),
                None => grand_id.is_none(),
            },
        ensures
            final(self).wf(),
            final(self)@.nodes == old(self)@.without_leaf(node_key(*id)),
            final(self)@.root == old(self)@.root_without_leaf(node_key(*id)),
            final(self)@.rank == old(self)@.rank,
            final(self)@.bound == old(self)@.bound,
    {
        proof {
            self.unfold();
        }
        let ghost v0 = self@;
        let ghost k = node_key(*id);
        let ghost p = node_key(*p_id);
        let ghost cp = v0.children(p);
        let ghost other = v0.sibling(p, pos as int);
        proof {
            assert(v0.shaped_at(k));
            assert(v0.contains(p));
            lemma_without_once(cp, pos as int);
            assert(cp.remove(pos as int).len() == 1);
            lemma_pair(v0, p, pos as int);
            assert(v0.rank[k] < v0.rank[p]);
            assert(v0.rank[other] < v0.rank[p]);
        }
        remove_leaf(&mut self.tree, id);
        let ghost n1 = tree_nodes(self.tree);
        proof {
            self.unfold();
            assert(n1[p].children == cp.remove(pos as int));
        }
        let rest = self.children(p_id);
        let other_id = copy_id(&rest[0]);
        proof {
            assert(crate::arena::keys(rest@)[0] == node_key(rest@[0]));
            assert(node_key(other_id) == other);
            assert(n1[p].children.contains(other)) by {
                assert(n1[p].children[0] == other);
            }
            assert(n1[p].children =~= seq![other]);
            assert(!n1[p].children.contains(p));
            match v0.parent(p) {
                Some(gp) => {
                    assert(v0.contains(gp));
                    assert(v0.rank[p] < v0.rank[gp]);
                },
                None => {},
            }
        }
        remove_orphaning(&mut self.tree, p_id);
        let ghost n2 = tree_nodes(self.tree);
        proof {
            assert(n2.contains_key(other));
            assert(n2[other].parent.is_none());
        }
        match grand_id {
            Some(gp_id) => {
                let ghost gp = node_key(gp_id);
                let ghost cgp = v0.children(gp);
                let ghost fpos = fork_pos.unwrap() as int;
                proof {
                    assert(v0.contains(gp));
                    assert(v0.rank[p] < v0.rank[gp]);
                    assert(v0.rank[other] < v0.rank[p]);
                    assert(v0.rank[k] < v0.rank[p]);
                    assert(n2.contains_key(gp));
                    assert(rising(n2, v0.rank)) by {
                        assert forall|j: int| #[trigger] n2.contains_key(j) implies match n2[j].parent {
                            Some(q) => v0.rank.contains_key(j) && v0.rank.contains_key(q)
                                && v0.rank[j] < v0.rank[q],
                            None => true,
                        } by {
                            assert(v0.contains(j));
                        }
                    }
                    assert forall|steps: nat| !climbs(n2, gp, other, steps) by {
                        if climbs(n2, gp, other, steps) {
                            lemma_climbs_rises(n2, v0.rank, gp, other, steps);
                        }
                    }
                    assert(!n1[p].children.contains(gp));
                    assert(n2[gp].children == without(cgp, p));
                    lemma_without_once(cgp, fpos);
                }
                move_under(&mut self.tree, &other_id, &gp_id);
                let ghost n3 = tree_nodes(self.tree);
                proof {
                    let s = cgp.remove(fpos).push(other);
                    assert(n3[gp].children == s);
                    assert(!cgp.contains(other)) by {
                        if cgp.contains(other) {
                            let a = cgp.index_of(other);
                            assert(v0.parent(cgp[a]) == Some(gp));
                        }
                    }
                    assert(s.no_duplicates()) by {
                        assert forall|a: int, b: int|
                            0 <= a < s.len() && 0 <= b < s.len() && a != b implies s[a] != s[b] by {
                            if a < s.len() - 1 {
                                assert(cgp.contains(s[a]));
                            }
                            if b < s.len() - 1 {
                                assert(cgp.contains(s[b]));
                            }
                        }
                    }
                    lemma_without_once(s, s.len() - 1);
                    assert(s.remove(s.len() - 1) =~= cgp.remove(fpos));
                    assert(moved(s, other, fpos) =~= cgp.update(fpos, other));
                    assert(rising(n3, v0.rank)) by {
                        assert forall|j: int| #[trigger] n3.contains_key(j) implies match n3[j].parent {
                            Some(q) => v0.rank.contains_key(j) && v0.rank.contains_key(q)
                                && v0.rank[j] < v0.rank[q],
                            None => true,
                        } by {
                            assert(n2.contains_key(j));
                            assert(v0.contains(j));
                        }
                    }
                    assert forall|i: int| 0 <= i < n3[gp].children.len() implies n3.contains_key(
                        #[trigger] n3[gp].children[i],
                    ) && n3[n3[gp].children[i]].parent == Some(gp) by {
                        if i < s.len() - 1 {
                            let a = if i < fpos {
                                i
                            } else {
                                i + 1
                            };
                            let c = cgp[a];
                            assert(s[i] == c);
                            assert(v0.contains(c) && v0.parent(c) == Some(gp));
                            assert(c != p);
                            assert(c != k);
                            assert(c != other);
                            assert(c != gp) by {
                                assert(v0.rank[c] < v0.rank[gp]);
                            }
                            assert(!n1[p].children.contains(c)) by {
                                if n1[p].children.contains(c) {
                                    let x = n1[p].children.index_of(c);
                                    assert(n1[p].children[x] == other);
                                }
                            }
                            assert(n1.contains_key(c));
                            assert(n1[c] == v0.nodes[c]);
                            assert(n2.contains_key(c));
                            assert(n2[c].parent == n1[c].parent);
                            assert(n3[c] == n2[c]);
                        } else {
                            assert(s[i] == other);
                            assert(n3[other].parent == Some(gp));
                        }
                    }
                    lemma_children_sound(n3, v0.rank, gp);
                }
                make_nth_sibling(&mut self.tree, &other_id, fork_pos.unwrap());
            },
            None => {
                assert(v0.root == Some(p));
                move_to_root(&mut self.tree, &other_id);
            },
        }
        proof {
            self.unfold();
            assert(self@.nodes =~= v0.without_leaf(k));
            lemma_dissolved(v0, self@, k);
        }
    }
}

impl PartitionTree {
    /// Removes every leaf whose window is reported dead.
    pub fn sweep(&mut self, states: &Vec<WindowState>)
        requires
            old(self).wf(),
        ensures
            final(self).wf(),
            final(self)@ == old(self)@.without_dead(states@),
    {
        let ghost v0 = self@;
        let leaves = self.leaves();
        let ghost all = v0.leaves();
        let mut dead: Vec<NodeId> = Vec::new();
        proof {
            match v0.root {
                Some(r) => crate::traverse::lemma_leaves_under(v0, r),
                None => {},
            }
            assert(all.take(0) =~= Seq::<int>::empty());
            assert(crate::arena::keys(dead@) =~= Seq::<int>::empty());
        }
        let mut i: usize = 0;
        while i < leaves.len()
            invariant
                i <= leaves.len(),
                self.wf(),
                self@ == v0,
                all == crate::arena::keys(leaves@),
                all.len() == leaves@.len(),
                forall|j: int| 0 <= j < all.len() ==> v0.contains(#[trigger] all[j]),
                crate::arena::keys(dead@) == v0.dead_among(all.take(i as int), states@),
            decreases leaves.len() - i,
        {
            proof {
                assert(all.take(i + 1).drop_last() =~= all.take(i as int));
                assert(all.take(i + 1).last() == all[i as int]);
                assert(all[i as int] == node_key(leaves@[i as int]));
                assert(v0.contains(all[i as int]));
            }
            let gone = match self.get(&leaves[i]) {
                Some(data) => match data.window() {
                    Some(window) => is_dead(states, window),
                    None => false,
                },
                None => false,
            };
            if gone {
                let ghost before = crate::arena::keys(dead@);
                dead.push(copy_id(&leaves[i]));
                proof {
                    assert(crate::arena::keys(dead@) =~= before.push(all[i as int]));
                }
            }
            i = i + 1;
        }
        proof {
            assert(all.take(i as int) =~= all);
        }
        let ghost targets = crate::arena::keys(dead@);
        proof {
            assert(targets.skip(0) =~= targets);
        }
        let mut j: usize = 0;
        while j < dead.len()
            invariant
                j <= dead.len(),
                self.wf(),
                targets == crate::arena::keys(dead@),
                targets.len() == dead@.len(),
                self@.swept(targets.skip(j as int)) == v0.swept(targets),
            decreases dead.len() - j,
        {
            proof {
                assert(targets.skip(j as int)[0] == node_key(dead@[j as int]));
                assert(targets.skip(j as int).drop_first() =~= targets.skip(j + 1));
            }
            let present = match self.get(&dead[j]) {
                Some(data) => data.is_mapped(None),
                None => false,
            };
            if present {
                self.remove(&dead[j]);
            }
            j = j + 1;
        }
        proof {
            assert(targets.skip(j as int).len() == 0);
        }
    }
}

/// A leaf without a parent is the only node of its tree.
pub proof fn lemma_root_leaf(v: TreeView, k: int)
    requires
        v.wf(),
        v.contains(k),
        v.parent(k).is_none(),
        v.data(k).is_leaf(),
    ensures
        forall|j: int| v.contains(j) ==> j == k,
    decreases v.bound,
{
    assert(v.root == Some(k));
    assert(v.shaped_at(k));
    assert forall|j: int| v.contains(j) implies j == k by {
        lemma_reaches_root(v, j);
    }
}

/// Every node of a tree with sound links other than the root lies under a
/// child of the root.
pub proof fn lemma_reaches_root(v: TreeView, j: int)
    requires
        v.skeleton(),
        v.contains(j),
    ensures
        v.root.is_some(),
        j == v.root.unwrap() || v.children(v.root.unwrap()).len() > 0,
    decreases v.bound - v.rank[j],
{
    match v.parent(j) {
        Some(q) => {
            assert(v.contains(q));
            assert(v.children(q).contains(j));
            lemma_reaches_root(v, q);
        },
        None => {},
    }
}

/// The two children of a group are the one at `pos` and its sibling.
pub proof fn lemma_pair(v: TreeView, p: int, pos: int)
    requires
        v.linked(),
        v.contains(p),
        v.children(p).len() == 2,
        0 <= pos < 2,
    ensures
        v.sibling(p, pos) == v.children(p)[1 - pos],
        v.sibling(p, pos) != v.children(p)[pos],
        v.contains(v.sibling(p, pos)),
        v.parent(v.sibling(p, pos)) == Some(p),
        forall|j: int|
            v.contains(j) && v.parent(j) == Some(p) ==> j == v.children(p)[pos] || j == v.sibling(
                p,
                pos,
            ),
{
    let c = v.children(p);
    assert(v.contains(c[1 - pos]));
    assert forall|j: int| v.contains(j) && v.parent(j) == Some(p) implies j == c[pos] || j
        == c[1 - pos] by {
        assert(c.contains(j));
        let a = c.index_of(j);
        assert(a == 0 || a == 1);
    }
}

/// Removing one of the two children of a group, and the group with it, from
/// a well-formed tree leaves a well-formed tree.
pub proof fn lemma_dissolved(v0: TreeView, v: TreeView, k: int)
    requires
        v0.wf(),
        v0.contains(k),
        v0.data(k).is_leaf(),
        v0.parent(k).is_some(),
        v.nodes == v0.without_leaf(k),
        v.root == v0.root_without_leaf(k),
        v.rank == v0.rank,
        v.bound == v0.bound,
    ensures
        v.wf(),
{
    let p = v0.parent(k).unwrap();
    let cp = v0.children(p);
    let pos = cp.index_of(k);
    assert(v0.contains(p) && cp.contains(k));
    assert(v0.shaped_at(p));
    assert(v0.shaped_at(k));
    lemma_pair(v0, p, pos);
    let other = v0.sibling(p, pos);
    let go = v0.parent(p);
    assert(v0.rank[k] < v0.rank[p]);
    assert(v0.rank[other] < v0.rank[p]);
    assert forall|j: int| #[trigger] v.contains(j) implies v0.contains(j) && j != k && j != p by {}
    if go.is_some() {
        let gp = go.unwrap();
        let cg = v0.children(gp);
        let fpos = cg.index_of(p);
        assert(v0.contains(gp) && cg.contains(p));
        assert(v0.rank[p] < v0.rank[gp]);
        let ng = cg.update(fpos, other);
        assert(v.children(gp) == ng);
        assert(!cg.contains(other)) by {
            if cg.contains(other) {
                let a = cg.index_of(other);
                assert(v0.parent(cg[a]) == Some(gp));
            }
        }
        assert(ng.no_duplicates()) by {
            assert forall|a: int, b: int| 0 <= a < ng.len() && 0 <= b < ng.len() && a != b implies ng[a]
                != ng[b] by {
                if a == fpos {
                    assert(cg.contains(cg[b]));
                } else if b == fpos {
                    assert(cg.contains(cg[a]));
                }
            }
        }
        assert(ng.contains(other)) by {
            assert(ng[fpos] == other);
        }
        assert forall|j: int| v0.contains(j) && j != p && v0.parent(j) == Some(gp) implies ng.contains(
            j,
        ) by {
            assert(cg.contains(j));
            let a = cg.index_of(j);
            assert(ng[a] == j);
        }
    }
    assert forall|j: int| #[trigger] v.contains(j) implies v.children(j).no_duplicates() && match v.parent(
        j,
    ) {
        Some(q) => v.contains(q) && v.children(q).contains(j),
        None => v.root == Some(j),
    } by {
        assert(v0.contains(j));
        if j == other {
        } else {
            match v0.parent(j) {
                Some(q) => {
                    assert(v0.contains(q));
                    assert(v0.children(q).contains(j));
                    assert(q != k);
                    assert(q != p);
                    if go == Some(q) {
                    } else {
                        if q == other {
                        }
                        assert(v.children(q) == v0.children(q));
                    }
                },
                None => {
                    assert(v0.root == Some(j));
                    if go.is_none() {
                        assert(v0.root == Some(p));
                    }
                },
            }
        }
    }
    assert forall|j: int, i: int| v.contains(j) && 0 <= i < v.children(j).len() implies v.contains(
        #[trigger] v.children(j)[i],
    ) && v.parent(v.children(j)[i]) == Some(j) by {
        assert(v0.contains(j));
        if go == Some(j) {
            let cg = v0.children(j);
            if i != cg.index_of(p) {
                assert(v0.contains(cg[i]));
                assert(v0.parent(cg[i]) == Some(j));
            }
        } else {
            assert(v.children(j) == v0.children(j));
            let c = v0.children(j)[i];
            assert(v0.contains(c));
            assert(v0.parent(c) == Some(j));
        }
    }
    assert(v.linked());
    assert forall|j: int| #[trigger] v.contains(j) implies v.rank.contains_key(j) && v.rank[j]
        <= v.bound && match v.parent(j) {
        Some(q) => v.rank.contains_key(q) && v.rank[j] < v.rank[q],
        None => true,
    } by {
        assert(v0.contains(j));
        if go.is_some() {
            assert(v0.contains(go.unwrap()));
        }
    }
    assert forall|j: int| #[trigger] v.contains(j) implies v.shaped_at(j) by {
        assert(v0.contains(j));
        assert(v0.shaped_at(j));
        assert(v.data(j) == v0.data(j));
        assert(v.children(j).len() == v0.children(j).len());
    }
}

} // verus!
