//! Merging one partition tree into another: the source is copied, node by
//! node, beside the destination's root.

use vstd::prelude::*;
use id_tree::NodeId;
use crate::arena::{copy_id, insert_under, keys, node_key, tree_nodes, TreeNode};
use crate::data::{Data, DataView};
use crate::geometry::{placeholder, Orientation};
use crate::traverse::lemma_leaves_under;
use crate::tree::{PartitionTree, TreeView};
use crate::window::Relocation;

verus! {

impl TreeView {
    /// The subtree of `other` under `kb` is a copy of the subtree of `self`
    /// under `ka`: the same data at every position, under other keys.
    pub open spec fn same_subtree(self, ka: int, other: TreeView, kb: int) -> bool
        decreases self.rank[ka],
        when self.wf() && self.contains(ka)
    {
        &&& other.contains(kb)
        &&& other.data(kb) == self.data(ka)
        &&& other.children(kb).len() == self.children(ka).len()
        &&& self.data(ka).is_group() ==> self.same_subtree(
            self.children(ka)[0],
            other,
            other.children(kb)[0],
        ) && self.same_subtree(self.children(ka)[1], other, other.children(kb)[1])
    }

    /// The window of the leaf under `k`.
    pub open spec fn window_at(self, k: int) -> u64 {
        match self.data(k) {
            DataView::Mapped { window, .. } => window,
            DataView::Group { .. } => 0,
        }
    }

    /// `other` holds every node of `self` as it is, but that the node under
    /// `hole` may have changed.
    pub open spec fn kept_but(self, other: TreeView, hole: int) -> bool {
        forall|j: int| #[trigger]
            self.contains(j) ==> other.contains(j) && (j != hole ==> other.nodes[j]
                == self.nodes[j])
    }
}

/// The ranks after a child was added: all old ranks are raised above the
/// rank of the new node.
pub open spec fn raised_rank(rank: Map<int, nat>, n: int) -> Map<int, nat> {
    Map::new(
        |j: int| j == n || rank.contains_key(j),
        |j: int|
            if j == n {
                0
            } else {
                2 * rank[j] + 1
            },
    )
}

/// A copy of a subtree stays one while its nodes stay as they are.
pub proof fn lemma_copy_kept(a: TreeView, ka: int, b: TreeView, b2: TreeView, kb: int, hole: int)
    requires
        a.wf(),
        a.contains(ka),
        a.same_subtree(ka, b, kb),
        b.skeleton(),
        b.contains(hole),
        b.rank[kb] < b.rank[hole],
        b.kept_but(b2, hole),
    ensures
        a.same_subtree(ka, b2, kb),
    decreases a.rank[ka],
{
    assert(b.contains(kb));
    assert(a.shaped_at(ka));
    if a.data(ka).is_group() {
        let c0 = b.children(kb)[0];
        let c1 = b.children(kb)[1];
        assert(b.contains(c0) && b.parent(c0) == Some(kb));
        assert(b.contains(c1) && b.parent(c1) == Some(kb));
        assert(a.contains(a.children(ka)[0]));
        assert(a.contains(a.children(ka)[1]));
        lemma_copy_kept(a, a.children(ka)[0], b, b2, c0, hole);
        lemma_copy_kept(a, a.children(ka)[1], b, b2, c1, hole);
    }
}

impl PartitionTree {
    /// Adds a node with the data `data` as the last child of the node under
    /// `parent`.
    pub fn add_child(&mut self, parent: &NodeId, data: Data) -> (id: NodeId)
        requires
            old(self)@.skeleton(),
            old(self)@.contains(node_key(*parent)),
        ensures
            !old(self)@.contains(node_key(id)),
            final(self)@.root == old(self)@.root,
            final(self)@.nodes == old(self)@.nodes.insert(
                node_key(*parent),
                TreeNode {
                    children: old(self)@.children(node_key(*parent)).push(node_key(id)),
                    ..old(self)@.nodes[node_key(*parent)]
                },
            ).insert(
                node_key(id),
                TreeNode { data: data@, parent: Some(node_key(*parent)), children: Seq::empty() },
            ),
            final(self)@.skeleton(),
    {
        proof {
            self.unfold();
        }
        let ghost v0 = self@;
        let ghost p = node_key(*parent);
        let id = insert_under(&mut self.tree, data, parent);
        self.rank = Ghost(raised_rank(v0.rank, node_key(id)));
        self.bound = Ghost(2 * v0.bound + 1);
        proof {
            self.unfold();
            let v = self@;
            let n = node_key(id);
            let cp = v0.children(p);
            assert forall|j: int| #[trigger] v.contains(j) implies j == n || v0.contains(j) by {}
            assert(v.children(p) == cp.push(n));
            assert(cp.push(n).no_duplicates()) by {
                assert forall|a: int, b: int|
                    0 <= a < cp.len() + 1 && 0 <= b < cp.len() + 1 && a != b implies cp.push(n)[a]
                    != cp.push(n)[b] by {
                    if a < cp.len() {
                        assert(v0.contains(cp[a]));
                    }
                    if b < cp.len() {
                        assert(v0.contains(cp[b]));
                    }
                }
            }
            assert(cp.push(n).contains(n)) by {
                assert(cp.push(n)[cp.len() as int] == n);
            }
            assert forall|j: int| v0.contains(j) && v0.parent(j) == Some(p) implies cp.push(n).contains(
                j,
            ) by {
                let a = cp.index_of(j);
                assert(cp.contains(j));
                assert(cp.push(n)[a] == j);
            }
            assert forall|j: int| #[trigger] v.contains(j) implies v.children(j).no_duplicates()
                && match v.parent(j) {
                Some(q) => v.contains(q) && v.children(q).contains(j),
                None => v.root == Some(j),
            } by {
                if j != n {
                    assert(v0.contains(j));
                    match v0.parent(j) {
                        Some(q) => {
                            assert(v0.contains(q));
                            if q != p {
                                assert(v.children(q) == v0.children(q));
                            }
                        },
                        None => {},
                    }
                } else {
                    assert(v.children(n) =~= Seq::<int>::empty());
                }
            }
            assert forall|j: int, i: int| v.contains(j) && 0 <= i < v.children(j).len() implies v.contains(
                #[trigger] v.children(j)[i],
            ) && v.parent(v.children(j)[i]) == Some(j) by {
                if j == n {
                } else if j == p {
                    if i < cp.len() {
                        assert(v0.contains(cp[i]));
                    }
                } else {
                    assert(v0.contains(j));
                    assert(v0.contains(v0.children(j)[i]));
                }
            }
            assert(v.linked());
            assert forall|j: int| #[trigger] v.contains(j) implies v.rank.contains_key(j)
                && v.rank[j] <= v.bound && match v.parent(j) {
                Some(q) => v.rank.contains_key(q) && v.rank[j] < v.rank[q],
                None => true,
            } by {
                if j != n {
                    assert(v0.contains(j));
                }
                assert(v0.contains(p));
            }
        }
        id
    }

    /// Copies what lies under the source node `s_id` to under the
    /// destination node `d_id`, which is a childless copy of the source node,
    /// and lists the leaves of the copy.
    fn copy_into(
        src: &PartitionTree,
        s_id: &NodeId,
        dst: &mut PartitionTree,
        d_id: &NodeId,
        out: &mut Vec<Relocation>,
    )
        requires
            src.wf(),
            src@.contains(node_key(*s_id)),
            old(dst)@.skeleton(),
            old(dst)@.contains(node_key(*d_id)),
            old(dst)@.children(node_key(*d_id)).len() == 0,
            old(dst)@.data(node_key(*d_id)) == src@.data(node_key(*s_id)),
        ensures
            copied(
                src@,
                node_key(*s_id),
                old(dst)@,
                final(dst)@,
                node_key(*d_id),
                old(out)@,
                final(out)@,
            ),
        decreases src@.rank[node_key(*s_id)],
    {
        let ghost s = node_key(*s_id);
        let ghost d = node_key(*d_id);
        let ghost b0 = dst@;
        let ghost out0 = out@;
        proof {
            assert(src@.shaped_at(s));
        }
        let window = match src.get(s_id) {
            Some(data) => data.window(),
            None => None,
        };
        match window {
            Some(w) => {
                out.push(Relocation { window: w, node: copy_id(d_id) });
                proof {
                    assert(src@.leaves_under(s) =~= seq![s]);
                }
            },
            None => {
                let children = src.children(s_id);
                let ghost c0 = src@.children(s)[0];
                let ghost c1 = src@.children(s)[1];
                proof {
                    assert(keys(children@)[0] == node_key(children@[0]));
                    assert(keys(children@)[1] == node_key(children@[1]));
                    assert(src@.contains(c0) && src@.parent(c0) == Some(s));
                    assert(src@.contains(c1) && src@.parent(c1) == Some(s));
                }
                let first = match src.get(&children[0]) {
                    Some(data) => data.copy(),
                    None => Data::new_mapped(0, crate::geometry::placeholder_rect()),
                };
                let n0_id = dst.add_child(d_id, first);
                let ghost a0 = dst@;
                proof {
                    assert(a0.children(node_key(n0_id)) =~= Seq::<int>::empty());
                }
                Self::copy_into(src, &children[0], dst, &n0_id, out);
                let ghost b1 = dst@;
                let ghost out1 = out@;
                proof {
                    assert(a0.contains(d));
                    assert(b1.contains(d));
                }
                let second = match src.get(&children[1]) {
                    Some(data) => data.copy(),
                    None => Data::new_mapped(0, crate::geometry::placeholder_rect()),
                };
                let n1_id = dst.add_child(d_id, second);
                let ghost a1 = dst@;
                proof {
                    assert(a1.children(node_key(n1_id)) =~= Seq::<int>::empty());
                }
                Self::copy_into(src, &children[1], dst, &n1_id, out);
                proof {
                    lemma_copied_pair(
                        src@,
                        s,
                        b0,
                        a0,
                        b1,
                        a1,
                        dst@,
                        d,
                        node_key(n0_id),
                        node_key(n1_id),
                        out0,
                        out1,
                        out@,
                    );
                }
            },
        }
    }
}

impl TreeView {
    /// `after` is the tree `self` with the tree `src` merged into it.
    ///
    /// An empty source changes nothing. An empty destination becomes the
    /// source. Otherwise a new group of the given orientation becomes the
    /// root; its first child is the former root, with everything below it as
    /// it was, and its second child is a copy of the source.
    pub open spec fn merged(
        self,
        src: TreeView,
        after: TreeView,
        orientation: Orientation,
        marker: u64,
    ) -> bool {
        match (src.root, self.root) {
            (None, _) => after.nodes == self.nodes && after.root == self.root,
            (Some(_), None) => after.nodes == src.nodes && after.root == src.root,
            (Some(sr), Some(r)) => {
                let g = after.root.unwrap();
                &&& after.root.is_some()
                &&& !self.contains(g)
                &&& after.contains(g)
                &&& after.data(g) == DataView::halved(orientation, placeholder(), marker)
                &&& after.children(g).len() == 2
                &&& after.children(g)[0] == r
                &&& !self.contains(after.children(g)[1])
                &&& forall|k: int| #[trigger]
                    self.contains(k) ==> after.contains(k) && after.data(k) == self.data(k)
                        && after.children(k) == self.children(k) && after.parent(k) == if k == r {
                        Some(g)
                    } else {
                        self.parent(k)
                    }
                &&& src.same_subtree(sr, after, after.children(g)[1])
            },
        }
    }
}

impl PartitionTree {
    /// Every leaf with its window.
    pub fn relocations(&self) -> (out: Vec<Relocation>)
        requires
            self.wf(),
        ensures
            out@.len() == self@.leaves().len(),
            forall|i: int|
                0 <= i < out@.len() ==> listed(self@, self@, self@.leaves()[i], #[trigger] out@[i])
                    && node_key(out@[i].node) == self@.leaves()[i],
    {
        let leaves = self.leaves();
        let ghost all = self@.leaves();
        proof {
            match self@.root {
                Some(r) => lemma_leaves_under(self@, r),
                None => {},
            }
        }
        let mut out: Vec<Relocation> = Vec::new();
        let mut i: usize = 0;
        while i < leaves.len()
            invariant
                i <= leaves.len(),
                self.wf(),
                all == keys(leaves@),
                all == self@.leaves(),
                all.len() == leaves@.len(),
                out@.len() == i,
                forall|j: int|
                    0 <= j < all.len() ==> self@.contains(#[trigger] all[j]) && self@.data(
                        all[j],
                    ).is_leaf(),
                forall|j: int|
                    0 <= j < i ==> listed(self@, self@, all[j], #[trigger] out@[j]) && node_key(
                        out@[j].node,
                    ) == all[j],
            decreases leaves.len() - i,
        {
            proof {
                assert(all[i as int] == node_key(leaves@[i as int]));
                assert(self@.contains(all[i as int]));
            }
            let window = match self.get(&leaves[i]) {
                Some(data) => match data.window() {
                    Some(w) => w,
                    None => 0,
                },
                None => 0,
            };
            out.push(Relocation { window, node: copy_id(&leaves[i]) });
            i = i + 1;
        }
        out
    }

    /// Merges the tree `src` into `dst`, and lists every window of `src`
    /// with the leaf that stands for it in `dst` from now on.
    pub fn merge_trees(
        src: PartitionTree,
        dst: &mut PartitionTree,
        orientation: Orientation,
        marker: u64,
    ) -> (moved: Vec<Relocation>)
        requires
            src.wf(),
            old(dst).wf(),
        ensures
            final(dst).wf(),
            old(dst)@.merged(src@, final(dst)@, orientation, marker),
            moved@.len() == src@.leaves().len(),
            forall|i: int|
                0 <= i < moved@.len() ==> listed(
                    src@,
                    final(dst)@,
                    src@.leaves()[i],
                    #[trigger] moved@[i],
                ),
    {
        let ghost v0 = dst@;
        let src_root = match src.root() {
            Some(root) => root,
            None => {
                return Vec::new();
            },
        };
        let ghost sr = node_key(src_root);
        match dst.root() {
            None => {
                let moved = src.relocations();
                *dst = src;
                moved
            },
            Some(dst_root) => {
                let ghost r = node_key(dst_root);
                let copy = match src.get(&src_root) {
                    Some(data) => data.copy(),
                    None => Data::new_mapped(0, crate::geometry::placeholder_rect()),
                };
                let into = dst.new_group(&dst_root, copy, orientation, marker);
                let ghost n = node_key(into);
                let ghost b0 = dst@;
                let ghost g = b0.parent(n).unwrap();
                proof {
                    assert(v0.parent(r).is_none());
                    assert(b0.children(n) =~= Seq::<int>::empty());
                    assert(b0.children(g) =~= seq![r, n]);
                }
                let mut moved: Vec<Relocation> = Vec::new();
                Self::copy_into(&src, &src_root, dst, &into, &mut moved);
                proof {
                    let b2 = dst@;
                    assert(b0.contains(g));
                    assert(b2.nodes[g] == b0.nodes[g]);
                    assert forall|j: int| #[trigger] b2.contains(j) implies b2.shaped_at(j) by {
                        if b0.contains(j) && j != n {
                            assert(b0.shaped_at(j));
                            assert(b2.nodes[j] == b0.nodes[j]);
                        }
                    }
                    assert forall|k: int| #[trigger] v0.contains(k) implies b2.contains(k)
                        && b2.data(k) == v0.data(k) && b2.children(k) == v0.children(k)
                        && b2.parent(k) == if k == r {
                        Some(g)
                    } else {
                        v0.parent(k)
                    } by {
                        assert(b0.contains(k));
                        assert(b2.nodes[k] == b0.nodes[k]);
                    }
                    assert(src@.leaves() == src@.leaves_under(sr));
                    assert forall|i: int| 0 <= i < moved@.len() implies listed(
                        src@,
                        b2,
                        src@.leaves()[i],
                        #[trigger] moved@[i],
                    ) by {
                        assert(listed(src@, b2, src@.leaves_under(sr)[i], moved@[0 + i]));
                    }
                }
                moved
            },
        }
    }
}

/// `after` is `before` with a copy of what lies under the source node `s`
/// put under the node `d`, and `out_after` is `out_before` with the leaves
/// of the copy added.
pub open spec fn copied(
    src: TreeView,
    s: int,
    before: TreeView,
    after: TreeView,
    d: int,
    out_before: Seq<Relocation>,
    out_after: Seq<Relocation>,
) -> bool {
    &&& after.skeleton()
    &&& after.root == before.root
    &&& before.kept_but(after, d)
    &&& after.data(d) == before.data(d)
    &&& after.parent(d) == before.parent(d)
    &&& after.shaped_at(d)
    &&& forall|j: int| after.contains(j) && !before.contains(j) ==> after.shaped_at(j)
    &&& src.same_subtree(s, after, d)
    &&& out_after.len() == out_before.len() + src.leaves_under(s).len()
    &&& forall|i: int| 0 <= i < out_before.len() ==> out_after[i] == out_before[i]
    &&& forall|i: int|
        0 <= i < src.leaves_under(s).len() ==> listed(
            src,
            after,
            src.leaves_under(s)[i],
            #[trigger] out_after[out_before.len() + i],
        )
}

/// `after` is `before` with the node `n` added as the last child of `p`.
pub open spec fn child_added(before: TreeView, after: TreeView, p: int, n: int, data: DataView) -> bool {
    &&& !before.contains(n)
    &&& after.root == before.root
    &&& after.nodes == before.nodes.insert(
        p,
        TreeNode { children: before.children(p).push(n), ..before.nodes[p] },
    ).insert(n, TreeNode { data, parent: Some(p), children: Seq::empty() })
    &&& after.skeleton()
}

/// Copying the two children of a group, one after the other, copies the
/// group.
#[verifier::rlimit(80)]
#[verifier::spinoff_prover]
pub proof fn lemma_copied_pair(
    src: TreeView,
    s: int,
    b0: TreeView,
    a0: TreeView,
    b1: TreeView,
    a1: TreeView,
    b2: TreeView,
    d: int,
    n0: int,
    n1: int,
    out0: Seq<Relocation>,
    out1: Seq<Relocation>,
    out2: Seq<Relocation>,
)
    requires
        src.wf(),
        src.contains(s),
        src.data(s).is_group(),
        b0.skeleton(),
        b0.contains(d),
        b0.children(d).len() == 0,
        b0.data(d) == src.data(s),
        child_added(b0, a0, d, n0, src.data(src.children(s)[0])),
        copied(src, src.children(s)[0], a0, b1, n0, out0, out1),
        child_added(b1, a1, d, n1, src.data(src.children(s)[1])),
        copied(src, src.children(s)[1], a1, b2, n1, out1, out2),
    ensures
        copied(src, s, b0, b2, d, out0, out2),
{
    let c0 = src.children(s)[0];
    let c1 = src.children(s)[1];
    let l0 = src.leaves_under(c0);
    let l1 = src.leaves_under(c1);
    assert(src.shaped_at(s));
    assert(src.contains(c0) && src.parent(c0) == Some(s));
    assert(src.contains(c1) && src.parent(c1) == Some(s));
    assert(src.leaves_under(s) == l0 + l1);
    lemma_leaves_under(src, c0);
    lemma_leaves_under(src, c1);
    assert(a0.contains(d) && a0.contains(n0));
    assert(b1.contains(d) && b1.contains(n0));
    assert(b1.nodes[d] == a0.nodes[d]);
    assert(a1.contains(d) && a1.contains(n1) && a1.contains(n0));
    assert(b2.contains(d));
    assert(b2.nodes[d] == a1.nodes[d]);
    assert(b2.children(d) =~= seq![n0, n1]);
    assert(b1.kept_but(b2, d)) by {
        assert forall|j: int| #[trigger] b1.contains(j) implies b2.contains(j) && (j != d
            ==> b2.nodes[j] == b1.nodes[j]) by {
            assert(a1.contains(j));
        }
    }
    assert(b0.kept_but(b2, d)) by {
        assert forall|j: int| #[trigger] b0.contains(j) implies b2.contains(j) && (j != d
            ==> b2.nodes[j] == b0.nodes[j]) by {
            assert(a0.contains(j));
            assert(b1.contains(j));
        }
    }
    assert(b1.parent(n0) == Some(d));
    assert(b1.rank[n0] < b1.rank[d]);
    lemma_copy_kept(src, c0, b1, b2, n0, d);
    assert(src.same_subtree(s, b2, d));
    assert(b2.shaped_at(d));
    assert forall|j: int| b2.contains(j) && !b0.contains(j) implies b2.shaped_at(j) by {
        if a1.contains(j) {
            if j != n1 {
                assert(b1.contains(j));
                if j != n0 {
                    assert(!a0.contains(j));
                }
                assert(b1.shaped_at(j));
                assert(j != d);
                assert(b2.nodes[j] == b1.nodes[j]);
            }
        }
    }
    assert forall|i: int| 0 <= i < (l0 + l1).len() implies listed(
        src,
        b2,
        (l0 + l1)[i],
        #[trigger] out2[out0.len() + i],
    ) by {
        if i < l0.len() {
            let e = out1[out0.len() + i];
            assert(out2[out0.len() + i] == e);
            assert(listed(src, b1, l0[i], e));
            assert(b1.contains(node_key(e.node)));
            assert(node_key(e.node) != d);
        } else {
            assert(out2[out1.len() + (i - l0.len())] == out2[out0.len() + i]);
            assert(listed(src, b2, l1[i - l0.len()], out2[out1.len() + (i - l0.len())]));
        }
    }
    assert forall|i: int| 0 <= i < out0.len() implies out2[i] == out0[i] by {
        assert(out1[i] == out0[i]);
    }
}

/// The entry `e` of a list of relocations stands for the source leaf `leaf`:
/// it names the leaf's window and a node of `dst` that holds the leaf's data.
pub open spec fn listed(src: TreeView, dst: TreeView, leaf: int, e: Relocation) -> bool {
    &&& dst.contains(node_key(e.node))
    &&& dst.data(node_key(e.node)) == src.data(leaf)
    &&& src.data(leaf).is_leaf_of(e.window)
}

} // verus!
