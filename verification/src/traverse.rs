//! Walking a partition tree: its leaves in order, and the leaf of the most
//! recently focused window.

use vstd::prelude::*;
use id_tree::NodeId;
use crate::arena::{copy_id, keys, node_key, opt_key};
use crate::tree::{PartitionTree, TreeView};

verus! {

impl TreeView {
    /// Keys of the leaves under `k`, first child first.
    pub open spec fn leaves_under(self, k: int) -> Seq<int>
        decreases self.rank[k],
        when self.wf() && self.contains(k)
    {
        if self.data(k).is_leaf() {
            seq![k]
        } else {
            self.leaves_under(self.children(k)[0]) + self.leaves_under(self.children(k)[1])
        }
    }

    /// Keys of all leaves, in the order in which a walk from the root that
    /// takes first children first meets them.
    pub open spec fn leaves(self) -> Seq<int> {
        match self.root {
            Some(r) => self.leaves_under(r),
            None => Seq::empty(),
        }
    }

    /// The first of `ks` that is the leaf of `window`.
    pub open spec fn find_leaf(self, ks: Seq<int>, window: u64) -> Option<int>
        decreases ks.len(),
    {
        if ks.len() == 0 {
            None
        } else if self.data(ks[0]).is_leaf_of(window) {
            Some(ks[0])
        } else {
            self.find_leaf(ks.drop_first(), window)
        }
    }

    /// The leaf of `window`: the first in the order of [`TreeView::leaves`],
    /// should there be several.
    pub open spec fn leaf_of(self, window: u64) -> Option<int> {
        self.find_leaf(self.leaves(), window)
    }

    /// The first window of `stack` that has a leaf in the tree, by its
    /// position in `stack`.
    pub open spec fn last_active(self, stack: Seq<u64>) -> Option<int>
        decreases stack.len(),
    {
        if stack.len() == 0 {
            None
        } else if self.leaf_of(stack[0]).is_some() {
            Some(0)
        } else {
            match self.last_active(stack.drop_first()) {
                Some(i) => Some(i + 1),
                None => None,
            }
        }
    }
}

/// Every key in the list of leaves under a node is a leaf of the tree.
pub proof fn lemma_leaves_under(v: TreeView, k: int)
    requires
        v.wf(),
        v.contains(k),
    ensures
        forall|i: int|
            0 <= i < v.leaves_under(k).len() ==> v.contains(#[trigger] v.leaves_under(k)[i])
                && v.data(v.leaves_under(k)[i]).is_leaf(),
    decreases v.rank[k],
{
    assert(v.shaped_at(k));
    if v.data(k).is_group() {
        let a = v.children(k)[0];
        let b = v.children(k)[1];
        assert(v.contains(a) && v.contains(b));
        lemma_leaves_under(v, a);
        lemma_leaves_under(v, b);
    }
}

/// A leaf that [`TreeView::find_leaf`] finds is one of the given keys and
/// holds the window.
pub proof fn lemma_find_leaf(v: TreeView, ks: Seq<int>, window: u64)
    ensures
        match v.find_leaf(ks, window) {
            Some(k) => ks.contains(k) && v.data(k).is_leaf_of(window),
            None => forall|i: int| 0 <= i < ks.len() ==> !v.data(#[trigger] ks[i]).is_leaf_of(window),
        },
    decreases ks.len(),
{
    if ks.len() > 0 {
        if v.data(ks[0]).is_leaf_of(window) {
            assert(ks[0] == ks[0]);
        } else {
            lemma_find_leaf(v, ks.drop_first(), window);
            let rest = ks.drop_first();
            match v.find_leaf(rest, window) {
                Some(k) => {
                    let i = rest.index_of(k);
                    assert(ks[i + 1] == k);
                },
                None => {
                    assert forall|i: int| 0 <= i < ks.len() implies !v.data(#[trigger] ks[i]).is_leaf_of(
                        window,
                    ) by {
                        if i > 0 {
                            assert(rest[i - 1] == ks[i]);
                        }
                    }
                },
            }
        }
    }
}

/// A window that [`TreeView::last_active`] finds has a leaf in the tree.
pub proof fn lemma_last_active(v: TreeView, stack: Seq<u64>)
    ensures
        match v.last_active(stack) {
            Some(i) => 0 <= i < stack.len() && v.leaf_of(stack[i]).is_some(),
            None => true,
        },
    decreases stack.len(),
{
    if stack.len() > 0 && v.leaf_of(stack[0]).is_none() {
        lemma_last_active(v, stack.drop_first());
    }
}

impl PartitionTree {
    fn collect_leaves(&self, id: &NodeId, out: &mut Vec<NodeId>)
        requires
            self.wf(),
            self@.contains(node_key(*id)),
        ensures
            keys(final(out)@) == keys(old(out)@) + self@.leaves_under(node_key(*id)),
        decreases self@.rank[node_key(*id)],
    {
        let ghost before = keys(out@);
        let ghost k = node_key(*id);
        assert(self@.shaped_at(k));
        let group = match self.get(id) {
            Some(data) => data.is_group(),
            None => false,
        };
        if group {
            let children = self.children(id);
            proof {
                assert(keys(children@)[0] == node_key(children@[0]));
                assert(keys(children@)[1] == node_key(children@[1]));
                assert(self@.contains(self@.children(k)[0]));
                assert(self@.contains(self@.children(k)[1]));
            }
            self.collect_leaves(&children[0], out);
            self.collect_leaves(&children[1], out);
            proof {
                assert(keys(out@) =~= before + self@.leaves_under(k));
            }
        } else {
            out.push(copy_id(id));
            proof {
                assert(keys(out@) =~= before + seq![k]);
            }
        }
    }

    /// Identifiers of all leaves, in the order of [`TreeView::leaves`].
    pub fn leaves(&self) -> (out: Vec<NodeId>)
        requires
            self.wf(),
        ensures
            keys(out@) == self@.leaves(),
            out@.len() == self@.leaves().len(),
    {
        let mut out: Vec<NodeId> = Vec::new();
        match self.root() {
            Some(root) => {
                self.collect_leaves(&root, &mut out);
                proof {
                    assert(keys(out@) =~= self@.leaves());
                }
            },
            None => {
                proof {
                    assert(keys(out@) =~= self@.leaves());
                }
            },
        }
        proof {
            assert(keys(out@).len() == out@.len());
        }
        out
    }

    /// Identifier of the leaf of `window`, if the tree has one.
    pub fn find_window(&self, window: u64) -> (id: Option<NodeId>)
        requires
            self.wf(),
        ensures
            opt_key(id) == self@.leaf_of(window),
            id.is_some() ==> self@.contains(node_key(id.unwrap())) && self@.data(
                node_key(id.unwrap()),
            ).is_leaf_of(window),
    {
        let leaves = self.leaves();
        let ghost all = self@.leaves();
        proof {
            match self@.root {
                Some(r) => lemma_leaves_under(self@, r),
                None => {},
            }
        }
        proof {
            assert(all.skip(0) =~= all);
        }
        let mut i: usize = 0;
        while i < leaves.len()
            invariant
                i <= leaves.len(),
                all == keys(leaves@),
                all == self@.leaves(),
                all.len() == leaves@.len(),
                forall|j: int| 0 <= j < all.len() ==> self@.contains(#[trigger] all[j]),
                self@.find_leaf(all, window) == self@.find_leaf(all.skip(i as int), window),
            decreases leaves.len() - i,
        {
            let ghost rest = all.skip(i as int);
            proof {
                assert(rest[0] == all[i as int]);
                assert(all[i as int] == node_key(leaves@[i as int]));
                assert(rest.drop_first() =~= all.skip(i + 1));
            }
            let hit = match self.get(&leaves[i]) {
                Some(data) => data.is_mapped(Some(window)),
                None => false,
            };
            if hit {
                return Some(copy_id(&leaves[i]));
            }
            i = i + 1;
        }
        proof {
            assert(all.skip(i as int).len() == 0);
        }
        None
    }

    /// The most recently focused window that still has a leaf in this tree:
    /// its position in `focus_stack`, which lists windows most recent first,
    /// and the identifier of its leaf.
    pub fn last_active_window(&self, focus_stack: &Vec<u64>) -> (found: Option<(usize, NodeId)>)
        requires
            self.wf(),
        ensures
            match found {
                Some((i, id)) => self@.last_active(focus_stack@) == Some(i as int) && i
                    < focus_stack.len() && self@.leaf_of(focus_stack@[i as int]) == Some(
                    node_key(id),
                ) && self@.contains(node_key(id)) && self@.data(node_key(id)).is_leaf_of(
                    focus_stack@[i as int],
                ),
                None => self@.last_active(focus_stack@).is_none(),
            },
    {
        proof {
            assert(focus_stack@.skip(0) =~= focus_stack@);
        }
        let mut i: usize = 0;
        while i < focus_stack.len()
            invariant
                i <= focus_stack.len(),
                self.wf(),
                self@.last_active(focus_stack@) == match self@.last_active(
                    focus_stack@.skip(i as int),
                ) {
                    Some(j) => Some(j + i),
                    None => None,
                },
            decreases focus_stack.len() - i,
        {
            let ghost rest = focus_stack@.skip(i as int);
            proof {
                assert(rest[0] == focus_stack@[i as int]);
                assert(rest.drop_first() =~= focus_stack@.skip(i + 1));
            }
            match self.find_window(focus_stack[i]) {
                Some(id) => {
                    return Some((i, id));
                },
                None => {},
            }
            i = i + 1;
        }
        proof {
            assert(focus_stack@.skip(i as int).len() == 0);
        }
        None
    }
}

} // verus!
