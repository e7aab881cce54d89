//! The layout pass over one tree, with the requests it leaves for the
//! windows, and the turning of a group.

use vstd::prelude::*;
use id_tree::NodeId;
use crate::arena::{keys, node_key, set_data, TreeNode};
use crate::data::{lemma_pair_with_orientation, DataView};
use crate::geometry::{Orientation, Rectangle, Size, COORD_MAX};
use crate::traverse::lemma_leaves_under;
use crate::tree::{PartitionTree, TreeView};
use crate::window::{is_fullscreen, reported_fullscreen, request_for, Configure, WindowState};

verus! {

impl TreeView {
    /// The requests for the leaves `ks`, in order: one for each whose window
    /// is not reported fullscreen.
    pub open spec fn requests_for(
        self,
        ks: Seq<int>,
        states: Seq<WindowState>,
        inner: int,
    ) -> Seq<Configure>
        decreases ks.len(),
    {
        if ks.len() == 0 {
            Seq::empty()
        } else {
            let front = self.requests_for(ks.drop_last(), states, inner);
            match self.data(ks.last()) {
                DataView::Mapped { window, geometry } => if reported_fullscreen(states, window) {
                    front
                } else {
                    front.push(request_for(window, geometry, inner))
                },
                DataView::Group { .. } => front,
            }
        }
    }

    /// The requests that a layout pass leaves: every window that is not
    /// reported fullscreen is asked to adopt the size of its leaf's
    /// rectangle, less the inner gap on every side.
    pub open spec fn requests(self, states: Seq<WindowState>, inner: int) -> Seq<Configure> {
        self.requests_for(self.leaves(), states, inner)
    }

    /// The nodes after the group around `leaf`, if there is one, was turned
    /// to `orientation`.
    pub open spec fn turned(self, leaf: int, orientation: Orientation) -> Map<int, TreeNode> {
        match self.parent(leaf) {
            Some(g) => self.nodes.insert(
                g,
                TreeNode { data: self.data(g).with_orientation(orientation), ..self.nodes[g] },
            ),
            None => self.nodes,
        }
    }

    /// `after` is the tree `self` after a layout pass for the rectangle
    /// `target`: laid out in `target`, unless the pass was skipped because
    /// the tree is empty or its root has that rectangle already.
    pub open spec fn positioned(self, after: TreeView, target: Rectangle) -> bool {
        if self.root_geometry().is_none() || self.root_geometry() == Some(target) {
            after == self
        } else {
            self.laid_out(after, target)
        }
    }

    /// The requests that a layout pass from `self` to `after` leaves: none
    /// where the pass is skipped.
    pub open spec fn position_requests(
        self,
        after: TreeView,
        target: Rectangle,
        states: Seq<WindowState>,
        inner: int,
    ) -> Seq<Configure> {
        if self.root_geometry().is_none() || self.root_geometry() == Some(target) {
            Seq::empty()
        } else {
            after.requests(states, inner)
        }
    }

    /// `after` is the tree `self` refreshed for the rectangle `target`:
    /// first the leaves of dead windows go, then comes the layout pass.
    pub open spec fn refreshed(
        self,
        after: TreeView,
        target: Rectangle,
        states: Seq<WindowState>,
    ) -> bool {
        self.without_dead(states).positioned(after, target)
    }

    /// The requests that refreshing `self` into `after` leaves.
    pub open spec fn refresh_requests(
        self,
        after: TreeView,
        target: Rectangle,
        states: Seq<WindowState>,
        inner: int,
    ) -> Seq<Configure> {
        self.without_dead(states).position_requests(after, target, states, inner)
    }

    /// The rectangle of the root.
    pub open spec fn root_geometry(self) -> Option<Rectangle> {
        match self.root {
            Some(r) => Some(self.data(r).geometry()),
            None => None,
        }
    }
}

impl PartitionTree {
    /// Turns the group around the leaf under `leaf` to `orientation` and
    /// rescales its sizes to its extent along the new axis. A leaf without a
    /// group is left as it is.
    pub fn set_orientation(&mut self, leaf: &NodeId, orientation: Orientation)
        requires
            old(self).wf(),
            old(self)@.contains(node_key(*leaf)),
        ensures
            final(self).wf(),
            final(self)@ == (TreeView {
                nodes: old(self)@.turned(node_key(*leaf), orientation),
                ..old(self)@
            }),
            old(self)@.same_shape(final(self)@),
    {
        proof {
            self.unfold();
        }
        let ghost v0 = self@;
        match self.parent(leaf) {
            Some(group) => {
                let ghost g = node_key(group);
                proof {
                    assert(v0.contains(g));
                    assert(v0.shaped_at(g));
                    assert(v0.children(g).contains(node_key(*leaf)));
                    lemma_pair_with_orientation(v0.data(g), orientation);
                }
                let data = match self.get(&group) {
                    Some(data) => data.with_orientation(orientation),
                    None => crate::data::Data::new_mapped(0, crate::geometry::placeholder_rect()),
                };
                set_data(&mut self.tree, &group, data);
                proof {
                    self.unfold();
                    let v = self@;
                    assert(v0.same_shape(v));
                    assert(v.linked());
                    assert(v.ranked());
                    assert forall|j: int| #[trigger] v.contains(j) implies v.shaped_at(j) by {
                        assert(v0.shaped_at(j));
                    }
                }
            },
            None => {},
        }
    }

    /// The requests for all windows of the tree; see [`TreeView::requests`].
    pub fn requests(&self, states: &Vec<WindowState>, inner: i32) -> (out: Vec<Configure>)
        requires
            self.wf(),
            0 <= inner <= COORD_MAX,
        ensures
            out@ == self@.requests(states@, inner as int),
    {
        let leaves = self.leaves();
        let ghost all = self@.leaves();
        proof {
            match self@.root {
                Some(r) => lemma_leaves_under(self@, r),
                None => {},
            }
            assert(all.take(0) =~= Seq::<int>::empty());
        }
        let mut out: Vec<Configure> = Vec::new();
        let mut i: usize = 0;
        while i < leaves.len()
            invariant
                i <= leaves.len(),
                self.wf(),
                0 <= inner <= COORD_MAX,
                all == keys(leaves@),
                all.len() == leaves@.len(),
                forall|j: int| 0 <= j < all.len() ==> self@.contains(#[trigger] all[j]),
                out@ == self@.requests_for(all.take(i as int), states@, inner as int),
            decreases leaves.len() - i,
        {
            proof {
                assert(all.take(i + 1).drop_last() =~= all.take(i as int));
                assert(all.take(i + 1).last() == all[i as int]);
                assert(all[i as int] == node_key(leaves@[i as int]));
                assert(self@.contains(all[i as int]));
                assert(self@.shaped_at(all[i as int]));
            }
            match self.get(&leaves[i]) {
                Some(data) => match data.window() {
                    Some(window) => {
                        if !is_fullscreen(states, window) {
                            let geo = data.geometry();
                            out.push(
                                Configure {
                                    window,
                                    size: Size {
                                        w: geo.size.w - 2 * inner,
                                        h: geo.size.h - 2 * inner,
                                    },
                                },
                            );
                        }
                    },
                    None => {},
                },
                None => {},
            }
            i = i + 1;
        }
        proof {
            assert(all.take(i as int) =~= all);
        }
        out
    }

    /// Removes the leaves of dead windows, then lays the tree out in
    /// `target`; see [`TreeView::refreshed`].
    pub fn refresh(&mut self, target: Rectangle, states: &Vec<WindowState>, inner: i32) -> (out: Vec<
        Configure,
    >)
        requires
            old(self).wf(),
            target.wf(),
            0 <= inner <= COORD_MAX,
        ensures
            final(self).wf(),
            old(self)@.refreshed(final(self)@, target, states@),
            out@ == old(self)@.refresh_requests(final(self)@, target, states@, inner as int),
    {
        self.sweep(states);
        self.update_space_positions(target, states, inner)
    }

    /// Lays the tree out in `target` and returns what to ask of the windows.
    /// Nothing happens to an empty tree, nor to one whose root already has
    /// the rectangle `target`.
    pub fn update_space_positions(
        &mut self,
        target: Rectangle,
        states: &Vec<WindowState>,
        inner: i32,
    ) -> (out: Vec<Configure>)
        requires
            old(self).wf(),
            target.wf(),
            0 <= inner <= COORD_MAX,
        ensures
            final(self).wf(),
            old(self)@.positioned(final(self)@, target),
            out@ == old(self)@.position_requests(final(self)@, target, states@, inner as int),
    {
        let skip = match self.root() {
            Some(root) => match self.get(&root) {
                Some(data) => {
                    let geo = data.geometry();
                    geo.loc.x == target.loc.x && geo.loc.y == target.loc.y && geo.size.w
                        == target.size.w && geo.size.h == target.size.h
                },
                None => true,
            },
            None => true,
        };
        if skip {
            let out: Vec<Configure> = Vec::new();
            proof {
                assert(out@ =~= Seq::<Configure>::empty());
            }
            out
        } else {
            self.distribute(target);
            self.requests(states, inner)
        }
    }
}

} // verus!
