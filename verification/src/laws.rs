//! What holds of every layout, beyond what each operation promises for
//! itself.

use vstd::prelude::*;
use crate::data::DataView;
use crate::focus::FocusView;
use crate::geometry::{FocusDirection, Rectangle, Size};
use crate::layout::LayoutView;
use crate::sizes::sum;
use crate::tree::TreeView;
use crate::window::{reported_dead, Configure, WindowState};

verus! {

/// In a well-formed layout every group has one size for each of its
/// children, of which there are at least two, and the sizes add up to the
/// extent of the group's rectangle along the group's axis, exactly.
pub proof fn law_groups_are_balanced(v: LayoutView, e: int, k: int)
    requires
        v.wf(),
        0 <= e < v.entries.len(),
        v.entries[e].tree.contains(k),
        v.entries[e].tree.data(k).is_group(),
    ensures
        v.entries[e].tree.data(k).sizes().len() == v.entries[e].tree.children(k).len(),
        v.entries[e].tree.children(k).len() >= 2,
        sum(v.entries[e].tree.data(k).sizes()) == v.entries[e].tree.data(k).geometry().length_along(
            v.entries[e].tree.data(k).orientation(),
        ),
{
    assert(v.entries[e].wf());
    assert(v.entries[e].tree.shaped_at(k));
}

/// A tree without a dead window is its own sweep.
pub proof fn lemma_nothing_dead(v: TreeView, ks: Seq<int>, states: Seq<WindowState>)
    requires
        forall|i: int| 0 <= i < ks.len() ==> !reported_dead(states, v.window_at(#[trigger] ks[i])),
    ensures
        v.dead_among(ks, states) == Seq::<int>::empty(),
    decreases ks.len(),
{
    if ks.len() > 0 {
        assert forall|i: int| 0 <= i < ks.drop_last().len() implies !reported_dead(
            states,
            v.window_at(#[trigger] ks.drop_last()[i]),
        ) by {
            assert(ks.drop_last()[i] == ks[i]);
        }
        lemma_nothing_dead(v, ks.drop_last(), states);
        assert(!reported_dead(states, v.window_at(ks[ks.len() - 1])));
    }
}

/// Mapping a window on an empty output and unmapping it again leaves the
/// tree of the output empty, whatever is reported of the window in between.
///
/// `v1` is the tree after the window got its leaf `l`, `v2` the tree after
/// the refresh that ends the mapping, and `v2.without(l)` the tree after the
/// unmapping.
pub proof fn law_map_then_unmap(
    v0: TreeView,
    v1: TreeView,
    v2: TreeView,
    stack: Seq<u64>,
    fallback: Size,
    window: u64,
    l: int,
    marker: u64,
    target: Rectangle,
    states: Seq<WindowState>,
)
    requires
        v0.wf(),
        v0.is_empty(),
        v0.grown(v1, stack, fallback, window, l, marker),
        v1.wf(),
        v1.refreshed(v2, target, states),
    ensures
        v2.without(l).is_empty(),
        forall|k: int| !v2.without(l).contains(k),
{
    assert(v0.insertion_point(stack).is_none()) by {
        if v0.last_active(stack).is_some() {
            crate::traverse::lemma_last_active(v0, stack);
        }
    }
    assert(v0.linked());
    assert(forall|k: int| !v0.contains(k));
    assert forall|k: int| v1.contains(k) implies k == l by {
        if k != l {
            assert(v0.contains(k));
        }
    }
    assert(v1.contains(l));
    assert(v1.root == Some(l));
    assert(v1.shaped_at(l));
    assert(v1.leaves() =~= seq![l]);
    let dead = v1.dead_among(seq![l], states);
    assert(seq![l].drop_last() =~= Seq::<int>::empty());
    assert(v1.dead_among(Seq::<int>::empty(), states) =~= Seq::<int>::empty());
    let mid = v1.without_dead(states);
    if reported_dead(states, window) {
        assert(dead =~= seq![l]);
        assert(dead.drop_first() =~= Seq::<int>::empty());
        assert(mid == v1.without(l).swept(Seq::<int>::empty()));
        assert(mid == v1.without(l));
        assert(v1.parent(l).is_none());
        assert forall|k: int| !mid.contains(k) by {
            if mid.contains(k) {
                assert(v1.contains(k));
            }
        }
        assert(mid.root.is_none());
        assert(v2 == mid);
    } else {
        assert(dead =~= Seq::<int>::empty());
        assert(mid == v1);
        assert(v2.root == v1.root);
        assert(v2.contains(l));
        assert(v2.parent(l).is_none());
        assert(forall|k: int| v2.contains(k) ==> v1.contains(k));
        assert(v2.data(l).is_leaf()) by {
            if v2 != v1 {
                assert(v2.data(l) == v1.data(l).with_geometry(v2.data(l).geometry()));
            }
        }
        assert forall|k: int| !v2.without(l).contains(k) by {
            if v2.without(l).contains(k) {
                assert(v2.contains(k));
                assert(v1.contains(k));
            }
        }
    }
}

/// From a leaf that is the root of its tree no focus request leads
/// anywhere: not outwards, and in no direction.
pub proof fn law_no_focus_from_the_root(v: TreeView, leaf: int, direction: FocusDirection)
    requires
        v.wf(),
        v.root == Some(leaf),
    ensures
        v.focus_from(leaf, direction).is_none(),
{
    assert(v.contains(leaf));
    assert(v.parent(leaf).is_none());
}

/// A second refresh in a row changes nothing and asks nothing of any
/// window, provided that no window of the layout is reported dead in
/// between.
pub proof fn law_refresh_twice(
    v0: LayoutView,
    v1: LayoutView,
    v2: LayoutView,
    first: Seq<WindowState>,
    second: Seq<WindowState>,
)
    requires
        v0.wf(),
        v0.refreshed(v1, first),
        v1.wf(),
        v1.refreshed(v2, second),
        forall|e: int, i: int|
            0 <= e < v1.entries.len() && 0 <= i < v1.entries[e].tree.leaves().len()
                ==> !reported_dead(
                second,
                v1.entries[e].tree.window_at(#[trigger] v1.entries[e].tree.leaves()[i]),
            ),
    ensures
        v2 == v1,
        v1.refresh_requests(v2, second) == Seq::<Configure>::empty(),
{
    let w0 = v0.swept(first);
    let w1 = v1.swept(second);
    assert forall|e: int| 0 <= e < v1.entries.len() implies #[trigger] w1.entries[e] == v1.entries[e] by {
        let t1 = v1.entries[e].tree;
        lemma_nothing_dead(t1, t1.leaves(), second);
        assert(t1.swept(Seq::<int>::empty()) == t1);
        assert(t1.without_dead(second) == t1);
    }
    assert(w1.entries =~= v1.entries);
    assert(w1 == v1);
    assert forall|e: int| 0 <= e < v1.entries.len() implies (#[trigger] v2.entries[e]) == v1.entries[e]
        && v1.entries[e].tree.position_requests(
        v2.entries[e].tree,
        v1.target(e),
        second,
        v1.gaps.1 as int,
    ) == Seq::<Configure>::empty() by {
        let m = w0.entries[e].tree;
        let t1 = v1.entries[e].tree;
        assert(v1.entries[e].output == w0.entries[e].output);
        assert(w0.entries[e].output == v0.entries[e].output);
        assert(v1.target(e) == w0.target(e));
        assert(m.positioned(t1, w0.target(e)));
        assert(t1.root_geometry().is_none() || t1.root_geometry() == Some(v1.target(e)));
        assert(t1.positioned(v2.entries[e].tree, v1.target(e)));
    }
    assert(v2.entries =~= v1.entries);
    lemma_no_requests(v1, v2, second, v1.entries.len() as int);
}

/// Where no tree leaves a request, the layout leaves none.
pub proof fn lemma_no_requests(v1: LayoutView, v2: LayoutView, states: Seq<WindowState>, n: int)
    requires
        0 <= n <= v1.entries.len(),
        v2.entries.len() == v1.entries.len(),
        forall|e: int|
            0 <= e < v1.entries.len() ==> (#[trigger] v1.entries[e]).tree.position_requests(
                v2.entries[e].tree,
                v1.target(e),
                states,
                v1.gaps.1 as int,
            ) == Seq::<Configure>::empty(),
    ensures
        v1.requests_upto(v2, states, n) == Seq::<Configure>::empty(),
    decreases n,
{
    if n > 0 {
        lemma_no_requests(v1, v2, states, n - 1);
        assert(v1.entries[n - 1].tree.position_requests(
            v2.entries[n - 1].tree,
            v1.target(n - 1),
            states,
            v1.gaps.1 as int,
        ) == Seq::<Configure>::empty());
    }
}

impl TreeView {
    /// The windows of the leaves under `k`, in the order of the leaves.
    pub open spec fn windows_under(self, k: int) -> Seq<u64> {
        Seq::new(self.leaves_under(k).len(), |i: int| self.window_at(self.leaves_under(k)[i]))
    }

    /// The windows of the tree, in the order of its leaves.
    pub open spec fn windows(self) -> Seq<u64> {
        Seq::new(self.leaves().len(), |i: int| self.window_at(self.leaves()[i]))
    }

    /// `other` holds every node of `self` with the same children, the same
    /// kind, and for a leaf the same window.
    pub open spec fn alike(self, other: TreeView) -> bool {
        forall|k: int| #[trigger]
            self.contains(k) ==> other.contains(k) && other.children(k) == self.children(k)
                && other.data(k).is_leaf() == self.data(k).is_leaf() && other.window_at(k)
                == self.window_at(k)
    }
}

/// The windows under a group are those under its first child followed by
/// those under its second.
pub proof fn lemma_windows_under(v: TreeView, k: int)
    requires
        v.wf(),
        v.contains(k),
    ensures
        v.data(k).is_leaf() ==> v.windows_under(k) == seq![v.window_at(k)],
        v.data(k).is_group() ==> v.windows_under(k) == v.windows_under(v.children(k)[0])
            + v.windows_under(v.children(k)[1]),
{
    assert(v.shaped_at(k));
    if v.data(k).is_leaf() {
        assert(v.windows_under(k) =~= seq![v.window_at(k)]);
    } else {
        let a = v.children(k)[0];
        let b = v.children(k)[1];
        assert(v.contains(a) && v.contains(b));
        assert(v.leaves_under(k) == v.leaves_under(a) + v.leaves_under(b));
        assert(v.windows_under(k) =~= v.windows_under(a) + v.windows_under(b));
    }
}

/// Trees that are alike have the same leaves.
pub proof fn lemma_alike_leaves(a: TreeView, b: TreeView, k: int)
    requires
        a.wf(),
        b.wf(),
        a.alike(b),
        a.contains(k),
    ensures
        b.leaves_under(k) == a.leaves_under(k),
        b.windows_under(k) == a.windows_under(k),
    decreases a.rank[k],
{
    assert(a.shaped_at(k));
    assert(b.contains(k));
    if a.data(k).is_group() {
        let c0 = a.children(k)[0];
        let c1 = a.children(k)[1];
        assert(a.contains(c0) && a.parent(c0) == Some(k));
        assert(a.contains(c1) && a.parent(c1) == Some(k));
        lemma_alike_leaves(a, b, c0);
        lemma_alike_leaves(a, b, c1);
    }
    assert(b.windows_under(k) =~= a.windows_under(k)) by {
        assert(a.contains(k));
        crate::traverse::lemma_leaves_under(a, k);
    }
}

/// A copy of a subtree has the windows of the subtree it was made from, in
/// the same order.
pub proof fn lemma_copy_windows(a: TreeView, ka: int, b: TreeView, kb: int)
    requires
        a.wf(),
        a.contains(ka),
        b.wf(),
        a.same_subtree(ka, b, kb),
    ensures
        b.windows_under(kb) == a.windows_under(ka),
    decreases a.rank[ka],
{
    assert(a.shaped_at(ka));
    assert(b.contains(kb));
    assert(b.shaped_at(kb));
    lemma_windows_under(a, ka);
    lemma_windows_under(b, kb);
    if a.data(ka).is_group() {
        let c0 = a.children(ka)[0];
        let c1 = a.children(ka)[1];
        assert(a.contains(c0) && a.parent(c0) == Some(ka));
        assert(a.contains(c1) && a.parent(c1) == Some(ka));
        assert(b.contains(b.children(kb)[0]));
        assert(b.contains(b.children(kb)[1]));
        lemma_copy_windows(a, c0, b, b.children(kb)[0]);
        lemma_copy_windows(a, c1, b, b.children(kb)[1]);
    }
}

/// After a merge the destination holds its own windows followed by those
/// of the source: no window is lost, none is added, and none is counted
/// twice that was not before.
pub proof fn law_merge_keeps_every_window(
    dst: TreeView,
    src: TreeView,
    after: TreeView,
    orientation: crate::geometry::Orientation,
    marker: u64,
)
    requires
        dst.wf(),
        src.wf(),
        after.wf(),
        dst.merged(src, after, orientation, marker),
    ensures
        after.windows() == dst.windows() + src.windows(),
        after.leaves().len() == dst.leaves().len() + src.leaves().len(),
{
    match (src.root, dst.root) {
        (None, _) => {
            assert(dst.alike(after));
            match dst.root {
                Some(r) => {
                    assert(dst.contains(r));
                    lemma_alike_leaves(dst, after, r);
                },
                None => {},
            }
            assert(after.windows() =~= dst.windows() + src.windows());
        },
        (Some(sr), None) => {
            assert(src.alike(after));
            assert(src.contains(sr));
            lemma_alike_leaves(src, after, sr);
            assert(after.windows() =~= dst.windows() + src.windows());
        },
        (Some(sr), Some(r)) => {
            let g = after.root.unwrap();
            let n = after.children(g)[1];
            assert(after.shaped_at(g));
            assert(dst.alike(after)) by {
                assert forall|k: int| #[trigger] dst.contains(k) implies after.contains(k)
                    && after.children(k) == dst.children(k) && after.data(k).is_leaf()
                    == dst.data(k).is_leaf() && after.window_at(k) == dst.window_at(k) by {}
            }
            assert(dst.contains(r));
            assert(src.contains(sr));
            lemma_alike_leaves(dst, after, r);
            lemma_copy_windows(src, sr, after, n);
            lemma_windows_under(after, g);
            assert(after.leaves() == after.leaves_under(g));
            assert(after.windows() =~= after.windows_under(g));
            assert(dst.windows() =~= dst.windows_under(r));
            assert(src.windows() =~= src.windows_under(sr));
        },
    }
}

/// A refresh that finds no window dead keeps every window in its place in
/// the order of the leaves.
pub proof fn law_refresh_keeps_every_window(
    before: TreeView,
    after: TreeView,
    target: Rectangle,
    states: Seq<WindowState>,
)
    requires
        before.wf(),
        after.wf(),
        before.refreshed(after, target, states),
        forall|i: int|
            0 <= i < before.leaves().len() ==> !reported_dead(
                states,
                before.window_at(#[trigger] before.leaves()[i]),
            ),
    ensures
        after.windows() == before.windows(),
{
    lemma_nothing_dead(before, before.leaves(), states);
    assert(before.swept(Seq::<int>::empty()) == before);
    assert(before.without_dead(states) == before);
    if after != before {
        assert(before.laid_out(after, target));
        assert(before.alike(after)) by {
            assert forall|k: int| #[trigger] before.contains(k) implies after.contains(k)
                && after.children(k) == before.children(k) && after.data(k).is_leaf()
                == before.data(k).is_leaf() && after.window_at(k) == before.window_at(k) by {
                assert(after.data(k) == before.data(k).with_geometry(after.data(k).geometry()));
            }
        }
        match before.root {
            Some(r) => {
                assert(before.contains(r));
                lemma_alike_leaves(before, after, r);
                assert(after.windows() =~= after.windows_under(r));
                assert(before.windows() =~= before.windows_under(r));
            },
            None => {
                assert(after.windows() =~= before.windows());
            },
        }
    }
}

/// The two rectangles that a well-formed group gives its children lie
/// inside the group's own, the second begins where the first ends, and
/// together they are as long as the group.
pub proof fn law_children_fill_their_group(d: DataView)
    requires
        d.wf(),
        d.is_group(),
        d.sizes().len() == 2,
    ensures
        d.child_rect(0).wf(),
        d.child_rect(1).wf(),
        d.geometry().contains_rect(d.child_rect(0)),
        d.geometry().contains_rect(d.child_rect(1)),
        d.child_rect(0).length_along(d.orientation()) + d.child_rect(1).length_along(
            d.orientation(),
        ) == d.extent(),
        match d.orientation() {
            crate::geometry::Orientation::Horizontal => d.child_rect(1).loc.y == d.child_rect(0).loc.y
                + d.child_rect(0).size.h && d.child_rect(0).loc.y == d.geometry().loc.y,
            crate::geometry::Orientation::Vertical => d.child_rect(1).loc.x == d.child_rect(0).loc.x
                + d.child_rect(0).size.w && d.child_rect(0).loc.x == d.geometry().loc.x,
        },
{
    crate::propagate::lemma_child_rects(d);
}

/// In a tree that has been laid out, the rectangle of every node lies
/// inside the rectangle of the root.
pub proof fn law_laid_out_inside(v: TreeView, k: int)
    requires
        v.wf(),
        v.tiled(),
        v.contains(k),
    ensures
        v.root.is_some(),
        v.data(v.root.unwrap()).geometry().contains_rect(v.data(k).geometry()),
    decreases v.bound - v.rank[k],
{
    match v.parent(k) {
        Some(p) => {
            assert(v.contains(p) && v.children(p).contains(k));
            assert(v.shaped_at(p));
            let i = v.children(p).index_of(k);
            assert(v.data(v.children(p)[i]).geometry() == v.data(p).child_rect(i));
            law_children_fill_their_group(v.data(p));
            law_laid_out_inside(v, p);
        },
        None => {
            assert(v.root == Some(k));
        },
    }
}

} // verus!
