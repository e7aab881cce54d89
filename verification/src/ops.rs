//! The operations that change a layout: windows come and go, a group is
//! turned, an output leaves. Each ends with a refresh.

use vstd::prelude::*;
use crate::geometry::{Orientation, Point, Size};
use crate::layout::{Entry, EntryView, LayoutView, Output, OutputData, TilingLayout};
use crate::merge::listed;
use crate::tree::{PartitionTree, TreeView};
use crate::window::{
    handles_updated, swept_slot, update_handle, update_handles, Configure, Relocation, Window,
    WindowState,
};

verus! {

/// The marker after `m`.
pub open spec fn next_marker(m: u64) -> u64 {
    if m == u64::MAX {
        0
    } else {
        (m + 1) as u64
    }
}

/// The orientation of the group that joins two trees on an output of the
/// given size: stacked where the output is at least as wide as tall, else
/// side by side.
pub open spec fn joint_for(size: Size) -> Orientation {
    if size.w >= size.h {
        Orientation::Horizontal
    } else {
        Orientation::Vertical
    }
}

fn joint_orientation(size: Size) -> (o: Orientation)
    ensures
        o == joint_for(size),
{
    if size.w >= size.h {
        Orientation::Horizontal
    } else {
        Orientation::Vertical
    }
}

impl LayoutView {
    /// This layout with `tree` as the tree of entry `e`.
    pub open spec fn with_tree(self, e: int, tree: TreeView) -> LayoutView {
        LayoutView { entries: self.entries.update(e, EntryView { tree, ..self.entries[e] }), ..self }
    }

    /// `after` is this layout with a leaf for `window` added to the tree of
    /// entry `e` under the key `l`; see [`TreeView::grown`].
    pub open spec fn grown(
        self,
        after: LayoutView,
        e: int,
        fallback: Size,
        stack: Seq<u64>,
        window: u64,
        l: int,
    ) -> bool {
        &&& after == self.with_tree(e, after.entries[e].tree).with_markers(next_marker(self.markers))
        &&& self.entries[e].tree.grown(
            after.entries[e].tree,
            stack,
            fallback,
            window,
            l,
            self.markers,
        )
    }

    /// This layout with `markers` as its next marker.
    pub open spec fn with_markers(self, markers: u64) -> LayoutView {
        LayoutView { markers, ..self }
    }

    /// The first entry from `from` on whose tree holds the node `k` as the
    /// leaf of `window`.
    pub open spec fn owner_from(self, window: u64, k: int, from: int) -> Option<int>
        decreases self.entries.len() - from,
    {
        if from < 0 || from >= self.entries.len() {
            None
        } else if self.entries[from].tree.contains(k) && self.entries[from].tree.data(
            k,
        ).is_leaf_of(window) {
            Some(from)
        } else {
            self.owner_from(window, k, from + 1)
        }
    }

    /// The entry whose tree holds the leaf that the slot of `window` names.
    pub open spec fn owner(self, window: u64, slot: Option<int>) -> Option<int> {
        match slot {
            Some(k) => self.owner_from(window, k, 0),
            None => None,
        }
    }

    /// This layout without the leaf that the slot of `window` names.
    pub open spec fn without_window(self, window: u64, slot: Option<int>) -> LayoutView {
        match self.owner(window, slot) {
            Some(e) => self.with_tree(e, self.entries[e].tree.without(slot.unwrap())),
            None => self,
        }
    }

    /// This layout with the group around the most recently focused window
    /// of entry `e` turned to `orientation`.
    pub open spec fn reoriented(self, e: int, stack: Seq<u64>, orientation: Orientation) -> LayoutView {
        let tree = self.entries[e].tree;
        match tree.last_active(stack) {
            Some(i) => self.with_tree(
                e,
                TreeView { nodes: tree.turned(tree.leaf_of(stack[i]).unwrap(), orientation), ..tree },
            ),
            None => self,
        }
    }

    /// `after` is this layout without entry `e`, whose tree was merged into
    /// the first of the entries that stay, and `moved` lists the windows of
    /// that tree with their new leaves.
    pub open spec fn output_removed(self, after: LayoutView, e: int, moved: Seq<Relocation>) -> bool {
        let rest = self.entries.remove(e);
        let src = self.entries[e].tree;
        &&& rest.len() > 0
        &&& after == (LayoutView {
            entries: rest.update(0, EntryView { tree: after.entries[0].tree, ..rest[0] }),
            markers: next_marker(self.markers),
            ..self
        })
        &&& rest[0].tree.merged(
            src,
            after.entries[0].tree,
            joint_for(rest[0].output.geometry.size),
            self.markers,
        )
        &&& moved.len() == src.leaves().len()
        &&& forall|i: int|
            0 <= i < moved.len() ==> listed(
                src,
                after.entries[0].tree,
                src.leaves()[i],
                #[trigger] moved[i],
            )
    }
}

impl LayoutView {
    /// This layout with an entry for `output`: the one it has, else a new
    /// one at the end, with an empty tree.
    pub open spec fn with_output(self, output: Output, location: Point) -> LayoutView {
        if self.registered(output.id) {
            self
        } else {
            LayoutView {
                entries: self.entries.push(EntryView { output, location, tree: TreeView::empty() }),
                ..self
            }
        }
    }

    /// `after` is this layout with the entry `entry` of another layout
    /// merged in: its tree is merged into the tree of the same output, which
    /// is registered for this if it is not yet. `moved` lists the windows of
    /// the entry with their new leaves.
    pub open spec fn absorbed_one(
        self,
        entry: EntryView,
        after: LayoutView,
        moved: Seq<Relocation>,
    ) -> bool {
        let base = self.with_output(entry.output, entry.location);
        let d = base.position(entry.output.id);
        &&& after == base.with_tree(d, after.entries[d].tree).with_markers(
            next_marker(self.markers),
        )
        &&& base.entries[d].tree.merged(
            entry.tree,
            after.entries[d].tree,
            joint_for(entry.output.geometry.size),
            self.markers,
        )
        &&& moved.len() == entry.tree.leaves().len()
        &&& forall|i: int|
            0 <= i < moved.len() ==> listed(
                entry.tree,
                after.entries[d].tree,
                entry.tree.leaves()[i],
                #[trigger] moved[i],
            )
    }

    /// `after` is this layout with the entries `entries` of another layout
    /// merged in, one after the other, and `moved` lists their windows with
    /// their new leaves.
    pub open spec fn absorbed(
        self,
        entries: Seq<EntryView>,
        after: LayoutView,
        moved: Seq<Relocation>,
    ) -> bool
        decreases entries.len(),
    {
        if entries.len() == 0 {
            after == self && moved.len() == 0
        } else {
            exists|mid: LayoutView, cut: int|
                #![trigger mid.absorbed_one(entries.last(), after, moved.skip(cut))]
                0 <= cut <= moved.len() && self.absorbed(entries.drop_last(), mid, moved.take(cut))
                    && mid.wf() && mid.absorbed_one(entries.last(), after, moved.skip(cut))
        }
    }
}

/// Replacing the tree of an entry by a well-formed tree keeps a layout well
/// formed.
pub proof fn lemma_with_tree(v: LayoutView, e: int, tree: TreeView)
    requires
        v.wf(),
        0 <= e < v.entries.len(),
        tree.wf(),
    ensures
        v.with_tree(e, tree).wf(),
        v.with_tree(e, tree).entries.len() == v.entries.len(),
        forall|id: u64| v.with_tree(e, tree).registered(id) == v.registered(id),
        forall|id: u64| v.registered(id) ==> v.with_tree(e, tree).position(id) == v.position(id),
{
    let w = v.with_tree(e, tree);
    assert forall|i: int, j: int|
        0 <= i < w.entries.len() && 0 <= j < w.entries.len() && i != j implies (
    #[trigger] w.entries[i]).output.id != (#[trigger] w.entries[j]).output.id by {
        assert(v.entries[i].output.id != v.entries[j].output.id);
    }
    assert forall|i: int| 0 <= i < w.entries.len() implies (#[trigger] w.entries[i]).wf() by {
        assert(v.entries[i].wf());
    }
    assert forall|id: u64| w.registered(id) == v.registered(id) by {
        if v.registered(id) {
            let i = v.position(id);
            assert(w.entries[i].output.id == id);
        }
        if w.registered(id) {
            let i = w.position(id);
            assert(v.entries[i].output.id == id);
        }
    }
    assert forall|id: u64| v.registered(id) implies w.position(id) == v.position(id) by {
        let i = v.position(id);
        let j = w.position(id);
        assert(w.entries[i].output.id == id);
        assert(v.entries[j].output.id == id);
        if i != j {
            assert(v.entries[i].output.id != v.entries[j].output.id);
        }
    }
}

impl TilingLayout {
    fn bump(&mut self) -> (marker: u64)
        ensures
            marker == old(self)@.markers,
            final(self)@ == old(self)@.with_markers(next_marker(old(self)@.markers)),
    {
        proof {
            self.unfold();
        }
        let ghost v0 = self@;
        let marker = self.markers;
        self.markers = if marker == u64::MAX {
            0
        } else {
            marker + 1
        };
        proof {
            self.unfold();
            assert(self@.entries =~= v0.entries);
        }
        marker
    }

    /// Takes the entry at `e` out of the registry.
    fn take(&mut self, e: usize) -> (entry: Entry)
        requires
            e < old(self)@.entries.len(),
        ensures
            entry@ == old(self)@.entries[e as int],
            final(self)@ == (LayoutView { entries: old(self)@.entries.remove(e as int), ..old(self)@ }),
    {
        proof {
            self.unfold();
        }
        let ghost v0 = self@;
        let entry = self.trees.remove(e);
        proof {
            self.unfold();
            assert(self@.entries =~= v0.entries.remove(e as int));
        }
        entry
    }

    /// Puts `entry` into the registry at position `e`.
    fn put(&mut self, e: usize, entry: Entry)
        requires
            e <= old(self)@.entries.len(),
        ensures
            final(self)@ == (LayoutView { entries: old(self)@.entries.insert(e as int, entry@), ..old(self)@ }),
    {
        proof {
            self.unfold();
        }
        let ghost v0 = self@;
        self.trees.insert(e, entry);
        proof {
            self.unfold();
            assert(self@.entries =~= v0.entries.insert(e as int, entry@));
        }
    }

    /// Adds a leaf for `window` to the tree of `output`, beside the most
    /// recently focused window of `focus_stack` that is tiled there, and
    /// writes the new leaf into the window's slot.
    pub fn map_internal(&mut self, window: &mut Window, output: &Output, focus_stack: &Vec<u64>)
        requires
            old(self).wf(),
            old(self)@.registered(output.id),
        ensures
            final(self).wf(),
            final(window).id == old(window).id,
            final(window).slot().is_some(),
            old(self)@.grown(
                final(self)@,
                old(self)@.position(output.id),
                output.geometry.size,
                focus_stack@,
                old(window).id,
                final(window).slot().unwrap(),
            ),
    {
        let ghost v0 = self@;
        let e = match self.find(output.id) {
            Some(e) => e,
            None => 0,
        };
        assert(v0.entries[e as int].wf());
        let marker = self.bump();
        let mut entry = self.take(e);
        proof {
            entry.unfold();
        }
        let id = entry.tree.insert(window.id, focus_stack, output.geometry.size, marker);
        let ghost tree = entry.tree@;
        let entry = Entry { data: entry.data, tree: entry.tree };
        proof {
            entry.unfold();
        }
        self.put(e, entry);
        window.tiling_node_id = Some(id);
        proof {
            lemma_with_tree(v0, e as int, tree);
            assert(self@.entries =~= v0.with_tree(e as int, tree).entries);
        }
    }

    /// Tiles `window` on `active_output`, beside the most recently focused
    /// window of `focus_stack` that is tiled there, and refreshes the layout.
    /// The slot of `window` names its new leaf, unless the window is
    /// reported dead and swept at once. Returns what to ask of the windows.
    pub fn map(
        &mut self,
        window: &mut Window,
        active_output: &Output,
        focus_stack: &Vec<u64>,
        states: &Vec<WindowState>,
        windows: &mut Vec<Window>,
    ) -> (out: Vec<Configure>)
        requires
            old(self).wf(),
            old(self)@.registered(active_output.id),
        ensures
            final(self).wf(),
            final(window).id == old(window).id,
            handles_updated(old(windows)@, final(windows)@, Seq::empty(), states@),
            exists|mid: LayoutView, l: int|
                #![trigger mid.refreshed(final(self)@, states@), swept_slot(states@, old(window).id, Some(l))]
                old(self)@.grown(
                    mid,
                    old(self)@.position(active_output.id),
                    active_output.geometry.size,
                    focus_stack@,
                    old(window).id,
                    l,
                ) && mid.wf() && mid.refreshed(final(self)@, states@) && out@ == mid.refresh_requests(
                    final(self)@,
                    states@,
                ) && final(window).slot() == swept_slot(states@, old(window).id, Some(l)),
    {
        let ghost v0 = self@;
        self.map_internal(window, active_output, focus_stack);
        let ghost mid = self@;
        let ghost l = window.slot().unwrap();
        let out = self.refresh(states, windows);
        update_handle(window, states);
        proof {
            assert(v0.grown(
                mid,
                v0.position(active_output.id),
                active_output.geometry.size,
                focus_stack@,
                window.id,
                l,
            ) && mid.wf() && mid.refreshed(self@, states@) && out@ == mid.refresh_requests(
                self@,
                states@,
            ) && window.slot() == swept_slot(states@, window.id, Some(l)));
        }
        out
    }

    /// Removes the leaf that the slot of `window` names from the tree that
    /// holds it, and empties the slot. Returns whether there was such a
    /// leaf; if not, nothing changes.
    pub fn unmap_window_internal(&mut self, window: &mut Window) -> (found: bool)
        requires
            old(self).wf(),
        ensures
            final(self).wf(),
            found == old(self)@.owner(old(window).id, old(window).slot()).is_some(),
            final(self)@ == old(self)@.without_window(old(window).id, old(window).slot()),
            final(window).id == old(window).id,
            found ==> final(window).tiling_node_id.is_none(),
            !found ==> final(window).slot() == old(window).slot(),
    {
        let found = self.remove_leaf_of(window);
        if found {
            window.tiling_node_id = None;
        }
        found
    }

    /// Removes the leaf that the slot of `window` names from the tree that
    /// holds it.
    fn remove_leaf_of(&mut self, window: &Window) -> (found: bool)
        requires
            old(self).wf(),
        ensures
            final(self).wf(),
            found == old(self)@.owner(window.id, window.slot()).is_some(),
            final(self)@ == old(self)@.without_window(window.id, window.slot()),
    {
        proof {
            self.unfold();
        }
        let ghost v0 = self@;
        match &window.tiling_node_id {
            Some(id) => {
                let ghost k = crate::arena::node_key(*id);
                let mut i: usize = 0;
                while i < self.trees.len()
                    invariant
                        i <= self.trees.len(),
                        self@ == v0,
                        v0 == old(self)@,
                        v0.wf(),
                        k == crate::arena::node_key(*id),
                        window.slot() == Some(k),
                        self@.entries.len() == self.trees@.len(),
                        forall|j: int|
                            0 <= j < self.trees@.len() ==> (#[trigger] self@.entries[j]).tree
                                == self.trees@[j].tree@,
                        v0.owner_from(window.id, k, 0) == v0.owner_from(window.id, k, i as int),
                    decreases self.trees.len() - i,
                {
                    let holds = match self.trees[i].tree.get(id) {
                        Some(data) => data.is_mapped(Some(window.id)),
                        None => false,
                    };
                    if holds {
                        assert(v0.entries[i as int].wf());
                        assert(v0.owner_from(window.id, k, i as int) == Some(i as int));
                        assert(window.slot() == Some(k));
                        let mut entry = self.take(i);
                        proof {
                            entry.unfold();
                        }
                        entry.tree.remove(id);
                        let ghost tree = entry.tree@;
                        let entry = Entry { data: entry.data, tree: entry.tree };
                        proof {
                            entry.unfold();
                        }
                        self.put(i, entry);
                        proof {
                            lemma_with_tree(v0, i as int, tree);
                            assert(self@.entries =~= v0.with_tree(i as int, tree).entries);
                        }
                        return true;
                    }
                    i = i + 1;
                }
                false
            },
            None => false,
        }
    }

    /// Takes `window` out of the layout and refreshes it. Returns whether the
    /// window was tiled, and what to ask of the windows. A window that was
    /// tiled has an empty slot afterwards and is to count as not tiled.
    pub fn unmap(
        &mut self,
        window: &mut Window,
        states: &Vec<WindowState>,
        windows: &mut Vec<Window>,
    ) -> (r: (bool, Vec<Configure>))
        requires
            old(self).wf(),
        ensures
            final(self).wf(),
            final(window).id == old(window).id,
            r.0 == old(self)@.owner(old(window).id, old(window).slot()).is_some(),
            r.0 ==> {
                &&& final(window).tiling_node_id.is_none()
                &&& old(self)@.without_window(old(window).id, old(window).slot()).refreshed(
                    final(self)@,
                    states@,
                )
                &&& r.1@ == old(self)@.without_window(
                    old(window).id,
                    old(window).slot(),
                ).refresh_requests(final(self)@, states@)
                &&& handles_updated(old(windows)@, final(windows)@, Seq::empty(), states@)
            },
            !r.0 ==> {
                &&& final(self)@ == old(self)@
                &&& final(window).slot() == old(window).slot()
                &&& final(windows)@ == old(windows)@
                &&& r.1@.len() == 0
            },
    {
        if self.unmap_window_internal(window) {
            let out = self.refresh(states, windows);
            (true, out)
        } else {
            (false, Vec::new())
        }
    }

    /// Turns the group around the most recently focused window of
    /// `focus_stack` that is tiled on `active_output` to `new_orientation`,
    /// rescales the group's sizes, and refreshes the layout; `windows` are
    /// the handles whose slots the refresh keeps up to date.
    pub fn update_orientation(
        &mut self,
        new_orientation: Orientation,
        active_output: &Output,
        focus_stack: &Vec<u64>,
        states: &Vec<WindowState>,
        windows: &mut Vec<Window>,
    ) -> (out: Vec<Configure>)
        requires
            old(self).wf(),
            old(self)@.registered(active_output.id),
        ensures
            final(self).wf(),
            handles_updated(old(windows)@, final(windows)@, Seq::empty(), states@),
            old(self)@.reoriented(
                old(self)@.position(active_output.id),
                focus_stack@,
                new_orientation,
            ).refreshed(final(self)@, states@),
            out@ == old(self)@.reoriented(
                old(self)@.position(active_output.id),
                focus_stack@,
                new_orientation,
            ).refresh_requests(final(self)@, states@),
    {
        let ghost v0 = self@;
        let e = match self.find(active_output.id) {
            Some(e) => e,
            None => 0,
        };
        assert(v0.entries[e as int].wf());
        let mut entry = self.take(e);
        proof {
            entry.unfold();
        }
        match entry.tree.last_active_window(focus_stack) {
            Some((_, leaf)) => {
                entry.tree.set_orientation(&leaf, new_orientation);
            },
            None => {},
        }
        let ghost tree = entry.tree@;
        let entry = Entry { data: entry.data, tree: entry.tree };
        proof {
            entry.unfold();
        }
        self.put(e, entry);
        proof {
            lemma_with_tree(v0, e as int, tree);
            assert(self@.entries =~= v0.with_tree(e as int, tree).entries);
            assert(v0.with_tree(e as int, v0.entries[e as int].tree).entries =~= v0.entries);
        }
        self.refresh(states, windows)
    }

    /// Takes `output` out of the registry, merges its tree into the tree of
    /// the first output that stays, and refreshes the layout. Returns the
    /// windows that moved with their new leaves, which it also writes into
    /// the slots of those among the handles `windows`, and what to ask of the
    /// windows. Nothing happens if the output is not registered.
    pub fn unmap_output(
        &mut self,
        output: &Output,
        states: &Vec<WindowState>,
        windows: &mut Vec<Window>,
    ) -> (r: (Vec<Relocation>, Vec<Configure>))
        requires
            old(self).wf(),
            old(self)@.registered(output.id) ==> old(self)@.entries.len() >= 2,
        ensures
            final(self).wf(),
            !old(self)@.registered(output.id) ==> final(self)@ == old(self)@ && r.0@.len() == 0
                && r.1@.len() == 0 && final(windows)@ == old(windows)@,
            old(self)@.registered(output.id) ==> handles_updated(
                old(windows)@,
                final(windows)@,
                r.0@,
                states@,
            ),
            old(self)@.registered(output.id) ==> exists|mid: LayoutView|
                #![trigger mid.refreshed(final(self)@, states@)]
                old(self)@.output_removed(mid, old(self)@.position(output.id), r.0@) && mid.wf()
                    && mid.refreshed(final(self)@, states@) && r.1@ == mid.refresh_requests(
                    final(self)@,
                    states@,
                ),
    {
        let ghost v0 = self@;
        let e = match self.find(output.id) {
            Some(e) => e,
            None => {
                return (Vec::new(), Vec::new());
            },
        };
        proof {
            assert(v0.entries[e as int].wf());
            assert(v0.entries.remove(e as int)[0].wf()) by {
                if e == 0 {
                    assert(v0.entries[1].wf());
                } else {
                    assert(v0.entries[0].wf());
                }
            }
        }
        let marker = self.bump();
        let src = self.take(e);
        let mut dst = self.take(0);
        proof {
            src.unfold();
            dst.unfold();
        }
        let orientation = joint_orientation(dst.data.output.geometry.size);
        let moved = PartitionTree::merge_trees(src.tree, &mut dst.tree, orientation, marker);
        let dst = Entry { data: dst.data, tree: dst.tree };
        proof {
            dst.unfold();
        }
        self.put(0, dst);
        proof {
            let mid = self@;
            let rest = v0.entries.remove(e as int);
            assert(mid.entries =~= rest.update(
                0,
                EntryView { tree: mid.entries[0].tree, ..rest[0] },
            ));
            assert forall|i: int, j: int|
                0 <= i < mid.entries.len() && 0 <= j < mid.entries.len() && i != j implies (
            #[trigger] mid.entries[i]).output.id != (#[trigger] mid.entries[j]).output.id by {
                let a = if i < e { i } else { i + 1 };
                let b = if j < e { j } else { j + 1 };
                assert(v0.entries[a].output.id != v0.entries[b].output.id);
            }
            assert forall|i: int| 0 <= i < mid.entries.len() implies (#[trigger] mid.entries[i]).wf() by {
                let a = if i < e { i } else { i + 1 };
                assert(v0.entries[a].wf());
            }
            assert(v0.output_removed(mid, e as int, moved@));
        }
        let ghost mid = self@;
        let out = self.refresh_trees(states);
        update_handles(windows, &moved, states);
        proof {
            assert(v0.output_removed(mid, v0.position(output.id), moved@) && mid.wf()
                && mid.refreshed(self@, states@) && out@ == mid.refresh_requests(self@, states@));
        }
        (moved, out)
    }

    /// Makes sure that the output of `data` is registered, and returns the
    /// position of its entry.
    fn ensure_output(&mut self, data: OutputData) -> (d: usize)
        requires
            old(self).wf(),
            data.output.wf(),
            data.location.wf(),
        ensures
            final(self).wf(),
            final(self)@ == old(self)@.with_output(data.output, data.location),
            d < final(self)@.entries.len(),
            d == final(self)@.position(data.output.id),
            final(self)@.entries[d as int].output.id == data.output.id,
    {
        match self.find(data.output.id) {
            Some(d) => d,
            None => {
                proof {
                    self.unfold();
                }
                let ghost v0 = self@;
                self.trees.push(Entry { data, tree: PartitionTree::new() });
                proof {
                    self.unfold();
                    let v = self@;
                    let n = v0.entries.len() as int;
                    assert(v.entries =~= v0.entries.push(
                        EntryView {
                            output: data.output,
                            location: data.location,
                            tree: TreeView::empty(),
                        },
                    ));
                    assert forall|i: int, j: int|
                        0 <= i < v.entries.len() && 0 <= j < v.entries.len() && i != j implies (
                    #[trigger] v.entries[i]).output.id != (#[trigger] v.entries[j]).output.id by {
                        if i < n && j < n {
                            assert(v0.entries[i].output.id != v0.entries[j].output.id);
                        } else if i < n {
                            assert(v0.entries[i].output.id != data.output.id);
                        } else {
                            assert(v0.entries[j].output.id != data.output.id);
                        }
                    }
                    assert forall|i: int| 0 <= i < v.entries.len() implies (#[trigger] v.entries[i]).wf() by {
                        if i < n {
                            assert(v0.entries[i].wf());
                        }
                    }
                    assert(v.entries[n].output.id == data.output.id);
                    let p = v.position(data.output.id);
                    if p != n {
                        assert(v.entries[p].output.id != v.entries[n].output.id);
                    }
                }
                self.trees.len() - 1
            },
        }
    }

    /// Merges one entry of another layout into this one.
    fn absorb(&mut self, entry: Entry) -> (moved: Vec<Relocation>)
        requires
            old(self).wf(),
            entry@.wf(),
        ensures
            final(self).wf(),
            old(self)@.absorbed_one(entry@, final(self)@, moved@),
    {
        let ghost v0 = self@;
        proof {
            entry.unfold();
        }
        let d = self.ensure_output(entry.data);
        let ghost base = self@;
        assert(base.entries[d as int].wf());
        let marker = self.bump();
        let mut dst = self.take(d);
        proof {
            dst.unfold();
        }
        let orientation = joint_orientation(entry.data.output.geometry.size);
        let moved = PartitionTree::merge_trees(entry.tree, &mut dst.tree, orientation, marker);
        let ghost tree = dst.tree@;
        let dst = Entry { data: dst.data, tree: dst.tree };
        proof {
            dst.unfold();
        }
        self.put(d, dst);
        proof {
            lemma_with_tree(base, d as int, tree);
            assert(self@.entries =~= base.with_tree(d as int, tree).entries);
        }
        moved
    }

    /// Merges the trees of `other` into the trees of the same outputs of
    /// this layout, registering the outputs that are new to it, and
    /// refreshes the layout. Writes the new leaves into the slots of the
    /// handles `windows`, and returns the windows of `other` with their new
    /// leaves, and what to ask of the windows.
    pub fn merge(
        &mut self,
        other: TilingLayout,
        states: &Vec<WindowState>,
        windows: &mut Vec<Window>,
    ) -> (r: (Vec<Relocation>, Vec<Configure>))
        requires
            old(self).wf(),
            other.wf(),
        ensures
            final(self).wf(),
            handles_updated(old(windows)@, final(windows)@, r.0@, states@),
            exists|mid: LayoutView|
                #![trigger mid.refreshed(final(self)@, states@)]
                old(self)@.absorbed(other@.entries, mid, r.0@) && mid.wf() && mid.refreshed(
                    final(self)@,
                    states@,
                ) && r.1@ == mid.refresh_requests(final(self)@, states@),
    {
        let ghost v0 = self@;
        let ghost others = other@.entries;
        let mut other = other;
        let mut moved: Vec<Relocation> = Vec::new();
        let ghost mut done: int = 0;
        proof {
            assert(others.skip(0) =~= others);
            assert(others.take(0) =~= Seq::<EntryView>::empty());
        }
        while other.outputs() > 0
            invariant
                self.wf(),
                0 <= done <= others.len(),
                other@.entries == others.skip(done),
                forall|i: int| 0 <= i < others.len() ==> (#[trigger] others[i]).wf(),
                v0.absorbed(others.take(done), self@, moved@),
            decreases other@.entries.len(),
        {
            let ghost cur = self@;
            let ghost sofar = moved@;
            proof {
                assert(others.skip(done)[0] == others[done]);
                assert(others[done].wf());
            }
            let entry = other.take(0);
            let mut part = self.absorb(entry);
            let ghost added = part@;
            moved.append(&mut part);
            proof {
                assert(others.skip(done).remove(0) =~= others.skip(done + 1));
                let prefix = others.take(done + 1);
                assert(prefix.drop_last() =~= others.take(done));
                assert(prefix.last() == others[done]);
                let cut = sofar.len() as int;
                assert(moved@.take(cut) =~= sofar);
                assert(moved@.skip(cut) =~= added);
                assert(cur.absorbed_one(prefix.last(), self@, moved@.skip(cut)));
                done = done + 1;
            }
        }
        proof {
            assert(others.take(done) =~= others);
        }
        let ghost mid = self@;
        let out = self.refresh_trees(states);
        update_handles(windows, &moved, states);
        proof {
            assert(v0.absorbed(others, mid, moved@) && mid.wf() && mid.refreshed(self@, states@)
                && out@ == mid.refresh_requests(self@, states@));
        }
        (moved, out)
    }
}

} // verus!
