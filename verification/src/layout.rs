//! The layout registry: the outputs that are mapped, each with its placement
//! and its partition tree.

use vstd::prelude::*;
use id_tree::NodeId;
use crate::geometry::{Point, Rectangle, COORD_MAX};
use crate::tree::{PartitionTree, TreeView};
use crate::window::{
    handles_updated, update_handles, Configure, Relocation, Window, WindowState,
};

verus! {

/// What the layout knows of an output: its identity and a snapshot of its
/// geometry and of the part of it that panels and docks leave free.
#[derive(Clone, Copy, Debug, PartialEq, Eq, Structural)]
pub struct Output {
    /// Identity of the output; two values with the same `id` are the same
    /// output.
    pub id: u64,
    pub geometry: Rectangle,
    /// The usable area, in the output's own coordinates.
    pub usable: Rectangle,
}

impl Output {
    /// The usable area is a well-formed rectangle.
    pub open spec fn wf(self) -> bool {
        self.usable.wf()
    }
}

/// An output with the offset at which it is placed among the outputs.
#[derive(Clone, Copy, Debug, PartialEq, Eq, Structural)]
pub struct OutputData {
    pub output: Output,
    pub location: Point,
}

/// The failure of a query that names an output the registry does not hold.
#[derive(Clone, Copy, Debug, PartialEq, Eq, Structural)]
pub struct OutputNotMapped;

/// One registered output with its tree.
pub struct Entry {
    pub(crate) data: OutputData,
    pub(crate) tree: PartitionTree,
}

/// The tiling layout of a set of outputs.
pub struct TilingLayout {
    pub(crate) gaps: (i32, i32),
    pub(crate) trees: Vec<Entry>,
    pub(crate) markers: u64,
}

/// Mathematical value of a registry entry.
pub struct EntryView {
    pub output: Output,
    pub location: Point,
    pub tree: TreeView,
}

/// Mathematical value of a [`TilingLayout`].
pub struct LayoutView {
    /// Outer and inner gap.
    pub gaps: (i32, i32),
    /// The registered outputs, in the order in which they were registered.
    pub entries: Seq<EntryView>,
    /// The marker that the next new group gets.
    pub markers: u64,
}

impl View for Entry {
    type V = EntryView;

    closed spec fn view(&self) -> EntryView {
        EntryView { output: self.data.output, location: self.data.location, tree: self.tree@ }
    }
}

impl View for TilingLayout {
    type V = LayoutView;

    closed spec fn view(&self) -> LayoutView {
        LayoutView {
            gaps: self.gaps,
            entries: Seq::new(self.trees@.len(), |i: int| self.trees@[i]@),
            markers: self.markers,
        }
    }
}

impl Entry {
    /// What the view is made of.
    pub(crate) proof fn unfold(&self)
        ensures
            self@.output == self.data.output,
            self@.location == self.data.location,
            self@.tree == self.tree@,
    {
    }
}

impl EntryView {
    pub open spec fn wf(self) -> bool {
        &&& self.output.wf()
        &&& self.location.wf()
        &&& self.tree.wf()
    }
}

impl LayoutView {
    /// Some entry is for the output `id`.
    pub open spec fn registered(self, id: u64) -> bool {
        exists|i: int| 0 <= i < self.entries.len() && #[trigger] self.entries[i].output.id == id
    }

    /// Position of the entry for the output `id`.
    pub open spec fn position(self, id: u64) -> int {
        choose|i: int| 0 <= i < self.entries.len() && #[trigger] self.entries[i].output.id == id
    }

    /// No two entries are for the same output.
    pub open spec fn distinct(self) -> bool {
        forall|i: int, j: int|
            0 <= i < self.entries.len() && 0 <= j < self.entries.len() && i != j ==> (
            #[trigger] self.entries[i]).output.id != (#[trigger] self.entries[j]).output.id
    }

    /// The invariant of a layout: the outer gap is 0 and the inner gap 4,
    /// every output is registered once, and every entry is well formed.
    pub open spec fn wf(self) -> bool {
        &&& self.gaps == (0i32, 4i32)
        &&& self.distinct()
        &&& forall|i: int| 0 <= i < self.entries.len() ==> (#[trigger] self.entries[i]).wf()
    }

    /// The rectangle that the root of tree `i` is to have: the usable area
    /// of the output, less the outer gap on every side.
    pub open spec fn target(self, i: int) -> Rectangle {
        self.entries[i].output.usable.shrunk(self.gaps.0 as int)
    }

    /// This layout without the leaves of the windows that are reported
    /// dead.
    pub open spec fn swept(self, states: Seq<WindowState>) -> LayoutView {
        LayoutView {
            entries: Seq::new(
                self.entries.len(),
                |i: int|
                    EntryView {
                        tree: self.entries[i].tree.without_dead(states),
                        ..self.entries[i]
                    },
            ),
            ..self
        }
    }

    /// `after` is this layout after a layout pass: every tree has had its
    /// pass for its target, and nothing else has changed.
    pub open spec fn positioned(self, after: LayoutView) -> bool {
        &&& after.gaps == self.gaps
        &&& after.markers == self.markers
        &&& after.entries.len() == self.entries.len()
        &&& forall|i: int|
            0 <= i < self.entries.len() ==> (#[trigger] after.entries[i]).output
                == self.entries[i].output && after.entries[i].location == self.entries[i].location
                && self.entries[i].tree.positioned(after.entries[i].tree, self.target(i))
    }

    /// The requests that the passes over the first `n` trees leave, tree
    /// after tree.
    pub open spec fn requests_upto(
        self,
        after: LayoutView,
        states: Seq<WindowState>,
        n: int,
    ) -> Seq<Configure>
        decreases n,
    {
        if n <= 0 {
            Seq::empty()
        } else {
            self.requests_upto(after, states, n - 1) + self.entries[n - 1].tree.position_requests(
                after.entries[n - 1].tree,
                self.target(n - 1),
                states,
                self.gaps.1 as int,
            )
        }
    }

    /// The requests that a layout pass from this layout to `after` leaves.
    pub open spec fn position_requests(self, after: LayoutView, states: Seq<WindowState>) -> Seq<
        Configure,
    > {
        self.requests_upto(after, states, self.entries.len() as int)
    }

    /// `after` is this layout refreshed: first the leaves of dead windows
    /// go, then comes the layout pass.
    pub open spec fn refreshed(self, after: LayoutView, states: Seq<WindowState>) -> bool {
        self.swept(states).positioned(after)
    }

    /// The requests that refreshing this layout into `after` leaves.
    pub open spec fn refresh_requests(self, after: LayoutView, states: Seq<WindowState>) -> Seq<
        Configure,
    > {
        self.swept(states).position_requests(after, states)
    }
}

impl TilingLayout {
    /// What the view is made of.
    pub(crate) proof fn unfold(&self)
        ensures
            self@.gaps == self.gaps,
            self@.markers == self.markers,
            self@.entries.len() == self.trees@.len(),
            forall|i: int|
                0 <= i < self.trees@.len() ==> (#[trigger] self@.entries[i]).output
                    == self.trees@[i].data.output && self@.entries[i].location
                    == self.trees@[i].data.location && self@.entries[i].tree == self.trees@[i].tree@
                    && self@.entries[i] == self.trees@[i]@,
    {
    }

    /// The invariant holds.
    pub open spec fn wf(&self) -> bool {
        self@.wf()
    }

    /// A layout without outputs, with an outer gap of 0 and an inner gap of
    /// 4.
    pub fn new() -> (layout: TilingLayout)
        ensures
            layout.wf(),
            layout@.entries.len() == 0,
            layout@.markers == 0,
    {
        TilingLayout { gaps: (0, 4), trees: Vec::new(), markers: 0 }
    }

    /// Position of the entry for `output`, if it is registered.
    pub(crate) fn find(&self, output: u64) -> (at: Option<usize>)
        requires
            self.wf(),
        ensures
            at.is_some() == self@.registered(output),
            at.is_some() ==> at.unwrap() == self@.position(output) && at.unwrap()
                < self@.entries.len() && self@.entries[at.unwrap() as int].output.id == output,
    {
        proof {
            self.unfold();
        }
        let mut i: usize = 0;
        while i < self.trees.len()
            invariant
                i <= self.trees.len(),
                self.wf(),
                self@.entries.len() == self.trees@.len(),
                forall|j: int|
                    0 <= j < self.trees@.len() ==> (#[trigger] self@.entries[j]).output
                        == self.trees@[j].data.output,
                forall|j: int| 0 <= j < i ==> (#[trigger] self@.entries[j]).output.id != output,
            decreases self.trees.len() - i,
        {
            if self.trees[i].data.output.id == output {
                proof {
                    let p = self@.position(output);
                    assert(self@.entries[i as int].output.id == output);
                    assert(self@.entries[p].output.id == output);
                }
                return Some(i);
            }
            i = i + 1;
        }
        None
    }

    /// Whether `output` is registered.
    pub fn is_registered(&self, output: &Output) -> (b: bool)
        requires
            self.wf(),
        ensures
            b == self@.registered(output.id),
    {
        self.find(output.id).is_some()
    }

    /// Number of registered outputs.
    pub fn outputs(&self) -> (n: usize)
        ensures
            n == self@.entries.len(),
    {
        self.trees.len()
    }

    /// Registers `output` at `location`, with an empty tree. If the output is
    /// registered already, its entry takes the new snapshot and location and
    /// keeps its tree and its place.
    pub fn map_output(&mut self, output: &Output, location: Point)
        requires
            old(self).wf(),
            output.wf(),
            location.wf(),
        ensures
            final(self).wf(),
            final(self)@.gaps == old(self)@.gaps,
            final(self)@.markers == old(self)@.markers,
            old(self)@.registered(output.id) ==> final(self)@.entries == old(self)@.entries.update(
                old(self)@.position(output.id),
                EntryView {
                    output: *output,
                    location,
                    tree: old(self)@.entries[old(self)@.position(output.id)].tree,
                },
            ),
            !old(self)@.registered(output.id) ==> final(self)@.entries.len() == old(self)@.entries.len() + 1 && final(self)@.entries.drop_last() == old(self)@.entries
                && final(self)@.entries.last().output == *output && final(self)@.entries.last().location == location && final(self)@.entries.last().tree.is_empty()
                && final(self)@.entries.last().tree.nodes == crate::arena::no_nodes(),
    {
        proof {
            self.unfold();
        }
        let ghost v0 = self@;
        let data = OutputData { output: *output, location };
        match self.find(output.id) {
            Some(at) => {
                let entry = self.trees.remove(at);
                self.trees.insert(at, Entry { data, tree: entry.tree });
                proof {
                    self.unfold();
                    assert(self@.entries =~= v0.entries.update(
                        at as int,
                        EntryView { output: *output, location, tree: v0.entries[at as int].tree },
                    ));
                    assert forall|i: int, j: int|
                        0 <= i < self@.entries.len() && 0 <= j < self@.entries.len() && i
                            != j implies (#[trigger] self@.entries[i]).output.id != (
                    #[trigger] self@.entries[j]).output.id by {
                        assert(v0.entries[i].output.id != v0.entries[j].output.id);
                    }
                    assert forall|i: int| 0 <= i < self@.entries.len() implies (
                    #[trigger] self@.entries[i]).wf() by {
                        assert(v0.entries[i].wf());
                    }
                }
            },
            None => {
                self.trees.push(Entry { data, tree: PartitionTree::new() });
                proof {
                    self.unfold();
                    assert(self@.entries.drop_last() =~= v0.entries);
                    let n = v0.entries.len() as int;
                    assert forall|i: int, j: int|
                        0 <= i < self@.entries.len() && 0 <= j < self@.entries.len() && i
                            != j implies (#[trigger] self@.entries[i]).output.id != (
                    #[trigger] self@.entries[j]).output.id by {
                        if i < n && j < n {
                            assert(v0.entries[i].output.id != v0.entries[j].output.id);
                        } else if i < n {
                            assert(v0.entries[i].output.id != output.id);
                        } else {
                            assert(v0.entries[j].output.id != output.id);
                        }
                    }
                    assert forall|i: int| 0 <= i < self@.entries.len() implies (
                    #[trigger] self@.entries[i]).wf() by {
                        if i < n {
                            assert(v0.entries[i].wf());
                        }
                    }
                }
            },
        }
    }

    /// The rectangle that the root of a tree on `output` is to have.
    pub(crate) fn target_of(&self, output: &Output) -> (target: Rectangle)
        requires
            self@.gaps.0 == 0,
            output.wf(),
        ensures
            target == output.usable.shrunk(self@.gaps.0 as int),
            target.wf(),
    {
        proof {
            self.unfold();
        }
        let outer: i32 = self.gaps.0;
        let geo = output.usable;
        Rectangle {
            loc: Point { x: geo.loc.x + outer, y: geo.loc.y + outer },
            size: crate::geometry::Size { w: geo.size.w - outer * 2, h: geo.size.h - outer * 2 },
        }
    }

    /// Removes the leaves of the windows that are reported dead.
    pub(crate) fn sweep_trees(&mut self, states: &Vec<WindowState>)
        requires
            old(self).wf(),
        ensures
            final(self).wf(),
            final(self)@ == old(self)@.swept(states@),
    {
        proof {
            self.unfold();
        }
        let ghost v0 = self@;
        let mut i: usize = 0;
        while i < self.trees.len()
            invariant
                i <= self.trees.len(),
                v0.wf(),
                self@.gaps == v0.gaps,
                self@.markers == v0.markers,
                self@.entries.len() == v0.entries.len(),
                self.trees@.len() == v0.entries.len(),
                forall|j: int| 0 <= j < i ==> #[trigger] self@.entries[j] == v0.swept(states@).entries[j],
                forall|j: int| 0 <= j < i ==> (#[trigger] self@.entries[j]).tree.wf(),
                forall|j: int| i <= j < v0.entries.len() ==> #[trigger] self@.entries[j] == v0.entries[j],
            decreases self.trees.len() - i,
        {
            let ghost before = self@;
            proof {
                self.unfold();
                assert(v0.entries[i as int].wf());
                assert(before.entries[i as int] == v0.entries[i as int]);
            }
            let mut entry = self.trees.remove(i);
            entry.tree.sweep(states);
            self.trees.insert(i, entry);
            proof {
                self.unfold();
                let now = self@;
                assert forall|j: int| 0 <= j < v0.entries.len() && j != i implies #[trigger] now.entries[j]
                    == before.entries[j] by {}
            }
            i = i + 1;
        }
        proof {
            let w = v0.swept(states@);
            assert(self@.entries =~= w.entries);
            assert forall|a: int, b: int|
                0 <= a < w.entries.len() && 0 <= b < w.entries.len() && a != b implies (
            #[trigger] w.entries[a]).output.id != (#[trigger] w.entries[b]).output.id by {
                assert(v0.entries[a].output.id != v0.entries[b].output.id);
            }
            assert forall|a: int| 0 <= a < w.entries.len() implies (#[trigger] w.entries[a]).wf() by {
                assert(v0.entries[a].wf());
                assert(self@.entries[a].tree.wf());
            }
        }
    }

    /// Lays out every tree whose root does not have its target rectangle
    /// yet: the usable area of its output, less the outer gap. Returns what
    /// to ask of the windows.
    pub fn update_space_positions(&mut self, states: &Vec<WindowState>) -> (out: Vec<Configure>)
        requires
            old(self).wf(),
        ensures
            final(self).wf(),
            old(self)@.positioned(final(self)@),
            out@ == old(self)@.position_requests(final(self)@, states@),
    {
        proof {
            self.unfold();
        }
        let ghost v0 = self@;
        let mut out: Vec<Configure> = Vec::new();
        let mut i: usize = 0;
        while i < self.trees.len()
            invariant
                i <= self.trees.len(),
                v0.wf(),
                self@.gaps == v0.gaps,
                self@.markers == v0.markers,
                self@.entries.len() == v0.entries.len(),
                self.trees@.len() == v0.entries.len(),
                forall|j: int|
                    0 <= j < i ==> (#[trigger] self@.entries[j]).output == v0.entries[j].output
                        && self@.entries[j].location == v0.entries[j].location
                        && v0.entries[j].tree.positioned(self@.entries[j].tree, v0.target(j))
                        && self@.entries[j].tree.wf(),
                forall|j: int| i <= j < v0.entries.len() ==> #[trigger] self@.entries[j] == v0.entries[j],
                out@ == v0.requests_upto(self@, states@, i as int),
            decreases self.trees.len() - i,
        {
            let ghost before = self@;
            proof {
                self.unfold();
                assert(v0.entries[i as int].wf());
                assert(before.entries[i as int] == v0.entries[i as int]);
            }
            let mut entry = self.trees.remove(i);
            let target = self.target_of(&entry.data.output);
            let inner: i32 = self.gaps.1;
            let mut requests = entry.tree.update_space_positions(target, states, inner);
            let ghost added = requests@;
            let ghost sofar = out@;
            out.append(&mut requests);
            self.trees.insert(i, entry);
            proof {
                self.unfold();
                let now = self@;
                assert forall|j: int| 0 <= j < v0.entries.len() && j != i implies #[trigger] now.entries[j]
                    == before.entries[j] by {}
                lemma_requests_frame(v0, before, now, states@, i as int);
                assert(out@ =~= sofar + added);
            }
            i = i + 1;
        }
        proof {
            let v = self@;
            assert forall|a: int, b: int|
                0 <= a < v.entries.len() && 0 <= b < v.entries.len() && a != b implies (
            #[trigger] v.entries[a]).output.id != (#[trigger] v.entries[b]).output.id by {
                assert(v0.entries[a].output.id != v0.entries[b].output.id);
            }
            assert forall|a: int| 0 <= a < v.entries.len() implies (#[trigger] v.entries[a]).wf() by {
                assert(v0.entries[a].wf());
            }
        }
        out
    }

    /// Removes the leaves of windows that are reported dead, then lays out
    /// every tree whose root does not have its target rectangle yet.
    pub(crate) fn refresh_trees(&mut self, states: &Vec<WindowState>) -> (out: Vec<Configure>)
        requires
            old(self).wf(),
        ensures
            final(self).wf(),
            old(self)@.refreshed(final(self)@, states@),
            out@ == old(self)@.refresh_requests(final(self)@, states@),
    {
        self.sweep_trees(states);
        self.update_space_positions(states)
    }

    /// Removes the leaves of the windows that are reported dead, and empties
    /// the slots of those among the handles `windows`.
    pub fn sweep(&mut self, states: &Vec<WindowState>, windows: &mut Vec<Window>)
        requires
            old(self).wf(),
        ensures
            final(self).wf(),
            final(self)@ == old(self)@.swept(states@),
            handles_updated(old(windows)@, final(windows)@, Seq::empty(), states@),
    {
        self.sweep_trees(states);
        let none: Vec<Relocation> = Vec::new();
        proof {
            assert(none@ =~= Seq::<Relocation>::empty());
        }
        update_handles(windows, &none, states);
    }

    /// Removes the leaves of windows that are reported dead, then lays out
    /// every tree whose root does not have its target rectangle yet. The
    /// slots of the dead windows among the handles `windows` are emptied.
    /// Returns what to ask of the windows.
    pub fn refresh(&mut self, states: &Vec<WindowState>, windows: &mut Vec<Window>) -> (out: Vec<
        Configure,
    >)
        requires
            old(self).wf(),
        ensures
            final(self).wf(),
            old(self)@.refreshed(final(self)@, states@),
            out@ == old(self)@.refresh_requests(final(self)@, states@),
            handles_updated(old(windows)@, final(windows)@, Seq::empty(), states@),
    {
        let out = self.refresh_trees(states);
        let none: Vec<Relocation> = Vec::new();
        proof {
            assert(none@ =~= Seq::<Relocation>::empty());
        }
        update_handles(windows, &none, states);
        out
    }
}

/// The requests of the first `n` trees do not depend on the trees after
/// them.
pub proof fn lemma_requests_frame(
    v0: LayoutView,
    a: LayoutView,
    b: LayoutView,
    states: Seq<WindowState>,
    n: int,
)
    requires
        forall|j: int| 0 <= j < n ==> #[trigger] a.entries[j] == b.entries[j],
    ensures
        v0.requests_upto(a, states, n) == v0.requests_upto(b, states, n),
    decreases n,
{
    if n > 0 {
        lemma_requests_frame(v0, a, b, states, n - 1);
        assert(a.entries[n - 1] == b.entries[n - 1]);
    }
}

} // verus!
