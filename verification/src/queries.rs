//! Read-only questions to a layout: where windows are, which output holds
//! them, and where a focus request leads.

use vstd::prelude::*;
use id_tree::NodeId;
use crate::arena::{keys, node_key};
use crate::focus::{FocusView, TreeFocus};
use crate::geometry::{FocusDirection, Point, Rectangle};
use crate::layout::{Entry, EntryView, LayoutView, Output, OutputNotMapped, TilingLayout};
use crate::scale::{physical, to_physical};
use crate::traverse::lemma_leaves_under;
use crate::tree::{PartitionTree, TreeView};
use crate::window::Window;

verus! {

/// A tiled window with its output and its position among the outputs.
#[derive(Clone, Copy, Debug, PartialEq, Eq, Structural)]
pub struct Tiled {
    pub output: Output,
    pub window: u64,
    pub location: Point,
}

/// A part of a window: a surface with its offset from the window's position.
#[derive(Clone, Copy, Debug, PartialEq, Eq, Structural)]
pub struct Surface {
    /// The window that the surface belongs to.
    pub window: u64,
    pub surface: u64,
    pub offset: Point,
}

/// A surface of a tiled window with its output and its position among the
/// outputs.
#[derive(Clone, Copy, Debug, PartialEq, Eq, Structural)]
pub struct Placed {
    pub output: Output,
    pub surface: u64,
    pub location: Point,
}

/// A window to draw on an output, with its position in physical
/// coordinates.
#[derive(Clone, Copy, Debug, PartialEq, Eq, Structural)]
pub struct Drawn {
    pub window: u64,
    pub location: Point,
}

/// A group as a focus target: its node, its output, and the marker that the
/// group had when the target was made. The target is stale once the layout
/// holds no group with this marker under this node.
#[derive(Debug)]
pub struct WindowGroup {
    pub node: NodeId,
    pub output: u64,
    pub alive: u64,
}

/// Where a focus request leads.
#[derive(Debug)]
pub enum FocusTarget {
    Window(u64),
    Group(WindowGroup),
}

/// Mathematical value of a [`FocusTarget`].
pub enum FocusTargetView {
    Window(u64),
    Group { node: int, output: u64, alive: u64 },
}

impl View for FocusTarget {
    type V = FocusTargetView;

    open spec fn view(&self) -> FocusTargetView {
        match *self {
            FocusTarget::Window(w) => FocusTargetView::Window(w),
            FocusTarget::Group(g) => FocusTargetView::Group {
                node: node_key(g.node),
                output: g.output,
                alive: g.alive,
            },
        }
    }
}

/// `a` moved by `b`.
pub open spec fn moved_by(a: Point, b: Point) -> Point {
    Point { x: (a.x + b.x) as i32, y: (a.y + b.y) as i32 }
}

impl EntryView {
    /// The window of the leaf `k` with its position among the outputs.
    pub open spec fn tiled(self, k: int) -> Tiled {
        Tiled {
            output: self.output,
            window: self.tree.window_at(k),
            location: moved_by(self.location, self.tree.data(k).geometry().loc),
        }
    }

    /// The windows of this output, in the order of the leaves.
    pub open spec fn mapped(self) -> Seq<Tiled> {
        Seq::new(self.tree.leaves().len(), |i: int| self.tiled(self.tree.leaves()[i]))
    }
}

/// The surfaces among `surfaces` that belong to the window of `item`, in
/// order, each at its offset from the window's position.
pub open spec fn surfaces_of(item: Tiled, surfaces: Seq<Surface>) -> Seq<Placed>
    decreases surfaces.len(),
{
    if surfaces.len() == 0 {
        Seq::empty()
    } else {
        let front = surfaces_of(item, surfaces.drop_last());
        if surfaces.last().window == item.window {
            front.push(
                Placed {
                    output: item.output,
                    surface: surfaces.last().surface,
                    location: moved_by(surfaces.last().offset, item.location),
                },
            )
        } else {
            front
        }
    }
}

/// The surfaces of all `items`, item after item.
pub open spec fn surfaces_of_all(items: Seq<Tiled>, surfaces: Seq<Surface>) -> Seq<Placed>
    decreases items.len(),
{
    if items.len() == 0 {
        Seq::empty()
    } else {
        surfaces_of_all(items.drop_last(), surfaces) + surfaces_of(items.last(), surfaces)
    }
}

/// Those of `items` that are on the output `output`, in order, at the
/// physical position that the scale gives them.
pub open spec fn drawn_on(items: Seq<Tiled>, output: u64, scale: i32) -> Seq<Drawn>
    decreases items.len(),
{
    if items.len() == 0 {
        Seq::empty()
    } else {
        let front = drawn_on(items.drop_last(), output, scale);
        if items.last().output.id == output {
            front.push(
                Drawn { window: items.last().window, location: physical(items.last().location, scale) },
            )
        } else {
            front
        }
    }
}

impl LayoutView {
    /// The windows of the first `n` outputs.
    pub open spec fn mapped_upto(self, n: int) -> Seq<Tiled>
        decreases n,
    {
        if n <= 0 {
            Seq::empty()
        } else {
            self.mapped_upto(n - 1) + self.entries[n - 1].mapped()
        }
    }

    /// All tiled windows: output after output, and for each output in the
    /// order of its leaves.
    pub open spec fn mapped(self) -> Seq<Tiled> {
        self.mapped_upto(self.entries.len() as int)
    }

    /// The first entry from `from` on whose tree has a leaf of `window`.
    pub open spec fn holder_from(self, window: u64, from: int) -> Option<int>
        decreases self.entries.len() - from,
    {
        if from < 0 || from >= self.entries.len() {
            None
        } else if self.entries[from].tree.leaf_of(window).is_some() {
            Some(from)
        } else {
            self.holder_from(window, from + 1)
        }
    }

    /// The entry of the output on which `window` is tiled.
    pub open spec fn holder(self, window: u64) -> Option<int> {
        self.holder_from(window, 0)
    }

    /// The rectangle of `window` among the outputs, if the window is tiled
    /// and `slot` names its leaf.
    pub open spec fn geometry_of(self, window: u64, slot: Option<int>) -> Option<Rectangle> {
        match (slot, self.holder(window)) {
            (Some(k), Some(e)) => {
                let tree = self.entries[e].tree;
                if tree.contains(k) && tree.data(k).is_leaf_of(window) {
                    Some(
                        Rectangle {
                            loc: moved_by(tree.data(k).geometry().loc, self.entries[e].location),
                            size: tree.data(k).geometry().size,
                        },
                    )
                } else {
                    None
                }
            },
            _ => None,
        }
    }

    /// The most recently focused window of `stack` that is tiled on entry
    /// `e`.
    pub open spec fn last_active(self, e: int, stack: Seq<u64>) -> Option<u64> {
        match self.entries[e].tree.last_active(stack) {
            Some(i) => Some(stack[i]),
            None => None,
        }
    }

    /// Where a focus request in `direction` leads on entry `e`.
    ///
    /// The search starts at the most recently focused window of `stack` that
    /// is tiled there. There is no target if there is no such window, or if
    /// that window handles the request itself.
    pub open spec fn focus(
        self,
        e: int,
        stack: Seq<u64>,
        direction: FocusDirection,
        handled: bool,
    ) -> Option<FocusTargetView> {
        let tree = self.entries[e].tree;
        match tree.last_active(stack) {
            None => None,
            Some(i) => if handled {
                None
            } else {
                match tree.focus_from(tree.leaf_of(stack[i]).unwrap(), direction) {
                    Some(FocusView::Leaf { node, window }) => Some(FocusTargetView::Window(window)),
                    Some(FocusView::Group { node, alive }) => Some(
                        FocusTargetView::Group { node, output: self.entries[e].output.id, alive },
                    ),
                    None => None,
                }
            },
        }
    }

    /// A group focus target still names a group of this layout.
    pub open spec fn group_alive(self, node: int, output: u64, alive: u64) -> bool {
        self.registered(output) && {
            let tree = self.entries[self.position(output)].tree;
            tree.contains(node) && tree.data(node).is_group() && tree.data(node).marker() == alive
        }
    }
}

impl Entry {
    /// The windows of this output; see [`EntryView::mapped`].
    pub(crate) fn mapped(&self) -> (out: Vec<Tiled>)
        requires
            self@.wf(),
        ensures
            out@ == self@.mapped(),
    {
        proof {
            self.unfold();
        }
        let leaves = self.tree.leaves();
        let ghost all = self@.tree.leaves();
        proof {
            match self@.tree.root {
                Some(r) => lemma_leaves_under(self@.tree, r),
                None => {},
            }
        }
        let mut out: Vec<Tiled> = Vec::new();
        let mut i: usize = 0;
        while i < leaves.len()
            invariant
                i <= leaves.len(),
                self@.wf(),
                all == keys(leaves@),
                all == self@.tree.leaves(),
                all.len() == leaves@.len(),
                self@.tree == self.tree@,
                self@.output == self.data.output,
                self@.location == self.data.location,
                forall|j: int|
                    0 <= j < all.len() ==> self@.tree.contains(#[trigger] all[j]) && self@.tree.data(
                        all[j],
                    ).is_leaf(),
                out@.len() == i,
                forall|j: int| 0 <= j < i ==> #[trigger] out@[j] == self@.tiled(all[j]),
            decreases leaves.len() - i,
        {
            proof {
                assert(all[i as int] == node_key(leaves@[i as int]));
                assert(self@.tree.contains(all[i as int]));
                assert(self@.tree.shaped_at(all[i as int]));
            }
            match self.tree.get(&leaves[i]) {
                Some(data) => match data.window() {
                    Some(window) => {
                        let loc = data.geometry().loc;
                        out.push(
                            Tiled {
                                output: self.data.output,
                                window,
                                location: Point {
                                    x: self.data.location.x + loc.x,
                                    y: self.data.location.y + loc.y,
                                },
                            },
                        );
                    },
                    None => {},
                },
                None => {},
            }
            i = i + 1;
        }
        proof {
            assert(out@ =~= self@.mapped());
        }
        out
    }
}

impl TilingLayout {
    /// All tiled windows with their output and their position among the
    /// outputs; see [`LayoutView::mapped`].
    pub fn mapped(&self) -> (out: Vec<Tiled>)
        requires
            self.wf(),
        ensures
            out@ == self@.mapped(),
    {
        proof {
            self.unfold();
        }
        let mut out: Vec<Tiled> = Vec::new();
        let mut i: usize = 0;
        while i < self.trees.len()
            invariant
                i <= self.trees.len(),
                self.wf(),
                self@.entries.len() == self.trees@.len(),
                forall|j: int| 0 <= j < self.trees@.len() ==> #[trigger] self@.entries[j] == self.trees@[j]@,
                out@ == self@.mapped_upto(i as int),
            decreases self.trees.len() - i,
        {
            proof {
                assert(self@.entries[i as int].wf());
            }
            let mut part = self.trees[i].mapped();
            out.append(&mut part);
            i = i + 1;
        }
        out
    }

    /// The surfaces of all tiled windows with their output and their
    /// position among the outputs. `surfaces` lists the surfaces of the
    /// windows, each with its offset from its window's position.
    pub fn windows(&self, surfaces: &Vec<Surface>) -> (out: Vec<Placed>)
        requires
            self.wf(),
            forall|i: int| 0 <= i < surfaces@.len() ==> (#[trigger] surfaces@[i]).offset.wf(),
        ensures
            out@ == surfaces_of_all(self@.mapped(), surfaces@),
    {
        let items = self.mapped();
        proof {
            lemma_mapped_bounded(self@, self@.entries.len() as int);
            assert(items@.take(0) =~= Seq::<Tiled>::empty());
        }
        let mut out: Vec<Placed> = Vec::new();
        let mut i: usize = 0;
        while i < items.len()
            invariant
                i <= items.len(),
                forall|j: int| 0 <= j < surfaces@.len() ==> (#[trigger] surfaces@[j]).offset.wf(),
                forall|j: int|
                    0 <= j < items@.len() ==> -2 * crate::geometry::COORD_MAX <= (
                    #[trigger] items@[j]).location.x <= 2 * crate::geometry::COORD_MAX && -2
                        * crate::geometry::COORD_MAX <= items@[j].location.y <= 2
                        * crate::geometry::COORD_MAX,
                out@ == surfaces_of_all(items@.take(i as int), surfaces@),
            decreases items.len() - i,
        {
            let item = items[i];
            let ghost sofar = out@;
            proof {
                assert(items@.take(i + 1).drop_last() =~= items@.take(i as int));
                assert(items@.take(i + 1).last() == item);
                assert(surfaces@.take(0) =~= Seq::<Surface>::empty());
            }
            let mut j: usize = 0;
            while j < surfaces.len()
                invariant
                    j <= surfaces.len(),
                    forall|a: int| 0 <= a < surfaces@.len() ==> (#[trigger] surfaces@[a]).offset.wf(),
                    -2 * crate::geometry::COORD_MAX <= item.location.x <= 2 * crate::geometry::COORD_MAX,
                    -2 * crate::geometry::COORD_MAX <= item.location.y <= 2 * crate::geometry::COORD_MAX,
                    out@ == sofar + surfaces_of(item, surfaces@.take(j as int)),
                decreases surfaces.len() - j,
            {
                proof {
                    assert(surfaces@.take(j + 1).drop_last() =~= surfaces@.take(j as int));
                    assert(surfaces@.take(j + 1).last() == surfaces@[j as int]);
                    assert(surfaces@[j as int].offset.wf());
                }
                let surface = surfaces[j];
                if surface.window == item.window {
                    let ghost before = surfaces_of(item, surfaces@.take(j as int));
                    out.push(
                        Placed {
                            output: item.output,
                            surface: surface.surface,
                            location: Point {
                                x: surface.offset.x + item.location.x,
                                y: surface.offset.y + item.location.y,
                            },
                        },
                    );
                    proof {
                        assert(out@ =~= sofar + before.push(
                            Placed {
                                output: item.output,
                                surface: surface.surface,
                                location: moved_by(surface.offset, item.location),
                            },
                        ));
                    }
                }
                j = j + 1;
            }
            proof {
                assert(surfaces@.take(j as int) =~= surfaces@);
            }
            i = i + 1;
        }
        proof {
            assert(items@.take(i as int) =~= items@);
        }
        out
    }

    /// The windows to draw on `output` at the integer scale `scale`, each
    /// with its physical position; fails if the output is not registered.
    pub fn render_output(&self, output: &Output, scale: i32) -> (r: Result<Vec<Drawn>, OutputNotMapped>)
        requires
            self.wf(),
        ensures
            r.is_ok() == self@.registered(output.id),
            r.is_ok() ==> r.unwrap()@ == drawn_on(self@.mapped(), output.id, scale),
    {
        if self.find(output.id).is_none() {
            return Err(OutputNotMapped);
        }
        let items = self.mapped();
        proof {
            assert(items@.take(0) =~= Seq::<Tiled>::empty());
        }
        let mut out: Vec<Drawn> = Vec::new();
        let mut i: usize = 0;
        while i < items.len()
            invariant
                i <= items.len(),
                out@ == drawn_on(items@.take(i as int), output.id, scale),
            decreases items.len() - i,
        {
            proof {
                assert(items@.take(i + 1).drop_last() =~= items@.take(i as int));
                assert(items@.take(i + 1).last() == items@[i as int]);
            }
            let item = items[i];
            if item.output.id == output.id {
                out.push(Drawn { window: item.window, location: to_physical(item.location, scale) });
            }
            i = i + 1;
        }
        proof {
            assert(items@.take(i as int) =~= items@);
        }
        Ok(out)
    }

    /// Position of the first entry whose tree has a leaf of `window`.
    pub(crate) fn holder(&self, window: u64) -> (at: Option<usize>)
        requires
            self.wf(),
        ensures
            match at {
                Some(e) => self@.holder(window) == Some(e as int) && e < self@.entries.len(),
                None => self@.holder(window).is_none(),
            },
    {
        proof {
            self.unfold();
        }
        let mut i: usize = 0;
        while i < self.trees.len()
            invariant
                i <= self.trees.len(),
                self.wf(),
                self@.entries.len() == self.trees@.len(),
                forall|j: int| 0 <= j < self.trees@.len() ==> #[trigger] self@.entries[j] == self.trees@[j]@,
                forall|j: int|
                    0 <= j < self.trees@.len() ==> (#[trigger] self@.entries[j]).tree == self.trees@[j].tree@,
                self@.holder(window) == self@.holder_from(window, i as int),
            decreases self.trees.len() - i,
        {
            proof {
                assert(self@.entries[i as int].wf());
            }
            if self.trees[i].tree.find_window(window).is_some() {
                return Some(i);
            }
            i = i + 1;
        }
        None
    }

    /// The output on which `window` is tiled.
    pub fn output_for_element(&self, window: &Window) -> (output: Option<Output>)
        requires
            self.wf(),
        ensures
            output == match self@.holder(window.id) {
                Some(e) => Some(self@.entries[e].output),
                None => None,
            },
    {
        proof {
            self.unfold();
        }
        match self.holder(window.id) {
            Some(e) => Some(self.trees[e].data.output),
            None => None,
        }
    }

    /// The rectangle of `window` among the outputs; see
    /// [`LayoutView::geometry_of`].
    pub fn element_geometry(&self, window: &Window) -> (geo: Option<Rectangle>)
        requires
            self.wf(),
        ensures
            geo == self@.geometry_of(window.id, window.slot()),
    {
        proof {
            self.unfold();
        }
        match &window.tiling_node_id {
            Some(id) => match self.holder(window.id) {
                Some(e) => {
                    proof {
                        assert(self@.entries[e as int].wf());
                        assert(self@.entries[e as int].tree == self.trees@[e as int].tree@);
                    }
                    let entry = &self.trees[e];
                    match entry.tree.get(id) {
                        Some(data) => {
                            if data.is_mapped(Some(window.id)) {
                                assert(entry.tree@.shaped_at(node_key(*id)));
                                let geo = data.geometry();
                                Some(
                                    Rectangle {
                                        loc: Point {
                                            x: geo.loc.x + entry.data.location.x,
                                            y: geo.loc.y + entry.data.location.y,
                                        },
                                        size: geo.size,
                                    },
                                )
                            } else {
                                None
                            }
                        },
                        None => None,
                    }
                },
                None => None,
            },
            None => None,
        }
    }

    /// The most recently focused window of `focus_stack` that is tiled on
    /// `active_output`.
    pub fn last_active(&self, active_output: &Output, focus_stack: &Vec<u64>) -> (window: Option<u64>)
        requires
            self.wf(),
            self@.registered(active_output.id),
        ensures
            window == self@.last_active(self@.position(active_output.id), focus_stack@),
    {
        proof {
            self.unfold();
        }
        match self.find(active_output.id) {
            Some(e) => {
                proof {
                    assert(self@.entries[e as int].wf());
                }
                match self.trees[e].tree.last_active_window(focus_stack) {
                    Some((i, _)) => Some(focus_stack[i]),
                    None => None,
                }
            },
            None => None,
        }
    }

    /// Where a focus request in `direction` leads; see
    /// [`LayoutView::focus`]. `handled` says whether the window that
    /// [`TilingLayout::last_active`] names handles the request itself.
    pub fn next_focus(
        &self,
        direction: FocusDirection,
        active_output: &Output,
        focus_stack: &Vec<u64>,
        handled: bool,
    ) -> (target: Option<FocusTarget>)
        requires
            self.wf(),
            self@.registered(active_output.id),
        ensures
            match target {
                Some(t) => Some(t@),
                None => None,
            } == self@.focus(self@.position(active_output.id), focus_stack@, direction, handled),
    {
        proof {
            self.unfold();
        }
        let e = match self.find(active_output.id) {
            Some(e) => e,
            None => {
                return None;
            },
        };
        proof {
            assert(self@.entries[e as int].wf());
            assert(self@.entries[e as int].tree == self.trees@[e as int].tree@);
        }
        let entry = &self.trees[e];
        let leaf = match entry.tree.last_active_window(focus_stack) {
            Some((_, leaf)) => leaf,
            None => {
                return None;
            },
        };
        if handled {
            return None;
        }
        match entry.tree.next_focus(&leaf, direction) {
            Some(TreeFocus::Leaf { node, window }) => Some(FocusTarget::Window(window)),
            Some(TreeFocus::Group { node, alive }) => Some(
                FocusTarget::Group(WindowGroup { node, output: entry.data.output.id, alive }),
            ),
            None => None,
        }
    }

    /// The partition tree of `output`, if the output is registered.
    pub fn tree(&self, output: &Output) -> (tree: Option<&PartitionTree>)
        requires
            self.wf(),
        ensures
            tree.is_some() == self@.registered(output.id),
            tree.is_some() ==> tree.unwrap()@ == self@.entries[self@.position(output.id)].tree
                && tree.unwrap().wf(),
    {
        proof {
            self.unfold();
        }
        match self.find(output.id) {
            Some(e) => {
                proof {
                    assert(self@.entries[e as int].wf());
                }
                Some(&self.trees[e].tree)
            },
            None => None,
        }
    }

    /// The location at which `output` is registered.
    pub fn output_location(&self, output: &Output) -> (location: Option<Point>)
        requires
            self.wf(),
        ensures
            location.is_some() == self@.registered(output.id),
            location.is_some() ==> location.unwrap()
                == self@.entries[self@.position(output.id)].location,
    {
        proof {
            self.unfold();
        }
        match self.find(output.id) {
            Some(e) => Some(self.trees[e].data.location),
            None => None,
        }
    }

    /// Whether the group that a focus target names is still there.
    pub fn group_alive(&self, group: &WindowGroup) -> (alive: bool)
        requires
            self.wf(),
        ensures
            alive == self@.group_alive(node_key(group.node), group.output, group.alive),
    {
        proof {
            self.unfold();
        }
        match self.find(group.output) {
            Some(e) => {
                proof {
                    assert(self@.entries[e as int].tree == self.trees@[e as int].tree@);
                }
                match self.trees[e].tree.get(&group.node) {
                    Some(data) => data.is_group() && data.marker() == group.alive,
                    None => false,
                }
            },
            None => false,
        }
    }
}

/// Every window of a well-formed layout lies within twice the coordinate
/// bound of the origin.
pub proof fn lemma_mapped_bounded(v: LayoutView, n: int)
    requires
        v.wf(),
        0 <= n <= v.entries.len(),
    ensures
        forall|j: int|
            0 <= j < v.mapped_upto(n).len() ==> -2 * crate::geometry::COORD_MAX <= (
            #[trigger] v.mapped_upto(n)[j]).location.x <= 2 * crate::geometry::COORD_MAX && -2
                * crate::geometry::COORD_MAX <= v.mapped_upto(n)[j].location.y <= 2
                * crate::geometry::COORD_MAX,
    decreases n,
{
    if n > 0 {
        lemma_mapped_bounded(v, n - 1);
        let e = v.entries[n - 1];
        assert(e.wf());
        match e.tree.root {
            Some(r) => lemma_leaves_under(e.tree, r),
            None => {},
        }
        let front = v.mapped_upto(n - 1);
        let part = e.mapped();
        assert forall|j: int| 0 <= j < v.mapped_upto(n).len() implies -2 * crate::geometry::COORD_MAX <= (
        #[trigger] v.mapped_upto(n)[j]).location.x <= 2 * crate::geometry::COORD_MAX && -2
            * crate::geometry::COORD_MAX <= v.mapped_upto(n)[j].location.y <= 2
            * crate::geometry::COORD_MAX by {
            if j >= front.len() {
                let i = j - front.len();
                let k = e.tree.leaves()[i];
                assert(v.mapped_upto(n)[j] == part[i]);
                assert(e.tree.contains(k));
                assert(e.tree.shaped_at(k));
            } else {
                assert(v.mapped_upto(n)[j] == front[j]);
            }
        }
    }
}

} // verus!
