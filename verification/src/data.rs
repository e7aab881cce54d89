//! What a position of a partition tree stores: a split group or a window.

use vstd::prelude::*;
use crate::geometry::{Orientation, Rectangle};
use crate::sizes::{
    add_share, fits, ints, lemma_rescaled_pair, lemma_rescaled_same, lemma_rescaled_sum,
    lemma_share_added_sum, lemma_share_removed_sum, lemma_sum_bounds, non_negative, remove_share,
    rescale, rescaled, share_added, share_removed, sum,
};

verus! {

/// The data of one tree node.
#[derive(Debug)]
pub enum Data {
    /// A split of a rectangle along one axis among the node's children.
    Group {
        orientation: Orientation,
        /// Extent of each child along `orientation`, in child order.
        sizes: Vec<i32>,
        last_geometry: Rectangle,
        /// Marker handed out when the group was made; a focus target that
        /// names the group carries it to tell the group from a later one that
        /// took over its node identifier.
        alive: u64,
    },
    /// A tiled window, named by its identity.
    Mapped { mapped: u64, last_geometry: Rectangle },
}

/// Mathematical value of a [`Data`].
pub enum DataView {
    Group { orientation: Orientation, sizes: Seq<int>, geometry: Rectangle, alive: u64 },
    Mapped { window: u64, geometry: Rectangle },
}

impl View for Data {
    type V = DataView;

    open spec fn view(&self) -> DataView {
        match *self {
            Data::Group { orientation, sizes, last_geometry, alive } => DataView::Group {
                orientation,
                sizes: ints(sizes@),
                geometry: last_geometry,
                alive,
            },
            Data::Mapped { mapped, last_geometry } => DataView::Mapped {
                window: mapped,
                geometry: last_geometry,
            },
        }
    }
}

impl DataView {
    pub open spec fn is_group(self) -> bool {
        self is Group
    }

    pub open spec fn is_leaf(self) -> bool {
        self is Mapped
    }

    /// The node is the leaf of `window`.
    pub open spec fn is_leaf_of(self, window: u64) -> bool {
        self matches DataView::Mapped { window: w, .. } && w == window
    }

    /// The rectangle last assigned to the node.
    pub open spec fn geometry(self) -> Rectangle {
        match self {
            DataView::Group { geometry, .. } => geometry,
            DataView::Mapped { geometry, .. } => geometry,
        }
    }

    /// Size list of a group; empty for a leaf.
    pub open spec fn sizes(self) -> Seq<int> {
        match self {
            DataView::Group { sizes, .. } => sizes,
            DataView::Mapped { .. } => Seq::empty(),
        }
    }

    /// Orientation of a group.
    pub open spec fn orientation(self) -> Orientation
        recommends
            self.is_group(),
    {
        match self {
            DataView::Group { orientation, .. } => orientation,
            DataView::Mapped { .. } => Orientation::Horizontal,
        }
    }

    /// Marker of a group.
    pub open spec fn marker(self) -> u64
        recommends
            self.is_group(),
    {
        match self {
            DataView::Group { alive, .. } => alive,
            DataView::Mapped { .. } => 0,
        }
    }

    /// Extent of a group's rectangle along the group's own axis.
    pub open spec fn extent(self) -> int
        recommends
            self.is_group(),
    {
        self.geometry().length_along(self.orientation())
    }

    /// Number of slots the node fills: its child count for a group, one for a
    /// leaf.
    pub open spec fn len(self) -> nat {
        match self {
            DataView::Group { sizes, .. } => sizes.len(),
            DataView::Mapped { .. } => 1,
        }
    }

    /// The node's rectangle is well formed, and a group has at least two
    /// sizes, none negative, that add up to its extent exactly.
    pub open spec fn wf(self) -> bool {
        &&& self.geometry().wf()
        &&& self.is_group() ==> {
            &&& self.sizes().len() >= 2
            &&& non_negative(self.sizes())
            &&& sum(self.sizes()) == self.extent()
        }
    }

    /// Offset of child `i` from the start of the group, along the group's axis.
    pub open spec fn child_offset(self, i: int) -> int {
        sum(self.sizes().take(i))
    }

    /// The rectangle that child `i` of a group is given: the children's
    /// rectangles follow one another along the group's axis, each as long as
    /// its size says, and span the group on the other axis.
    pub open spec fn child_rect(self, i: int) -> Rectangle
        recommends
            self.is_group(),
            0 <= i < self.sizes().len(),
    {
        self.geometry().slice(self.orientation(), self.child_offset(i), self.sizes()[i])
    }

    /// The node after it has been assigned the rectangle `geo`: a group's
    /// sizes are rescaled from its old extent to the new one.
    pub open spec fn with_geometry(self, geo: Rectangle) -> DataView {
        match self {
            DataView::Group { orientation, sizes, geometry, alive } => DataView::Group {
                orientation,
                sizes: rescaled(
                    sizes,
                    geometry.length_along(orientation),
                    geo.length_along(orientation),
                ),
                geometry: geo,
                alive,
            },
            DataView::Mapped { window, .. } => DataView::Mapped { window, geometry: geo },
        }
    }

    /// The group turned to `orientation`: its sizes are rescaled from its
    /// extent along the old axis to that along the new one.
    pub open spec fn with_orientation(self, orientation: Orientation) -> DataView {
        match self {
            DataView::Group { orientation: previous, sizes, geometry, alive } => DataView::Group {
                orientation,
                sizes: rescaled(
                    sizes,
                    geometry.length_along(previous),
                    geometry.length_along(orientation),
                ),
                geometry,
                alive,
            },
            DataView::Mapped { .. } => self,
        }
    }

    /// The group after the child at `idx` left.
    pub open spec fn without_child(self, idx: int) -> DataView {
        match self {
            DataView::Group { orientation, sizes, geometry, alive } => DataView::Group {
                orientation,
                sizes: share_removed(sizes, idx, geometry.length_along(orientation)),
                geometry,
                alive,
            },
            DataView::Mapped { .. } => self,
        }
    }

    /// The group after a child was added at `idx`.
    pub open spec fn with_child(self, idx: int) -> DataView {
        match self {
            DataView::Group { orientation, sizes, geometry, alive } => DataView::Group {
                orientation,
                sizes: share_added(sizes, idx, geometry.length_along(orientation)),
                geometry,
                alive,
            },
            DataView::Mapped { .. } => self,
        }
    }

    /// A fresh group over `geo` with two children of equal size.
    pub open spec fn halved(orientation: Orientation, geo: Rectangle, alive: u64) -> DataView {
        DataView::Group {
            orientation,
            sizes: seq![half(geo.length_along(orientation)), half(geo.length_along(orientation))],
            geometry: geo,
            alive,
        }
    }
}

/// Half of `l`, rounded towards zero.
pub open spec fn half(l: int) -> int {
    if l >= 0 {
        l / 2
    } else {
        -((-l) / 2)
    }
}

fn half_of(l: i32) -> (h: i32)
    ensures
        h == half(l as int),
{
    if l >= 0 {
        l / 2
    } else if l == i32::MIN {
        -0x4000_0000
    } else {
        -((-l) / 2)
    }
}

/// A well-formed group of two keeps its shape when it is assigned a new
/// well-formed rectangle: the new sizes fit in `i32`, are not negative and
/// add up to the new extent.
pub proof fn lemma_pair_with_geometry(d: DataView, geo: Rectangle)
    requires
        d.wf(),
        d.is_group() ==> d.sizes().len() == 2,
        geo.wf(),
    ensures
        d.with_geometry(geo).wf(),
        d.with_geometry(geo).sizes().len() == d.sizes().len(),
        d.with_geometry(geo).geometry() == geo,
        d.with_geometry(geo).is_group() == d.is_group(),
        fits(d.with_geometry(geo).sizes()),
{
    if d.is_group() {
        let o = d.orientation();
        lemma_rescaled_pair(d.sizes(), d.geometry().length_along(o), geo.length_along(o));
        let r = d.with_geometry(geo).sizes();
        assert forall|i: int| 0 <= i < r.len() implies i32::MIN <= #[trigger] r[i] <= i32::MAX by {
            lemma_sum_bounds(r, i);
        }
    }
}

/// A well-formed group of two keeps its shape when it is turned to the other
/// axis.
pub proof fn lemma_pair_with_orientation(d: DataView, orientation: Orientation)
    requires
        d.wf(),
        d.is_group(),
        d.sizes().len() == 2,
    ensures
        d.with_orientation(orientation).wf(),
        d.with_orientation(orientation).sizes().len() == 2,
        fits(d.with_orientation(orientation).sizes()),
{
    let g = d.geometry();
    lemma_rescaled_pair(
        d.sizes(),
        g.length_along(d.orientation()),
        g.length_along(orientation),
    );
    let r = d.with_orientation(orientation).sizes();
    assert forall|i: int| 0 <= i < r.len() implies i32::MIN <= #[trigger] r[i] <= i32::MAX by {
        lemma_sum_bounds(r, i);
    }
}

/// Assigning a well-formed node the rectangle it already has changes nothing.
pub proof fn law_same_geometry_changes_nothing(d: DataView)
    requires
        d.wf(),
    ensures
        d.with_geometry(d.geometry()) == d,
{
    if d.is_group() {
        lemma_rescaled_same(d.sizes(), d.extent());
    }
}

fn copy_sizes(sizes: &Vec<i32>) -> (out: Vec<i32>)
    ensures
        out@ == sizes@,
{
    let mut out: Vec<i32> = Vec::new();
    let mut i: usize = 0;
    while i < sizes.len()
        invariant
            i <= sizes.len(),
            out@ == sizes@.take(i as int),
        decreases sizes.len() - i,
    {
        out.push(sizes[i]);
        proof {
            assert(sizes@.take(i + 1) =~= sizes@.take(i as int).push(sizes@[i as int]));
        }
        i = i + 1;
    }
    proof {
        assert(sizes@.take(sizes.len() as int) =~= sizes@);
    }
    out
}

impl Data {
    /// A group over `geo` whose two children each get half of its extent.
    pub fn new_group(orientation: Orientation, geo: Rectangle, alive: u64) -> (d: Data)
        ensures
            d@ == DataView::halved(orientation, geo, alive),
    {
        let share: i32 = half_of(geo.length(orientation));
        let mut sizes: Vec<i32> = Vec::new();
        sizes.push(share);
        sizes.push(share);
        let d = Data::Group { orientation, sizes, last_geometry: geo, alive };
        proof {
            assert(d@.sizes() =~= DataView::halved(orientation, geo, alive).sizes());
        }
        d
    }

    /// A leaf for `mapped` with rectangle `geo`.
    pub fn new_mapped(mapped: u64, geo: Rectangle) -> (d: Data)
        ensures
            d@ == (DataView::Mapped { window: mapped, geometry: geo }),
    {
        Data::Mapped { mapped, last_geometry: geo }
    }

    pub fn is_group(&self) -> (b: bool)
        ensures
            b == self@.is_group(),
    {
        match self {
            Data::Group { .. } => true,
            Data::Mapped { .. } => false,
        }
    }

    /// With `Some(w)`: whether this is the leaf of window `w`. With `None`:
    /// whether this is a leaf at all.
    pub fn is_mapped(&self, mapped: Option<u64>) -> (b: bool)
        ensures
            b == match mapped {
                Some(w) => self@.is_leaf_of(w),
                None => self@.is_leaf(),
            },
    {
        match self {
            Data::Group { .. } => false,
            Data::Mapped { mapped: own, .. } => match mapped {
                Some(w) => *own == w,
                None => true,
            },
        }
    }

    /// The window of a leaf.
    pub fn window(&self) -> (w: Option<u64>)
        ensures
            w == match self@ {
                DataView::Mapped { window, .. } => Some(window),
                DataView::Group { .. } => None,
            },
    {
        match self {
            Data::Group { .. } => None,
            Data::Mapped { mapped, .. } => Some(*mapped),
        }
    }

    pub fn orientation(&self) -> (o: Orientation)
        requires
            self@.is_group(),
        ensures
            o == self@.orientation(),
    {
        match self {
            Data::Group { orientation, .. } => *orientation,
            Data::Mapped { .. } => Orientation::Horizontal,
        }
    }

    /// The marker of a group.
    pub fn marker(&self) -> (m: u64)
        requires
            self@.is_group(),
        ensures
            m == self@.marker(),
    {
        match self {
            Data::Group { alive, .. } => *alive,
            Data::Mapped { .. } => 0,
        }
    }

    pub fn geometry(&self) -> (g: &Rectangle)
        ensures
            *g == self@.geometry(),
    {
        match self {
            Data::Group { last_geometry, .. } => last_geometry,
            Data::Mapped { last_geometry, .. } => last_geometry,
        }
    }

    pub fn len(&self) -> (n: usize)
        ensures
            n == self@.len(),
    {
        match self {
            Data::Group { sizes, .. } => sizes.len(),
            Data::Mapped { .. } => 1,
        }
    }

    /// Size of child `i` of a group.
    pub fn size_at(&self, i: usize) -> (s: i32)
        requires
            i < self@.sizes().len(),
        ensures
            s == self@.sizes()[i as int],
    {
        match self {
            Data::Group { sizes, .. } => sizes[i],
            Data::Mapped { .. } => 0,
        }
    }

    /// An independent copy with the same value.
    pub fn copy(&self) -> (d: Data)
        ensures
            d@ == self@,
    {
        match self {
            Data::Group { orientation, sizes, last_geometry, alive } => Data::Group {
                orientation: *orientation,
                sizes: copy_sizes(sizes),
                last_geometry: *last_geometry,
                alive: *alive,
            },
            Data::Mapped { mapped, last_geometry } => Data::Mapped {
                mapped: *mapped,
                last_geometry: *last_geometry,
            },
        }
    }

    /// The node with rectangle `geo`; see [`DataView::with_geometry`].
    pub fn with_geometry(&self, geo: Rectangle) -> (d: Data)
        requires
            self@.is_group() ==> self@.sizes().len() >= 1,
            fits(self@.with_geometry(geo).sizes()),
        ensures
            d@ == self@.with_geometry(geo),
    {
        match self {
            Data::Group { orientation, sizes, last_geometry, alive } => Data::Group {
                orientation: *orientation,
                sizes: rescale(
                    sizes,
                    last_geometry.length(*orientation),
                    geo.length(*orientation),
                ),
                last_geometry: geo,
                alive: *alive,
            },
            Data::Mapped { mapped, .. } => Data::Mapped { mapped: *mapped, last_geometry: geo },
        }
    }

    /// The group turned to `orientation`; see [`DataView::with_orientation`].
    pub fn with_orientation(&self, orientation: Orientation) -> (d: Data)
        requires
            self@.is_group(),
            self@.sizes().len() >= 1,
            fits(self@.with_orientation(orientation).sizes()),
        ensures
            d@ == self@.with_orientation(orientation),
    {
        match self {
            Data::Group { orientation: previous, sizes, last_geometry, alive } => Data::Group {
                orientation,
                sizes: rescale(
                    sizes,
                    last_geometry.length(*previous),
                    last_geometry.length(orientation),
                ),
                last_geometry: *last_geometry,
                alive: *alive,
            },
            Data::Mapped { mapped, last_geometry } => Data::Mapped {
                mapped: *mapped,
                last_geometry: *last_geometry,
            },
        }
    }

    /// Assigns the node the rectangle `geo`. A group rescales its sizes from
    /// its old extent to the new one, so that they add up to the new extent.
    pub fn update_geometry(&mut self, geo: Rectangle)
        requires
            old(self)@.is_group() ==> old(self)@.sizes().len() >= 1,
            fits(old(self)@.with_geometry(geo).sizes()),
        ensures
            final(self)@ == old(self)@.with_geometry(geo),
            final(self)@.geometry() == geo,
            final(self)@.is_group() ==> sum(final(self)@.sizes()) == final(self)@.extent(),
    {
        proof {
            if self@.is_group() {
                lemma_rescaled_sum(
                    self@.sizes(),
                    self@.extent(),
                    geo.length_along(self@.orientation()),
                );
            }
        }
        let next = self.with_geometry(geo);
        *self = next;
    }

    /// Makes room in a group for a child at `idx`: the others are scaled down
    /// and the new entry takes what is left, so that the sizes still add up to
    /// the group's extent.
    pub fn add_window(&mut self, idx: usize)
        requires
            old(self)@.is_group(),
            idx <= old(self)@.sizes().len(),
            0 <= old(self)@.extent(),
            fits(old(self)@.with_child(idx as int).sizes()),
        ensures
            final(self)@ == old(self)@.with_child(idx as int),
            final(self)@.sizes().len() == old(self)@.sizes().len() + 1,
            sum(final(self)@.sizes()) == final(self)@.extent(),
    {
        proof {
            lemma_share_added_sum(self@.sizes(), idx as int, self@.extent());
        }
        let next = match &*self {
            Data::Group { orientation, sizes, last_geometry, alive } => Data::Group {
                orientation: *orientation,
                sizes: add_share(sizes, idx, last_geometry.length(*orientation)),
                last_geometry: *last_geometry,
                alive: *alive,
            },
            Data::Mapped { mapped, last_geometry } => Data::Mapped {
                mapped: *mapped,
                last_geometry: *last_geometry,
            },
        };
        *self = next;
    }

    /// Takes the child at `idx` out of a group: its size is handed to the
    /// others in proportion, so that the sizes still add up to the group's
    /// extent.
    pub fn remove_window(&mut self, idx: usize)
        requires
            old(self)@.is_group(),
            old(self)@.sizes().len() >= 2,
            idx < old(self)@.sizes().len(),
            fits(old(self)@.without_child(idx as int).sizes()),
        ensures
            final(self)@ == old(self)@.without_child(idx as int),
            final(self)@.sizes().len() == old(self)@.sizes().len() - 1,
            sum(final(self)@.sizes()) == final(self)@.extent(),
    {
        proof {
            lemma_share_removed_sum(self@.sizes(), idx as int, self@.extent());
        }
        let next = match &*self {
            Data::Group { orientation, sizes, last_geometry, alive } => Data::Group {
                orientation: *orientation,
                sizes: remove_share(sizes, idx, last_geometry.length(*orientation)),
                last_geometry: *last_geometry,
                alive: *alive,
            },
            Data::Mapped { mapped, last_geometry } => Data::Mapped {
                mapped: *mapped,
                last_geometry: *last_geometry,
            },
        };
        *self = next;
    }
}

} // verus!
