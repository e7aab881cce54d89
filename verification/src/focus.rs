//! Directional focus search: from a leaf up through its groups to the first
//! one that has a neighbour in the wanted direction, then down into that
//! neighbour to the nearest leaf.

use vstd::prelude::*;
use id_tree::NodeId;
use crate::arena::{copy_id, keys, node_key};
use crate::geometry::{FocusDirection, Orientation, Rectangle};
use crate::tree::{PartitionTree, TreeView};

verus! {

/// Mathematical value of a [`TreeFocus`].
pub enum FocusView {
    /// The leaf to focus, and its window.
    Leaf { node: int, window: u64 },
    /// The group around the starting leaf, and its marker.
    Group { node: int, alive: u64 },
}

/// What a focus search in one tree arrives at.
#[derive(Debug)]
pub enum TreeFocus {
    /// The leaf to focus, and its window.
    Leaf { node: NodeId, window: u64 },
    /// The group around the starting leaf, and its marker.
    Group { node: NodeId, alive: u64 },
}

impl View for TreeFocus {
    type V = FocusView;

    open spec fn view(&self) -> FocusView {
        match *self {
            TreeFocus::Leaf { node, window } => FocusView::Leaf { node: node_key(node), window },
            TreeFocus::Group { node, alive } => FocusView::Group { node: node_key(node), alive },
        }
    }
}

impl TreeView {
    /// The leaf under `k` as a focus target.
    pub open spec fn leaf_target(self, k: int) -> FocusView {
        FocusView::Leaf {
            node: k,
            window: match self.data(k) {
                crate::data::DataView::Mapped { window, .. } => window,
                crate::data::DataView::Group { .. } => 0,
            },
        }
    }
}

/// The direction runs along the axis of a group of this orientation.
pub open spec fn along(direction: FocusDirection, orientation: Orientation) -> bool {
    match (orientation, direction) {
        (Orientation::Horizontal, FocusDirection::Down) => true,
        (Orientation::Horizontal, FocusDirection::Up) => true,
        (Orientation::Vertical, FocusDirection::Right) => true,
        (Orientation::Vertical, FocusDirection::Left) => true,
        _ => false,
    }
}

/// The direction leads to later children.
pub open spec fn forward(direction: FocusDirection) -> bool {
    direction == FocusDirection::Down || direction == FocusDirection::Right
}

/// The point of the starting leaf from which distances are taken: the middle
/// of the edge that faces `direction`.
pub open spec fn origin_point(geo: Rectangle, direction: FocusDirection) -> (int, int) {
    match direction {
        FocusDirection::Down => (geo.loc.x + geo.size.w / 2, geo.loc.y + geo.size.h),
        FocusDirection::Up => (geo.loc.x + geo.size.w / 2, geo.loc.y as int),
        FocusDirection::Left => (geo.loc.x as int, geo.loc.y + geo.size.h / 2),
        FocusDirection::Right => (geo.loc.x + geo.size.w, geo.loc.y + geo.size.h / 2),
        FocusDirection::Out => (geo.loc.x as int, geo.loc.y as int),
    }
}

/// The point of a candidate to which distances are taken. Going up, left or
/// right it is the middle of the edge that faces the starting leaf; going
/// down it is the far end of the candidate's upper edge.
pub open spec fn facing_point(geo: Rectangle, direction: FocusDirection) -> (int, int) {
    match direction {
        FocusDirection::Up => (geo.loc.x + geo.size.w / 2, geo.loc.y + geo.size.h),
        FocusDirection::Down => (geo.loc.x + geo.size.w, geo.loc.y as int),
        FocusDirection::Right => (geo.loc.x as int, geo.loc.y + geo.size.h / 2),
        FocusDirection::Left => (geo.loc.x + geo.size.w, geo.loc.y + geo.size.h / 2),
        FocusDirection::Out => (geo.loc.x as int, geo.loc.y as int),
    }
}

/// Square of the distance between two points.
pub open spec fn distance2(a: (int, int), b: (int, int)) -> int {
    (a.0 - b.0) * (a.0 - b.0) + (a.1 - b.1) * (a.1 - b.1)
}

/// Square of the distance from the starting leaf to a candidate.
pub open spec fn gap2(origin: Rectangle, candidate: Rectangle, direction: FocusDirection) -> int {
    distance2(facing_point(candidate, direction), origin_point(origin, direction))
}

impl TreeView {
    /// The sibling of `c` that lies next to it in `direction`, if the group
    /// of `c` runs along that direction and `c` is not at its end.
    pub open spec fn neighbour(self, c: int, direction: FocusDirection) -> Option<int> {
        let g = self.parent(c).unwrap();
        let idx = self.children(g).index_of(c);
        if !along(direction, self.data(g).orientation()) {
            None
        } else if forward(direction) {
            if idx + 1 < self.children(g).len() {
                Some(self.children(g)[idx + 1])
            } else {
                None
            }
        } else {
            if idx > 0 {
                Some(self.children(g)[idx - 1])
            } else {
                None
            }
        }
    }

    /// The first group above `c` in which the branch of `c` has a neighbour
    /// in `direction`, with that neighbour.
    pub open spec fn find_neighbour(self, c: int, direction: FocusDirection) -> Option<(int, int)>
        decreases self.bound - self.rank[c],
        when self.wf() && self.contains(c)
    {
        match self.parent(c) {
            None => None,
            Some(g) => match self.neighbour(c, direction) {
                Some(n) => Some((g, n)),
                None => self.find_neighbour(g, direction),
            },
        }
    }

    /// The child of the group `n` that is nearest to the starting leaf; the
    /// first one, if both are equally near.
    pub open spec fn nearest(self, n: int, direction: FocusDirection, origin: Rectangle) -> int {
        let a = self.children(n)[0];
        let b = self.children(n)[1];
        if gap2(origin, self.data(a).geometry(), direction) <= gap2(
            origin,
            self.data(b).geometry(),
            direction,
        ) {
            a
        } else {
            b
        }
    }

    /// The leaf that the search comes to when it enters the subtree `n`. In
    /// a group that runs along the axis `main` of the search it takes the
    /// child at the near end: the first going down or right, the last going
    /// up or left. In a group across that axis it takes the child nearest to
    /// the starting leaf.
    pub open spec fn descend(
        self,
        n: int,
        main: Orientation,
        direction: FocusDirection,
        origin: Rectangle,
    ) -> int
        decreases self.rank[n],
        when self.wf() && self.contains(n)
    {
        if self.data(n).is_leaf() {
            n
        } else if self.data(n).orientation() == main {
            if forward(direction) {
                self.descend(self.children(n)[0], main, direction, origin)
            } else {
                self.descend(self.children(n)[1], main, direction, origin)
            }
        } else {
            self.descend(self.nearest(n, direction, origin), main, direction, origin)
        }
    }

    /// Where a focus request in `direction` leads from the leaf `leaf`.
    ///
    /// `Out` leads to the group around the leaf. Any other direction leads to
    /// a leaf of the neighbouring branch in that direction. There is no
    /// target if the leaf is the root, or if no group above it has a
    /// neighbour in the direction.
    pub open spec fn focus_from(self, leaf: int, direction: FocusDirection) -> Option<FocusView> {
        if direction == FocusDirection::Out {
            match self.parent(leaf) {
                Some(g) => Some(FocusView::Group { node: g, alive: self.data(g).marker() }),
                None => None,
            }
        } else {
            match self.find_neighbour(leaf, direction) {
                Some((g, n)) => Some(
                    self.leaf_target(
                        self.descend(
                            n,
                            self.data(g).orientation(),
                            direction,
                            self.data(leaf).geometry(),
                        ),
                    ),
                ),
                None => None,
            }
        }
    }
}

fn runs_along(direction: FocusDirection, orientation: Orientation) -> (b: bool)
    ensures
        b == along(direction, orientation),
{
    match orientation {
        Orientation::Horizontal => match direction {
            FocusDirection::Down => true,
            FocusDirection::Up => true,
            _ => false,
        },
        Orientation::Vertical => match direction {
            FocusDirection::Right => true,
            FocusDirection::Left => true,
            _ => false,
        },
    }
}

fn leads_forward(direction: FocusDirection) -> (b: bool)
    ensures
        b == forward(direction),
{
    match direction {
        FocusDirection::Down => true,
        FocusDirection::Right => true,
        _ => false,
    }
}

fn origin_of(geo: &Rectangle, direction: FocusDirection) -> (p: (i32, i32))
    requires
        geo.wf(),
    ensures
        (p.0 as int, p.1 as int) == origin_point(*geo, direction),
        -crate::geometry::COORD_MAX <= p.0 <= crate::geometry::COORD_MAX,
        -crate::geometry::COORD_MAX <= p.1 <= crate::geometry::COORD_MAX,
{
    match direction {
        FocusDirection::Down => (geo.loc.x + geo.size.w / 2, geo.loc.y + geo.size.h),
        FocusDirection::Up => (geo.loc.x + geo.size.w / 2, geo.loc.y),
        FocusDirection::Left => (geo.loc.x, geo.loc.y + geo.size.h / 2),
        FocusDirection::Right => (geo.loc.x + geo.size.w, geo.loc.y + geo.size.h / 2),
        FocusDirection::Out => (geo.loc.x, geo.loc.y),
    }
}

fn facing_of(geo: &Rectangle, direction: FocusDirection) -> (p: (i32, i32))
    requires
        geo.wf(),
    ensures
        (p.0 as int, p.1 as int) == facing_point(*geo, direction),
        -crate::geometry::COORD_MAX <= p.0 <= crate::geometry::COORD_MAX,
        -crate::geometry::COORD_MAX <= p.1 <= crate::geometry::COORD_MAX,
{
    match direction {
        FocusDirection::Up => (geo.loc.x + geo.size.w / 2, geo.loc.y + geo.size.h),
        FocusDirection::Down => (geo.loc.x + geo.size.w, geo.loc.y),
        FocusDirection::Right => (geo.loc.x, geo.loc.y + geo.size.h / 2),
        FocusDirection::Left => (geo.loc.x + geo.size.w, geo.loc.y + geo.size.h / 2),
        FocusDirection::Out => (geo.loc.x, geo.loc.y),
    }
}

/// Executable form of [`gap2`].
pub fn gap(origin: &Rectangle, candidate: &Rectangle, direction: FocusDirection) -> (d: i64)
    requires
        origin.wf(),
        candidate.wf(),
    ensures
        d == gap2(*origin, *candidate, direction),
{
    let a = facing_of(candidate, direction);
    let b = origin_of(origin, direction);
    let dx: i64 = a.0 as i64 - b.0 as i64;
    let dy: i64 = a.1 as i64 - b.1 as i64;
    assert(0 <= dx * dx <= 0x3fff_ffff_ffff_ffff) by (nonlinear_arith)
        requires
            -0x7fff_fffe <= dx <= 0x7fff_fffe,
    ;
    assert(0 <= dy * dy <= 0x3fff_ffff_ffff_ffff) by (nonlinear_arith)
        requires
            -0x7fff_fffe <= dy <= 0x7fff_fffe,
    ;
    dx * dx + dy * dy
}

impl PartitionTree {
    /// The leaf that a search in `direction` along `main` comes to when it
    /// enters the subtree under `start`.
    fn descend(
        &self,
        start: NodeId,
        main: Orientation,
        direction: FocusDirection,
        origin: &Rectangle,
    ) -> (leaf: NodeId)
        requires
            self.wf(),
            self@.contains(node_key(start)),
            origin.wf(),
        ensures
            node_key(leaf) == self@.descend(node_key(start), main, direction, *origin),
            self@.contains(node_key(leaf)),
            self@.data(node_key(leaf)).is_leaf(),
    {
        let mut node = start;
        loop
            invariant
                self.wf(),
                origin.wf(),
                self@.contains(node_key(node)),
                self@.descend(node_key(node), main, direction, *origin) == self@.descend(
                    node_key(start),
                    main,
                    direction,
                    *origin,
                ),
            ensures
                node_key(node) == self@.descend(node_key(start), main, direction, *origin),
                self@.contains(node_key(node)),
                self@.data(node_key(node)).is_leaf(),
            decreases self@.rank[node_key(node)],
        {
            let ghost k = node_key(node);
            assert(self@.shaped_at(k));
            let same = match self.get(&node) {
                Some(data) => if data.is_group() {
                    Some(data.orientation() == main)
                } else {
                    None
                },
                None => None,
            };
            match same {
                None => {
                    break;
                },
                Some(same_axis) => {
                    let children = self.children(&node);
                    proof {
                        assert(keys(children@)[0] == node_key(children@[0]));
                        assert(keys(children@)[1] == node_key(children@[1]));
                        assert(self@.contains(self@.children(k)[0]));
                        assert(self@.contains(self@.children(k)[1]));
                        assert(self@.shaped_at(self@.children(k)[0]));
                        assert(self@.shaped_at(self@.children(k)[1]));
                    }
                    let pick: usize = if same_axis {
                        if leads_forward(direction) {
                            0
                        } else {
                            1
                        }
                    } else {
                        let first = match self.get(&children[0]) {
                            Some(data) => gap(origin, data.geometry(), direction),
                            None => 0,
                        };
                        let second = match self.get(&children[1]) {
                            Some(data) => gap(origin, data.geometry(), direction),
                            None => 0,
                        };
                        if first <= second {
                            0
                        } else {
                            1
                        }
                    };
                    node = copy_id(&children[pick]);
                },
            }
        }
        node
    }

    /// Where a focus request in `direction` leads from the leaf under
    /// `leaf`; see [`TreeView::focus_from`].
    pub fn next_focus(&self, leaf: &NodeId, direction: FocusDirection) -> (target: Option<TreeFocus>)
        requires
            self.wf(),
            self@.contains(node_key(*leaf)),
        ensures
            match target {
                Some(t) => Some(t@),
                None => None,
            } == self@.focus_from(node_key(*leaf), direction),
            match target {
                Some(TreeFocus::Leaf { node, window }) => self@.contains(node_key(node))
                    && self@.data(node_key(node)).is_leaf_of(window),
                Some(TreeFocus::Group { node, alive }) => self@.contains(node_key(node))
                    && self@.data(node_key(node)).is_group() && self@.data(node_key(node)).marker()
                    == alive,
                None => true,
            },
    {
        let ghost start = node_key(*leaf);
        assert(self@.shaped_at(start));
        let origin: Rectangle = match self.get(leaf) {
            Some(data) => *data.geometry(),
            None => crate::geometry::placeholder_rect(),
        };
        let mut child = copy_id(leaf);
        loop
            invariant
                self.wf(),
                origin.wf(),
                origin == self@.data(start).geometry(),
                start == node_key(*leaf),
                self@.contains(start),
                self@.contains(node_key(child)),
                direction != FocusDirection::Out ==> self@.find_neighbour(node_key(child), direction)
                    == self@.find_neighbour(start, direction),
                direction == FocusDirection::Out ==> node_key(child) == start,
            decreases self@.bound - self@.rank[node_key(child)],
        {
            let ghost c = node_key(child);
            let group = match self.parent(&child) {
                Some(group) => group,
                None => {
                    return None;
                },
            };
            let ghost g = node_key(group);
            assert(self@.contains(g));
            assert(self@.shaped_at(g));
            assert(self@.children(g).contains(c));
            let (main, marker) = match self.get(&group) {
                Some(data) => (data.orientation(), data.marker()),
                None => (Orientation::Horizontal, 0),
            };
            if direction == FocusDirection::Out {
                return Some(TreeFocus::Group { node: group, alive: marker });
            }
            let idx = self.position(&group, &child);
            let siblings = self.children(&group);
            let len = siblings.len();
            let neighbour: Option<usize> = if !runs_along(direction, main) {
                None
            } else if leads_forward(direction) {
                if idx + 1 < len {
                    Some(idx + 1)
                } else {
                    None
                }
            } else {
                if idx > 0 {
                    Some((idx - 1) as usize)
                } else {
                    None
                }
            };
            match neighbour {
                Some(at) => {
                    proof {
                        assert(keys(siblings@)[at as int] == node_key(siblings@[at as int]));
                        assert(self@.contains(self@.children(g)[at as int]));
                    }
                    let found = self.descend(copy_id(&siblings[at]), main, direction, &origin);
                    let window = match self.get(&found) {
                        Some(data) => match data.window() {
                            Some(w) => w,
                            None => 0,
                        },
                        None => 0,
                    };
                    return Some(TreeFocus::Leaf { node: found, window });
                },
                None => {
                    child = group;
                },
            }
        }
    }
}

} // verus!
