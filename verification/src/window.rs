//! Windows as the layout sees them: an identity, the slot that names the
//! window's leaf, what the window's owner reports about it, and what the
//! layout asks of it.

use vstd::prelude::*;
use id_tree::NodeId;
use crate::arena::{node_key, opt_key};
use crate::geometry::{Rectangle, Size};

verus! {

/// Handle of a window.
#[derive(Debug)]
pub struct Window {
    /// Identity of the window; two handles with the same `id` are the same
    /// window.
    pub id: u64,
    /// Identifier of the leaf that stands for the window, while it is tiled.
    pub tiling_node_id: Option<NodeId>,
}

/// What the owner of a window reports about it at the time of a call. A
/// window that is not reported counts as alive and not fullscreen.
#[derive(Clone, Copy, Debug, PartialEq, Eq, Structural)]
pub struct WindowState {
    pub window: u64,
    pub alive: bool,
    pub fullscreen: bool,
}

/// Request to a window: adopt `size`, count as tiled, and commit.
#[derive(Clone, Copy, Debug, PartialEq, Eq, Structural)]
pub struct Configure {
    pub window: u64,
    pub size: Size,
}

/// New leaf of a window whose leaf was copied into another tree. The owner of
/// the window writes `node` into the window's slot.
#[derive(Debug)]
pub struct Relocation {
    pub window: u64,
    pub node: NodeId,
}

/// Some report says that `window` is gone.
pub open spec fn reported_dead(states: Seq<WindowState>, window: u64) -> bool {
    exists|i: int| 0 <= i < states.len() && #[trigger] states[i].window == window && !states[i].alive
}

/// Some report says that `window` is fullscreen.
pub open spec fn reported_fullscreen(states: Seq<WindowState>, window: u64) -> bool {
    exists|i: int|
        0 <= i < states.len() && #[trigger] states[i].window == window && states[i].fullscreen
}

/// The request that a window with rectangle `geo` gets: the rectangle's
/// size, less `inner` on every side.
pub open spec fn request_for(window: u64, geo: Rectangle, inner: int) -> Configure {
    Configure {
        window,
        size: Size { w: (geo.size.w - 2 * inner) as i32, h: (geo.size.h - 2 * inner) as i32 },
    }
}

impl Window {
    /// Key of the leaf that the slot names.
    pub open spec fn slot(&self) -> Option<int> {
        opt_key(self.tiling_node_id)
    }

    /// A handle for the window `id`, not tiled.
    pub fn new(id: u64) -> (w: Window)
        ensures
            w.id == id,
            w.tiling_node_id.is_none(),
    {
        Window { id, tiling_node_id: None }
    }
}

/// Executable form of [`reported_dead`].
pub fn is_dead(states: &Vec<WindowState>, window: u64) -> (dead: bool)
    ensures
        dead == reported_dead(states@, window),
{
    let mut i: usize = 0;
    while i < states.len()
        invariant
            i <= states.len(),
            forall|j: int| 0 <= j < i ==> !(states@[j].window == window && !states@[j].alive),
        decreases states.len() - i,
    {
        if states[i].window == window && !states[i].alive {
            return true;
        }
        i = i + 1;
    }
    false
}

/// Executable form of [`reported_fullscreen`].
pub fn is_fullscreen(states: &Vec<WindowState>, window: u64) -> (full: bool)
    ensures
        full == reported_fullscreen(states@, window),
{
    let mut i: usize = 0;
    while i < states.len()
        invariant
            i <= states.len(),
            forall|j: int| 0 <= j < i ==> !(states@[j].window == window && states@[j].fullscreen),
        decreases states.len() - i,
    {
        if states[i].window == window && states[i].fullscreen {
            return true;
        }
        i = i + 1;
    }
    false
}

/// The slot that a window has after the leaves listed in `moved` took the
/// place of old ones: the leaf of the first entry for the window, else the
/// slot it had.
pub open spec fn moved_slot(moved: Seq<Relocation>, window: u64, slot: Option<int>) -> Option<int>
    decreases moved.len(),
{
    if moved.len() == 0 {
        slot
    } else if moved[0].window == window {
        Some(node_key(moved[0].node))
    } else {
        moved_slot(moved.drop_first(), window, slot)
    }
}

/// The slot that a window has after a sweep: none if the window is reported
/// dead, for then it has no leaf any more, else the slot it had.
pub open spec fn swept_slot(states: Seq<WindowState>, window: u64, slot: Option<int>) -> Option<int> {
    if reported_dead(states, window) {
        None
    } else {
        slot
    }
}

/// `after` holds the handles `before` after their trees were merged and
/// swept: every handle stands for the window it stood for, with the slot
/// that [`moved_slot`] and then [`swept_slot`] give it.
pub open spec fn handles_updated(
    before: Seq<Window>,
    after: Seq<Window>,
    moved: Seq<Relocation>,
    states: Seq<WindowState>,
) -> bool {
    &&& after.len() == before.len()
    &&& forall|i: int|
        0 <= i < before.len() ==> (#[trigger] after[i]).id == before[i].id && after[i].slot()
            == swept_slot(states, before[i].id, moved_slot(moved, before[i].id, before[i].slot()))
}

/// Identifier of the new leaf of `window`, if `moved` lists one.
fn moved_to(moved: &Vec<Relocation>, window: u64) -> (id: Option<NodeId>)
    ensures
        forall|slot: Option<int>|
            moved_slot(moved@, window, slot) == match id {
                Some(id) => Some(node_key(id)),
                None => slot,
            },
{
    let mut i: usize = 0;
    proof {
        assert(moved@.skip(0) =~= moved@);
    }
    while i < moved.len()
        invariant
            i <= moved.len(),
            forall|slot: Option<int>|
                moved_slot(moved@, window, slot) == moved_slot(moved@.skip(i as int), window, slot),
        decreases moved.len() - i,
    {
        proof {
            assert(moved@.skip(i as int)[0] == moved@[i as int]);
            assert(moved@.skip(i as int).drop_first() =~= moved@.skip(i + 1));
        }
        if moved[i].window == window {
            return Some(crate::arena::copy_id(&moved[i].node));
        }
        i = i + 1;
    }
    proof {
        assert(moved@.skip(i as int).len() == 0);
    }
    None
}

/// Brings the slots of the handles `windows` up to date after a merge and a
/// sweep: a window that moved names its new leaf, and a window that is
/// reported dead names none.
pub fn update_handles(
    windows: &mut Vec<Window>,
    moved: &Vec<Relocation>,
    states: &Vec<WindowState>,
)
    ensures
        handles_updated(old(windows)@, final(windows)@, moved@, states@),
{
    let ghost before = windows@;
    let mut i: usize = 0;
    while i < windows.len()
        invariant
            i <= windows.len(),
            windows@.len() == before.len(),
            forall|j: int|
                0 <= j < i ==> (#[trigger] windows@[j]).id == before[j].id && windows@[j].slot()
                    == swept_slot(
                    states@,
                    before[j].id,
                    moved_slot(moved@, before[j].id, before[j].slot()),
                ),
            forall|j: int| i <= j < before.len() ==> #[trigger] windows@[j] == before[j],
        decreases windows.len() - i,
    {
        let handle = windows.remove(i);
        let id = handle.id;
        let slot = if is_dead(states, id) {
            None
        } else {
            match moved_to(moved, id) {
                Some(node) => Some(node),
                None => handle.tiling_node_id,
            }
        };
        windows.insert(i, Window { id, tiling_node_id: slot });
        i = i + 1;
    }
}

/// The slot of one handle after a sweep.
pub fn update_handle(window: &mut Window, states: &Vec<WindowState>)
    ensures
        final(window).id == old(window).id,
        final(window).slot() == swept_slot(states@, old(window).id, old(window).slot()),
{
    if is_dead(states, window.id) {
        window.tiling_node_id = None;
    }
}

} // verus!
