//! Every leaf of a tree is met exactly once on the walk over its leaves, and
//! what that means for windows.

use vstd::prelude::*;
use crate::traverse::lemma_leaves_under;
use crate::layout::LayoutView;
use crate::tree::TreeView;

verus! {

impl TreeView {
    /// The node that lies `n` parent links above `j`, if there is one.
    pub open spec fn up(self, j: int, n: nat) -> Option<int>
        decreases n,
    {
        if n == 0 {
            Some(j)
        } else {
            match self.parent(j) {
                Some(p) => self.up(p, (n - 1) as nat),
                None => None,
            }
        }
    }

    /// `j` is `k` or lies below it.
    pub open spec fn below(self, j: int, k: int) -> bool {
        exists|n: nat| self.up(j, n) == Some(k)
    }

    /// Some leaf stands for `window`.
    pub open spec fn tiled_window(self, window: u64) -> bool {
        exists|k: int| self.contains(k) && #[trigger] self.data(k).is_leaf_of(window)
    }

    /// No two leaves stand for the same window.
    pub open spec fn one_leaf_each(self) -> bool {
        forall|j: int, k: int|
            self.contains(j) && self.contains(k) && self.data(j).is_leaf() && self.data(k).is_leaf()
                && #[trigger] self.window_at(j) == #[trigger] self.window_at(k) ==> j == k
    }
}

/// Going up `n` links and then `m` more is going up `n + m` links.
pub proof fn lemma_up_more(v: TreeView, j: int, n: nat, m: nat)
    requires
        v.up(j, n).is_some(),
    ensures
        v.up(j, n + m) == v.up(v.up(j, n).unwrap(), m),
    decreases n,
{
    if n > 0 {
        let p = v.parent(j).unwrap();
        lemma_up_more(v, p, (n - 1) as nat, m);
        assert(v.up(j, n + m) == v.up(p, (n + m - 1) as nat));
    }
}

/// Going up leads to nodes of the tree, of higher rank the further it goes.
pub proof fn lemma_up_rises(v: TreeView, j: int, n: nat)
    requires
        v.skeleton(),
        v.contains(j),
        v.up(j, n).is_some(),
    ensures
        v.contains(v.up(j, n).unwrap()),
        v.rank[v.up(j, n).unwrap()] >= v.rank[j] + n,
    decreases n,
{
    if n > 0 {
        let p = v.parent(j).unwrap();
        assert(v.contains(p));
        lemma_up_rises(v, p, (n - 1) as nat);
    }
}

/// Every node lies below the root.
pub proof fn lemma_below_root(v: TreeView, j: int)
    requires
        v.skeleton(),
        v.contains(j),
    ensures
        v.root.is_some(),
        v.below(j, v.root.unwrap()),
    decreases v.bound - v.rank[j],
{
    match v.parent(j) {
        Some(p) => {
            assert(v.contains(p));
            lemma_below_root(v, p);
            let n = choose|n: nat| v.up(p, n) == Some(v.root.unwrap());
            assert(v.up(j, n + 1) == v.up(p, n));
        },
        None => {
            assert(v.up(j, 0) == Some(j));
        },
    }
}

/// No node lies below two children of one group.
pub proof fn lemma_branches_apart(v: TreeView, j: int, a: int, b: int, p: int)
    requires
        v.skeleton(),
        v.contains(j),
        v.contains(a),
        v.contains(b),
        v.parent(a) == Some(p),
        v.parent(b) == Some(p),
        v.below(j, a),
        v.below(j, b),
    ensures
        a == b,
{
    let n = choose|n: nat| v.up(j, n) == Some(a);
    let m = choose|m: nat| v.up(j, m) == Some(b);
    if n < m {
        lemma_up_more(v, j, n, (m - n) as nat);
        assert(v.up(a, (m - n) as nat) == Some(b));
        assert(v.up(a, (m - n) as nat) == v.up(p, (m - n - 1) as nat));
        assert(v.contains(p));
        lemma_up_rises(v, p, (m - n - 1) as nat);
    } else if m < n {
        lemma_up_more(v, j, m, (n - m) as nat);
        assert(v.up(b, (n - m) as nat) == Some(a));
        assert(v.up(b, (n - m) as nat) == v.up(p, (n - m - 1) as nat));
        assert(v.contains(p));
        lemma_up_rises(v, p, (n - m - 1) as nat);
    }
}

/// The leaves under a node lie below it, and none is listed twice.
pub proof fn lemma_leaves_under_once(v: TreeView, k: int)
    requires
        v.wf(),
        v.contains(k),
    ensures
        v.leaves_under(k).no_duplicates(),
        forall|i: int| 0 <= i < v.leaves_under(k).len() ==> v.below(#[trigger] v.leaves_under(k)[i], k),
    decreases v.rank[k],
{
    assert(v.shaped_at(k));
    if v.data(k).is_leaf() {
        assert(v.up(k, 0) == Some(k));
    } else {
        let a = v.children(k)[0];
        let b = v.children(k)[1];
        assert(v.contains(a) && v.parent(a) == Some(k));
        assert(v.contains(b) && v.parent(b) == Some(k));
        assert(a != b);
        lemma_leaves_under_once(v, a);
        lemma_leaves_under_once(v, b);
        lemma_leaves_under(v, a);
        lemma_leaves_under(v, b);
        let la = v.leaves_under(a);
        let lb = v.leaves_under(b);
        let all = la + lb;
        assert forall|i: int| 0 <= i < all.len() implies v.below(#[trigger] all[i], k) by {
            let j = all[i];
            let c = if i < la.len() {
                a
            } else {
                b
            };
            if i < la.len() {
                assert(all[i] == la[i]);
            } else {
                assert(all[i] == lb[i - la.len()]);
            }
            assert(v.below(j, c));
            let n = choose|n: nat| v.up(j, n) == Some(c);
            lemma_up_more(v, j, n, 1);
            assert(v.up(c, 1) == v.up(k, 0));
            assert(v.up(j, n + 1) == Some(k));
        }
        assert forall|x: int, y: int| 0 <= x < all.len() && 0 <= y < all.len() && x != y implies all[x]
            != all[y] by {
            if x < la.len() && y < la.len() {
                assert(all[x] == la[x] && all[y] == la[y]);
            } else if x >= la.len() && y >= la.len() {
                assert(all[x] == lb[x - la.len()] && all[y] == lb[y - la.len()]);
            } else {
                let (s, t) = if x < la.len() {
                    (x, y)
                } else {
                    (y, x)
                };
                assert(all[s] == la[s] && all[t] == lb[t - la.len()]);
                if all[s] == all[t] {
                    assert(v.contains(la[s]));
                    lemma_branches_apart(v, all[s], a, b, k);
                }
            }
        }
    }
}

/// A leaf that lies below a node is among the leaves under that node.
pub proof fn lemma_leaf_is_listed(v: TreeView, j: int, n: nat)
    requires
        v.wf(),
        v.contains(j),
        v.data(j).is_leaf(),
        v.up(j, n).is_some(),
    ensures
        v.contains(v.up(j, n).unwrap()),
        v.leaves_under(v.up(j, n).unwrap()).contains(j),
    decreases n,
{
    lemma_up_rises(v, j, n);
    if n == 0 {
        assert(v.leaves_under(j) =~= seq![j]);
        assert(seq![j][0] == j);
    } else {
        lemma_up_some(v, j, n);
        lemma_up_more(v, j, (n - 1) as nat, 1);
        let c = v.up(j, (n - 1) as nat).unwrap();
        lemma_leaf_is_listed(v, j, (n - 1) as nat);
        let q = v.up(j, n).unwrap();
        assert(v.up(c, 1) == Some(q));
        assert(v.up(c, 1) == match v.parent(c) {
            Some(p) => v.up(p, 0),
            None => None,
        });
        assert(v.parent(c) == Some(q));
        lemma_listed_in_parent(v, j, c, q);
    }
}

/// What is listed under a child is listed under its parent.
pub proof fn lemma_listed_in_parent(v: TreeView, j: int, c: int, q: int)
    requires
        v.wf(),
        v.contains(c),
        v.parent(c) == Some(q),
        v.leaves_under(c).contains(j),
    ensures
        v.contains(q),
        v.leaves_under(q).contains(j),
{
    assert(v.contains(q));
    assert(v.shaped_at(q));
    assert(v.children(q).contains(c));
    let at = v.children(q).index_of(c);
    let a = v.children(q)[0];
    let b = v.children(q)[1];
    assert(v.contains(a) && v.contains(b));
    assert(v.data(q).is_group());
    let la = v.leaves_under(a);
    let lb = v.leaves_under(b);
    assert(v.leaves_under(q) == la + lb);
    let i = v.leaves_under(c).index_of(j);
    if at == 0 {
        assert((la + lb)[i] == j);
    } else {
        assert(at == 1);
        assert((la + lb)[la.len() + i] == j);
    }
}

/// Where one can go up `n` links, one can go up fewer.
pub proof fn lemma_up_some(v: TreeView, j: int, n: nat)
    requires
        n > 0,
        v.up(j, n).is_some(),
    ensures
        v.up(j, (n - 1) as nat).is_some(),
    decreases n,
{
    if n > 1 {
        let p = v.parent(j).unwrap();
        lemma_up_some(v, p, (n - 1) as nat);
    }
}

/// The walk over the leaves of a well-formed tree meets every leaf of the
/// tree, meets nothing else, and meets no leaf twice.
pub proof fn law_every_leaf_once(v: TreeView)
    requires
        v.wf(),
    ensures
        v.leaves().no_duplicates(),
        forall|k: int| v.leaves().contains(k) <==> v.contains(k) && v.data(k).is_leaf(),
{
    match v.root {
        Some(r) => {
            assert(v.contains(r));
            lemma_leaves_under_once(v, r);
            lemma_leaves_under(v, r);
            assert forall|k: int| v.contains(k) && v.data(k).is_leaf() implies v.leaves().contains(
                k,
            ) by {
                lemma_below_root(v, k);
                let n = choose|n: nat| v.up(k, n) == Some(r);
                lemma_leaf_is_listed(v, k, n);
            }
            assert forall|k: int| v.leaves().contains(k) implies v.contains(k) && v.data(k).is_leaf() by {
                let i = v.leaves().index_of(k);
                assert(v.leaves()[i] == k);
            }
        },
        None => {
            assert forall|k: int| !(v.contains(k) && v.data(k).is_leaf()) by {}
        },
    }
}

/// Where no two leaves stand for the same window, the list of windows names
/// every tiled window exactly once.
pub proof fn law_every_window_once(v: TreeView)
    requires
        v.wf(),
        v.one_leaf_each(),
    ensures
        v.windows().no_duplicates(),
        forall|w: u64| v.windows().contains(w) <==> v.tiled_window(w),
{
    law_every_leaf_once(v);
    let l = v.leaves();
    let ws = v.windows();
    assert(ws.len() == l.len());
    assert forall|i: int| 0 <= i < l.len() implies v.contains(#[trigger] l[i]) && v.data(l[i]).is_leaf()
        && ws[i] == v.window_at(l[i]) by {
        assert(l.contains(l[i]));
    }
    assert forall|i: int, j: int| 0 <= i < ws.len() && 0 <= j < ws.len() && i != j implies ws[i]
        != ws[j] by {
        assert(v.contains(l[i]) && v.contains(l[j]));
        assert(l[i] != l[j]);
        if ws[i] == ws[j] {
            assert(v.window_at(l[i]) == v.window_at(l[j]));
        }
    }
    assert forall|w: u64| ws.contains(w) implies v.tiled_window(w) by {
        let i = ws.index_of(w);
        assert(ws[i] == w);
        assert(v.contains(l[i]) && v.data(l[i]).is_leaf());
        assert(v.window_at(l[i]) == w);
        assert(v.data(l[i]).is_leaf_of(w));
    }
    assert forall|w: u64| v.tiled_window(w) implies ws.contains(w) by {
        let k = choose|k: int| v.contains(k) && #[trigger] v.data(k).is_leaf_of(w);
        assert(l.contains(k));
        let i = l.index_of(k);
        assert(ws[i] == w);
    }
}

/// A list of windows without repetition comes from a tree in which no two
/// leaves stand for the same window.
pub proof fn lemma_one_leaf_each(v: TreeView)
    requires
        v.wf(),
        v.windows().no_duplicates(),
    ensures
        v.one_leaf_each(),
{
    law_every_leaf_once(v);
    let l = v.leaves();
    let ws = v.windows();
    assert forall|j: int, k: int|
        v.contains(j) && v.contains(k) && v.data(j).is_leaf() && v.data(k).is_leaf()
            && #[trigger] v.window_at(j) == #[trigger] v.window_at(k) implies j == k by {
        assert(l.contains(j) && l.contains(k));
        let a = l.index_of(j);
        let b = l.index_of(k);
        assert(ws[a] == v.window_at(j) && ws[b] == v.window_at(k));
    }
}

/// Removing a leaf from a well-formed tree leaves a well-formed tree.
pub proof fn lemma_without_wf(v: TreeView, k: int)
    requires
        v.wf(),
    ensures
        v.without(k).wf(),
{
    if v.contains(k) && v.data(k).is_leaf() {
        let w = v.without(k);
        assert(v.shaped_at(k));
        match v.parent(k) {
            Some(p) => {
                assert(v.contains(p));
                assert(v.shaped_at(p));
                assert(v.children(p).contains(k));
                crate::remove::lemma_dissolved(v, w, k);
            },
            None => {
                crate::remove::lemma_root_leaf(v, k);
                assert forall|j: int| !w.contains(j) by {
                    if w.contains(j) {
                        assert(v.contains(j));
                    }
                }
            },
        }
    }
}

/// Mapping a window that is not tiled yet gives it one leaf, and changes
/// nothing for the other windows: where every window had one leaf at most
/// before, every window has one leaf at most afterwards.
pub proof fn law_insert_adds_one_leaf(
    before: TreeView,
    after: TreeView,
    stack: Seq<u64>,
    fallback: crate::geometry::Size,
    window: u64,
    l: int,
    marker: u64,
)
    requires
        before.wf(),
        before.grown(after, stack, fallback, window, l, marker),
    ensures
        after.tiled_window(window),
        forall|w: u64| w != window ==> after.tiled_window(w) == before.tiled_window(w),
        before.one_leaf_each() && !before.tiled_window(window) ==> after.one_leaf_each(),
{
    match before.insertion_point(stack) {
        Some(k) => {
            crate::traverse::lemma_last_active(before, stack);
            if before.last_active(stack).is_some() {
                let i = before.last_active(stack).unwrap();
                crate::traverse::lemma_find_leaf(before, before.leaves(), stack[i]);
                law_every_leaf_once(before);
            }
            assert(before.contains(k));
            match before.parent(k) {
                Some(p) => {
                    assert(before.contains(p));
                },
                None => {},
            }
            let g = after.parent(l).unwrap();
            assert(after.data(g).is_group());
            assert(after.contains(l) && after.data(l).is_leaf_of(window));
            assert forall|j: int|
                after.contains(j) && j != l && after.data(j).is_leaf() implies before.contains(j)
                && before.data(j) == after.data(j) by {}
            assert forall|j: int| #[trigger] before.contains(j) implies after.contains(j)
                && before.data(j) == after.data(j) by {}
        },
        None => {
            assert(after.contains(l) && after.data(l).is_leaf_of(window));
            assert forall|j: int|
                after.contains(j) && j != l && after.data(j).is_leaf() implies before.contains(j)
                && before.data(j) == after.data(j) by {}
            assert forall|j: int| #[trigger] before.contains(j) implies after.contains(j)
                && before.data(j) == after.data(j) by {}
        },
    }
    assert forall|w: u64| w != window implies after.tiled_window(w) == before.tiled_window(w) by {
        if before.tiled_window(w) {
            let k = choose|k: int| before.contains(k) && #[trigger] before.data(k).is_leaf_of(w);
            assert(after.contains(k) && after.data(k).is_leaf_of(w));
        }
        if after.tiled_window(w) {
            let k = choose|k: int| after.contains(k) && #[trigger] after.data(k).is_leaf_of(w);
            assert(k != l);
            assert(before.contains(k) && before.data(k).is_leaf_of(w));
        }
    }
    if before.one_leaf_each() && !before.tiled_window(window) {
        assert forall|j: int, k: int|
            after.contains(j) && after.contains(k) && after.data(j).is_leaf() && after.data(
                k,
            ).is_leaf() && #[trigger] after.window_at(j) == #[trigger] after.window_at(k) implies j
            == k by {
            if j != l && k != l {
                assert(before.window_at(j) == before.window_at(k));
            } else if j != l {
                assert(before.data(j).is_leaf_of(window));
            } else if k != l {
                assert(before.data(k).is_leaf_of(window));
            }
        }
    }
}

/// Removing a leaf takes away the leaf, and changes nothing for the other
/// leaves: they stay leaves of the same windows.
pub proof fn law_remove_takes_one_leaf(before: TreeView, k: int)
    requires
        before.wf(),
        before.contains(k),
        before.data(k).is_leaf(),
    ensures
        !before.without(k).contains(k),
        forall|j: int|
            before.contains(j) && before.data(j).is_leaf() && j != k ==> before.without(k).contains(j)
                && #[trigger] before.without(k).data(j) == before.data(j),
        forall|j: int| #[trigger]
            before.without(k).contains(j) ==> before.contains(j) && before.without(k).data(j)
                == before.data(j),
        before.one_leaf_each() ==> before.without(k).one_leaf_each()
            && !before.without(k).tiled_window(before.window_at(k)),
{
    let after = before.without(k);
    assert(before.shaped_at(k));
    match before.parent(k) {
        Some(p) => {
            assert(before.contains(p));
            assert(before.shaped_at(p));
            assert(before.children(p).contains(k));
            let pos = before.children(p).index_of(k);
            crate::remove::lemma_pair(before, p, pos);
            let other = before.sibling(p, pos);
            assert(before.rank[k] < before.rank[p]);
            match before.parent(p) {
                Some(gp) => {
                    assert(before.contains(gp));
                    assert(before.shaped_at(gp));
                },
                None => {},
            }
            assert forall|j: int| #[trigger] after.contains(j) implies before.contains(j)
                && after.data(j) == before.data(j) by {}
            assert forall|j: int|
                before.contains(j) && before.data(j).is_leaf() && j != k implies after.contains(j)
                && #[trigger] after.data(j) == before.data(j) by {
                assert(j != p);
            }
        },
        None => {},
    }
    if before.one_leaf_each() {
        assert forall|i: int, j: int|
            after.contains(i) && after.contains(j) && after.data(i).is_leaf() && after.data(
                j,
            ).is_leaf() && #[trigger] after.window_at(i) == #[trigger] after.window_at(j) implies i
            == j by {
            assert(before.window_at(i) == before.window_at(j));
        }
        if after.tiled_window(before.window_at(k)) {
            let j = choose|j: int|
                after.contains(j) && #[trigger] after.data(j).is_leaf_of(before.window_at(k));
            assert(before.window_at(j) == before.window_at(k));
        }
    }
}

/// Removing leaves one after the other adds no leaf, and keeps every leaf
/// that is not among them as it is.
pub proof fn lemma_swept(v: TreeView, ks: Seq<int>)
    requires
        v.wf(),
    ensures
        v.swept(ks).wf(),
        forall|j: int| #[trigger]
            v.swept(ks).contains(j) ==> v.contains(j) && v.swept(ks).data(j) == v.data(j),
        forall|j: int|
            v.contains(j) && v.data(j).is_leaf() && !ks.contains(j) ==> #[trigger] v.swept(
                ks,
            ).contains(j),
        v.one_leaf_each() ==> v.swept(ks).one_leaf_each(),
    decreases ks.len(),
{
    if ks.len() > 0 {
        let k = ks[0];
        let w = v.without(k);
        lemma_without_wf(v, k);
        if v.contains(k) && v.data(k).is_leaf() {
            law_remove_takes_one_leaf(v, k);
        }
        lemma_swept(w, ks.drop_first());
        assert forall|j: int|
            v.contains(j) && v.data(j).is_leaf() && !ks.contains(j) implies #[trigger] v.swept(
            ks,
        ).contains(j) by {
            assert(j != k) by {
                assert(ks[0] == k);
            }
            assert(w.contains(j) && w.data(j) == v.data(j));
            if ks.drop_first().contains(j) {
                let i = ks.drop_first().index_of(j);
                assert(ks[i + 1] == j);
            }
        }
    }
}

/// The leaves that [`TreeView::dead_among`] picks stand for windows that
/// are reported dead.
pub proof fn lemma_dead_among(v: TreeView, ks: Seq<int>, states: Seq<crate::window::WindowState>)
    ensures
        forall|i: int|
            0 <= i < v.dead_among(ks, states).len() ==> crate::window::reported_dead(
                states,
                v.window_at(#[trigger] v.dead_among(ks, states)[i]),
            ),
    decreases ks.len(),
{
    if ks.len() > 0 {
        lemma_dead_among(v, ks.drop_last(), states);
        let front = v.dead_among(ks.drop_last(), states);
        let d = v.dead_among(ks, states);
        assert forall|i: int| 0 <= i < d.len() implies crate::window::reported_dead(
            states,
            v.window_at(#[trigger] d[i]),
        ) by {
            if i < front.len() {
                assert(d[i] == front[i]);
            }
        }
    }
}

/// A refresh adds no window and keeps every window that is not reported
/// dead; where every window had one leaf at most before, every window has
/// one leaf at most afterwards.
pub proof fn law_refresh_keeps_live_windows(
    before: TreeView,
    after: TreeView,
    target: crate::geometry::Rectangle,
    states: Seq<crate::window::WindowState>,
)
    requires
        before.wf(),
        before.refreshed(after, target, states),
    ensures
        forall|w: u64| after.tiled_window(w) ==> before.tiled_window(w),
        forall|w: u64|
            before.tiled_window(w) && !crate::window::reported_dead(states, w)
                ==> after.tiled_window(w),
        before.one_leaf_each() ==> after.one_leaf_each(),
{
    let dead = before.dead_among(before.leaves(), states);
    let mid = before.without_dead(states);
    lemma_swept(before, dead);
    lemma_dead_among(before, before.leaves(), states);
    assert forall|j: int| #[trigger] mid.contains(j) implies after.contains(j) && after.data(j).is_leaf()
        == mid.data(j).is_leaf() && after.window_at(j) == mid.window_at(j) by {
        if after != mid {
            assert(after.data(j) == mid.data(j).with_geometry(after.data(j).geometry()));
        }
    }
    assert forall|j: int| #[trigger] after.contains(j) implies mid.contains(j) by {}
    assert forall|w: u64| after.tiled_window(w) implies before.tiled_window(w) by {
        let k = choose|k: int| after.contains(k) && #[trigger] after.data(k).is_leaf_of(w);
        assert(mid.contains(k));
        assert(before.contains(k) && before.data(k).is_leaf_of(w));
    }
    assert forall|w: u64|
        before.tiled_window(w) && !crate::window::reported_dead(states, w) implies after.tiled_window(
        w,
    ) by {
        let k = choose|k: int| before.contains(k) && #[trigger] before.data(k).is_leaf_of(w);
        if dead.contains(k) {
            let i = dead.index_of(k);
            assert(dead[i] == k);
        }
        assert(mid.contains(k));
        assert(after.contains(k) && after.data(k).is_leaf_of(w));
    }
    if before.one_leaf_each() {
        assert forall|i: int, j: int|
            after.contains(i) && after.contains(j) && after.data(i).is_leaf() && after.data(
                j,
            ).is_leaf() && #[trigger] after.window_at(i) == #[trigger] after.window_at(j) implies i
            == j by {
            assert(mid.contains(i) && mid.contains(j));
            assert(mid.window_at(i) == mid.window_at(j));
        }
    }
}

/// Merging two trees that share no window, in each of which every window
/// has one leaf at most, gives a tree in which every window has one leaf at
/// most.
pub proof fn law_merge_keeps_one_leaf_each(
    dst: TreeView,
    src: TreeView,
    after: TreeView,
    orientation: crate::geometry::Orientation,
    marker: u64,
)
    requires
        dst.wf(),
        src.wf(),
        after.wf(),
        dst.merged(src, after, orientation, marker),
        dst.one_leaf_each(),
        src.one_leaf_each(),
        forall|w: u64| !(dst.tiled_window(w) && src.tiled_window(w)),
    ensures
        after.one_leaf_each(),
{
    crate::laws::law_merge_keeps_every_window(dst, src, after, orientation, marker);
    law_every_window_once(dst);
    law_every_window_once(src);
    let a = dst.windows();
    let b = src.windows();
    let all = a + b;
    assert forall|i: int, j: int| 0 <= i < all.len() && 0 <= j < all.len() && i != j implies all[i]
        != all[j] by {
        if i < a.len() && j < a.len() {
            assert(all[i] == a[i] && all[j] == a[j]);
        } else if i >= a.len() && j >= a.len() {
            assert(all[i] == b[i - a.len()] && all[j] == b[j - a.len()]);
        } else {
            let (x, y) = if i < a.len() {
                (i, j)
            } else {
                (j, i)
            };
            assert(all[x] == a[x] && all[y] == b[y - a.len()]);
            assert(a.contains(a[x]) && b.contains(b[y - a.len()]));
            assert(dst.tiled_window(a[x]));
            assert(src.tiled_window(b[y - a.len()]));
        }
    }
    lemma_one_leaf_each(after);
}

impl LayoutView {
    /// Some tree has a leaf for `window`.
    pub open spec fn tiled(self, window: u64) -> bool {
        exists|e: int| 0 <= e < self.entries.len() && (#[trigger] self.entries[e]).tree.tiled_window(window)
    }

    /// No window has two leaves, neither in one tree nor in two.
    pub open spec fn one_leaf_each(self) -> bool {
        &&& forall|e: int| 0 <= e < self.entries.len() ==> (#[trigger] self.entries[e]).tree.one_leaf_each()
        &&& forall|a: int, b: int, w: u64|
            0 <= a < self.entries.len() && 0 <= b < self.entries.len() && a != b ==> !(#[trigger] self.entries[a].tree.tiled_window(w) && #[trigger] self.entries[b].tree.tiled_window(w))
    }

    /// The windows that [`LayoutView::mapped`] lists for the first `n`
    /// outputs.
    pub open spec fn listed_upto(self, n: int) -> Seq<u64> {
        Seq::new(self.mapped_upto(n).len(), |i: int| self.mapped_upto(n)[i].window)
    }
}

/// The windows listed for the first `n` outputs are those of the first
/// `n - 1` followed by those of the tree of output `n - 1`.
pub proof fn lemma_listed_upto(v: LayoutView, n: int)
    requires
        0 < n <= v.entries.len(),
    ensures
        v.listed_upto(n) == v.listed_upto(n - 1) + v.entries[n - 1].tree.windows(),
{
    let front = v.mapped_upto(n - 1);
    let part = v.entries[n - 1].mapped();
    assert(v.mapped_upto(n) == front + part);
    assert(v.listed_upto(n) =~= v.listed_upto(n - 1) + v.entries[n - 1].tree.windows());
}

/// Where no window has two leaves, the windows listed for the first `n`
/// outputs are the windows tiled there, each listed once.
pub proof fn lemma_listed_once(v: LayoutView, n: int)
    requires
        v.wf(),
        v.one_leaf_each(),
        0 <= n <= v.entries.len(),
    ensures
        v.listed_upto(n).no_duplicates(),
        forall|w: u64|
            v.listed_upto(n).contains(w) <==> exists|e: int|
                0 <= e < n && (#[trigger] v.entries[e]).tree.tiled_window(w),
    decreases n,
{
    if n == 0 {
        assert(v.listed_upto(0) =~= Seq::<u64>::empty());
    } else {
        lemma_listed_once(v, n - 1);
        lemma_listed_upto(v, n);
        let t = v.entries[n - 1].tree;
        assert(v.entries[n - 1].wf());
        law_every_window_once(t);
        let a = v.listed_upto(n - 1);
        let b = t.windows();
        let all = a + b;
        assert forall|i: int, j: int| 0 <= i < all.len() && 0 <= j < all.len() && i != j implies all[i]
            != all[j] by {
            if i < a.len() && j < a.len() {
                assert(all[i] == a[i] && all[j] == a[j]);
            } else if i >= a.len() && j >= a.len() {
                assert(all[i] == b[i - a.len()] && all[j] == b[j - a.len()]);
            } else {
                let (x, y) = if i < a.len() {
                    (i, j)
                } else {
                    (j, i)
                };
                assert(all[x] == a[x] && all[y] == b[y - a.len()]);
                assert(a.contains(a[x]) && b.contains(b[y - a.len()]));
                assert(t.tiled_window(b[y - a.len()]));
                if a[x] == b[y - a.len()] {
                    let e = choose|e: int|
                        0 <= e < n - 1 && (#[trigger] v.entries[e]).tree.tiled_window(a[x]);
                    assert(v.entries[n - 1].tree.tiled_window(a[x]));
                }
            }
        }
        assert forall|w: u64| all.contains(w) implies exists|e: int|
            0 <= e < n && (#[trigger] v.entries[e]).tree.tiled_window(w) by {
            let i = all.index_of(w);
            assert(all[i] == w);
            if i < a.len() {
                assert(a[i] == w);
                assert(a.contains(w));
                let e = choose|e: int| 0 <= e < n - 1 && (#[trigger] v.entries[e]).tree.tiled_window(w);
                assert(0 <= e < n && v.entries[e].tree.tiled_window(w));
            } else {
                assert(b[i - a.len()] == w);
                assert(b.contains(w));
                assert(v.entries[n - 1].tree.tiled_window(w));
            }
        }
        assert forall|w: u64|
            (exists|e: int| 0 <= e < n && (#[trigger] v.entries[e]).tree.tiled_window(w)) implies all.contains(
            w,
        ) by {
            let e = choose|e: int| 0 <= e < n && (#[trigger] v.entries[e]).tree.tiled_window(w);
            if e < n - 1 {
                assert(a.contains(w));
                let i = a.index_of(w);
                assert(all[i] == w);
            } else {
                assert(b.contains(w));
                let i = b.index_of(w);
                assert(all[a.len() + i] == w);
            }
        }
    }
}

/// Where no window has two leaves, the list of all tiled windows names
/// every tiled window exactly once.
pub proof fn law_mapped_lists_every_window_once(v: LayoutView)
    requires
        v.wf(),
        v.one_leaf_each(),
    ensures
        v.listed_upto(v.entries.len() as int).no_duplicates(),
        v.listed_upto(v.entries.len() as int).len() == v.mapped().len(),
        forall|i: int|
            0 <= i < v.mapped().len() ==> v.listed_upto(v.entries.len() as int)[i]
                == (#[trigger] v.mapped()[i]).window,
        forall|w: u64| v.listed_upto(v.entries.len() as int).contains(w) <==> v.tiled(w),
{
    lemma_listed_once(v, v.entries.len() as int);
}

/// Mapping a window that is not tiled anywhere keeps it so that no window
/// has two leaves, and tiles the window.
pub proof fn law_map_keeps_one_leaf_each(
    before: LayoutView,
    after: LayoutView,
    e: int,
    fallback: crate::geometry::Size,
    stack: Seq<u64>,
    window: u64,
    l: int,
)
    requires
        before.wf(),
        0 <= e < before.entries.len(),
        before.grown(after, e, fallback, stack, window, l),
        before.one_leaf_each(),
        !before.tiled(window),
    ensures
        after.one_leaf_each(),
        after.tiled(window),
{
    let t0 = before.entries[e].tree;
    let t1 = after.entries[e].tree;
    assert(before.entries[e].wf());
    law_insert_adds_one_leaf(t0, t1, stack, fallback, window, l, before.markers);
    assert(after.entries.len() == before.entries.len());
    assert forall|a: int| 0 <= a < after.entries.len() && a != e implies (#[trigger] after.entries[a]).tree
        == before.entries[a].tree by {}
    assert(!t0.tiled_window(window));
    assert(t1.one_leaf_each());
    assert forall|a: int| 0 <= a < after.entries.len() implies (#[trigger] after.entries[a]).tree.one_leaf_each() by {
        if a != e {
            assert(before.entries[a].tree.one_leaf_each());
        }
    }
    assert forall|a: int, b: int, w: u64|
        0 <= a < after.entries.len() && 0 <= b < after.entries.len() && a != b implies !(#[trigger] after.entries[a].tree.tiled_window(w) && #[trigger] after.entries[b].tree.tiled_window(w)) by {
        if after.entries[a].tree.tiled_window(w) && after.entries[b].tree.tiled_window(w) {
            if w == window {
                let c = if a == e {
                    b
                } else {
                    a
                };
                assert(before.entries[c].tree.tiled_window(window));
            } else {
                assert(before.entries[a].tree.tiled_window(w));
                assert(before.entries[b].tree.tiled_window(w));
            }
        }
    }
    assert(after.entries[e].tree.tiled_window(window));
}

/// Unmapping a window keeps it so that no window has two leaves, and tiles
/// no window that was not tiled.
pub proof fn law_unmap_keeps_one_leaf_each(before: LayoutView, window: u64, slot: Option<int>)
    requires
        before.wf(),
        before.one_leaf_each(),
    ensures
        before.without_window(window, slot).one_leaf_each(),
        forall|w: u64| before.without_window(window, slot).tiled(w) ==> before.tiled(w),
        before.owner(window, slot).is_some() ==> !before.without_window(window, slot).tiled(window),
{
    let after = before.without_window(window, slot);
    match before.owner(window, slot) {
        Some(e) => {
            let k = slot.unwrap();
            lemma_owner(before, window, k, 0);
            let t0 = before.entries[e].tree;
            let t1 = after.entries[e].tree;
            assert(before.entries[e].wf());
            law_remove_takes_one_leaf(t0, k);
            assert forall|w: u64| t1.tiled_window(w) implies t0.tiled_window(w) by {
                let j = choose|j: int| t1.contains(j) && #[trigger] t1.data(j).is_leaf_of(w);
                assert(t0.contains(j) && t0.data(j).is_leaf_of(w));
            }
            assert forall|a: int| 0 <= a < after.entries.len() implies (
            #[trigger] after.entries[a]).tree.one_leaf_each() by {
                if a != e {
                    assert(before.entries[a].tree.one_leaf_each());
                }
            }
            assert forall|a: int, b: int, w: u64|
                0 <= a < after.entries.len() && 0 <= b < after.entries.len() && a != b implies !(#[trigger] after.entries[a].tree.tiled_window(w) && #[trigger] after.entries[b].tree.tiled_window(w)) by {
                if after.entries[a].tree.tiled_window(w) && after.entries[b].tree.tiled_window(w) {
                    assert(before.entries[a].tree.tiled_window(w));
                    assert(before.entries[b].tree.tiled_window(w));
                }
            }
            assert forall|w: u64| after.tiled(w) implies before.tiled(w) by {
                let a = choose|a: int|
                    0 <= a < after.entries.len() && #[trigger] after.entries[a].tree.tiled_window(w);
                assert(before.entries[a].tree.tiled_window(w));
            }
            assert(t0.window_at(k) == window);
            if after.tiled(window) {
                let a = choose|a: int|
                    0 <= a < after.entries.len() && (#[trigger] after.entries[a]).tree.tiled_window(
                        window,
                    );
                assert(before.entries[a].tree.tiled_window(window));
                assert(before.entries[e].tree.tiled_window(window)) by {
                    assert(t0.contains(k) && t0.data(k).is_leaf_of(window));
                }
            }
        },
        None => {},
    }
}

/// The entry that owns a leaf holds it.
pub proof fn lemma_owner(v: LayoutView, window: u64, k: int, from: int)
    ensures
        match v.owner_from(window, k, from) {
            Some(e) => from <= e < v.entries.len() && v.entries[e].tree.contains(k)
                && v.entries[e].tree.data(k).is_leaf_of(window),
            None => true,
        },
    decreases v.entries.len() - from,
{
    if 0 <= from < v.entries.len() {
        if !(v.entries[from].tree.contains(k) && v.entries[from].tree.data(k).is_leaf_of(window)) {
            lemma_owner(v, window, k, from + 1);
        }
    }
}

/// A refresh keeps it so that no window has two leaves, and tiles no window
/// that was not tiled.
pub proof fn law_refresh_keeps_one_leaf_each(
    before: LayoutView,
    after: LayoutView,
    states: Seq<crate::window::WindowState>,
)
    requires
        before.wf(),
        before.refreshed(after, states),
        before.one_leaf_each(),
    ensures
        after.one_leaf_each(),
        forall|w: u64| after.tiled(w) ==> before.tiled(w),
        forall|w: u64|
            before.tiled(w) && !crate::window::reported_dead(states, w) ==> after.tiled(w),
{
    assert forall|a: int| 0 <= a < after.entries.len() implies (#[trigger] after.entries[a]).tree.one_leaf_each()
        && (forall|w: u64|
        after.entries[a].tree.tiled_window(w) ==> before.entries[a].tree.tiled_window(w)) && (forall|
        w: u64,
    |
        before.entries[a].tree.tiled_window(w) && !crate::window::reported_dead(states, w)
            ==> after.entries[a].tree.tiled_window(w)) by {
        assert(before.entries[a].wf());
        assert(before.entries[a].tree.one_leaf_each());
        law_refresh_keeps_live_windows(
            before.entries[a].tree,
            after.entries[a].tree,
            before.target(a),
            states,
        );
    }
    assert forall|a: int, b: int, w: u64|
        0 <= a < after.entries.len() && 0 <= b < after.entries.len() && a != b implies !(#[trigger] after.entries[a].tree.tiled_window(w) && #[trigger] after.entries[b].tree.tiled_window(w)) by {
        if after.entries[a].tree.tiled_window(w) && after.entries[b].tree.tiled_window(w) {
            assert(before.entries[a].tree.tiled_window(w));
            assert(before.entries[b].tree.tiled_window(w));
        }
    }
    assert forall|w: u64| after.tiled(w) implies before.tiled(w) by {
        let a = choose|a: int|
            0 <= a < after.entries.len() && #[trigger] after.entries[a].tree.tiled_window(w);
        assert(before.entries[a].tree.tiled_window(w));
    }
    assert forall|w: u64|
        before.tiled(w) && !crate::window::reported_dead(states, w) implies after.tiled(w) by {
        let a = choose|a: int|
            0 <= a < before.entries.len() && #[trigger] before.entries[a].tree.tiled_window(w);
        assert(after.entries[a].tree.tiled_window(w));
    }
}

/// A leaf whose window is not reported dead comes through a refresh: it is
/// a leaf of the same window under the same key afterwards.
pub proof fn law_refresh_keeps_live_leaves(
    before: TreeView,
    after: TreeView,
    target: crate::geometry::Rectangle,
    states: Seq<crate::window::WindowState>,
    k: int,
    window: u64,
)
    requires
        before.wf(),
        before.refreshed(after, target, states),
        before.contains(k),
        before.data(k).is_leaf_of(window),
        !crate::window::reported_dead(states, window),
    ensures
        after.contains(k),
        after.data(k).is_leaf_of(window),
{
    let dead = before.dead_among(before.leaves(), states);
    let mid = before.without_dead(states);
    lemma_dead_among(before, before.leaves(), states);
    assert(!dead.contains(k)) by {
        if dead.contains(k) {
            let i = dead.index_of(k);
            assert(dead[i] == k);
            assert(before.window_at(k) == window);
        }
    }
    lemma_swept(before, dead);
    assert(mid.contains(k) && mid.data(k) == before.data(k));
    if after != mid {
        assert(after.data(k) == mid.data(k).with_geometry(after.data(k).geometry()));
    }
}

/// The entry that holds a leaf of a window is found as the owner of the
/// leaf.
pub proof fn lemma_owner_found(v: LayoutView, window: u64, k: int, e: int, from: int)
    requires
        0 <= from <= e < v.entries.len(),
        v.entries[e].tree.contains(k),
        v.entries[e].tree.data(k).is_leaf_of(window),
    ensures
        v.owner_from(window, k, from).is_some(),
    decreases e - from,
{
    if !(v.entries[from].tree.contains(k) && v.entries[from].tree.data(k).is_leaf_of(window)) {
        lemma_owner_found(v, window, k, e, from + 1);
    }
}

/// A tree that has a leaf of a window is found as the holder of the window,
/// unless an earlier tree has one too.
pub proof fn lemma_holder_found(v: LayoutView, window: u64, e: int, from: int)
    requires
        v.wf(),
        0 <= from <= e < v.entries.len(),
        v.entries[e].tree.tiled_window(window),
    ensures
        v.holder_from(window, from).is_some(),
        from <= v.holder_from(window, from).unwrap() <= e,
        v.entries[v.holder_from(window, from).unwrap()].tree.tiled_window(window),
    decreases e - from,
{
    let t = v.entries[from].tree;
    assert(v.entries[from].wf());
    if t.leaf_of(window).is_some() {
        crate::traverse::lemma_find_leaf(t, t.leaves(), window);
        law_every_leaf_once(t);
        let j = t.leaf_of(window).unwrap();
        assert(t.leaves().contains(j));
        assert(t.contains(j) && t.data(j).is_leaf_of(window));
    } else {
        if from == e {
            let j = choose|j: int| t.contains(j) && #[trigger] t.data(j).is_leaf_of(window);
            law_every_leaf_once(t);
            assert(t.leaves().contains(j));
            crate::traverse::lemma_find_leaf(t, t.leaves(), window);
            let i = t.leaves().index_of(j);
            assert(t.leaves()[i] == j);
            assert(false);
        }
        lemma_holder_found(v, window, e, from + 1);
    }
}

/// Where no window has two leaves, a slot that names the leaf of its window
/// finds the window: the leaf has an owner, so that unmapping succeeds, and
/// the window has a rectangle.
pub proof fn law_slot_finds_the_window(v: LayoutView, e: int, window: u64, k: int)
    requires
        v.wf(),
        v.one_leaf_each(),
        0 <= e < v.entries.len(),
        v.entries[e].tree.contains(k),
        v.entries[e].tree.data(k).is_leaf_of(window),
    ensures
        v.owner(window, Some(k)).is_some(),
        v.holder(window) == Some(e),
        v.geometry_of(window, Some(k)).is_some(),
{
    lemma_owner_found(v, window, k, e, 0);
    assert(v.entries[e].tree.tiled_window(window));
    lemma_holder_found(v, window, e, 0);
    let h = v.holder(window).unwrap();
    if h != e {
        assert(v.entries[h].tree.tiled_window(window) && v.entries[e].tree.tiled_window(window));
    }
}

/// The slot that a list of relocations gives a window is the leaf of the
/// first entry for the window.
pub proof fn lemma_moved_slot(
    moved: Seq<crate::window::Relocation>,
    i: int,
    slot: Option<int>,
)
    requires
        0 <= i < moved.len(),
        forall|j: int| 0 <= j < i ==> (#[trigger] moved[j]).window != moved[i].window,
    ensures
        crate::window::moved_slot(moved, moved[i].window, slot) == Some(
            crate::arena::node_key(moved[i].node),
        ),
    decreases i,
{
    if i > 0 {
        assert(moved[0].window != moved[i].window);
        let rest = moved.drop_first();
        assert(rest[i - 1] == moved[i]);
        assert forall|j: int| 0 <= j < i - 1 implies (#[trigger] rest[j]).window != rest[i - 1].window by {
            assert(rest[j] == moved[j + 1]);
        }
        lemma_moved_slot(rest, i - 1, slot);
    }
}

/// After an entry of another layout was merged in and the layout was
/// refreshed, the slot of every window of that entry that is not reported
/// dead names a leaf of the window in the tree of the entry's output.
/// Where no window has two leaves afterwards, the window can be unmapped
/// through that slot and has a rectangle.
///
/// `i` is the first position at which `moved` lists the window, and `slot`
/// the slot that the window had before.
pub proof fn law_merge_writes_slots(
    before: LayoutView,
    entry: crate::layout::EntryView,
    mid: LayoutView,
    after: LayoutView,
    moved: Seq<crate::window::Relocation>,
    states: Seq<crate::window::WindowState>,
    i: int,
    slot: Option<int>,
)
    requires
        before.wf(),
        mid.wf(),
        after.wf(),
        before.absorbed_one(entry, mid, moved),
        mid.refreshed(after, states),
        0 <= i < moved.len(),
        forall|j: int| 0 <= j < i ==> (#[trigger] moved[j]).window != moved[i].window,
        !crate::window::reported_dead(states, moved[i].window),
    ensures
        crate::window::swept_slot(
            states,
            moved[i].window,
            crate::window::moved_slot(moved, moved[i].window, slot),
        ) == Some(crate::arena::node_key(moved[i].node)),
        after.tiled(moved[i].window),
        after.one_leaf_each() ==> after.owner(
            moved[i].window,
            Some(crate::arena::node_key(moved[i].node)),
        ).is_some() && after.geometry_of(
            moved[i].window,
            Some(crate::arena::node_key(moved[i].node)),
        ).is_some(),
{
    lemma_moved_slot(moved, i, slot);
    let base = before.with_output(entry.output, entry.location);
    let d = base.position(entry.output.id);
    let w = moved[i].window;
    let k = crate::arena::node_key(moved[i].node);
    assert(base.registered(entry.output.id)) by {
        if !before.registered(entry.output.id) {
            assert(base.entries[before.entries.len() as int].output.id == entry.output.id);
        }
    }
    assert(0 <= d < base.entries.len());
    assert(mid.entries.len() == base.entries.len());
    assert(crate::merge::listed(entry.tree, mid.entries[d].tree, entry.tree.leaves()[i], moved[i]));
    let t1 = mid.entries[d].tree;
    assert(t1.contains(k) && t1.data(k).is_leaf_of(w));
    let swept = mid.swept(states);
    assert(swept.entries[d].tree == t1.without_dead(states));
    assert(mid.entries[d].wf());
    assert(t1.refreshed(after.entries[d].tree, swept.target(d), states));
    law_refresh_keeps_live_leaves(t1, after.entries[d].tree, swept.target(d), states, k, w);
    assert(after.entries[d].tree.tiled_window(w));
    if after.one_leaf_each() {
        law_slot_finds_the_window(after, d, w, k);
    }
}

/// A leaf that is among the leaves removed one after the other is gone
/// afterwards.
pub proof fn lemma_swept_gone(v: TreeView, ks: Seq<int>, j: int)
    requires
        v.wf(),
        ks.contains(j),
        v.contains(j) ==> v.data(j).is_leaf(),
    ensures
        !v.swept(ks).contains(j),
    decreases ks.len(),
{
    let k = ks[0];
    let w = v.without(k);
    lemma_without_wf(v, k);
    if v.contains(k) && v.data(k).is_leaf() {
        law_remove_takes_one_leaf(v, k);
    }
    lemma_swept(w, ks.drop_first());
    if j == k {
        assert(!w.contains(k));
    } else {
        let i = ks.index_of(j);
        assert(ks.drop_first()[i - 1] == j);
        assert(w.contains(j) ==> v.contains(j) && w.data(j) == v.data(j));
        lemma_swept_gone(w, ks.drop_first(), j);
    }
}

/// Every leaf of `ks` whose window is reported dead is among those that
/// [`TreeView::dead_among`] picks.
pub proof fn lemma_dead_among_all(
    v: TreeView,
    ks: Seq<int>,
    states: Seq<crate::window::WindowState>,
    i: int,
)
    requires
        0 <= i < ks.len(),
        v.data(ks[i]).is_leaf(),
        crate::window::reported_dead(states, v.window_at(ks[i])),
    ensures
        v.dead_among(ks, states).contains(ks[i]),
    decreases ks.len(),
{
    let front = v.dead_among(ks.drop_last(), states);
    let d = v.dead_among(ks, states);
    if i == ks.len() - 1 {
        assert(d == front.push(ks.last()));
        assert(d[front.len() as int] == ks[i]);
    } else {
        assert(ks.drop_last()[i] == ks[i]);
        lemma_dead_among_all(v, ks.drop_last(), states, i);
        let a = front.index_of(ks[i]);
        assert(d[a] == ks[i]);
    }
}

/// After a refresh no window that is reported dead has a leaf.
pub proof fn law_refresh_removes_dead_windows(
    before: TreeView,
    after: TreeView,
    target: crate::geometry::Rectangle,
    states: Seq<crate::window::WindowState>,
    window: u64,
)
    requires
        before.wf(),
        before.refreshed(after, target, states),
        crate::window::reported_dead(states, window),
    ensures
        !after.tiled_window(window),
{
    let dead = before.dead_among(before.leaves(), states);
    let mid = before.without_dead(states);
    lemma_swept(before, dead);
    law_every_leaf_once(before);
    if after.tiled_window(window) {
        let k = choose|k: int| after.contains(k) && #[trigger] after.data(k).is_leaf_of(window);
        assert(mid.contains(k));
        if after != mid {
            assert(after.data(k) == mid.data(k).with_geometry(after.data(k).geometry()));
        }
        assert(mid.data(k).is_leaf_of(window));
        assert(before.contains(k) && before.data(k).is_leaf_of(window));
        assert(before.leaves().contains(k));
        let i = before.leaves().index_of(k);
        lemma_dead_among_all(before, before.leaves(), states, i);
        lemma_swept_gone(before, dead, k);
    }
}

impl LayoutView {
    /// Number of leaves in the first `n` trees.
    pub open spec fn leaf_count_upto(self, n: int) -> int
        decreases n,
    {
        if n <= 0 {
            0
        } else {
            self.leaf_count_upto(n - 1) + self.entries[n - 1].tree.leaves().len()
        }
    }

    /// Number of leaves in all trees.
    pub open spec fn leaf_count(self) -> int {
        self.leaf_count_upto(self.entries.len() as int)
    }
}

/// Number of leaves in the trees of `entries`.
pub open spec fn leaves_in(entries: Seq<crate::layout::EntryView>) -> int
    decreases entries.len(),
{
    if entries.len() == 0 {
        0
    } else {
        leaves_in(entries.drop_last()) + entries.last().tree.leaves().len()
    }
}

/// The list of tiled windows has one entry for each leaf.
pub proof fn lemma_mapped_len(v: LayoutView, n: int)
    requires
        0 <= n <= v.entries.len(),
    ensures
        v.mapped_upto(n).len() == v.leaf_count_upto(n),
    decreases n,
{
    if n > 0 {
        lemma_mapped_len(v, n - 1);
    }
}

/// Layouts that agree on their first `n` entries have as many leaves there.
pub proof fn lemma_count_frame(a: LayoutView, b: LayoutView, n: int)
    requires
        forall|i: int| 0 <= i < n ==> (#[trigger] a.entries[i]).tree == b.entries[i].tree,
    ensures
        a.leaf_count_upto(n) == b.leaf_count_upto(n),
    decreases n,
{
    if n > 0 {
        lemma_count_frame(a, b, n - 1);
        assert(a.entries[n - 1].tree == b.entries[n - 1].tree);
    }
}

/// Replacing one tree changes the number of leaves by the difference
/// between the two trees.
pub proof fn lemma_count_with_tree(v: LayoutView, d: int, tree: TreeView, n: int)
    requires
        0 <= d < v.entries.len(),
        0 <= n <= v.entries.len(),
    ensures
        v.with_tree(d, tree).leaf_count_upto(n) == v.leaf_count_upto(n) + if d < n {
            tree.leaves().len() - v.entries[d].tree.leaves().len()
        } else {
            0
        },
    decreases n,
{
    if n > 0 {
        lemma_count_with_tree(v, d, tree, n - 1);
    }
}

/// Merging the entries of another layout in adds the leaves of these
/// entries to the layout, and lists each of them as moved: for any number
/// of outputs on either side, the list of tiled windows grows by the number
/// of windows that came in.
pub proof fn law_merge_adds_every_leaf(
    before: LayoutView,
    entries: Seq<crate::layout::EntryView>,
    after: LayoutView,
    moved: Seq<crate::window::Relocation>,
)
    requires
        before.wf(),
        after.wf(),
        forall|j: int| 0 <= j < entries.len() ==> (#[trigger] entries[j]).wf(),
        before.absorbed(entries, after, moved),
    ensures
        after.mapped().len() == before.mapped().len() + leaves_in(entries),
        moved.len() == leaves_in(entries),
    decreases entries.len(),
{
    lemma_mapped_len(before, before.entries.len() as int);
    lemma_mapped_len(after, after.entries.len() as int);
    if entries.len() > 0 {
        let (mid, cut) = choose|mid: LayoutView, cut: int|
            #![trigger mid.absorbed_one(entries.last(), after, moved.skip(cut))]
            0 <= cut <= moved.len() && before.absorbed(entries.drop_last(), mid, moved.take(cut))
                && mid.wf() && mid.absorbed_one(entries.last(), after, moved.skip(cut));
        assert forall|j: int| 0 <= j < entries.drop_last().len() implies (
        #[trigger] entries.drop_last()[j]).wf() by {
            assert(entries.drop_last()[j] == entries[j]);
        }
        law_merge_adds_every_leaf(before, entries.drop_last(), mid, moved.take(cut));
        lemma_mapped_len(mid, mid.entries.len() as int);
        let entry = entries.last();
        assert(entry.wf()) by {
            assert(entries[entries.len() - 1].wf());
        }
        let base = mid.with_output(entry.output, entry.location);
        let d = base.position(entry.output.id);
        if !mid.registered(entry.output.id) {
            let n = mid.entries.len() as int;
            assert(base.entries[n].output.id == entry.output.id);
            assert(base.entries[n].tree.leaves() =~= Seq::<int>::empty());
            lemma_count_frame(base, mid, n);
        }
        assert(base.leaf_count() == mid.leaf_count());
        assert(0 <= d < base.entries.len());
        let t = after.entries[d].tree;
        assert(base.entries[d].tree.wf()) by {
            if d < mid.entries.len() {
                assert(mid.entries[d].wf());
                assert(base.entries[d] == mid.entries[d]);
            }
        }
        assert(after.entries.len() == base.entries.len());
        assert(after.entries[d].wf());
        crate::laws::law_merge_keeps_every_window(
            base.entries[d].tree,
            entry.tree,
            t,
            crate::ops::joint_for(entry.output.geometry.size),
            mid.markers,
        );
        lemma_count_with_tree(base, d, t, base.entries.len() as int);
        lemma_count_frame(after, base.with_tree(d, t), after.entries.len() as int);
        assert(moved.take(cut).len() == cut);
        assert(moved.skip(cut).len() == moved.len() - cut);
    }
}

} // verus!
