//! Geometry propagation: the root is given a rectangle, and every group cuts
//! its own among its children, level by level.

use vstd::prelude::*;
use id_tree::NodeId;
use crate::arena::{copy_id, keys, node_key, set_data};
use crate::data::{lemma_pair_with_geometry, DataView};
use crate::geometry::Rectangle;
use crate::sizes::{lemma_sum_bounds, sum};
use crate::tree::{PartitionTree, TreeView};

verus! {

impl TreeView {
    /// `other` has the same nodes under the same links.
    pub open spec fn same_shape(self, other: TreeView) -> bool {
        &&& self.root == other.root
        &&& forall|k: int| self.contains(k) == other.contains(k)
        &&& forall|k: int| #[trigger]
            self.contains(k) ==> other.parent(k) == self.parent(k) && other.children(k)
                == self.children(k)
    }

    /// Every child has the rectangle that its group gives it: the children of
    /// a group lie side by side along the group's axis, in order, without
    /// gap or overlap, and fill the group.
    pub open spec fn tiled(self) -> bool {
        forall|k: int, i: int|
            self.contains(k) && self.data(k).is_group() && 0 <= i < self.children(k).len()
                ==> self.data(#[trigger] self.children(k)[i]).geometry() == self.data(
                k,
            ).child_rect(i)
    }

    /// `after` is this tree laid out in `target`: the shape is the same, the
    /// root has the rectangle `target`, every child has the rectangle that
    /// its group gives it, and every node is what it was but for its new
    /// rectangle, to which a group has rescaled its sizes.
    pub open spec fn laid_out(self, after: TreeView, target: Rectangle) -> bool {
        &&& self.same_shape(after)
        &&& forall|k: int| #[trigger]
            self.contains(k) ==> after.data(k) == self.data(k).with_geometry(
                after.data(k).geometry(),
            )
        &&& match after.root {
            Some(r) => after.data(r).geometry() == target,
            None => true,
        }
        &&& after.tiled()
    }
}

/// The nodes that wait for their rectangle, by key.
pub open spec fn items(s: Seq<(NodeId, Rectangle)>) -> Seq<(int, Rectangle)> {
    Seq::new(s.len(), |i: int| (node_key(s[i].0), s[i].1))
}

/// The node `c` has been given `rect`, or waits for it.
pub open spec fn placed(
    cur: TreeView,
    done: Set<int>,
    pending: Seq<(int, Rectangle)>,
    c: int,
    rect: Rectangle,
) -> bool {
    (done.contains(c) && cur.data(c).geometry() == rect) || exists|a: int|
        0 <= a < pending.len() && #[trigger] pending[a] == (c, rect)
}

/// State of a layout pass over the tree `v0` that has reached `cur`: the
/// nodes in `done` have their new rectangle, those in `pending` are next.
#[verifier::opaque]
pub open spec fn spreading(
    v0: TreeView,
    cur: TreeView,
    target: Rectangle,
    done: Set<int>,
    pending: Seq<(int, Rectangle)>,
) -> bool {
    &&& v0.wf()
    &&& cur.wf()
    &&& v0.same_shape(cur)
    &&& cur.rank == v0.rank
    &&& cur.bound == v0.bound
    &&& forall|k: int|
        done.contains(k) ==> cur.contains(k) && cur.data(k) == v0.data(k).with_geometry(
            cur.data(k).geometry(),
        ) && match cur.parent(k) {
            Some(p) => done.contains(p),
            None => true,
        }
    &&& forall|k: int| cur.contains(k) && !done.contains(k) ==> cur.data(k) == v0.data(k)
    &&& forall|k: int, i: int|
        done.contains(k) && 0 <= i < cur.children(k).len() ==> placed(
            cur,
            done,
            pending,
            #[trigger] cur.children(k)[i],
            cur.data(k).child_rect(i),
        )
    &&& match cur.root {
        Some(r) => placed(cur, done, pending, r, target),
        None => true,
    }
    &&& forall|a: int|
        0 <= a < pending.len() ==> cur.contains((#[trigger] pending[a]).0) && !done.contains(
            pending[a].0,
        ) && pending[a].1.wf() && match cur.parent(pending[a].0) {
            Some(p) => done.contains(p),
            None => true,
        }
    &&& forall|a: int, b: int|
        0 <= a < pending.len() && 0 <= b < pending.len() && a != b ==> (#[trigger] pending[a]).0
            != (#[trigger] pending[b]).0
}

/// The rectangles that a well-formed group of two gives its children lie
/// inside its own and are well formed.
pub proof fn lemma_child_rects(d: DataView)
    requires
        d.wf(),
        d.is_group(),
        d.sizes().len() == 2,
    ensures
        d.child_offset(0) == 0,
        d.child_offset(1) == d.sizes()[0],
        0 <= d.sizes()[0],
        0 <= d.sizes()[1],
        d.sizes()[0] + d.sizes()[1] == d.extent(),
{
    reveal_with_fuel(sum, 3);
    let s = d.sizes();
    assert(s.take(0) =~= Seq::<int>::empty());
    assert(s.take(1) =~= seq![s[0]]);
    assert(s.drop_last() =~= seq![s[0]]);
    lemma_sum_bounds(s, 0);
    lemma_sum_bounds(s, 1);
}

/// One step of a layout pass keeps the pass sound: the first pending node
/// takes its rectangle, and its children join the end of the line.
#[verifier::rlimit(60)]
#[verifier::spinoff_prover]
pub proof fn lemma_step(
    v0: TreeView,
    cur: TreeView,
    next: TreeView,
    target: Rectangle,
    done: Set<int>,
    pending: Seq<(int, Rectangle)>,
    added: Seq<(int, Rectangle)>,
)
    requires
        spreading(v0, cur, target, done, pending),
        pending.len() > 0,
        next.wf(),
        cur.same_shape(next),
        next.rank == cur.rank,
        next.bound == cur.bound,
        next.data(pending[0].0) == cur.data(pending[0].0).with_geometry(pending[0].1),
        forall|j: int| cur.contains(j) && j != pending[0].0 ==> next.data(j) == cur.data(j),
        added.len() == next.children(pending[0].0).len(),
        forall|i: int|
            0 <= i < added.len() ==> #[trigger] added[i] == (
                next.children(pending[0].0)[i],
                next.data(pending[0].0).child_rect(i),
            ) && added[i].1.wf(),
    ensures
        spreading(v0, next, target, done.insert(pending[0].0), pending.drop_first() + added),
{
    reveal(spreading);
    let k = pending[0].0;
    let rect = pending[0].1;
    let d2 = done.insert(k);
    let p2 = pending.drop_first() + added;
    assert(cur.contains(k) && !done.contains(k));
    assert(next.data(k).geometry() == rect);
    assert forall|a: int| 0 <= a < pending.len() && pending[a].0 == k implies a == 0 by {
        if a != 0 {
            assert(pending[a].0 != pending[0].0);
        }
    }
    // What was placed stays placed.
    assert forall|c: int, r: Rectangle| placed(cur, done, pending, c, r) implies placed(
        next,
        d2,
        p2,
        c,
        r,
    ) by {
        if done.contains(c) && cur.data(c).geometry() == r {
            assert(c != k);
        } else {
            let a = choose|a: int| 0 <= a < pending.len() && #[trigger] pending[a] == (c, r);
            if a == 0 {
            } else {
                assert(p2[a - 1] == pending[a]);
            }
        }
    }
    assert forall|j: int, i: int| d2.contains(j) && 0 <= i < next.children(j).len() implies placed(
        next,
        d2,
        p2,
        #[trigger] next.children(j)[i],
        next.data(j).child_rect(i),
    ) by {
        assert(cur.contains(j));
        if j == k {
            assert(p2[pending.len() - 1 + i] == added[i]);
        } else {
            assert(placed(cur, done, pending, cur.children(j)[i], cur.data(j).child_rect(i)));
        }
    }
    assert forall|a: int| 0 <= a < p2.len() implies next.contains((#[trigger] p2[a]).0)
        && !d2.contains(p2[a].0) && p2[a].1.wf() && match next.parent(p2[a].0) {
        Some(p) => d2.contains(p),
        None => true,
    } by {
        if a < pending.len() - 1 {
            assert(p2[a] == pending[a + 1]);
            assert(pending[a + 1].0 != pending[0].0);
        } else {
            let i = a - (pending.len() - 1);
            assert(p2[a] == added[i]);
            let c = next.children(k)[i];
            assert(cur.contains(c) && cur.parent(c) == Some(k));
            assert(c != k) by {
                assert(cur.rank[c] < cur.rank[k]);
            }
            if done.contains(c) {
                assert(done.contains(k));
            }
        }
    }
    assert forall|a: int, b: int|
        0 <= a < p2.len() && 0 <= b < p2.len() && a != b implies (#[trigger] p2[a]).0 != (
        #[trigger] p2[b]).0 by {
        let n = pending.len() - 1;
        if a < n && b < n {
            assert(p2[a] == pending[a + 1] && p2[b] == pending[b + 1]);
        } else if a >= n && b >= n {
            assert(p2[a] == added[a - n] && p2[b] == added[b - n]);
            assert(cur.children(k).no_duplicates());
        } else {
            let (x, y) = if a < n {
                (a, b)
            } else {
                (b, a)
            };
            assert(p2[x] == pending[x + 1] && p2[y] == added[y - n]);
            let c = next.children(k)[y - n];
            assert(cur.contains(c) && cur.parent(c) == Some(k));
            assert(cur.parent(pending[x + 1].0) != Some(k));
        }
    }
    assert forall|j: int| d2.contains(j) implies next.contains(j) && next.data(j) == v0.data(
        j,
    ).with_geometry(next.data(j).geometry()) && match next.parent(j) {
        Some(p) => d2.contains(p),
        None => true,
    } by {
        assert(cur.contains(j));
        assert(v0.contains(j));
    }
    assert(v0.same_shape(next)) by {
        assert forall|j: int| #[trigger] v0.contains(j) implies next.parent(j) == v0.parent(j)
            && next.children(j) == v0.children(j) by {
            assert(cur.contains(j));
        }
    }
    match next.root {
        Some(r) => {
            assert(placed(cur, done, pending, r, target));
        },
        None => {},
    }
}

/// A layout pass starts with the root waiting for the target rectangle.
pub proof fn lemma_start(v0: TreeView, target: Rectangle)
    requires
        v0.wf(),
        target.wf(),
    ensures
        spreading(
            v0,
            v0,
            target,
            Set::empty(),
            match v0.root {
                Some(r) => seq![(r, target)],
                None => Seq::empty(),
            },
        ),
{
    reveal(spreading);
    match v0.root {
        Some(r) => {
            assert(seq![(r, target)][0] == (r, target));
        },
        None => {},
    }
}

/// What a layout pass knows of the node that is next in line, and of the
/// children of that node.
pub proof fn lemma_head(
    v0: TreeView,
    cur: TreeView,
    target: Rectangle,
    done: Set<int>,
    pending: Seq<(int, Rectangle)>,
)
    requires
        spreading(v0, cur, target, done, pending),
    ensures
        cur.wf(),
        cur.rank == v0.rank,
        pending.len() > 0 ==> cur.contains(pending[0].0) && pending[0].1.wf(),
        pending.len() > 0 ==> forall|i: int|
            0 <= i < cur.children(pending[0].0).len() ==> cur.rank[#[trigger] cur.children(
                pending[0].0,
            )[i]] < cur.rank[pending[0].0],
{
    reveal(spreading);
    if pending.len() > 0 {
        let k = pending[0].0;
        assert forall|i: int| 0 <= i < cur.children(k).len() implies cur.rank[#[trigger] cur.children(
            k,
        )[i]] < cur.rank[k] by {
            let c = cur.children(k)[i];
            assert(cur.contains(c) && cur.parent(c) == Some(k));
        }
    }
}

/// When nothing is pending, every node has been given its rectangle.
pub proof fn lemma_all_done(
    v0: TreeView,
    cur: TreeView,
    target: Rectangle,
    done: Set<int>,
    k: int,
)
    requires
        spreading(v0, cur, target, done, Seq::empty()),
        cur.contains(k),
    ensures
        done.contains(k),
    decreases cur.bound - cur.rank[k],
{
    reveal(spreading);
    match cur.parent(k) {
        Some(p) => {
            assert(cur.contains(p) && cur.children(p).contains(k));
            lemma_all_done(v0, cur, target, done, p);
            let i = cur.children(p).index_of(k);
            assert(placed(cur, done, Seq::empty(), cur.children(p)[i], cur.data(p).child_rect(i)));
        },
        None => {
            assert(cur.root == Some(k));
            assert(placed(cur, done, Seq::empty(), k, target));
        },
    }
}

/// A finished layout pass has laid the tree out.
pub proof fn lemma_finished(v0: TreeView, cur: TreeView, target: Rectangle, done: Set<int>)
    requires
        spreading(v0, cur, target, done, Seq::empty()),
    ensures
        v0.laid_out(cur, target),
        cur.wf(),
{
    reveal(spreading);
    assert forall|k: int| cur.contains(k) implies done.contains(k) by {
        lemma_all_done(v0, cur, target, done, k);
    }
    assert forall|k: int| #[trigger] v0.contains(k) implies cur.data(k) == v0.data(k).with_geometry(
        cur.data(k).geometry(),
    ) by {
        assert(cur.contains(k));
    }
    assert forall|k: int, i: int|
        cur.contains(k) && cur.data(k).is_group() && 0 <= i < cur.children(k).len() implies cur.data(
        #[trigger] cur.children(k)[i],
    ).geometry() == cur.data(k).child_rect(i) by {
        assert(placed(cur, done, Seq::empty(), cur.children(k)[i], cur.data(k).child_rect(i)));
    }
    match cur.root {
        Some(r) => {
            assert(placed(cur, done, Seq::empty(), r, target));
        },
        None => {},
    }
}

impl PartitionTree {
    /// Gives the node under `id` the rectangle `rect`, and lines its
    /// children up for theirs.
    fn place(&mut self, id: &NodeId, rect: Rectangle, next: &mut Vec<(NodeId, Rectangle)>)
        requires
            old(self).wf(),
            old(self)@.contains(node_key(*id)),
            rect.wf(),
        ensures
            final(self).wf(),
            old(self)@.same_shape(final(self)@),
            final(self)@.rank == old(self)@.rank,
            final(self)@.bound == old(self)@.bound,
            final(self)@.data(node_key(*id)) == old(self)@.data(node_key(*id)).with_geometry(rect),
            forall|j: int|
                old(self)@.contains(j) && j != node_key(*id) ==> final(self)@.data(j) == old(
                    self,
                )@.data(j),
            final(next)@.len() == old(next)@.len() + final(self)@.children(node_key(*id)).len(),
            forall|i: int| 0 <= i < old(next)@.len() ==> final(next)@[i] == old(next)@[i],
            forall|i: int|
                0 <= i < final(self)@.children(node_key(*id)).len() ==> #[trigger] items(
                    final(next)@,
                )[old(next)@.len() + i] == (
                    final(self)@.children(node_key(*id))[i],
                    final(self)@.data(node_key(*id)).child_rect(i),
                ) && final(next)@[old(next)@.len() + i].1.wf(),
    {
        proof {
            self.unfold();
        }
        let ghost v0 = self@;
        let ghost k = node_key(*id);
        let ghost before = next@;
        assert(v0.shaped_at(k));
        proof {
            lemma_pair_with_geometry(v0.data(k), rect);
        }
        let data = match self.get(id) {
            Some(data) => data.with_geometry(rect),
            None => crate::data::Data::new_mapped(0, rect),
        };
        let ghost d = data@;
        if data.is_group() {
            let children = self.children(id);
            let orientation = data.orientation();
            let first: i32 = data.size_at(0);
            let second: i32 = data.size_at(1);
            proof {
                lemma_child_rects(d);
                assert(keys(children@)[0] == node_key(children@[0]));
                assert(keys(children@)[1] == node_key(children@[1]));
            }
            let r0 = rect.cut(orientation, 0, first);
            let r1 = rect.cut(orientation, first, second);
            next.push((copy_id(&children[0]), r0));
            next.push((copy_id(&children[1]), r1));
        }
        set_data(&mut self.tree, id, data);
        proof {
            self.unfold();
            let v = self@;
            assert(v0.same_shape(v));
            assert(v.linked());
            assert(v.ranked());
            assert forall|j: int| #[trigger] v.contains(j) implies v.shaped_at(j) by {
                assert(v0.shaped_at(j));
            }
            assert forall|i: int| 0 <= i < v.children(k).len() implies #[trigger] items(next@)[before.len()
                + i] == (v.children(k)[i], v.data(k).child_rect(i)) && next@[before.len() + i].1.wf() by {}
        }
    }

    /// Lays the tree out in `target`: the root gets `target`, and every
    /// group divides its rectangle among its children by its sizes, which it
    /// first rescales to its new extent.
    pub fn distribute(&mut self, target: Rectangle)
        requires
            old(self).wf(),
            target.wf(),
        ensures
            final(self).wf(),
            old(self)@.laid_out(final(self)@, target),
    {
        let ghost v0 = self@;
        let ghost mut done: Set<int> = Set::empty();
        let ghost mut limit: int = v0.bound as int;
        let mut level: Vec<(NodeId, Rectangle)> = Vec::new();
        match self.root() {
            Some(root) => {
                level.push((root, target));
            },
            None => {},
        }
        proof {
            lemma_start(v0, target);
            match v0.root {
                Some(r) => {
                    assert(items(level@) =~= seq![(r, target)]);
                    assert(v0.contains(r));
                },
                None => {
                    assert(items(level@) =~= Seq::empty());
                },
            }
            assert(v0.ranked());
        }
        while level.len() > 0
            invariant
                spreading(v0, self@, target, done, items(level@)),
                forall|a: int|
                    0 <= a < level@.len() ==> v0.rank[(#[trigger] items(level@)[a]).0] <= limit,
            decreases limit + 1,
        {
            let mut next: Vec<(NodeId, Rectangle)> = Vec::new();
            let mut j: usize = 0;
            proof {
                assert(items(level@).skip(0) + items(next@) =~= items(level@));
                assert(v0.rank[items(level@)[0].0] <= limit);
            }
            while j < level.len()
                invariant
                    j <= level.len(),
                    0 <= limit,
                    spreading(v0, self@, target, done, items(level@).skip(j as int) + items(next@)),
                    forall|a: int|
                        0 <= a < level@.len() ==> v0.rank[(#[trigger] items(level@)[a]).0] <= limit,
                    forall|a: int|
                        0 <= a < next@.len() ==> v0.rank[(#[trigger] items(next@)[a]).0] < limit,
                decreases level.len() - j,
            {
                let ghost cur = self@;
                let ghost pending = items(level@).skip(j as int) + items(next@);
                let ghost before = next@;
                let ghost k = node_key(level@[j as int].0);
                proof {
                    assert(pending[0] == items(level@)[j as int]);
                    assert(pending[0] == (k, level@[j as int].1));
                    lemma_head(v0, cur, target, done, pending);
                }
                self.place(&level[j].0, level[j].1, &mut next);
                proof {
                    let added = Seq::new(
                        self@.children(k).len(),
                        |i: int| items(next@)[before.len() + i],
                    );
                    assert forall|i: int| 0 <= i < added.len() implies #[trigger] added[i] == (
                        self@.children(k)[i],
                        self@.data(k).child_rect(i),
                    ) && added[i].1.wf() by {
                        assert(items(next@)[before.len() + i] == (
                            self@.children(k)[i],
                            self@.data(k).child_rect(i),
                        ));
                    }
                    lemma_step(v0, cur, self@, target, done, pending, added);
                    done = done.insert(k);
                    assert(pending.drop_first() + added =~= items(level@).skip(j + 1) + items(next@));
                    assert forall|a: int| 0 <= a < next@.len() implies v0.rank[(#[trigger] items(
                        next@,
                    )[a]).0] < limit by {
                        if a >= before.len() {
                            let i = a - before.len();
                            assert(items(next@)[before.len() + i] == (
                                self@.children(k)[i],
                                self@.data(k).child_rect(i),
                            ));
                            assert(cur.rank[cur.children(k)[i]] < cur.rank[k]);
                            assert(v0.rank[items(level@)[j as int].0] <= limit);
                        } else {
                            assert(items(next@)[a] == items(before)[a]);
                        }
                    }
                }
                j = j + 1;
            }
            proof {
                assert(items(level@).skip(j as int) + items(next@) =~= items(next@));
                limit = limit - 1;
            }
            level = next;
        }
        proof {
            assert(items(level@) =~= Seq::empty());
            lemma_finished(v0, self@, target, done);
        }
    }
}

} // verus!
