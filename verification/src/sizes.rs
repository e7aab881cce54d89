//! Integer arithmetic on the size list of a group: proportional scaling with
//! rounding to nearest, where the last entry absorbs what rounding leaves over
//! so that the entries always add up to the group's extent.

use vstd::prelude::*;

verus! {

/// Sum of all entries.
pub open spec fn sum(s: Seq<int>) -> int
    decreases s.len(),
{
    if s.len() == 0 {
        0
    } else {
        sum(s.drop_last()) + s.last()
    }
}

/// The entries of a stored size list as mathematical integers.
pub open spec fn ints(s: Seq<i32>) -> Seq<int> {
    Seq::new(s.len(), |i: int| s[i] as int)
}

/// Every entry can be stored in an `i32`.
pub open spec fn fits(s: Seq<int>) -> bool {
    forall|i: int| 0 <= i < s.len() ==> i32::MIN <= #[trigger] s[i] <= i32::MAX
}

/// No entry is negative.
pub open spec fn non_negative(s: Seq<int>) -> bool {
    forall|i: int| 0 <= i < s.len() ==> 0 <= #[trigger] s[i]
}

/// `n / d` rounded to the nearest integer, halves away from zero (`d > 0`).
pub open spec fn round_div(n: int, d: int) -> int {
    if n >= 0 {
        (2 * n + d) / (2 * d)
    } else {
        -((-2 * n + d) / (2 * d))
    }
}

/// `size * num / den`, rounded to nearest. An extent of zero has no
/// proportions to keep: everything scales to zero.
pub open spec fn scaled(size: int, num: int, den: int) -> int {
    if den <= 0 {
        0
    } else {
        round_div(size * num, den)
    }
}

/// Every entry scaled by `num / den`.
pub open spec fn scaled_all(s: Seq<int>, num: int, den: int) -> Seq<int> {
    Seq::new(s.len(), |i: int| scaled(s[i], num, den))
}

/// Every entry enlarged by its own proportional part of `share`.
pub open spec fn enlarged_all(s: Seq<int>, share: int, total: int) -> Seq<int> {
    Seq::new(s.len(), |i: int| s[i] + scaled(s[i], share, total))
}

/// `s` with its last entry replaced by whatever makes the sum `total`.
pub open spec fn absorb_last(s: Seq<int>, total: int) -> Seq<int> {
    if s.len() == 0 {
        s
    } else {
        s.update(s.len() - 1, total - sum(s.drop_last()))
    }
}

/// The sizes of a group whose extent changes from `prev` to `new`: each entry
/// is scaled by `new / prev`, and the last one takes up the rounding drift.
pub open spec fn rescaled(s: Seq<int>, prev: int, new: int) -> Seq<int> {
    absorb_last(scaled_all(s, new, prev), new)
}

/// The sizes of a group of extent `total` after the child at `idx` left: its
/// size is handed to the others in proportion to their own, and the last one
/// takes up the rounding drift.
pub open spec fn share_removed(s: Seq<int>, idx: int, total: int) -> Seq<int> {
    absorb_last(enlarged_all(s.remove(idx), s[idx], total), total)
}

/// The sizes of a group of extent `total` after a child was added at `idx`:
/// the newcomer is meant to get an equal share, the others are scaled down to
/// what is left, and the newcomer's entry takes up the rounding drift.
pub open spec fn share_added(s: Seq<int>, idx: int, total: int) -> Seq<int> {
    let rest = scaled_all(s, total - total / (s.len() + 1) as int, total);
    rest.insert(idx, total - sum(rest))
}

pub proof fn lemma_sum_push(s: Seq<int>, v: int)
    ensures
        sum(s.push(v)) == sum(s) + v,
{
    assert(s.push(v).drop_last() =~= s);
}

pub proof fn lemma_sum_take(s: Seq<int>, i: int)
    requires
        0 <= i < s.len(),
    ensures
        sum(s.take(i + 1)) == sum(s.take(i)) + s[i],
{
    assert(s.take(i + 1).drop_last() =~= s.take(i));
}

pub proof fn lemma_sum_insert(s: Seq<int>, idx: int, v: int)
    requires
        0 <= idx <= s.len(),
    ensures
        sum(s.insert(idx, v)) == sum(s) + v,
    decreases s.len(),
{
    if idx == s.len() {
        assert(s.insert(idx, v) =~= s.push(v));
        lemma_sum_push(s, v);
    } else {
        let t = s.insert(idx, v);
        assert(t.drop_last() =~= s.drop_last().insert(idx, v));
        assert(t.last() == s.last());
        lemma_sum_insert(s.drop_last(), idx, v);
    }
}

/// Entries that are not negative add up to at least each of them.
pub proof fn lemma_sum_bounds(s: Seq<int>, i: int)
    requires
        non_negative(s),
        0 <= i < s.len(),
    ensures
        0 <= s[i] <= sum(s),
        0 <= sum(s.drop_last()),
    decreases s.len(),
{
    let front = s.drop_last();
    assert(non_negative(front));
    if front.len() > 0 {
        lemma_sum_bounds(front, 0);
        assert(0 <= sum(front.drop_last()));
        assert(sum(front) == sum(front.drop_last()) + front.last());
    }
    if i < s.len() - 1 {
        lemma_sum_bounds(front, i);
    }
}

/// After the last entry absorbed the drift, the entries add up to `total`.
pub proof fn lemma_absorb_last_sum(s: Seq<int>, total: int)
    requires
        s.len() >= 1,
    ensures
        sum(absorb_last(s, total)) == total,
        absorb_last(s, total).len() == s.len(),
{
    let t = absorb_last(s, total);
    assert(t.drop_last() =~= s.drop_last());
}

/// A rescaled size list adds up to the new extent, exactly.
pub proof fn lemma_rescaled_sum(s: Seq<int>, prev: int, new: int)
    requires
        s.len() >= 1,
    ensures
        sum(rescaled(s, prev, new)) == new,
        rescaled(s, prev, new).len() == s.len(),
{
    lemma_absorb_last_sum(scaled_all(s, new, prev), new);
}

/// After a child left a group of three or more, the sizes still add up to the
/// group's extent.
pub proof fn lemma_share_removed_sum(s: Seq<int>, idx: int, total: int)
    requires
        s.len() >= 2,
        0 <= idx < s.len(),
    ensures
        sum(share_removed(s, idx, total)) == total,
        share_removed(s, idx, total).len() == s.len() - 1,
{
    lemma_absorb_last_sum(enlarged_all(s.remove(idx), s[idx], total), total);
}

/// After a child was added, the sizes still add up to the group's extent.
pub proof fn lemma_share_added_sum(s: Seq<int>, idx: int, total: int)
    requires
        0 <= idx <= s.len(),
    ensures
        sum(share_added(s, idx, total)) == total,
        share_added(s, idx, total).len() == s.len() + 1,
{
    let rest = scaled_all(s, total - total / (s.len() + 1) as int, total);
    lemma_sum_insert(rest, idx, total - sum(rest));
}

/// A part of an extent scales to a part of the new extent.
pub proof fn lemma_scaled_bounds(size: int, num: int, den: int)
    requires
        0 <= size <= den,
        0 <= num,
    ensures
        0 <= scaled(size, num, den) <= num,
{
    if den > 0 {
        let n = size * num;
        assert(0 <= n <= den * num) by (nonlinear_arith)
            requires
                0 <= size <= den,
                0 <= num,
                n == size * num,
        ;
        let q = (2 * n + den) / (2 * den);
        assert(0 <= q <= num) by (nonlinear_arith)
            requires
                q == (2 * n + den) / (2 * den),
                0 <= n <= den * num,
                den > 0,
        ;
    }
}

/// Scaling by `den / den` changes nothing.
pub proof fn lemma_scaled_identity(size: int, den: int)
    requires
        den > 0,
    ensures
        scaled(size, den, den) == size,
{
    let n = size * den;
    if n >= 0 {
        assert((2 * n + den) / (2 * den) == size) by (nonlinear_arith)
            requires
                n == size * den,
                den > 0,
                n >= 0,
        ;
    } else {
        assert((-2 * n + den) / (2 * den) == -size) by (nonlinear_arith)
            requires
                n == size * den,
                den > 0,
                n < 0,
        ;
    }
}

/// Two sizes that are not negative and fill the old extent are rescaled to
/// two sizes that are not negative and fill the new one.
pub proof fn lemma_rescaled_pair(s: Seq<int>, prev: int, new: int)
    requires
        s.len() == 2,
        non_negative(s),
        sum(s) == prev,
        0 <= new,
    ensures
        rescaled(s, prev, new).len() == 2,
        non_negative(rescaled(s, prev, new)),
        sum(rescaled(s, prev, new)) == new,
        rescaled(s, prev, new)[0] == scaled(s[0], new, prev),
        rescaled(s, prev, new)[1] == new - scaled(s[0], new, prev),
{
    lemma_rescaled_sum(s, prev, new);
    lemma_sum_bounds(s, 0);
    lemma_scaled_bounds(s[0], new, prev);
    let m = scaled_all(s, new, prev);
    reveal_with_fuel(sum, 3);
    assert(sum(m.drop_last()) == m[0]);
}

/// A group whose extent does not change keeps its sizes.
pub proof fn lemma_rescaled_same(s: Seq<int>, len: int)
    requires
        s.len() >= 1,
        non_negative(s),
        sum(s) == len,
    ensures
        rescaled(s, len, len) =~= s,
{
    let m = scaled_all(s, len, len);
    let r = rescaled(s, len, len);
    assert forall|i: int| 0 <= i < s.len() implies m[i] == s[i] by {
        lemma_sum_bounds(s, i);
        if len > 0 {
            lemma_scaled_identity(s[i], len);
        }
    }
    assert(m =~= s);
}

/// `n / d` rounded to nearest, halves away from zero.
pub fn round_div_exec(n: i128, d: i128) -> (q: i128)
    requires
        0 < d <= 0x8000_0000,
        -0x4000_0000_0000_0000 <= n <= 0x4000_0000_0000_0000,
    ensures
        q == round_div(n as int, d as int),
        -0x4000_0000_0000_0001 <= q <= 0x4000_0000_0000_0001,
{
    if n >= 0 {
        let q: i128 = (2 * n + d) / (2 * d);
        assert(0 <= q <= n + 1) by (nonlinear_arith)
            requires
                q == (2 * n + d) / (2 * d),
                n >= 0,
                d > 0,
        ;
        q
    } else {
        let q: i128 = (-2 * n + d) / (2 * d);
        assert(0 <= q <= -n + 1) by (nonlinear_arith)
            requires
                q == (-2 * n + d) / (2 * d),
                n < 0,
                d > 0,
        ;
        -q
    }
}

/// Executable form of [`scaled`].
pub fn scale(size: i32, num: i32, den: i32) -> (v: i128)
    ensures
        v == scaled(size as int, num as int, den as int),
        -0x4000_0000_0000_0001 <= v <= 0x4000_0000_0000_0001,
{
    if den <= 0 {
        0
    } else {
        assert(-0x4000_0000_0000_0000 <= (size as int) * (num as int) <= 0x4000_0000_0000_0000)
            by (nonlinear_arith)
            requires
                -0x8000_0000 <= size <= 0x7fff_ffff,
                -0x8000_0000 <= num <= 0x7fff_ffff,
        ;
        let n: i128 = (size as i128) * (num as i128);
        round_div_exec(n, den as i128)
    }
}

/// The entries that [`spread`] computes: scaled by `num / den`, on top of the
/// entry itself where `keep` is set.
pub open spec fn spread_all(s: Seq<int>, num: int, den: int, keep: bool) -> Seq<int> {
    if keep {
        enlarged_all(s, num, den)
    } else {
        scaled_all(s, num, den)
    }
}

/// Computes the first `count` entries of [`spread_all`], and their sum.
pub fn spread(sizes: &Vec<i32>, count: usize, num: i32, den: i32, keep: bool) -> (r: (Vec<i32>, i128))
    requires
        count <= sizes.len(),
        fits(spread_all(ints(sizes@), num as int, den as int, keep).take(count as int)),
    ensures
        ints(r.0@) == spread_all(ints(sizes@), num as int, den as int, keep).take(count as int),
        r.1 == sum(spread_all(ints(sizes@), num as int, den as int, keep).take(count as int)),
{
    let ghost all = spread_all(ints(sizes@), num as int, den as int, keep);
    let mut out: Vec<i32> = Vec::new();
    let mut used: i128 = 0;
    let mut i: usize = 0;
    while i < count
        invariant
            i <= count <= sizes.len(),
            out.len() == i,
            all == spread_all(ints(sizes@), num as int, den as int, keep),
            fits(all.take(count as int)),
            used == sum(all.take(i as int)),
            -(i as int) * 0x8000_0000 <= used <= (i as int) * 0x8000_0000,
            forall|j: int| 0 <= j < i ==> out@[j] as int == all[j],
        decreases count - i,
    {
        let part: i128 = scale(sizes[i], num, den);
        let v: i128 = if keep {
            sizes[i] as i128 + part
        } else {
            part
        };
        proof {
            assert(all.take(count as int)[i as int] == all[i as int]);
            assert(all[i as int] == v);
            lemma_sum_take(all, i as int);
        }
        out.push(v as i32);
        used = used + v;
        i = i + 1;
    }
    proof {
        assert(ints(out@) =~= all.take(count as int));
    }
    (out, used)
}

/// Executable form of [`rescaled`].
pub fn rescale(sizes: &Vec<i32>, prev: i32, new: i32) -> (out: Vec<i32>)
    requires
        sizes.len() >= 1,
        fits(rescaled(ints(sizes@), prev as int, new as int)),
    ensures
        ints(out@) == rescaled(ints(sizes@), prev as int, new as int),
{
    let ghost all = scaled_all(ints(sizes@), new as int, prev as int);
    let ghost goal = rescaled(ints(sizes@), prev as int, new as int);
    let n: usize = sizes.len();
    proof {
        assert(all.take(n - 1) =~= all.drop_last());
        assert(goal.take(n - 1) =~= all.take(n - 1));
        assert forall|j: int| 0 <= j < n - 1 implies i32::MIN <= #[trigger] all.take(n - 1)[j]
            <= i32::MAX by {
            assert(goal[j] == all[j]);
        }
    }
    let (mut out, used) = spread(sizes, n - 1, new, prev, false);
    let ghost front = out@;
    proof {
        assert(goal[n - 1] == new - used);
        assert(i32::MIN <= goal[n - 1] <= i32::MAX);
        lemma_sum_range(all.take(n - 1));
    }
    let last: i128 = new as i128 - used;
    out.push(last as i32);
    proof {
        assert forall|j: int| 0 <= j < n implies ints(out@)[j] == goal[j] by {
            if j < n - 1 {
                assert(ints(front)[j] == all.take(n - 1)[j]);
            }
        }
        assert(ints(out@) =~= goal);
    }
    out
}

/// Executable form of [`share_removed`].
pub fn remove_share(sizes: &Vec<i32>, idx: usize, total: i32) -> (out: Vec<i32>)
    requires
        sizes.len() >= 2,
        idx < sizes.len(),
        fits(share_removed(ints(sizes@), idx as int, total as int)),
    ensures
        ints(out@) == share_removed(ints(sizes@), idx as int, total as int),
{
    let n: usize = sizes.len();
    let old_size: i32 = sizes[idx];
    let mut rest: Vec<i32> = Vec::new();
    let mut i: usize = 0;
    while i < n
        invariant
            i <= n == sizes.len(),
            idx < n,
            rest.len() == (if i <= idx { i as int } else { i - 1 }),
            forall|j: int| 0 <= j < rest.len() ==> rest@[j] == sizes@.remove(idx as int)[j],
        decreases n - i,
    {
        if i != idx {
            rest.push(sizes[i]);
        }
        i = i + 1;
    }
    let ghost all = enlarged_all(ints(rest@), old_size as int, total as int);
    let ghost goal = share_removed(ints(sizes@), idx as int, total as int);
    proof {
        assert(ints(rest@) =~= ints(sizes@).remove(idx as int));
        assert(all.take(n - 2) =~= all.drop_last());
        assert(goal.take(n - 2) =~= all.take(n - 2));
        assert forall|j: int| 0 <= j < n - 2 implies i32::MIN <= #[trigger] all.take(n - 2)[j]
            <= i32::MAX by {
            assert(goal[j] == all[j]);
        }
    }
    let (mut out, used) = spread(&rest, n - 2, old_size, total, true);
    let ghost front = out@;
    proof {
        assert(goal[n - 2] == total - used);
        assert(i32::MIN <= goal[n - 2] <= i32::MAX);
        lemma_sum_range(all.take(n - 2));
    }
    let last: i128 = total as i128 - used;
    out.push(last as i32);
    proof {
        assert forall|j: int| 0 <= j < n - 1 implies ints(out@)[j] == goal[j] by {
            if j < n - 2 {
                assert(ints(front)[j] == all.take(n - 2)[j]);
            }
        }
        assert(ints(out@) =~= goal);
    }
    out
}

/// Executable form of [`share_added`].
pub fn add_share(sizes: &Vec<i32>, idx: usize, total: i32) -> (out: Vec<i32>)
    requires
        idx <= sizes.len(),
        0 <= total,
        fits(share_added(ints(sizes@), idx as int, total as int)),
    ensures
        ints(out@) == share_added(ints(sizes@), idx as int, total as int),
{
    let n: usize = sizes.len();
    let equal: i128 = (total as i128) / (n as i128 + 1);
    assert(0 <= equal <= total) by (nonlinear_arith)
        requires
            equal == (total as int) / (n as int + 1),
            0 <= total,
            0 <= n,
    ;
    let remainder: i32 = (total as i128 - equal) as i32;
    let ghost all = scaled_all(ints(sizes@), remainder as int, total as int);
    let ghost goal = share_added(ints(sizes@), idx as int, total as int);
    proof {
        assert(all.take(n as int) =~= all);
        assert forall|j: int| 0 <= j < n implies i32::MIN <= #[trigger] all[j] <= i32::MAX by {
            if j < idx {
                assert(goal[j] == all[j]);
            } else {
                assert(goal[j + 1] == all[j]);
            }
        }
    }
    let (mut out, used) = spread(sizes, n, remainder, total, false);
    proof {
        assert(goal[idx as int] == total - used);
        lemma_sum_range(all);
    }
    let entry: i128 = total as i128 - used;
    out.insert(idx, entry as i32);
    proof {
        assert(ints(out@) =~= goal);
    }
    out
}

/// Entries that fit in an `i32` add up to a number of bounded size.
pub proof fn lemma_sum_range(s: Seq<int>)
    requires
        fits(s),
    ensures
        -s.len() * 0x8000_0000 <= sum(s) <= s.len() * 0x8000_0000,
    decreases s.len(),
{
    if s.len() > 0 {
        assert(fits(s.drop_last()));
        lemma_sum_range(s.drop_last());
        assert(i32::MIN <= s[s.len() - 1] <= i32::MAX);
    }
}

} // verus!
