//! How the tree layout changes: the element moves that restore the heap
//! property, written as functions on layouts (sequences of element ids in
//! breadth-first order).

use vstd::prelude::*;
use crate::order::KeyOrder;
use crate::path::descend;

verus! {

/// The value of the element at position `t` of `layout`.
pub open spec fn val(values: Seq<u64>, layout: Seq<usize>, t: int) -> u64 {
    values[layout[t] as int]
}

/// The layout with the elements at positions `i` and `j` exchanged.
pub open spec fn swap_layout(layout: Seq<usize>, i: int, j: int) -> Seq<usize> {
    layout.update(i, layout[j]).update(j, layout[i])
}

/// Moving the element at position `k` up: while it comes strictly before
/// its parent, it changes places with the parent. It stops at the root or at
/// the first parent it does not come before (equal values stay).
pub open spec fn sift_up(order: KeyOrder, values: Seq<u64>, layout: Seq<usize>, k: int) -> Seq<usize>
    decreases k,
{
    if k <= 0 {
        layout
    } else if order.precedes(val(values, layout, k), val(values, layout, (k - 1) / 2)) {
        sift_up(order, values, swap_layout(layout, (k - 1) / 2, k), (k - 1) / 2)
    } else {
        layout
    }
}

/// The child of position `k` that a downward move looks at: the right one
/// when it exists and comes strictly before the left one, else the left one.
pub open spec fn down_child(order: KeyOrder, values: Seq<u64>, layout: Seq<usize>, k: int) -> int {
    if 2 * k + 2 < layout.len() && order.precedes(
        val(values, layout, 2 * k + 2),
        val(values, layout, 2 * k + 1),
    ) {
        2 * k + 2
    } else {
        2 * k + 1
    }
}

/// Moving the element at position `k` down: while it has a child and does
/// not come strictly before `down_child`, it changes places with that child.
pub open spec fn sift_down(order: KeyOrder, values: Seq<u64>, layout: Seq<usize>, k: int) -> Seq<usize>
    decreases layout.len() - k,
{
    if k < 0 || 2 * k + 1 >= layout.len() {
        layout
    } else {
        let c = down_child(order, values, layout, k);
        if order.precedes(val(values, layout, k), val(values, layout, c)) {
            layout
        } else {
            sift_down(order, values, swap_layout(layout, k, c), c)
        }
    }
}

/// The layout after taking out the element at position `i`: the last element
/// takes its place, the last position goes, and the moved element goes up
/// when it comes before its new parent, else down.
pub open spec fn removal_layout(order: KeyOrder, values: Seq<u64>, layout: Seq<usize>, i: int) -> Seq<usize> {
    let cut = swap_layout(layout, i, layout.len() - 1).drop_last();
    if i >= cut.len() {
        cut
    } else if i > 0 && order.precedes(val(values, cut, i), val(values, cut, (i - 1) / 2)) {
        sift_up(order, values, cut, i)
    } else {
        sift_down(order, values, cut, i)
    }
}

/// The layout after pushing the elements of `ids` one after the other: each
/// goes to the next free position and then moves up.
pub open spec fn push_all(order: KeyOrder, values: Seq<u64>, layout: Seq<usize>, ids: Seq<usize>) -> Seq<usize>
    decreases ids.len(),
{
    if ids.len() == 0 {
        layout
    } else {
        let before = push_all(order, values, layout, ids.drop_last());
        sift_up(order, values, before.push(ids.last()), before.len() as int)
    }
}

/// `a` is `t` or one of its ancestors.
pub open spec fn on_path_to(a: int, t: int) -> bool
    decreases t,
{
    if t <= 0 {
        a == t
    } else {
        a == t || on_path_to(a, (t - 1) / 2)
    }
}

/// Moving up only changes positions on the path from `k` to the root, and
/// keeps the length.
pub proof fn lemma_sift_up_path(order: KeyOrder, values: Seq<u64>, layout: Seq<usize>, k: int)
    requires
        0 <= k < layout.len(),
    ensures
        sift_up(order, values, layout, k).len() == layout.len(),
        forall|t: int|
            0 <= t < layout.len() && !on_path_to(t, k) ==> #[trigger] sift_up(order, values, layout, k)[t]
                == layout[t],
    decreases k,
{
    if k > 0 && order.precedes(val(values, layout, k), val(values, layout, (k - 1) / 2)) {
        let p = (k - 1) / 2;
        lemma_sift_up_path(order, values, swap_layout(layout, p, k), p);
        assert forall|t: int| 0 <= t < layout.len() && !on_path_to(t, k) implies #[trigger] sift_up(
            order,
            values,
            layout,
            k,
        )[t] == layout[t] by {
            assert(!on_path_to(t, p));
            assert(t != k);
        }
    }
}

/// Moving down only changes positions below `k`, on one path, and keeps the
/// length; positions that are not below `k` (nor `k` itself) stay.
pub proof fn lemma_sift_down_path(order: KeyOrder, values: Seq<u64>, layout: Seq<usize>, k: int)
    requires
        0 <= k < layout.len(),
    ensures
        sift_down(order, values, layout, k).len() == layout.len(),
        forall|t: int|
            0 <= t < layout.len() && !on_path_to(k, t) ==> #[trigger] sift_down(order, values, layout, k)[t]
                == layout[t],
    decreases layout.len() - k,
{
    if 2 * k + 1 < layout.len() {
        let c = down_child(order, values, layout, k);
        if !order.precedes(val(values, layout, k), val(values, layout, c)) {
            lemma_sift_down_path(order, values, swap_layout(layout, k, c), c);
            assert forall|t: int| 0 <= t < layout.len() && !on_path_to(k, t) implies #[trigger] sift_down(
                order,
                values,
                layout,
                k,
            )[t] == layout[t] by {
                assert(on_path_to(k, k));
                assert(t != k);
                if on_path_to(c, t) {
                    lemma_path_step(k, c, t);
                }
                assert(t != c) by {
                    if t == c {
                        assert(on_path_to(c, c));
                    }
                }
            }
        }
    }
}

/// If `c` is a child of `k` and `c` is on the path to `t`, so is `k`.
pub proof fn lemma_path_step(k: int, c: int, t: int)
    requires
        0 <= k,
        c == 2 * k + 1 || c == 2 * k + 2,
        on_path_to(c, t),
    ensures
        on_path_to(k, t),
    decreases t,
{
    if t > 0 && c != t {
        lemma_path_step(k, c, (t - 1) / 2);
    } else if c == t {
        assert((t - 1) / 2 == k);
        assert(on_path_to(k, k));
    }
}

/// The nearest of `i` and its ancestors that is a position below `n`.
pub open spec fn lowest_present(i: int, n: int) -> int
    decreases i,
{
    if i < n || i <= 0 {
        i
    } else {
        lowest_present((i - 1) / 2, n)
    }
}

/// An ancestor comes no later than its descendants.
pub proof fn lemma_on_path_le(a: int, t: int)
    requires
        on_path_to(a, t),
    ensures
        a <= t,
    decreases t,
{
    if t > 0 && a != t {
        lemma_on_path_le(a, (t - 1) / 2);
    }
}

/// Following turns from `a` reaches a descendant of `a` (or `a` itself).
pub proof fn lemma_descend_on_path(a: nat, d: nat, h: nat)
    ensures
        on_path_to(a as int, descend(a, d, h) as int),
    decreases h,
{
    if h == 0 {
        assert(on_path_to(a as int, a as int));
    } else {
        let c = 2 * a + 1 + d % 2;
        lemma_descend_on_path(c, d / 2, (h - 1) as nat);
        lemma_path_step(a as int, c as int, descend(a, d, h) as int);
    }
}

/// Below an ancestor `a` that is not below `n`, the nearest present ancestor
/// is that of `a`.
pub proof fn lemma_lowest_present_through(a: int, j: int, n: int)
    requires
        on_path_to(a, j),
        a >= n,
        a >= 0,
    ensures
        lowest_present(j, n) == lowest_present(a, n),
    decreases j,
{
    if j != a {
        lemma_on_path_le(a, j);
        lemma_lowest_present_through(a, (j - 1) / 2, n);
    }
}

} // verus!
