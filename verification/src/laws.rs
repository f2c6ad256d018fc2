//! Properties that span several operations of the heap.

use vstd::prelude::*;
use crate::heap::MinHeap;
use crate::order::KeyOrder;
use crate::sift::{swap_layout, push_all};

verus! {

/// Popping twice yields values in order: the element the second `pop` takes
/// does not come before the one the first `pop` took.
///
/// `after` is the heap that `pop` leaves from `before` (as `pop` states it).
pub proof fn law_pops_in_order(before: &MinHeap, after: &MinHeap)
    requires
        before.wf(),
        after.wf(),
        before.heap_ids().is_empty() == false,
        after.heap_ids() == before.heap_ids().remove(before.top()),
        after.values() == before.values(),
        after.key_order() == before.key_order(),
        after.heap_ids().is_empty() == false,
    ensures
        !before.key_order().precedes(before.values()[after.top() as int], before.values()[before.top() as int]),
{
    before.lemma_wf_facts();
    after.lemma_wf_facts();
    assert(after.heap_ids().contains(after.top()));
    assert(before.heap_ids().contains(after.top()));
}

/// Removing an element that `push` just put into the heap leaves the heap with
/// the elements it had before the push.
///
/// `pushed` is the heap after a successful `push(id)` on `before`, `removed`
/// the heap after `remove` of the handle that push returned.
pub proof fn law_remove_undoes_push(before: &MinHeap, pushed: &MinHeap, removed: &MinHeap, id: usize)
    requires
        before.wf(),
        !before.is_linked(id),
        pushed.heap_ids() == before.heap_ids().insert(id),
        pushed.popped_ids() == before.popped_ids(),
        removed.heap_ids() == pushed.heap_ids().remove(id),
        removed.popped_ids() == (if pushed.popped_ids().contains(id) {
            pushed.popped_ids().remove(pushed.popped_ids().index_of(id))
        } else {
            pushed.popped_ids()
        }),
    ensures
        removed.heap_ids() == before.heap_ids(),
        removed.popped_ids() == before.popped_ids(),
{
    assert(removed.heap_ids() =~= before.heap_ids());
}

/// A popped element is never in the heap, and what `pop` puts on the popped
/// list is an element of the heap that nothing in the heap came before.
pub proof fn law_pop_takes_a_minimum(heap: &MinHeap)
    requires
        heap.wf(),
        heap.heap_ids().is_empty() == false,
    ensures
        heap.is_min(heap.top()),
        forall|j: int| 0 <= j < heap.popped_ids().len() ==> !heap.heap_ids().contains(#[trigger] heap.popped_ids()[j]),
{
    heap.lemma_wf_facts();
    assert forall|j: int| 0 <= j < heap.popped_ids().len() implies !heap.heap_ids().contains(#[trigger] heap.popped_ids()[j]) by {
        if heap.heap_ids().contains(heap.popped_ids()[j]) {
            assert(heap.popped_ids().contains(heap.popped_ids()[j]));
        }
    }
}

/// `after` is what `pop` leaves of the non-empty heap `before`.
pub open spec fn pops_to(before: MinHeap, after: MinHeap) -> bool {
    &&& before.wf()
    &&& after.wf()
    &&& !before.heap_ids().is_empty()
    &&& after.heap_ids() == before.heap_ids().remove(before.top())
    &&& after.popped_ids() == seq![before.top()] + before.popped_ids()
    &&& after.values() == before.values()
    &&& after.key_order() == before.key_order()
}

/// `heaps` is a run of pops from `heaps[0]`, which has nothing popped yet.
pub open spec fn is_pop_run(heaps: Seq<MinHeap>) -> bool {
    &&& heaps.len() > 0
    &&& heaps[0].wf()
    &&& heaps[0].popped_ids().len() == 0
    &&& forall|t: int| 0 <= t < heaps.len() - 1 ==> pops_to(#[trigger] heaps[t], heaps[t + 1])
}

/// What holds after the first `t` pops of a run.
pub open spec fn drained_so_far(heaps: Seq<MinHeap>, t: int) -> bool {
    let h = heaps[t];
    let p = h.popped_ids();
    let order = heaps[0].key_order();
    let v = heaps[0].values();
    &&& h.wf()
    &&& h.values() == v
    &&& h.key_order() == order
    &&& p.no_duplicates()
    &&& forall|a: int, b: int| 0 <= a < b < p.len() ==> !order.precedes(v[p[a] as int], v[p[b] as int])
    &&& forall|x: usize, b: int|
        #[trigger] h.heap_ids().contains(x) && 0 <= b < p.len() ==> !order.precedes(v[x as int], v[#[trigger] p[b] as int])
    &&& forall|x: usize| #[trigger] heaps[0].heap_ids().contains(x) <==> (h.heap_ids().contains(x) || p.contains(x))
    &&& forall|b: int| 0 <= b < p.len() ==> !h.heap_ids().contains(#[trigger] p[b])
}

proof fn lemma_drain_prefix(heaps: Seq<MinHeap>, t: int)
    requires
        is_pop_run(heaps),
        0 <= t < heaps.len(),
    ensures
        drained_so_far(heaps, t),
    decreases t,
{
    if t == 0 {
        heaps[0].lemma_wf_facts();
    } else {
        lemma_drain_prefix(heaps, t - 1);
        let before = heaps[t - 1];
        let after = heaps[t];
        assert(pops_to(before, after));
        before.lemma_wf_facts();
        let m = before.top();
        let p = before.popped_ids();
        let q = after.popped_ids();
        let order = heaps[0].key_order();
        let v = heaps[0].values();
        assert(q[0] == m);
        assert forall|b: int| 0 <= b < p.len() implies #[trigger] q[b + 1] == p[b] by {}
        assert(!p.contains(m)) by {
            if p.contains(m) {
                let b = choose|b: int| 0 <= b < p.len() && p[b] == m;
                assert(!before.heap_ids().contains(p[b]));
            }
        }
        assert(q.no_duplicates()) by {
            assert forall|a: int, b: int| 0 <= a < q.len() && 0 <= b < q.len() && a != b implies q[a] != q[b] by {
                if a > 0 && b > 0 {
                    assert(q[a] == p[a - 1] && q[b] == p[b - 1]);
                } else if a > 0 {
                    assert(q[a] == p[a - 1]);
                } else {
                    assert(q[b] == p[b - 1]);
                }
            }
        }
        assert forall|a: int, b: int| 0 <= a < b < q.len() implies !order.precedes(v[q[a] as int], v[q[b] as int]) by {
            if a == 0 {
                assert(q[b] == p[b - 1]);
            } else {
                assert(q[a] == p[a - 1] && q[b] == p[b - 1]);
            }
        }
        assert forall|x: usize, b: int|
            #[trigger] after.heap_ids().contains(x) && 0 <= b < q.len() implies !order.precedes(v[x as int], v[#[trigger] q[b] as int]) by {
            assert(before.heap_ids().contains(x));
            if b > 0 {
                assert(q[b] == p[b - 1]);
            }
        }
        assert forall|x: usize| #[trigger] heaps[0].heap_ids().contains(x) <==> (after.heap_ids().contains(x) || q.contains(x)) by {
            if q.contains(x) {
                let b = choose|b: int| 0 <= b < q.len() && q[b] == x;
                if b > 0 {
                    assert(p[b - 1] == x);
                }
            }
            if p.contains(x) {
                let b = choose|b: int| 0 <= b < p.len() && p[b] == x;
                assert(q[b + 1] == x);
            }
            if x == m {
                assert(q[0] == x);
            }
        }
        assert forall|b: int| 0 <= b < q.len() implies !after.heap_ids().contains(#[trigger] q[b]) by {
            if b > 0 {
                assert(q[b] == p[b - 1]);
            }
        }
    }
}

/// Popping a heap until it is empty puts every element on the popped list,
/// each once, and the list, read from its front (the last popped first),
/// never has an element that comes strictly before one behind it: the values
/// came out of `pop` in order.
pub proof fn law_drain_in_order(heaps: Seq<MinHeap>)
    requires
        is_pop_run(heaps),
        heaps.last().heap_ids().is_empty(),
    ensures
        ({
            let p = heaps.last().popped_ids();
            let order = heaps[0].key_order();
            let v = heaps[0].values();
            &&& p.to_set() == heaps[0].heap_ids()
            &&& p.len() == heaps[0].heap_ids().len()
            &&& forall|a: int, b: int| 0 <= a < b < p.len() ==> !order.precedes(v[p[a] as int], v[p[b] as int])
        }),
{
    let n = heaps.len() - 1;
    lemma_drain_prefix(heaps, n);
    let p = heaps.last().popped_ids();
    assert(p.to_set() =~= heaps[0].heap_ids());
    p.unique_seq_to_set();
}

/// Popping a heap until it is empty and then moving every popped element back
/// (with a callback that accepts every value) gives back a heap with the
/// elements it started with and nothing popped; the count returned is the
/// number of elements.
///
/// `restored` and `moved` are what `move_chosen_popped_values_to_heap` leaves
/// and returns on the last heap of the run, as its contract states.
pub proof fn law_drain_and_restore<F: Fn(u64) -> bool>(
    heaps: Seq<MinHeap>,
    restored: &MinHeap,
    accept: F,
    moved: usize,
)
    requires
        is_pop_run(heaps),
        heaps.last().heap_ids().is_empty(),
        forall|v: u64, b: bool| call_ensures(accept, (v,), b) ==> b,
        restored.wf(),
        restored.popped_ids() == heaps.last().popped_ids().filter(
            |x: usize| !restored.heap_ids().contains(x),
        ),
        forall|x: usize|
            #[trigger] restored.heap_ids().contains(x) <==> (heaps.last().heap_ids().contains(x) || (
            heaps.last().popped_ids().contains(x) && !restored.popped_ids().contains(x))),
        forall|t: int|
            0 <= t < heaps.last().popped_ids().len() ==> call_ensures(
                accept,
                (heaps.last().values()[heaps.last().popped_ids()[t] as int],),
                !restored.popped_ids().contains(#[trigger] heaps.last().popped_ids()[t]),
            ),
        moved == heaps.last().popped_ids().len() - restored.popped_ids().len(),
    ensures
        restored.heap_ids() == heaps[0].heap_ids(),
        restored.popped_ids().len() == 0,
        moved == heaps[0].heap_ids().len(),
{
    law_drain_in_order(heaps);
    let d = heaps.last();
    let p = d.popped_ids();
    assert forall|t: int| 0 <= t < p.len() implies !restored.popped_ids().contains(#[trigger] p[t]) by {}
    assert(restored.popped_ids().len() == 0) by {
        broadcast use vstd::seq_lib::group_filter_ensures;
        if restored.popped_ids().len() > 0 {
            let x = restored.popped_ids()[0];
            assert(p.filter(|y: usize| !restored.heap_ids().contains(y)).contains(x));
            lemma_filter_within(p, |y: usize| !restored.heap_ids().contains(y), x);
            assert(p.contains(x));
            let t = choose|t: int| 0 <= t < p.len() && p[t] == x;
            assert(!restored.popped_ids().contains(p[t]));
            assert(restored.popped_ids().contains(x));
        }
    }
    assert(restored.heap_ids() =~= heaps[0].heap_ids()) by {
        assert forall|x: usize| restored.heap_ids().contains(x) <==> heaps[0].heap_ids().contains(x) by {
            assert(p.to_set().contains(x) == p.contains(x));
        }
    }
}

/// What a filter keeps comes from the filtered sequence.
proof fn lemma_filter_within(s: Seq<usize>, pred: spec_fn(usize) -> bool, x: usize)
    requires
        s.filter(pred).contains(x),
    ensures
        s.contains(x),
    decreases s.len(),
{
    reveal(Seq::filter);
    if s.len() > 0 {
        let rest = s.drop_last();
        if rest.filter(pred).contains(x) {
            lemma_filter_within(rest, pred, x);
            let t = choose|t: int| 0 <= t < rest.len() && rest[t] == x;
            assert(s[t] == x);
        } else {
            assert(s[s.len() - 1] == x);
        }
    }
}

/// Exchanging the elements at positions `i` and `j` gives the same layout as
/// exchanging those at `j` and `i`, and two heaps with consistent links that
/// have those layouts (and the same popped list and arena size) have the same
/// link records: `swap_nodes` leaves the same heap whichever of the two
/// elements it is given first.
pub proof fn law_swap_symmetric(start: &MinHeap, one: &MinHeap, other: &MinHeap, i: int, j: int)
    requires
        0 <= i < start.tree_layout().len(),
        0 <= j < start.tree_layout().len(),
        one.is_linked_tree(),
        other.is_linked_tree(),
        one.tree_layout() == swap_layout(start.tree_layout(), i, j),
        other.tree_layout() == swap_layout(start.tree_layout(), j, i),
        one.popped_ids() == other.popped_ids(),
        one.values().len() == other.values().len(),
    ensures
        one.tree_layout() == other.tree_layout(),
        one.link_records() == other.link_records(),
{
    let layout = start.tree_layout();
    assert(swap_layout(layout, i, j) =~= swap_layout(layout, j, i));
    MinHeap::lemma_links_follow_layout(one, other);
}

/// A handle stays active while other elements are pushed, removed or popped:
/// when the heap gains or loses an element other than `id`, `id` is in the
/// heap afterwards exactly when it was before; when `id` itself is removed or
/// popped, it is no longer in the heap (so `is_active` turns false) until it
/// is pushed or moved back.
pub proof fn law_active_across_other_changes(before: &MinHeap, after: &MinHeap, id: usize, other: usize)
    requires
        after.heap_ids() == before.heap_ids().insert(other) || after.heap_ids() == before.heap_ids().remove(
            other,
        ),
    ensures
        other != id ==> (after.heap_ids().contains(id) == before.heap_ids().contains(id)),
        after.heap_ids() == before.heap_ids().remove(other) ==> !after.heap_ids().contains(other),
{
}

/// `after` and `moved` are what `move_chosen_popped_values_to_heap` with
/// `accept` leaves and returns on `before`, as its contract states.
pub open spec fn moves_back<F: Fn(u64) -> bool>(before: MinHeap, after: MinHeap, accept: F, moved: usize) -> bool {
    &&& before.wf()
    &&& after.wf()
    &&& after.popped_ids() == before.popped_ids().filter(|x: usize| !after.heap_ids().contains(x))
    &&& forall|x: usize|
        #[trigger] after.heap_ids().contains(x) <==> (before.heap_ids().contains(x) || (
        before.popped_ids().contains(x) && !after.popped_ids().contains(x)))
    &&& forall|t: int|
        0 <= t < before.popped_ids().len() ==> call_ensures(
            accept,
            (before.values()[before.popped_ids()[t] as int],),
            !after.popped_ids().contains(#[trigger] before.popped_ids()[t]),
        )
    &&& moved == before.popped_ids().len() - after.popped_ids().len()
    &&& after.tree_layout() == push_all(
        before.key_order(),
        before.values(),
        before.tree_layout(),
        before.popped_ids().filter(|x: usize| !after.popped_ids().contains(x)),
    )
    &&& after.values() == before.values()
    &&& after.key_order() == before.key_order()
}

/// A filter that keeps every element gives the sequence back.
proof fn lemma_filter_all(s: Seq<usize>, pred: spec_fn(usize) -> bool)
    requires
        forall|i: int| 0 <= i < s.len() ==> pred(#[trigger] s[i]),
    ensures
        s.filter(pred) == s,
    decreases s.len(),
{
    reveal(Seq::filter);
    if s.len() > 0 {
        lemma_filter_all(s.drop_last(), pred);
        assert(s.drop_last().push(s.last()) =~= s);
    }
}

/// A filter that keeps no element gives the empty sequence.
proof fn lemma_filter_none(s: Seq<usize>, pred: spec_fn(usize) -> bool)
    requires
        forall|i: int| 0 <= i < s.len() ==> !pred(#[trigger] s[i]),
    ensures
        s.filter(pred) == Seq::<usize>::empty(),
    decreases s.len(),
{
    reveal(Seq::filter);
    if s.len() > 0 {
        lemma_filter_none(s.drop_last(), pred);
    }
    assert(s.filter(pred) =~= Seq::<usize>::empty());
}

/// Moving popped values back a second time with the same deterministic
/// callback moves nothing: it returns `0` and leaves the heap, its layout and
/// the popped list as the first call left them.
pub proof fn law_second_move_back_moves_nothing<F: Fn(u64) -> bool>(
    start: &MinHeap,
    once: &MinHeap,
    twice: &MinHeap,
    accept: F,
    first: usize,
    second: usize,
)
    requires
        forall|v: u64, b1: bool, b2: bool|
            call_ensures(accept, (v,), b1) && call_ensures(accept, (v,), b2) ==> b1 == b2,
        moves_back(*start, *once, accept, first),
        moves_back(*once, *twice, accept, second),
    ensures
        second == 0,
        twice.popped_ids() == once.popped_ids(),
        twice.heap_ids() == once.heap_ids(),
        twice.tree_layout() == once.tree_layout(),
        twice.values() == once.values(),
{
    let p0 = start.popped_ids();
    let p1 = once.popped_ids();
    let p2 = twice.popped_ids();
    once.lemma_wf_facts();
    twice.lemma_wf_facts();
    // every element still popped after the first call was refused by `accept`
    assert forall|t: int| 0 <= t < p1.len() implies p2.contains(#[trigger] p1[t]) by {
        let x = p1[t];
        assert(p0.filter(|y: usize| !once.heap_ids().contains(y)).contains(x));
        lemma_filter_within(p0, |y: usize| !once.heap_ids().contains(y), x);
        let u = choose|u: int| 0 <= u < p0.len() && p0[u] == x;
        assert(p1.contains(p0[u]));
        assert(call_ensures(accept, (start.values()[x as int],), false));
        assert(call_ensures(accept, (once.values()[p1[t] as int],), !p2.contains(p1[t])));
    }
    assert forall|t: int| 0 <= t < p1.len() implies !twice.heap_ids().contains(#[trigger] p1[t]) by {
        assert(p2.contains(p1[t]));
    }
    lemma_filter_all(p1, |x: usize| !twice.heap_ids().contains(x));
    lemma_filter_none(p1, |x: usize| !p2.contains(x));
    assert(twice.heap_ids() =~= once.heap_ids());
}

/// The order a heap ranks by is the integer order on values: `Ascending`
/// puts a strictly smaller value first, `Descending` a strictly larger one,
/// and neither ranks equal values apart.
pub proof fn law_key_order_is_integer_order(a: u64, b: u64)
    ensures
        KeyOrder::Ascending.precedes(a, b) <==> a < b,
        KeyOrder::Descending.precedes(a, b) <==> a > b,
        !KeyOrder::Ascending.precedes(a, a),
        !KeyOrder::Descending.precedes(a, a),
{
}

/// The top of a non-empty heap holds an extreme value: the smallest of the
/// heap (as integers) under `Ascending`, the largest under `Descending`.
pub proof fn law_top_is_extreme(heap: &MinHeap)
    requires
        heap.wf(),
        !heap.heap_ids().is_empty(),
    ensures
        heap.heap_ids().contains(heap.top()),
        heap.key_order() is Ascending ==> forall|j: usize|
            #[trigger] heap.heap_ids().contains(j) ==> heap.values()[heap.top() as int] <= heap.values()[j as int],
        heap.key_order() is Descending ==> forall|j: usize|
            #[trigger] heap.heap_ids().contains(j) ==> heap.values()[heap.top() as int] >= heap.values()[j as int],
{
    heap.lemma_wf_facts();
}

/// `pop` takes an extreme value: the element it puts at the front of the
/// popped list has a value (as an integer) no larger than any value left in
/// the heap under `Ascending`, and no smaller under `Descending`.
pub proof fn law_pop_takes_extreme(before: &MinHeap, after: &MinHeap)
    requires
        pops_to(*before, *after),
    ensures
        ({
            let taken = after.popped_ids()[0];
            let v = after.values();
            &&& before.heap_ids().contains(taken)
            &&& !after.heap_ids().contains(taken)
            &&& after.key_order() is Ascending ==> forall|j: usize|
                #[trigger] after.heap_ids().contains(j) ==> v[taken as int] <= v[j as int]
            &&& after.key_order() is Descending ==> forall|j: usize|
                #[trigger] after.heap_ids().contains(j) ==> v[taken as int] >= v[j as int]
        }),
{
    before.lemma_wf_facts();
    law_top_is_extreme(before);
    assert(after.popped_ids()[0] == before.top());
}

} // verus!
