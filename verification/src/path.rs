//! Positions in a complete binary tree laid out in breadth-first order.
//!
//! Index `0` is the root; the children of index `k` are `2k + 1` (left) and
//! `2k + 2` (right). `compute_path` gives, for an index, its depth and the
//! left/right turns that lead to it from the root (bit `0` is the first turn,
//! a set bit means "go right").

use vstd::prelude::*;
use vstd::arithmetic::power2::{pow2, lemma_pow2_unfold, lemma_pow2_pos, lemma2_to64};

verus! {

/// Depth of index `i` in the breadth-first layout.
pub open spec fn path_height(i: nat) -> nat
    decreases i,
{
    if i == 0 {
        0
    } else {
        path_height(((i - 1) / 2) as nat) + 1
    }
}

/// Turns from the root to index `i`: bit `t` tells which child is taken at
/// depth `t` (`0` left, `1` right).
pub open spec fn path_direction(i: nat) -> nat
    decreases i,
{
    if i == 0 {
        0
    } else {
        let p = ((i - 1) / 2) as nat;
        path_direction(p) + ((i - 1) % 2) as nat * pow2(path_height(p))
    }
}

/// The index reached from index `a` by following the `h` turns written in the
/// low bits of `d`.
pub open spec fn descend(a: nat, d: nat, h: nat) -> nat
    decreases h,
{
    if h == 0 {
        a
    } else {
        descend(2 * a + 1 + d % 2, d / 2, (h - 1) as nat)
    }
}

/// Following `h` turns never moves up, and at least one turn moves strictly down.
pub proof fn lemma_descend_grows(a: nat, d: nat, h: nat)
    ensures
        descend(a, d, h) >= a,
        h > 0 ==> descend(a, d, h) > a,
    decreases h,
{
    if h > 0 {
        lemma_descend_grows(2 * a + 1 + d % 2, d / 2, (h - 1) as nat);
    }
}

/// Appending one final turn `b` below the end of a path.
proof fn lemma_descend_append(a: nat, d: nat, h: nat, b: nat)
    requires
        d < pow2(h),
        b <= 1,
    ensures
        descend(a, d + b * pow2(h), h + 1) == 2 * descend(a, d, h) + 1 + b,
    decreases h,
{
    lemma_pow2_pos(h);
    if h == 0 {
        assert(pow2(0) == 1) by { lemma2_to64(); }
        assert(d == 0);
        assert(descend(2 * a + 1 + (d + b * pow2(h)) % 2, (d + b * pow2(h)) / 2, 0) == 2 * a + 1 + b);
    } else {
        lemma_pow2_unfold(h);
        let e = d + b * pow2(h);
        assert(pow2(h) == 2 * pow2((h - 1) as nat));
        assert(b * pow2(h) == 2 * (b * pow2((h - 1) as nat))) by (nonlinear_arith)
            requires pow2(h) == 2 * pow2((h - 1) as nat);
        assert(e % 2 == d % 2 && e / 2 == d / 2 + b * pow2((h - 1) as nat)) by (nonlinear_arith)
            requires e == d + 2 * (b * pow2((h - 1) as nat)), d >= 0;
        assert(d / 2 < pow2((h - 1) as nat)) by (nonlinear_arith)
            requires d < pow2(h), pow2(h) == 2 * pow2((h - 1) as nat);
        lemma_descend_append(2 * a + 1 + d % 2, d / 2, (h - 1) as nat, b);
    }
}

/// Basic bounds on a path: the turns fit in `height` bits and `2^height <= i + 1`.
pub proof fn lemma_path_bounds(i: nat)
    ensures
        path_direction(i) < pow2(path_height(i)),
        pow2(path_height(i)) <= i + 1,
        path_height(i) <= i,
    decreases i,
{
    if i == 0 {
        lemma2_to64();
    } else {
        let p = ((i - 1) / 2) as nat;
        lemma_path_bounds(p);
        let hp = path_height(p);
        lemma_pow2_unfold(hp + 1);
        assert(pow2(hp + 1) == 2 * pow2(hp));
        let b = ((i - 1) % 2) as nat;
        assert(b * pow2(hp) <= pow2(hp)) by (nonlinear_arith)
            requires b <= 1, pow2(hp) >= 0;
    }
}

/// Following the turns of `path_direction(i)` from the root reaches `i`.
pub proof fn lemma_path_reaches(i: nat)
    ensures
        descend(0, path_direction(i), path_height(i)) == i,
    decreases i,
{
    if i > 0 {
        let p = ((i - 1) / 2) as nat;
        let b = ((i - 1) % 2) as nat;
        lemma_path_reaches(p);
        lemma_path_bounds(p);
        lemma_descend_append(0, path_direction(p), path_height(p), b);
    }
}

/// The deepest turn of the path to `i > 0` tells whether `i` is a left child
/// (`0`) or a right child (`1`) of its parent.
pub proof fn lemma_path_last_turn(i: nat)
    requires
        i > 0,
    ensures
        path_height(i) > 0,
        path_direction(i) / pow2((path_height(i) - 1) as nat) == (i - 1) % 2,
{
    let p = ((i - 1) / 2) as nat;
    let b = ((i - 1) % 2) as nat;
    lemma_path_bounds(p);
    lemma_pow2_pos(path_height(p));
    vstd::arithmetic::div_mod::lemma_fundamental_div_mod_converse(
        path_direction(i) as int,
        pow2(path_height(p)) as int,
        b as int,
        path_direction(p) as int,
    );
}

/// Computes the height (depth) of index `i` in the breadth-first layout and
/// the turns that lead to it from the root.
pub fn compute_path(i: usize) -> (r: (usize, usize))
    ensures
        r.0 == path_height(i as nat),
        r.1 == path_direction(i as nat),
{
    let ghost i0 = i as nat;
    let mut i = i;
    let mut height: usize = 0;
    let mut direction: usize = 0;
    proof {
        lemma_path_bounds(i0);
        lemma2_to64();
    }
    while i > 0
        invariant
            i <= i0,
            i0 <= usize::MAX,
            path_height(i0) == path_height(i as nat) + height,
            path_direction(i0) == path_direction(i as nat) + direction * pow2(path_height(i as nat)),
            direction < pow2(height as nat),
            pow2(path_height(i0)) <= i0 + 1,
            path_height(i0) <= i0,
            pow2(0) == 1,
        decreases i,
    {
        let ghost p = ((i - 1) / 2) as nat;
        let ghost b = ((i - 1) % 2) as nat;
        proof {
            lemma_path_bounds(i as nat);
            lemma_pow2_unfold(height as nat + 1);
            lemma_pow2_unfold(path_height(p) + 1);
            vstd::arithmetic::power2::lemma_pow2_adds(height as nat + 1, path_height(p));
            vstd::arithmetic::power2::lemma_pow2_adds(height as nat, path_height(i as nat));
            lemma_pow2_pos(path_height(p));
            assert(pow2(height as nat) * pow2(path_height(i as nat)) == pow2(path_height(i0)));
            assert(direction < pow2(height as nat));
            assert(pow2(height as nat + 1) <= pow2(path_height(i0))) by {
                assert(path_height(i as nat) >= 1);
                vstd::arithmetic::power2::lemma_pow2_strictly_increases(height as nat, path_height(i0));
                if height as nat + 1 < path_height(i0) {
                    vstd::arithmetic::power2::lemma_pow2_strictly_increases(height as nat + 1, path_height(i0));
                }
            }
            assert(direction * 2 + b < pow2(height as nat + 1));
            assert(direction * 2 + b <= usize::MAX);
            assert(path_direction(i as nat) == path_direction(p) + b * pow2(path_height(p)));
            assert(direction * pow2(path_height(i as nat)) == (direction * 2) * pow2(path_height(p)))
                by (nonlinear_arith)
                requires pow2(path_height(i as nat)) == 2 * pow2(path_height(p));
            assert(b * pow2(path_height(p)) + (direction * 2) * pow2(path_height(p))
                == (direction * 2 + b) * pow2(path_height(p))) by (nonlinear_arith);
        }
        let im1 = i - 1;
        let low = im1 & 1;
        assert(low == im1 % 2) by (bit_vector)
            requires low == im1 & 1;
        let d = direction;
        proof {
            lemma2_to64();
            vstd::bits::lemma_usize_shl_is_mul(d, 1);
        }
        let shifted = d << 1usize;
        assert(shifted | low == shifted + low) by (bit_vector)
            requires low <= 1, shifted % 2 == 0;
        direction = shifted | low;
        i = im1 / 2;
        height += 1;
    }
    assert(path_height(0) == 0 && path_direction(0) == 0);
    assert(direction * pow2(0) == direction);
    (height, direction)
}

} // verus!
