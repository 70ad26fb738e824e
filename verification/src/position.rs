//! Lattice points and the steps between them.

use vstd::prelude::*;

verus! {

/// The number of axes of the lattice.
pub const NDIM: usize = 4;

/// A lattice point: one coordinate per axis.
pub type Position = [i64; NDIM];

/// A step is one unit along one axis of the lattice, forward or backward.
pub open spec fn is_step(axis: usize, dir: i64) -> bool {
    axis < NDIM && (dir == 1 || dir == -1)
}

/// The point one step from `p` along `axis` in direction `dir`. Coordinates
/// wrap at the ends of their range, so every point has a neighbour at every
/// step.
pub open spec fn shifted(p: Seq<i64>, axis: usize, dir: i64) -> Seq<i64> {
    p.update(axis as int, vstd::wrapping::i64_specs::wrapping_add(p[axis as int], dir))
}

/// The point all of whose coordinates are zero.
pub open spec fn origin_point() -> Seq<i64> {
    Seq::new(NDIM as nat, |k: int| 0i64)
}

/// A step leads to another point.
pub proof fn lemma_shifted_differs(p: Seq<i64>, axis: usize, dir: i64)
    requires
        p.len() == NDIM,
        is_step(axis, dir),
    ensures
        shifted(p, axis, dir) != p,
        shifted(p, axis, dir).len() == NDIM,
{
    assert(shifted(p, axis, dir)[axis as int] != p[axis as int]);
}

/// The origin of the lattice.
pub fn origin() -> (pos: Position)
    ensures
        pos@ == origin_point(),
{
    let pos: Position = [0, 0, 0, 0];
    assert(pos@ =~= origin_point());
    pos
}

/// The point one step from `pos` along `axis` in direction `dir`.
pub fn neighbor_of(pos: &Position, axis: usize, dir: i64) -> (next: Position)
    requires
        axis < NDIM,
    ensures
        next@ == shifted(pos@, axis, dir),
{
    let mut next: Position = *pos;
    next[axis] = pos[axis].wrapping_add(dir);
    next
}

/// Whether `a` and `b` are the same point.
pub fn same_position(a: &Position, b: &Position) -> (same: bool)
    ensures
        same == (a@ == b@),
{
    let mut k: usize = 0;
    while k < NDIM
        invariant
            k <= NDIM,
            forall|j: int| 0 <= j < k ==> a@[j] == b@[j],
        decreases NDIM - k,
    {
        if a[k] != b[k] {
            return false;
        }
        k += 1;
    }
    assert(a@ =~= b@);
    true
}

} // verus!
