//! The order in which points of equal entropy are chosen.
//!
//! Every coordinate of a point gives a key: its absolute value, whether it
//! is negative, and its axis. Keys are ordered by absolute value, then
//! non-negative before negative, then higher axis before lower (the order of
//! the negated axis). The keys of a point are sorted, and two points are
//! compared by their sorted keys, key by key. The order prefers points near
//! the origin.

use vstd::prelude::*;
use vstd::relations::{sorted_by, total_ordering};
use vstd::seq_lib::{
    lemma_sorted_unique,
    to_multiset_build,
    to_multiset_contains,
    to_multiset_insert,
};
use crate::position::{NDIM, Position};

verus! {

/// The key of one coordinate.
#[derive(Clone, Copy, Debug, PartialEq, Eq, Structural)]
pub struct AxisKey {
    /// The absolute value of the coordinate.
    pub magnitude: u64,
    /// Whether the coordinate is negative.
    pub negative: bool,
    /// The axis of the coordinate.
    pub axis: usize,
}

/// The absolute value of `c`.
pub open spec fn magnitude_of(c: i64) -> u64 {
    if c < 0 {
        (-(c as int)) as u64
    } else {
        c as u64
    }
}

/// The key of the coordinate of `p` on `axis`.
pub open spec fn axis_key(p: Seq<i64>, axis: int) -> AxisKey {
    AxisKey { magnitude: magnitude_of(p[axis]), negative: p[axis] < 0, axis: axis as usize }
}

/// `a` comes strictly before `b`: the triple of absolute value, negativity
/// and negated axis of `a` is lexicographically below that of `b`.
pub open spec fn key_before(a: AxisKey, b: AxisKey) -> bool {
    ||| a.magnitude < b.magnitude
    ||| (a.magnitude == b.magnitude && !a.negative && b.negative)
    ||| (a.magnitude == b.magnitude && a.negative == b.negative && -(a.axis as int) < -(
        b.axis as int))
}

/// `a` comes before `b` or is `b`.
pub open spec fn key_upto(a: AxisKey, b: AxisKey) -> bool {
    key_before(a, b) || a == b
}

/// The keys of `p`, axis by axis.
pub open spec fn axis_keys(p: Seq<i64>) -> Seq<AxisKey> {
    Seq::new(NDIM as nat, |axis: int| axis_key(p, axis))
}

/// The keys of `p` in ascending order.
pub open spec fn sorted_keys(p: Seq<i64>) -> Seq<AxisKey> {
    axis_keys(p).sort_by(|a: AxisKey, b: AxisKey| key_upto(a, b))
}

/// `a` is lexicographically below `b`: at the first place where the two
/// differ, the key of `a` comes before that of `b`.
pub open spec fn keys_before(a: Seq<AxisKey>, b: Seq<AxisKey>) -> bool {
    exists|i: int|
        0 <= i < a.len() && i < b.len() && #[trigger] key_before(a[i], b[i]) && forall|j: int|
            0 <= j < i ==> a[j] == b[j]
}

/// `p` is chosen before `q` where their entropies are equal.
pub open spec fn closer(p: Seq<i64>, q: Seq<i64>) -> bool {
    keys_before(sorted_keys(p), sorted_keys(q))
}

/// The order of keys is total.
pub proof fn lemma_key_order()
    ensures
        total_ordering(|a: AxisKey, b: AxisKey| key_upto(a, b)),
{
}

/// What the sorted keys of a point are: its keys, rearranged, ascending.
pub proof fn lemma_sorted_keys(p: Seq<i64>)
    ensures
        sorted_keys(p).len() == NDIM,
        sorted_keys(p).to_multiset() == axis_keys(p).to_multiset(),
        forall|i: int, j: int|
            0 <= i < j < NDIM ==> key_upto(#[trigger] sorted_keys(p)[i], #[trigger] sorted_keys(
                p,
            )[j]),
{
    lemma_key_order();
    let leq = |a: AxisKey, b: AxisKey| key_upto(a, b);
    axis_keys(p).lemma_sort_by_ensures(leq);
    vstd::seq_lib::to_multiset_len(axis_keys(p));
    vstd::seq_lib::to_multiset_len(sorted_keys(p));
    assert forall|i: int, j: int| 0 <= i < j < NDIM implies key_upto(
        #[trigger] sorted_keys(p)[i],
        #[trigger] sorted_keys(p)[j],
    ) by {
        assert(leq(sorted_keys(p)[i], sorted_keys(p)[j]));
    }
}

/// Two points with the same sorted keys are the same point.
pub proof fn lemma_sorted_keys_injective(p: Seq<i64>, q: Seq<i64>)
    requires
        p.len() == NDIM,
        q.len() == NDIM,
        sorted_keys(p) == sorted_keys(q),
    ensures
        p == q,
{
    lemma_sorted_keys(p);
    lemma_sorted_keys(q);
    assert forall|axis: int| 0 <= axis < NDIM implies p[axis] == q[axis] by {
        let key = axis_keys(p)[axis];
        assert(axis_keys(p).contains(key));
        to_multiset_contains(axis_keys(p), key);
        to_multiset_contains(axis_keys(q), key);
        assert(axis_keys(q).contains(key));
        let other = choose|other: int| 0 <= other < axis_keys(q).len() && axis_keys(q)[other] == key;
        assert(axis_keys(q)[other].axis == other);
        assert(other == axis);
        assert(magnitude_of(p[axis]) == magnitude_of(q[axis]));
        assert((p[axis] < 0) == (q[axis] < 0));
    }
    assert(p =~= q);
}

/// Of two different points, one is chosen before the other.
pub proof fn lemma_closer_total(p: Seq<i64>, q: Seq<i64>)
    requires
        p.len() == NDIM,
        q.len() == NDIM,
        p != q,
    ensures
        closer(p, q) || closer(q, p),
{
    let a = sorted_keys(p);
    let b = sorted_keys(q);
    lemma_sorted_keys(p);
    lemma_sorted_keys(q);
    if a == b {
        lemma_sorted_keys_injective(p, q);
    }
    lemma_first_difference(a, b, 0);
}

/// Lists of one length that agree up to `from` and differ have a first place
/// where they differ, and there one key comes before the other.
proof fn lemma_first_difference(a: Seq<AxisKey>, b: Seq<AxisKey>, from: int)
    requires
        a.len() == b.len(),
        a != b,
        0 <= from <= a.len(),
        forall|j: int| 0 <= j < from ==> a[j] == b[j],
    ensures
        keys_before(a, b) || keys_before(b, a),
    decreases a.len() - from,
{
    if from == a.len() {
        assert(a =~= b);
    } else if a[from] == b[from] {
        lemma_first_difference(a, b, from + 1);
    } else if key_before(a[from], b[from]) {
        assert(key_before(a[from], b[from]) && forall|j: int| 0 <= j < from ==> a[j] == b[j]);
    } else {
        assert(key_before(b[from], a[from]) && forall|j: int| 0 <= j < from ==> b[j] == a[j]);
    }
}

/// No list is below itself, and of two lists at most one is below the other.
pub proof fn lemma_keys_before_asymmetric(a: Seq<AxisKey>, b: Seq<AxisKey>)
    ensures
        !(keys_before(a, b) && keys_before(b, a)),
        !keys_before(a, a),
{
    if keys_before(a, b) && keys_before(b, a) {
        let i = choose|i: int|
            0 <= i < a.len() && i < b.len() && #[trigger] key_before(a[i], b[i]) && forall|j: int|
                0 <= j < i ==> a[j] == b[j];
        let k = choose|k: int|
            0 <= k < b.len() && k < a.len() && #[trigger] key_before(b[k], a[k]) && forall|j: int|
                0 <= j < k ==> b[j] == a[j];
        if i < k {
            assert(b[i] == a[i]);
        } else if k < i {
            assert(a[k] == b[k]);
        }
    }
    if keys_before(a, a) {
        let i = choose|i: int|
            0 <= i < a.len() && i < a.len() && #[trigger] key_before(a[i], a[i]) && forall|j: int|
                0 <= j < i ==> a[j] == a[j];
    }
}

/// The order of lists is transitive.
pub proof fn lemma_keys_before_transitive(a: Seq<AxisKey>, b: Seq<AxisKey>, c: Seq<AxisKey>)
    requires
        keys_before(a, b),
        keys_before(b, c),
    ensures
        keys_before(a, c),
{
    let i = choose|i: int|
        0 <= i < a.len() && i < b.len() && #[trigger] key_before(a[i], b[i]) && forall|j: int|
            0 <= j < i ==> a[j] == b[j];
    let k = choose|k: int|
        0 <= k < b.len() && k < c.len() && #[trigger] key_before(b[k], c[k]) && forall|j: int|
            0 <= j < k ==> b[j] == c[j];
    let m = if i < k { i } else { k };
    if i < k {
        assert(b[i] == c[i]);
    } else if k < i {
        assert(a[k] == b[k]);
    }
    assert(key_before(a[m], c[m]));
    assert forall|j: int| 0 <= j < m implies a[j] == c[j] by {
        assert(a[j] == b[j]);
        assert(b[j] == c[j]);
    }
}

/// The key of the coordinate of `pos` on `axis`.
pub fn key_of_axis(pos: &Position, axis: usize) -> (key: AxisKey)
    requires
        axis < NDIM,
    ensures
        key == axis_key(pos@, axis as int),
{
    let c: i64 = pos[axis];
    let magnitude: u64 = if c == i64::MIN {
        0x8000_0000_0000_0000
    } else if c < 0 {
        (-c) as u64
    } else {
        c as u64
    };
    AxisKey { magnitude, negative: c < 0, axis }
}

/// Whether `a` comes strictly before `b`.
pub fn is_key_before(a: &AxisKey, b: &AxisKey) -> (before: bool)
    ensures
        before == key_before(*a, *b),
{
    if a.magnitude != b.magnitude {
        a.magnitude < b.magnitude
    } else if a.negative != b.negative {
        !a.negative
    } else {
        a.axis > b.axis
    }
}

/// The keys of `pos` in ascending order.
pub fn sorted_axis_keys(pos: &Position) -> (keys: Vec<AxisKey>)
    ensures
        keys@ == sorted_keys(pos@),
{
    let ghost leq = |a: AxisKey, b: AxisKey| key_upto(a, b);
    let ghost all = axis_keys(pos@);
    let mut keys: Vec<AxisKey> = Vec::new();
    let mut axis: usize = 0;
    assert(keys@ =~= all.take(0));
    while axis < NDIM
        invariant
            axis <= NDIM,
            all == axis_keys(pos@),
            leq == (|a: AxisKey, b: AxisKey| key_upto(a, b)),
            keys@.len() == axis,
            keys@.to_multiset() == all.take(axis as int).to_multiset(),
            sorted_by(keys@, leq),
        decreases NDIM - axis,
    {
        let key = key_of_axis(pos, axis);
        let mut place: usize = 0;
        while place < keys.len() && is_key_before(&keys[place], &key)
            invariant
                place <= keys@.len(),
                forall|j: int| 0 <= j < place ==> key_before(keys@[j], key),
            decreases keys.len() - place,
        {
            place += 1;
        }
        let ghost held = keys@;
        keys.insert(place, key);
        proof {
            to_multiset_insert(held, place as int, key);
            to_multiset_build(all.take(axis as int), key);
            assert(all.take(axis as int).push(key) =~= all.take(axis + 1));
            assert forall|i: int, j: int| 0 <= i < j < keys@.len() implies #[trigger] leq(
                keys@[i],
                keys@[j],
            ) by {
                if j < place {
                    assert(leq(held[i], held[j]));
                } else if j == place {
                    assert(key_before(held[i], key));
                } else if i < place {
                    assert(leq(held[i], held[j - 1]));
                } else if i == place {
                    assert(!key_before(held[place as int], key));
                    assert(leq(held[place as int], held[j - 1]) || j - 1 == place);
                } else {
                    assert(leq(held[i - 1], held[j - 1]));
                }
            }
        }
        axis += 1;
    }
    proof {
        assert(all.take(axis as int) =~= all);
        lemma_key_order();
        all.lemma_sort_by_ensures(leq);
        lemma_sorted_unique(keys@, all.sort_by(leq), leq);
    }
    keys
}

/// Whether `a` is chosen before `b` where their entropies are equal.
pub fn is_closer(a: &Position, b: &Position) -> (before: bool)
    ensures
        before == closer(a@, b@),
{
    let keys_a = sorted_axis_keys(a);
    let keys_b = sorted_axis_keys(b);
    proof {
        lemma_sorted_keys(a@);
        lemma_sorted_keys(b@);
    }
    let mut i: usize = 0;
    while i < NDIM
        invariant
            i <= NDIM,
            keys_a@ == sorted_keys(a@),
            keys_b@ == sorted_keys(b@),
            keys_a@.len() == NDIM,
            keys_b@.len() == NDIM,
            forall|j: int| 0 <= j < i ==> keys_a@[j] == keys_b@[j],
        decreases NDIM - i,
    {
        if is_key_before(&keys_a[i], &keys_b[i]) {
            assert(key_before(keys_a@[i as int], keys_b@[i as int]));
            return true;
        }
        if is_key_before(&keys_b[i], &keys_a[i]) {
            proof {
                assert(key_before(keys_b@[i as int], keys_a@[i as int]) && forall|j: int|
                    0 <= j < i ==> keys_b@[j] == keys_a@[j]);
                lemma_keys_before_asymmetric(keys_a@, keys_b@);
            }
            return false;
        }
        i += 1;
    }
    proof {
        assert(keys_a@ =~= keys_b@);
        lemma_keys_before_asymmetric(keys_a@, keys_a@);
    }
    false
}

} // verus!
