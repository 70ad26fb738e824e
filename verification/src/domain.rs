//! Domains: which tiles a lattice point may still take, as one flag per tile.

use vstd::prelude::*;

verus! {

/// The number of tiles that `mask` still allows.
pub open spec fn count_allowed(mask: Seq<bool>) -> nat
    decreases mask.len(),
{
    if mask.len() == 0 {
        0
    } else {
        count_allowed(mask.drop_last()) + if mask.last() { 1nat } else { 0nat }
    }
}

/// The lowest tile that `mask` allows; the length of `mask` if it allows none.
pub open spec fn lowest_allowed(mask: Seq<bool>) -> int
    decreases mask.len(),
{
    if mask.len() == 0 {
        0
    } else if mask[0] {
        0
    } else {
        1 + lowest_allowed(mask.subrange(1, mask.len() as int))
    }
}

/// Every tile that `inner` allows, `outer` allows too.
pub open spec fn mask_within(inner: Seq<bool>, outer: Seq<bool>) -> bool {
    &&& inner.len() == outer.len()
    &&& forall|t: int| 0 <= t < inner.len() && #[trigger] inner[t] ==> outer[t]
}

/// The domain of `tiles` tiles that allows all of them.
pub open spec fn open_mask(tiles: nat) -> Seq<bool> {
    Seq::new(tiles, |t: int| true)
}

/// The domain of `tiles` tiles that allows `tile` alone.
pub open spec fn single_mask(tiles: nat, tile: int) -> Seq<bool> {
    Seq::new(tiles, |t: int| t == tile)
}

/// The allowed tiles of `mask` in ascending order.
pub open spec fn allowed_list(mask: Seq<bool>) -> Seq<usize>
    decreases mask.len(),
{
    if mask.len() == 0 {
        Seq::empty()
    } else if mask.last() {
        allowed_list(mask.drop_last()).push((mask.len() - 1) as usize)
    } else {
        allowed_list(mask.drop_last())
    }
}

/// A domain allows no more tiles than it has flags: none exactly where every
/// flag is down, and as many exactly where every flag is up.
pub proof fn lemma_count_bounds(mask: Seq<bool>)
    ensures
        count_allowed(mask) <= mask.len(),
        count_allowed(mask) == 0 <==> (forall|t: int| 0 <= t < mask.len() ==> !mask[t]),
        count_allowed(mask) == mask.len() <==> (forall|t: int| 0 <= t < mask.len() ==> mask[t]),
    decreases mask.len(),
{
    if mask.len() > 0 {
        let front = mask.drop_last();
        lemma_count_bounds(front);
        assert(forall|t: int| 0 <= t < front.len() ==> front[t] == mask[t]);
        if count_allowed(mask) == 0 {
            assert forall|t: int| 0 <= t < mask.len() implies !mask[t] by {
                if t < front.len() {
                    assert(!front[t]);
                }
            }
        }
        if count_allowed(mask) == mask.len() {
            assert forall|t: int| 0 <= t < mask.len() implies mask[t] by {
                if t < front.len() {
                    assert(front[t]);
                }
            }
        }
    }
}

/// A domain inside another allows no more tiles, and as many only if the two
/// are equal.
pub proof fn lemma_count_within(inner: Seq<bool>, outer: Seq<bool>)
    requires
        mask_within(inner, outer),
    ensures
        count_allowed(inner) <= count_allowed(outer),
        count_allowed(inner) == count_allowed(outer) ==> inner == outer,
    decreases inner.len(),
{
    if inner.len() > 0 {
        let a = inner.drop_last();
        let b = outer.drop_last();
        assert forall|t: int| 0 <= t < a.len() && #[trigger] a[t] implies b[t] by {
            assert(inner[t]);
        }
        lemma_count_within(a, b);
        if inner.last() {
            assert(inner[inner.len() - 1]);
        }
        if count_allowed(inner) == count_allowed(outer) {
            assert(a == b);
            assert(inner.last() == outer.last());
            assert(inner =~= a.push(inner.last()));
            assert(outer =~= b.push(outer.last()));
        }
    } else {
        assert(inner =~= outer);
    }
}

/// The open domain allows every tile.
pub proof fn lemma_count_open(tiles: nat)
    ensures
        count_allowed(open_mask(tiles)) == tiles,
{
    lemma_count_bounds(open_mask(tiles));
}

/// A single-tile domain allows one tile.
pub proof fn lemma_count_single(tiles: nat, tile: int)
    requires
        0 <= tile < tiles,
    ensures
        count_allowed(single_mask(tiles, tile)) == 1,
    decreases tiles,
{
    let mask = single_mask(tiles, tile);
    let front = mask.drop_last();
    if tile == tiles - 1 {
        lemma_count_bounds(front);
    } else {
        assert(front =~= single_mask((tiles - 1) as nat, tile));
        lemma_count_single((tiles - 1) as nat, tile);
    }
}

/// Where a domain allows a tile, `lowest_allowed` names the first such tile.
pub proof fn lemma_lowest_allowed(mask: Seq<bool>)
    ensures
        0 <= lowest_allowed(mask) <= mask.len(),
        forall|t: int| 0 <= t < lowest_allowed(mask) ==> !mask[t],
        lowest_allowed(mask) < mask.len() ==> mask[lowest_allowed(mask)],
        count_allowed(mask) > 0 ==> lowest_allowed(mask) < mask.len(),
    decreases mask.len(),
{
    lemma_count_bounds(mask);
    if mask.len() > 0 && !mask[0] {
        let rest = mask.subrange(1, mask.len() as int);
        lemma_lowest_allowed(rest);
        lemma_count_bounds(rest);
        assert forall|t: int| 0 <= t < lowest_allowed(mask) implies !mask[t] by {
            if t > 0 {
                assert(rest[t - 1] == mask[t]);
            }
        }
        if lowest_allowed(mask) < mask.len() {
            assert(rest[lowest_allowed(rest)] == mask[lowest_allowed(mask)]);
        }
        if count_allowed(mask) > 0 {
            let t = choose|t: int| 0 <= t < mask.len() && mask[t];
            assert(rest[t - 1]);
        }
    }
}

/// A domain with exactly one allowed tile is the single-tile domain of its
/// lowest allowed tile.
pub proof fn lemma_sole_tile(mask: Seq<bool>)
    requires
        count_allowed(mask) == 1,
    ensures
        0 <= lowest_allowed(mask) < mask.len(),
        mask == single_mask(mask.len(), lowest_allowed(mask)),
{
    lemma_lowest_allowed(mask);
    let tile = lowest_allowed(mask);
    let single = single_mask(mask.len(), tile);
    lemma_count_single(mask.len(), tile);
    assert(mask_within(single, mask));
    lemma_count_within(single, mask);
}

/// The allowed tiles of a domain, listed: as many as the count, ascending,
/// and exactly the tiles that the domain allows.
pub proof fn lemma_allowed_list(mask: Seq<bool>)
    requires
        mask.len() <= usize::MAX,
    ensures
        allowed_list(mask).len() == count_allowed(mask),
        forall|k: int|
            0 <= k < allowed_list(mask).len() ==> 0 <= #[trigger] allowed_list(mask)[k]
                < mask.len() && mask[allowed_list(mask)[k] as int],
        forall|j: int, k: int|
            0 <= j < k < allowed_list(mask).len() ==> allowed_list(mask)[j] < allowed_list(
                mask,
            )[k],
        forall|t: int|
            0 <= t < mask.len() && mask[t] ==> exists|k: int|
                0 <= k < allowed_list(mask).len() && #[trigger] allowed_list(mask)[k] == t,
    decreases mask.len(),
{
    if mask.len() > 0 {
        let front = mask.drop_last();
        lemma_allowed_list(front);
        let list = allowed_list(mask);
        let before = allowed_list(front);
        assert forall|t: int| 0 <= t < mask.len() && mask[t] implies exists|k: int|
            0 <= k < list.len() && #[trigger] list[k] == t by {
            if t < front.len() {
                assert(front[t]);
                let k = choose|k: int| 0 <= k < before.len() && #[trigger] before[k] == t;
                assert(list[k] == t);
            } else {
                assert(mask.last());
                assert(list == before.push((mask.len() - 1) as usize));
                assert(list[list.len() - 1] == t);
            }
        }
    }
}

/// The domain that allows every one of `tiles` tiles.
pub fn init_mask(tiles: usize) -> (mask: Vec<bool>)
    ensures
        mask@ == open_mask(tiles as nat),
{
    let mut mask: Vec<bool> = Vec::new();
    let mut t: usize = 0;
    while t < tiles
        invariant
            t <= tiles,
            mask@ == open_mask(t as nat),
        decreases tiles - t,
    {
        mask.push(true);
        t += 1;
        assert(mask@ =~= open_mask(t as nat));
    }
    mask
}

/// The domain of `tiles` tiles that allows `tile` alone. A `tile` that is no
/// tile of the universe gives the domain that allows nothing.
pub fn mask_from_idx(tiles: usize, tile: usize) -> (mask: Vec<bool>)
    ensures
        mask@ == single_mask(tiles as nat, tile as int),
{
    let mut mask: Vec<bool> = Vec::new();
    let mut t: usize = 0;
    while t < tiles
        invariant
            t <= tiles,
            mask@ == single_mask(t as nat, tile as int),
        decreases tiles - t,
    {
        mask.push(t == tile);
        t += 1;
        assert(mask@ =~= single_mask(t as nat, tile as int));
    }
    mask
}

/// How many tiles `mask` allows.
pub fn allowed_count(mask: &Vec<bool>) -> (count: usize)
    ensures
        count == count_allowed(mask@),
{
    let mut count: usize = 0;
    let mut t: usize = 0;
    while t < mask.len()
        invariant
            t <= mask.len(),
            count <= t,
            count == count_allowed(mask@.take(t as int)),
        decreases mask.len() - t,
    {
        assert(mask@.take(t + 1).drop_last() =~= mask@.take(t as int));
        if mask[t] {
            count += 1;
        }
        t += 1;
    }
    assert(mask@.take(t as int) =~= mask@);
    count
}

/// The tiles that `mask` allows, in ascending order.
pub fn allowed_tiles(mask: &Vec<bool>) -> (tiles: Vec<usize>)
    ensures
        tiles@ == allowed_list(mask@),
{
    let mut tiles: Vec<usize> = Vec::new();
    let mut t: usize = 0;
    while t < mask.len()
        invariant
            t <= mask.len(),
            tiles@ == allowed_list(mask@.take(t as int)),
        decreases mask.len() - t,
    {
        assert(mask@.take(t + 1).drop_last() =~= mask@.take(t as int));
        if mask[t] {
            tiles.push(t);
        }
        t += 1;
    }
    assert(mask@.take(t as int) =~= mask@);
    tiles
}

/// The lowest tile that `mask` allows, if it allows any.
pub fn first_allowed(mask: &Vec<bool>) -> (tile: Option<usize>)
    ensures
        match tile {
            Some(t) => count_allowed(mask@) > 0 && t == lowest_allowed(mask@),
            None => count_allowed(mask@) == 0,
        },
{
    let mut t: usize = 0;
    while t < mask.len()
        invariant
            t <= mask.len(),
            forall|u: int| 0 <= u < t ==> !mask@[u],
        decreases mask.len() - t,
    {
        if mask[t] {
            proof {
                lemma_count_bounds(mask@);
            }
            assert(lowest_allowed(mask@) == t) by {
                lemma_lowest_allowed(mask@);
                if lowest_allowed(mask@) < t {
                    assert(mask@[lowest_allowed(mask@)]);
                }
            }
            return Some(t);
        }
        t += 1;
    }
    proof {
        lemma_count_bounds(mask@);
    }
    None
}

} // verus!
