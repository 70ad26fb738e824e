//! The weight table: one selection weight and one entropy term per tile.
//!
//! Weights are whole numbers. The share of a tile is its weight over the sum
//! of all weights, so the shares of all tiles add up to one by construction.
//! The entropy term of a tile is `-p * log2(p)` of its share `p`, in fixed
//! point; the table takes the terms as given.

use vstd::prelude::*;
use crate::rng::DRAW_MAX;

verus! {

/// The sum of `weights`.
pub open spec fn sum_weights(weights: Seq<u64>) -> nat
    decreases weights.len(),
{
    if weights.len() == 0 {
        0
    } else {
        sum_weights(weights.drop_last()) + weights.last() as nat
    }
}

/// The entropy score of `mask`: the sum of the terms of the tiles that it
/// allows. The terms are not rescaled to the tiles that remain.
pub open spec fn entropy_of(terms: Seq<u64>, mask: Seq<bool>) -> nat
    decreases mask.len(),
{
    if mask.len() == 0 {
        0
    } else {
        let t = mask.len() - 1;
        entropy_of(terms, mask.drop_last()) + if mask.last() && t < terms.len() {
            terms[t] as nat
        } else {
            0nat
        }
    }
}

/// The weight of the first `k` candidates together.
pub open spec fn mass_before(weights: Seq<u64>, candidates: Seq<usize>, k: int) -> nat
    decreases k,
{
    if k <= 0 {
        0
    } else {
        mass_before(weights, candidates, k - 1) + weights[candidates[k - 1] as int] as nat
    }
}

/// The candidates are tiles of the table, each greater than the one before.
pub open spec fn ascending_tiles(candidates: Seq<usize>, tiles: nat) -> bool {
    &&& forall|k: int| 0 <= k < candidates.len() ==> #[trigger] candidates[k] < tiles
    &&& forall|j: int, k: int| 0 <= j < k < candidates.len() ==> candidates[j] < candidates[k]
}

/// The candidates up to and including position `k` hold a larger part of the
/// candidates' whole weight than `draw` is of `DRAW_MAX`.
pub open spec fn mass_exceeds(
    weights: Seq<u64>,
    candidates: Seq<usize>,
    draw: u32,
    k: int,
) -> bool {
    mass_before(weights, candidates, k + 1) * DRAW_MAX as int > draw as int * mass_before(
        weights,
        candidates,
        candidates.len() as int,
    )
}

/// The position of the weighted choice among `candidates`: the first whose
/// cumulative share exceeds the variate `draw / DRAW_MAX`, and the last where
/// none does.
pub open spec fn pick_position(weights: Seq<u64>, candidates: Seq<usize>, draw: u32) -> int {
    if exists|k: int| 0 <= k < candidates.len() && mass_exceeds(weights, candidates, draw, k) {
        choose|k: int|
            0 <= k < candidates.len() && mass_exceeds(weights, candidates, draw, k) && forall|
                j: int,
            |
                0 <= j < k ==> !mass_exceeds(weights, candidates, draw, j)
    } else {
        candidates.len() - 1
    }
}

/// The tile of the weighted choice among `candidates`.
pub open spec fn weighted_pick(weights: Seq<u64>, candidates: Seq<usize>, draw: u32) -> usize {
    candidates[pick_position(weights, candidates, draw)]
}

/// The sum of the first weights grows by each further weight, up to the sum
/// of all.
pub proof fn lemma_sum_weights_take(weights: Seq<u64>, k: int)
    requires
        0 <= k <= weights.len(),
    ensures
        sum_weights(weights.take(k)) <= sum_weights(weights),
        k < weights.len() ==> sum_weights(weights.take(k + 1)) == sum_weights(weights.take(k))
            + weights[k],
    decreases weights.len() - k,
{
    if k < weights.len() {
        assert(weights.take(k + 1).drop_last() =~= weights.take(k));
        lemma_sum_weights_take(weights, k + 1);
    } else {
        assert(weights.take(k) =~= weights);
    }
}

/// The share of every tile, its weight over the sum of all weights, is
/// above zero and at most one; the shares add up to one, since their
/// numerators add up to their denominator.
pub proof fn lemma_shares(weights: Seq<u64>, entropy_terms: Seq<u64>, tile: int)
    requires
        valid_weights(weights, entropy_terms),
        0 <= tile < weights.len(),
    ensures
        1 <= weights[tile] <= sum_weights(weights),
    decreases weights.len(),
{
    let front = weights.drop_last();
    if tile < front.len() {
        assert(valid_weights(front, entropy_terms.drop_last()));
        lemma_shares(front, entropy_terms.drop_last(), tile);
    }
}

/// Ascending candidates weigh no more than the tiles up to the last of them.
pub proof fn lemma_mass_bounded(weights: Seq<u64>, candidates: Seq<usize>, k: int)
    requires
        ascending_tiles(candidates, weights.len()),
        0 <= k <= candidates.len(),
    ensures
        k == 0 ==> mass_before(weights, candidates, k) == 0,
        k > 0 ==> mass_before(weights, candidates, k) <= sum_weights(
            weights.take(candidates[k - 1] + 1),
        ),
        mass_before(weights, candidates, k) <= sum_weights(weights),
    decreases k,
{
    if k > 0 {
        let last = candidates[k - 1] as int;
        lemma_mass_bounded(weights, candidates, k - 1);
        lemma_sum_weights_take(weights, last);
        lemma_sum_weights_take(weights, last + 1);
        if k > 1 {
            let before = candidates[k - 2] as int;
            lemma_sum_weights_below(weights, before + 1, last);
        }
    }
}

/// Fewer of the first weights sum to no more.
pub proof fn lemma_sum_weights_below(weights: Seq<u64>, j: int, k: int)
    requires
        0 <= j <= k <= weights.len(),
    ensures
        sum_weights(weights.take(j)) <= sum_weights(weights.take(k)),
    decreases k - j,
{
    if j < k {
        lemma_sum_weights_take(weights, j);
        lemma_sum_weights_below(weights, j + 1, k);
    }
}

/// What the weighted choice is: a position among the candidates before which
/// no cumulative share exceeds the variate, and at which one does unless it
/// is the last.
pub proof fn lemma_pick_position(weights: Seq<u64>, candidates: Seq<usize>, draw: u32)
    requires
        candidates.len() > 0,
    ensures
        0 <= pick_position(weights, candidates, draw) < candidates.len(),
        forall|j: int|
            0 <= j < pick_position(weights, candidates, draw) ==> !mass_exceeds(
                weights,
                candidates,
                draw,
                j,
            ),
        mass_exceeds(weights, candidates, draw, pick_position(weights, candidates, draw))
            || pick_position(weights, candidates, draw) == candidates.len() - 1,
{
    if exists|k: int| 0 <= k < candidates.len() && mass_exceeds(weights, candidates, draw, k) {
        let some = choose|k: int|
            0 <= k < candidates.len() && mass_exceeds(weights, candidates, draw, k);
        lemma_first_exceeding(weights, candidates, draw, some);
    } else {
    }
}

/// Where the cumulative share exceeds the variate at some candidate, there
/// is a first such candidate.
proof fn lemma_first_exceeding(weights: Seq<u64>, candidates: Seq<usize>, draw: u32, k: int)
    requires
        0 <= k < candidates.len(),
        mass_exceeds(weights, candidates, draw, k),
    ensures
        exists|f: int|
            0 <= f < candidates.len() && mass_exceeds(weights, candidates, draw, f) && forall|
                j: int,
            |
                0 <= j < f ==> !mass_exceeds(weights, candidates, draw, j),
    decreases k,
{
    if exists|j: int| 0 <= j < k && mass_exceeds(weights, candidates, draw, j) {
        let j = choose|j: int| 0 <= j < k && mass_exceeds(weights, candidates, draw, j);
        lemma_first_exceeding(weights, candidates, draw, j);
    } else {
        assert(0 <= k < candidates.len() && mass_exceeds(weights, candidates, draw, k) && forall|
            j: int,
        |
            0 <= j < k ==> !mass_exceeds(weights, candidates, draw, j));
    }
}

/// A position that meets the description of the weighted choice is the
/// weighted choice.
pub proof fn lemma_pick_unique(weights: Seq<u64>, candidates: Seq<usize>, draw: u32, k: int)
    requires
        0 <= k < candidates.len(),
        forall|j: int| 0 <= j < k ==> !mass_exceeds(weights, candidates, draw, j),
        mass_exceeds(weights, candidates, draw, k) || (k == candidates.len() - 1),
    ensures
        pick_position(weights, candidates, draw) == k,
{
    lemma_pick_position(weights, candidates, draw);
    let p = pick_position(weights, candidates, draw);
    if p < k {
        assert(!mass_exceeds(weights, candidates, draw, p));
    } else if k < p {
        assert(!mass_exceeds(weights, candidates, draw, k));
    }
}

/// Excluding an allowed tile lowers the entropy score by that tile's term.
pub proof fn lemma_entropy_exclude(terms: Seq<u64>, mask: Seq<bool>, tile: int)
    requires
        0 <= tile < mask.len(),
        tile < terms.len(),
        mask[tile],
    ensures
        entropy_of(terms, mask.update(tile, false)) + terms[tile] == entropy_of(terms, mask),
    decreases mask.len(),
{
    let after = mask.update(tile, false);
    if tile == mask.len() - 1 {
        assert(after.drop_last() =~= mask.drop_last());
    } else {
        lemma_entropy_exclude(terms, mask.drop_last(), tile);
        assert(after.drop_last() =~= mask.drop_last().update(tile, false));
    }
}

/// The entropy score is below the number of tiles times 2^64.
pub proof fn lemma_entropy_bound(terms: Seq<u64>, mask: Seq<bool>)
    ensures
        entropy_of(terms, mask) <= mask.len() * 0xFFFF_FFFF_FFFF_FFFF,
    decreases mask.len(),
{
    if mask.len() > 0 {
        lemma_entropy_bound(terms, mask.drop_last());
    }
}

/// Selection weights and entropy terms of the tiles.
pub struct WeightTable {
    weights: Vec<u64>,
    entropy_terms: Vec<u64>,
}

impl WeightTable {
    /// The weight of each tile.
    pub closed spec fn weights(&self) -> Seq<u64> {
        self.weights@
    }

    /// The entropy term of each tile.
    pub closed spec fn entropy_terms(&self) -> Seq<u64> {
        self.entropy_terms@
    }

    /// The number of tiles.
    pub open spec fn tiles(&self) -> nat {
        self.weights().len()
    }

    /// The sum of all weights: what a weight is divided by to give the
    /// tile's share.
    pub open spec fn total(&self) -> nat {
        sum_weights(self.weights())
    }

    /// Every tile has a positive weight and an entropy term, and the weights
    /// together fit in 64 bits.
    pub open spec fn wf(&self) -> bool {
        valid_weights(self.weights(), self.entropy_terms())
    }

    /// The table of the given weights and entropy terms, if they are valid.
    pub fn new(weights: Vec<u64>, entropy_terms: Vec<u64>) -> (table: Option<WeightTable>)
        ensures
            table.is_some() <==> valid_weights(weights@, entropy_terms@),
            table.is_some() ==> table.unwrap().weights() == weights@ && table.unwrap().entropy_terms()
                == entropy_terms@ && table.unwrap().wf(),
    {
        if weights.len() != entropy_terms.len() {
            return None;
        }
        let mut total: u64 = 0;
        let mut t: usize = 0;
        while t < weights.len()
            invariant
                t <= weights.len(),
                total == sum_weights(weights@.take(t as int)),
                forall|u: int| 0 <= u < t ==> weights@[u] >= 1,
            decreases weights.len() - t,
        {
            proof {
                lemma_sum_weights_take(weights@, t as int);
            }
            let w: u64 = weights[t];
            if w == 0 {
                return None;
            }
            if w > u64::MAX - total {
                proof {
                    lemma_sum_weights_take(weights@, t + 1);
                }
                return None;
            }
            total = total + w;
            t += 1;
        }
        assert(weights@.take(t as int) =~= weights@);
        Some(WeightTable { weights, entropy_terms })
    }

    /// The number of tiles.
    pub fn len(&self) -> (n: usize)
        ensures
            n == self.tiles(),
    {
        self.weights.len()
    }

    /// The sum of all weights.
    pub fn sum(&self) -> (total: u64)
        requires
            self.wf(),
        ensures
            total == self.total(),
    {
        let mut total: u64 = 0;
        let mut t: usize = 0;
        while t < self.weights.len()
            invariant
                t <= self.weights@.len(),
                self.wf(),
                total == sum_weights(self.weights@.take(t as int)),
            decreases self.weights.len() - t,
        {
            proof {
                lemma_sum_weights_take(self.weights@, t as int);
                lemma_sum_weights_take(self.weights@, t + 1);
            }
            total = total + self.weights[t];
            t += 1;
        }
        assert(self.weights@.take(t as int) =~= self.weights@);
        total
    }

    /// The weight of `tile`.
    pub fn weight(&self, tile: usize) -> (w: u64)
        requires
            tile < self.tiles(),
        ensures
            w == self.weights()[tile as int],
    {
        self.weights[tile]
    }

    /// The entropy score of `mask`.
    pub fn entropy(&self, mask: &Vec<bool>) -> (score: u128)
        ensures
            score == entropy_of(self.entropy_terms(), mask@),
    {
        let mut score: u128 = 0;
        let mut t: usize = 0;
        while t < mask.len()
            invariant
                t <= mask.len(),
                score == entropy_of(self.entropy_terms@, mask@.take(t as int)),
            decreases mask.len() - t,
        {
            proof {
                assert(mask@.take(t + 1).drop_last() =~= mask@.take(t as int));
                lemma_entropy_bound(self.entropy_terms@, mask@.take(t as int));
                assert(t * 0xFFFF_FFFF_FFFF_FFFF <= 0xFFFF_FFFF_FFFF_FFFF * 0xFFFF_FFFF_FFFF_FFFF)
                    by (nonlinear_arith)
                    requires
                        t <= 0xFFFF_FFFF_FFFF_FFFF,
                ;
            }
            if mask[t] && t < self.entropy_terms.len() {
                score = score + self.entropy_terms[t] as u128;
            }
            t += 1;
        }
        assert(mask@.take(t as int) =~= mask@);
        score
    }

    /// The weighted choice among `candidates` for the draw `draw`.
    pub fn pick(&self, candidates: &Vec<usize>, draw: u32) -> (tile: usize)
        requires
            self.wf(),
            candidates@.len() > 0,
            ascending_tiles(candidates@, self.tiles()),
        ensures
            tile == weighted_pick(self.weights(), candidates@, draw),
    {
        let ghost w = self.weights@;
        let ghost c = candidates@;
        let mut whole: u64 = 0;
        let mut k: usize = 0;
        while k < candidates.len()
            invariant
                k <= candidates.len(),
                w == self.weights@,
                c == candidates@,
                self.wf(),
                ascending_tiles(c, w.len()),
                whole == mass_before(w, c, k as int),
            decreases candidates.len() - k,
        {
            proof {
                lemma_mass_bounded(w, c, k + 1);
            }
            whole = whole + self.weights[candidates[k]];
            k += 1;
        }
        assert(draw as int * whole as int <= 0xFFFF_FFFF * 0xFFFF_FFFF_FFFF_FFFF)
            by (nonlinear_arith)
            requires
                0 <= draw <= 0xFFFF_FFFF,
                0 <= whole <= 0xFFFF_FFFF_FFFF_FFFF,
        ;
        let bar: u128 = draw as u128 * whole as u128;
        let mut mass: u64 = 0;
        let mut k: usize = 0;
        while k < candidates.len() - 1
            invariant
                k <= candidates.len() - 1,
                w == self.weights@,
                c == candidates@,
                self.wf(),
                ascending_tiles(c, w.len()),
                whole == mass_before(w, c, c.len() as int),
                bar == draw as int * whole as int,
                mass == mass_before(w, c, k as int),
                forall|j: int| 0 <= j < k ==> !mass_exceeds(w, c, draw, j),
            decreases candidates.len() - k,
        {
            proof {
                lemma_mass_bounded(w, c, k + 1);
            }
            mass = mass + self.weights[candidates[k]];
            assert(mass as int * 0xFFFF_FFFF <= 0xFFFF_FFFF_FFFF_FFFF * 0xFFFF_FFFF)
                by (nonlinear_arith)
                requires
                    0 <= mass <= 0xFFFF_FFFF_FFFF_FFFF,
            ;
            if mass as u128 * (DRAW_MAX as u128) > bar {
                proof {
                    lemma_pick_unique(w, c, draw, k as int);
                }
                return candidates[k];
            }
            k += 1;
        }
        proof {
            lemma_pick_unique(w, c, draw, k as int);
        }
        candidates[k]
    }
}

/// Weights and entropy terms that can make a table: as many terms as weights,
/// every weight positive, and the weights together within 64 bits.
pub open spec fn valid_weights(weights: Seq<u64>, entropy_terms: Seq<u64>) -> bool {
    &&& weights.len() == entropy_terms.len()
    &&& forall|t: int| 0 <= t < weights.len() ==> weights[t] >= 1
    &&& sum_weights(weights) <= u64::MAX
}

} // verus!
