//! The solver: weights, rules, lattice state and generator of one instance.

use vstd::prelude::*;
use crate::board::{Board, lemma_domain_at};
use crate::constraints::{ConstraintTable, Rules};
use crate::domain::{
    allowed_list,
    allowed_tiles,
    count_allowed,
    init_mask,
    lemma_allowed_list,
    lemma_count_single,
    mask_from_idx,
    open_mask,
    single_mask,
};
use crate::fixpoint::{consistent, lemma_propagation_keeps_consistent};
use crate::listing::{lemma_map_of_entry, place_of};
use crate::position::{NDIM, Position};
use crate::propagate::{lemma_lifo_result_unique, propagation_outcome};
use crate::rng::{Lcg, lcg_next, seed_state};
use crate::store::Grid;
use crate::weights::{ascending_tiles, entropy_of, weighted_pick, WeightTable};

verus! {

/// What narrowing a neighbour came to.
#[derive(Clone, Copy, Debug, PartialEq, Eq, Structural)]
pub enum UpdateState {
    /// The neighbour lost at least one tile and has at least one left.
    Updated,
    /// The neighbour would have no tile left.
    ImpossibleState,
    /// The neighbour lost no tile.
    NothingToDo,
}

/// One solver instance.
pub struct Wfc {
    pub(crate) weights: WeightTable,
    pub(crate) grid: Grid,
    pub(crate) constraints: ConstraintTable,
    pub(crate) rng: Lcg,
}

impl Wfc {
    /// The lattice as a board.
    pub open(crate) spec fn board(&self) -> Board {
        self.grid@
    }

    /// The allow-lists.
    pub open(crate) spec fn rules(&self) -> Rules {
        self.constraints@
    }

    /// The weight of each tile.
    pub open(crate) spec fn weights(&self) -> Seq<u64> {
        self.weights.weights()
    }

    /// The entropy term of each tile.
    pub open(crate) spec fn entropy_terms(&self) -> Seq<u64> {
        self.weights.entropy_terms()
    }

    /// The state of the generator.
    pub open(crate) spec fn rng_state(&self) -> u32 {
        self.rng.state
    }

    /// The room that is left for narrowing domains.
    pub open(crate) spec fn slack(&self) -> nat {
        self.grid.slack()
    }

    /// The parts are well-formed, and the lattice is over the tiles of the
    /// weight table.
    pub open(crate) spec fn wf(&self) -> bool {
        &&& self.weights.wf()
        &&& self.grid.wf()
        &&& self.constraints.wf()
        &&& self.grid@.tiles == self.weights.tiles()
    }

    /// Every stored point of the lattice is settled under the rules, so every
    /// pair of collapsed neighbours obeys them. A fresh instance is
    /// consistent, and every collapse that succeeds keeps it so.
    pub open spec fn consistent(&self) -> bool {
        consistent(self.rules(), self.board())
    }

    /// The same instance but for the lattice.
    pub open spec fn same_setup(&self, other: &Wfc) -> bool {
        &&& self.rules() == other.rules()
        &&& self.weights() == other.weights()
        &&& self.entropy_terms() == other.entropy_terms()
        &&& self.rng_state() == other.rng_state()
        &&& self.board().tiles == other.board().tiles
    }
}

/// The row that reports the collapsed point `p` with its tile: the
/// coordinates, then the tile.
pub open spec fn state_row(p: Seq<i64>, tile: usize) -> Seq<i64> {
    p.push(tile as i64)
}

/// The point that a row reports.
pub open spec fn row_point(row: Seq<i64>) -> Seq<i64> {
    row.take(NDIM as int)
}

/// `rows` reports the collapsed points: one row for each, in some order.
pub open spec fn reports(collapsed: Map<Seq<i64>, usize>, rows: Seq<Vec<i64>>) -> bool {
    &&& collapsed.dom().finite()
    &&& rows.len() == collapsed.dom().len()
    &&& forall|i: int|
        0 <= i < rows.len() ==> collapsed.dom().contains(row_point((#[trigger] rows[i])@))
            && rows[i]@ == state_row(row_point(rows[i]@), collapsed[row_point(rows[i]@)])
    &&& forall|p: Seq<i64>| #[trigger]
        collapsed.dom().contains(p) ==> exists|i: int|
            0 <= i < rows.len() && (#[trigger] rows[i])@ == state_row(p, collapsed[p])
}

/// The tile that collapsing a point of domain `mask` chooses: the weighted
/// choice among the tiles that `mask` allows, for the next draw of the
/// generator.
pub open spec fn collapse_choice(weights: Seq<u64>, mask: Seq<bool>, rng_state: u32) -> usize {
    weighted_pick(weights, allowed_list(mask), lcg_next(rng_state))
}

/// What collapsing `pos` makes of an instance.
///
/// A collapsed point stays as it is, and so does everything else. A point
/// without a tile left fails. Otherwise the generator advances by one draw,
/// the point takes the chosen tile, and the lattice and the flag are what
/// propagation from the point makes of that.
pub open spec fn collapse_result(before: Wfc, pos: Seq<i64>, after: Wfc, ok: bool) -> bool {
    let board = before.board();
    let mask = board.domain_at(pos);
    if board.collapsed.dom().contains(pos) {
        ok && after.board() == board && after.rng_state() == before.rng_state()
    } else if count_allowed(mask) == 0 {
        !ok && after.board() == board && after.rng_state() == before.rng_state()
    } else {
        let tile = collapse_choice(before.weights(), mask, before.rng_state());
        let committed = board.with_domain(pos, single_mask(board.tiles, tile as int));
        &&& after.rng_state() == lcg_next(before.rng_state())
        &&& propagation_outcome(before.rules(), committed, pos, after.board(), ok)
    }
}

/// Determinism of a collapse. What the collapse of a point makes of an
/// instance is determined by the instance: the flag, the state of the
/// generator and the lattice.
pub proof fn lemma_collapse_deterministic(
    before: Wfc,
    pos: Seq<i64>,
    one: Wfc,
    ok_one: bool,
    two: Wfc,
    ok_two: bool,
)
    requires
        collapse_result(before, pos, one, ok_one),
        collapse_result(before, pos, two, ok_two),
    ensures
        ok_one == ok_two,
        one.rng_state() == two.rng_state(),
        one.board() == two.board(),
{
    let board = before.board();
    let mask = board.domain_at(pos);
    if !board.collapsed.dom().contains(pos) && count_allowed(mask) != 0 {
        let tile = collapse_choice(before.weights(), mask, before.rng_state());
        let committed = board.with_domain(pos, single_mask(board.tiles, tile as int));
        lemma_lifo_result_unique(
            before.rules(),
            committed,
            pos,
            one.board(),
            ok_one,
            two.board(),
            ok_two,
        );
    }
}

impl Wfc {
    /// A fresh instance: no point touched, the generator at `seed`.
    pub fn new(constraints: ConstraintTable, weights: WeightTable, seed: u64) -> (wfc: Wfc)
        requires
            constraints.wf(),
            weights.wf(),
        ensures
            wfc.wf(),
            wfc.board() == Board::blank(weights.tiles()),
            wfc.rules() == constraints@,
            wfc.weights() == weights.weights(),
            wfc.entropy_terms() == weights.entropy_terms(),
            wfc.rng_state() == seed_state(seed),
            wfc.consistent(),
    {
        let grid = Grid::new(weights.len());
        Wfc { weights, grid, constraints, rng: Lcg::new(seed) }
    }

    /// The domain of a point that was never touched.
    pub fn init_state(&self) -> (mask: Vec<bool>)
        ensures
            mask@ == open_mask(self.board().tiles),
    {
        init_mask(self.grid.tiles())
    }

    /// The domain that allows `idx` alone. An `idx` that is no tile of the
    /// universe gives the domain that allows nothing.
    pub fn state_from_idx(&self, idx: usize) -> (mask: Vec<bool>)
        ensures
            mask@ == single_mask(self.board().tiles, idx as int),
    {
        mask_from_idx(self.grid.tiles(), idx)
    }

    /// Advances the generator and returns the draw.
    pub fn rng_next(&mut self) -> (draw: u32)
        ensures
            draw == lcg_next(old(self).rng_state()),
            final(self).rng_state() == draw,
            final(self).board() == old(self).board(),
            final(self).rules() == old(self).rules(),
            final(self).weights() == old(self).weights(),
            final(self).entropy_terms() == old(self).entropy_terms(),
            final(self).slack() == old(self).slack(),
            old(self).wf() ==> final(self).wf(),
    {
        self.rng.next()
    }

    /// Draws once and makes the weighted choice among `possible_idx`.
    pub fn select_random_tile(&mut self, possible_idx: Vec<usize>) -> (tile: usize)
        requires
            old(self).wf(),
            possible_idx@.len() > 0,
            ascending_tiles(possible_idx@, old(self).board().tiles),
        ensures
            tile == weighted_pick(
                old(self).weights(),
                possible_idx@,
                lcg_next(old(self).rng_state()),
            ),
            final(self).rng_state() == lcg_next(old(self).rng_state()),
            final(self).board() == old(self).board(),
            final(self).rules() == old(self).rules(),
            final(self).weights() == old(self).weights(),
            final(self).entropy_terms() == old(self).entropy_terms(),
            final(self).slack() == old(self).slack(),
            final(self).wf(),
    {
        let draw = self.rng_next();
        self.weights.pick(&possible_idx, draw)
    }

    /// The entropy score of `mask`.
    pub fn entropy(&self, mask: &Vec<bool>) -> (score: u128)
        ensures
            score == entropy_of(self.entropy_terms(), mask@),
    {
        self.weights.entropy(mask)
    }

    /// The domain of `pos`.
    pub fn state_at(&self, pos: &Position) -> (mask: Vec<bool>)
        requires
            self.wf(),
        ensures
            mask@ == self.board().domain_at(pos@),
    {
        self.grid.state_at(pos)
    }

    /// Gives `pos` the domain `state`; see [`Grid::set_state_at`].
    pub fn set_state_at(&mut self, pos: Position, state: Vec<bool>) -> (stored: bool)
        requires
            old(self).wf(),
        ensures
            final(self).wf(),
            final(self).same_setup(old(self)),
            stored == (!old(self).board().collapsed.dom().contains(pos@) && state@.len() == old(
                self,
            ).board().tiles && count_allowed(state@) >= 1),
            stored ==> final(self).board() == old(self).board().with_domain(pos@, state@),
            !stored ==> final(self).board() == old(self).board(),
    {
        self.grid.set_state_at(pos, state)
    }

    /// The tile of `pos`, if it is collapsed.
    pub fn collapsed_at(&self, pos: &Position) -> (tile: Option<usize>)
        requires
            self.wf(),
        ensures
            tile.is_some() == self.board().collapsed.dom().contains(pos@),
            tile.is_some() ==> tile.unwrap() == self.board().collapsed[pos@],
    {
        self.grid.collapsed_at(pos)
    }

    /// The domain of `pos`, if it is in the wavefront.
    pub fn wavefront_at(&self, pos: &Position) -> (mask: Option<Vec<bool>>)
        requires
            self.wf(),
        ensures
            mask.is_some() == self.board().wavefront.dom().contains(pos@),
            mask.is_some() ==> mask.unwrap()@ == self.board().wavefront[pos@],
    {
        match self.grid.wavefront_at(pos) {
            Some(mask) => Some(crate::store::copy_mask(mask)),
            None => None,
        }
    }

    /// The number of collapsed points.
    pub fn collapsed_len(&self) -> (n: usize)
        requires
            self.wf(),
        ensures
            n == self.board().collapsed.dom().len(),
            self.board().collapsed.dom().finite(),
    {
        self.grid.collapsed_len()
    }

    /// The number of points in the wavefront.
    pub fn wavefront_len(&self) -> (n: usize)
        requires
            self.wf(),
        ensures
            n == self.board().wavefront.dom().len(),
            self.board().wavefront.dom().finite(),
    {
        self.grid.wavefront_len()
    }

    /// The number of allow-lists.
    pub fn constraints_len(&self) -> (n: usize)
        requires
            self.wf(),
        ensures
            n == self.rules().dom().len(),
            self.rules().dom().finite(),
    {
        assert(self.rules().dom() =~= self.constraints.lists().dom());
        self.constraints.len()
    }

    /// One row for every collapsed point: its coordinates, then its tile.
    pub fn read_state(&self) -> (rows: Vec<Vec<i64>>)
        requires
            self.wf(),
        ensures
            reports(self.board().collapsed, rows@),
    {
        let mut rows: Vec<Vec<i64>> = Vec::new();
        let count = self.grid.collapsed_len();
        let ghost list = self.grid.collapsed_list();
        proof {
            self.grid.lemma_points();
        }
        let mut i: usize = 0;
        while i < count
            invariant
                i <= count,
                count == list.len(),
                list == self.grid.collapsed_list(),
                forall|j: int| 0 <= j < list.len() ==> (#[trigger] list[j]).0.len() == NDIM,
                rows@.len() == i,
                forall|j: int|
                    0 <= j < i ==> (#[trigger] rows@[j])@ == state_row(list[j].0, list[j].1),
            decreases count - i,
        {
            let entry = self.grid.collapsed_entry(i);
            let mut row: Vec<i64> = Vec::new();
            let mut k: usize = 0;
            while k < NDIM
                invariant
                    k <= NDIM,
                    row@ == entry.0@.take(k as int),
                decreases NDIM - k,
            {
                row.push(entry.0[k]);
                k += 1;
                assert(row@ =~= entry.0@.take(k as int));
            }
            assert(entry.0@.take(NDIM as int) =~= entry.0@);
            row.push(#[verifier::truncate] (entry.1 as i64));
            rows.push(row);
            i += 1;
        }
        proof {
            let collapsed = self.board().collapsed;
            assert forall|j: int| 0 <= j < rows@.len() implies collapsed.dom().contains(
                row_point((#[trigger] rows@[j])@),
            ) && rows@[j]@ == state_row(
                row_point(rows@[j]@),
                collapsed[row_point(rows@[j]@)],
            ) by {
                lemma_map_of_entry(list, j);
                assert(list[j].0.len() == NDIM);
                assert(row_point(rows@[j]@) =~= list[j].0);
            }
            assert forall|p: Seq<i64>| #[trigger] collapsed.dom().contains(p) implies exists|j: int|
                0 <= j < rows@.len() && (#[trigger] rows@[j])@ == state_row(p, collapsed[p]) by {
                let j = place_of(list, p);
                lemma_map_of_entry(list, j);
                assert(rows@[j]@ == state_row(p, collapsed[p]));
            }
        }
        rows
    }

    /// Collapses `pos`: chooses one of the tiles that it may still take, by
    /// weight, and propagates the choice.
    pub fn collapse(&mut self, pos: Position) -> (ok: bool)
        requires
            old(self).wf(),
        ensures
            final(self).wf(),
            final(self).rules() == old(self).rules(),
            final(self).weights() == old(self).weights(),
            final(self).entropy_terms() == old(self).entropy_terms(),
            final(self).board().tiles == old(self).board().tiles,
            collapse_result(*old(self), pos@, *final(self), ok),
            ok && old(self).consistent() ==> final(self).consistent(),
    {
        if self.grid.collapsed_at(&pos).is_some() {
            return true;
        }
        let ghost base = self.board();
        let state = self.grid.state_at(&pos);
        let allowed_idx = allowed_tiles(&state);
        proof {
            lemma_domain_at(self.board(), pos@);
            lemma_allowed_list(state@);
        }
        if allowed_idx.len() == 0 {
            return false;
        }
        let tile_idx = self.select_random_tile(allowed_idx);
        proof {
            crate::weights::lemma_pick_position(
                self.weights(),
                allowed_list(state@),
                self.rng_state(),
            );
            lemma_count_single(self.board().tiles, tile_idx as int);
        }
        let single = mask_from_idx(self.grid.tiles(), tile_idx);
        let stored = self.grid.set_state_at(pos, single);
        assert(stored);
        let ok = self.propagate(pos);
        proof {
            if ok && consistent(self.rules(), base) {
                assert(state@[tile_idx as int]);
                lemma_propagation_keeps_consistent(
                    self.rules(),
                    base,
                    pos@,
                    single_mask(base.tiles, tile_idx as int),
                    self.board(),
                );
            }
        }
        ok
    }
}

} // verus!
