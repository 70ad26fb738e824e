//! The scheduler: which point to collapse next.

use vstd::prelude::*;
use crate::board::Board;
use crate::listing::{has_key, lemma_map_of_entry, place_of};
use crate::order::{
    closer,
    is_closer,
    lemma_closer_total,
    lemma_keys_before_asymmetric,
    lemma_keys_before_transitive,
    sorted_keys,
};
use crate::position::{NDIM, origin, origin_point, Position};
use crate::solver::{collapse_result, lemma_collapse_deterministic, Wfc};
use crate::weights::entropy_of;

verus! {

/// A point of domain `mask_p` at `p` goes before one of domain `mask_q` at
/// `q`: its entropy is lower, or the two are equal and `p` is the closer.
pub open spec fn goes_before(
    terms: Seq<u64>,
    p: Seq<i64>,
    mask_p: Seq<bool>,
    q: Seq<i64>,
    mask_q: Seq<bool>,
) -> bool {
    entropy_of(terms, mask_p) < entropy_of(terms, mask_q) || (entropy_of(terms, mask_p)
        == entropy_of(terms, mask_q) && closer(p, q))
}

/// `p` is the point to collapse next: the origin where the wavefront is
/// empty, and otherwise the point of the wavefront that goes before every
/// other.
pub open spec fn is_next_cell(terms: Seq<u64>, board: Board, p: Seq<i64>) -> bool {
    if board.wavefront.dom() =~= Set::empty() {
        p == origin_point()
    } else {
        &&& board.wavefront.dom().contains(p)
        &&& forall|q: Seq<i64>| #[trigger]
            board.wavefront.dom().contains(q) && q != p ==> goes_before(
                terms,
                p,
                board.wavefront[p],
                q,
                board.wavefront[q],
            )
    }
}

/// At most one point is the point to collapse next, whatever the order in
/// which the wavefront is kept.
pub proof fn lemma_next_cell_unique(terms: Seq<u64>, board: Board, p: Seq<i64>, q: Seq<i64>)
    requires
        is_next_cell(terms, board, p),
        is_next_cell(terms, board, q),
    ensures
        p == q,
{
    if !(board.wavefront.dom() =~= Set::empty()) && p != q {
        assert(goes_before(terms, p, board.wavefront[p], q, board.wavefront[q]));
        assert(goes_before(terms, q, board.wavefront[q], p, board.wavefront[p]));
        lemma_keys_before_asymmetric(sorted_keys(p), sorted_keys(q));
    }
}

/// What one step makes of an instance: the collapse of the point to
/// collapse next.
pub open spec fn step_result(before: Wfc, after: Wfc, ok: bool) -> bool {
    exists|p: Seq<i64>|
        is_next_cell(before.entropy_terms(), before.board(), p) && #[trigger] collapse_result(
            before,
            p,
            after,
            ok,
        )
}

/// Determinism of a step. What one step makes of an instance is determined
/// by the instance, whatever the order in which its stores are walked: the
/// flag, the state of the generator and the lattice. Two instances that were
/// built alike and stepped alike are alike.
pub proof fn lemma_step_deterministic(
    before: Wfc,
    one: Wfc,
    ok_one: bool,
    two: Wfc,
    ok_two: bool,
)
    requires
        step_result(before, one, ok_one),
        step_result(before, two, ok_two),
    ensures
        ok_one == ok_two,
        one.rng_state() == two.rng_state(),
        one.board() == two.board(),
{
    let p = choose|p: Seq<i64>|
        is_next_cell(before.entropy_terms(), before.board(), p) && #[trigger] collapse_result(
            before,
            p,
            one,
            ok_one,
        );
    let q = choose|q: Seq<i64>|
        is_next_cell(before.entropy_terms(), before.board(), q) && #[trigger] collapse_result(
            before,
            q,
            two,
            ok_two,
        );
    lemma_next_cell_unique(before.entropy_terms(), before.board(), p, q);
    lemma_collapse_deterministic(before, p, one, ok_one, two, ok_two);
}

impl Wfc {
    /// The point to collapse next.
    pub fn cell_to_collapse(&self) -> (pos: Position)
        requires
            self.wf(),
        ensures
            is_next_cell(self.entropy_terms(), self.board(), pos@),
            !self.board().collapsed.dom().contains(pos@) || self.board().wavefront.dom() =~= Set::empty(),
    {
        let ghost terms = self.entropy_terms();
        let ghost board = self.board();
        let ghost list = self.grid.wavefront_list();
        let count = self.grid.wavefront_len();
        if count == 0 {
            proof {
                assert forall|q: Seq<i64>| !board.wavefront.dom().contains(q) by {
                    if has_key(list, q) {
                        let i = place_of(list, q);
                    }
                }
            }
            return origin();
        }
        let first = self.grid.wavefront_entry(0);
        let mut best: Position = *first.0;
        let mut best_score: u128 = self.weights.entropy(first.1);
        let ghost mut best_place: int = 0;
        let mut i: usize = 1;
        while i < count
            invariant
                1 <= i <= count,
                self.wf(),
                terms == self.entropy_terms(),
                list == self.grid.wavefront_list(),
                count == list.len(),
                0 <= best_place < i,
                best@ == list[best_place].0,
                best_score == entropy_of(terms, list[best_place].1),
                forall|j: int|
                    0 <= j < i && j != best_place ==> goes_before(
                        terms,
                        best@,
                        list[best_place].1,
                        (#[trigger] list[j]).0,
                        list[j].1,
                    ),
            decreases count - i,
        {
            let entry = self.grid.wavefront_entry(i);
            let score = self.weights.entropy(entry.1);
            let ghost was = best_place;
            let better = score < best_score || (score == best_score && is_closer(entry.0, &best));
            proof {
                assert(list[i as int].0 != list[was].0);
                assert(list[i as int].0.len() == NDIM);
                assert(best@.len() == NDIM);
                lemma_closer_total(list[i as int].0, best@);
            }
            if better {
                proof {
                    assert forall|j: int| 0 <= j < i + 1 && j != i implies goes_before(
                        terms,
                        list[i as int].0,
                        list[i as int].1,
                        (#[trigger] list[j]).0,
                        list[j].1,
                    ) by {
                        if j != was {
                            assert(goes_before(terms, list[was].0, list[was].1, list[j].0, list[j].1));
                            if entropy_of(terms, list[i as int].1) == entropy_of(terms, list[j].1) {
                                lemma_keys_before_transitive(
                                    sorted_keys(list[i as int].0),
                                    sorted_keys(list[was].0),
                                    sorted_keys(list[j].0),
                                );
                            }
                        }
                    }
                    best_place = i as int;
                }
                best = *entry.0;
                best_score = score;
            }
            i += 1;
        }
        proof {
            lemma_map_of_entry(list, best_place);
            assert(board.wavefront.dom().contains(best@));
            assert forall|q: Seq<i64>| #[trigger]
                board.wavefront.dom().contains(q) && q != best@ implies goes_before(
                terms,
                best@,
                board.wavefront[best@],
                q,
                board.wavefront[q],
            ) by {
                let j = place_of(list, q);
                lemma_map_of_entry(list, j);
                assert(goes_before(terms, best@, list[best_place].1, list[j].0, list[j].1));
            }
        }
        best
    }

    /// One step: collapses the point that the scheduler names. Returns
    /// `false` where a contradiction was met; the instance is then stuck.
    pub fn step(&mut self) -> (ok: bool)
        requires
            old(self).wf(),
        ensures
            final(self).wf(),
            final(self).rules() == old(self).rules(),
            final(self).weights() == old(self).weights(),
            final(self).entropy_terms() == old(self).entropy_terms(),
            final(self).board().tiles == old(self).board().tiles,
            step_result(*old(self), *final(self), ok),
            ok && old(self).consistent() ==> final(self).consistent(),
    {
        let pos = self.cell_to_collapse();
        self.collapse(pos)
    }
}

} // verus!
