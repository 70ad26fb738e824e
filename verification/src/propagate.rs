//! The propagator: narrowing the neighbours of a point that changed, and
//! theirs in turn, until nothing changes or a point has no tile left.

use vstd::prelude::*;
use crate::board::{Board, lemma_domain_at, lemma_with_domain};
use crate::constraints::{permits, Rules, tile_permits};
use crate::domain::{allowed_count, count_allowed, lemma_count_within, mask_within};
use crate::fixpoint::{
    after_moves,
    closed_from,
    edge_settled,
    is_run_result,
    lemma_dead_end,
    lemma_narrow_settles,
    lemma_narrow_step,
    lemma_narrowed,
    lemma_wf_no_empty_domain,
    Move,
    move_allowed,
    moves_allowed,
    narrowed,
    on_the_way,
    settled_at,
    touched,
};
use crate::position::{is_step, lemma_shifted_differs, NDIM, neighbor_of, Position, shifted};
use crate::solver::{UpdateState, Wfc};

verus! {

/// `mask` without the tiles that `forbidden` marks.
pub open spec fn without(mask: Seq<bool>, forbidden: Seq<bool>) -> Seq<bool> {
    Seq::new(mask.len(), |t: int| mask[t] && !(t < forbidden.len() && forbidden[t]))
}

/// What becomes of a board when the point `q` is to have the domain `slim`,
/// which lies inside its present one: nothing where the two are equal, a
/// contradiction where `slim` leaves no tile, and the narrowed board
/// otherwise. A contradiction leaves the board as it was.
pub open spec fn exclusion_outcome(board: Board, q: Seq<i64>, slim: Seq<bool>) -> (
    UpdateState,
    Board,
) {
    if slim == board.domain_at(q) {
        (UpdateState::NothingToDo, board)
    } else if count_allowed(slim) == 0 {
        (UpdateState::ImpossibleState, board)
    } else {
        (UpdateState::Updated, board.with_domain(q, slim))
    }
}

/// Whether one of the first `upto` tiles is allowed by `mask` and has
/// `other` in its allow-list for the step.
pub open spec fn listed_by(
    rules: Rules,
    mask: Seq<bool>,
    upto: int,
    axis: usize,
    dir: i64,
    other: usize,
) -> bool {
    exists|u: usize|
        u < upto && u < mask.len() && mask[u as int] && rules.dom().contains((u, axis, dir))
            && #[trigger] rules[(u, axis, dir)].contains(other)
}

/// What one more tile adds to the tiles that are listed.
proof fn lemma_listed_by_next(
    rules: Rules,
    mask: Seq<bool>,
    upto: int,
    axis: usize,
    dir: i64,
    other: usize,
)
    requires
        0 <= upto < mask.len(),
        upto <= usize::MAX,
    ensures
        listed_by(rules, mask, upto + 1, axis, dir, other) <==> listed_by(
            rules,
            mask,
            upto,
            axis,
            dir,
            other,
        ) || (mask[upto] && rules.dom().contains((upto as usize, axis, dir)) && rules[(
            upto as usize,
            axis,
            dir,
        )].contains(other)),
{
    if listed_by(rules, mask, upto + 1, axis, dir, other) {
        let u = choose|u: usize|
            u < upto + 1 && u < mask.len() && mask[u as int] && rules.dom().contains((u, axis, dir))
                && #[trigger] rules[(u, axis, dir)].contains(other);
        if u < upto {
            assert(listed_by(rules, mask, upto, axis, dir, other));
        }
    }
    if listed_by(rules, mask, upto, axis, dir, other) {
        let u = choose|u: usize|
            u < upto && u < mask.len() && mask[u as int] && rules.dom().contains((u, axis, dir))
                && #[trigger] rules[(u, axis, dir)].contains(other);
        assert(u < upto + 1 && rules[(u, axis, dir)].contains(other));
    }
    if mask[upto] && rules.dom().contains((upto as usize, axis, dir)) && rules[(
        upto as usize,
        axis,
        dir,
    )].contains(other) {
        let u = upto as usize;
        assert(u < upto + 1 && rules[(u, axis, dir)].contains(other));
    }
}

/// Where every tile that a domain allows has an allow-list for a step, the
/// domain permits at that step what one of those lists holds.
proof fn lemma_listed_by_all(rules: Rules, mask: Seq<bool>, axis: usize, dir: i64, other: usize)
    requires
        forall|u: usize| u < mask.len() && mask[u as int] ==> rules.dom().contains((u, axis, dir)),
    ensures
        permits(rules, mask, axis, dir, other) <==> listed_by(
            rules,
            mask,
            mask.len() as int,
            axis,
            dir,
            other,
        ),
{
    if permits(rules, mask, axis, dir, other) {
        let u = choose|u: usize|
            u < mask.len() && mask[u as int] && #[trigger] tile_permits(rules, u, axis, dir, other);
        assert(rules[(u, axis, dir)].contains(other));
    }
    if listed_by(rules, mask, mask.len() as int, axis, dir, other) {
        let u = choose|u: usize|
            u < mask.len() && u < mask.len() && mask[u as int] && rules.dom().contains(
                (u, axis, dir),
            ) && #[trigger] rules[(u, axis, dir)].contains(other);
        assert(tile_permits(rules, u, axis, dir, other));
    }
}

/// The steps from a point to its neighbours in the order in which they are
/// taken: axis by axis, forward before backward.
pub open spec fn steps() -> Seq<(usize, i64)> {
    Seq::new(
        2 * NDIM as nat,
        |k: int|
            (
                (k / 2) as usize,
                if k % 2 == 0 {
                    1i64
                } else {
                    -1i64
                },
            ),
    )
}

/// Where the step `(axis, dir)` stands among the steps.
pub open spec fn step_place(axis: usize, dir: i64) -> int {
    2 * axis + if dir == 1 {
        0int
    } else {
        1int
    }
}

/// The visit of `p` from its step `k` on: the board after the narrowings of
/// the steps that are left, the neighbours that they changed, in the order
/// of the steps, and whether every neighbour kept a tile. The visit ends at
/// the first step that would leave a neighbour no tile.
pub open spec fn visit_from(rules: Rules, board: Board, p: Seq<i64>, k: int) -> (
    Board,
    Seq<Seq<i64>>,
    bool,
)
    decreases steps().len() - k,
{
    if k < 0 || k >= steps().len() {
        (board, Seq::empty(), true)
    } else {
        let q = shifted(p, steps()[k].0, steps()[k].1);
        let outcome = exclusion_outcome(
            board,
            q,
            narrowed(rules, board, p, steps()[k].0, steps()[k].1),
        );
        if outcome.0 == UpdateState::ImpossibleState {
            (board, Seq::empty(), false)
        } else if outcome.0 == UpdateState::Updated {
            let rest = visit_from(rules, outcome.1, p, k + 1);
            (rest.0, seq![q] + rest.1, rest.2)
        } else {
            visit_from(rules, board, p, k + 1)
        }
    }
}

/// The run of a last-in-first-out worklist for at most `fuel` visits: the
/// last point of `stack` is visited, the neighbours that its visit changed
/// go on the stack in its place, and so on until the stack is empty or a
/// visit fails. `None` where the visits do not suffice.
pub open spec fn lifo_run(rules: Rules, board: Board, stack: Seq<Seq<i64>>, fuel: nat) -> Option<
    (Board, bool),
>
    decreases fuel,
{
    if stack.len() == 0 {
        Some((board, true))
    } else if fuel == 0 {
        None
    } else {
        let visit = visit_from(rules, board, stack.last(), 0);
        if !visit.2 {
            Some((visit.0, false))
        } else {
            lifo_run(rules, visit.0, stack.drop_last() + visit.1, (fuel - 1) as nat)
        }
    }
}

/// `board` and `ok` are what the run of a last-in-first-out worklist that
/// holds `start` makes of `base`.
pub open spec fn is_lifo_result(
    rules: Rules,
    base: Board,
    start: Seq<i64>,
    board: Board,
    ok: bool,
) -> bool {
    exists|fuel: nat| #[trigger] lifo_run(rules, base, seq![start], fuel) == Some((board, ok))
}

/// What propagation from `start` makes of `base`. It is the result of the
/// run of a last-in-first-out worklist. Such a run is a run of allowed moves,
/// so the board lies between `base` and every closed board, and the run
/// succeeds exactly where some closed board leaves every point a tile.
pub open spec fn propagation_outcome(
    rules: Rules,
    base: Board,
    start: Seq<i64>,
    board: Board,
    ok: bool,
) -> bool {
    &&& is_lifo_result(rules, base, start, board, ok)
    &&& is_run_result(rules, base, start, board, ok)
    &&& on_the_way(rules, base, start, board)
    &&& ok <==> exists|other: Board| #[trigger]
        closed_from(rules, base, start, other) && !other.has_empty_domain()
}

/// The worklist as points.
pub open spec fn points(stack: Seq<Position>) -> Seq<Seq<i64>> {
    Seq::new(stack.len(), |i: int| stack[i]@)
}

/// A run that ends within some number of visits ends the same within any
/// greater number.
pub proof fn lemma_lifo_fuel(
    rules: Rules,
    board: Board,
    stack: Seq<Seq<i64>>,
    fuel: nat,
    more: nat,
)
    requires
        lifo_run(rules, board, stack, fuel).is_some(),
        fuel <= more,
    ensures
        lifo_run(rules, board, stack, more) == lifo_run(rules, board, stack, fuel),
    decreases fuel,
{
    if stack.len() > 0 && fuel > 0 {
        let visit = visit_from(rules, board, stack.last(), 0);
        if visit.2 {
            lemma_lifo_fuel(
                rules,
                visit.0,
                stack.drop_last() + visit.1,
                (fuel - 1) as nat,
                (more - 1) as nat,
            );
        }
    }
}

/// Propagation has one result: the board and the flag are determined by the
/// rules, the board before and the start.
pub proof fn lemma_lifo_result_unique(
    rules: Rules,
    base: Board,
    start: Seq<i64>,
    one: Board,
    ok_one: bool,
    two: Board,
    ok_two: bool,
)
    requires
        is_lifo_result(rules, base, start, one, ok_one),
        is_lifo_result(rules, base, start, two, ok_two),
    ensures
        one == two,
        ok_one == ok_two,
{
    let f1 = choose|fuel: nat| #[trigger]
        lifo_run(rules, base, seq![start], fuel) == Some((one, ok_one));
    let f2 = choose|fuel: nat| #[trigger]
        lifo_run(rules, base, seq![start], fuel) == Some((two, ok_two));
    if f1 <= f2 {
        lemma_lifo_fuel(rules, base, seq![start], f1, f2);
    } else {
        lemma_lifo_fuel(rules, base, seq![start], f2, f1);
    }
}

/// The edges of `p` at the first `k` steps are settled.
pub open spec fn edges_done(rules: Rules, board: Board, p: Seq<i64>, k: int) -> bool {
    forall|j: int|
        0 <= j < k && j < steps().len() ==> edge_settled(
            rules,
            board,
            p,
            (#[trigger] steps()[j]).0,
            steps()[j].1,
        )
}

/// Whether `p` is on the worklist.
pub open spec fn waiting(stack: Seq<Position>, p: Seq<i64>) -> bool {
    exists|i: int| 0 <= i < stack.len() && (#[trigger] stack[i])@ == p
}

/// The point is the start of the propagation or has changed since.
pub open spec fn fired(base: Board, start: Seq<i64>, board: Board, p: Seq<i64>) -> bool {
    p == start || touched(base, board, p)
}

/// Between two visits: every point on the worklist has fired, and every
/// point that has fired is settled or on the worklist.
pub open spec fn pending_ok(
    rules: Rules,
    base: Board,
    start: Seq<i64>,
    board: Board,
    stack: Seq<Position>,
) -> bool {
    &&& forall|i: int| 0 <= i < stack.len() ==> fired(base, start, board, (#[trigger] stack[i])@)
    &&& forall|c: Seq<i64>| #[trigger]
        fired(base, start, board, c) ==> waiting(stack, c) || settled_at(rules, board, c)
}

/// During the visit of `p`, after `k` of its steps: as between visits, but
/// that `p` itself has only its first `k` edges settled.
pub open spec fn visiting_ok(
    rules: Rules,
    base: Board,
    start: Seq<i64>,
    board: Board,
    stack: Seq<Position>,
    p: Seq<i64>,
    k: int,
) -> bool {
    &&& fired(base, start, board, p)
    &&& forall|i: int| 0 <= i < stack.len() ==> fired(base, start, board, (#[trigger] stack[i])@)
    &&& forall|c: Seq<i64>| #[trigger]
        fired(base, start, board, c) ==> waiting(stack, c) || settled_at(rules, board, c) || (c
            == p && edges_done(rules, board, p, k))
}

/// The steps are the two directions of every axis, each once.
proof fn lemma_steps()
    ensures
        steps().len() == 2 * NDIM,
        forall|k: int| 0 <= k < steps().len() ==> is_step((#[trigger] steps()[k]).0, steps()[k].1),
        forall|axis: usize, dir: i64| #[trigger]
            is_step(axis, dir) ==> 0 <= step_place(axis, dir) < steps().len() && steps()[step_place(
                axis,
                dir,
            )] == (axis, dir),
{
}

/// Taking a point from the worklist begins its visit.
proof fn lemma_visit_begin(
    rules: Rules,
    base: Board,
    start: Seq<i64>,
    board: Board,
    stack: Seq<Position>,
)
    requires
        pending_ok(rules, base, start, board, stack),
        stack.len() > 0,
    ensures
        visiting_ok(rules, base, start, board, stack.drop_last(), stack.last()@, 0),
{
    let rest = stack.drop_last();
    let p = stack.last()@;
    assert(fired(base, start, board, stack[stack.len() - 1]@));
    assert forall|i: int| 0 <= i < rest.len() implies fired(
        base,
        start,
        board,
        (#[trigger] rest[i])@,
    ) by {
        assert(rest[i] == stack[i]);
    }
    assert forall|c: Seq<i64>| #[trigger] fired(base, start, board, c) implies waiting(rest, c)
        || settled_at(rules, board, c) || (c == p && edges_done(rules, board, p, 0)) by {
        if waiting(stack, c) {
            let i = choose|i: int| 0 <= i < stack.len() && (#[trigger] stack[i])@ == c;
            if i < rest.len() {
                assert(rest[i]@ == c);
            }
        }
    }
}

/// A point whose every edge was settled leaves the visit settled.
proof fn lemma_visit_end(
    rules: Rules,
    base: Board,
    start: Seq<i64>,
    board: Board,
    stack: Seq<Position>,
    p: Seq<i64>,
)
    requires
        visiting_ok(rules, base, start, board, stack, p, 2 * NDIM),
    ensures
        pending_ok(rules, base, start, board, stack),
{
    lemma_steps();
    assert forall|c: Seq<i64>| #[trigger] fired(base, start, board, c) implies waiting(stack, c)
        || settled_at(rules, board, c) by {
        if c == p && edges_done(rules, board, p, 2 * NDIM) {
            assert forall|axis: usize, dir: i64| is_step(axis, dir) implies #[trigger] edge_settled(
                rules,
                board,
                p,
                axis,
                dir,
            ) by {
                let j = step_place(axis, dir);
                assert(steps()[j] == (axis, dir));
            }
        }
    }
}

/// A step that narrows nothing finds its edge settled.
proof fn lemma_visit_skip(
    rules: Rules,
    base: Board,
    start: Seq<i64>,
    board: Board,
    stack: Seq<Position>,
    p: Seq<i64>,
    k: int,
)
    requires
        board.wf(),
        visiting_ok(rules, base, start, board, stack, p, k),
        0 <= k < steps().len(),
        narrowed(rules, board, p, steps()[k].0, steps()[k].1) == board.domain_at(
            shifted(p, steps()[k].0, steps()[k].1),
        ),
    ensures
        visiting_ok(rules, base, start, board, stack, p, k + 1),
{
    lemma_narrowed(rules, board, p, steps()[k].0, steps()[k].1);
    if edges_done(rules, board, p, k) {
        assert(edges_done(rules, board, p, k + 1));
    }
}

/// A step that narrows the neighbour settles its edge and puts the
/// neighbour on the worklist.
proof fn lemma_visit_push(
    rules: Rules,
    base: Board,
    start: Seq<i64>,
    board: Board,
    stack: Seq<Position>,
    p: Seq<i64>,
    k: int,
    next_point: Position,
)
    requires
        on_the_way(rules, base, start, board),
        visiting_ok(rules, base, start, board, stack, p, k),
        p.len() == NDIM,
        0 <= k < steps().len(),
        next_point@ == shifted(p, steps()[k].0, steps()[k].1),
        narrowed(rules, board, p, steps()[k].0, steps()[k].1) != board.domain_at(next_point@),
        count_allowed(narrowed(rules, board, p, steps()[k].0, steps()[k].1)) >= 1,
    ensures
        on_the_way(
            rules,
            base,
            start,
            board.with_domain(next_point@, narrowed(rules, board, p, steps()[k].0, steps()[k].1)),
        ),
        visiting_ok(
            rules,
            base,
            start,
            board.with_domain(next_point@, narrowed(rules, board, p, steps()[k].0, steps()[k].1)),
            stack.push(next_point),
            p,
            k + 1,
        ),
{
    lemma_steps();
    let axis = steps()[k].0;
    let dir = steps()[k].1;
    let q = next_point@;
    let slim = narrowed(rules, board, p, axis, dir);
    let next = board.with_domain(q, slim);
    let more = stack.push(next_point);
    lemma_narrow_step(rules, base, start, board, p, axis, dir);
    lemma_narrow_settles(rules, board, p, axis, dir);
    lemma_with_domain(board, q, slim);
    lemma_shifted_differs(p, axis, dir);
    assert(forall|x: Seq<i64>| x != q ==> next.domain_at(x) == board.domain_at(x));
    assert forall|x: Seq<i64>| fired(base, start, board, x) implies fired(base, start, next, x) by {
        if x != q {
            assert(next.domain_at(x) == board.domain_at(x));
        }
    }
    assert forall|i: int| 0 <= i < more.len() implies fired(
        base,
        start,
        next,
        (#[trigger] more[i])@,
    ) by {
        if i < stack.len() {
            assert(more[i] == stack[i]);
            assert(fired(base, start, board, stack[i]@));
        }
    }
    assert forall|c: Seq<i64>| #[trigger] fired(base, start, next, c) implies waiting(more, c)
        || settled_at(rules, next, c) || (c == p && edges_done(rules, next, p, k + 1)) by {
        if c == q {
            assert(more[stack.len() as int]@ == c);
        } else {
            assert(next.domain_at(c) == board.domain_at(c));
            assert(fired(base, start, board, c));
            if waiting(stack, c) {
                let i = choose|i: int| 0 <= i < stack.len() && (#[trigger] stack[i])@ == c;
                assert(more[i]@ == c);
            } else if settled_at(rules, board, c) {
                assert(settled_at(rules, next, c));
            } else {
                assert(c == p && edges_done(rules, board, p, k));
                assert forall|j: int| 0 <= j < k + 1 && j < steps().len() implies edge_settled(
                    rules,
                    next,
                    p,
                    (#[trigger] steps()[j]).0,
                    steps()[j].1,
                ) by {
                    if j < k {
                        assert(edge_settled(rules, board, p, steps()[j].0, steps()[j].1));
                    }
                }
            }
        }
    }
}

impl Wfc {
    /// The steps from a point to its neighbours.
    pub fn neighbors(&self) -> (list: Vec<(usize, i64)>)
        ensures
            list@ == steps(),
    {
        let mut list: Vec<(usize, i64)> = Vec::with_capacity(2 * NDIM);
        let mut axis: usize = 0;
        while axis < NDIM
            invariant
                axis <= NDIM,
                list@.len() == 2 * axis,
                forall|k: int| 0 <= k < list@.len() ==> list@[k] == steps()[k],
            decreases NDIM - axis,
        {
            list.push((axis, 1));
            list.push((axis, -1));
            axis += 1;
        }
        assert(list@ =~= steps());
        list
    }

    /// Takes the tiles that `forbidden` marks out of the domain of
    /// `neighbor`.
    pub fn exclude(&mut self, forbidden: &Vec<bool>, neighbor: Position) -> (state: UpdateState)
        requires
            old(self).wf(),
        ensures
            final(self).wf(),
            final(self).same_setup(old(self)),
            (state, final(self).board()) == exclusion_outcome(
                old(self).board(),
                neighbor@,
                without(old(self).board().domain_at(neighbor@), forbidden@),
            ),
            state == UpdateState::Updated ==> final(self).slack() < old(self).slack(),
            state != UpdateState::Updated ==> final(self).slack() == old(self).slack(),
    {
        let mut mask = self.grid.state_at(&neighbor);
        let ghost before = mask@;
        let ghost slim = without(before, forbidden@);
        let mut updated = false;
        let mut t: usize = 0;
        while t < mask.len()
            invariant
                t <= mask@.len(),
                mask@.len() == before.len(),
                forall|u: int| 0 <= u < t ==> mask@[u] == slim[u],
                forall|u: int| t <= u < mask@.len() ==> mask@[u] == before[u],
                updated == exists|u: int| 0 <= u < t && before[u] != slim[u],
                slim == without(before, forbidden@),
            decreases mask.len() - t,
        {
            if t < forbidden.len() && forbidden[t] && mask[t] {
                mask[t] = false;
                updated = true;
                assert(before[t as int] != slim[t as int]);
            }
            t += 1;
        }
        assert(mask@ =~= slim);
        if !updated {
            assert(slim =~= before);
            return UpdateState::NothingToDo;
        }
        let left = allowed_count(&mask);
        if left == 0 {
            return UpdateState::ImpossibleState;
        }
        proof {
            let board = self.grid@;
            lemma_domain_at(board, neighbor@);
            assert(mask_within(slim, before));
            lemma_count_within(slim, before);
        }
        let stored = self.grid.set_state_at(neighbor, mask);
        assert(stored);
        UpdateState::Updated
    }

    /// Narrows the neighbour of `pos` at the step `dpos` to the tiles that
    /// the domain of `pos` permits there. Where a tile that `pos` may still
    /// take has no allow-list for the step, the step puts no constraint on
    /// the neighbour.
    pub fn update_neighbor(&mut self, pos: &Position, dpos: (usize, i64)) -> (state: UpdateState)
        requires
            old(self).wf(),
            is_step(dpos.0, dpos.1),
        ensures
            final(self).wf(),
            final(self).same_setup(old(self)),
            (state, final(self).board()) == exclusion_outcome(
                old(self).board(),
                shifted(pos@, dpos.0, dpos.1),
                narrowed(old(self).rules(), old(self).board(), pos@, dpos.0, dpos.1),
            ),
            state == UpdateState::Updated ==> final(self).slack() < old(self).slack(),
            state != UpdateState::Updated ==> final(self).slack() == old(self).slack(),
    {
        let (axis, dir) = dpos;
        let current = self.grid.state_at(pos);
        let tiles = self.grid.tiles();
        let ghost board = self.grid@;
        let ghost rules = self.constraints@;
        let ghost q = shifted(pos@, axis, dir);
        let ghost slim = narrowed(rules, board, pos@, axis, dir);
        proof {
            lemma_domain_at(board, pos@);
            lemma_domain_at(board, q);
        }
        let mut forbidden: Vec<bool> = Vec::new();
        let mut t: usize = 0;
        while t < tiles
            invariant
                t <= tiles,
                forbidden@.len() == t,
                forall|u: int| 0 <= u < t ==> forbidden@[u],
            decreases tiles - t,
        {
            forbidden.push(true);
            t += 1;
        }
        let ghost orig = *self;
        let mut tile: usize = 0;
        while tile < tiles
            invariant
                tile <= tiles,
                *self == orig,
                orig == *old(self),
                (axis, dir) == dpos,
                orig.wf(),
                board == orig.grid@,
                board.wf(),
                tiles == board.tiles,
                rules == self.constraints@,
                q == shifted(pos@, axis, dir),
                slim == narrowed(rules, board, pos@, axis, dir),
                board.domain_at(q).len() == tiles,
                current@ == board.domain_at(pos@),
                current@.len() == tiles,
                forbidden@.len() == tiles,
                forall|u: usize|
                    u < tile && current@[u as int] ==> rules.dom().contains((u, axis, dir)),
                forall|b: usize|
                    b < tiles ==> (!forbidden@[b as int] <==> listed_by(
                        rules,
                        current@,
                        tile as int,
                        axis,
                        dir,
                        b,
                    )),
            decreases tiles - tile,
        {
            if current[tile] {
                match self.constraints.get(tile, axis, dir) {
                    None => {
                        proof {
                            assert forall|v: int| 0 <= v < slim.len() implies slim[v]
                                == board.domain_at(q)[v] by {
                                assert(tile_permits(rules, tile, axis, dir, v as usize));
                            }
                            assert(slim =~= board.domain_at(q));
                        }
                        return UpdateState::NothingToDo;
                    },
                    Some(list) => {
                        let ghost held = forbidden@;
                        let mut j: usize = 0;
                        while j < list.len()
                            invariant
                                j <= list@.len(),
                                forbidden@.len() == tiles,
                                held.len() == tiles,
                                forall|b: usize|
                                    b < tiles ==> (!forbidden@[b as int] <==> !held[b as int]
                                        || list@.take(j as int).contains(b)),
                            decreases list.len() - j,
                        {
                            let other: usize = list[j];
                            let ghost was = forbidden@;
                            if other < tiles {
                                forbidden[other] = false;
                            }
                            proof {
                                let shorter = list@.take(j as int);
                                let longer = list@.take(j + 1);
                                assert(longer =~= shorter.push(other));
                                assert(forbidden@ == if other < tiles {
                                    was.update(other as int, false)
                                } else {
                                    was
                                });
                                assert forall|b: usize| b < tiles implies (!forbidden@[b as int]
                                    <==> !held[b as int] || longer.contains(b)) by {
                                    assert(!was[b as int] <==> !held[b as int] || shorter.contains(
                                        b,
                                    ));
                                    if shorter.contains(b) {
                                        let i = choose|i: int|
                                            0 <= i < shorter.len() && shorter[i] == b;
                                        assert(longer[i] == b);
                                    }
                                    if b == other {
                                        assert(longer[j as int] == b);
                                    }
                                    if longer.contains(b) && b != other {
                                        let i = choose|i: int|
                                            0 <= i < longer.len() && longer[i] == b;
                                        assert(shorter[i] == b);
                                    }
                                }
                            }
                            j += 1;
                        }
                        proof {
                            assert(list@.take(j as int) =~= list@);
                            assert forall|b: usize| b < tiles implies (!forbidden@[b as int]
                                <==> listed_by(rules, current@, tile + 1, axis, dir, b)) by {
                                lemma_listed_by_next(rules, current@, tile as int, axis, dir, b);
                                assert(!held[b as int] <==> listed_by(
                                    rules,
                                    current@,
                                    tile as int,
                                    axis,
                                    dir,
                                    b,
                                ));
                                assert(list@.contains(b) == rules[(tile, axis, dir)].contains(b));
                                assert(rules.dom().contains((tile, axis, dir)));
                            }
                        }
                    },
                }
            } else {
                proof {
                    assert forall|b: usize| b < tiles implies (!forbidden@[b as int] <==> listed_by(
                        rules,
                        current@,
                        tile + 1,
                        axis,
                        dir,
                        b,
                    )) by {
                        lemma_listed_by_next(rules, current@, tile as int, axis, dir, b);
                    }
                }
            }
            tile += 1;
        }
        proof {
            let target = without(board.domain_at(q), forbidden@);
            assert forall|v: int| 0 <= v < slim.len() implies slim[v] == target[v] by {
                lemma_listed_by_all(rules, current@, axis, dir, v as usize);
            }
            assert(slim =~= target);
        }
        let next = neighbor_of(pos, axis, dir);
        self.exclude(&forbidden, next)
    }

    /// Propagates from `pos`: narrows its neighbours, and the neighbours of
    /// every point that a narrowing changed, until no point changes. Returns
    /// `false` as soon as a point would have no tile left, and leaves the
    /// lattice as it is at that moment.
    pub fn propagate(&mut self, pos: Position) -> (ok: bool)
        requires
            old(self).wf(),
        ensures
            final(self).wf(),
            final(self).same_setup(old(self)),
            propagation_outcome(
                old(self).rules(),
                old(self).board(),
                pos@,
                final(self).board(),
                ok,
            ),
    {
        let ghost mut moves: Seq<Move> = Seq::empty();
        let ghost mut visits: nat = 0;
        let ghost base = self.board();
        let ghost rules = self.rules();
        let ghost start = pos@;
        let ghost setup = *self;
        let mut stack: Vec<Position> = Vec::new();
        stack.push(pos);
        proof {
            assert(stack@[0]@ == start);
            assert(points(stack@) =~= seq![start]);
            lemma_base_on_the_way(rules, base, start);
            assert forall|c: Seq<i64>| #[trigger] fired(base, start, base, c) implies waiting(
                stack@,
                c,
            ) || settled_at(rules, base, c) by {
                assert(c == start);
            }
        }
        while stack.len() > 0
            invariant
                self.wf(),
                setup == *old(self),
                base == setup.board(),
                start == pos@,
                self.same_setup(&setup),
                rules == setup.rules(),
                on_the_way(rules, base, start, self.board()),
                pending_ok(rules, base, start, self.board(), stack@),
                moves_allowed(rules, base, start, moves),
                after_moves(rules, base, moves) == self.board(),
                forall|f: nat| #[trigger]
                    lifo_run(rules, self.board(), points(stack@), f) == lifo_run(
                        rules,
                        base,
                        seq![start],
                        f + visits,
                    ),
            decreases self.slack(), stack.len(),
        {
            let ghost full = stack@;
            let ghost board_then = self.board();
            let p = stack.pop().unwrap();
            let ghost rest = points(stack@);
            let ghost mut pushed: Seq<Seq<i64>> = Seq::empty();
            proof {
                assert(rest + pushed =~= points(stack@));
                assert(points(full).last() == p@);
                assert(points(full).drop_last() =~= rest);
                let first = visit_from(rules, board_then, p@, 0);
                assert(pushed + first.1 =~= first.1);
            }
            proof {
                lemma_visit_begin(rules, base, start, self.board(), full);
                assert(stack@ =~= full.drop_last());
                lemma_steps();
            }
            let ghost slack_then = self.slack();
            let ghost len_then = stack@.len();
            let list = self.neighbors();
            let mut k: usize = 0;
            while k < list.len()
                invariant
                    k <= list@.len(),
                    list@ == steps(),
                    steps().len() == 2 * NDIM,
                    self.wf(),
                    setup == *old(self),
                    base == setup.board(),
                    start == pos@,
                    self.same_setup(&setup),
                    rules == setup.rules(),
                    on_the_way(rules, base, start, self.board()),
                    visiting_ok(rules, base, start, self.board(), stack@, p@, k as int),
                    moves_allowed(rules, base, start, moves),
                    after_moves(rules, base, moves) == self.board(),
                    forall|f: nat| #[trigger]
                        lifo_run(rules, board_then, points(full), f) == lifo_run(
                            rules,
                            base,
                            seq![start],
                            f + visits,
                        ),
                    points(full).len() > 0,
                    points(full).last() == p@,
                    points(full).drop_last() == rest,
                    points(stack@) == rest + pushed,
                    visit_from(rules, board_then, p@, 0) == (
                        visit_from(rules, self.board(), p@, k as int).0,
                        pushed + visit_from(rules, self.board(), p@, k as int).1,
                        visit_from(rules, self.board(), p@, k as int).2,
                    ),
                    self.slack() < slack_then || (self.slack() == slack_then && stack@.len()
                        == len_then),
                decreases list.len() - k,
            {
                let step = list[k];
                let ghost board = self.board();
                let ghost held = stack@;
                let ghost slim = narrowed(rules, board, p@, step.0, step.1);
                proof {
                    lemma_steps();
                    lemma_domain_at(board, shifted(p@, step.0, step.1));
                }
                let outcome = self.update_neighbor(&p, step);
                match outcome {
                    UpdateState::Updated => {
                        let next = neighbor_of(&p, step.0, step.1);
                        stack.push(next);
                        proof {
                            lemma_visit_push(rules, base, start, board, held, p@, k as int, next);
                            let m = Move { point: p@, axis: step.0, dir: step.1 };
                            assert(moves.push(m).drop_last() =~= moves);
                            moves = moves.push(m);
                            let after = visit_from(rules, self.board(), p@, k + 1);
                            assert(pushed.push(next@) + after.1 =~= pushed + (seq![next@] + after.1));
                            assert(stack@ == held.push(next));
                            assert(points(stack@) =~= points(held).push(next@));
                            assert((rest + pushed).push(next@) =~= rest + pushed.push(next@));
                            pushed = pushed.push(next@);
                        }
                    },
                    UpdateState::ImpossibleState => {
                        proof {
                            if board.tiles == 0 {
                                assert(slim =~= board.domain_at(shifted(p@, step.0, step.1)));
                            }
                            lemma_dead_end(rules, base, start, board, p@, step.0, step.1);
                            let m = Move { point: p@, axis: step.0, dir: step.1 };
                            assert(move_allowed(base, start, board, m) && count_allowed(
                                narrowed(rules, board, m.point, m.axis, m.dir),
                            ) == 0);
                            let whole = visit_from(rules, board_then, p@, 0);
                            assert(whole.0 == board && !whole.2);
                            assert(lifo_run(rules, board_then, points(full), 1) == Some(
                                (board, false),
                            ));
                            assert(lifo_run(rules, base, seq![start], 1 + visits) == Some(
                                (board, false),
                            ));
                        }
                        return false;
                    },
                    UpdateState::NothingToDo => {
                        proof {
                            lemma_visit_skip(rules, base, start, board, held, p@, k as int);
                        }
                    },
                }
                k += 1;
            }
            proof {
                lemma_visit_end(rules, base, start, self.board(), stack@, p@);
                let whole = visit_from(rules, board_then, p@, 0);
                assert(whole.0 == self.board() && whole.2);
                assert(pushed + Seq::<Seq<i64>>::empty() =~= pushed);
                assert(whole.1 == pushed);
                assert forall|f: nat| #[trigger]
                    lifo_run(rules, self.board(), points(stack@), f) == lifo_run(
                        rules,
                        base,
                        seq![start],
                        f + visits + 1,
                    ) by {
                    assert(lifo_run(rules, board_then, points(full), f + 1) == lifo_run(
                        rules,
                        base,
                        seq![start],
                        f + 1 + visits,
                    ));
                    assert(lifo_run(rules, board_then, points(full), f + 1) == lifo_run(
                        rules,
                        self.board(),
                        rest + pushed,
                        f,
                    ));
                }
                visits = visits + 1;
            }
        }
        proof {
            let board = self.board();
            assert forall|c: Seq<i64>| (c == start || touched(base, board, c)) implies #[trigger] settled_at(
                rules,
                board,
                c,
            ) by {
                assert(fired(base, start, board, c));
                assert(!waiting(stack@, c));
            }
            lemma_wf_no_empty_domain(board);
            assert(closed_from(rules, base, start, board) && !board.has_empty_domain());
            assert(points(stack@) =~= Seq::<Seq<i64>>::empty());
            assert(lifo_run(rules, board, points(stack@), 0) == Some((board, true)));
            assert(lifo_run(rules, base, seq![start], 0 + visits) == Some((board, true)));
        }
        true
    }
}

/// A board lies between itself and every board that is closed from it.
proof fn lemma_base_on_the_way(rules: Rules, base: Board, start: Seq<i64>)
    requires
        base.wf(),
    ensures
        on_the_way(rules, base, start, base),
{
    assert forall|p: Seq<i64>| mask_within(#[trigger] base.domain_at(p), base.domain_at(p)) by {}
}

} // verus!
