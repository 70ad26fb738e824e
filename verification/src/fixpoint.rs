//! What propagation computes, stated without the order in which points are
//! visited.
//!
//! Propagation starts at one point and narrows neighbours. A point is
//! *settled* when every tile that a neighbour may still take is permitted by
//! some tile that the point itself may still take. A board is *closed* when
//! the start and every point whose domain differs from the one it had before
//! are settled. Propagation ends in the closed board that excludes least.

use vstd::prelude::*;
use crate::board::{Board, lemma_domain_at, lemma_with_domain};
use crate::constraints::{permits, Rules, tile_permits};
use crate::domain::{count_allowed, lemma_count_bounds, lemma_count_within, mask_within};
use crate::position::{is_step, NDIM, shifted};

verus! {

/// Every point of `fine` may take only tiles that it may take on `coarse`.
pub open spec fn refines(fine: Board, coarse: Board) -> bool {
    &&& fine.tiles == coarse.tiles
    &&& forall|p: Seq<i64>| mask_within(#[trigger] fine.domain_at(p), coarse.domain_at(p))
}

/// The domain of `p` on `board` is not the one it has on `base`.
pub open spec fn touched(base: Board, board: Board, p: Seq<i64>) -> bool {
    board.domain_at(p) != base.domain_at(p)
}

/// Every tile that the neighbour of `p` at the step `(axis, dir)` may take
/// is permitted there by the domain of `p`.
pub open spec fn edge_settled(rules: Rules, board: Board, p: Seq<i64>, axis: usize, dir: i64) -> bool {
    forall|other: usize|
        other < board.tiles && #[trigger] board.domain_at(shifted(p, axis, dir))[other as int]
            ==> permits(rules, board.domain_at(p), axis, dir, other)
}

/// The neighbours of `p` at every step are consistent with the domain of `p`.
pub open spec fn settled_at(rules: Rules, board: Board, p: Seq<i64>) -> bool {
    forall|axis: usize, dir: i64|
        is_step(axis, dir) ==> #[trigger] edge_settled(rules, board, p, axis, dir)
}

/// `board` refines `base`, and on it `start` and every point whose domain
/// changed are settled.
pub open spec fn closed_from(rules: Rules, base: Board, start: Seq<i64>, board: Board) -> bool {
    &&& refines(board, base)
    &&& forall|p: Seq<i64>|
        (p == start || touched(base, board, p)) ==> #[trigger] settled_at(rules, board, p)
}

/// Every closed board refines `board`: `board` excludes nothing that
/// propagation from `start` on `base` does not force.
pub open spec fn above_closed(rules: Rules, base: Board, start: Seq<i64>, board: Board) -> bool {
    forall|other: Board| #[trigger] closed_from(rules, base, start, other) ==> refines(other, board)
}

/// A point whose domain did not change is stored as it was.
pub open spec fn keeps_untouched(base: Board, board: Board) -> bool {
    forall|p: Seq<i64>|
        !(#[trigger] touched(base, board, p)) ==> (board.collapsed.dom().contains(p)
            == base.collapsed.dom().contains(p) && board.wavefront.dom().contains(p)
            == base.wavefront.dom().contains(p))
}

/// `board` lies between `base` and every closed board, and stores the points
/// that did not change as `base` does.
pub open spec fn on_the_way(rules: Rules, base: Board, start: Seq<i64>, board: Board) -> bool {
    &&& board.wf()
    &&& refines(board, base)
    &&& keeps_untouched(base, board)
    &&& above_closed(rules, base, start, board)
}

/// `board` is the result of propagation from `start` on `base`: the closed
/// board that every other closed board refines.
pub open spec fn is_propagated(rules: Rules, base: Board, start: Seq<i64>, board: Board) -> bool {
    &&& on_the_way(rules, base, start, board)
    &&& closed_from(rules, base, start, board)
}

/// The domain of the neighbour of `p` at the step `(axis, dir)` without the
/// tiles that the domain of `p` does not permit there.
pub open spec fn narrowed(rules: Rules, board: Board, p: Seq<i64>, axis: usize, dir: i64) -> Seq<bool> {
    Seq::new(
        board.tiles,
        |t: int|
            board.domain_at(shifted(p, axis, dir))[t] && permits(
                rules,
                board.domain_at(p),
                axis,
                dir,
                t as usize,
            ),
    )
}

/// A smaller domain permits no more.
pub proof fn lemma_permits_monotone(
    rules: Rules,
    inner: Seq<bool>,
    outer: Seq<bool>,
    axis: usize,
    dir: i64,
    other: usize,
)
    requires
        mask_within(inner, outer),
        permits(rules, inner, axis, dir, other),
    ensures
        permits(rules, outer, axis, dir, other),
{
    let tile = choose|tile: usize|
        tile < inner.len() && inner[tile as int] && #[trigger] tile_permits(
            rules,
            tile,
            axis,
            dir,
            other,
        );
    assert(outer[tile as int]);
}

/// Of two domains, one inside the other and the other inside the first, the
/// two are equal.
pub proof fn lemma_within_antisymmetric(a: Seq<bool>, b: Seq<bool>)
    requires
        mask_within(a, b),
        mask_within(b, a),
    ensures
        a == b,
{
    assert forall|t: int| 0 <= t < a.len() implies a[t] == b[t] by {
        if a[t] {
        }
        if b[t] {
        }
    }
    assert(a =~= b);
}

/// A domain inside one that is inside a third is inside the third.
pub proof fn lemma_within_transitive(a: Seq<bool>, b: Seq<bool>, c: Seq<bool>)
    requires
        mask_within(a, b),
        mask_within(b, c),
    ensures
        mask_within(a, c),
{
    assert forall|t: int| 0 <= t < a.len() && #[trigger] a[t] implies c[t] by {
        assert(b[t]);
    }
}

/// A point that changed on a board has changed on every board that refines
/// it.
pub proof fn lemma_touched_below(base: Board, board: Board, other: Board, p: Seq<i64>)
    requires
        refines(board, base),
        refines(other, board),
        touched(base, board, p),
    ensures
        touched(base, other, p),
{
    assert(mask_within(board.domain_at(p), base.domain_at(p)));
    assert(mask_within(other.domain_at(p), board.domain_at(p)));
    if other.domain_at(p) == base.domain_at(p) {
        lemma_within_antisymmetric(board.domain_at(p), base.domain_at(p));
    }
}

/// What the narrowed domain of a neighbour is: over the universe, inside the
/// neighbour's domain, and equal to it exactly where the edge is settled.
pub proof fn lemma_narrowed(rules: Rules, board: Board, p: Seq<i64>, axis: usize, dir: i64)
    requires
        board.wf(),
    ensures
        narrowed(rules, board, p, axis, dir).len() == board.tiles,
        mask_within(
            narrowed(rules, board, p, axis, dir),
            board.domain_at(shifted(p, axis, dir)),
        ),
        narrowed(rules, board, p, axis, dir) == board.domain_at(shifted(p, axis, dir))
            <==> edge_settled(rules, board, p, axis, dir),
{
    let q = shifted(p, axis, dir);
    let slim = narrowed(rules, board, p, axis, dir);
    lemma_domain_at(board, q);
    if slim == board.domain_at(q) {
        assert forall|other: usize|
            other < board.tiles && #[trigger] board.domain_at(q)[other as int] implies permits(
            rules,
            board.domain_at(p),
            axis,
            dir,
            other,
        ) by {
            assert(slim[other as int]);
        }
    }
    if edge_settled(rules, board, p, axis, dir) {
        assert forall|t: int| 0 <= t < slim.len() implies slim[t] == board.domain_at(q)[t] by {
            if board.domain_at(q)[t] {
                assert(board.domain_at(q)[(t as usize) as int]);
            }
        }
        assert(slim =~= board.domain_at(q));
    }
}

/// On every closed board the neighbour of a point that fired may take only
/// what the narrowed domain leaves.
pub proof fn lemma_closed_below_narrowed(
    rules: Rules,
    base: Board,
    start: Seq<i64>,
    board: Board,
    p: Seq<i64>,
    axis: usize,
    dir: i64,
    other: Board,
)
    requires
        on_the_way(rules, base, start, board),
        p == start || touched(base, board, p),
        is_step(axis, dir),
        closed_from(rules, base, start, other),
    ensures
        mask_within(
            other.domain_at(shifted(p, axis, dir)),
            narrowed(rules, board, p, axis, dir),
        ),
{
    let q = shifted(p, axis, dir);
    let slim = narrowed(rules, board, p, axis, dir);
    lemma_narrowed(rules, board, p, axis, dir);
    assert(refines(other, board));
    assert(mask_within(other.domain_at(q), board.domain_at(q)));
    assert(mask_within(other.domain_at(p), board.domain_at(p)));
    if p != start {
        lemma_touched_below(base, board, other, p);
    }
    assert(settled_at(rules, other, p));
    assert(edge_settled(rules, other, p, axis, dir));
    assert forall|t: int| 0 <= t < other.domain_at(q).len() && #[trigger] other.domain_at(
        q,
    )[t] implies slim[t] by {
        assert(other.domain_at(q)[(t as usize) as int]);
        assert(permits(rules, other.domain_at(p), axis, dir, t as usize));
        lemma_permits_monotone(
            rules,
            other.domain_at(p),
            board.domain_at(p),
            axis,
            dir,
            t as usize,
        );
        assert(board.domain_at(q)[t]);
    }
}

/// Where narrowing would leave a neighbour no tile, no closed board is free
/// of an empty domain.
pub proof fn lemma_dead_end(
    rules: Rules,
    base: Board,
    start: Seq<i64>,
    board: Board,
    p: Seq<i64>,
    axis: usize,
    dir: i64,
)
    requires
        on_the_way(rules, base, start, board),
        p == start || touched(base, board, p),
        is_step(axis, dir),
        board.tiles > 0,
        count_allowed(narrowed(rules, board, p, axis, dir)) == 0,
    ensures
        forall|other: Board| #[trigger]
            closed_from(rules, base, start, other) ==> other.has_empty_domain(),
{
    let q = shifted(p, axis, dir);
    assert forall|other: Board| #[trigger]
        closed_from(rules, base, start, other) implies other.has_empty_domain() by {
        lemma_closed_below_narrowed(rules, base, start, board, p, axis, dir, other);
        lemma_count_within(other.domain_at(q), narrowed(rules, board, p, axis, dir));
        assert(count_allowed(other.domain_at(q)) == 0);
    }
}

/// Narrowing the neighbour of a point that fired keeps the board between
/// the base and every closed board, settles that edge, and unsettles no
/// point but, at most, the neighbour.
pub proof fn lemma_narrow_step(
    rules: Rules,
    base: Board,
    start: Seq<i64>,
    board: Board,
    p: Seq<i64>,
    axis: usize,
    dir: i64,
)
    requires
        on_the_way(rules, base, start, board),
        p.len() == NDIM,
        p == start || touched(base, board, p),
        is_step(axis, dir),
        narrowed(rules, board, p, axis, dir) != board.domain_at(shifted(p, axis, dir)),
        count_allowed(narrowed(rules, board, p, axis, dir)) >= 1,
    ensures
        !board.collapsed.dom().contains(shifted(p, axis, dir)),
        on_the_way(
            rules,
            base,
            start,
            board.with_domain(shifted(p, axis, dir), narrowed(rules, board, p, axis, dir)),
        ),
        touched(
            base,
            board.with_domain(shifted(p, axis, dir), narrowed(rules, board, p, axis, dir)),
            shifted(p, axis, dir),
        ),
        count_allowed(narrowed(rules, board, p, axis, dir)) < count_allowed(
            board.domain_at(shifted(p, axis, dir)),
        ),
{
    let q = shifted(p, axis, dir);
    let slim = narrowed(rules, board, p, axis, dir);
    let next = board.with_domain(q, slim);
    lemma_narrowed(rules, board, p, axis, dir);
    lemma_domain_at(board, q);
    lemma_count_within(slim, board.domain_at(q));
    lemma_with_domain(board, q, slim);
    assert(mask_within(board.domain_at(q), base.domain_at(q)));
    lemma_within_transitive(slim, board.domain_at(q), base.domain_at(q));
    assert(touched(base, next, q)) by {
        if slim == base.domain_at(q) {
            lemma_within_antisymmetric(board.domain_at(q), slim);
        }
    }
    assert forall|x: Seq<i64>| mask_within(#[trigger] next.domain_at(x), base.domain_at(x)) by {
        if x != q {
            assert(next.domain_at(x) == board.domain_at(x));
            assert(mask_within(board.domain_at(x), base.domain_at(x)));
        }
    }
    assert forall|x: Seq<i64>| !(#[trigger] touched(base, next, x)) implies (
    next.collapsed.dom().contains(x) == base.collapsed.dom().contains(x)
        && next.wavefront.dom().contains(x) == base.wavefront.dom().contains(x)) by {
        assert(x != q);
        assert(next.domain_at(x) == board.domain_at(x));
        assert(!touched(base, board, x));
    }
    assert forall|other: Board| #[trigger] closed_from(rules, base, start, other) implies refines(
        other,
        next,
    ) by {
        lemma_closed_below_narrowed(rules, base, start, board, p, axis, dir, other);
        assert(refines(other, board));
        assert forall|x: Seq<i64>| mask_within(#[trigger] other.domain_at(x), next.domain_at(x)) by {
            if x != q {
                assert(next.domain_at(x) == board.domain_at(x));
                assert(mask_within(other.domain_at(x), board.domain_at(x)));
            }
        }
    }
}

/// After a neighbour was narrowed, the edge towards it is settled, and so is
/// every edge that was settled before and does not start at that neighbour.
pub proof fn lemma_narrow_settles(
    rules: Rules,
    board: Board,
    p: Seq<i64>,
    axis: usize,
    dir: i64,
)
    requires
        board.wf(),
        p.len() == NDIM,
        is_step(axis, dir),
        !board.collapsed.dom().contains(shifted(p, axis, dir)),
        count_allowed(narrowed(rules, board, p, axis, dir)) >= 1,
    ensures
        edge_settled(
            rules,
            board.with_domain(shifted(p, axis, dir), narrowed(rules, board, p, axis, dir)),
            p,
            axis,
            dir,
        ),
        forall|c: Seq<i64>, a: usize, d: i64|
            c != shifted(p, axis, dir) && edge_settled(rules, board, c, a, d)
                ==> #[trigger] edge_settled(
                rules,
                board.with_domain(shifted(p, axis, dir), narrowed(rules, board, p, axis, dir)),
                c,
                a,
                d,
            ),
        forall|c: Seq<i64>|
            c != shifted(p, axis, dir) && settled_at(rules, board, c) ==> #[trigger] settled_at(
                rules,
                board.with_domain(shifted(p, axis, dir), narrowed(rules, board, p, axis, dir)),
                c,
            ),
{
    let q = shifted(p, axis, dir);
    let slim = narrowed(rules, board, p, axis, dir);
    let next = board.with_domain(q, slim);
    lemma_narrowed(rules, board, p, axis, dir);
    lemma_with_domain(board, q, slim);
    crate::position::lemma_shifted_differs(p, axis, dir);
    assert(next.domain_at(p) == board.domain_at(p));
    assert forall|other: usize|
        other < next.tiles && #[trigger] next.domain_at(shifted(p, axis, dir))[other as int] implies permits(
        rules,
        next.domain_at(p),
        axis,
        dir,
        other,
    ) by {
        assert(slim[other as int]);
    }
    assert forall|c: Seq<i64>, a: usize, d: i64|
        c != q && edge_settled(rules, board, c, a, d) implies #[trigger] edge_settled(
        rules,
        next,
        c,
        a,
        d,
    ) by {
        let r = shifted(c, a, d);
        assert(next.domain_at(c) == board.domain_at(c));
        assert forall|other: usize|
            other < next.tiles && #[trigger] next.domain_at(r)[other as int] implies permits(
            rules,
            next.domain_at(c),
            a,
            d,
            other,
        ) by {
            if r == q {
                assert(slim[other as int]);
                assert(board.domain_at(r)[other as int]);
            } else {
                assert(next.domain_at(r) == board.domain_at(r));
                assert(board.domain_at(r)[other as int]);
            }
        }
    }
    assert forall|c: Seq<i64>| c != q && settled_at(rules, board, c) implies #[trigger] settled_at(
        rules,
        next,
        c,
    ) by {
        assert forall|a: usize, d: i64| is_step(a, d) implies #[trigger] edge_settled(
            rules,
            next,
            c,
            a,
            d,
        ) by {
            assert(edge_settled(rules, board, c, a, d));
        }
    }
}

/// Two results of propagation from one start on one base are the same
/// board: the result does not depend on the order in which the points were
/// visited.
pub proof fn lemma_propagation_unique(
    rules: Rules,
    base: Board,
    start: Seq<i64>,
    one: Board,
    two: Board,
)
    requires
        base.wf(),
        is_propagated(rules, base, start, one),
        is_propagated(rules, base, start, two),
    ensures
        one == two,
{
    assert(refines(one, two));
    assert(refines(two, one));
    assert forall|p: Seq<i64>| one.domain_at(p) == two.domain_at(p) by {
        assert(mask_within(one.domain_at(p), two.domain_at(p)));
        assert(mask_within(two.domain_at(p), one.domain_at(p)));
        lemma_within_antisymmetric(one.domain_at(p), two.domain_at(p));
    }
    assert forall|p: Seq<i64>|
        one.collapsed.dom().contains(p) == two.collapsed.dom().contains(p)
            && one.wavefront.dom().contains(p) == two.wavefront.dom().contains(p) by {
        lemma_storage_determined(base, one, p);
        lemma_storage_determined(base, two, p);
        assert(one.domain_at(p) == two.domain_at(p));
    }
    assert forall|p: Seq<i64>| one.collapsed.dom().contains(p) implies one.collapsed[p]
        == two.collapsed[p] by {
        assert(one.domain_at(p) == two.domain_at(p));
        let a = one.collapsed[p] as int;
        let b = two.collapsed[p] as int;
        assert(one.domain_at(p)[a]);
        assert(two.domain_at(p)[a]);
    }
    assert forall|p: Seq<i64>| one.wavefront.dom().contains(p) implies one.wavefront[p]
        == two.wavefront[p] by {
        assert(one.domain_at(p) == two.domain_at(p));
    }
    assert(one.collapsed =~= two.collapsed);
    assert(one.wavefront =~= two.wavefront);
}

/// One move of a propagation: the neighbour of `point` at the step
/// `(axis, dir)` is narrowed.
pub struct Move {
    pub point: Seq<i64>,
    pub axis: usize,
    pub dir: i64,
}

/// A move that a propagation from `start` may make on `board`: a step from a
/// lattice point that is the start or has changed.
pub open spec fn move_allowed(base: Board, start: Seq<i64>, board: Board, m: Move) -> bool {
    &&& m.point.len() == NDIM
    &&& is_step(m.axis, m.dir)
    &&& m.point == start || touched(base, board, m.point)
}

/// The board after the move `m`.
pub open spec fn narrow_once(rules: Rules, board: Board, m: Move) -> Board {
    board.with_domain(
        shifted(m.point, m.axis, m.dir),
        narrowed(rules, board, m.point, m.axis, m.dir),
    )
}

/// The board after the moves of `moves`, made in their order on `base`.
pub open spec fn after_moves(rules: Rules, base: Board, moves: Seq<Move>) -> Board
    decreases moves.len(),
{
    if moves.len() == 0 {
        base
    } else {
        narrow_once(rules, after_moves(rules, base, moves.drop_last()), moves.last())
    }
}

/// Every move of `moves` is allowed when its turn comes, takes at least one
/// tile from the neighbour and leaves it at least one.
pub open spec fn moves_allowed(rules: Rules, base: Board, start: Seq<i64>, moves: Seq<Move>) -> bool
    decreases moves.len(),
{
    moves.len() > 0 ==> {
        let board = after_moves(rules, base, moves.drop_last());
        let m = moves.last();
        &&& moves_allowed(rules, base, start, moves.drop_last())
        &&& move_allowed(base, start, board, m)
        &&& narrowed(rules, board, m.point, m.axis, m.dir) != board.domain_at(
            shifted(m.point, m.axis, m.dir),
        )
        &&& count_allowed(narrowed(rules, board, m.point, m.axis, m.dir)) >= 1
    }
}

/// Some allowed move on `board` would leave a neighbour no tile.
pub open spec fn at_dead_end(rules: Rules, base: Board, start: Seq<i64>, board: Board) -> bool {
    board.tiles > 0 && exists|m: Move| #[trigger]
        move_allowed(base, start, board, m) && count_allowed(
            narrowed(rules, board, m.point, m.axis, m.dir),
        ) == 0
}

/// `board` is what a run of allowed moves from `start` on `base` came to:
/// where `ok`, a board on which every point that was to be settled is; where
/// not, the board on which the run met a move that would leave a neighbour no
/// tile, exactly as the moves before it left it.
pub open spec fn is_run_result(
    rules: Rules,
    base: Board,
    start: Seq<i64>,
    board: Board,
    ok: bool,
) -> bool {
    &&& exists|moves: Seq<Move>| #[trigger]
        moves_allowed(rules, base, start, moves) && after_moves(rules, base, moves) == board
    &&& if ok {
        closed_from(rules, base, start, board)
    } else {
        at_dead_end(rules, base, start, board)
    }
}

/// A well-formed board leaves every point a tile.
pub proof fn lemma_wf_no_empty_domain(board: Board)
    requires
        board.wf(),
    ensures
        !board.has_empty_domain(),
{
    if board.has_empty_domain() {
        let p = choose|p: Seq<i64>| count_allowed(#[trigger] board.domain_at(p)) == 0;
        lemma_domain_at(board, p);
    }
}

/// Whatever moves a propagation makes, and in whatever order, the board
/// stays between the base and every closed board.
pub proof fn lemma_moves_on_the_way(rules: Rules, base: Board, start: Seq<i64>, moves: Seq<Move>)
    requires
        base.wf(),
        moves_allowed(rules, base, start, moves),
    ensures
        on_the_way(rules, base, start, after_moves(rules, base, moves)),
    decreases moves.len(),
{
    if moves.len() == 0 {
        assert forall|p: Seq<i64>| mask_within(#[trigger] base.domain_at(p), base.domain_at(p)) by {}
    } else {
        let board = after_moves(rules, base, moves.drop_last());
        let m = moves.last();
        lemma_moves_on_the_way(rules, base, start, moves.drop_last());
        lemma_narrow_step(rules, base, start, board, m.point, m.axis, m.dir);
    }
}

/// The result of a run that succeeded is the result of propagation.
pub proof fn lemma_run_is_propagated(rules: Rules, base: Board, start: Seq<i64>, board: Board)
    requires
        base.wf(),
        is_run_result(rules, base, start, board, true),
    ensures
        is_propagated(rules, base, start, board),
{
    let moves = choose|moves: Seq<Move>| #[trigger]
        moves_allowed(rules, base, start, moves) && after_moves(rules, base, moves) == board;
    lemma_moves_on_the_way(rules, base, start, moves);
}

/// Where a run has failed, every run fails: no closed board leaves every
/// point a tile.
pub proof fn lemma_run_failed(rules: Rules, base: Board, start: Seq<i64>, board: Board)
    requires
        base.wf(),
        is_run_result(rules, base, start, board, false),
    ensures
        forall|other: Board| #[trigger]
            closed_from(rules, base, start, other) ==> other.has_empty_domain(),
{
    let moves = choose|moves: Seq<Move>| #[trigger]
        moves_allowed(rules, base, start, moves) && after_moves(rules, base, moves) == board;
    lemma_moves_on_the_way(rules, base, start, moves);
    let m = choose|m: Move| #[trigger]
        move_allowed(base, start, board, m) && count_allowed(
            narrowed(rules, board, m.point, m.axis, m.dir),
        ) == 0;
    lemma_dead_end(rules, base, start, board, m.point, m.axis, m.dir);
}

/// Confluence. Two runs of propagation from one start on one board, which
/// visit the points in whatever orders, and both succeed, end with the same
/// collapsed points and the same wavefront.
pub proof fn lemma_order_independent(
    rules: Rules,
    base: Board,
    start: Seq<i64>,
    one: Board,
    two: Board,
)
    requires
        base.wf(),
        is_run_result(rules, base, start, one, true),
        is_run_result(rules, base, start, two, true),
    ensures
        one == two,
{
    lemma_run_is_propagated(rules, base, start, one);
    lemma_run_is_propagated(rules, base, start, two);
    lemma_propagation_unique(rules, base, start, one, two);
}

/// Of two runs of propagation from one start on one board, both succeed or
/// both fail, in whatever orders they visit the points.
pub proof fn lemma_success_order_independent(
    rules: Rules,
    base: Board,
    start: Seq<i64>,
    one: Board,
    ok_one: bool,
    two: Board,
    ok_two: bool,
)
    requires
        base.wf(),
        is_run_result(rules, base, start, one, ok_one),
        is_run_result(rules, base, start, two, ok_two),
    ensures
        ok_one == ok_two,
{
    if ok_one && !ok_two {
        lemma_run_is_propagated(rules, base, start, one);
        lemma_run_failed(rules, base, start, two);
        lemma_wf_no_empty_domain(one);
    }
    if ok_two && !ok_one {
        lemma_run_is_propagated(rules, base, start, two);
        lemma_run_failed(rules, base, start, one);
        lemma_wf_no_empty_domain(two);
    }
}

/// Every stored point is settled: no neighbour of a point that was touched
/// may take a tile that the point does not permit there.
pub open spec fn consistent(rules: Rules, board: Board) -> bool {
    forall|p: Seq<i64>| #[trigger] board.stores(p) ==> settled_at(rules, board, p)
}

/// On a consistent board every pair of collapsed neighbours obeys the rules:
/// the tile of the one permits the tile of the other at the step between
/// them.
pub proof fn lemma_neighbours_obey_rules(
    rules: Rules,
    board: Board,
    p: Seq<i64>,
    axis: usize,
    dir: i64,
)
    requires
        board.wf(),
        consistent(rules, board),
        is_step(axis, dir),
        board.collapsed.dom().contains(p),
        board.collapsed.dom().contains(shifted(p, axis, dir)),
    ensures
        tile_permits(
            rules,
            board.collapsed[p],
            axis,
            dir,
            board.collapsed[shifted(p, axis, dir)],
        ),
{
    let q = shifted(p, axis, dir);
    let other = board.collapsed[q];
    assert(board.stores(p));
    assert(settled_at(rules, board, p));
    assert(edge_settled(rules, board, p, axis, dir));
    assert(board.domain_at(q)[other as int]);
    assert(permits(rules, board.domain_at(p), axis, dir, other));
    let tile = choose|tile: usize|
        tile < board.domain_at(p).len() && board.domain_at(p)[tile as int] && #[trigger] tile_permits(
            rules,
            tile,
            axis,
            dir,
            other,
        );
    assert(tile == board.collapsed[p]);
}

/// Narrowing one point of a consistent board and propagating from it gives
/// a consistent board again.
pub proof fn lemma_propagation_keeps_consistent(
    rules: Rules,
    base: Board,
    pos: Seq<i64>,
    mask: Seq<bool>,
    board: Board,
)
    requires
        base.wf(),
        consistent(rules, base),
        !base.collapsed.dom().contains(pos),
        mask_within(mask, base.domain_at(pos)),
        mask.len() == base.tiles,
        count_allowed(mask) >= 1,
        is_propagated(rules, base.with_domain(pos, mask), pos, board),
    ensures
        consistent(rules, board),
{
    let committed = base.with_domain(pos, mask);
    lemma_with_domain(base, pos, mask);
    assert forall|p: Seq<i64>| #[trigger] board.stores(p) implies settled_at(rules, board, p) by {
        if p == pos || touched(committed, board, p) {
        } else {
            assert(board.domain_at(p) == committed.domain_at(p));
            assert(committed.domain_at(p) == base.domain_at(p));
            assert(base.stores(p));
            assert(settled_at(rules, base, p));
            assert forall|axis: usize, dir: i64| is_step(axis, dir) implies #[trigger] edge_settled(
                rules,
                board,
                p,
                axis,
                dir,
            ) by {
                let q = shifted(p, axis, dir);
                assert(edge_settled(rules, base, p, axis, dir));
                assert(mask_within(board.domain_at(q), committed.domain_at(q)));
                assert(mask_within(committed.domain_at(q), base.domain_at(q)));
                assert forall|other: usize|
                    other < board.tiles && #[trigger] board.domain_at(q)[other as int] implies permits(
                    rules,
                    board.domain_at(p),
                    axis,
                    dir,
                    other,
                ) by {
                    assert(committed.domain_at(q)[other as int]);
                    assert(base.domain_at(q)[other as int]);
                }
            }
        }
    }
}

/// How a point is stored follows from its domain and from how the base
/// stored it: a point that changed is collapsed exactly where one tile is
/// left, and in the wavefront otherwise.
pub proof fn lemma_storage_determined(base: Board, board: Board, p: Seq<i64>)
    requires
        base.wf(),
        board.wf(),
        refines(board, base),
        keeps_untouched(base, board),
    ensures
        touched(base, board, p) ==> (board.collapsed.dom().contains(p) <==> count_allowed(
            board.domain_at(p),
        ) == 1),
        touched(base, board, p) ==> (board.wavefront.dom().contains(p) <==> count_allowed(
            board.domain_at(p),
        ) != 1),
        !touched(base, board, p) ==> board.collapsed.dom().contains(p)
            == base.collapsed.dom().contains(p) && board.wavefront.dom().contains(p)
            == base.wavefront.dom().contains(p),
{
    lemma_domain_at(board, p);
    lemma_domain_at(base, p);
    if touched(base, board, p) {
        assert(mask_within(board.domain_at(p), base.domain_at(p)));
        lemma_count_within(board.domain_at(p), base.domain_at(p));
        lemma_count_bounds(base.domain_at(p));
        if !board.stores(p) {
            // An unstored point allows every tile, and so does the base above it.
            assert(count_allowed(board.domain_at(p)) == board.tiles);
        }
    } else {
        assert(!touched(base, board, p));
    }
}

} // verus!
