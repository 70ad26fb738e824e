//! The state of the lattice as a mathematical object.

use vstd::prelude::*;
use crate::domain::{
    count_allowed,
    lemma_count_bounds,
    lemma_count_open,
    lemma_count_single,
    lemma_sole_tile,
    lowest_allowed,
    open_mask,
    single_mask,
};

verus! {

/// What is known of the lattice: the points that hold a tile for good, and
/// the points whose domain was narrowed and still leaves a choice. A point in
/// neither map is in its initial state and may take every tile.
pub struct Board {
    pub tiles: nat,
    pub collapsed: Map<Seq<i64>, usize>,
    pub wavefront: Map<Seq<i64>, Seq<bool>>,
}

impl Board {
    /// The universe has a size that a machine word holds; no point is in
    /// both maps; a collapsed point holds a tile of the
    /// universe; a point of the wavefront has a domain over the universe that
    /// leaves at least two tiles.
    pub open spec fn wf(self) -> bool {
        &&& self.tiles <= usize::MAX
        &&& forall|p: Seq<i64>| #[trigger]
            self.collapsed.dom().contains(p) ==> self.collapsed[p] < self.tiles
                && !self.wavefront.dom().contains(p)
        &&& forall|p: Seq<i64>| #[trigger]
            self.wavefront.dom().contains(p) ==> self.wavefront[p].len() == self.tiles
                && count_allowed(self.wavefront[p]) >= 2
    }

    /// The board on which every point is in its initial state.
    pub open spec fn blank(tiles: nat) -> Board {
        Board { tiles, collapsed: Map::empty(), wavefront: Map::empty() }
    }

    /// Whether the board keeps an entry for `p`.
    pub open spec fn stores(self, p: Seq<i64>) -> bool {
        self.collapsed.dom().contains(p) || self.wavefront.dom().contains(p)
    }

    /// The domain of `p`: its tile alone where it is collapsed, its entry
    /// where it is in the wavefront, and every tile otherwise.
    pub open spec fn domain_at(self, p: Seq<i64>) -> Seq<bool> {
        if self.collapsed.dom().contains(p) {
            single_mask(self.tiles, self.collapsed[p] as int)
        } else if self.wavefront.dom().contains(p) {
            self.wavefront[p]
        } else {
            open_mask(self.tiles)
        }
    }

    /// The board after `p` was given the domain `mask`: collapsed to its one
    /// tile where `mask` leaves one, an entry of the wavefront otherwise.
    pub open spec fn with_domain(self, p: Seq<i64>, mask: Seq<bool>) -> Board {
        if count_allowed(mask) == 1 {
            Board {
                tiles: self.tiles,
                collapsed: self.collapsed.insert(p, lowest_allowed(mask) as usize),
                wavefront: self.wavefront.remove(p),
            }
        } else {
            Board {
                tiles: self.tiles,
                collapsed: self.collapsed,
                wavefront: self.wavefront.insert(p, mask),
            }
        }
    }

    /// Whether some point has no tile left.
    pub open spec fn has_empty_domain(self) -> bool {
        self.tiles > 0 && exists|p: Seq<i64>| count_allowed(#[trigger] self.domain_at(p)) == 0
    }
}

/// On a well-formed board every domain is over the universe and, where there
/// is a tile at all, leaves at least one.
pub proof fn lemma_domain_at(board: Board, p: Seq<i64>)
    requires
        board.wf(),
    ensures
        board.domain_at(p).len() == board.tiles,
        board.tiles > 0 ==> count_allowed(board.domain_at(p)) >= 1,
        board.collapsed.dom().contains(p) ==> count_allowed(board.domain_at(p)) == 1,
        !board.stores(p) ==> count_allowed(board.domain_at(p)) == board.tiles,
{
    if board.collapsed.dom().contains(p) {
        lemma_count_single(board.tiles, board.collapsed[p] as int);
    } else if board.wavefront.dom().contains(p) {
    } else {
        lemma_count_open(board.tiles);
    }
}

/// Giving a point that is not collapsed a domain over the universe that
/// leaves a tile keeps the board well-formed, makes that the point's domain
/// and leaves every other point as it was.
pub proof fn lemma_with_domain(board: Board, p: Seq<i64>, mask: Seq<bool>)
    requires
        board.wf(),
        !board.collapsed.dom().contains(p),
        mask.len() == board.tiles,
        count_allowed(mask) >= 1,
    ensures
        board.with_domain(p, mask).wf(),
        board.with_domain(p, mask).tiles == board.tiles,
        board.with_domain(p, mask).domain_at(p) == mask,
        forall|q: Seq<i64>|
            q != p ==> #[trigger] board.with_domain(p, mask).domain_at(q) == board.domain_at(q),
        forall|q: Seq<i64>|
            q != p ==> board.with_domain(p, mask).collapsed.dom().contains(q)
                == board.collapsed.dom().contains(q),
        forall|q: Seq<i64>|
            q != p ==> board.with_domain(p, mask).wavefront.dom().contains(q)
                == board.wavefront.dom().contains(q),
{
    let after = board.with_domain(p, mask);
    if count_allowed(mask) == 1 {
        lemma_sole_tile(mask);
        lemma_count_bounds(mask);
    }
    assert forall|q: Seq<i64>| q != p implies #[trigger] after.domain_at(q) == board.domain_at(
        q,
    ) by {}
}

} // verus!
