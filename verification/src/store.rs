//! The state store: the collapsed points and the wavefront of a sparse
//! lattice. Points that were never touched take no room.

use vstd::prelude::*;
use crate::board::{Board, lemma_domain_at, lemma_with_domain};
use crate::domain::{
    allowed_count,
    count_allowed,
    first_allowed,
    init_mask,
    lemma_count_bounds,
    lemma_count_open,
    mask_from_idx,
};
use crate::listing::{
    has_key,
    keys_distinct,
    lemma_lost_sum_bound,
    lemma_lost_sum_remove,
    lemma_lost_sum_update,
    lemma_map_of_entry,
    lemma_map_of_len,
    lemma_map_of_push,
    lemma_map_of_remove,
    lemma_map_of_update,
    lost,
    lost_sum,
    map_of,
};
use crate::position::{NDIM, Position, same_position};

verus! {

/// A copy of `mask`.
pub fn copy_mask(mask: &Vec<bool>) -> (copy: Vec<bool>)
    ensures
        copy@ == mask@,
{
    let mut copy: Vec<bool> = Vec::new();
    let mut t: usize = 0;
    while t < mask.len()
        invariant
            t <= mask.len(),
            copy@ == mask@.take(t as int),
        decreases mask.len() - t,
    {
        copy.push(mask[t]);
        t += 1;
        assert(copy@ =~= mask@.take(t as int));
    }
    assert(mask@.take(t as int) =~= mask@);
    copy
}

/// The collapsed points and the wavefront, each point once.
pub struct Grid {
    tiles: usize,
    collapsed: Vec<(Position, usize)>,
    wavefront: Vec<(Position, Vec<bool>)>,
}

impl Grid {
    /// The number of tiles of the universe.
    pub closed spec fn tile_count(&self) -> nat {
        self.tiles as nat
    }

    /// The collapsed points with their tiles, in the order in which the
    /// store keeps them.
    pub closed spec fn collapsed_list(&self) -> Seq<(Seq<i64>, usize)> {
        Seq::new(self.collapsed@.len(), |i: int| (self.collapsed@[i].0@, self.collapsed@[i].1))
    }

    /// The points of the wavefront with their domains, in the order in which
    /// the store keeps them.
    pub closed spec fn wavefront_list(&self) -> Seq<(Seq<i64>, Seq<bool>)> {
        Seq::new(self.wavefront@.len(), |i: int| (self.wavefront@[i].0@, self.wavefront@[i].1@))
    }

    /// The store as a board.
    pub open spec fn view(&self) -> Board {
        Board {
            tiles: self.tile_count(),
            collapsed: map_of(self.collapsed_list()),
            wavefront: map_of(self.wavefront_list()),
        }
    }

    /// Each point is kept once, and the board is well-formed.
    pub open spec fn wf(&self) -> bool {
        &&& keys_distinct(self.collapsed_list())
        &&& keys_distinct(self.wavefront_list())
        &&& self@.wf()
    }

    /// How many tiles the domains of the stored points can still lose before
    /// the store is at the end of its room. It falls whenever a domain is
    /// narrowed.
    pub closed spec fn slack(&self) -> nat {
        (self.tiles * (2 * usize::MAX) - self.collapsed@.len() * (self.tiles - 1) - lost_sum(
            self.wavefront_list(),
            self.tiles as nat,
        )) as nat
    }

    /// The store in which no point was touched.
    pub fn new(tiles: usize) -> (grid: Grid)
        ensures
            grid.wf(),
            grid@ == Board::blank(tiles as nat),
    {
        let grid = Grid { tiles, collapsed: Vec::new(), wavefront: Vec::new() };
        assert(grid@.collapsed =~= Map::empty());
        assert(grid@.wavefront =~= Map::empty());
        grid
    }

    /// The number of tiles of the universe.
    pub fn tiles(&self) -> (n: usize)
        ensures
            n == self@.tiles,
    {
        self.tiles
    }

    /// The number of collapsed points.
    pub fn collapsed_len(&self) -> (n: usize)
        requires
            self.wf(),
        ensures
            n == self@.collapsed.dom().len(),
            n == self.collapsed_list().len(),
            self@.collapsed.dom().finite(),
    {
        proof {
            lemma_map_of_len(self.collapsed_list());
        }
        self.collapsed.len()
    }

    /// The number of points in the wavefront.
    pub fn wavefront_len(&self) -> (n: usize)
        requires
            self.wf(),
        ensures
            n == self@.wavefront.dom().len(),
            n == self.wavefront_list().len(),
            self@.wavefront.dom().finite(),
    {
        proof {
            lemma_map_of_len(self.wavefront_list());
        }
        self.wavefront.len()
    }

    /// The collapsed point at place `i` of the list, with its tile.
    pub fn collapsed_entry(&self, i: usize) -> (entry: (Position, usize))
        requires
            i < self.collapsed_list().len(),
        ensures
            (entry.0@, entry.1) == self.collapsed_list()[i as int],
    {
        self.collapsed[i]
    }

    /// The point at place `i` of the wavefront's list, with its domain.
    pub fn wavefront_entry(&self, i: usize) -> (entry: (&Position, &Vec<bool>))
        requires
            i < self.wavefront_list().len(),
        ensures
            (entry.0@, entry.1@) == self.wavefront_list()[i as int],
    {
        (&self.wavefront[i].0, &self.wavefront[i].1)
    }

    /// Where `pos` stands among the collapsed points.
    fn find_collapsed(&self, pos: &Position) -> (found: Option<usize>)
        ensures
            match found {
                Some(i) => i < self.collapsed_list().len() && self.collapsed_list()[i as int].0
                    == pos@,
                None => !has_key(self.collapsed_list(), pos@),
            },
    {
        let mut i: usize = 0;
        while i < self.collapsed.len()
            invariant
                i <= self.collapsed@.len(),
                forall|k: int| 0 <= k < i ==> (#[trigger] self.collapsed_list()[k]).0 != pos@,
            decreases self.collapsed.len() - i,
        {
            if same_position(&self.collapsed[i].0, pos) {
                return Some(i);
            }
            i += 1;
        }
        None
    }

    /// Where `pos` stands in the wavefront.
    fn find_wavefront(&self, pos: &Position) -> (found: Option<usize>)
        ensures
            match found {
                Some(i) => i < self.wavefront_list().len() && self.wavefront_list()[i as int].0
                    == pos@,
                None => !has_key(self.wavefront_list(), pos@),
            },
    {
        let mut i: usize = 0;
        while i < self.wavefront.len()
            invariant
                i <= self.wavefront@.len(),
                forall|k: int| 0 <= k < i ==> (#[trigger] self.wavefront_list()[k]).0 != pos@,
            decreases self.wavefront.len() - i,
        {
            if same_position(&self.wavefront[i].0, pos) {
                return Some(i);
            }
            i += 1;
        }
        None
    }

    /// The tile of `pos`, if it is collapsed.
    pub fn collapsed_at(&self, pos: &Position) -> (tile: Option<usize>)
        requires
            self.wf(),
        ensures
            tile.is_some() == self@.collapsed.dom().contains(pos@),
            tile.is_some() ==> tile.unwrap() == self@.collapsed[pos@],
    {
        match self.find_collapsed(pos) {
            Some(i) => {
                proof {
                    lemma_map_of_entry(self.collapsed_list(), i as int);
                }
                Some(self.collapsed[i].1)
            },
            None => None,
        }
    }

    /// The domain of `pos`, if it is in the wavefront.
    pub fn wavefront_at(&self, pos: &Position) -> (mask: Option<&Vec<bool>>)
        requires
            self.wf(),
        ensures
            mask.is_some() == self@.wavefront.dom().contains(pos@),
            mask.is_some() ==> mask.unwrap()@ == self@.wavefront[pos@],
    {
        match self.find_wavefront(pos) {
            Some(i) => {
                proof {
                    lemma_map_of_entry(self.wavefront_list(), i as int);
                }
                Some(&self.wavefront[i].1)
            },
            None => None,
        }
    }

    /// The domain of `pos`.
    pub fn state_at(&self, pos: &Position) -> (mask: Vec<bool>)
        requires
            self.wf(),
        ensures
            mask@ == self@.domain_at(pos@),
    {
        match self.collapsed_at(pos) {
            Some(tile) => mask_from_idx(self.tiles, tile),
            None => match self.wavefront_at(pos) {
                Some(mask) => copy_mask(mask),
                None => init_mask(self.tiles),
            },
        }
    }

    /// Gives `pos` the domain `mask`. A domain that leaves one tile makes the
    /// point collapsed; any other makes it an entry of the wavefront. Nothing
    /// is stored, and `false` returned, where the point is collapsed already,
    /// where `mask` is not over the universe, or where it leaves no tile.
    pub fn set_state_at(&mut self, pos: Position, mask: Vec<bool>) -> (stored: bool)
        requires
            old(self).wf(),
        ensures
            final(self).wf(),
            stored == (!old(self)@.collapsed.dom().contains(pos@) && mask@.len() == old(self)@.tiles
                && count_allowed(mask@) >= 1),
            stored ==> final(self)@ == old(self)@.with_domain(pos@, mask@),
            stored ==> final(self).slack() + count_allowed(old(self)@.domain_at(pos@)) == old(
                self,
            ).slack() + count_allowed(mask@),
            !stored ==> *final(self) == *old(self),
    {
        if mask.len() != self.tiles {
            return false;
        }
        if self.find_collapsed(&pos).is_some() {
            return false;
        }
        let left: usize = allowed_count(&mask);
        if left == 0 {
            return false;
        }
        let ghost before = *self;
        let ghost n = self.tiles as nat;
        proof {
            lemma_domain_at(before@, pos@);
            lemma_with_domain(before@, pos@, mask@);
            lemma_lost_sum_bound(before.wavefront_list(), n);
            lemma_count_bounds(mask@);
            lemma_count_bounds(before@.domain_at(pos@));
            before.lemma_room();
        }
        let place = self.find_wavefront(&pos);
        if left == 1 {
            let tile: usize = match first_allowed(&mask) {
                Some(t) => t,
                None => 0,
            };
            match place {
                Some(i) => {
                    proof {
                        lemma_map_of_entry(before.wavefront_list(), i as int);
                        lemma_map_of_remove(before.wavefront_list(), i as int);
                        lemma_lost_sum_remove(before.wavefront_list(), n, i as int);
                    }
                    self.wavefront.remove(i);
                    assert(self.wavefront_list() =~= before.wavefront_list().remove(i as int));
                },
                None => {
                    assert(map_of(before.wavefront_list()).remove(pos@) =~= map_of(
                        before.wavefront_list(),
                    ));
                    proof {
                        lemma_count_open(n);
                    }
                },
            }
            proof {
                lemma_map_of_push(before.collapsed_list(), pos@, tile);
            }
            self.collapsed.push((pos, tile));
            assert(self.collapsed_list() =~= before.collapsed_list().push((pos@, tile)));
            proof {
                self.lemma_room();
                assert((before.collapsed@.len() + 1) * (n - 1) == before.collapsed@.len() * (n - 1)
                    + (n - 1)) by (nonlinear_arith);
            }
        } else {
            match place {
                Some(i) => {
                    proof {
                        lemma_map_of_entry(before.wavefront_list(), i as int);
                        lemma_map_of_update(before.wavefront_list(), i as int, mask@);
                        lemma_lost_sum_update(before.wavefront_list(), n, i as int, (pos@, mask@));
                    }
                    self.wavefront[i].1 = mask;
                    assert(self.wavefront_list() =~= before.wavefront_list().update(
                        i as int,
                        (pos@, mask@),
                    ));
                },
                None => {
                    proof {
                        lemma_map_of_push(before.wavefront_list(), pos@, mask@);
                        lemma_count_open(n);
                    }
                    self.wavefront.push((pos, mask));
                    assert(self.wavefront_list() =~= before.wavefront_list().push((pos@, mask@)));
                    assert(self.wavefront_list().drop_last() =~= before.wavefront_list());
                },
            }
            proof {
                self.lemma_room();
            }
        }
        true
    }

    /// Every stored point has one coordinate per axis.
    pub proof fn lemma_points(&self)
        ensures
            forall|i: int|
                0 <= i < self.collapsed_list().len() ==> (#[trigger] self.collapsed_list()[i]).0.len()
                    == NDIM,
            forall|i: int|
                0 <= i < self.wavefront_list().len() ==> (#[trigger] self.wavefront_list()[i]).0.len()
                    == NDIM,
    {
    }

    /// The store never runs out of the room that `slack` measures: the
    /// tiles that its domains have lost are fewer than its lists could hold.
    proof fn lemma_room(&self)
        ensures
            self.collapsed@.len() * (self.tiles - 1) + lost_sum(
                self.wavefront_list(),
                self.tiles as nat,
            ) <= self.tiles * (2 * usize::MAX),
    {
        let n = self.tiles as int;
        let c = self.collapsed.len() as int;
        let w = self.wavefront.len() as int;
        assert(c == self.collapsed@.len() && w == self.wavefront@.len());
        lemma_lost_sum_bound(self.wavefront_list(), self.tiles as nat);
        assert(c * (n - 1) + w * n <= n * (2 * usize::MAX)) by (nonlinear_arith)
            requires
                0 <= c <= usize::MAX,
                0 <= w <= usize::MAX,
                0 <= n,
        ;
    }
}

} // verus!
