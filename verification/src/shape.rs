//! Hands written as groups and a pair.
//!
//! A shape writes a hand as blocks: for every tile kind the triplets of it,
//! the runs that begin at it and the pairs of it.

use vstd::prelude::*;
use crate::tile::starts_sequence;

verus! {

/// The blocks of a shape that sit at one tile kind.
pub struct Block {
    /// Triplets of this tile.
    pub triplets: nat,
    /// Runs of three whose lowest tile is this one.
    pub sequences: nat,
    /// Pairs of this tile.
    pub pairs: nat,
}

/// One block per tile kind.
pub type Shape = Seq<Block>;

/// Runs that begin at tile `i`; none outside the shape.
pub open spec fn sequences_at(shape: Shape, i: int) -> int {
    if 0 <= i < shape.len() {
        shape[i].sequences as int
    } else {
        0
    }
}

/// Number of tiles of kind `i` that the shape holds.
pub open spec fn tiles_at(shape: Shape, i: int) -> int {
    3 * shape[i].triplets + 2 * shape[i].pairs + shape[i].sequences + sequences_at(shape, i - 1)
        + sequences_at(shape, i - 2)
}

/// Number of groups that sit at the tiles `lo..hi`.
pub open spec fn groups_in(shape: Shape, lo: int, hi: int) -> int
    decreases hi - lo,
{
    if lo >= hi {
        0
    } else {
        shape[lo].triplets + shape[lo].sequences + groups_in(shape, lo + 1, hi)
    }
}

/// Number of pairs that sit at the tiles `lo..hi`.
pub open spec fn pairs_in(shape: Shape, lo: int, hi: int) -> int
    decreases hi - lo,
{
    if lo >= hi {
        0
    } else {
        shape[lo].pairs + pairs_in(shape, lo + 1, hi)
    }
}

/// How many more tiles are wanted than are there.
pub open spec fn excess(wanted: int, have: int) -> int {
    if wanted > have {
        wanted - have
    } else {
        0
    }
}

/// Number of tiles of the kinds `lo..hi` that the shape holds and the hand lacks.
pub open spec fn missing_in(hand: Seq<int>, shape: Shape, lo: int, hi: int) -> int
    decreases hi - lo,
{
    if lo >= hi {
        0
    } else {
        excess(tiles_at(shape, lo), hand[lo]) + missing_in(hand, shape, lo + 1, hi)
    }
}

/// The blocks at tile `i` are possible: runs begin only where three
/// ascending tiles of one suit follow, and the shape holds no more tiles of
/// this kind than `limit` leaves.
pub open spec fn block_fits(shape: Shape, limit: Seq<int>, i: int) -> bool {
    &&& shape[i].sequences > 0 ==> starts_sequence(i)
    &&& tiles_at(shape, i) <= limit[i]
}

/// The shape is possible at the tile kinds `lo..hi`.
pub open spec fn fits_in(shape: Shape, limit: Seq<int>, lo: int, hi: int) -> bool {
    &&& shape.len() == 34
    &&& forall|i: int| lo <= i < hi ==> #[trigger] block_fits(shape, limit, i)
}

/// The shape is possible at every tile kind.
pub open spec fn fits(shape: Shape, limit: Seq<int>) -> bool {
    fits_in(shape, limit, 0, 34)
}

/// The shape is a possible winning hand with `groups` groups and one pair.
pub open spec fn is_target(shape: Shape, limit: Seq<int>, groups: int) -> bool {
    &&& fits(shape, limit)
    &&& groups_in(shape, 0, 34) == groups
    &&& pairs_in(shape, 0, 34) == 1
}

/// The tiles of the shape, counted by kind.
pub open spec fn tiles_of_shape(shape: Shape) -> Seq<int> {
    Seq::new(34, |i: int| tiles_at(shape, i))
}

/// Some shape with `groups` groups and one pair is possible.
pub open spec fn has_target(limit: Seq<int>, groups: int) -> bool {
    exists|shape: Shape| #[trigger] is_target(shape, limit, groups)
}

} // verus!
