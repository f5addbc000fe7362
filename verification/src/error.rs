//! Why a hand is turned away.

use vstd::prelude::*;

verus! {

/// The ways in which a hand with its melds can be invalid.
#[derive(Clone, Copy, Debug, PartialEq, Eq, Structural)]
pub enum HandError {
    /// More than four copies of some tile kind, in the hand alone or in the
    /// hand and the melds together.
    TileCountOutOfRange,
    /// A tile that the variant does not have: 2m to 8m with three players,
    /// or a triplet or quad of a tile past the last kind.
    ForbiddenTileForVariant,
    /// A claimed sequence with three players.
    IllegalMeldForVariant,
    /// A claimed sequence whose lowest tile is not followed by two more of
    /// its suit.
    IllegalSequenceBase,
    /// More than fourteen tiles with the melds counted in, or a number of
    /// tiles in the hand that is a multiple of three.
    TooManyTiles,
}

} // verus!
