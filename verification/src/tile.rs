//! Tile kinds, their layout into suits, and the two rule variants.
//!
//! Tiles are numbered 0 to 33: 0..=8 are the characters 1m to 9m, 9..=17 the
//! dots 1p to 9p, 18..=26 the bamboos 1s to 9s and 27..=33 the seven honors.

use vstd::prelude::*;

verus! {

/// The rule variant a hand is played under.
#[derive(Clone, Copy, Debug, PartialEq, Eq, Structural)]
pub enum Variant {
    /// Four players, all 34 tile kinds.
    Four,
    /// Three players: 2m to 8m are taken out and no sequence may be claimed.
    Three,
}

/// A run of three ascending tiles of one suit can begin at tile `i`.
pub open spec fn starts_sequence(i: int) -> bool {
    0 <= i < 27 && i % 9 <= 6
}

/// Tile `i` exists in the given variant.
pub open spec fn in_play(variant: Variant, i: int) -> bool {
    0 <= i < 34 && !(variant == Variant::Three && 1 <= i <= 7)
}

/// Tells whether a run of three ascending tiles can begin at tile `i`.
pub fn can_start_sequence(i: usize) -> (r: bool)
    ensures
        r == starts_sequence(i as int),
{
    i < 27 && i % 9 <= 6
}

/// Tells whether tile `i` exists in the given variant.
pub fn is_in_play(variant: Variant, i: usize) -> (r: bool)
    ensures
        r == in_play(variant, i as int),
{
    match variant {
        Variant::Four => i < 34,
        Variant::Three => i < 34 && !(1 <= i && i <= 7),
    }
}

/// The counts of an array of tiles as mathematical integers.
pub open spec fn counts_of(tiles: [u8; 34]) -> Seq<int> {
    Seq::new(34, |i: int| tiles[i] as int)
}

/// Sum of the entries `lo..hi` of `counts`.
pub open spec fn sum_in(counts: Seq<int>, lo: int, hi: int) -> int
    decreases hi - lo,
{
    if lo >= hi {
        0
    } else {
        counts[lo] + sum_in(counts, lo + 1, hi)
    }
}

/// Tile `i` is a terminal or an honor.
pub open spec fn is_orphan(i: int) -> bool {
    0 <= i < 34 && (i >= 27 || i % 9 == 0 || i % 9 == 8)
}

/// Tells whether tile `i` is a terminal or an honor.
pub fn is_terminal_or_honor(i: usize) -> (r: bool)
    ensures
        r == is_orphan(i as int),
{
    i < 34 && (i >= 27 || i % 9 == 0 || i % 9 == 8)
}

} // verus!
