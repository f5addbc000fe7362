//! Declared melds and the tiles they take out of the set.

use vstd::prelude::*;
use crate::tile::{Variant, starts_sequence, in_play, can_start_sequence, is_in_play};

verus! {

/// Which tile of a claimed sequence was the one taken from another player.
#[derive(Clone, Copy, Debug, PartialEq, Eq, Structural)]
pub enum ClaimedPosition {
    /// The lowest of the three.
    Low,
    /// The middle one.
    Middle,
    /// The highest of the three.
    High,
}

/// A declared group.
#[derive(Clone, Copy, Debug, PartialEq, Eq, Structural)]
pub enum Meld {
    /// Three ascending tiles of one suit, named by the lowest, with the
    /// position of the claimed tile.
    Sequence(u8, ClaimedPosition),
    /// Three tiles of one kind.
    Triplet(u8),
    /// Four tiles of one kind.
    Quad(u8),
}

/// Up to four declared melds. An empty slot stands for a group that is not
/// told: it takes no tile away from what the hand may still draw.
pub type MeldSlots = [Option<Meld>; 4];

/// Copies of tile `i` that the meld holds.
pub open spec fn meld_tiles(meld: Meld, i: int) -> int {
    match meld {
        Meld::Sequence(base, _) => if base <= i <= base + 2 {
            1
        } else {
            0
        },
        Meld::Triplet(tile) => if i == tile {
            3
        } else {
            0
        },
        Meld::Quad(tile) => if i == tile {
            4
        } else {
            0
        },
    }
}

/// Copies of tile `i` that the slot holds.
pub open spec fn slot_tiles(slot: Option<Meld>, i: int) -> int {
    match slot {
        Some(meld) => meld_tiles(meld, i),
        None => 0,
    }
}

/// Copies of tile `i` that the melds hold together.
pub open spec fn melded(melds: MeldSlots, i: int) -> int {
    slot_tiles(melds[0], i) + slot_tiles(melds[1], i) + slot_tiles(melds[2], i) + slot_tiles(
        melds[3],
        i,
    )
}

/// One where the slot holds a meld.
pub open spec fn slot_count(slot: Option<Meld>) -> int {
    if slot is Some {
        1
    } else {
        0
    }
}

/// Number of melds that the slots hold.
pub open spec fn present(melds: MeldSlots) -> int {
    slot_count(melds[0]) + slot_count(melds[1]) + slot_count(melds[2]) + slot_count(melds[3])
}

/// The slot holds a sequence.
pub open spec fn slot_is_sequence(slot: Option<Meld>) -> bool {
    slot matches Some(Meld::Sequence(_, _))
}

/// The slot holds a sequence that runs out of its suit.
pub open spec fn slot_has_bad_base(slot: Option<Meld>) -> bool {
    slot matches Some(Meld::Sequence(base, _)) && !starts_sequence(base as int)
}

/// The slot holds a triplet or a quad of a tile that the variant lacks.
pub open spec fn slot_has_forbidden_tile(slot: Option<Meld>, variant: Variant) -> bool {
    match slot {
        Some(Meld::Triplet(tile)) => !in_play(variant, tile as int),
        Some(Meld::Quad(tile)) => !in_play(variant, tile as int),
        _ => false,
    }
}

/// Some slot holds a sequence.
pub open spec fn any_sequence(melds: MeldSlots) -> bool {
    exists|s: int| 0 <= s < 4 && slot_is_sequence(#[trigger] melds[s])
}

/// Some slot holds a sequence that runs out of its suit.
pub open spec fn any_bad_base(melds: MeldSlots) -> bool {
    exists|s: int| 0 <= s < 4 && slot_has_bad_base(#[trigger] melds[s])
}

/// Some slot holds a triplet or a quad of a tile that the variant lacks.
pub open spec fn any_forbidden_tile(melds: MeldSlots, variant: Variant) -> bool {
    exists|s: int| 0 <= s < 4 && slot_has_forbidden_tile(#[trigger] melds[s], variant)
}

/// Tells whether some slot holds a sequence.
pub fn has_sequence(melds: &MeldSlots) -> (r: bool)
    ensures
        r == any_sequence(*melds),
{
    let mut s: usize = 0;
    while s < 4
        invariant
            s <= 4,
            forall|k: int| 0 <= k < s ==> !slot_is_sequence(#[trigger] melds[k]),
        decreases 4 - s,
    {
        match melds[s] {
            Some(Meld::Sequence(_, _)) => {
                return true;
            },
            _ => {},
        }
        s = s + 1;
    }
    false
}

/// Tells whether some slot holds a sequence that runs out of its suit.
pub fn has_bad_base(melds: &MeldSlots) -> (r: bool)
    ensures
        r == any_bad_base(*melds),
{
    let mut s: usize = 0;
    while s < 4
        invariant
            s <= 4,
            forall|k: int| 0 <= k < s ==> !slot_has_bad_base(#[trigger] melds[k]),
        decreases 4 - s,
    {
        match melds[s] {
            Some(Meld::Sequence(base, _)) => {
                if !can_start_sequence(base as usize) {
                    return true;
                }
            },
            _ => {},
        }
        s = s + 1;
    }
    false
}

/// Tells whether some slot holds a triplet or a quad of a tile that the
/// variant lacks.
pub fn has_forbidden_tile(melds: &MeldSlots, variant: Variant) -> (r: bool)
    ensures
        r == any_forbidden_tile(*melds, variant),
{
    let mut s: usize = 0;
    while s < 4
        invariant
            s <= 4,
            forall|k: int| 0 <= k < s ==> !slot_has_forbidden_tile(#[trigger] melds[k], variant),
        decreases 4 - s,
    {
        match melds[s] {
            Some(Meld::Triplet(tile)) => {
                if !is_in_play(variant, tile as usize) {
                    return true;
                }
            },
            Some(Meld::Quad(tile)) => {
                if !is_in_play(variant, tile as usize) {
                    return true;
                }
            },
            _ => {},
        }
        s = s + 1;
    }
    false
}

/// The melds name tiles of the set only.
pub open spec fn on_the_board(melds: MeldSlots) -> bool {
    forall|s: int|
        0 <= s < 4 ==> match #[trigger] melds[s] {
            Some(Meld::Sequence(base, _)) => starts_sequence(base as int),
            Some(Meld::Triplet(tile)) => tile < 34,
            Some(Meld::Quad(tile)) => tile < 34,
            None => true,
        }
}

/// Copies of tile `i` that the first `s` slots hold together.
pub open spec fn melded_upto(melds: MeldSlots, s: int, i: int) -> int
    decreases s,
{
    if s <= 0 {
        0
    } else {
        melded_upto(melds, s - 1, i) + slot_tiles(melds[s - 1], i)
    }
}

/// Number of melds in the first `s` slots.
pub open spec fn present_upto(melds: MeldSlots, s: int) -> int
    decreases s,
{
    if s <= 0 {
        0
    } else {
        present_upto(melds, s - 1) + slot_count(melds[s - 1])
    }
}

/// The sums over the first four slots are the sums over all.
pub proof fn lemma_upto_all(melds: MeldSlots, i: int)
    ensures
        melded_upto(melds, 4, i) == melded(melds, i),
        present_upto(melds, 4) == present(melds),
{
    reveal_with_fuel(melded_upto, 5);
    reveal_with_fuel(present_upto, 5);
}

/// Counts the melds that the slots hold.
pub fn count_present(melds: &MeldSlots) -> (n: u8)
    ensures
        n == present(*melds),
        n <= 4,
{
    let mut n: u8 = 0;
    let mut s: usize = 0;
    while s < 4
        invariant
            s <= 4,
            n == present_upto(*melds, s as int),
            n <= s,
        decreases 4 - s,
    {
        if melds[s].is_some() {
            n = n + 1;
        }
        s = s + 1;
    }
    proof {
        lemma_upto_all(*melds, 0);
    }
    n
}

/// Counts, for every tile kind, the copies that the melds hold.
pub fn tiles_in_melds(melds: &MeldSlots) -> (used: [u8; 34])
    requires
        on_the_board(*melds),
    ensures
        forall|i: int| 0 <= i < 34 ==> #[trigger] used[i] as int == melded(*melds, i),
{
    let mut used: [u8; 34] = [0; 34];
    let mut s: usize = 0;
    while s < 4
        invariant
            s <= 4,
            on_the_board(*melds),
            forall|i: int|
                0 <= i < 34 ==> #[trigger] used[i] as int == melded_upto(*melds, s as int, i),
            forall|i: int| 0 <= i < 34 ==> #[trigger] used[i] <= 4 * s,
        decreases 4 - s,
    {
        match melds[s] {
            Some(Meld::Sequence(base, _)) => {
                let b: usize = base as usize;
                used[b] = used[b] + 1;
                used[b + 1] = used[b + 1] + 1;
                used[b + 2] = used[b + 2] + 1;
            },
            Some(Meld::Triplet(tile)) => {
                let t: usize = tile as usize;
                used[t] = used[t] + 3;
            },
            Some(Meld::Quad(tile)) => {
                let t: usize = tile as usize;
                used[t] = used[t] + 4;
            },
            None => {},
        }
        s = s + 1;
    }
    proof {
        assert forall|i: int|
            0 <= i < 34 implies #[trigger] used[i] as int == melded(*melds, i) by {
            lemma_upto_all(*melds, i);
        }
    }
    used
}

/// For every tile kind the most copies that a winning hand may hold: none of
/// a tile that the variant lacks, else what the melds leave of the four.
pub open spec fn limits_of(melds: MeldSlots, variant: Variant) -> Seq<int> {
    Seq::new(
        34,
        |i: int|
            if in_play(variant, i) {
                4 - melded(melds, i)
            } else {
                0
            },
    )
}

/// No slot is filled.
pub open spec fn no_melds() -> MeldSlots {
    [None, None, None, None]
}

} // verus!
