//! Checking a hand and bringing it into the form that the search takes.

use vstd::prelude::*;
use crate::tile::{Variant, in_play, is_in_play, counts_of, sum_in};
use crate::error::HandError;
use crate::meld::{
    Meld, MeldSlots, melded, present, any_sequence, any_bad_base, any_forbidden_tile, on_the_board,
    has_sequence, has_bad_base, has_forbidden_tile, count_present, tiles_in_melds, limits_of,
};
use crate::shape::has_target;
use crate::room::lemma_target_exists;

verus! {

/// Some tile kind is in the hand more than four times.
pub open spec fn count_too_high(counts: [u8; 34]) -> bool {
    exists|i: int| 0 <= i < 34 && #[trigger] counts[i] > 4
}

/// The hand holds a tile that the variant lacks.
pub open spec fn holds_forbidden_tile(counts: [u8; 34], variant: Variant) -> bool {
    exists|i: int| 0 <= i < 34 && !in_play(variant, i) && #[trigger] counts[i] > 0
}

/// Hand and melds together hold some tile kind more than four times.
pub open spec fn copies_too_many(counts: [u8; 34], melds: MeldSlots) -> bool {
    exists|i: int| 0 <= i < 34 && #[trigger] counts[i] + melded(melds, i) > 4
}

/// Number of tiles in the hand.
pub open spec fn tiles_held(counts: [u8; 34]) -> int {
    sum_in(counts_of(counts), 0, 34)
}

/// The tiles cannot be part of four groups and a pair: with three tiles for
/// each meld they are more than fourteen, or the hand alone is a whole
/// number of groups with nothing towards the pair.
pub open spec fn tiles_do_not_add_up(counts: [u8; 34], melds: MeldSlots) -> bool {
    tiles_held(counts) % 3 == 0 || tiles_held(counts) + 3 * present(melds) > 14
}

/// The first thing wrong with the hand, in the order in which it is checked;
/// `None` for a valid hand.
pub open spec fn first_violation(
    counts: [u8; 34],
    melds: MeldSlots,
    variant: Variant,
) -> Option<HandError> {
    if count_too_high(counts) {
        Some(HandError::TileCountOutOfRange)
    } else if holds_forbidden_tile(counts, variant) {
        Some(HandError::ForbiddenTileForVariant)
    } else if variant == Variant::Three && any_sequence(melds) {
        Some(HandError::IllegalMeldForVariant)
    } else if any_bad_base(melds) {
        Some(HandError::IllegalSequenceBase)
    } else if any_forbidden_tile(melds, variant) {
        Some(HandError::ForbiddenTileForVariant)
    } else if copies_too_many(counts, melds) {
        Some(HandError::TileCountOutOfRange)
    } else if tiles_do_not_add_up(counts, melds) {
        Some(HandError::TooManyTiles)
    } else {
        None
    }
}

/// Number of groups that the hand itself must form: the others are melds,
/// declared or not.
pub open spec fn groups_demanded(counts: [u8; 34]) -> int {
    tiles_held(counts) / 3
}

/// A hand that has passed the checks.
#[derive(Clone, Copy, Debug)]
pub struct NormalizedHand {
    /// Copies of each tile kind in the hand, melds left out.
    pub counts: [u8; 34],
    /// For each tile kind the most copies that a winning hand may hold.
    pub limits: [u8; 34],
    /// Groups that the hand itself must form.
    pub groups: u8,
}

impl NormalizedHand {
    /// The hand can be searched: the limits are counts of copies, at most
    /// four groups are demanded, and some winning hand is possible.
    pub open spec fn wf(&self) -> bool {
        &&& self.groups <= 4
        &&& forall|i: int| 0 <= i < 34 ==> #[trigger] self.limits[i] <= 4
        &&& has_target(counts_of(self.limits), self.groups as int)
    }

    /// The hand is what the checks make of the given tiles and melds.
    pub open spec fn comes_from(
        &self,
        counts: [u8; 34],
        melds: MeldSlots,
        variant: Variant,
    ) -> bool {
        &&& self.counts == counts
        &&& counts_of(self.limits) == limits_of(melds, variant)
        &&& self.groups as int == groups_demanded(counts)
    }
}

/// Tells whether some tile kind is in the hand more than four times.
pub fn exceeds_copies(counts: &[u8; 34]) -> (r: bool)
    ensures
        r == count_too_high(*counts),
{
    let mut i: usize = 0;
    while i < 34
        invariant
            i <= 34,
            forall|k: int| 0 <= k < i ==> #[trigger] counts[k] <= 4,
        decreases 34 - i,
    {
        if counts[i] > 4 {
            return true;
        }
        i = i + 1;
    }
    false
}

/// Tells whether the hand holds a tile that the variant lacks.
pub fn uses_forbidden_tile(counts: &[u8; 34], variant: Variant) -> (r: bool)
    ensures
        r == holds_forbidden_tile(*counts, variant),
{
    let mut i: usize = 0;
    while i < 34
        invariant
            i <= 34,
            forall|k: int| 0 <= k < i ==> in_play(variant, k) || #[trigger] counts[k] == 0,
        decreases 34 - i,
    {
        if !is_in_play(variant, i) && counts[i] > 0 {
            return true;
        }
        i = i + 1;
    }
    false
}

/// Counts the tiles in the hand.
pub fn count_tiles(counts: &[u8; 34]) -> (n: u8)
    requires
        !count_too_high(*counts),
    ensures
        n as int == tiles_held(*counts),
        n <= 136,
{
    let mut n: u8 = 0;
    let mut i: usize = 34;
    while i > 0
        invariant
            i <= 34,
            !count_too_high(*counts),
            n as int == sum_in(counts_of(*counts), i as int, 34),
            n <= 4 * (34 - i),
        decreases i,
    {
        i = i - 1;
        assert(counts[i as int] <= 4);
        n = n + counts[i];
    }
    n
}

/// Checks a hand with its melds and brings it into the form that the search
/// takes. The checks run in a fixed order and the first that fails names
/// the error.
pub fn validate(
    counts: &[u8; 34],
    melds: &MeldSlots,
    variant: Variant,
) -> (r: Result<NormalizedHand, HandError>)
    ensures
        (match r {
            Ok(hand) => first_violation(*counts, *melds, variant) is None && hand.wf()
                && hand.comes_from(*counts, *melds, variant),
            Err(e) => first_violation(*counts, *melds, variant) == Some(e),
        }),
{
    if exceeds_copies(counts) {
        return Err(HandError::TileCountOutOfRange);
    }
    if uses_forbidden_tile(counts, variant) {
        return Err(HandError::ForbiddenTileForVariant);
    }
    match variant {
        Variant::Three => {
            if has_sequence(melds) {
                return Err(HandError::IllegalMeldForVariant);
            }
        },
        Variant::Four => {},
    }
    if has_bad_base(melds) {
        return Err(HandError::IllegalSequenceBase);
    }
    if has_forbidden_tile(melds, variant) {
        return Err(HandError::ForbiddenTileForVariant);
    }
    assert(on_the_board(*melds)) by {
        assert forall|s: int| 0 <= s < 4 implies match #[trigger] melds[s] {
            Some(Meld::Sequence(base, _)) => crate::tile::starts_sequence(base as int),
            Some(Meld::Triplet(tile)) => tile < 34,
            Some(Meld::Quad(tile)) => tile < 34,
            None => true,
        } by {
            assert(!crate::meld::slot_has_bad_base(melds[s]));
            assert(!crate::meld::slot_has_forbidden_tile(melds[s], variant));
        }
    }
    let used: [u8; 34] = tiles_in_melds(melds);
    let mut limits: [u8; 34] = [0; 34];
    let mut i: usize = 0;
    while i < 34
        invariant
            i <= 34,
            !count_too_high(*counts),
            !holds_forbidden_tile(*counts, variant),
            !(variant == Variant::Three && any_sequence(*melds)),
            !any_bad_base(*melds),
            !any_forbidden_tile(*melds, variant),
            forall|k: int| 0 <= k < 34 ==> #[trigger] used[k] as int == melded(*melds, k),
            forall|k: int| 0 <= k < i ==> counts[k] + melded(*melds, k) <= 4,
            forall|k: int|
                0 <= k < i ==> #[trigger] limits[k] as int == limits_of(*melds, variant)[k],
            forall|k: int| 0 <= k < i ==> #[trigger] limits[k] <= 4,
        decreases 34 - i,
    {
        assert(counts[i as int] <= 4);
        assert(used[i as int] as int == melded(*melds, i as int));
        if used[i] > 4 - counts[i] {
            assert(counts[i as int] + melded(*melds, i as int) > 4);
            return Err(HandError::TileCountOutOfRange);
        }
        if is_in_play(variant, i) {
            limits[i] = 4 - used[i];
        } else {
            limits[i] = 0;
        }
        i = i + 1;
    }
    let held: u8 = count_tiles(counts);
    let known: u8 = count_present(melds);
    if held % 3 == 0 || held + 3 * known > 14 {
        return Err(HandError::TooManyTiles);
    }
    let groups: u8 = held / 3;
    proof {
        assert(counts_of(limits) =~= limits_of(*melds, variant));
        lemma_target_exists(*melds, variant, groups as int);
    }
    Ok(NormalizedHand { counts: *counts, limits, groups })
}

} // verus!
