//! The replacement number of a hand.

use vstd::prelude::*;
use crate::tile::{Variant, counts_of};
use crate::error::HandError;
use crate::meld::{MeldSlots, limits_of};
use crate::shape::{Shape, has_target, is_target, tiles_of_shape};
use crate::win::{
    is_least_missing, least_missing, lemma_least_missing_unique, is_winning, standard_goal,
    pairs_goal, orphans_goal, lacking,
};
use crate::search::UNREACHABLE;
use crate::suit::SuitTable;
use crate::combine::{all_bounded, combine, suit_tables, lemma_suits_make_the_hand};
use crate::pairs::nearest_seven_pairs;
use crate::orphans::nearest_thirteen_orphans;
use crate::hand::{NormalizedHand, validate, first_violation, groups_demanded};
use crate::laws::law_valid_hand_has_number;

verus! {

/// `n` is the replacement number of the hand: some winning hand is `n`
/// tiles away from it and none is nearer.
pub open spec fn is_replacement_number(
    counts: [u8; 34],
    melds: MeldSlots,
    variant: Variant,
    n: int,
) -> bool {
    is_least_missing(
        counts_of(counts),
        limits_of(melds, variant),
        groups_demanded(counts),
        n,
    )
}

/// The replacement number of a valid hand.
pub open spec fn replacement_number_of(
    counts: [u8; 34],
    melds: MeldSlots,
    variant: Variant,
) -> int {
    least_missing(counts_of(counts), limits_of(melds, variant), groups_demanded(counts))
}

/// The tables are those of the four suits of the hand.
pub open spec fn tables_describe(tables: [SuitTable; 4], hand: Seq<int>, limit: Seq<int>) -> bool {
    &&& all_bounded(tables)
    &&& forall|s: int| 0 <= s < 4 ==> (#[trigger] tables[s]).describes(hand, limit, s)
}

/// The least number of tiles that the hand lacks to be a winning hand, out
/// of the tables of its suits. The nearest of the winning hands decides:
/// groups and a pair, or, for a hand that forms all four groups itself,
/// seven pairs or thirteen orphans. `UNREACHABLE` where no winning hand
/// exists.
pub fn least_missing_from_tables(
    counts: &[u8; 34],
    limits: &[u8; 34],
    groups: u8,
    tables: &[SuitTable; 4],
) -> (n: u8)
    requires
        forall|i: int| 0 <= i < 34 ==> limits[i] <= 4,
        groups <= 4,
        tables_describe(*tables, counts_of(*counts), counts_of(*limits)),
    ensures
        n < UNREACHABLE ==> is_least_missing(
            counts_of(*counts),
            counts_of(*limits),
            groups as int,
            n as int,
        ),
        n == UNREACHABLE ==> forall|want: Seq<int>|
            !#[trigger] is_winning(want, counts_of(*limits), groups as int),
        has_target(counts_of(*limits), groups as int) ==> n < UNREACHABLE,
{
    let ghost hand = counts_of(*counts);
    let ghost limit = counts_of(*limits);
    let by_groups: u8 = combine(tables, groups);
    proof {
        lemma_suits_make_the_hand(hand, limit, *tables, groups as int, by_groups as int);
    }
    let by_pairs: u8 = if groups == 4 {
        nearest_seven_pairs(counts, limits)
    } else {
        UNREACHABLE
    };
    let by_orphans: u8 = if groups == 4 {
        nearest_thirteen_orphans(counts, limits)
    } else {
        UNREACHABLE
    };
    let mut n: u8 = by_groups;
    if by_pairs < n {
        n = by_pairs;
    }
    if by_orphans < n {
        n = by_orphans;
    }
    proof {
        if has_target(limit, groups as int) {
            let shape = choose|shape: Shape| #[trigger] is_target(shape, limit, groups as int);
            assert(standard_goal(tiles_of_shape(shape), limit, groups as int));
        }
        if n < UNREACHABLE {
            if n == by_groups {
                let want = choose|want: Seq<int>| #[trigger]
                    standard_goal(want, limit, groups as int) && lacking(hand, want) == n;
                assert(is_winning(want, limit, groups as int));
            } else if n == by_pairs {
                let want = choose|want: Seq<int>| #[trigger]
                    pairs_goal(want, limit) && lacking(hand, want) == n;
                assert(is_winning(want, limit, groups as int));
            } else {
                let want = choose|want: Seq<int>| #[trigger]
                    orphans_goal(want, limit) && lacking(hand, want) == n;
                assert(is_winning(want, limit, groups as int));
            }
        }
    }
    n
}

/// The least number of tiles that the hand lacks to be a winning hand,
/// where the hand must form `groups` groups itself and no winning hand may
/// hold more than `limits` of each tile kind. `UNREACHABLE` where no
/// winning hand exists.
pub fn least_missing_tiles(counts: &[u8; 34], limits: &[u8; 34], groups: u8) -> (n: u8)
    requires
        forall|i: int| 0 <= i < 34 ==> limits[i] <= 4,
        groups <= 4,
    ensures
        n < UNREACHABLE ==> is_least_missing(
            counts_of(*counts),
            counts_of(*limits),
            groups as int,
            n as int,
        ),
        n == UNREACHABLE ==> forall|want: Seq<int>|
            !#[trigger] is_winning(want, counts_of(*limits), groups as int),
        has_target(counts_of(*limits), groups as int) ==> n < UNREACHABLE,
{
    let tables: [SuitTable; 4] = suit_tables(counts, limits);
    least_missing_from_tables(counts, limits, groups, &tables)
}

impl NormalizedHand {
    /// The replacement number: the least number of tiles that the hand
    /// lacks to be a possible winning hand.
    pub fn replacement_number(&self) -> (n: u8)
        requires
            self.wf(),
        ensures
            is_least_missing(
                counts_of(self.counts),
                counts_of(self.limits),
                self.groups as int,
                n as int,
            ),
            n as int == least_missing(
                counts_of(self.counts),
                counts_of(self.limits),
                self.groups as int,
            ),
    {
        let n: u8 = least_missing_tiles(&self.counts, &self.limits, self.groups);
        proof {
            lemma_least_missing_unique(
                counts_of(self.counts),
                counts_of(self.limits),
                self.groups as int,
                n as int,
            );
        }
        n
    }
}

/// The replacement number of a hand with its declared melds: the least
/// number of tiles that must still come in before the hand has won. An
/// invalid hand is turned away with the first thing wrong with it.
pub fn replacement_number(
    counts: &[u8; 34],
    melds: &MeldSlots,
    variant: Variant,
) -> (r: Result<u8, HandError>)
    ensures
        (match r {
            Ok(n) => first_violation(*counts, *melds, variant) is None && is_replacement_number(
                *counts,
                *melds,
                variant,
                n as int,
            ) && n as int == replacement_number_of(*counts, *melds, variant) && n <= 14,
            Err(e) => first_violation(*counts, *melds, variant) == Some(e),
        }),
{
    match validate(counts, melds, variant) {
        Ok(hand) => {
            let n: u8 = hand.replacement_number();
            proof {
                law_valid_hand_has_number(*counts, *melds, variant);
            }
            Ok(n)
        },
        Err(e) => Err(e),
    }
}

} // verus!
