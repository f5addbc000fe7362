//! Sets of tile kinds as bits, and the two sets that are read off the
//! replacement number: the tiles that bring a hand nearer to winning and
//! those that it can let go.

use vstd::prelude::*;
use crate::tile::{Variant, in_play, is_in_play, counts_of};
use crate::error::HandError;
use crate::meld::{MeldSlots, limits_of, no_melds};
use crate::win::{least_missing, lemma_least_missing_unique};
use crate::hand::{validate, first_violation, groups_demanded};
use crate::engine::{
    is_replacement_number, replacement_number_of, least_missing_from_tables, tables_describe,
};
use crate::shape::has_target;
use crate::laws::law_valid_hand_has_number;
use crate::win::is_least_missing;
use crate::search::UNREACHABLE;
use crate::suit::{SuitTable, suit_table, suit_of_tile, lemma_table_holds_for};
use crate::combine::suit_tables;

verus! {

/// Bit `t` of the set is on.
pub open spec fn flag_set(flags: u64, t: int) -> bool {
    (flags >> (t as u64)) & 1 == 1
}

/// The hand with one more copy of tile `t`.
pub open spec fn with_one_more(hand: Seq<int>, t: int) -> Seq<int> {
    hand.update(t, hand[t] + 1)
}

/// The hand with one copy less of tile `t`.
pub open spec fn with_one_less(hand: Seq<int>, t: int) -> Seq<int> {
    hand.update(t, hand[t] - 1)
}

/// Tile `t` can still be drawn, and with one more copy of it the hand is
/// nearer to winning.
pub open spec fn is_necessary(counts: [u8; 34], variant: Variant, t: int) -> bool {
    &&& counts[t] < 4
    &&& in_play(variant, t)
    &&& least_missing(
        with_one_more(counts_of(counts), t),
        limits_of(no_melds(), variant),
        groups_demanded(counts),
    ) < replacement_number_of(counts, no_melds(), variant)
}

/// The hand holds tile `t`, and with one copy less of it the hand is no
/// further from winning.
pub open spec fn is_unnecessary(counts: [u8; 34], variant: Variant, t: int) -> bool {
    &&& counts[t] > 0
    &&& least_missing(
        with_one_less(counts_of(counts), t),
        limits_of(no_melds(), variant),
        groups_demanded(counts),
    ) <= replacement_number_of(counts, no_melds(), variant)
}

/// Turning on bit `t` changes that bit alone and keeps the set within the
/// first `t + 1` tiles.
proof fn lemma_turn_on(flags: u64, t: u64, j: u64)
    by (bit_vector)
    requires
        t < 34,
        j < 64,
        flags >> t == 0,
    ensures
        ((flags | (1u64 << t)) >> j) & 1 == 1 <==> ((flags >> j) & 1 == 1 || j == t),
        (flags | (1u64 << t)) >> ((t + 1) as u64) == 0,
        flags >> ((t + 1) as u64) == 0,
        (flags >> t) & 1 == 0,
{
}

/// A set without bits past the last tile is below two to the 34th.
proof fn lemma_within_tiles(flags: u64)
    by (bit_vector)
    requires
        flags >> 34u64 == 0,
    ensures
        flags < 0x4_0000_0000,
{
}

/// The least number of tiles that a hand lacks to be a winning hand, where
/// the tables are those of a hand that differs from it in tile `t` alone:
/// the one suit is searched again and the others are kept.
fn least_missing_after_change(
    changed: &[u8; 34],
    limits: &[u8; 34],
    groups: u8,
    tables: &[SuitTable; 4],
    t: usize,
    Ghost(before): Ghost<Seq<int>>,
) -> (n: u8)
    requires
        forall|i: int| 0 <= i < 34 ==> limits[i] <= 4,
        groups <= 4,
        t < 34,
        before.len() == 34,
        forall|i: int| 0 <= i < 34 && i != t ==> before[i] == changed[i] as int,
        tables_describe(*tables, before, counts_of(*limits)),
    ensures
        n < UNREACHABLE ==> is_least_missing(
            counts_of(*changed),
            counts_of(*limits),
            groups as int,
            n as int,
        ),
        has_target(counts_of(*limits), groups as int) ==> n < UNREACHABLE,
{
    let suit: usize = suit_of_tile(t);
    let mut fresh: [SuitTable; 4] = *tables;
    let again: SuitTable = suit_table(changed, limits, suit);
    fresh[suit] = again;
    proof {
        let hand = counts_of(*changed);
        let limit = counts_of(*limits);
        assert forall|s: int|
            0 <= s < 4 implies (#[trigger] fresh[s]).describes(hand, limit, s) by {
            if s != suit {
                assert(fresh[s] == tables[s]);
                lemma_table_holds_for(before, hand, limit, tables[s], s);
            }
        }
        assert forall|s: int| 0 <= s < 4 implies (#[trigger] fresh[s]).bounded() by {
            if s != suit {
                assert(fresh[s] == tables[s]);
            }
        }
    }
    least_missing_from_tables(changed, limits, groups, &fresh)
}

/// The slots with no meld declared.
pub fn empty_slots() -> (melds: MeldSlots)
    ensures
        melds == no_melds(),
{
    let melds: MeldSlots = [None, None, None, None];
    assert(melds =~= no_melds());
    melds
}

/// The replacement number of a hand without melds, and the set of tiles of
/// which one more copy would lower it. A tile held four times cannot be
/// drawn again and is never in the set.
pub fn necessary_tiles(counts: &[u8; 34], variant: Variant) -> (r: Result<(u8, u64), HandError>)
    ensures
        (match r {
            Ok((n, flags)) => {
                &&& first_violation(*counts, no_melds(), variant) is None
                &&& is_replacement_number(*counts, no_melds(), variant, n as int)
                &&& n as int == replacement_number_of(*counts, no_melds(), variant)
                &&& n <= 14
                &&& flags < 0x4_0000_0000
                &&& forall|t: int|
                    0 <= t < 34 ==> (#[trigger] flag_set(flags, t) <==> is_necessary(
                        *counts,
                        variant,
                        t,
                    ))
            },
            Err(e) => first_violation(*counts, no_melds(), variant) == Some(e),
        }),
{
    let melds: MeldSlots = empty_slots();
    let hand = match validate(counts, &melds, variant) {
        Ok(hand) => hand,
        Err(e) => {
            return Err(e);
        },
    };
    let tables: [SuitTable; 4] = suit_tables(&hand.counts, &hand.limits);
    let base: u8 = least_missing_from_tables(&hand.counts, &hand.limits, hand.groups, &tables);
    proof {
        lemma_least_missing_unique(
            counts_of(*counts),
            limits_of(no_melds(), variant),
            groups_demanded(*counts),
            base as int,
        );
        law_valid_hand_has_number(*counts, no_melds(), variant);
    }
    let ghost limit = limits_of(no_melds(), variant);
    let ghost groups = groups_demanded(*counts);
    let mut flags: u64 = 0;
    let mut t: usize = 0;
    assert(0u64 >> 0u64 == 0) by (bit_vector);
    while t < 34
        invariant
            t <= 34,
            hand.wf(),
            hand.comes_from(*counts, no_melds(), variant),
            limit == limits_of(no_melds(), variant),
            groups == groups_demanded(*counts),
            base as int == replacement_number_of(*counts, no_melds(), variant),
            base <= 14,
            tables_describe(tables, counts_of(*counts), limit),
            flags >> (t as u64) == 0,
            forall|j: int|
                0 <= j < t ==> (#[trigger] flag_set(flags, j) <==> is_necessary(*counts, variant, j)),
        decreases 34 - t,
    {
        let ghost before = flags;
        let mut turn_on: bool = false;
        if counts[t] < 4 && is_in_play(variant, t) {
            let mut probe: [u8; 34] = hand.counts;
            probe[t] = probe[t] + 1;
            let n: u8 = least_missing_after_change(
                &probe,
                &hand.limits,
                hand.groups,
                &tables,
                t,
                Ghost(counts_of(*counts)),
            );
            proof {
                assert(counts_of(probe) =~= with_one_more(counts_of(*counts), t as int));
                lemma_least_missing_unique(counts_of(probe), limit, groups, n as int);
            }
            turn_on = n < base;
        }
        if turn_on {
            flags = flags | (1u64 << (t as u64));
        }
        proof {
            assert forall|j: int| 0 <= j < t + 1 implies (#[trigger] flag_set(flags, j)
                <==> is_necessary(*counts, variant, j)) by {
                lemma_turn_on(before, t as u64, j as u64);
                if j < t {
                    assert(flag_set(before, j) <==> is_necessary(*counts, variant, j));
                }
            }
            lemma_turn_on(before, t as u64, 0);
        }
        t = t + 1;
    }
    proof {
        lemma_within_tiles(flags);
    }
    Ok((base, flags))
}

/// The replacement number of a hand without melds, and the set of tiles of
/// which one copy can go without raising it. A tile that the hand does not
/// hold is never in the set.
pub fn unnecessary_tiles(counts: &[u8; 34], variant: Variant) -> (r: Result<(u8, u64), HandError>)
    ensures
        (match r {
            Ok((n, flags)) => {
                &&& first_violation(*counts, no_melds(), variant) is None
                &&& is_replacement_number(*counts, no_melds(), variant, n as int)
                &&& n as int == replacement_number_of(*counts, no_melds(), variant)
                &&& n <= 14
                &&& flags < 0x4_0000_0000
                &&& forall|t: int|
                    0 <= t < 34 ==> (#[trigger] flag_set(flags, t) <==> is_unnecessary(
                        *counts,
                        variant,
                        t,
                    ))
            },
            Err(e) => first_violation(*counts, no_melds(), variant) == Some(e),
        }),
{
    let melds: MeldSlots = empty_slots();
    let hand = match validate(counts, &melds, variant) {
        Ok(hand) => hand,
        Err(e) => {
            return Err(e);
        },
    };
    let tables: [SuitTable; 4] = suit_tables(&hand.counts, &hand.limits);
    let base: u8 = least_missing_from_tables(&hand.counts, &hand.limits, hand.groups, &tables);
    proof {
        lemma_least_missing_unique(
            counts_of(*counts),
            limits_of(no_melds(), variant),
            groups_demanded(*counts),
            base as int,
        );
        law_valid_hand_has_number(*counts, no_melds(), variant);
    }
    let ghost limit = limits_of(no_melds(), variant);
    let ghost groups = groups_demanded(*counts);
    let mut flags: u64 = 0;
    let mut t: usize = 0;
    assert(0u64 >> 0u64 == 0) by (bit_vector);
    while t < 34
        invariant
            t <= 34,
            hand.wf(),
            hand.comes_from(*counts, no_melds(), variant),
            limit == limits_of(no_melds(), variant),
            groups == groups_demanded(*counts),
            base as int == replacement_number_of(*counts, no_melds(), variant),
            base <= 14,
            tables_describe(tables, counts_of(*counts), limit),
            flags >> (t as u64) == 0,
            forall|j: int|
                0 <= j < t ==> (#[trigger] flag_set(flags, j) <==> is_unnecessary(
                    *counts,
                    variant,
                    j,
                )),
        decreases 34 - t,
    {
        let ghost before = flags;
        let mut turn_on: bool = false;
        if counts[t] > 0 {
            let mut probe: [u8; 34] = hand.counts;
            probe[t] = probe[t] - 1;
            let n: u8 = least_missing_after_change(
                &probe,
                &hand.limits,
                hand.groups,
                &tables,
                t,
                Ghost(counts_of(*counts)),
            );
            proof {
                assert(counts_of(probe) =~= with_one_less(counts_of(*counts), t as int));
                lemma_least_missing_unique(counts_of(probe), limit, groups, n as int);
            }
            turn_on = n <= base;
        }
        if turn_on {
            flags = flags | (1u64 << (t as u64));
        }
        proof {
            assert forall|j: int| 0 <= j < t + 1 implies (#[trigger] flag_set(flags, j)
                <==> is_unnecessary(*counts, variant, j)) by {
                lemma_turn_on(before, t as u64, j as u64);
                if j < t {
                    assert(flag_set(before, j) <==> is_unnecessary(*counts, variant, j));
                }
            }
            lemma_turn_on(before, t as u64, 0);
        }
        t = t + 1;
    }
    proof {
        lemma_within_tiles(flags);
    }
    Ok((base, flags))
}

/// The set of tiles as an array: entry `i` tells whether bit `i`, counted
/// from the lowest, is on.
pub fn tile_flags_to_boolean_array(flags: u64) -> (tiles: [bool; 34])
    ensures
        forall|i: int| 0 <= i < 34 ==> #[trigger] tiles[i] == flag_set(flags, i),
{
    let mut tiles: [bool; 34] = [false; 34];
    let mut i: usize = 0;
    while i < 34
        invariant
            i <= 34,
            forall|k: int| 0 <= k < i ==> #[trigger] tiles[k] == flag_set(flags, k),
        decreases 34 - i,
    {
        tiles[i] = (flags >> (i as u64)) & 1 == 1;
        i = i + 1;
    }
    tiles
}

} // verus!
