//! Why an untold meld is never in the way: among the 34 tile kinds there is
//! always one that neither the hand, nor the melds, nor the winning hand
//! aimed at makes use of more than once, and a triplet of it can be told.

use vstd::prelude::*;
use crate::tile::{Variant, in_play, sum_in, starts_sequence};
use crate::meld::{Meld, MeldSlots, melded, present, slot_tiles, on_the_board};

verus! {

/// Tile `j` is made use of: it is out of play, the melds hold it, or the
/// hand or the winning hand aimed at holds it twice or more.
pub open spec fn busy(
    counts: Seq<int>,
    want: Seq<int>,
    melds: MeldSlots,
    variant: Variant,
    j: int,
) -> bool {
    melded(melds, j) > 0 || counts[j] >= 2 || want[j] >= 2 || !in_play(variant, j)
}

/// Number of tile kinds from `lo` on that are made use of.
pub open spec fn busy_from(
    counts: Seq<int>,
    want: Seq<int>,
    melds: MeldSlots,
    variant: Variant,
    lo: int,
) -> int
    decreases 34 - lo,
{
    if lo >= 34 {
        0
    } else {
        (if busy(counts, want, melds, variant, lo) {
            1int
        } else {
            0int
        }) + busy_from(counts, want, melds, variant, lo + 1)
    }
}

/// Number of tile kinds from `lo` on that the variant lacks.
pub open spec fn out_of_play_from(variant: Variant, lo: int) -> int
    decreases 34 - lo,
{
    if lo >= 34 {
        0
    } else {
        (if in_play(variant, lo) {
            0int
        } else {
            1int
        }) + out_of_play_from(variant, lo + 1)
    }
}

/// Number of tiles from kind `lo` on that the slot holds.
pub open spec fn slot_from(slot: Option<Meld>, lo: int) -> int
    decreases 34 - lo,
{
    if lo >= 34 {
        0
    } else {
        slot_tiles(slot, lo) + slot_from(slot, lo + 1)
    }
}

/// Number of tiles from kind `lo` on that the melds hold.
pub open spec fn melded_from(melds: MeldSlots, lo: int) -> int
    decreases 34 - lo,
{
    if lo >= 34 {
        0
    } else {
        melded(melds, lo) + melded_from(melds, lo + 1)
    }
}

/// The slot names tiles of the set only.
pub open spec fn slot_on_the_board(slot: Option<Meld>) -> bool {
    match slot {
        Some(Meld::Sequence(base, _)) => starts_sequence(base as int),
        Some(Meld::Triplet(tile)) => tile < 34,
        Some(Meld::Quad(tile)) => tile < 34,
        None => true,
    }
}

/// A meld holds four tiles at most, an empty slot none.
proof fn lemma_slot_total(slot: Option<Meld>, lo: int)
    requires
        slot_on_the_board(slot),
        0 <= lo <= 34,
    ensures
        slot_from(slot, lo) == (match slot {
            Some(Meld::Sequence(base, _)) => if lo <= base {
                3int
            } else if lo <= base + 2 {
                base + 3 - lo
            } else {
                0int
            },
            Some(Meld::Triplet(tile)) => if lo <= tile {
                3int
            } else {
                0int
            },
            Some(Meld::Quad(tile)) => if lo <= tile {
                4int
            } else {
                0int
            },
            None => 0int,
        }),
    decreases 34 - lo,
{
    if lo < 34 {
        lemma_slot_total(slot, lo + 1);
    }
}

/// The tiles of the melds are those of the four slots.
proof fn lemma_melded_by_slot(melds: MeldSlots, lo: int)
    requires
        0 <= lo <= 34,
    ensures
        melded_from(melds, lo) == slot_from(melds[0], lo) + slot_from(melds[1], lo) + slot_from(
            melds[2],
            lo,
        ) + slot_from(melds[3], lo),
    decreases 34 - lo,
{
    if lo < 34 {
        lemma_melded_by_slot(melds, lo + 1);
    }
}

/// The melds hold four tiles each at most.
proof fn lemma_melded_total(melds: MeldSlots)
    requires
        on_the_board(melds),
    ensures
        0 <= melded_from(melds, 0) <= 4 * present(melds),
{
    assert(slot_on_the_board(melds[0]) && slot_on_the_board(melds[1]) && slot_on_the_board(
        melds[2],
    ) && slot_on_the_board(melds[3]));
    lemma_melded_by_slot(melds, 0);
    lemma_slot_total(melds[0], 0);
    lemma_slot_total(melds[1], 0);
    lemma_slot_total(melds[2], 0);
    lemma_slot_total(melds[3], 0);
}

/// Seven tile kinds at most are out of play.
proof fn lemma_out_of_play(variant: Variant)
    ensures
        out_of_play_from(variant, 0) <= 7,
{
    reveal_with_fuel(out_of_play_from, 36);
}

/// The tile kinds made use of are bounded by the tiles that make use of them.
proof fn lemma_busy_bound(
    counts: Seq<int>,
    want: Seq<int>,
    melds: MeldSlots,
    variant: Variant,
    lo: int,
)
    requires
        counts.len() == 34,
        want.len() == 34,
        0 <= lo <= 34,
        forall|j: int| 0 <= j < 34 ==> 0 <= #[trigger] counts[j],
        forall|j: int| 0 <= j < 34 ==> 0 <= #[trigger] want[j],
    ensures
        2 * busy_from(counts, want, melds, variant, lo) <= 2 * melded_from(melds, lo) + sum_in(
            counts,
            lo,
            34,
        ) + sum_in(want, lo, 34) + 2 * out_of_play_from(variant, lo),
    decreases 34 - lo,
{
    if lo < 34 {
        lemma_busy_bound(counts, want, melds, variant, lo + 1);
        assert(0 <= counts[lo] && 0 <= want[lo]);
    }
}

/// Where fewer tile kinds are made use of than there are, one is idle.
proof fn lemma_some_idle(
    counts: Seq<int>,
    want: Seq<int>,
    melds: MeldSlots,
    variant: Variant,
    lo: int,
) -> (j: int)
    requires
        0 <= lo <= 34,
        busy_from(counts, want, melds, variant, lo) < 34 - lo,
    ensures
        lo <= j < 34,
        !busy(counts, want, melds, variant, j),
    decreases 34 - lo,
{
    if busy(counts, want, melds, variant, lo) {
        lemma_some_idle(counts, want, melds, variant, lo + 1)
    } else {
        lo
    }
}

/// With fewer than four groups between the hand and the melds, some tile
/// kind in play is idle: no meld holds it, and the hand and the winning
/// hand aimed at hold it once at most.
pub proof fn lemma_idle_tile(
    counts: Seq<int>,
    want: Seq<int>,
    melds: MeldSlots,
    variant: Variant,
    groups: int,
) -> (j: int)
    requires
        counts.len() == 34,
        want.len() == 34,
        forall|j: int| 0 <= j < 34 ==> 0 <= #[trigger] counts[j],
        forall|j: int| 0 <= j < 34 ==> 0 <= #[trigger] want[j],
        on_the_board(melds),
        0 <= groups,
        groups + present(melds) < 4,
        sum_in(counts, 0, 34) <= 3 * groups + 2,
        sum_in(want, 0, 34) <= 3 * groups + 2,
    ensures
        0 <= j < 34,
        in_play(variant, j),
        melded(melds, j) == 0,
        counts[j] <= 1,
        want[j] <= 1,
{
    lemma_busy_bound(counts, want, melds, variant, 0);
    lemma_melded_total(melds);
    lemma_out_of_play(variant);
    lemma_some_idle(counts, want, melds, variant, 0)
}

} // verus!
