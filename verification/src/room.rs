//! Why a valid hand always has a winning hand to aim for: with at most four
//! melds declared, the honors alone leave room for the groups and the pair.

use vstd::prelude::*;
use crate::tile::Variant;
use crate::meld::{
    Meld, MeldSlots, melded, present, slot_tiles, slot_count, on_the_board, limits_of,
};
use crate::shape::{
    Block, Shape, sequences_at, tiles_at, groups_in, pairs_in, block_fits, is_target,
    has_target,
};

verus! {

/// One where up to three copies of tile `j` may still be used.
pub open spec fn open_for_triplet(limit: Seq<int>, j: int) -> int {
    if limit[j] >= 3 {
        1
    } else {
        0
    }
}

/// Number of tile kinds from `j` on of which up to three copies may still be used.
pub open spec fn open_kinds(limit: Seq<int>, j: int) -> int
    decreases 34 - j,
{
    if j >= 34 {
        0
    } else {
        open_for_triplet(limit, j) + open_kinds(limit, j + 1)
    }
}

/// A number of tile kinds is never negative.
proof fn lemma_open_kinds_nonnegative(limit: Seq<int>, j: int)
    ensures
        0 <= open_kinds(limit, j),
    decreases 34 - j,
{
    if j < 34 {
        lemma_open_kinds_nonnegative(limit, j + 1);
    }
}

/// One where the slot holds copies of tile `j`.
pub open spec fn touches(slot: Option<Meld>, j: int) -> int {
    if slot_tiles(slot, j) > 0 {
        1
    } else {
        0
    }
}

/// Number of honors of which the slot holds copies.
pub open spec fn honors_touched(slot: Option<Meld>) -> int {
    touches(slot, 27) + touches(slot, 28) + touches(slot, 29) + touches(slot, 30) + touches(
        slot,
        31,
    ) + touches(slot, 32) + touches(slot, 33)
}

/// A meld holds copies of one honor at most, an empty slot of none.
proof fn lemma_slot_touches_one_honor(slot: Option<Meld>)
    requires
        slot matches Some(Meld::Sequence(base, _)) ==> base < 25,
    ensures
        honors_touched(slot) <= slot_count(slot),
{
}

/// A tile kind of which fewer than three copies are left is held by some meld.
proof fn lemma_closed_kind_is_touched(melds: MeldSlots, variant: Variant, j: int)
    requires
        27 <= j < 34,
    ensures
        1 - open_for_triplet(limits_of(melds, variant), j) <= touches(melds[0], j) + touches(
            melds[1],
            j,
        ) + touches(melds[2], j) + touches(melds[3], j),
{
}

/// The melds leave at least as many honors untouched as seven less their number.
proof fn lemma_open_honors(melds: MeldSlots, variant: Variant)
    requires
        on_the_board(melds),
    ensures
        open_kinds(limits_of(melds, variant), 27) >= 7 - present(melds),
{
    let limit = limits_of(melds, variant);
    reveal_with_fuel(open_kinds, 9);
    // Name the four slots, so that what holds of every slot is known of each.
    assert(melds[0] == melds[0] && melds[1] == melds[1] && melds[2] == melds[2] && melds[3]
        == melds[3]);
    lemma_slot_touches_one_honor(melds[0]);
    lemma_slot_touches_one_honor(melds[1]);
    lemma_slot_touches_one_honor(melds[2]);
    lemma_slot_touches_one_honor(melds[3]);
    lemma_closed_kind_is_touched(melds, variant, 27);
    lemma_closed_kind_is_touched(melds, variant, 28);
    lemma_closed_kind_is_touched(melds, variant, 29);
    lemma_closed_kind_is_touched(melds, variant, 30);
    lemma_closed_kind_is_touched(melds, variant, 31);
    lemma_closed_kind_is_touched(melds, variant, 32);
    lemma_closed_kind_is_touched(melds, variant, 33);
}

/// Where enough honors from `j` on are open, triplets and a pair of them
/// can be written into the shape.
proof fn lemma_fill_honors(limit: Seq<int>, shape: Shape, j: int, m: int, p: int) -> (out: Shape)
    requires
        27 <= j <= 34,
        shape.len() == 34,
        limit.len() == 34,
        forall|x: int| 0 <= x < 34 ==> 0 <= #[trigger] limit[x],
        0 <= m,
        0 <= p,
        open_kinds(limit, j) >= m + p,
        sequences_at(shape, j - 1) == 0,
        sequences_at(shape, j - 2) == 0,
    ensures
        out.len() == 34,
        forall|x: int| 0 <= x < j ==> out[x] == shape[x],
        forall|x: int| j <= x < 34 ==> #[trigger] block_fits(out, limit, x),
        groups_in(out, j, 34) == m,
        pairs_in(out, j, 34) == p,
    decreases 34 - j,
{
    if j >= 34 {
        shape
    } else {
        let open = limit[j] >= 3;
        let t: nat = if open && m > 0 {
            1
        } else {
            0
        };
        let q: nat = if open && m == 0 && p > 0 {
            1
        } else {
            0
        };
        let filled = shape.update(j, Block { triplets: t, sequences: 0, pairs: q });
        lemma_open_kinds_nonnegative(limit, j + 1);
        let out = lemma_fill_honors(limit, filled, j + 1, m - t, p - q);
        assert(out[j] == filled[j]);
        assert(sequences_at(out, j - 1) == 0);
        assert(sequences_at(out, j - 2) == 0);
        assert(tiles_at(out, j) == 3 * t + 2 * q);
        assert(block_fits(out, limit, j));
        out
    }
}

/// Tile kinds without blocks add nothing to the groups and pairs.
proof fn lemma_skip_empty(shape: Shape, lo: int, mid: int)
    requires
        0 <= lo <= mid <= 34,
        shape.len() == 34,
        forall|x: int|
            lo <= x < mid
                ==> #[trigger] shape[x] == (Block { triplets: 0, sequences: 0, pairs: 0 }),
    ensures
        groups_in(shape, lo, 34) == groups_in(shape, mid, 34),
        pairs_in(shape, lo, 34) == pairs_in(shape, mid, 34),
    decreases mid - lo,
{
    if lo < mid {
        assert(shape[lo] == (Block { triplets: 0, sequences: 0, pairs: 0 }));
        lemma_skip_empty(shape, lo + 1, mid);
    }
}

/// Whatever melds are declared, as long as melds and demanded groups are
/// four at most, some winning hand is possible.
pub proof fn lemma_target_exists(melds: MeldSlots, variant: Variant, groups: int)
    requires
        on_the_board(melds),
        forall|i: int| 0 <= i < 34 ==> melded(melds, i) <= 4,
        0 <= groups,
        groups + present(melds) <= 4,
    ensures
        has_target(limits_of(melds, variant), groups),
{
    let limit = limits_of(melds, variant);
    let blank = Seq::new(34, |i: int| Block { triplets: 0, sequences: 0, pairs: 0 });
    lemma_open_honors(melds, variant);
    let out = lemma_fill_honors(limit, blank, 27, groups, 1);
    lemma_skip_empty(out, 0, 27);
    assert forall|i: int| 0 <= i < 34 implies #[trigger] block_fits(out, limit, i) by {
        if i < 27 {
            assert(out[i] == blank[i]);
            if i >= 1 {
                assert(out[i - 1] == blank[i - 1]);
            }
            if i >= 2 {
                assert(out[i - 2] == blank[i - 2]);
            }
            assert(tiles_at(out, i) == 0);
        }
    }
    assert(is_target(out, limit, groups));
}

} // verus!
