//! The search for the nearest hand of seven different pairs.

use vstd::prelude::*;
use crate::tile::{counts_of, sum_in};
use crate::shape::excess;
use crate::win::{lacking_in, lacking, within, pairs_goal, nearest_pairs};
use crate::search::{UNREACHABLE, counts_ok};

verus! {

/// Tiles missing when a pair is placed at a tile kind of which the hand
/// holds `have`, `r` pairs are still to place and `next` tiles are missing
/// after it.
pub open spec fn pair_value(have: int, lim: int, r: int, next: int) -> int {
    if r > 0 && lim >= 2 && next < UNREACHABLE {
        excess(2, have) + next
    } else {
        UNREACHABLE as int
    }
}

/// The least number of tiles missing over the tile kinds from `i` on, with
/// `r` pairs to place.
pub open spec fn pairs_least(hand: Seq<int>, limit: Seq<int>, i: int, r: int) -> int
    decreases 34 - i,
{
    if i >= 34 {
        if r == 0 {
            0
        } else {
            UNREACHABLE as int
        }
    } else {
        let skip: int = pairs_least(hand, limit, i + 1, r);
        let take: int = pair_value(hand[i], limit[i], r, pairs_least(hand, limit, i + 1, r - 1));
        if take < skip {
            take
        } else {
            skip
        }
    }
}

/// The search gives a number of tiles or the greatest byte.
proof fn lemma_pairs_in_range(hand: Seq<int>, limit: Seq<int>, i: int, r: int)
    ensures
        0 <= pairs_least(hand, limit, i, r) <= 255,
    decreases 34 - i,
{
    if i < 34 {
        lemma_pairs_in_range(hand, limit, i + 1, r);
        lemma_pairs_in_range(hand, limit, i + 1, r - 1);
    }
}

/// No hand of pairs is nearer over the tile kinds from `i` on than the
/// search says.
proof fn lemma_pairs_lower_bound(hand: Seq<int>, limit: Seq<int>, want: Seq<int>, i: int)
    requires
        counts_ok(hand, limit),
        within(want, limit),
        forall|j: int| 0 <= j < 34 ==> #[trigger] want[j] == 0 || want[j] == 2,
        0 <= i <= 34,
    ensures
        0 <= sum_in(want, i, 34),
        sum_in(want, i, 34) % 2 == 0,
        pairs_least(hand, limit, i, sum_in(want, i, 34) / 2) <= lacking_in(hand, want, i, 34)
            <= 2 * (34 - i),
    decreases 34 - i,
{
    if i < 34 {
        lemma_pairs_lower_bound(hand, limit, want, i + 1);
        assert(want[i] == 0 || want[i] == 2);
    }
}

/// Where the search finds a number of tiles, some way of placing the pairs
/// from tile `i` on is that near to the hand.
proof fn lemma_pairs_reached(
    hand: Seq<int>,
    limit: Seq<int>,
    want: Seq<int>,
    i: int,
    r: int,
) -> (out: Seq<int>)
    requires
        counts_ok(hand, limit),
        want.len() == 34,
        0 <= i <= 34,
        pairs_least(hand, limit, i, r) < UNREACHABLE,
    ensures
        out.len() == 34,
        forall|j: int| 0 <= j < i ==> out[j] == want[j],
        forall|j: int|
            i <= j < 34 ==> (#[trigger] out[j] == 0 || out[j] == 2) && out[j] <= limit[j],
        sum_in(out, i, 34) == 2 * r,
        lacking_in(hand, out, i, 34) == pairs_least(hand, limit, i, r),
    decreases 34 - i,
{
    if i >= 34 {
        want
    } else {
        let skip: int = pairs_least(hand, limit, i + 1, r);
        let take: int = pair_value(hand[i], limit[i], r, pairs_least(hand, limit, i + 1, r - 1));
        if take < skip {
            let out = lemma_pairs_reached(hand, limit, want.update(i, 2), i + 1, r - 1);
            assert(out[i] == 2);
            out
        } else {
            let out = lemma_pairs_reached(hand, limit, want.update(i, 0), i + 1, r);
            assert(out[i] == 0);
            out
        }
    }
}

/// The search over all tile kinds gives the least number of tiles that the
/// hand lacks to be seven different pairs.
pub proof fn lemma_pairs_search_is_exact(hand: Seq<int>, limit: Seq<int>)
    requires
        counts_ok(hand, limit),
    ensures
        nearest_pairs(hand, limit, pairs_least(hand, limit, 0, 7)),
{
    let n = pairs_least(hand, limit, 0, 7);
    lemma_pairs_in_range(hand, limit, 0, 7);
    assert forall|want: Seq<int>| #[trigger] pairs_goal(want, limit) implies n <= lacking(
        hand,
        want,
    ) < 255 by {
        lemma_pairs_lower_bound(hand, limit, want, 0);
    }
    if n < 255 {
        let out = lemma_pairs_reached(hand, limit, Seq::new(34, |i: int| 0int), 0, 7);
        assert(pairs_goal(out, limit));
    }
}

/// The least number of tiles that the hand lacks to be seven different
/// pairs, where no winning hand may hold more than `limits` of each tile
/// kind. `UNREACHABLE` where no such hand exists.
pub fn nearest_seven_pairs(counts: &[u8; 34], limits: &[u8; 34]) -> (n: u8)
    requires
        forall|i: int| 0 <= i < 34 ==> limits[i] <= 4,
    ensures
        nearest_pairs(counts_of(*counts), counts_of(*limits), n as int),
{
    let ghost hand = counts_of(*counts);
    let ghost limit = counts_of(*limits);
    let mut table: [u8; 8] = [UNREACHABLE; 8];
    table[0] = 0;
    let mut i: usize = 34;
    while i > 0
        invariant
            i <= 34,
            hand == counts_of(*counts),
            limit == counts_of(*limits),
            forall|r: int|
                0 <= r < 8
                    ==> (#[trigger] table[r]) as int == pairs_least(hand, limit, i as int, r),
            forall|r: int|
                0 <= r < 8 ==> (#[trigger] table[r]) == UNREACHABLE || table[r] <= 2 * (34 - i),
        decreases i,
    {
        i = i - 1;
        let have: u8 = counts[i];
        let lim: u8 = limits[i];
        let ghost old_table = table;
        let mut r: usize = 7;
        while r > 0
            invariant
                r <= 7,
                i < 34,
                hand[i as int] == have as int,
                limit[i as int] == lim as int,
                forall|k: int|
                    0 <= k < 8
                        ==> (#[trigger] old_table[k]) as int == pairs_least(hand, limit, i + 1, k),
                forall|k: int|
                    0 <= k < 8
                        ==> (#[trigger] old_table[k]) == UNREACHABLE || old_table[k] <= 2 * (33 - i),
                forall|k: int| 0 <= k <= r ==> #[trigger] table[k] == old_table[k],
                forall|k: int|
                    r < k < 8
                        ==> (#[trigger] table[k]) as int == pairs_least(hand, limit, i as int, k),
                forall|k: int|
                    r < k < 8 ==> (#[trigger] table[k]) == UNREACHABLE || table[k] <= 2 * (34 - i),
            decreases r,
        {
            let skip: u8 = table[r];
            let below: u8 = table[r - 1];
            assert(skip == old_table[r as int]);
            assert(below == old_table[r - 1]);
            if lim >= 2 && below < UNREACHABLE {
                let lack: u8 = if have >= 2 {
                    0
                } else {
                    2 - have
                };
                let take: u8 = lack + below;
                if take < skip {
                    table[r] = take;
                }
            }
            r = r - 1;
        }
        assert(table[0] == old_table[0]);
    }
    proof {
        lemma_pairs_search_is_exact(hand, limit);
    }
    table[7]
}

} // verus!
