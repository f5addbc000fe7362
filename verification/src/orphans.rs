//! The search for the nearest hand of thirteen orphans: one of each
//! terminal and honor, and one of them a second time.

use vstd::prelude::*;
use crate::tile::{counts_of, sum_in, is_orphan, is_terminal_or_honor};
use crate::shape::excess;
use crate::win::{lacking_in, lacking, within, orphans_goal, nearest_orphans};
use crate::search::{UNREACHABLE, counts_ok};

verus! {

/// Tiles missing when `copies` of an orphan are wanted of which the hand
/// holds `have`, `spare` tells whether these may be two, and `next` tiles
/// are missing after it.
pub open spec fn orphan_value(have: int, lim: int, copies: int, spare: bool, next: int) -> int {
    if spare && lim >= copies && next < UNREACHABLE {
        excess(copies, have) + next
    } else {
        UNREACHABLE as int
    }
}

/// The least number of tiles missing over the tile kinds from `i` on, with
/// `d` orphans to hold twice.
pub open spec fn orphans_least(hand: Seq<int>, limit: Seq<int>, i: int, d: int) -> int
    decreases 34 - i,
{
    if i >= 34 {
        if d == 0 {
            0
        } else {
            UNREACHABLE as int
        }
    } else if !is_orphan(i) {
        orphans_least(hand, limit, i + 1, d)
    } else {
        let once: int = orphan_value(hand[i], limit[i], 1, true, orphans_least(hand, limit, i + 1, d));
        let twice: int = orphan_value(
            hand[i],
            limit[i],
            2,
            d > 0,
            orphans_least(hand, limit, i + 1, d - 1),
        );
        if twice < once {
            twice
        } else {
            once
        }
    }
}

/// Number of terminals and honors from tile `i` on.
pub open spec fn orphans_from(i: int) -> int
    decreases 34 - i,
{
    if i >= 34 {
        0
    } else if is_orphan(i) {
        1 + orphans_from(i + 1)
    } else {
        orphans_from(i + 1)
    }
}

/// The search gives a number of tiles or the greatest byte.
proof fn lemma_orphans_in_range(hand: Seq<int>, limit: Seq<int>, i: int, d: int)
    requires
        counts_ok(hand, limit),
        0 <= i,
    ensures
        0 <= orphans_least(hand, limit, i, d) <= 255,
    decreases 34 - i,
{
    if i < 34 {
        lemma_orphans_in_range(hand, limit, i + 1, d);
        lemma_orphans_in_range(hand, limit, i + 1, d - 1);
    }
}

/// No hand of orphans is nearer over the tile kinds from `i` on than the
/// search says.
proof fn lemma_orphans_lower_bound(hand: Seq<int>, limit: Seq<int>, want: Seq<int>, i: int)
    requires
        counts_ok(hand, limit),
        within(want, limit),
        forall|j: int| 0 <= j < 34 && is_orphan(j) ==> 1 <= #[trigger] want[j] <= 2,
        forall|j: int| 0 <= j < 34 && !is_orphan(j) ==> #[trigger] want[j] == 0,
        0 <= i <= 34,
    ensures
        0 <= sum_in(want, i, 34) - orphans_from(i),
        orphans_least(hand, limit, i, sum_in(want, i, 34) - orphans_from(i)) <= lacking_in(
            hand,
            want,
            i,
            34,
        ) <= 2 * (34 - i),
    decreases 34 - i,
{
    if i < 34 {
        lemma_orphans_lower_bound(hand, limit, want, i + 1);
        if is_orphan(i) {
            assert(1 <= want[i] <= 2);
        } else {
            assert(want[i] == 0);
        }
    }
}

/// Where the search finds a number of tiles, some hand of orphans from
/// tile `i` on is that near to the hand.
proof fn lemma_orphans_reached(
    hand: Seq<int>,
    limit: Seq<int>,
    want: Seq<int>,
    i: int,
    d: int,
) -> (out: Seq<int>)
    requires
        counts_ok(hand, limit),
        want.len() == 34,
        0 <= i <= 34,
        orphans_least(hand, limit, i, d) < UNREACHABLE,
    ensures
        out.len() == 34,
        forall|j: int| 0 <= j < i ==> out[j] == want[j],
        forall|j: int|
            i <= j < 34 && is_orphan(j) ==> 1 <= #[trigger] out[j] <= 2 && out[j] <= limit[j],
        forall|j: int| i <= j < 34 && !is_orphan(j) ==> #[trigger] out[j] == 0,
        sum_in(out, i, 34) == orphans_from(i) + d,
        lacking_in(hand, out, i, 34) == orphans_least(hand, limit, i, d),
    decreases 34 - i,
{
    if i >= 34 {
        want
    } else if !is_orphan(i) {
        let out = lemma_orphans_reached(hand, limit, want.update(i, 0), i + 1, d);
        assert(out[i] == 0);
        out
    } else {
        let once: int = orphan_value(hand[i], limit[i], 1, true, orphans_least(hand, limit, i + 1, d));
        let twice: int = orphan_value(
            hand[i],
            limit[i],
            2,
            d > 0,
            orphans_least(hand, limit, i + 1, d - 1),
        );
        if twice < once {
            let out = lemma_orphans_reached(hand, limit, want.update(i, 2), i + 1, d - 1);
            assert(out[i] == 2);
            out
        } else {
            let out = lemma_orphans_reached(hand, limit, want.update(i, 1), i + 1, d);
            assert(out[i] == 1);
            out
        }
    }
}

/// There are thirteen terminals and honors.
proof fn lemma_thirteen()
    ensures
        orphans_from(0) == 13,
{
    reveal_with_fuel(orphans_from, 36);
}

/// The search over all tile kinds gives the least number of tiles that the
/// hand lacks to be thirteen orphans.
pub proof fn lemma_orphans_search_is_exact(hand: Seq<int>, limit: Seq<int>)
    requires
        counts_ok(hand, limit),
    ensures
        nearest_orphans(hand, limit, orphans_least(hand, limit, 0, 1)),
{
    let n = orphans_least(hand, limit, 0, 1);
    lemma_orphans_in_range(hand, limit, 0, 1);
    lemma_thirteen();
    assert forall|want: Seq<int>| #[trigger] orphans_goal(want, limit) implies n <= lacking(
        hand,
        want,
    ) < 255 by {
        lemma_orphans_lower_bound(hand, limit, want, 0);
    }
    if n < 255 {
        let out = lemma_orphans_reached(hand, limit, Seq::new(34, |i: int| 0int), 0, 1);
        assert(orphans_goal(out, limit));
    }
}

/// The least number of tiles that the hand lacks to be thirteen orphans,
/// where no winning hand may hold more than `limits` of each tile kind.
/// `UNREACHABLE` where no such hand exists.
pub fn nearest_thirteen_orphans(counts: &[u8; 34], limits: &[u8; 34]) -> (n: u8)
    requires
        forall|i: int| 0 <= i < 34 ==> limits[i] <= 4,
    ensures
        nearest_orphans(counts_of(*counts), counts_of(*limits), n as int),
{
    let ghost hand = counts_of(*counts);
    let ghost limit = counts_of(*limits);
    let mut none: u8 = 0;
    let mut one: u8 = UNREACHABLE;
    let mut i: usize = 34;
    while i > 0
        invariant
            i <= 34,
            hand == counts_of(*counts),
            limit == counts_of(*limits),
            none as int == orphans_least(hand, limit, i as int, 0),
            one as int == orphans_least(hand, limit, i as int, 1),
            none == UNREACHABLE || none <= 2 * (34 - i),
            one == UNREACHABLE || one <= 2 * (34 - i),
        decreases i,
    {
        i = i - 1;
        if is_terminal_or_honor(i) {
            let have: u8 = counts[i];
            let lim: u8 = limits[i];
            let lack_one: u8 = if have >= 1 {
                0
            } else {
                1
            };
            let lack_two: u8 = if have >= 2 {
                0
            } else {
                2 - have
            };
            let mut next_one: u8 = UNREACHABLE;
            if lim >= 1 && one < UNREACHABLE {
                next_one = lack_one + one;
            }
            if lim >= 2 && none < UNREACHABLE {
                let twice: u8 = lack_two + none;
                if twice < next_one {
                    next_one = twice;
                }
            }
            let mut next_none: u8 = UNREACHABLE;
            if lim >= 1 && none < UNREACHABLE {
                next_none = lack_one + none;
            }
            one = next_one;
            none = next_none;
        }
    }
    proof {
        lemma_orphans_search_is_exact(hand, limit);
    }
    one
}

} // verus!
