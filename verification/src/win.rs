//! What a winning hand is, and how far a hand is from one.
//!
//! A hand wins as groups and a pair. A hand that forms all four groups
//! itself may also win as seven different pairs, or as one of each terminal
//! and honor with one of them twice. The distance from a hand to a winning
//! hand is the number of tiles that the winning hand holds and the hand
//! lacks. The replacement number is the least such distance.

use vstd::prelude::*;
use crate::tile::{sum_in, is_orphan};
use crate::shape::{Shape, excess, is_target, tiles_of_shape};

verus! {

/// Number of tiles of the kinds `lo..hi` that `want` holds and the hand lacks.
pub open spec fn lacking_in(hand: Seq<int>, want: Seq<int>, lo: int, hi: int) -> int
    decreases hi - lo,
{
    if lo >= hi {
        0
    } else {
        excess(want[lo], hand[lo]) + lacking_in(hand, want, lo + 1, hi)
    }
}

/// Number of tiles that `want` holds and the hand lacks.
pub open spec fn lacking(hand: Seq<int>, want: Seq<int>) -> int {
    lacking_in(hand, want, 0, 34)
}

/// `want` holds no more of any tile kind than `limit` leaves.
pub open spec fn within(want: Seq<int>, limit: Seq<int>) -> bool {
    &&& want.len() == 34
    &&& forall|i: int| 0 <= i < 34 ==> 0 <= #[trigger] want[i] <= limit[i]
}

/// `want` is `groups` groups and a pair.
pub open spec fn standard_goal(want: Seq<int>, limit: Seq<int>, groups: int) -> bool {
    exists|shape: Shape| #[trigger] is_target(shape, limit, groups) && want == tiles_of_shape(shape)
}

/// `want` is seven different pairs.
pub open spec fn pairs_goal(want: Seq<int>, limit: Seq<int>) -> bool {
    &&& within(want, limit)
    &&& forall|i: int| 0 <= i < 34 ==> #[trigger] want[i] == 0 || want[i] == 2
    &&& sum_in(want, 0, 34) == 14
}

/// `want` is one of each terminal and honor, and one of them a second time.
pub open spec fn orphans_goal(want: Seq<int>, limit: Seq<int>) -> bool {
    &&& within(want, limit)
    &&& forall|i: int| 0 <= i < 34 && is_orphan(i) ==> 1 <= #[trigger] want[i] <= 2
    &&& forall|i: int| 0 <= i < 34 && !is_orphan(i) ==> #[trigger] want[i] == 0
    &&& sum_in(want, 0, 34) == 14
}

/// `want` is a winning hand for a hand that must form `groups` groups itself.
pub open spec fn is_winning(want: Seq<int>, limit: Seq<int>, groups: int) -> bool {
    ||| standard_goal(want, limit, groups)
    ||| groups == 4 && pairs_goal(want, limit)
    ||| groups == 4 && orphans_goal(want, limit)
}

/// `n` is the least number of tiles that the hand lacks to be a winning
/// hand: some winning hand is `n` tiles away and none is nearer.
pub open spec fn is_least_missing(hand: Seq<int>, limit: Seq<int>, groups: int, n: int) -> bool {
    &&& exists|want: Seq<int>|
        #[trigger] is_winning(want, limit, groups) && lacking(hand, want) == n
    &&& forall|want: Seq<int>|
        #[trigger] is_winning(want, limit, groups) ==> n <= lacking(hand, want)
}

/// The least number of tiles that the hand lacks to be a winning hand.
pub open spec fn least_missing(hand: Seq<int>, limit: Seq<int>, groups: int) -> int {
    choose|n: int| is_least_missing(hand, limit, groups, n)
}

/// At most one number is the least.
pub proof fn lemma_least_missing_unique(hand: Seq<int>, limit: Seq<int>, groups: int, n: int)
    requires
        is_least_missing(hand, limit, groups, n),
    ensures
        least_missing(hand, limit, groups) == n,
{
    let other = least_missing(hand, limit, groups);
    assert(is_least_missing(hand, limit, groups, other));
    let w1 = choose|want: Seq<int>| #[trigger]
        is_winning(want, limit, groups) && lacking(hand, want) == n;
    let w2 = choose|want: Seq<int>| #[trigger]
        is_winning(want, limit, groups) && lacking(hand, want) == other;
    assert(is_winning(w1, limit, groups));
    assert(is_winning(w2, limit, groups));
}

/// `n` is the least number of tiles that the hand lacks to be `groups`
/// groups and a pair; the greatest byte where no such hand is possible.
pub open spec fn nearest_standard(hand: Seq<int>, limit: Seq<int>, groups: int, n: int) -> bool {
    &&& 0 <= n <= 255
    &&& n < 255 ==> exists|want: Seq<int>| #[trigger]
        standard_goal(want, limit, groups) && lacking(hand, want) == n
    &&& forall|want: Seq<int>| #[trigger]
        standard_goal(want, limit, groups) ==> n <= lacking(hand, want) < 255
}

/// `n` is the least number of tiles that the hand lacks to be seven
/// different pairs; the greatest byte where no such hand is possible.
pub open spec fn nearest_pairs(hand: Seq<int>, limit: Seq<int>, n: int) -> bool {
    &&& 0 <= n <= 255
    &&& n < 255 ==> exists|want: Seq<int>| #[trigger]
        pairs_goal(want, limit) && lacking(hand, want) == n
    &&& forall|want: Seq<int>| #[trigger] pairs_goal(want, limit) ==> n <= lacking(hand, want) < 255
}

/// `n` is the least number of tiles that the hand lacks to be thirteen
/// orphans; the greatest byte where no such hand is possible.
pub open spec fn nearest_orphans(hand: Seq<int>, limit: Seq<int>, n: int) -> bool {
    &&& 0 <= n <= 255
    &&& n < 255 ==> exists|want: Seq<int>| #[trigger]
        orphans_goal(want, limit) && lacking(hand, want) == n
    &&& forall|want: Seq<int>| #[trigger]
        orphans_goal(want, limit) ==> n <= lacking(hand, want) < 255
}

} // verus!
