//! What holds of the replacement number whatever the hand.

use vstd::prelude::*;
use crate::tile::{Variant, counts_of, sum_in, in_play};
use crate::meld::{
    Meld, MeldSlots, melded, present, limits_of, no_melds, on_the_board, any_sequence, any_bad_base,
    any_forbidden_tile, slot_is_sequence, slot_has_bad_base, slot_has_forbidden_tile,
};
use crate::shape::{
    Shape, sequences_at, tiles_at, groups_in, pairs_in, block_fits, fits, is_target, has_target,
    tiles_of_shape,
};
use crate::win::{
    lacking_in, lacking, standard_goal, pairs_goal, orphans_goal, is_winning, is_least_missing,
    least_missing, lemma_least_missing_unique,
};
use crate::search::{counts_ok, least};
use crate::combine::lemma_search_is_exact;
use crate::pairs::{pairs_least, lemma_pairs_search_is_exact};
use crate::orphans::{orphans_least, lemma_orphans_search_is_exact};
use crate::room::lemma_target_exists;
use crate::idle::lemma_idle_tile;
use crate::hand::{first_violation, groups_demanded, copies_too_many, tiles_held};
use crate::engine::{is_replacement_number, replacement_number_of};
use crate::flags::{with_one_more, with_one_less, is_necessary, is_unnecessary};

verus! {

/// A hand lacks no fewer tiles when it holds fewer.
pub proof fn lemma_lacking_falls(hand: Seq<int>, more: Seq<int>, want: Seq<int>, lo: int, hi: int)
    requires
        hand.len() == 34,
        more.len() == 34,
        0 <= lo <= hi <= 34,
        forall|i: int| 0 <= i < 34 ==> hand[i] <= more[i],
    ensures
        0 <= lacking_in(more, want, lo, hi) <= lacking_in(hand, want, lo, hi),
    decreases hi - lo,
{
    if lo < hi {
        lemma_lacking_falls(hand, more, want, lo + 1, hi);
    }
}

/// A hand lacks nothing of `want` exactly where it holds every tile kind
/// as often at least.
pub proof fn lemma_lacking_nothing(hand: Seq<int>, want: Seq<int>, lo: int, hi: int)
    requires
        0 <= lo <= hi <= 34,
    ensures
        0 <= lacking_in(hand, want, lo, hi),
        lacking_in(hand, want, lo, hi) == 0 <==> forall|i: int| lo <= i < hi ==> want[i] <= hand[i],
    decreases hi - lo,
{
    if lo < hi {
        lemma_lacking_nothing(hand, want, lo + 1, hi);
        if lacking_in(hand, want, lo, hi) == 0 {
            assert forall|i: int| lo <= i < hi implies want[i] <= hand[i] by {
                if i > lo {
                    assert(lo + 1 <= i < hi);
                }
            }
        }
    }
}

/// Two hands of which one holds every tile kind as often at least, and no
/// more tiles in all, hold the same tiles.
pub proof fn lemma_same_tiles(small: Seq<int>, large: Seq<int>, lo: int, hi: int)
    requires
        0 <= lo <= hi <= 34,
        forall|i: int| lo <= i < hi ==> small[i] <= large[i],
        sum_in(large, lo, hi) <= sum_in(small, lo, hi),
    ensures
        forall|i: int| lo <= i < hi ==> small[i] == large[i],
        sum_in(large, lo, hi) == sum_in(small, lo, hi),
    decreases hi - lo,
{
    if lo < hi {
        lemma_sum_rises(small, large, lo + 1, hi);
        lemma_same_tiles(small, large, lo + 1, hi);
        assert forall|i: int| lo <= i < hi implies small[i] == large[i] by {
            if i > lo {
                assert(lo + 1 <= i < hi);
            }
        }
    }
}

/// A hand that holds every tile kind as often at least holds as many tiles
/// at least.
pub proof fn lemma_sum_rises(small: Seq<int>, large: Seq<int>, lo: int, hi: int)
    requires
        0 <= lo <= hi <= 34,
        forall|i: int| lo <= i < hi ==> small[i] <= large[i],
    ensures
        sum_in(small, lo, hi) <= sum_in(large, lo, hi),
    decreases hi - lo,
{
    if lo < hi {
        lemma_sum_rises(small, large, lo + 1, hi);
    }
}

/// The tiles of a shape from tile `lo` on are three for each group and two
/// for each pair there, and those of the runs begun before that reach in.
pub proof fn lemma_tiles_of_blocks(shape: Shape, limit: Seq<int>, lo: int)
    requires
        fits(shape, limit),
        0 <= lo <= 34,
    ensures
        sum_in(tiles_of_shape(shape), lo, 34) == 3 * groups_in(shape, lo, 34) + 2 * pairs_in(
            shape,
            lo,
            34,
        ) + 2 * sequences_at(shape, lo - 1) + sequences_at(shape, lo - 2),
    decreases 34 - lo,
{
    if lo < 34 {
        lemma_tiles_of_blocks(shape, limit, lo + 1);
        assert(tiles_of_shape(shape)[lo] == tiles_at(shape, lo));
    } else {
        assert(block_fits(shape, limit, 33));
        assert(block_fits(shape, limit, 32));
    }
}

/// Every winning hand holds three tiles for each group and two more.
pub proof fn lemma_winning_hand_size(want: Seq<int>, limit: Seq<int>, groups: int)
    requires
        is_winning(want, limit, groups),
    ensures
        sum_in(want, 0, 34) == 3 * groups + 2,
        want.len() == 34,
{
    if standard_goal(want, limit, groups) {
        let shape = choose|shape: Shape| #[trigger]
            is_target(shape, limit, groups) && want == tiles_of_shape(shape);
        lemma_tiles_of_blocks(shape, limit, 0);
    }
}

/// Where some winning hand of groups and a pair is possible, the hand has a
/// replacement number.
pub proof fn lemma_least_exists(hand: Seq<int>, limit: Seq<int>, groups: int)
    requires
        counts_ok(hand, limit),
        has_target(limit, groups),
    ensures
        is_least_missing(hand, limit, groups, least_missing(hand, limit, groups)),
        0 <= least_missing(hand, limit, groups) < 255,
{
    let by_groups = least(hand, limit, 0, 34, 0, 0, groups, 1);
    let by_pairs = if groups == 4 {
        pairs_least(hand, limit, 0, 7)
    } else {
        255
    };
    let by_orphans = if groups == 4 {
        orphans_least(hand, limit, 0, 1)
    } else {
        255
    };
    lemma_search_is_exact(hand, limit, groups);
    lemma_pairs_search_is_exact(hand, limit);
    lemma_orphans_search_is_exact(hand, limit);
    let shape = choose|shape: Shape| #[trigger] is_target(shape, limit, groups);
    assert(standard_goal(tiles_of_shape(shape), limit, groups));
    let n = if by_groups <= by_pairs && by_groups <= by_orphans {
        by_groups
    } else if by_pairs <= by_orphans {
        by_pairs
    } else {
        by_orphans
    };
    if n == by_groups {
        let want = choose|want: Seq<int>| #[trigger]
            standard_goal(want, limit, groups) && lacking(hand, want) == n;
        assert(is_winning(want, limit, groups));
    } else if n == by_pairs {
        let want = choose|want: Seq<int>| #[trigger]
            pairs_goal(want, limit) && lacking(hand, want) == n;
        assert(is_winning(want, limit, groups));
    } else {
        let want = choose|want: Seq<int>| #[trigger]
            orphans_goal(want, limit) && lacking(hand, want) == n;
        assert(is_winning(want, limit, groups));
    }
    assert(is_least_missing(hand, limit, groups, n));
    lemma_least_missing_unique(hand, limit, groups, n);
}

/// A valid hand has a replacement number.
pub proof fn law_valid_hand_has_number(counts: [u8; 34], melds: MeldSlots, variant: Variant)
    requires
        first_violation(counts, melds, variant) is None,
    ensures
        is_replacement_number(
            counts,
            melds,
            variant,
            replacement_number_of(counts, melds, variant),
        ),
        0 <= replacement_number_of(counts, melds, variant) <= 3 * groups_demanded(counts) + 2 <= 14,
{
    let hand = counts_of(counts);
    let limit = limits_of(melds, variant);
    let groups = groups_demanded(counts);
    lemma_valid_hand_is_searchable(counts, melds, variant);
    lemma_least_exists(hand, limit, groups);
    let n = least_missing(hand, limit, groups);
    let want = choose|want: Seq<int>| #[trigger]
        is_winning(want, limit, groups) && lacking(hand, want) == n;
    lemma_winning_hand_size(want, limit, groups);
    lemma_lacking_at_most_all(hand, want, 0, 34);
}

/// A hand lacks no more tiles of `want` than `want` holds.
pub proof fn lemma_lacking_at_most_all(hand: Seq<int>, want: Seq<int>, lo: int, hi: int)
    requires
        hand.len() == 34,
        0 <= lo <= hi <= 34,
        forall|i: int| 0 <= i < 34 ==> 0 <= #[trigger] hand[i],
    ensures
        lacking_in(hand, want, lo, hi) <= sum_in(want, lo, hi) || exists|i: int|
            lo <= i < hi && want[i] < 0,
    decreases hi - lo,
{
    if lo < hi {
        lemma_lacking_at_most_all(hand, want, lo + 1, hi);
    }
}

/// What the checks leave is fit for the search: counts of copies, at most
/// four groups demanded, and a winning hand to aim for.
pub proof fn lemma_valid_hand_is_searchable(counts: [u8; 34], melds: MeldSlots, variant: Variant)
    requires
        first_violation(counts, melds, variant) is None,
    ensures
        counts_ok(counts_of(counts), limits_of(melds, variant)),
        0 <= groups_demanded(counts),
        groups_demanded(counts) + present(melds) <= 4,
        has_target(limits_of(melds, variant), groups_demanded(counts)),
        on_the_board(melds),
        forall|i: int| 0 <= i < 34 ==> counts[i] + melded(melds, i) <= 4,
{
    let hand = counts_of(counts);
    let limit = limits_of(melds, variant);
    assert(on_the_board(melds)) by {
        assert forall|s: int| 0 <= s < 4 implies match #[trigger] melds[s] {
            Some(crate::meld::Meld::Sequence(base, _)) => crate::tile::starts_sequence(base as int),
            Some(crate::meld::Meld::Triplet(tile)) => tile < 34,
            Some(crate::meld::Meld::Quad(tile)) => tile < 34,
            None => true,
        } by {
            assert(!slot_has_bad_base(melds[s]));
            assert(!slot_has_forbidden_tile(melds[s], variant));
        }
    }
    assert forall|i: int| 0 <= i < 34 implies counts[i] + melded(melds, i) <= 4 by {
        assert(!(counts[i] + melded(melds, i) > 4));
    }
    assert forall|i: int| 0 <= i < 34 implies 0 <= #[trigger] limit[i] <= 4 by {
        assert(counts[i] + melded(melds, i) <= 4);
    }
    lemma_sum_nonnegative(hand, 0, 34);
    lemma_target_exists(melds, variant, groups_demanded(counts));
}

/// Counts of copies add up to no less than nothing.
pub proof fn lemma_sum_nonnegative(counts: Seq<int>, lo: int, hi: int)
    requires
        0 <= lo <= hi <= counts.len(),
        forall|i: int| lo <= i < hi ==> 0 <= #[trigger] counts[i],
    ensures
        0 <= sum_in(counts, lo, hi),
    decreases hi - lo,
{
    if lo < hi {
        lemma_sum_nonnegative(counts, lo + 1, hi);
    }
}

/// The replacement number of a valid hand is zero exactly when the hand is
/// itself a winning hand, with no tile left over and none missing: the
/// groups demanded of it and a pair, or, for a hand that forms all four
/// groups itself, seven pairs or thirteen orphans.
pub proof fn law_zero_means_won(counts: [u8; 34], melds: MeldSlots, variant: Variant)
    requires
        first_violation(counts, melds, variant) is None,
    ensures
        replacement_number_of(counts, melds, variant) == 0 <==> is_winning(
            counts_of(counts),
            limits_of(melds, variant),
            groups_demanded(counts),
        ),
{
    let hand = counts_of(counts);
    let limit = limits_of(melds, variant);
    let groups = groups_demanded(counts);
    let n = replacement_number_of(counts, melds, variant);
    law_valid_hand_has_number(counts, melds, variant);
    if n == 0 {
        let want = choose|want: Seq<int>| #[trigger]
            is_winning(want, limit, groups) && lacking(hand, want) == n;
        lemma_winning_hand_size(want, limit, groups);
        lemma_lacking_nothing(hand, want, 0, 34);
        lemma_same_tiles(want, hand, 0, 34);
        assert(want =~= hand);
    }
    if is_winning(hand, limit, groups) {
        lemma_lacking_nothing(hand, hand, 0, 34);
    }
}

/// The replacement number of a valid hand is zero exactly when the hand is
/// the groups demanded of it and a pair, with no tile left over and none
/// missing. The one exception are hands of seven pairs or thirteen orphans
/// that cannot be read as four groups and a pair: they have won too.
pub proof fn law_zero_means_groups_and_pair(counts: [u8; 34], melds: MeldSlots, variant: Variant)
    requires
        first_violation(counts, melds, variant) is None,
        groups_demanded(counts) == 4 && (pairs_goal(counts_of(counts), limits_of(melds, variant))
            || orphans_goal(counts_of(counts), limits_of(melds, variant))) ==> standard_goal(
            counts_of(counts),
            limits_of(melds, variant),
            groups_demanded(counts),
        ),
    ensures
        replacement_number_of(counts, melds, variant) == 0 <==> standard_goal(
            counts_of(counts),
            limits_of(melds, variant),
            groups_demanded(counts),
        ),
{
    law_zero_means_won(counts, melds, variant);
}

/// A hand that is one tile short of its groups and a pair has not won.
pub proof fn law_short_hand_has_not_won(counts: [u8; 34], melds: MeldSlots, variant: Variant)
    requires
        first_violation(counts, melds, variant) is None,
        tiles_held(counts) % 3 == 1,
    ensures
        replacement_number_of(counts, melds, variant) >= 1,
{
    law_valid_hand_has_number(counts, melds, variant);
    law_zero_means_won(counts, melds, variant);
    if is_winning(counts_of(counts), limits_of(melds, variant), groups_demanded(counts)) {
        lemma_winning_hand_size(
            counts_of(counts),
            limits_of(melds, variant),
            groups_demanded(counts),
        );
    }
}

/// A hand lacks at most one tile less when it holds one more.
pub proof fn lemma_lacking_falls_by_one(hand: Seq<int>, want: Seq<int>, t: int, lo: int, hi: int)
    requires
        hand.len() == 34,
        0 <= t < 34,
        0 <= lo <= hi <= 34,
    ensures
        lacking_in(hand, want, lo, hi) <= lacking_in(with_one_more(hand, t), want, lo, hi) + 1,
        !(lo <= t < hi) ==> lacking_in(hand, want, lo, hi) == lacking_in(
            with_one_more(hand, t),
            want,
            lo,
            hi,
        ),
    decreases hi - lo,
{
    if lo < hi {
        lemma_lacking_falls_by_one(hand, want, t, lo + 1, hi);
    }
}

/// One more tile in the hand never raises the number of tiles missing,
/// and lowers it by one at most.
pub proof fn lemma_one_more_never_hurts(
    hand: Seq<int>,
    limit: Seq<int>,
    groups: int,
    t: int,
    n: int,
    m: int,
)
    requires
        hand.len() == 34,
        0 <= t < 34,
        is_least_missing(hand, limit, groups, n),
        is_least_missing(with_one_more(hand, t), limit, groups, m),
    ensures
        n - 1 <= m <= n,
{
    let want = choose|want: Seq<int>| #[trigger]
        is_winning(want, limit, groups) && lacking(hand, want) == n;
    lemma_lacking_falls(hand, with_one_more(hand, t), want, 0, 34);
    let near = choose|want: Seq<int>| #[trigger]
        is_winning(want, limit, groups) && lacking(with_one_more(hand, t), want) == m;
    lemma_lacking_falls_by_one(hand, near, t, 0, 34);
}

/// Drawing a tile never raises the replacement number: where a valid hand
/// stays valid with one more copy of a tile, its replacement number is no
/// greater than before, and less by one at most.
pub proof fn law_drawing_never_hurts(
    counts: [u8; 34],
    more: [u8; 34],
    melds: MeldSlots,
    variant: Variant,
    t: int,
)
    requires
        0 <= t < 34,
        counts[t] < 4,
        more[t] == counts[t] + 1,
        forall|i: int| 0 <= i < 34 && i != t ==> more[i] == counts[i],
        first_violation(counts, melds, variant) is None,
        first_violation(more, melds, variant) is None,
    ensures
        groups_demanded(more) == groups_demanded(counts),
        replacement_number_of(counts, melds, variant) - 1 <= replacement_number_of(
            more,
            melds,
            variant,
        ) <= replacement_number_of(counts, melds, variant),
{
    let hand = counts_of(counts);
    assert(counts_of(more) =~= with_one_more(hand, t));
    lemma_sum_of_one_more(hand, t, 0);
    law_valid_hand_has_number(counts, melds, variant);
    law_valid_hand_has_number(more, melds, variant);
    lemma_one_more_never_hurts(
        hand,
        limits_of(melds, variant),
        groups_demanded(counts),
        t,
        replacement_number_of(counts, melds, variant),
        replacement_number_of(more, melds, variant),
    );
}

/// The two sets of tiles are two sides of one difference: a tile is
/// necessary to a hand exactly when the hand, having drawn it, cannot let
/// it go again without falling back.
pub proof fn law_necessary_means_kept(counts: [u8; 34], more: [u8; 34], variant: Variant, t: int)
    requires
        0 <= t < 34,
        counts[t] < 4,
        in_play(variant, t),
        more[t] == counts[t] + 1,
        forall|i: int| 0 <= i < 34 && i != t ==> more[i] == counts[i],
        first_violation(counts, no_melds(), variant) is None,
        first_violation(more, no_melds(), variant) is None,
    ensures
        is_necessary(counts, variant, t) <==> !is_unnecessary(more, variant, t),
{
    let hand = counts_of(counts);
    law_drawing_never_hurts(counts, more, no_melds(), variant, t);
    assert(counts_of(more) =~= with_one_more(hand, t));
    assert(with_one_less(counts_of(more), t) =~= hand);
}

/// A tile held four times is never necessary, and a tile not held is never
/// unnecessary.
pub proof fn law_flags_at_the_bounds(counts: [u8; 34], variant: Variant, t: int)
    requires
        0 <= t < 34,
    ensures
        counts[t] >= 4 ==> !is_necessary(counts, variant, t),
        counts[t] == 0 ==> !is_unnecessary(counts, variant, t),
        !in_play(variant, t) ==> !is_necessary(counts, variant, t),
{
}

/// One more copy of a tile is one more tile.
pub proof fn lemma_sum_of_one_more(hand: Seq<int>, t: int, lo: int)
    requires
        hand.len() == 34,
        0 <= t < 34,
        0 <= lo <= 34,
    ensures
        sum_in(with_one_more(hand, t), lo, 34) == sum_in(hand, lo, 34) + (if lo <= t {
            1int
        } else {
            0int
        }),
    decreases 34 - lo,
{
    if lo < 34 {
        lemma_sum_of_one_more(hand, t, lo + 1);
    }
}

/// Tighter limits never lower the number of tiles missing.
pub proof fn lemma_tighter_limits_never_help(
    hand: Seq<int>,
    loose: Seq<int>,
    tight: Seq<int>,
    groups: int,
    n: int,
    m: int,
)
    requires
        loose.len() == 34,
        tight.len() == 34,
        forall|i: int| 0 <= i < 34 ==> tight[i] <= loose[i],
        is_least_missing(hand, loose, groups, n),
        is_least_missing(hand, tight, groups, m),
    ensures
        n <= m,
{
    let want = choose|want: Seq<int>| #[trigger]
        is_winning(want, tight, groups) && lacking(hand, want) == m;
    if standard_goal(want, tight, groups) {
        let shape = choose|shape: Shape| #[trigger]
            is_target(shape, tight, groups) && want == tiles_of_shape(shape);
        assert forall|i: int| 0 <= i < 34 implies #[trigger] block_fits(shape, loose, i) by {
            assert(block_fits(shape, tight, i));
        }
        assert(is_target(shape, loose, groups));
    }
    assert(is_winning(want, loose, groups));
}

/// A group that is left untold counts as the best group that could be
/// told: declaring a meld in an empty slot never lowers the replacement
/// number. A hand that is valid with the meld is valid without it.
pub proof fn law_declared_meld_never_helps(
    counts: [u8; 34],
    melds: MeldSlots,
    fuller: MeldSlots,
    variant: Variant,
    s: int,
)
    requires
        0 <= s < 4,
        melds[s] is None,
        fuller[s] is Some,
        forall|k: int| 0 <= k < 4 && k != s ==> melds[k] == fuller[k],
        first_violation(counts, fuller, variant) is None,
    ensures
        first_violation(counts, melds, variant) is None,
        replacement_number_of(counts, melds, variant) <= replacement_number_of(
            counts,
            fuller,
            variant,
        ),
{
    assert(!any_sequence(melds) || variant != Variant::Three) by {
        if any_sequence(melds) {
            let k = choose|k: int| 0 <= k < 4 && slot_is_sequence(#[trigger] melds[k]);
            assert(slot_is_sequence(fuller[k]));
        }
    }
    assert(!any_bad_base(melds)) by {
        if any_bad_base(melds) {
            let k = choose|k: int| 0 <= k < 4 && slot_has_bad_base(#[trigger] melds[k]);
            assert(slot_has_bad_base(fuller[k]));
        }
    }
    assert(!any_forbidden_tile(melds, variant)) by {
        if any_forbidden_tile(melds, variant) {
            let k = choose|k: int|
                0 <= k < 4 && slot_has_forbidden_tile(#[trigger] melds[k], variant);
            assert(slot_has_forbidden_tile(fuller[k], variant));
        }
    }
    // Name the four slots, so that what holds of every slot is known of each.
    assert(melds[0] == melds[0] && melds[1] == melds[1] && melds[2] == melds[2] && melds[3]
        == melds[3]);
    assert forall|i: int| 0 <= i < 34 implies melded(melds, i) <= melded(fuller, i) by {}
    assert(!copies_too_many(counts, melds)) by {
        if copies_too_many(counts, melds) {
            let i = choose|i: int| 0 <= i < 34 && #[trigger] counts[i] + melded(melds, i) > 4;
            assert(counts[i] + melded(fuller, i) > 4);
        }
    }
    assert(present(melds) <= present(fuller));
    assert(first_violation(counts, melds, variant) is None);
    law_valid_hand_has_number(counts, melds, variant);
    law_valid_hand_has_number(counts, fuller, variant);
    let loose = limits_of(melds, variant);
    let tight = limits_of(fuller, variant);
    assert forall|i: int| 0 <= i < 34 implies tight[i] <= loose[i] by {
        assert(melded(melds, i) <= melded(fuller, i));
    }
    lemma_tighter_limits_never_help(
        counts_of(counts),
        loose,
        tight,
        groups_demanded(counts),
        replacement_number_of(counts, melds, variant),
        replacement_number_of(counts, fuller, variant),
    );
}

/// The slots with slot `s` filled by `meld`.
pub open spec fn with_meld(melds: MeldSlots, s: int, meld: Meld) -> MeldSlots {
    [
        if s == 0 {
            Some(meld)
        } else {
            melds[0]
        },
        if s == 1 {
            Some(meld)
        } else {
            melds[1]
        },
        if s == 2 {
            Some(meld)
        } else {
            melds[2]
        },
        if s == 3 {
            Some(meld)
        } else {
            melds[3]
        },
    ]
}

/// A group that is left untold counts as the best group that could be
/// told, no better and no worse: where the hand and its melds leave a group
/// untold, a triplet of some tile can be declared in an empty slot and the
/// hand stays valid with the same replacement number.
pub proof fn law_untold_meld_is_the_best(
    counts: [u8; 34],
    melds: MeldSlots,
    variant: Variant,
    s: int,
) -> (tile: u8)
    requires
        0 <= s < 4,
        melds[s] is None,
        first_violation(counts, melds, variant) is None,
        groups_demanded(counts) + present(melds) < 4,
    ensures
        tile < 34,
        first_violation(counts, with_meld(melds, s, Meld::Triplet(tile)), variant) is None,
        replacement_number_of(counts, with_meld(melds, s, Meld::Triplet(tile)), variant)
            == replacement_number_of(counts, melds, variant),
{
    let hand = counts_of(counts);
    let loose = limits_of(melds, variant);
    let groups = groups_demanded(counts);
    let n = replacement_number_of(counts, melds, variant);
    law_valid_hand_has_number(counts, melds, variant);
    lemma_valid_hand_is_searchable(counts, melds, variant);
    let want = choose|want: Seq<int>| #[trigger]
        is_winning(want, loose, groups) && lacking(hand, want) == n;
    let shape = choose|shape: Shape| #[trigger]
        is_target(shape, loose, groups) && want == tiles_of_shape(shape);
    lemma_winning_hand_size(want, loose, groups);
    let j = lemma_idle_tile(hand, want, melds, variant, groups);
    let tile = j as u8;
    let fuller = with_meld(melds, s, Meld::Triplet(tile));
    assert(fuller[s] == Some(Meld::Triplet(tile)));
    assert forall|k: int| 0 <= k < 4 && k != s implies fuller[k] == melds[k] by {}
    // Name the four slots, so that what holds of every slot is known of each.
    assert(melds[0] == melds[0] && melds[1] == melds[1] && melds[2] == melds[2] && melds[3]
        == melds[3]);
    assert forall|i: int| 0 <= i < 34 implies melded(fuller, i) == melded(melds, i) + if i == j {
        3int
    } else {
        0int
    } by {}
    assert(present(fuller) == present(melds) + 1);
    assert(!any_sequence(fuller) || variant != Variant::Three) by {
        if any_sequence(fuller) {
            let k = choose|k: int| 0 <= k < 4 && slot_is_sequence(#[trigger] fuller[k]);
            assert(slot_is_sequence(melds[k]));
        }
    }
    assert(!any_bad_base(fuller)) by {
        if any_bad_base(fuller) {
            let k = choose|k: int| 0 <= k < 4 && slot_has_bad_base(#[trigger] fuller[k]);
            assert(slot_has_bad_base(melds[k]));
        }
    }
    assert(!any_forbidden_tile(fuller, variant)) by {
        if any_forbidden_tile(fuller, variant) {
            let k = choose|k: int|
                0 <= k < 4 && slot_has_forbidden_tile(#[trigger] fuller[k], variant);
            if k != s {
                assert(slot_has_forbidden_tile(melds[k], variant));
            }
        }
    }
    assert(!copies_too_many(counts, fuller)) by {
        if copies_too_many(counts, fuller) {
            let i = choose|i: int| 0 <= i < 34 && #[trigger] counts[i] + melded(fuller, i) > 4;
            assert(counts[i] + melded(melds, i) <= 4);
            assert(hand[j] == counts[j] as int);
        }
    }
    assert(first_violation(counts, fuller, variant) is None);
    let tight = limits_of(fuller, variant);
    assert forall|i: int| 0 <= i < 34 implies #[trigger] block_fits(shape, tight, i) by {
        assert(block_fits(shape, loose, i));
        assert(want[i] == tiles_at(shape, i));
    }
    assert(is_target(shape, tight, groups));
    assert(is_winning(want, tight, groups));
    law_valid_hand_has_number(counts, fuller, variant);
    law_declared_meld_never_helps(counts, melds, fuller, variant, s);
    tile
}

} // verus!
