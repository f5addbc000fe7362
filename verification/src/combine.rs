//! Putting the suits together.
//!
//! The groups and the pair of a hand are dealt out over the four suits.
//! What a hand lacks is what its suits lack, so the nearest hand of groups
//! and a pair is found by trying every way of dealing them out and adding
//! up what each suit lacks for its share.

use vstd::prelude::*;
use crate::tile::{counts_of, sum_in};
use crate::shape::{
    Shape, sequences_at, tiles_at, groups_in, pairs_in, missing_in, block_fits, fits,
    is_target, tiles_of_shape,
};
use crate::win::{lacking_in, lacking, standard_goal, nearest_standard};
use crate::search::{
    UNREACHABLE, CHOICES, counts_ok, least, empty_shape, lemma_least_in_range,
    lemma_least_is_lower_bound, lemma_least_is_reached, lemma_missing_bounded,
    lemma_blocks_nonnegative,
};
use crate::suit::{
    SuitTable, suit_start, suit_of, is_part, missing_in_suit, nearest_in_suit, suit_table,
};

verus! {

/// Number of shares that a suit can be given: up to four groups, with or
/// without the pair.
pub const SHARES: usize = 10;

/// A share for every suit: `ms[s]` groups and `ps[s]` pairs for suit `s`.
pub open spec fn shares_ok(ms: Seq<int>, ps: Seq<int>) -> bool {
    &&& ms.len() == 4
    &&& ps.len() == 4
    &&& forall|s: int| 0 <= s < 4 ==> 0 <= #[trigger] ms[s] <= 4
    &&& forall|s: int| 0 <= s < 4 ==> 0 <= #[trigger] ps[s] <= 1
}

/// The shares deal out `groups` groups and one pair.
pub open spec fn is_split(ms: Seq<int>, ps: Seq<int>, groups: int) -> bool {
    &&& shares_ok(ms, ps)
    &&& sum_in(ms, 0, 4) == groups
    &&& sum_in(ps, 0, 4) == 1
}

/// What the suits from `s` on lack for their shares together;
/// `UNREACHABLE` where one of them cannot hold its share.
pub open spec fn cost_from(tables: [SuitTable; 4], ms: Seq<int>, ps: Seq<int>, s: int) -> int
    decreases 4 - s,
{
    if s >= 4 {
        0
    } else {
        let here: int = tables[s].entry(ms[s], ps[s]);
        let rest: int = cost_from(tables, ms, ps, s + 1);
        if here < 255 && rest < 255 {
            here + rest
        } else {
            255
        }
    }
}

/// `n` is the least that the suits lack together over all ways of dealing
/// out `groups` groups and one pair; `UNREACHABLE` where no way is possible.
pub open spec fn least_split(tables: [SuitTable; 4], groups: int, n: int) -> bool {
    &&& 0 <= n <= 255
    &&& n < 255 ==> exists|ms: Seq<int>, ps: Seq<int>| #[trigger]
        is_split(ms, ps, groups) && cost_from(tables, ms, ps, 0) == n
    &&& forall|ms: Seq<int>, ps: Seq<int>| #[trigger]
        is_split(ms, ps, groups) ==> n <= cost_from(tables, ms, ps, 0)
}

/// Every table holds numbers of tiles of one suit.
pub open spec fn all_bounded(tables: [SuitTable; 4]) -> bool {
    forall|s: int| 0 <= s < 4 ==> (#[trigger] tables[s]).bounded()
}

/// What suit `s` and the suits after it lack where suit `s` is given share
/// `code`, and `next` is what the suits after it lack for the rest.
pub open spec fn share_value(table: SuitTable, m: int, p: int, code: int, next: int) -> int {
    let here: int = table.entry(code / 2, code % 2);
    if code / 2 <= m && code % 2 <= p && here < 255 && next < 255 {
        here + next
    } else {
        255
    }
}

/// The least that the suits from `s` on lack for `m` groups and `p` pairs,
/// trying the first `n` shares for suit `s`.
pub open spec fn joined_from(tables: [SuitTable; 4], s: int, m: int, p: int, n: int) -> int
    decreases 4 - s, n,
{
    if s >= 4 {
        if m == 0 && p == 0 {
            0
        } else {
            255
        }
    } else if n <= 0 {
        255
    } else {
        let code: int = n - 1;
        let rest: int = joined_from(tables, s, m, p, n - 1);
        let next: int = joined_from(tables, s + 1, m - code / 2, p - code % 2, SHARES as int);
        let value: int = share_value(tables[s], m, p, code, next);
        if value < rest {
            value
        } else {
            rest
        }
    }
}

/// The least that the suits from `s` on lack for `m` groups and `p` pairs.
pub open spec fn joined(tables: [SuitTable; 4], s: int, m: int, p: int) -> int {
    joined_from(tables, s, m, p, SHARES as int)
}

/// What follows share `code` for suit `s`.
pub open spec fn after_share(tables: [SuitTable; 4], s: int, m: int, p: int, code: int) -> int {
    joined(tables, s + 1, m - code / 2, p - code % 2)
}

/// Joining gives a number of tiles or the greatest byte.
proof fn lemma_joined_in_range(tables: [SuitTable; 4], s: int, m: int, p: int, n: int)
    requires
        0 <= s,
    ensures
        0 <= joined_from(tables, s, m, p, n) <= 255,
    decreases 4 - s, n,
{
    if s < 4 && n > 0 {
        let code: int = n - 1;
        lemma_joined_in_range(tables, s, m, p, n - 1);
        lemma_joined_in_range(tables, s + 1, m - code / 2, p - code % 2, SHARES as int);
    }
}

/// Each share tried bounds the least.
proof fn lemma_joined_below_share(tables: [SuitTable; 4], s: int, m: int, p: int, n: int, code: int)
    requires
        0 <= s < 4,
        0 <= code < n,
    ensures
        joined_from(tables, s, m, p, n) <= share_value(
            tables[s],
            m,
            p,
            code,
            after_share(tables, s, m, p, code),
        ),
    decreases n,
{
    if code < n - 1 {
        lemma_joined_below_share(tables, s, m, p, n - 1, code);
    }
}

/// Where the least is a number of tiles, one of the shares tried gives it.
proof fn lemma_joined_is_a_share(
    tables: [SuitTable; 4],
    s: int,
    m: int,
    p: int,
    n: int,
) -> (code: int)
    requires
        0 <= s < 4,
        joined_from(tables, s, m, p, n) < 255,
    ensures
        0 <= code < n,
        joined_from(tables, s, m, p, n) == share_value(
            tables[s],
            m,
            p,
            code,
            after_share(tables, s, m, p, code),
        ),
    decreases n,
{
    let value = share_value(tables[s], m, p, n - 1, after_share(tables, s, m, p, n - 1));
    let rest = joined_from(tables, s, m, p, n - 1);
    if value < rest {
        n - 1
    } else {
        lemma_joined_is_a_share(tables, s, m, p, n - 1)
    }
}

/// Shares add up to no less than nothing.
proof fn lemma_shares_nonnegative(ms: Seq<int>, ps: Seq<int>, s: int)
    requires
        shares_ok(ms, ps),
        0 <= s <= 4,
    ensures
        0 <= sum_in(ms, s, 4) <= 4 * (4 - s),
        0 <= sum_in(ps, s, 4) <= 4 - s,
    decreases 4 - s,
{
    if s < 4 {
        lemma_shares_nonnegative(ms, ps, s + 1);
    }
}

/// No way of dealing out costs less than joining says.
proof fn lemma_joined_below_split(tables: [SuitTable; 4], ms: Seq<int>, ps: Seq<int>, s: int)
    requires
        shares_ok(ms, ps),
        0 <= s <= 4,
    ensures
        joined(tables, s, sum_in(ms, s, 4), sum_in(ps, s, 4)) <= cost_from(tables, ms, ps, s),
        0 <= cost_from(tables, ms, ps, s) || exists|k: int| s <= k < 4 && tables[k].entry(ms[k], ps[k]) < 0,
    decreases 4 - s,
{
    if s < 4 {
        let m = sum_in(ms, s, 4);
        let p = sum_in(ps, s, 4);
        lemma_joined_below_split(tables, ms, ps, s + 1);
        lemma_shares_nonnegative(ms, ps, s + 1);
        lemma_joined_in_range(tables, s, m, p, SHARES as int);
        let code = 2 * ms[s] + ps[s];
        assert(code / 2 == ms[s] && code % 2 == ps[s]);
        lemma_joined_below_share(tables, s, m, p, SHARES as int, code);
    }
}

/// Where joining finds a number of tiles, some way of dealing out from
/// suit `s` on costs that much.
proof fn lemma_joined_is_reached(
    tables: [SuitTable; 4],
    ms: Seq<int>,
    ps: Seq<int>,
    s: int,
    m: int,
    p: int,
) -> (out: (Seq<int>, Seq<int>))
    requires
        ms.len() == 4,
        ps.len() == 4,
        0 <= s <= 4,
        joined(tables, s, m, p) < 255,
    ensures
        out.0.len() == 4,
        out.1.len() == 4,
        forall|k: int| 0 <= k < s ==> #[trigger] out.0[k] == ms[k],
        forall|k: int| 0 <= k < s ==> #[trigger] out.1[k] == ps[k],
        forall|k: int| s <= k < 4 ==> 0 <= #[trigger] out.0[k] <= 4,
        forall|k: int| s <= k < 4 ==> 0 <= #[trigger] out.1[k] <= 1,
        sum_in(out.0, s, 4) == m,
        sum_in(out.1, s, 4) == p,
        cost_from(tables, out.0, out.1, s) == joined(tables, s, m, p),
    decreases 4 - s,
{
    if s >= 4 {
        (ms, ps)
    } else {
        let code = lemma_joined_is_a_share(tables, s, m, p, SHARES as int);
        let out = lemma_joined_is_reached(
            tables,
            ms.update(s, code / 2),
            ps.update(s, code % 2),
            s + 1,
            m - code / 2,
            p - code % 2,
        );
        assert(out.0[s] == code / 2 && out.1[s] == code % 2);
        out
    }
}

/// Joining from the first suit on gives the least over all ways of dealing out.
pub proof fn lemma_joined_is_exact(tables: [SuitTable; 4], groups: int)
    ensures
        least_split(tables, groups, joined(tables, 0, groups, 1)),
{
    let n = joined(tables, 0, groups, 1);
    lemma_joined_in_range(tables, 0, groups, 1, SHARES as int);
    assert forall|ms: Seq<int>, ps: Seq<int>| #[trigger] is_split(ms, ps, groups) implies n
        <= cost_from(tables, ms, ps, 0) by {
        lemma_joined_below_split(tables, ms, ps, 0);
    }
    if n < 255 {
        let zeros = Seq::new(4, |k: int| 0int);
        let out = lemma_joined_is_reached(tables, zeros, zeros, 0, groups, 1);
        assert(is_split(out.0, out.1, groups));
    }
}

/// Joins the suits: the least that they lack together over all ways of
/// dealing out `groups` groups and one pair among them. `UNREACHABLE` where
/// no way is possible.
pub fn combine(tables: &[SuitTable; 4], groups: u8) -> (n: u8)
    requires
        all_bounded(*tables),
        groups <= 4,
    ensures
        least_split(*tables, groups as int, n as int),
{
    let mut acc: [u8; 10] = [UNREACHABLE; 10];
    acc[0] = 0;
    assert forall|k: int| 0 <= k < 10 implies (#[trigger] acc[k]) as int == joined(
        *tables,
        4,
        k / 2,
        k % 2,
    ) by {}
    let mut s: usize = 4;
    while s > 0
        invariant
            s <= 4,
            all_bounded(*tables),
            forall|k: int|
                0 <= k < 10
                    ==> (#[trigger] acc[k]) as int == joined(*tables, s as int, k / 2, k % 2),
            forall|k: int| 0 <= k < 10 ==> (#[trigger] acc[k]) == 255 || acc[k] <= 36 * (4 - s),
        decreases s,
    {
        s = s - 1;
        let table: SuitTable = tables[s];
        assert(table.bounded());
        let mut fresh: [u8; 10] = [UNREACHABLE; 10];
        let mut k: usize = 0;
        while k < 10
            invariant
                k <= 10,
                s < 4,
                table == tables[s as int],
                table.bounded(),
                forall|j: int|
                    0 <= j < 10
                        ==> (#[trigger] acc[j]) as int == joined(*tables, s + 1, j / 2, j % 2),
                forall|j: int| 0 <= j < 10 ==> (#[trigger] acc[j]) == 255 || acc[j] <= 36 * (3 - s),
                forall|j: int|
                    0 <= j < k
                        ==> (#[trigger] fresh[j]) as int == joined(*tables, s as int, j / 2, j % 2),
                forall|j: int|
                    0 <= j < k ==> (#[trigger] fresh[j]) == 255 || fresh[j] <= 36 * (4 - s),
            decreases 10 - k,
        {
            let m: u8 = (k / 2) as u8;
            let p: u8 = (k % 2) as u8;
            let mut best: u8 = UNREACHABLE;
            let mut code: u8 = 0;
            while code < 10
                invariant
                    code <= 10,
                    s < 4,
                    m <= 4,
                    p <= 1,
                    table == tables[s as int],
                    table.bounded(),
                    forall|j: int|
                        0 <= j < 10
                            ==> (#[trigger] acc[j]) as int == joined(*tables, s + 1, j / 2, j % 2),
                    forall|j: int|
                        0 <= j < 10 ==> (#[trigger] acc[j]) == 255 || acc[j] <= 36 * (3 - s),
                    best as int == joined_from(*tables, s as int, m as int, p as int, code as int),
                    best == 255 || best <= 36 * (4 - s),
                decreases 10 - code,
            {
                let dm: u8 = code / 2;
                let dp: u8 = code % 2;
                let here: u8 = table.get(dm, dp);
                assert(table.entry(dm as int, dp as int) == 255 || table.entry(dm as int, dp as int) <= 36);
                if dm <= m && dp <= p && here < UNREACHABLE {
                    let j: usize = (2 * (m - dm) + (p - dp)) as usize;
                    let next: u8 = acc[j];
                    assert(j as int / 2 == m - dm && j as int % 2 == p - dp);
                    assert(next as int == after_share(*tables, s as int, m as int, p as int, code as int));
                    if next < UNREACHABLE {
                        let value: u8 = here + next;
                        if value < best {
                            best = value;
                        }
                    }
                }
                code = code + 1;
            }
            fresh[k] = best;
            k = k + 1;
        }
        acc = fresh;
    }
    proof {
        lemma_joined_is_exact(*tables, groups as int);
    }
    acc[(2 * groups + 1) as usize]
}

/// The groups, the pairs and the missing tiles of a stretch of tiles are
/// those of its two parts together.
pub proof fn lemma_parts_add_up(hand: Seq<int>, shape: Shape, lo: int, mid: int, hi: int)
    requires
        lo <= mid <= hi,
    ensures
        groups_in(shape, lo, hi) == groups_in(shape, lo, mid) + groups_in(shape, mid, hi),
        pairs_in(shape, lo, hi) == pairs_in(shape, lo, mid) + pairs_in(shape, mid, hi),
        missing_in(hand, shape, lo, hi) == missing_in(hand, shape, lo, mid) + missing_in(
            hand,
            shape,
            mid,
            hi,
        ),
    decreases mid - lo,
{
    if lo < mid {
        lemma_parts_add_up(hand, shape, lo + 1, mid, hi);
    }
}

/// Two shapes with the same blocks over a stretch of tiles, and the same
/// runs reaching into it, are alike there.
pub proof fn lemma_same_blocks(
    hand: Seq<int>,
    limit: Seq<int>,
    one: Shape,
    other: Shape,
    lo: int,
    hi: int,
)
    requires
        one.len() == 34,
        other.len() == 34,
        0 <= lo <= hi <= 34,
        forall|j: int| lo <= j < hi ==> one[j] == other[j],
        sequences_at(one, lo - 1) == sequences_at(other, lo - 1),
        sequences_at(one, lo - 2) == sequences_at(other, lo - 2),
    ensures
        forall|j: int| lo <= j < hi ==> block_fits(one, limit, j) == block_fits(other, limit, j),
        groups_in(one, lo, hi) == groups_in(other, lo, hi),
        pairs_in(one, lo, hi) == pairs_in(other, lo, hi),
        missing_in(hand, one, lo, hi) == missing_in(hand, other, lo, hi),
    decreases hi - lo,
{
    if lo < hi {
        assert(one[lo] == other[lo]);
        assert(tiles_at(one, lo) == tiles_at(other, lo));
        if lo + 1 < hi {
            assert(one[lo + 1] == other[lo + 1]);
        }
        lemma_same_blocks(hand, limit, one, other, lo + 1, hi);
        assert forall|j: int| lo <= j < hi implies block_fits(one, limit, j) == block_fits(
            other,
            limit,
            j,
        ) by {
            if j > lo {
                assert(lo + 1 <= j < hi);
            }
        }
    }
}

/// The shares that a shape gives to the suits.
pub open spec fn groups_by_suit(shape: Shape) -> Seq<int> {
    Seq::new(4, |s: int| groups_in(shape, suit_start(s), suit_start(s + 1)))
}

/// The pairs that a shape gives to the suits.
pub open spec fn pairs_by_suit(shape: Shape) -> Seq<int> {
    Seq::new(4, |s: int| pairs_in(shape, suit_start(s), suit_start(s + 1)))
}

/// A shape of groups and a pair deals them out over the suits, and lacks
/// in all what it lacks suit by suit.
proof fn lemma_shape_splits(hand: Seq<int>, limit: Seq<int>, shape: Shape, groups: int)
    requires
        counts_ok(hand, limit),
        is_target(shape, limit, groups),
        groups <= 4,
    ensures
        is_split(groups_by_suit(shape), pairs_by_suit(shape), groups),
        forall|s: int|
            0 <= s < 4 ==> #[trigger] is_part(
                shape,
                limit,
                s,
                groups_by_suit(shape)[s],
                pairs_by_suit(shape)[s],
            ),
        missing_in(hand, shape, 0, 34) == missing_in_suit(hand, shape, 0) + missing_in_suit(
            hand,
            shape,
            1,
        ) + missing_in_suit(hand, shape, 2) + missing_in_suit(hand, shape, 3),
{
    let ms = groups_by_suit(shape);
    let ps = pairs_by_suit(shape);
    lemma_parts_add_up(hand, shape, 0, 9, 34);
    lemma_parts_add_up(hand, shape, 9, 18, 34);
    lemma_parts_add_up(hand, shape, 18, 27, 34);
    lemma_blocks_nonnegative(shape, 0, 9);
    lemma_blocks_nonnegative(shape, 9, 18);
    lemma_blocks_nonnegative(shape, 18, 27);
    lemma_blocks_nonnegative(shape, 27, 34);
    reveal_with_fuel(sum_in, 5);
    assert(sum_in(ms, 0, 4) == ms[0] + ms[1] + ms[2] + ms[3]);
    assert(sum_in(ps, 0, 4) == ps[0] + ps[1] + ps[2] + ps[3]);
    assert(block_fits(shape, limit, 7));
    assert(block_fits(shape, limit, 8));
    assert(block_fits(shape, limit, 16));
    assert(block_fits(shape, limit, 17));
    assert(block_fits(shape, limit, 25));
    assert(block_fits(shape, limit, 26));
    assert forall|s: int| 0 <= s < 4 implies #[trigger] is_part(shape, limit, s, ms[s], ps[s]) by {
        assert forall|i: int| suit_start(s) <= i < suit_start(s + 1) implies #[trigger] block_fits(
            shape,
            limit,
            i,
        ) by {}
    }
}

/// The shape that takes the blocks of each suit from the shape for that suit.
pub open spec fn glued(parts: Seq<Shape>) -> Shape {
    Seq::new(34, |i: int| parts[suit_of(i)][i])
}

/// Shapes for the four suits, put together, are one shape that holds the
/// groups and pairs of all and lacks what they lack together.
proof fn lemma_glue(hand: Seq<int>, limit: Seq<int>, parts: Seq<Shape>, ms: Seq<int>, ps: Seq<int>)
    requires
        parts.len() == 4,
        ms.len() == 4,
        ps.len() == 4,
        forall|s: int| 0 <= s < 4 ==> #[trigger] is_part(parts[s], limit, s, ms[s], ps[s]),
    ensures
        fits(glued(parts), limit),
        groups_in(glued(parts), 0, 34) == sum_in(ms, 0, 4),
        pairs_in(glued(parts), 0, 34) == sum_in(ps, 0, 4),
        missing_in(hand, glued(parts), 0, 34) == missing_in_suit(hand, parts[0], 0)
            + missing_in_suit(hand, parts[1], 1) + missing_in_suit(hand, parts[2], 2)
            + missing_in_suit(hand, parts[3], 3),
{
    let whole = glued(parts);
    assert(is_part(parts[0], limit, 0, ms[0], ps[0]));
    assert(is_part(parts[1], limit, 1, ms[1], ps[1]));
    assert(is_part(parts[2], limit, 2, ms[2], ps[2]));
    assert(is_part(parts[3], limit, 3, ms[3], ps[3]));
    assert(block_fits(parts[0], limit, 7) && block_fits(parts[0], limit, 8));
    assert(block_fits(parts[1], limit, 16) && block_fits(parts[1], limit, 17));
    assert(block_fits(parts[2], limit, 25) && block_fits(parts[2], limit, 26));
    assert(whole[7] == parts[0][7] && whole[8] == parts[0][8]);
    assert(whole[16] == parts[1][16] && whole[17] == parts[1][17]);
    assert(whole[25] == parts[2][25] && whole[26] == parts[2][26]);
    lemma_same_blocks(hand, limit, whole, parts[0], 0, 9);
    lemma_same_blocks(hand, limit, whole, parts[1], 9, 18);
    lemma_same_blocks(hand, limit, whole, parts[2], 18, 27);
    lemma_same_blocks(hand, limit, whole, parts[3], 27, 34);
    lemma_parts_add_up(hand, whole, 0, 9, 34);
    lemma_parts_add_up(hand, whole, 9, 18, 34);
    lemma_parts_add_up(hand, whole, 18, 27, 34);
    reveal_with_fuel(sum_in, 5);
    assert forall|i: int| 0 <= i < 34 implies #[trigger] block_fits(whole, limit, i) by {
        let s = suit_of(i);
        assert(suit_start(s) <= i < suit_start(s + 1));
        assert(block_fits(parts[s], limit, i));
    }
}

/// What the hand lacks to be a shape is what it lacks of the shape's tiles.
pub proof fn lemma_missing_is_lacking(hand: Seq<int>, shape: Shape, lo: int, hi: int)
    requires
        0 <= lo <= hi <= 34,
    ensures
        lacking_in(hand, tiles_of_shape(shape), lo, hi) == missing_in(hand, shape, lo, hi),
    decreases hi - lo,
{
    if lo < hi {
        lemma_missing_is_lacking(hand, shape, lo + 1, hi);
    }
}

/// A shape for suit `s` with `m` groups and `p` pairs that lacks what the
/// table says, where there is one.
pub open spec fn nearest_part(
    hand: Seq<int>,
    limit: Seq<int>,
    table: SuitTable,
    s: int,
    m: int,
    p: int,
) -> Shape {
    choose|shape: Shape| #[trigger]
        is_part(shape, limit, s, m, p) && missing_in_suit(hand, shape, s) == table.entry(m, p)
}

/// No shape for a suit lacks less than the suit's table says.
proof fn lemma_entry_below(
    hand: Seq<int>,
    limit: Seq<int>,
    table: SuitTable,
    shape: Shape,
    s: int,
    m: int,
    p: int,
)
    requires
        table.describes(hand, limit, s),
        is_part(shape, limit, s, m, p),
        0 <= m <= 4,
        0 <= p <= 1,
    ensures
        0 <= table.entry(m, p) <= missing_in_suit(hand, shape, s) <= 36,
{
    assert(nearest_in_suit(hand, limit, s, m, p, table.entry(m, p)));
}

/// Where a suit's table holds a number of tiles, some shape for the suit
/// lacks that many.
proof fn lemma_entry_reached(
    hand: Seq<int>,
    limit: Seq<int>,
    table: SuitTable,
    s: int,
    m: int,
    p: int,
)
    requires
        table.describes(hand, limit, s),
        table.entry(m, p) < 255,
        0 <= m <= 4,
        0 <= p <= 1,
    ensures
        is_part(nearest_part(hand, limit, table, s, m, p), limit, s, m, p),
        missing_in_suit(hand, nearest_part(hand, limit, table, s, m, p), s) == table.entry(m, p),
{
    assert(nearest_in_suit(hand, limit, s, m, p, table.entry(m, p)));
}

/// What the suits lack together, joined over all ways of dealing out the
/// groups and the pair, is what the hand lacks to be groups and a pair.
pub proof fn lemma_suits_make_the_hand(
    hand: Seq<int>,
    limit: Seq<int>,
    tables: [SuitTable; 4],
    groups: int,
    n: int,
)
    requires
        counts_ok(hand, limit),
        forall|s: int| 0 <= s < 4 ==> (#[trigger] tables[s]).describes(hand, limit, s),
        0 <= groups <= 4,
        least_split(tables, groups, n),
    ensures
        nearest_standard(hand, limit, groups, n),
{
    assert forall|want: Seq<int>| #[trigger] standard_goal(want, limit, groups) implies n
        <= lacking(hand, want) < 255 by {
        let shape = choose|shape: Shape| #[trigger]
            is_target(shape, limit, groups) && want == tiles_of_shape(shape);
        let ms = groups_by_suit(shape);
        let ps = pairs_by_suit(shape);
        lemma_shape_splits(hand, limit, shape, groups);
        lemma_missing_is_lacking(hand, shape, 0, 34);
        assert(is_split(ms, ps, groups));
        lemma_entry_below(hand, limit, tables[0], shape, 0, ms[0], ps[0]);
        lemma_entry_below(hand, limit, tables[1], shape, 1, ms[1], ps[1]);
        lemma_entry_below(hand, limit, tables[2], shape, 2, ms[2], ps[2]);
        lemma_entry_below(hand, limit, tables[3], shape, 3, ms[3], ps[3]);
        reveal_with_fuel(cost_from, 5);
        assert(cost_from(tables, ms, ps, 0) <= missing_in(hand, shape, 0, 34));
    }
    if n < 255 {
        let (ms, ps) = choose|ms: Seq<int>, ps: Seq<int>| #[trigger]
            is_split(ms, ps, groups) && cost_from(tables, ms, ps, 0) == n;
        reveal_with_fuel(cost_from, 5);
        let parts = Seq::new(4, |s: int| nearest_part(hand, limit, tables[s], s, ms[s], ps[s]));
        lemma_entry_reached(hand, limit, tables[0], 0, ms[0], ps[0]);
        lemma_entry_reached(hand, limit, tables[1], 1, ms[1], ps[1]);
        lemma_entry_reached(hand, limit, tables[2], 2, ms[2], ps[2]);
        lemma_entry_reached(hand, limit, tables[3], 3, ms[3], ps[3]);
        lemma_glue(hand, limit, parts, ms, ps);
        let whole = glued(parts);
        assert(is_part(parts[0], limit, 0, ms[0], ps[0]));
        assert(is_part(parts[1], limit, 1, ms[1], ps[1]));
        assert(is_part(parts[2], limit, 2, ms[2], ps[2]));
        assert(is_part(parts[3], limit, 3, ms[3], ps[3]));
        assert(is_target(whole, limit, groups));
        lemma_missing_is_lacking(hand, whole, 0, 34);
        assert(missing_in(hand, whole, 0, 34) == n);
        assert(standard_goal(tiles_of_shape(whole), limit, groups));
    }
}

/// The search over all tile kinds at once gives the least number of tiles
/// that the hand lacks to be groups and a pair, and the greatest byte
/// exactly where no such hand is possible.
pub proof fn lemma_search_is_exact(hand: Seq<int>, limit: Seq<int>, groups: int)
    requires
        counts_ok(hand, limit),
    ensures
        nearest_standard(hand, limit, groups, least(hand, limit, 0, 34, 0, 0, groups, 1)),
{
    let n = least(hand, limit, 0, 34, 0, 0, groups, 1);
    lemma_least_in_range(hand, limit, 0, 34, 0, 0, groups, 1, CHOICES as int);
    assert forall|want: Seq<int>| #[trigger] standard_goal(want, limit, groups) implies n
        <= lacking(hand, want) < 255 by {
        let shape = choose|shape: Shape| #[trigger]
            is_target(shape, limit, groups) && want == tiles_of_shape(shape);
        lemma_least_is_lower_bound(hand, limit, shape, 0, 34);
        lemma_missing_bounded(hand, limit, shape, 0, 34);
        lemma_missing_is_lacking(hand, shape, 0, 34);
    }
    if n < 255 {
        let out = lemma_least_is_reached(hand, limit, empty_shape(), 0, 34, groups, 1);
        assert(is_target(out, limit, groups));
        lemma_missing_is_lacking(hand, out, 0, 34);
        assert(standard_goal(tiles_of_shape(out), limit, groups));
    }
}

/// The tables of the four suits of a hand.
pub fn suit_tables(counts: &[u8; 34], limits: &[u8; 34]) -> (tables: [SuitTable; 4])
    requires
        forall|i: int| 0 <= i < 34 ==> limits[i] <= 4,
    ensures
        all_bounded(tables),
        forall|s: int|
            0 <= s < 4 ==> (#[trigger] tables[s]).describes(
                counts_of(*counts),
                counts_of(*limits),
                s,
            ),
{
    [
        suit_table(counts, limits, 0),
        suit_table(counts, limits, 1),
        suit_table(counts, limits, 2),
        suit_table(counts, limits, 3),
    ]
}

/// The least number of tiles that the hand lacks to be `groups` groups and
/// a pair, where no winning hand may hold more than `limits` of each tile
/// kind. `UNREACHABLE` where no such winning hand exists.
pub fn nearest_groups_and_pair(counts: &[u8; 34], limits: &[u8; 34], groups: u8) -> (n: u8)
    requires
        forall|i: int| 0 <= i < 34 ==> limits[i] <= 4,
        groups <= 4,
    ensures
        nearest_standard(counts_of(*counts), counts_of(*limits), groups as int, n as int),
{
    let tables: [SuitTable; 4] = suit_tables(counts, limits);
    let n: u8 = combine(&tables, groups);
    proof {
        lemma_suits_make_the_hand(
            counts_of(*counts),
            counts_of(*limits),
            tables,
            groups as int,
            n as int,
        );
    }
    n
}

} // verus!
