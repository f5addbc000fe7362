//! The search for the nearest winning hand.
//!
//! The tiles are walked in order. At each tile kind the search chooses how
//! many runs begin there, whether a triplet sits there and whether the pair
//! does. What it must remember is small: the runs begun at the two tiles
//! before, and the groups and the pair that are still to be placed.

use vstd::prelude::*;
use crate::tile::{starts_sequence, can_start_sequence, counts_of};
use crate::shape::{
    Block, Shape, sequences_at, tiles_at, groups_in, pairs_in, excess, missing_in, block_fits,
    fits_in,
};

verus! {

/// Stands for "no possible way".
pub const UNREACHABLE: u8 = 255;

/// Number of choices at one tile kind: up to four runs, with or without a
/// triplet, with or without the pair.
pub const CHOICES: usize = 20;

/// Runs that choice `code` begins.
pub open spec fn runs_of(code: int) -> int {
    code / 4
}

/// Triplets that choice `code` places.
pub open spec fn triplets_of(code: int) -> int {
    (code / 2) % 2
}

/// Pairs that choice `code` places.
pub open spec fn pairs_of(code: int) -> int {
    code % 2
}

/// Tiles of one kind that a choice takes, where `a` and `b` runs began two
/// tiles and one tile before.
pub open spec fn tiles_of(a: int, b: int, code: int) -> int {
    a + b + runs_of(code) + 3 * triplets_of(code) + 2 * pairs_of(code)
}

/// The choice is open at a tile kind with the given limit, with `m` groups
/// and `p` pairs still to place.
pub open spec fn choice_open(
    lim: int,
    starts: bool,
    a: int,
    b: int,
    m: int,
    p: int,
    code: int,
) -> bool {
    &&& runs_of(code) == 0 || starts
    &&& tiles_of(a, b, code) <= lim
    &&& runs_of(code) + triplets_of(code) <= m
    &&& pairs_of(code) <= p
}

/// Tiles missing when the choice is made at a tile kind of which the hand
/// holds `have`, and `next` are missing after it.
pub open spec fn choice_value(
    have: int,
    lim: int,
    starts: bool,
    a: int,
    b: int,
    m: int,
    p: int,
    code: int,
    next: int,
) -> int {
    if choice_open(lim, starts, a, b, m, p, code) && next < UNREACHABLE {
        excess(tiles_of(a, b, code), have) + next
    } else {
        UNREACHABLE as int
    }
}

/// The least number of missing tiles over the tile kinds `i..end`, trying
/// the first `n` choices at tile `i`, where `a` and `b` runs began two tiles
/// and one tile before `i` and `m` groups and `p` pairs are to be placed.
pub open spec fn least_from(
    hand: Seq<int>,
    limit: Seq<int>,
    i: int,
    end: int,
    a: int,
    b: int,
    m: int,
    p: int,
    n: int,
) -> int
    decreases end - i, n,
{
    if i >= end {
        if m == 0 && p == 0 {
            0
        } else {
            UNREACHABLE as int
        }
    } else if n <= 0 {
        UNREACHABLE as int
    } else {
        let code: int = n - 1;
        let rest: int = least_from(hand, limit, i, end, a, b, m, p, n - 1);
        let next: int = least_from(
            hand,
            limit,
            i + 1,
            end,
            b,
            runs_of(code),
            m - runs_of(code) - triplets_of(code),
            p - pairs_of(code),
            CHOICES as int,
        );
        let value: int = choice_value(hand[i], limit[i], starts_sequence(i), a, b, m, p, code, next);
        if value < rest {
            value
        } else {
            rest
        }
    }
}

/// The least number of missing tiles over the tile kinds `i..end`.
pub open spec fn least(
    hand: Seq<int>,
    limit: Seq<int>,
    i: int,
    end: int,
    a: int,
    b: int,
    m: int,
    p: int,
) -> int {
    least_from(hand, limit, i, end, a, b, m, p, CHOICES as int)
}

/// What follows choice `code` at tile `i`.
pub open spec fn after_choice(
    hand: Seq<int>,
    limit: Seq<int>,
    i: int,
    end: int,
    b: int,
    m: int,
    p: int,
    code: int,
) -> int {
    least(
        hand,
        limit,
        i + 1,
        end,
        b,
        runs_of(code),
        m - runs_of(code) - triplets_of(code),
        p - pairs_of(code),
    )
}

/// Every entry of the hand and of the limit is a count of copies.
pub open spec fn counts_ok(hand: Seq<int>, limit: Seq<int>) -> bool {
    &&& hand.len() == 34
    &&& limit.len() == 34
    &&& forall|i: int| 0 <= i < 34 ==> 0 <= #[trigger] hand[i]
    &&& forall|i: int| 0 <= i < 34 ==> 0 <= #[trigger] limit[i] <= 4
}

/// Each choice tried bounds the least.
proof fn lemma_least_below_choice(
    hand: Seq<int>,
    limit: Seq<int>,
    i: int,
    end: int,
    a: int,
    b: int,
    m: int,
    p: int,
    n: int,
    code: int,
)
    requires
        i < end,
        0 <= code < n,
    ensures
        least_from(hand, limit, i, end, a, b, m, p, n) <= choice_value(
            hand[i],
            limit[i],
            starts_sequence(i),
            a,
            b,
            m,
            p,
            code,
            after_choice(hand, limit, i, end, b, m, p, code),
        ),
    decreases n,
{
    if code < n - 1 {
        lemma_least_below_choice(hand, limit, i, end, a, b, m, p, n - 1, code);
    }
}

/// Where the least is a number of tiles, one of the choices tried gives it.
proof fn lemma_least_is_a_choice(
    hand: Seq<int>,
    limit: Seq<int>,
    i: int,
    end: int,
    a: int,
    b: int,
    m: int,
    p: int,
    n: int,
) -> (code: int)
    requires
        i < end,
        least_from(hand, limit, i, end, a, b, m, p, n) < UNREACHABLE,
    ensures
        0 <= code < n,
        least_from(hand, limit, i, end, a, b, m, p, n) == choice_value(
            hand[i],
            limit[i],
            starts_sequence(i),
            a,
            b,
            m,
            p,
            code,
            after_choice(hand, limit, i, end, b, m, p, code),
        ),
    decreases n,
{
    let value = choice_value(
        hand[i],
        limit[i],
        starts_sequence(i),
        a,
        b,
        m,
        p,
        n - 1,
        after_choice(hand, limit, i, end, b, m, p, n - 1),
    );
    let rest = least_from(hand, limit, i, end, a, b, m, p, n - 1);
    if value < rest {
        n - 1
    } else {
        lemma_least_is_a_choice(hand, limit, i, end, a, b, m, p, n - 1)
    }
}

/// The tiles that a shape lacks over `lo..hi` are at most four a kind.
pub proof fn lemma_missing_bounded(hand: Seq<int>, limit: Seq<int>, shape: Shape, lo: int, hi: int)
    requires
        counts_ok(hand, limit),
        fits_in(shape, limit, lo, hi),
        0 <= lo <= hi <= 34,
    ensures
        0 <= missing_in(hand, shape, lo, hi) <= 4 * (hi - lo),
    decreases hi - lo,
{
    if lo < hi {
        assert(block_fits(shape, limit, lo));
        lemma_missing_bounded(hand, limit, shape, lo + 1, hi);
    }
}

/// No shape is nearer to the hand over `i..end` than the search says.
pub proof fn lemma_least_is_lower_bound(
    hand: Seq<int>,
    limit: Seq<int>,
    shape: Shape,
    i: int,
    end: int,
)
    requires
        counts_ok(hand, limit),
        fits_in(shape, limit, i, end),
        0 <= i <= end <= 34,
        pairs_in(shape, i, end) <= 1,
    ensures
        least(
            hand,
            limit,
            i,
            end,
            sequences_at(shape, i - 2),
            sequences_at(shape, i - 1),
            groups_in(shape, i, end),
            pairs_in(shape, i, end),
        ) <= missing_in(hand, shape, i, end),
    decreases end - i,
{
    if i < end {
        let a = sequences_at(shape, i - 2);
        let b = sequences_at(shape, i - 1);
        let m = groups_in(shape, i, end);
        let p = pairs_in(shape, i, end);
        let c = shape[i].sequences as int;
        let t = shape[i].triplets as int;
        let q = shape[i].pairs as int;
        lemma_blocks_nonnegative(shape, i + 1, end);
        lemma_least_is_lower_bound(hand, limit, shape, i + 1, end);
        lemma_missing_bounded(hand, limit, shape, i + 1, end);
        assert(block_fits(shape, limit, i));
        assert(tiles_at(shape, i) == a + b + c + 3 * t + 2 * q);
        assert(t <= 1 && c <= 4 && q <= 1);
        let code = 4 * c + 2 * t + q;
        assert(runs_of(code) == c && triplets_of(code) == t && pairs_of(code) == q);
        assert(sequences_at(shape, (i + 1) - 2) == b);
        assert(sequences_at(shape, (i + 1) - 1) == c);
        lemma_least_below_choice(hand, limit, i, end, a, b, m, p, CHOICES as int, code);
    }
}

/// A count of groups or pairs is never negative.
pub proof fn lemma_blocks_nonnegative(shape: Shape, lo: int, hi: int)
    ensures
        0 <= pairs_in(shape, lo, hi),
        0 <= groups_in(shape, lo, hi),
    decreases hi - lo,
{
    if lo < hi {
        lemma_blocks_nonnegative(shape, lo + 1, hi);
    }
}

/// Where the search finds a number of tiles, some way of filling the tile
/// kinds `i..end` of the shape is that near to the hand.
pub proof fn lemma_least_is_reached(
    hand: Seq<int>,
    limit: Seq<int>,
    shape: Shape,
    i: int,
    end: int,
    m: int,
    p: int,
) -> (out: Shape)
    requires
        counts_ok(hand, limit),
        shape.len() == 34,
        0 <= i <= end <= 34,
        least(hand, limit, i, end, sequences_at(shape, i - 2), sequences_at(shape, i - 1), m, p)
            < UNREACHABLE,
    ensures
        out.len() == 34,
        forall|j: int| 0 <= j < i ==> out[j] == shape[j],
        forall|j: int| end <= j < 34 ==> out[j] == shape[j],
        forall|j: int| i <= j < end ==> #[trigger] block_fits(out, limit, j),
        groups_in(out, i, end) == m,
        pairs_in(out, i, end) == p,
        missing_in(hand, out, i, end) == least(
            hand,
            limit,
            i,
            end,
            sequences_at(shape, i - 2),
            sequences_at(shape, i - 1),
            m,
            p,
        ),
    decreases end - i,
{
    if i >= end {
        shape
    } else {
        let a = sequences_at(shape, i - 2);
        let b = sequences_at(shape, i - 1);
        let code = lemma_least_is_a_choice(hand, limit, i, end, a, b, m, p, CHOICES as int);
        let c = runs_of(code);
        let t = triplets_of(code);
        let q = pairs_of(code);
        let filled = shape.update(
            i,
            Block { triplets: t as nat, sequences: c as nat, pairs: q as nat },
        );
        assert(sequences_at(filled, (i + 1) - 2) == b);
        assert(sequences_at(filled, (i + 1) - 1) == c);
        let out = lemma_least_is_reached(hand, limit, filled, i + 1, end, m - c - t, p - q);
        assert(out[i] == filled[i]);
        assert(sequences_at(out, i - 1) == b);
        assert(sequences_at(out, i - 2) == a);
        assert(tiles_at(out, i) == tiles_of(a, b, code));
        assert(block_fits(out, limit, i));
        out
    }
}

/// The shape without any block.
pub open spec fn empty_shape() -> Shape {
    Seq::new(34, |i: int| Block { triplets: 0, sequences: 0, pairs: 0 })
}

/// The search gives a number of tiles or the greatest byte.
pub proof fn lemma_least_in_range(
    hand: Seq<int>,
    limit: Seq<int>,
    i: int,
    end: int,
    a: int,
    b: int,
    m: int,
    p: int,
    n: int,
)
    ensures
        0 <= least_from(hand, limit, i, end, a, b, m, p, n) <= 255,
    decreases end - i, n,
{
    if i < end && n > 0 {
        let code: int = n - 1;
        lemma_least_in_range(hand, limit, i, end, a, b, m, p, n - 1);
        lemma_least_in_range(
            hand,
            limit,
            i + 1,
            end,
            b,
            runs_of(code),
            m - runs_of(code) - triplets_of(code),
            p - pairs_of(code),
            CHOICES as int,
        );
    }
}

/// Runs begun two tiles before, as held in entry `j` of a table.
pub open spec fn state_a(j: int) -> int {
    j / 50
}

/// Runs begun one tile before, as held in entry `j` of a table.
pub open spec fn state_b(j: int) -> int {
    (j / 10) % 5
}

/// Groups still to place, as held in entry `j` of a table.
pub open spec fn state_m(j: int) -> int {
    (j / 2) % 5
}

/// Pairs still to place, as held in entry `j` of a table.
pub open spec fn state_p(j: int) -> int {
    j % 2
}

/// The table holds, for every state, the least number of tiles missing over
/// the tile kinds `i..end`.
pub open spec fn table_matches(
    table: Seq<u8>,
    hand: Seq<int>,
    limit: Seq<int>,
    i: int,
    end: int,
) -> bool {
    &&& table.len() == 250
    &&& forall|j: int|
        0 <= j < 250 ==> (#[trigger] table[j]) as int == least(
            hand,
            limit,
            i,
            end,
            state_a(j),
            state_b(j),
            state_m(j),
            state_p(j),
        )
    &&& forall|j: int|
        0 <= j < 250 ==> (#[trigger] table[j]) == UNREACHABLE || table[j] <= 4 * (end - i)
}

/// The entry of a table that holds the given state.
pub(crate) fn state_index(a: u8, b: u8, m: u8, p: u8) -> (j: usize)
    requires
        a < 5,
        b < 5,
        m < 5,
        p < 2,
    ensures
        j < 250,
        state_a(j as int) == a,
        state_b(j as int) == b,
        state_m(j as int) == m,
        state_p(j as int) == p,
{
    let a: usize = a as usize;
    let b: usize = b as usize;
    let m: usize = m as usize;
    let p: usize = p as usize;
    ((a * 5 + b) * 5 + m) * 2 + p
}

/// The least number of tiles missing from tile `i` on, for one state, out
/// of the table for the tiles after it.
fn best_choice(
    have: u8,
    lim: u8,
    starts: bool,
    next: &[u8; 250],
    a: u8,
    b: u8,
    m: u8,
    p: u8,
    Ghost(hand): Ghost<Seq<int>>,
    Ghost(limit): Ghost<Seq<int>>,
    Ghost(i): Ghost<int>,
    Ghost(end): Ghost<int>,
) -> (best: u8)
    requires
        0 <= i < end <= 34,
        a < 5,
        b < 5,
        m < 5,
        p < 2,
        lim <= 4,
        hand[i] == have as int,
        limit[i] == lim as int,
        starts == starts_sequence(i),
        table_matches(next@, hand, limit, i + 1, end),
    ensures
        best as int == least(hand, limit, i, end, a as int, b as int, m as int, p as int),
        best == UNREACHABLE || best <= 4 * (end - i),
{
    let mut best: u8 = UNREACHABLE;
    let mut code: u8 = 0;
    while code < 20
        invariant
            0 <= i < end <= 34,
            a < 5,
            b < 5,
            m < 5,
            p < 2,
            lim <= 4,
            hand[i] == have as int,
            limit[i] == lim as int,
            starts == starts_sequence(i),
            table_matches(next@, hand, limit, i + 1, end),
            code <= 20,
            best as int == least_from(
                hand,
                limit,
                i,
                end,
                a as int,
                b as int,
                m as int,
                p as int,
                code as int,
            ),
            best == UNREACHABLE || best <= 4 * (end - i),
        decreases 20 - code,
    {
        let c: u8 = code / 4;
        let t: u8 = (code / 2) % 2;
        let q: u8 = code % 2;
        let w: u8 = a + b + c + 3 * t + 2 * q;
        let ghost after = after_choice(hand, limit, i, end, b as int, m as int, p as int, code as int);
        if (c == 0 || starts) && w <= lim && c + t <= m && q <= p {
            let j: usize = state_index(b, c, m - c - t, p - q);
            let nx: u8 = next[j];
            assert(nx as int == after);
            if nx < UNREACHABLE {
                let lack: u8 = if w > have {
                    w - have
                } else {
                    0
                };
                let v: u8 = lack + nx;
                if v < best {
                    best = v;
                }
            }
        }
        code = code + 1;
    }
    best
}

/// For every state the least number of tiles missing over the tile kinds
/// `lo..hi`.
pub(crate) fn range_table(
    counts: &[u8; 34],
    limits: &[u8; 34],
    lo: usize,
    hi: usize,
) -> (table: [u8; 250])
    requires
        forall|i: int| 0 <= i < 34 ==> limits[i] <= 4,
        lo <= hi <= 34,
    ensures
        table_matches(table@, counts_of(*counts), counts_of(*limits), lo as int, hi as int),
{
    let ghost hand = counts_of(*counts);
    let ghost limit = counts_of(*limits);
    let mut table: [u8; 250] = [UNREACHABLE; 250];
    let mut j: usize = 0;
    while j < 250
        invariant
            j <= 250,
            hi <= 34,
            forall|k: int|
                0 <= k < j ==> (#[trigger] table@[k]) as int == least(
                    hand,
                    limit,
                    hi as int,
                    hi as int,
                    state_a(k),
                    state_b(k),
                    state_m(k),
                    state_p(k),
                ),
            forall|k: int| 0 <= k < j ==> (#[trigger] table@[k]) == UNREACHABLE || table@[k] == 0,
        decreases 250 - j,
    {
        if (j / 2) % 5 == 0 && j % 2 == 0 {
            table[j] = 0;
        } else {
            table[j] = UNREACHABLE;
        }
        j = j + 1;
    }
    let mut i: usize = hi;
    while i > lo
        invariant
            lo <= i <= hi <= 34,
            hand == counts_of(*counts),
            limit == counts_of(*limits),
            forall|k: int| 0 <= k < 34 ==> limits[k] <= 4,
            table_matches(table@, hand, limit, i as int, hi as int),
        decreases i,
    {
        i = i - 1;
        let have: u8 = counts[i];
        let lim: u8 = limits[i];
        let starts: bool = can_start_sequence(i);
        let mut fresh: [u8; 250] = [UNREACHABLE; 250];
        let mut j: usize = 0;
        while j < 250
            invariant
                j <= 250,
                i < hi <= 34,
                lim <= 4,
                hand[i as int] == have as int,
                limit[i as int] == lim as int,
                starts == starts_sequence(i as int),
                table_matches(table@, hand, limit, i + 1, hi as int),
                forall|k: int|
                    0 <= k < j ==> (#[trigger] fresh@[k]) as int == least(
                        hand,
                        limit,
                        i as int,
                        hi as int,
                        state_a(k),
                        state_b(k),
                        state_m(k),
                        state_p(k),
                    ),
                forall|k: int|
                    0 <= k < j ==> (#[trigger] fresh@[k]) == UNREACHABLE || fresh@[k] <= 4 * (hi - i),
            decreases 250 - j,
        {
            let a: u8 = (j / 50) as u8;
            let b: u8 = ((j / 10) % 5) as u8;
            let m: u8 = ((j / 2) % 5) as u8;
            let p: u8 = (j % 2) as u8;
            let v: u8 = best_choice(
                have,
                lim,
                starts,
                &table,
                a,
                b,
                m,
                p,
                Ghost(hand),
                Ghost(limit),
                Ghost(i as int),
                Ghost(hi as int),
            );
            fresh[j] = v;
            j = j + 1;
        }
        table = fresh;
    }
    table
}

} // verus!
