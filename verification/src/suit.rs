//! One suit at a time.
//!
//! No group reaches from one suit into another, so each suit can be
//! searched alone. What the rest of the hand needs to know of a suit is,
//! for every demand on it (so many groups, with or without the pair), the
//! least number of tiles that the suit lacks to meet it. None of these
//! entries can be dropped: which of them the whole hand uses depends on the
//! other suits. The honors count as a fourth suit in which no run begins.

use vstd::prelude::*;
use crate::tile::counts_of;
use crate::shape::{Shape, sequences_at, groups_in, pairs_in, missing_in, fits_in};
use crate::search::{
    UNREACHABLE, counts_ok, least, empty_shape, table_matches, range_table, state_index,
    lemma_least_in_range, lemma_least_is_lower_bound, lemma_least_is_reached,
    lemma_missing_bounded, CHOICES,
};

verus! {

/// Number of suits, the honors among them.
pub const SUITS: usize = 4;

/// The first tile of suit `s`; past the last suit, the end of the tiles.
pub open spec fn suit_start(s: int) -> int {
    if s <= 0 {
        0
    } else if s >= 4 {
        34
    } else {
        9 * s
    }
}

/// The suit of tile `i`.
pub open spec fn suit_of(i: int) -> int {
    if i < 9 {
        0
    } else if i < 18 {
        1
    } else if i < 27 {
        2
    } else {
        3
    }
}

/// The first tile of a suit; past the last suit, the end of the tiles.
pub fn first_tile(suit: usize) -> (i: usize)
    ensures
        i == suit_start(suit as int),
{
    if suit >= 4 {
        34
    } else {
        9 * suit
    }
}

/// The suit of a tile.
pub fn suit_of_tile(tile: usize) -> (s: usize)
    ensures
        s == suit_of(tile as int),
{
    if tile < 9 {
        0
    } else if tile < 18 {
        1
    } else if tile < 27 {
        2
    } else {
        3
    }
}

/// Within suit `s` the shape is possible, takes no run over from the suit
/// before, and holds `m` groups and `p` pairs.
pub open spec fn is_part(shape: Shape, limit: Seq<int>, s: int, m: int, p: int) -> bool {
    &&& fits_in(shape, limit, suit_start(s), suit_start(s + 1))
    &&& sequences_at(shape, suit_start(s) - 1) == 0
    &&& sequences_at(shape, suit_start(s) - 2) == 0
    &&& groups_in(shape, suit_start(s), suit_start(s + 1)) == m
    &&& pairs_in(shape, suit_start(s), suit_start(s + 1)) == p
}

/// Number of tiles of suit `s` that the shape holds and the hand lacks.
pub open spec fn missing_in_suit(hand: Seq<int>, shape: Shape, s: int) -> int {
    missing_in(hand, shape, suit_start(s), suit_start(s + 1))
}

/// `n` is the least number of tiles that suit `s` of the hand lacks to hold
/// `m` groups and `p` pairs; the greatest byte where the suit cannot hold
/// them.
pub open spec fn nearest_in_suit(
    hand: Seq<int>,
    limit: Seq<int>,
    s: int,
    m: int,
    p: int,
    n: int,
) -> bool {
    &&& 0 <= n <= 255
    &&& n < 255 ==> exists|shape: Shape| #[trigger]
        is_part(shape, limit, s, m, p) && missing_in_suit(hand, shape, s) == n
    &&& forall|shape: Shape| #[trigger]
        is_part(shape, limit, s, m, p) ==> n <= missing_in_suit(hand, shape, s) <= 36
}

/// The search within a suit gives the least number of tiles that the suit lacks.
pub proof fn lemma_suit_is_exact(hand: Seq<int>, limit: Seq<int>, s: int, m: int, p: int)
    requires
        counts_ok(hand, limit),
        0 <= s < 4,
        p <= 1,
    ensures
        nearest_in_suit(
            hand,
            limit,
            s,
            m,
            p,
            least(hand, limit, suit_start(s), suit_start(s + 1), 0, 0, m, p),
        ),
{
    let lo = suit_start(s);
    let hi = suit_start(s + 1);
    let n = least(hand, limit, lo, hi, 0, 0, m, p);
    lemma_least_in_range(hand, limit, lo, hi, 0, 0, m, p, CHOICES as int);
    assert forall|shape: Shape| #[trigger] is_part(shape, limit, s, m, p) implies n
        <= missing_in_suit(hand, shape, s) <= 36 by {
        lemma_least_is_lower_bound(hand, limit, shape, lo, hi);
        lemma_missing_bounded(hand, limit, shape, lo, hi);
    }
    if n < 255 {
        let out = lemma_least_is_reached(hand, limit, empty_shape(), lo, hi, m, p);
        assert(sequences_at(out, lo - 1) == 0) by {
            if lo >= 1 {
                assert(out[lo - 1] == empty_shape()[lo - 1]);
            }
        }
        assert(sequences_at(out, lo - 2) == 0) by {
            if lo >= 2 {
                assert(out[lo - 2] == empty_shape()[lo - 2]);
            }
        }
        assert(is_part(out, limit, s, m, p));
    }
}

/// What a shape lacks over a stretch of tiles depends on the hand's tiles
/// there alone.
pub proof fn lemma_missing_same_hand(
    hand: Seq<int>,
    other: Seq<int>,
    shape: Shape,
    lo: int,
    hi: int,
)
    requires
        forall|i: int| lo <= i < hi ==> hand[i] == other[i],
    ensures
        missing_in(hand, shape, lo, hi) == missing_in(other, shape, lo, hi),
    decreases hi - lo,
{
    if lo < hi {
        lemma_missing_same_hand(hand, other, shape, lo + 1, hi);
    }
}

/// What one suit of a hand lacks, for every demand on the suit.
#[derive(Clone, Copy, Debug)]
pub struct SuitTable {
    /// For `m` groups and `p` pairs, at `2 * m + p`, the least number of
    /// tiles that the suit lacks to hold them, or `UNREACHABLE`.
    pub least: [u8; 10],
}

impl SuitTable {
    /// The entry for `m` groups and `p` pairs.
    pub open spec fn entry(&self, m: int, p: int) -> int {
        self.least[2 * m + p] as int
    }

    /// Every entry is a number of tiles of one suit, or `UNREACHABLE`.
    pub open spec fn bounded(&self) -> bool {
        forall|m: int, p: int|
            0 <= m <= 4 && 0 <= p <= 1 ==> #[trigger] self.entry(m, p) == 255 || self.entry(m, p)
                <= 36
    }

    /// The table is that of suit `s` of the hand.
    pub open spec fn describes(&self, hand: Seq<int>, limit: Seq<int>, s: int) -> bool {
        forall|m: int, p: int|
            0 <= m <= 4 && 0 <= p <= 1 ==> nearest_in_suit(
                hand,
                limit,
                s,
                m,
                p,
                #[trigger] self.entry(m, p),
            )
    }

    /// The entry for `m` groups and `p` pairs.
    pub fn get(&self, m: u8, p: u8) -> (n: u8)
        requires
            m <= 4,
            p <= 1,
        ensures
            n as int == self.entry(m as int, p as int),
    {
        self.least[(2 * m + p) as usize]
    }
}

/// The table of a suit is the table of that suit in every hand that holds
/// the same tiles of the suit.
pub proof fn lemma_table_holds_for(
    hand: Seq<int>,
    other: Seq<int>,
    limit: Seq<int>,
    table: SuitTable,
    s: int,
)
    requires
        forall|i: int| suit_start(s) <= i < suit_start(s + 1) ==> hand[i] == other[i],
        table.describes(hand, limit, s),
    ensures
        table.describes(other, limit, s),
{
    assert forall|shape: Shape| missing_in_suit(hand, shape, s) == #[trigger] missing_in_suit(
        other,
        shape,
        s,
    ) by {
        lemma_missing_same_hand(hand, other, shape, suit_start(s), suit_start(s + 1));
    }
    assert forall|m: int, p: int| 0 <= m <= 4 && 0 <= p <= 1 implies nearest_in_suit(
        other,
        limit,
        s,
        m,
        p,
        #[trigger] table.entry(m, p),
    ) by {
        let n = table.entry(m, p);
        assert(nearest_in_suit(hand, limit, s, m, p, n));
        if n < 255 {
            let shape = choose|shape: Shape| #[trigger]
                is_part(shape, limit, s, m, p) && missing_in_suit(hand, shape, s) == n;
            assert(missing_in_suit(other, shape, s) == n);
        }
        assert forall|shape: Shape| #[trigger] is_part(shape, limit, s, m, p) implies n
            <= missing_in_suit(other, shape, s) <= 36 by {
            assert(missing_in_suit(hand, shape, s) == missing_in_suit(other, shape, s));
        }
    }
}

/// Searches one suit of the hand: for every number of groups up to four,
/// with and without the pair, the least number of tiles that the suit lacks.
pub fn suit_table(counts: &[u8; 34], limits: &[u8; 34], suit: usize) -> (table: SuitTable)
    requires
        forall|i: int| 0 <= i < 34 ==> limits[i] <= 4,
        suit < 4,
    ensures
        table.describes(counts_of(*counts), counts_of(*limits), suit as int),
        table.bounded(),
{
    let ghost hand = counts_of(*counts);
    let ghost limit = counts_of(*limits);
    let lo: usize = first_tile(suit);
    let hi: usize = first_tile(suit + 1);
    let states: [u8; 250] = range_table(counts, limits, lo, hi);
    let mut least_of: [u8; 10] = [UNREACHABLE; 10];
    let mut k: usize = 0;
    while k < 10
        invariant
            k <= 10,
            suit < 4,
            lo == suit_start(suit as int),
            hi == suit_start(suit + 1),
            table_matches(states@, hand, limit, lo as int, hi as int),
            forall|j: int|
                0 <= j < k ==> (#[trigger] least_of[j]) as int == least(
                    hand,
                    limit,
                    lo as int,
                    hi as int,
                    0,
                    0,
                    j / 2,
                    j % 2,
                ),
            forall|j: int| 0 <= j < k ==> (#[trigger] least_of[j]) == 255 || least_of[j] <= 36,
        decreases 10 - k,
    {
        let m: u8 = (k / 2) as u8;
        let p: u8 = (k % 2) as u8;
        let at: usize = state_index(0, 0, m, p);
        least_of[k] = states[at];
        k = k + 1;
    }
    let table = SuitTable { least: least_of };
    proof {
        assert forall|m: int, p: int| 0 <= m <= 4 && 0 <= p <= 1 implies nearest_in_suit(
            hand,
            limit,
            suit as int,
            m,
            p,
            #[trigger] table.entry(m, p),
        ) by {
            let j = 2 * m + p;
            assert(j / 2 == m && j % 2 == p);
            assert(least_of[j] as int == least(hand, limit, lo as int, hi as int, 0, 0, m, p));
            lemma_suit_is_exact(hand, limit, suit as int, m, p);
        }
        assert forall|m: int, p: int| 0 <= m <= 4 && 0 <= p <= 1 implies #[trigger] table.entry(
            m,
            p,
        ) == 255 || table.entry(m, p) <= 36 by {
            let j = 2 * m + p;
            assert(least_of[j] == 255 || least_of[j] <= 36);
        }
    }
    table
}

} // verus!
