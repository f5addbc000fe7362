use xiangting::engine::replacement_number;
use xiangting::meld::{ClaimedPosition, Meld};
use xiangting::orphans::nearest_thirteen_orphans;
use xiangting::pairs::nearest_seven_pairs;
use xiangting::combine::nearest_groups_and_pair;
use xiangting::tile::{can_start_sequence, is_in_play, is_terminal_or_honor, Variant};

struct Dice(u64);

impl Dice {
    fn roll(&mut self, sides: u64) -> u64 {
        self.0 = self.0.wrapping_mul(6364136223846793005).wrapping_add(1442695040888963407);
        (self.0 >> 33) % sides
    }

    fn hand(&mut self, size: usize, spread: u64) -> [u8; 34] {
        let mut counts = [0u8; 34];
        let mut held = 0;
        while held < size {
            let t = self.roll(spread) as usize;
            if counts[t] < 4 {
                counts[t] += 1;
                held += 1;
            }
        }
        counts
    }
}

fn lacking(counts: &[u8; 34], want: &[u8; 34]) -> u8 {
    (0..34).map(|i| want[i].saturating_sub(counts[i])).sum()
}

// Every way of writing `groups` groups and a pair, tried one by one.
fn by_trying_all(counts: &[u8; 34], limits: &[u8; 34], groups: usize) -> u8 {
    fn go(counts: &[u8; 34], limits: &[u8; 34], want: &mut [u8; 34], from: usize, left: usize, best: &mut u8) {
        if left == 0 {
            for pair in 0..34 {
                want[pair] += 2;
                if want[pair] <= limits[pair] {
                    *best = (*best).min(lacking(counts, want));
                }
                want[pair] -= 2;
            }
            return;
        }
        for kind in from..68 {
            if kind < 34 {
                want[kind] += 3;
                if want[kind] <= limits[kind] {
                    go(counts, limits, want, kind, left - 1, best);
                }
                want[kind] -= 3;
            } else if can_start_sequence(kind - 34) {
                let i = kind - 34;
                want[i] += 1;
                want[i + 1] += 1;
                want[i + 2] += 1;
                if want[i] <= limits[i] && want[i + 1] <= limits[i + 1] && want[i + 2] <= limits[i + 2] {
                    go(counts, limits, want, kind, left - 1, best);
                }
                want[i] -= 1;
                want[i + 1] -= 1;
                want[i + 2] -= 1;
            }
        }
    }
    let mut best = 255;
    go(counts, limits, &mut [0u8; 34], 0, groups, &mut best);
    best
}

#[test]
fn search_agrees_with_trying_every_shape() {
    let mut dice = Dice(7);
    for round in 0..60 {
        let groups = round % 3;
        let size = 3 * groups + 1 + (round / 3) % 2;
        let spread = if round % 2 == 0 { 34 } else { 12 };
        let counts = dice.hand(size, spread);
        let limits = [4u8; 34];
        assert_eq!(
            nearest_groups_and_pair(&counts, &limits, groups as u8),
            by_trying_all(&counts, &limits, groups)
        );
    }
}

#[test]
fn search_agrees_with_trying_every_shape_under_limits() {
    let mut dice = Dice(11);
    for round in 0..40 {
        let groups = round % 3;
        let counts = dice.hand(3 * groups + 2, 20);
        let mut limits = [4u8; 34];
        for _ in 0..12 {
            limits[dice.roll(20) as usize] = dice.roll(5) as u8;
        }
        assert_eq!(
            nearest_groups_and_pair(&counts, &limits, groups as u8),
            by_trying_all(&counts, &limits, groups)
        );
    }
}

#[test]
fn search_agrees_with_trying_every_shape_of_three_groups() {
    let mut dice = Dice(3);
    for round in 0..6 {
        let counts = dice.hand(10 + round % 2, 18);
        let limits = [4u8; 34];
        assert_eq!(nearest_groups_and_pair(&counts, &limits, 3), by_trying_all(&counts, &limits, 3));
    }
}

#[test]
fn search_agrees_with_trying_every_shape_of_four_groups() {
    let mut dice = Dice(13);
    for round in 0..8 {
        let counts = dice.hand(13 + round % 2, 14);
        let mut limits = [0u8; 34];
        for t in 0..14 {
            limits[t] = 4;
        }
        assert_eq!(nearest_groups_and_pair(&counts, &limits, 4), by_trying_all(&counts, &limits, 4));
    }
}

#[test]
fn seven_pairs_by_counting() {
    let mut dice = Dice(5);
    for round in 0..200 {
        let counts = dice.hand(13 + round % 2, if round % 3 == 0 { 9 } else { 34 });
        let pairs = counts.iter().filter(|&&c| c >= 2).count() as u8;
        let kinds = counts.iter().filter(|&&c| c >= 1).count() as u8;
        let expected = 7 - pairs.min(7) + 7u8.saturating_sub(kinds);
        assert_eq!(nearest_seven_pairs(&counts, &[4u8; 34]), expected);
    }
}

#[test]
fn seven_pairs_need_seven_kinds_in_play() {
    let counts = [0u8; 34];
    let mut limits = [0u8; 34];
    for i in 0..6 {
        limits[i] = 4;
    }
    limits[6] = 1;
    assert_eq!(nearest_seven_pairs(&counts, &limits), 255);
    limits[6] = 2;
    assert_eq!(nearest_seven_pairs(&counts, &limits), 14);
}

#[test]
fn thirteen_orphans_by_counting() {
    let mut dice = Dice(9);
    for round in 0..200 {
        let counts = dice.hand(13 + round % 2, 34);
        let kinds = (0..34).filter(|&i| is_terminal_or_honor(i) && counts[i] >= 1).count() as u8;
        let twice = (0..34).any(|i| is_terminal_or_honor(i) && counts[i] >= 2);
        let expected = 14 - kinds - if twice { 1 } else { 0 };
        assert_eq!(nearest_thirteen_orphans(&counts, &[4u8; 34]), expected);
    }
}

#[test]
fn thirteen_orphans_need_every_orphan_in_play() {
    let counts = [1u8; 34];
    let mut limits = [4u8; 34];
    limits[8] = 0;
    assert_eq!(nearest_thirteen_orphans(&counts, &limits), 255);
    let limits = [1u8; 34];
    assert_eq!(nearest_thirteen_orphans(&counts, &limits), 255);
    let mut limits = [1u8; 34];
    limits[33] = 2;
    assert_eq!(nearest_thirteen_orphans(&counts, &limits), 1);
}

#[test]
fn tile_layout() {
    let starts: Vec<usize> = (0..40).filter(|&i| can_start_sequence(i)).collect();
    assert_eq!(starts, vec![0, 1, 2, 3, 4, 5, 6, 9, 10, 11, 12, 13, 14, 15, 18, 19, 20, 21, 22, 23, 24]);
    let orphans: Vec<usize> = (0..40).filter(|&i| is_terminal_or_honor(i)).collect();
    assert_eq!(orphans, vec![0, 8, 9, 17, 18, 26, 27, 28, 29, 30, 31, 32, 33]);
    let three: Vec<usize> = (0..40).filter(|&i| !is_in_play(Variant::Three, i)).collect();
    assert_eq!(three, vec![1, 2, 3, 4, 5, 6, 7, 34, 35, 36, 37, 38, 39]);
    let four: Vec<usize> = (0..40).filter(|&i| !is_in_play(Variant::Four, i)).collect();
    assert_eq!(four, vec![34, 35, 36, 37, 38, 39]);
}

#[test]
fn drawing_never_raises_the_number() {
    let mut dice = Dice(1);
    for round in 0..12 {
        let counts = dice.hand([1, 4, 7, 10, 13][round % 5], if round % 2 == 0 { 34 } else { 14 });
        let base = replacement_number(&counts, &[None, None, None, None], Variant::Four).unwrap();
        for t in 0..34 {
            if counts[t] < 4 {
                let mut more = counts;
                more[t] += 1;
                let n = replacement_number(&more, &[None, None, None, None], Variant::Four).unwrap();
                assert!(n <= base);
                assert!(base <= n + 1);
            }
        }
    }
}

#[test]
fn zero_only_for_winning_hands() {
    // Winning hands of every size.
    for (text, melds) in [("11z", 4), ("123m11z", 3), ("123m456p11z", 2), ("123m456p789s11z", 1), ("123m456p789s11122z", 0)] {
        let mut counts = [0u8; 34];
        let mut suit = Vec::new();
        for ch in text.chars() {
            match ch {
                '1'..='9' => suit.push(ch as usize - '1' as usize),
                _ => {
                    let base = match ch {
                        'm' => 0,
                        'p' => 9,
                        's' => 18,
                        _ => 27,
                    };
                    for n in suit.drain(..) {
                        counts[base + n] += 1;
                    }
                }
            }
        }
        let mut slots = [None, None, None, None];
        for s in 0..melds {
            slots[s] = Some(Meld::Triplet(30 + s as u8));
        }
        assert_eq!(replacement_number(&counts, &slots, Variant::Four), Ok(0));
        // One tile swapped for a stranger is one tile away.
        for t in 0..34 {
            if counts[t] > 0 {
                let mut other = counts;
                other[t] -= 1;
                other[17] += 1;
                let n = replacement_number(&other, &slots, Variant::Four).unwrap();
                assert!(n <= 1);
            }
        }
    }
    // Thirteen tiles never win.
    let mut dice = Dice(2);
    for _ in 0..20 {
        let counts = dice.hand(13, 34);
        assert!(replacement_number(&counts, &[None, None, None, None], Variant::Four).unwrap() >= 1);
    }
}

#[test]
fn declaring_a_meld_never_lowers_the_number() {
    let mut dice = Dice(4);
    for round in 0..6 {
        let counts = dice.hand([1, 2, 4, 5, 7, 10][round % 6], 34);
        let groups = counts.iter().map(|&c| c as usize).sum::<usize>() / 3;
        if groups == 4 {
            continue;
        }
        let open = [None, None, None, None];
        let base = replacement_number(&counts, &open, Variant::Four).unwrap();
        let mut least = 255;
        for tile in 0..34u8 {
            let mut melds: Vec<Meld> = vec![Meld::Triplet(tile), Meld::Quad(tile)];
            if can_start_sequence(tile as usize) {
                melds.push(Meld::Sequence(tile, ClaimedPosition::Low));
            }
            for meld in melds {
                let told = [Some(meld), None, None, None];
                if let Ok(n) = replacement_number(&counts, &told, Variant::Four) {
                    assert!(base <= n);
                    least = least.min(n);
                }
            }
        }
        // Some meld stays out of the way of the hand.
        assert_eq!(least, base);
    }
}
