use xiangting::combine::{combine, nearest_groups_and_pair, suit_tables};
use xiangting::suit::{first_tile, suit_of_tile, suit_table, SuitTable};
use xiangting::tile::can_start_sequence;

fn tiles(text: &str) -> [u8; 34] {
    let mut counts = [0u8; 34];
    let mut pending: Vec<usize> = Vec::new();
    for ch in text.chars() {
        match ch {
            '1'..='9' => pending.push(ch as usize - '1' as usize),
            'm' | 'p' | 's' | 'z' => {
                let base = match ch {
                    'm' => 0,
                    'p' => 9,
                    's' => 18,
                    _ => 27,
                };
                for n in pending.drain(..) {
                    counts[base + n] += 1;
                }
            }
            _ => panic!("unexpected character"),
        }
    }
    assert!(pending.is_empty());
    counts
}

struct Dice(u64);

impl Dice {
    fn roll(&mut self, sides: u64) -> u64 {
        self.0 = self.0.wrapping_mul(6364136223846793005).wrapping_add(1442695040888963407);
        (self.0 >> 33) % sides
    }
}

// Every way of writing `groups` groups and `pairs` pairs within `lo..hi`.
fn by_trying_all(counts: &[u8; 34], limits: &[u8; 34], lo: usize, hi: usize, groups: usize, pairs: usize) -> u8 {
    fn lacking(counts: &[u8; 34], want: &[u8; 34]) -> u8 {
        (0..34).map(|i| want[i].saturating_sub(counts[i])).sum()
    }
    fn go(counts: &[u8; 34], limits: &[u8; 34], want: &mut [u8; 34], lo: usize, hi: usize, from: usize, left: usize, pairs: usize, best: &mut u8) {
        if left == 0 {
            if pairs == 0 {
                *best = (*best).min(lacking(counts, want));
                return;
            }
            for pair in lo..hi {
                want[pair] += 2;
                if want[pair] <= limits[pair] {
                    *best = (*best).min(lacking(counts, want));
                }
                want[pair] -= 2;
            }
            return;
        }
        for kind in from..68 {
            let i = kind % 34;
            if i < lo || i >= hi {
                continue;
            }
            if kind < 34 {
                want[i] += 3;
                if want[i] <= limits[i] {
                    go(counts, limits, want, lo, hi, kind, left - 1, pairs, best);
                }
                want[i] -= 3;
            } else if can_start_sequence(i) {
                want[i] += 1;
                want[i + 1] += 1;
                want[i + 2] += 1;
                if want[i] <= limits[i] && want[i + 1] <= limits[i + 1] && want[i + 2] <= limits[i + 2] {
                    go(counts, limits, want, lo, hi, kind, left - 1, pairs, best);
                }
                want[i] -= 1;
                want[i + 1] -= 1;
                want[i + 2] -= 1;
            }
        }
    }
    let mut best = 255;
    go(counts, limits, &mut [0u8; 34], lo, hi, 0, groups, pairs, &mut best);
    best
}

#[test]
fn suits_begin_every_nine_tiles() {
    assert_eq!([first_tile(0), first_tile(1), first_tile(2), first_tile(3), first_tile(4), first_tile(9)], [0, 9, 18, 27, 34, 34]);
    for tile in 0..34 {
        let suit = suit_of_tile(tile);
        assert!(first_tile(suit) <= tile && tile < first_tile(suit + 1));
    }
}

#[test]
fn table_of_a_single_run() {
    let counts = tiles("123m");
    let table = suit_table(&counts, &[4u8; 34], 0);
    // Nothing, or the run itself.
    assert_eq!(table.get(0, 0), 0);
    assert_eq!(table.get(1, 0), 0);
    // A pair needs a second copy of one of the three.
    assert_eq!(table.get(0, 1), 1);
    // The run and a pair beside it.
    assert_eq!(table.get(1, 1), 2);
    // A second run needs three more tiles, a third six.
    assert_eq!(table.get(2, 0), 3);
    assert_eq!(table.get(3, 0), 6);
    assert_eq!(table.get(4, 0), 9);
    assert_eq!(table.get(4, 1), 11);
    assert_eq!(table.least, [0, 1, 0, 2, 3, 5, 6, 8, 9, 11]);
}

#[test]
fn table_of_an_empty_suit() {
    let counts = tiles("123m");
    let table = suit_table(&counts, &[4u8; 34], 1);
    assert_eq!(table.least, [0, 2, 3, 5, 6, 8, 9, 11, 12, 14]);
}

#[test]
fn table_of_the_honors() {
    let counts = tiles("1122z");
    let table = suit_table(&counts, &[4u8; 34], 3);
    // Two pairs: each becomes a triplet with one tile, and then the pair
    // must be new.
    assert_eq!(table.least, [0, 0, 1, 1, 2, 4, 5, 7, 8, 10]);
    // No run among the honors: with one copy of each in reach nothing can be built.
    let table = suit_table(&counts, &[1u8; 34], 3);
    assert_eq!(table.least, [0, 255, 255, 255, 255, 255, 255, 255, 255, 255]);
    // With one copy of each in reach a suit of numbers still holds runs.
    let table = suit_table(&counts, &[1u8; 34], 1);
    assert_eq!(table.least, [0, 255, 3, 255, 6, 255, 9, 255, 255, 255]);
}

#[test]
fn table_under_a_limit_of_nothing() {
    let counts = tiles("123456789m");
    let table = suit_table(&counts, &[0u8; 34], 0);
    assert_eq!(table.least, [0, 255, 255, 255, 255, 255, 255, 255, 255, 255]);
}

#[test]
fn tables_agree_with_trying_every_shape() {
    let mut dice = Dice(21);
    for round in 0..12 {
        let mut counts = [0u8; 34];
        let mut limits = [4u8; 34];
        for _ in 0..(3 + round) {
            let t = dice.roll(34) as usize;
            if counts[t] < 4 {
                counts[t] += 1;
            }
        }
        if round % 2 == 1 {
            for _ in 0..8 {
                limits[dice.roll(34) as usize] = dice.roll(5) as u8;
            }
        }
        for suit in 0..4 {
            let table = suit_table(&counts, &limits, suit);
            for groups in 0..=3u8 {
                for pairs in 0..=1u8 {
                    assert_eq!(
                        table.get(groups, pairs),
                        by_trying_all(&counts, &limits, first_tile(suit), first_tile(suit + 1), groups as usize, pairs as usize)
                    );
                }
            }
        }
    }
}

#[test]
fn four_groups_in_one_suit() {
    let counts = tiles("1112345678999m");
    let table = suit_table(&counts, &[4u8; 34], 0);
    assert_eq!(table.get(4, 0), 0);
    assert_eq!(table.get(4, 1), 1);
    assert_eq!(table.get(4, 1), by_trying_all(&counts, &[4u8; 34], 0, 9, 4, 1));
    let counts = tiles("2233445566778m");
    let table = suit_table(&counts, &[4u8; 34], 0);
    assert_eq!((table.get(4, 0), table.get(4, 1)), (0, 1));
    assert_eq!(table.get(4, 1), by_trying_all(&counts, &[4u8; 34], 0, 9, 4, 1));
}

fn least_split(tables: &[SuitTable; 4], groups: u8) -> u8 {
    let mut best = 255u32;
    for a in 0..=groups {
        for b in 0..=groups - a {
            for c in 0..=groups - a - b {
                let d = groups - a - b - c;
                for pair in 0..4 {
                    let shares = [a, b, c, d];
                    let mut sum = 0u32;
                    let mut open = true;
                    for s in 0..4 {
                        let n = tables[s].get(shares[s], if s == pair { 1 } else { 0 });
                        open = open && n < 255;
                        sum += n as u32;
                    }
                    if open {
                        best = best.min(sum);
                    }
                }
            }
        }
    }
    best as u8
}

#[test]
fn combine_tries_every_way_of_dealing_out() {
    let mut dice = Dice(33);
    for _ in 0..200 {
        let mut tables = [SuitTable { least: [255; 10] }; 4];
        for table in tables.iter_mut() {
            for entry in table.least.iter_mut() {
                *entry = if dice.roll(4) == 0 { 255 } else { dice.roll(37) as u8 };
            }
        }
        for groups in 0..=4 {
            assert_eq!(combine(&tables, groups), least_split(&tables, groups));
        }
    }
}

#[test]
fn combine_by_hand() {
    let closed = SuitTable { least: [255; 10] };
    let mut first = closed;
    let mut second = closed;
    // One group from the first suit for 2 tiles, the pair from the second for 1.
    first.least[2] = 2;
    second.least[1] = 1;
    let mut third = closed;
    third.least[0] = 0;
    let tables = [first, second, third, third];
    assert_eq!(combine(&tables, 1), 3);
    // No way to place two groups, or none.
    assert_eq!(combine(&tables, 2), 255);
    assert_eq!(combine(&tables, 0), 255);
    // A cheaper way through another suit wins.
    let mut fourth = closed;
    fourth.least[0] = 0;
    fourth.least[3] = 2;
    let mut first_idle = first;
    first_idle.least[0] = 0;
    let mut second_idle = second;
    second_idle.least[0] = 0;
    let tables = [first_idle, second_idle, third, fourth];
    assert_eq!(combine(&tables, 1), 2);
    // Nothing at all cannot hold a pair.
    assert_eq!(combine(&[closed; 4], 0), 255);
}

#[test]
fn suits_joined_are_the_whole_hand() {
    for (text, groups, expected) in [
        ("123m456p789s11222z", 4, 0),
        ("199m146779p12s246z", 4, 5),
        ("1111m1111222z33z", 4, 2),
        ("147m258p369s12345z", 4, 9),
        ("123m1z", 1, 1),
        ("19m", 0, 1),
    ] {
        let counts = tiles(text);
        let limits = [4u8; 34];
        let tables = suit_tables(&counts, &limits);
        assert_eq!(combine(&tables, groups), expected);
        assert_eq!(nearest_groups_and_pair(&counts, &limits, groups), expected);
    }
}
