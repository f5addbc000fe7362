use xiangting::error::HandError;
use xiangting::flags::{empty_slots, necessary_tiles, tile_flags_to_boolean_array, unnecessary_tiles};
use xiangting::engine::replacement_number;
use xiangting::tile::Variant;

fn tiles(text: &str) -> [u8; 34] {
    let mut counts = [0u8; 34];
    let mut pending: Vec<usize> = Vec::new();
    for ch in text.chars() {
        match ch {
            '1'..='9' => pending.push(ch as usize - '1' as usize),
            'm' | 'p' | 's' | 'z' => {
                let base = match ch {
                    'm' => 0,
                    'p' => 9,
                    's' => 18,
                    _ => 27,
                };
                for n in pending.drain(..) {
                    counts[base + n] += 1;
                }
            }
            _ => panic!("unexpected character"),
        }
    }
    assert!(pending.is_empty());
    counts
}

#[test]
fn necessary_tiles_of_a_scattered_hand() {
    let counts = tiles("199m146779p12s246z");
    // 1239m 123456789p 1239s 1234567z
    assert_eq!(
        necessary_tiles(&counts, Variant::Four),
        Ok((5, 0b1111111_100000111_111111111_100000111))
    );
}

#[test]
fn unnecessary_tiles_of_a_scattered_hand() {
    let counts = tiles("199m146779p12s246z");
    // 1m 14679p 12s 246z
    assert_eq!(
        unnecessary_tiles(&counts, Variant::Four),
        Ok((5, 0b0101010_000000011_101101001_000000001))
    );
}

#[test]
fn necessary_tiles_by_variant() {
    let counts = tiles("1111m1111222z33z");
    // 23m
    assert_eq!(
        necessary_tiles(&counts, Variant::Four),
        Ok((2, 0b0000000_000000000_000000000_000000110))
    );
    // 9m 123456789p 123456789s 34567z
    assert_eq!(
        necessary_tiles(&counts, Variant::Three),
        Ok((3, 0b1111100_111111111_111111111_100000000))
    );
}

#[test]
fn unnecessary_tiles_by_variant() {
    let counts = tiles("1111m1111222z33z");
    // 1z
    assert_eq!(
        unnecessary_tiles(&counts, Variant::Four),
        Ok((2, 0b0000001_000000000_000000000_000000000))
    );
    // 1m 1z
    assert_eq!(
        unnecessary_tiles(&counts, Variant::Three),
        Ok((3, 0b0000001_000000000_000000000_000000001))
    );
}

#[test]
fn nine_gates_wait_on_every_character() {
    let counts = tiles("1112345678999m");
    assert_eq!(necessary_tiles(&counts, Variant::Four), Ok((1, 0b111111111)));
}

#[test]
fn thirteen_orphans_wait_on_thirteen_tiles() {
    let counts = tiles("19m19p19s1234567z");
    assert_eq!(
        necessary_tiles(&counts, Variant::Four),
        Ok((1, 0b1111111_100000001_100000001_100000001))
    );
}

#[test]
fn pair_wait() {
    let counts = tiles("123m456p789s1122z");
    assert_eq!(
        necessary_tiles(&counts, Variant::Four),
        Ok((1, 0b0000011_000000000_000000000_000000000))
    );
    assert_eq!(unnecessary_tiles(&counts, Variant::Four), Ok((1, 0)));
}

#[test]
fn complete_hand_has_nothing_to_draw() {
    let counts = tiles("123m456p789s11222z");
    assert_eq!(necessary_tiles(&counts, Variant::Four), Ok((0, 0)));
    // Any tile may go and the hand is still one tile from winning at worst,
    // but none can go without raising the number from zero.
    assert_eq!(unnecessary_tiles(&counts, Variant::Four), Ok((0, 0)));
}

#[test]
fn fourth_copy_is_never_necessary() {
    for text in ["1111m1111222z33z", "1111m2222m3333m4z", "1111z2222z3333z44z", "1111m1111p1111s1z"] {
        let counts = tiles(text);
        for variant in [Variant::Four, Variant::Three] {
            if let Ok((_, flags)) = necessary_tiles(&counts, variant) {
                for t in 0..34 {
                    if counts[t] == 4 {
                        assert_eq!((flags >> t) & 1, 0);
                    }
                }
            }
        }
    }
    // Three triplets with their fourth copies idle: a group and the pair
    // must come from elsewhere, and 2z 3z 4z cannot be drawn again.
    let counts = tiles("1222233334444z");
    assert_eq!(
        necessary_tiles(&counts, Variant::Four),
        Ok((4, 0b1110001_111111111_111111111_111111111))
    );
}

#[test]
fn absent_tile_is_never_unnecessary() {
    for text in ["199m146779p12s246z", "1111m1111222z33z", "123m456p789s1122z", "19m19p19s1234567z", "1z", "23m11z"] {
        let counts = tiles(text);
        for variant in [Variant::Four, Variant::Three] {
            if let Ok((_, flags)) = unnecessary_tiles(&counts, variant) {
                for t in 0..34 {
                    if counts[t] == 0 {
                        assert_eq!((flags >> t) & 1, 0);
                    }
                }
                assert_eq!(flags >> 34, 0);
            }
        }
    }
}

#[test]
fn tiles_out_of_play_are_never_necessary() {
    let counts = tiles("19m19p19s1234z");
    let (_, flags) = necessary_tiles(&counts, Variant::Three).unwrap();
    assert_eq!(flags & 0b011111110, 0);
    let (_, flags) = necessary_tiles(&tiles("1m1z"), Variant::Three).unwrap();
    assert_eq!(flags, 0b0000001_000000000_000000000_000000001);
    let (_, flags) = necessary_tiles(&tiles("1m1z"), Variant::Four).unwrap();
    assert_eq!(flags, 0b0000001_000000000_000000000_000000001);
    let (n, flags) = necessary_tiles(&tiles("1m"), Variant::Four).unwrap();
    assert_eq!((n, flags), (1, 1));
}

#[test]
fn flags_are_finite_differences() {
    for text in ["199m146779p12s246z", "1111m1111222z33z", "123m456p789s1122z", "2358m1469p37s156z", "1133557799m112z", "13579m2468p1z"] {
        let counts = tiles(text);
        for variant in [Variant::Four] {
            let held: u32 = counts.iter().map(|&c| c as u32).sum();
            let (base, necessary) = necessary_tiles(&counts, variant).unwrap();
            let (same, unnecessary) = unnecessary_tiles(&counts, variant).unwrap();
            assert_eq!(base, same);
            assert_eq!(replacement_number(&counts, &empty_slots(), variant), Ok(base));
            for t in 0..34 {
                if held % 3 == 1 && counts[t] < 4 {
                    let mut more = counts;
                    more[t] += 1;
                    let n = replacement_number(&more, &empty_slots(), variant).unwrap();
                    assert!(n <= base);
                    assert_eq!((necessary >> t) & 1 == 1, n < base);
                }
                if held % 3 == 2 && counts[t] > 0 {
                    let mut less = counts;
                    less[t] -= 1;
                    let n = replacement_number(&less, &empty_slots(), variant).unwrap();
                    assert!(n >= base);
                    assert_eq!((unnecessary >> t) & 1 == 1, n <= base);
                }
            }
        }
    }
}

#[test]
fn invalid_hands_give_no_flags() {
    let mut counts = tiles("123m11z");
    counts[9] = 5;
    assert_eq!(necessary_tiles(&counts, Variant::Four), Err(HandError::TileCountOutOfRange));
    assert_eq!(unnecessary_tiles(&counts, Variant::Four), Err(HandError::TileCountOutOfRange));
    let counts = tiles("123m11z");
    assert_eq!(necessary_tiles(&counts, Variant::Three), Err(HandError::ForbiddenTileForVariant));
    assert_eq!(unnecessary_tiles(&counts, Variant::Three), Err(HandError::ForbiddenTileForVariant));
    let counts = tiles("123m111z");
    assert_eq!(necessary_tiles(&counts, Variant::Four), Err(HandError::TooManyTiles));
    assert_eq!(unnecessary_tiles(&counts, Variant::Four), Err(HandError::TooManyTiles));
}

#[test]
fn flags_as_booleans() {
    // 1m 456p 789s 12z
    let flags: u64 = 0b0000011_111000000_000111000_000000001;
    let array = tile_flags_to_boolean_array(flags);
    assert_eq!(array.len(), 34);
    assert!(array[0]);
    assert!(array[12]);
    assert!(array[28]);
    assert!(!array[4]);
    for i in 0..34 {
        assert_eq!(array[i], (flags >> i) & 1 == 1);
    }
}

#[test]
fn every_single_bit_round_trips() {
    assert_eq!(tile_flags_to_boolean_array(0), [false; 34]);
    assert_eq!(tile_flags_to_boolean_array((1 << 34) - 1), [true; 34]);
    for bit in 0..34 {
        let array = tile_flags_to_boolean_array(1u64 << bit);
        for i in 0..34 {
            assert_eq!(array[i], i == bit);
        }
    }
    // Bits past the last tile are not looked at.
    assert_eq!(tile_flags_to_boolean_array(u64::MAX << 34), [false; 34]);
    assert_eq!(tile_flags_to_boolean_array(u64::MAX), [true; 34]);
}

#[test]
fn necessary_once_drawn_cannot_go() {
    for text in ["199m146779p12s246z", "1111m1111222z33z", "123m456p789s1122z", "19m19p19s1234567z", "1133557799m112z", "2358m1469p37s156z"] {
        let mut counts = tiles(text);
        // Thirteen tiles: let one go first where there are fourteen.
        if counts.iter().map(|&c| c as u32).sum::<u32>() == 14 {
            let t = (0..34).find(|&t| counts[t] > 0).unwrap();
            counts[t] -= 1;
        }
        let (_, necessary) = necessary_tiles(&counts, Variant::Four).unwrap();
        for t in 0..34 {
            if counts[t] < 4 {
                let mut more = counts;
                more[t] += 1;
                let (_, unnecessary) = unnecessary_tiles(&more, Variant::Four).unwrap();
                assert_eq!((necessary >> t) & 1 == 1, (unnecessary >> t) & 1 == 0);
            }
        }
    }
}
