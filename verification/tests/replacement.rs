use xiangting::engine::{least_missing_tiles, replacement_number};
use xiangting::error::HandError;
use xiangting::hand::validate;
use xiangting::meld::{ClaimedPosition, Meld};
use xiangting::tile::Variant;

fn tiles(text: &str) -> [u8; 34] {
    let mut counts = [0u8; 34];
    let mut pending: Vec<usize> = Vec::new();
    for ch in text.chars() {
        match ch {
            '1'..='9' => pending.push(ch as usize - '1' as usize),
            'm' | 'p' | 's' | 'z' => {
                let base = match ch {
                    'm' => 0,
                    'p' => 9,
                    's' => 18,
                    _ => 27,
                };
                for n in pending.drain(..) {
                    counts[base + n] += 1;
                }
            }
            _ => panic!("unexpected character"),
        }
    }
    assert!(pending.is_empty());
    counts
}

const NONE: [Option<Meld>; 4] = [None, None, None, None];

#[test]
fn four_groups_and_a_pair_need_nothing() {
    let counts = tiles("123m456p789s11222z");
    assert_eq!(replacement_number(&counts, &NONE, Variant::Four), Ok(0));
    let counts = tiles("111m456p789s11222z");
    assert_eq!(replacement_number(&counts, &NONE, Variant::Four), Ok(0));
    assert_eq!(replacement_number(&counts, &NONE, Variant::Three), Ok(0));
}

#[test]
fn declared_melds_take_tiles_out_of_reach() {
    let counts = tiles("123m1z");
    let melds = [
        Some(Meld::Sequence(12, ClaimedPosition::Low)),
        Some(Meld::Quad(24)),
        Some(Meld::Triplet(27)),
        None,
    ];
    assert_eq!(replacement_number(&counts, &NONE, Variant::Four), Ok(1));
    assert_eq!(replacement_number(&counts, &melds, Variant::Four), Ok(2));
}

#[test]
fn untold_meld_does_not_overlap_the_hand() {
    let counts = tiles("123m1z");
    let melds = [Some(Meld::Sequence(12, ClaimedPosition::Low)), Some(Meld::Quad(24)), None, None];
    assert_eq!(replacement_number(&counts, &melds, Variant::Four), Ok(1));
}

#[test]
fn three_player_melds() {
    let counts = tiles("111m1z");
    let three = [Some(Meld::Triplet(12)), Some(Meld::Quad(24)), Some(Meld::Triplet(27)), None];
    let two = [Some(Meld::Triplet(12)), Some(Meld::Quad(24)), None, None];
    assert_eq!(replacement_number(&counts, &NONE, Variant::Three), Ok(1));
    assert_eq!(replacement_number(&counts, &three, Variant::Three), Ok(2));
    assert_eq!(replacement_number(&counts, &two, Variant::Three), Ok(1));
}

#[test]
fn three_players_cannot_run_from_one_of_characters() {
    let counts = tiles("1111m1111222z33z");
    assert_eq!(replacement_number(&counts, &NONE, Variant::Four), Ok(2));
    assert_eq!(replacement_number(&counts, &NONE, Variant::Three), Ok(3));
}

#[test]
fn scattered_hand() {
    let counts = tiles("199m146779p12s246z");
    assert_eq!(replacement_number(&counts, &NONE, Variant::Four), Ok(5));
}

#[test]
fn position_of_the_claimed_tile_changes_nothing() {
    let counts = tiles("123m1z");
    for position in [ClaimedPosition::Low, ClaimedPosition::Middle, ClaimedPosition::High] {
        let melds = [Some(Meld::Sequence(12, position)), Some(Meld::Quad(24)), Some(Meld::Triplet(27)), None];
        assert_eq!(replacement_number(&counts, &melds, Variant::Four), Ok(2));
    }
}

#[test]
fn waiting_hands_need_one_tile() {
    assert_eq!(replacement_number(&tiles("123m456p789s1122z"), &NONE, Variant::Four), Ok(1));
    assert_eq!(replacement_number(&tiles("1112345678999m"), &NONE, Variant::Four), Ok(1));
    assert_eq!(replacement_number(&tiles("1z"), &NONE, Variant::Four), Ok(1));
    assert_eq!(replacement_number(&tiles("12z"), &NONE, Variant::Four), Ok(1));
    assert_eq!(replacement_number(&tiles("11z"), &NONE, Variant::Four), Ok(0));
    assert_eq!(replacement_number(&tiles("23m11z"), &NONE, Variant::Four), Ok(1));
    assert_eq!(replacement_number(&tiles("13m11z"), &NONE, Variant::Four), Ok(1));
    assert_eq!(replacement_number(&tiles("123m11z"), &NONE, Variant::Four), Ok(0));
}

#[test]
fn seven_pairs_win() {
    assert_eq!(replacement_number(&tiles("1133557799m1122z"), &NONE, Variant::Four), Ok(0));
    assert_eq!(replacement_number(&tiles("113355m7799p1122z"), &NONE, Variant::Four), Ok(0));
    assert_eq!(replacement_number(&tiles("1133557799m112z"), &NONE, Variant::Four), Ok(1));
}

#[test]
fn four_of_a_kind_is_one_pair_only() {
    assert_eq!(replacement_number(&tiles("111133557799m11z"), &NONE, Variant::Four), Ok(2));
}

#[test]
fn thirteen_orphans_win() {
    assert_eq!(replacement_number(&tiles("19m19p19s12345677z"), &NONE, Variant::Four), Ok(0));
    assert_eq!(replacement_number(&tiles("19m19p19s12345677z"), &NONE, Variant::Three), Ok(0));
    assert_eq!(replacement_number(&tiles("19m19p19s1234567z"), &NONE, Variant::Four), Ok(1));
    assert_eq!(replacement_number(&tiles("19m19p19s1234566z"), &NONE, Variant::Four), Ok(1));
}

#[test]
fn special_hands_need_all_fourteen_tiles_in_the_hand() {
    // Ten tiles and one untold meld: pairs alone do not win.
    assert_eq!(replacement_number(&tiles("1133557799m"), &NONE, Variant::Four), Ok(3));
    assert_eq!(replacement_number(&tiles("1133557799m1z"), &NONE, Variant::Four), Ok(3));
}

#[test]
fn far_from_everything() {
    // No pair, no neighbours: seven pairs and thirteen orphans are both
    // seven tiles away, groups and a pair nine.
    let counts = tiles("147m258p369s12345z");
    assert_eq!(replacement_number(&counts, &NONE, Variant::Four), Ok(7));
    let hand = validate(&counts, &NONE, Variant::Four).unwrap();
    assert_eq!(xiangting::combine::nearest_groups_and_pair(&hand.counts, &hand.limits, 4), 9);
    assert_eq!(xiangting::pairs::nearest_seven_pairs(&hand.counts, &hand.limits), 7);
    assert_eq!(xiangting::orphans::nearest_thirteen_orphans(&hand.counts, &hand.limits), 7);
}

#[test]
fn normalized_hand_gives_the_same_number() {
    let counts = tiles("199m146779p12s246z");
    let hand = validate(&counts, &NONE, Variant::Four).unwrap();
    assert_eq!(hand.counts, counts);
    assert_eq!(hand.limits, [4u8; 34]);
    assert_eq!(hand.groups, 4);
    assert_eq!(hand.replacement_number(), 5);
    assert_eq!(least_missing_tiles(&hand.counts, &hand.limits, hand.groups), 5);
}

#[test]
fn limits_follow_melds_and_variant() {
    let counts = tiles("19m12z");
    let melds = [Some(Meld::Sequence(12, ClaimedPosition::Middle)), Some(Meld::Quad(24)), Some(Meld::Triplet(27)), None];
    let hand = validate(&counts, &melds, Variant::Four).unwrap();
    let mut limits = [4u8; 34];
    limits[12] = 3;
    limits[13] = 3;
    limits[14] = 3;
    limits[24] = 0;
    limits[27] = 1;
    assert_eq!(hand.limits, limits);
    assert_eq!(hand.groups, 1);
    let melds = [Some(Meld::Triplet(12)), None, None, None];
    let hand = validate(&counts, &melds, Variant::Three).unwrap();
    let mut limits = [4u8; 34];
    for i in 1..=7 {
        limits[i] = 0;
    }
    limits[12] = 1;
    assert_eq!(hand.limits, limits);
}

#[test]
fn no_winning_hand_in_reach_of_the_limits() {
    let counts = tiles("123m1z");
    assert_eq!(least_missing_tiles(&counts, &[0u8; 34], 1), 255);
    assert_eq!(least_missing_tiles(&counts, &[1u8; 34], 1), 255);
    let mut limits = [1u8; 34];
    limits[30] = 2;
    assert_eq!(least_missing_tiles(&counts, &limits, 1), 2);
}

#[test]
fn more_than_four_copies() {
    let mut counts = tiles("123m456p789s11z");
    counts[30] = 5;
    assert_eq!(replacement_number(&counts, &NONE, Variant::Four), Err(HandError::TileCountOutOfRange));
    // Five copies come first even where the three-player check would fail too.
    counts[3] = 5;
    assert_eq!(replacement_number(&counts, &NONE, Variant::Three), Err(HandError::TileCountOutOfRange));
}

#[test]
fn more_than_four_copies_with_melds() {
    let counts = tiles("123m11z");
    let melds = [Some(Meld::Triplet(27)), None, None, None];
    assert_eq!(replacement_number(&counts, &melds, Variant::Four), Err(HandError::TileCountOutOfRange));
    let counts = tiles("23m");
    let melds = [Some(Meld::Quad(1)), None, None, None];
    assert_eq!(replacement_number(&counts, &melds, Variant::Four), Err(HandError::TileCountOutOfRange));
    let counts = tiles("1z");
    let melds = [Some(Meld::Quad(5)), Some(Meld::Sequence(4, ClaimedPosition::High)), None, None];
    assert_eq!(replacement_number(&counts, &melds, Variant::Four), Err(HandError::TileCountOutOfRange));
}

#[test]
fn tiles_taken_out_for_three_players() {
    for tile in 1..=7 {
        let mut counts = tiles("11z");
        counts[tile] = 3;
        assert_eq!(replacement_number(&counts, &NONE, Variant::Three), Err(HandError::ForbiddenTileForVariant));
        assert_eq!(replacement_number(&counts, &NONE, Variant::Four), Ok(0));
    }
    let counts = tiles("1z");
    let melds = [Some(Meld::Triplet(4)), None, None, None];
    assert_eq!(replacement_number(&counts, &melds, Variant::Three), Err(HandError::ForbiddenTileForVariant));
    assert_eq!(replacement_number(&counts, &melds, Variant::Four), Ok(1));
    let melds = [Some(Meld::Quad(7)), None, None, None];
    assert_eq!(replacement_number(&counts, &melds, Variant::Three), Err(HandError::ForbiddenTileForVariant));
}

#[test]
fn tile_past_the_last_kind() {
    let counts = tiles("1z");
    let melds = [Some(Meld::Triplet(34)), None, None, None];
    assert_eq!(replacement_number(&counts, &melds, Variant::Four), Err(HandError::ForbiddenTileForVariant));
    let melds = [None, None, None, Some(Meld::Quad(255))];
    assert_eq!(replacement_number(&counts, &melds, Variant::Three), Err(HandError::ForbiddenTileForVariant));
}

#[test]
fn sequence_claimed_with_three_players() {
    let counts = tiles("1z");
    let melds = [Some(Meld::Sequence(9, ClaimedPosition::Low)), None, None, None];
    assert_eq!(replacement_number(&counts, &melds, Variant::Three), Err(HandError::IllegalMeldForVariant));
    assert_eq!(replacement_number(&counts, &melds, Variant::Four), Ok(1));
    // The variant is looked at before the base.
    let melds = [Some(Meld::Sequence(8, ClaimedPosition::Low)), None, None, None];
    assert_eq!(replacement_number(&counts, &melds, Variant::Three), Err(HandError::IllegalMeldForVariant));
}

#[test]
fn sequence_that_leaves_its_suit() {
    let counts = tiles("1z");
    for base in [7u8, 8, 16, 17, 25, 26, 27, 33, 34, 200] {
        let melds = [None, Some(Meld::Sequence(base, ClaimedPosition::Low)), None, None];
        assert_eq!(replacement_number(&counts, &melds, Variant::Four), Err(HandError::IllegalSequenceBase));
    }
    for base in [0u8, 6, 9, 15, 18, 24] {
        let melds = [None, Some(Meld::Sequence(base, ClaimedPosition::High)), None, None];
        assert_eq!(replacement_number(&counts, &melds, Variant::Four), Ok(1));
    }
}

#[test]
fn too_many_tiles() {
    assert_eq!(replacement_number(&tiles("123456789m123456p"), &NONE, Variant::Four), Err(HandError::TooManyTiles));
    assert_eq!(replacement_number(&tiles("123456789m1234567p"), &NONE, Variant::Four), Err(HandError::TooManyTiles));
    // Eleven tiles and two melds make seventeen.
    let melds = [Some(Meld::Triplet(27)), Some(Meld::Triplet(28)), None, None];
    assert_eq!(replacement_number(&tiles("123456789m12p"), &melds, Variant::Four), Err(HandError::TooManyTiles));
    assert_eq!(replacement_number(&tiles("123456m12p"), &melds, Variant::Four), Ok(1));
    // Four melds leave room for one or two tiles.
    let melds = [Some(Meld::Triplet(27)), Some(Meld::Triplet(28)), Some(Meld::Quad(29)), Some(Meld::Triplet(30))];
    assert_eq!(replacement_number(&tiles("1m"), &melds, Variant::Four), Ok(1));
    assert_eq!(replacement_number(&tiles("11m"), &melds, Variant::Four), Ok(0));
    assert_eq!(replacement_number(&tiles("1123m"), &melds, Variant::Four), Err(HandError::TooManyTiles));
}

#[test]
fn whole_number_of_groups_is_no_hand() {
    assert_eq!(replacement_number(&[0u8; 34], &NONE, Variant::Four), Err(HandError::TooManyTiles));
    assert_eq!(replacement_number(&tiles("123m"), &NONE, Variant::Four), Err(HandError::TooManyTiles));
    assert_eq!(replacement_number(&tiles("123456789m123p"), &NONE, Variant::Three), Err(HandError::ForbiddenTileForVariant));
    assert_eq!(replacement_number(&tiles("111999m111p111z"), &NONE, Variant::Three), Err(HandError::TooManyTiles));
}

#[test]
fn validate_names_the_first_failing_check() {
    let mut counts = tiles("2m");
    counts[30] = 5;
    let melds = [Some(Meld::Sequence(8, ClaimedPosition::Low)), Some(Meld::Triplet(40)), None, None];
    assert_eq!(validate(&counts, &melds, Variant::Three).err(), Some(HandError::TileCountOutOfRange));
    counts[30] = 0;
    assert_eq!(validate(&counts, &melds, Variant::Three).err(), Some(HandError::ForbiddenTileForVariant));
    counts[1] = 0;
    counts[0] = 1;
    assert_eq!(validate(&counts, &melds, Variant::Three).err(), Some(HandError::IllegalMeldForVariant));
    assert_eq!(validate(&counts, &melds, Variant::Four).err(), Some(HandError::IllegalSequenceBase));
    let melds = [Some(Meld::Sequence(6, ClaimedPosition::Low)), Some(Meld::Triplet(40)), None, None];
    assert_eq!(validate(&counts, &melds, Variant::Four).err(), Some(HandError::ForbiddenTileForVariant));
    let melds = [Some(Meld::Sequence(6, ClaimedPosition::Low)), Some(Meld::Quad(8)), None, None];
    assert_eq!(validate(&counts, &melds, Variant::Four).err(), Some(HandError::TileCountOutOfRange));
    let melds = [Some(Meld::Sequence(6, ClaimedPosition::Low)), Some(Meld::Quad(9)), None, None];
    assert!(validate(&counts, &melds, Variant::Four).is_ok());
    counts[0] = 3;
    assert_eq!(validate(&counts, &melds, Variant::Four).err(), Some(HandError::TooManyTiles));
}

#[test]
fn seven_pairs_that_are_groups_too() {
    // 223344m 667788p 11z reads both ways.
    let counts = tiles("223344m667788p11z");
    assert_eq!(replacement_number(&counts, &NONE, Variant::Four), Ok(0));
    let hand = validate(&counts, &NONE, Variant::Four).unwrap();
    assert_eq!(xiangting::combine::nearest_groups_and_pair(&hand.counts, &hand.limits, 4), 0);
    assert_eq!(xiangting::pairs::nearest_seven_pairs(&hand.counts, &hand.limits), 0);
    // 1133557799m1122z only as pairs.
    let counts = tiles("1133557799m1122z");
    let hand = validate(&counts, &NONE, Variant::Four).unwrap();
    assert_eq!(xiangting::combine::nearest_groups_and_pair(&hand.counts, &hand.limits, 4), 4);
    assert_eq!(xiangting::pairs::nearest_seven_pairs(&hand.counts, &hand.limits), 0);
}

#[test]
fn seven_pairs_of_three_players_skip_the_missing_tiles() {
    // Six pairs and a lone 9m: the seventh pair is one tile away.
    let counts = tiles("119m1122334455z");
    assert_eq!(replacement_number(&counts, &NONE, Variant::Three), Ok(1));
    // Five pairs: two more pairs are four tiles away, and they cannot be
    // of the tiles taken out.
    let hand = validate(&tiles("11m11223344z"), &NONE, Variant::Three).unwrap();
    assert_eq!(xiangting::pairs::nearest_seven_pairs(&hand.counts, &hand.limits), 4);
    let mut limits = [0u8; 34];
    for t in [0, 27, 28, 29, 30] {
        limits[t] = 4;
    }
    assert_eq!(xiangting::pairs::nearest_seven_pairs(&hand.counts, &limits), 255);
}

#[test]
fn never_more_than_fourteen() {
    for text in ["147m258p369s12345z", "147m258p369s1234z", "1m", "14m", "147m2p", "19m19p19s1234567z"] {
        let n = replacement_number(&tiles(text), &NONE, Variant::Four).unwrap();
        assert!(n <= 14);
    }
    assert_eq!(replacement_number(&tiles("147m258p369s1234z"), &NONE, Variant::Four), Ok(7));
    assert_eq!(replacement_number(&tiles("14m"), &NONE, Variant::Four), Ok(1));
    assert_eq!(replacement_number(&tiles("147m2p"), &NONE, Variant::Four), Ok(3));
}
