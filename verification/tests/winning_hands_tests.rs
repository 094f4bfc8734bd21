use poker::cards::Ranks;
use poker::poker_hand::{PokerHand, PokerHandRanks};
use poker::winning_hands;

fn scoring_ranks(hand: &str) -> Vec<u8> {
    let h = PokerHand::new(hand).unwrap();
    h.cards.iter().map(|c| c.rank.value()).collect()
}

#[test]
fn test_round_trip_high_card() {
    let h = PokerHand::new("9H AS JC 10D 5H").unwrap();
    assert_eq!(h.hand_rank, PokerHandRanks::HighCard);
    assert_eq!(scoring_ranks("9H AS JC 10D 5H"), vec![14, 11, 10, 9, 5]);
    assert_eq!(h.hand_handle, "9H AS JC 10D 5H");
}

#[test]
fn test_pair_first_differing_kicker_decides() {
    let h1 = PokerHand::new("4D 4H JD 6C 2S").unwrap();
    let h2 = PokerHand::new("4D 4H JD 7C 2S").unwrap();
    assert_eq!(h1.hand_rank, PokerHandRanks::Pair);
    assert_eq!(scoring_ranks("4D 4H JD 6C 2S"), vec![4, 4, 11, 6, 2]);
    assert!(h1 < h2);
    assert!(!(h2 < h1));
}

#[test]
fn test_equal_value_despite_suits() {
    let h1 = PokerHand::new("4C 4S JH 6S 2S").unwrap();
    let h2 = PokerHand::new("4D 4H JD 6C 2S").unwrap();
    assert!(h1 == h2);
    assert!(!(h1 < h2) && !(h2 < h1));
}

#[test]
fn test_wheel_straight_flush_ace_low() {
    let h = PokerHand::new("AH 5H 4H 3H 2H").unwrap();
    assert_eq!(h.hand_rank, PokerHandRanks::StraightFlush);
    assert_eq!(h.cards[0].rank, Ranks::Five);
    assert_eq!(h.cards[4].rank, Ranks::Ace);
    assert_eq!(scoring_ranks("AH 5H 4H 3H 2H"), vec![5, 4, 3, 2, 14]);
}

#[test]
fn test_wheel_loses_to_six_high_straight() {
    let wheel = PokerHand::new("AH 5D 4C 3S 2H").unwrap();
    let six_high = PokerHand::new("6C 5D 4H 3S 2C").unwrap();
    assert_eq!(wheel.hand_rank, PokerHandRanks::Straight);
    assert_eq!(six_high.hand_rank, PokerHandRanks::Straight);
    assert!(wheel < six_high);
}

#[test]
fn test_invalid_rank_fails_to_parse() {
    let r = PokerHand::new("9H AS JC 12D 5H");
    assert!(r.is_err());
    assert_eq!(r.unwrap_err().message(), "Invalid poker hand");
}

#[test]
fn test_duplicate_card_rejected_after_parsing() {
    // The string parses syntactically but holds the Jack of Clubs twice.
    assert!(PokerHand::parse_hand_str("9H AS JC JC 5H").is_some());
    let r = PokerHand::new("9H AS JC JC 5H");
    assert!(r.is_err());
    assert_eq!(r.unwrap_err().message(), "Duplicate cards in hand");
}

#[test]
fn test_tied_pairs_beat_high_card() {
    let first = "4D 4H JD 6C 2S";
    let second = "4C 4S JH 6S 2S";
    let third = "2H 3D 5S 9C KD";
    let hands = [first, second, third];
    let winners = winning_hands(&hands).unwrap();
    assert_eq!(winners, vec![first, second]);
    // The winners are the original references, not reconstructed strings.
    assert_eq!(winners[0].as_ptr(), first.as_ptr());
    assert_eq!(winners[1].as_ptr(), second.as_ptr());
}

#[test]
fn test_no_winner_for_empty_input() {
    let hands: [&str; 0] = [];
    assert_eq!(winning_hands(&hands), None);
}

#[test]
fn test_no_winner_for_all_invalid_input() {
    let hands = ["", "not a hand", "9H AS JC JC 5H", "9H AS JC 12D 5H"];
    assert_eq!(winning_hands(&hands), None);
}

#[test]
fn test_single_valid_hand_wins() {
    let hands = ["nonsense", "2H 3D 5S 9C KD"];
    let winners = winning_hands(&hands).unwrap();
    assert_eq!(winners, vec!["2H 3D 5S 9C KD"]);
}

#[test]
fn test_category_hierarchy_order() {
    let high_card = PokerHand::new("2H 3D 5S 9C KD").unwrap();
    let pair = PokerHand::new("4D 4H JD 6C 2S").unwrap();
    let two_pair = PokerHand::new("QH 9H 9S 7C 7D").unwrap();
    let three = PokerHand::new("JD 9H 9S 9C 5D").unwrap();
    let straight = PokerHand::new("9H 8S 7C 6C 5H").unwrap();
    let flush = PokerHand::new("9H AH JH 7H 5H").unwrap();
    let full_house = PokerHand::new("7D 7H 9S 9C 9D").unwrap();
    let four = PokerHand::new("JD 9H 9S 9C 9D").unwrap();
    let straight_flush = PokerHand::new("9H 8H 7H 6H 5H").unwrap();
    assert_eq!(high_card.hand_rank, PokerHandRanks::HighCard);
    assert_eq!(pair.hand_rank, PokerHandRanks::Pair);
    assert_eq!(two_pair.hand_rank, PokerHandRanks::TwoPair);
    assert_eq!(three.hand_rank, PokerHandRanks::ThreeOfAKind);
    assert_eq!(straight.hand_rank, PokerHandRanks::Straight);
    assert_eq!(flush.hand_rank, PokerHandRanks::Flush);
    assert_eq!(full_house.hand_rank, PokerHandRanks::FullHouse);
    assert_eq!(four.hand_rank, PokerHandRanks::FourOfAKind);
    assert_eq!(straight_flush.hand_rank, PokerHandRanks::StraightFlush);
    assert!(high_card < pair);
    assert!(pair < two_pair);
    assert!(two_pair < three);
    assert!(three < straight);
    assert!(straight < flush);
    assert!(flush < full_house);
    assert!(full_house < four);
    assert!(four < straight_flush);
}

#[test]
fn test_scoring_orders_by_category() {
    // Four of a kind: the four matching cards first, the kicker last.
    assert_eq!(scoring_ranks("JD 9H 9S 9C 9D"), vec![9, 9, 9, 9, 11]);
    // Full house: the triple first, the pair last.
    assert_eq!(scoring_ranks("7D 7H 9S 9C 9D"), vec![9, 9, 9, 7, 7]);
    // Three of a kind: the triple first, then the kickers descending.
    assert_eq!(scoring_ranks("JD 9H 9S 9C 5D"), vec![9, 9, 9, 11, 5]);
    // Two pair: higher pair, lower pair, kicker.
    assert_eq!(scoring_ranks("QH 9H 9S 7C 7D"), vec![9, 9, 7, 7, 12]);
    // One pair: the pair first, then the kickers descending.
    assert_eq!(scoring_ranks("AH QS 7C 7D 5H"), vec![7, 7, 14, 12, 5]);
    // Flush: descending rank order.
    assert_eq!(scoring_ranks("9H AH JH 7H 5H"), vec![14, 11, 9, 7, 5]);
}

#[test]
fn test_full_house_beats_flush() {
    let hands = ["7D 7H 9S 9C 9D", "9H AH JH 7H 5H"];
    let winners = winning_hands(&hands).unwrap();
    assert_eq!(winners, vec!["7D 7H 9S 9C 9D"]);
}

#[test]
fn test_strict_whole_string_match() {
    assert!(PokerHand::new(" 9H AS JC 10D 5H").is_err());
    assert!(PokerHand::new("9H AS JC 10D 5H ").is_err());
    assert!(PokerHand::new("9H  AS JC 10D 5H").is_err());
    assert!(PokerHand::new("9h AS JC 10D 5H").is_err());
    assert!(PokerHand::new("1H AS JC 10D 5H").is_err());
    assert!(PokerHand::new("10 AS JC 10D 5H").is_err());
    assert!(PokerHand::new("").is_err());
    assert!(PokerHand::new("9H,AS,JC,10D,5H").is_err());
}
