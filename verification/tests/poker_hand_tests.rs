use poker::cards::{Card, Ranks, Suits};
use poker::poker_hand::{PokerHand, PokerHandRanks};

#[test]
fn test_poker_hand_ranks() {
    assert!(PokerHandRanks::FullHouse == PokerHandRanks::FullHouse);
    assert!(PokerHandRanks::HighCard < PokerHandRanks::Pair);
}

#[test]
fn test_poker_hand_comparisons() {
    let hand1 = PokerHand {
        hand_handle: "4D 4H JD 6C 2S",
        hand_rank: PokerHandRanks::Pair,
        cards: vec![
            Card::new(Ranks::Four, Suits::Diamonds),
            Card::new(Ranks::Four, Suits::Hearts),
            Card::new(Ranks::Jack, Suits::Diamonds),
            Card::new(Ranks::Six, Suits::Clubs),
            Card::new(Ranks::Two, Suits::Spades),
        ],
    };
    // 6C is less than 7C.
    let hand2 = PokerHand {
        hand_handle: "4D 4H JD 7C 2S",
        hand_rank: PokerHandRanks::Pair,
        cards: vec![
            Card::new(Ranks::Four, Suits::Diamonds),
            Card::new(Ranks::Four, Suits::Hearts),
            Card::new(Ranks::Jack, Suits::Diamonds),
            Card::new(Ranks::Seven, Suits::Clubs),
            Card::new(Ranks::Two, Suits::Spades),
        ],
    };
    assert!(hand1 < hand2);
    // Same ranks but different suits.
    let hand3 = PokerHand {
        hand_handle: "4C 4S JH 6S 2S",
        hand_rank: PokerHandRanks::Pair,
        cards: vec![
            Card::new(Ranks::Four, Suits::Clubs),
            Card::new(Ranks::Four, Suits::Spades),
            Card::new(Ranks::Jack, Suits::Hearts),
            Card::new(Ranks::Six, Suits::Spades),
            Card::new(Ranks::Two, Suits::Spades),
        ],
    };
    assert!(hand3 == hand1);
}

#[test]
fn test_parse_hand_str() {
    let hand_str = "9H AS JC 10D 5H";
    let cards = PokerHand::parse_hand_str(hand_str).unwrap();
    assert_eq!(cards[0].rank, Ranks::Nine);
    assert_eq!(cards[0].suit, Suits::Hearts);
    assert_eq!(cards[1].rank, Ranks::Ace);
    assert_eq!(cards[1].suit, Suits::Spades);
    assert_eq!(cards[2].rank, Ranks::Jack);
    assert_eq!(cards[2].suit, Suits::Clubs);
    assert_eq!(cards[3].rank, Ranks::Ten);
    assert_eq!(cards[3].suit, Suits::Diamonds);
    assert_eq!(cards[4].rank, Ranks::Five);
    assert_eq!(cards[4].suit, Suits::Hearts);
}

#[test]
fn test_parse_hand_str_invalid_rank() {
    let hand_str = "9H AS JC 12D 5H";
    let result = PokerHand::parse_hand_str(hand_str);
    assert_eq!(result, None);
}

#[test]
fn test_parse_hand_str_invalid_suit() {
    let hand_str = "9H AS JK 10D 5H";
    let result = PokerHand::parse_hand_str(hand_str);
    assert_eq!(result, None);
}

#[test]
fn test_parse_hand_str_not_enough_cards() {
    let hand_str = "9H AS JC 10D";
    let result = PokerHand::parse_hand_str(hand_str);
    assert_eq!(result, None);
}

#[test]
fn test_parse_hand_str_too_many_cards() {
    let hand_str = "9H AS JC 10D 5H QS";
    let result = PokerHand::parse_hand_str(hand_str);
    assert_eq!(result, None);
}

#[test]
fn test_duplicate_cards() {
    let hand1 = PokerHand::parse_hand_str("9H AS JC 10D 5H").unwrap();
    assert!(!PokerHand::check_for_duplicate_cards(&hand1));
    let hand2 = PokerHand::parse_hand_str("9H AS JC JC 5H").unwrap();
    assert!(PokerHand::check_for_duplicate_cards(&hand2));
}

#[test]
fn test_check_flush() {
    let cards1 = PokerHand::parse_hand_str("9H AS JC 7C 5H").unwrap();
    let mut hand_rank = PokerHandRanks::HighCard;
    assert!(!PokerHand::check_flush(&cards1, &mut hand_rank));
    assert!(hand_rank == PokerHandRanks::HighCard);
    let cards2 = PokerHand::parse_hand_str("9H AH JH 7H 5H").unwrap();
    assert!(PokerHand::check_flush(&cards2, &mut hand_rank));
    assert!(hand_rank == PokerHandRanks::Flush);
}

#[test]
fn test_check_straight() {
    let mut cards = PokerHand::parse_hand_str("9H AS JC 7C 5H").unwrap();
    let mut hand_rank = PokerHandRanks::HighCard;
    // Not a straight
    assert!(!PokerHand::check_straight(&mut cards, &mut hand_rank));
    assert!(hand_rank == PokerHandRanks::HighCard);
    cards = PokerHand::parse_hand_str("9H 8S 7C 6C 5H").unwrap();
    // A straight
    assert!(PokerHand::check_straight(&mut cards, &mut hand_rank));
    assert!(hand_rank == PokerHandRanks::Straight);
    cards = PokerHand::parse_hand_str("9H 8H 7H 6H 5H").unwrap();
    hand_rank = PokerHandRanks::Flush;
    // A straight flush
    assert!(PokerHand::check_straight(&mut cards, &mut hand_rank));
    assert!(hand_rank == PokerHandRanks::StraightFlush);
    // An ace-low straight
    cards = PokerHand::parse_hand_str("AH 5H 4H 3H 2H").unwrap();
    hand_rank = PokerHandRanks::Flush;
    assert!(PokerHand::check_straight(&mut cards, &mut hand_rank));
    assert!(hand_rank == PokerHandRanks::StraightFlush);
    assert!(cards[4].rank == Ranks::Ace);
    assert!(cards[0].rank == Ranks::Five);
}

#[test]
fn test_check_four_of_a_kind() {
    let mut cards = PokerHand::parse_hand_str("AH JS 9C 7C 5H").unwrap();
    let mut hand_rank = PokerHandRanks::HighCard;
    // Not a four of a kind
    assert!(!PokerHand::check_four_of_a_kind(&mut cards, &mut hand_rank));
    assert!(hand_rank == PokerHandRanks::HighCard);
    assert!(cards[2].rank == Ranks::Nine);
    // Four at start of the hand.
    cards = PokerHand::parse_hand_str("9H 9S 9C 9D 5H").unwrap();
    assert!(PokerHand::check_four_of_a_kind(&mut cards, &mut hand_rank));
    assert!(hand_rank == PokerHandRanks::FourOfAKind);
    // Four at end of the hand.
    cards = PokerHand::parse_hand_str("JD 9H 9S 9C 9D").unwrap();
    hand_rank = PokerHandRanks::HighCard;
    assert!(PokerHand::check_four_of_a_kind(&mut cards, &mut hand_rank));
    assert!(hand_rank == PokerHandRanks::FourOfAKind);
    assert!(cards[0].rank == Ranks::Nine);
    assert!(cards[4].rank == Ranks::Jack);
}

#[test]
fn test_check_three_and_full_house() {
    let mut cards = PokerHand::parse_hand_str("AH QS JC 7C 5H").unwrap();
    let mut hand_rank = PokerHandRanks::HighCard;
    // Not a three of a kind
    assert!(!PokerHand::check_three_and_full_house(&mut cards, &mut hand_rank));
    assert!(hand_rank == PokerHandRanks::HighCard);
    // Three of a kind.
    cards = PokerHand::parse_hand_str("JD 9H 9S 9C 5D").unwrap();
    assert!(PokerHand::check_three_and_full_house(&mut cards, &mut hand_rank));
    assert!(hand_rank == PokerHandRanks::ThreeOfAKind);
    assert!(cards[0].rank == Ranks::Nine);
    assert!(cards[3].rank == Ranks::Jack);
    // Full house
    cards = PokerHand::parse_hand_str("7D 7H 9S 9C 9D").unwrap();
    assert!(PokerHand::check_three_and_full_house(&mut cards, &mut hand_rank));
    assert!(hand_rank == PokerHandRanks::FullHouse);
    assert!(cards[0].rank == Ranks::Nine);
    assert!(cards[3].rank == Ranks::Seven);
}

#[test]
fn test_check_one_and_two_pairs() {
    let mut cards = PokerHand::parse_hand_str("AH QS JC 7C 5H").unwrap();
    let mut hand_rank = PokerHandRanks::HighCard;
    // No pairs
    assert!(!PokerHand::check_one_and_two_pairs(&mut cards, &mut hand_rank));
    assert!(hand_rank == PokerHandRanks::HighCard);
    // One pair
    cards = PokerHand::parse_hand_str("AH QS 7C 7C 5H").unwrap();
    assert!(PokerHand::check_one_and_two_pairs(&mut cards, &mut hand_rank));
    assert!(hand_rank == PokerHandRanks::Pair);
    assert!(cards[0].rank == Ranks::Seven);
    // Two pairs
    cards = PokerHand::parse_hand_str("QH 9H 9S 7C 7C").unwrap();
    assert!(PokerHand::check_one_and_two_pairs(&mut cards, &mut hand_rank));
    assert!(hand_rank == PokerHandRanks::TwoPair);
    assert!(cards[0].rank == Ranks::Nine);
    assert!(cards[2].rank == Ranks::Seven);
    assert!(cards[4].rank == Ranks::Queen);
}
