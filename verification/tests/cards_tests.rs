use poker::cards::{Card, Ranks, Suits};

#[test]
fn test_ranks() {
    assert!(Ranks::Ten == Ranks::Ten);
    assert!(Ranks::Ten < Ranks::Jack);
    assert!(Ranks::Ten > Ranks::Nine);
}

#[test]
fn test_suits() {
    assert!(Suits::Clubs == Suits::Clubs);
    assert!(Suits::Clubs != Suits::Hearts);
}

#[test]
fn test_cards() {
    let card1 = Card::new(Ranks::Ten, Suits::Clubs);
    let card2 = Card::new(Ranks::Ten, Suits::Clubs);
    let card3 = Card::new(Ranks::Nine, Suits::Clubs);
    let card4 = Card::new(Ranks::Ten, Suits::Hearts);
    assert!(card1 == card2);
    assert!(card1 != card3);
    assert!(card1 != card4);
    assert!(card1 > card3);
    // Identity equality is stricter than rank-based ordering: card1 and
    // card4 compare equal by rank but are distinct cards.
    assert!(card1 != card4);
}

#[test]
fn test_cards_sort() {
    // Confirm that the rank-only ordering sorts as expected.
    let card1 = Card::new(Ranks::Jack, Suits::Diamonds);
    let card2 = Card::new(Ranks::Ten, Suits::Clubs);
    let card3 = Card::new(Ranks::Nine, Suits::Clubs);
    let card4 = Card::new(Ranks::Ten, Suits::Hearts);
    let mut cards = vec![card1, card2, card3, card4];
    cards.sort_by(|a, b| a.partial_cmp(b).unwrap());
    assert!(cards[0] == card3);
    assert!(cards[3] == card1);
}
