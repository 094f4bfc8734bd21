//! Poker hands: parsing, classification and comparison.

use vstd::prelude::*;

verus! {

use crate::cards::{Card, Ranks, Suits};
use crate::cards::rank_value;
use crate::error::PokerHandError;
use crate::hand_spec::{spec_rank_char, spec_suit_char, spec_card_token, spec_parse_cards,
    spec_parse_hand, ranks_of, descending, has_duplicate_card, is_flush, is_run, is_wheel,
    is_straight, spec_category, spec_scoring_ranks, sorted_version_of, lemma_is_flush_multiset,
    lemma_swap_seq_multiset, lemma_classify_straight, lemma_classify_four,
    lemma_classify_three_full, lemma_classify_pairs, lemma_classify_high_card, value_le,
    lemma_lex_le_first_diff, lemma_lex_le_prefix};

/// Poker hand categories, in the order of their relative value.
#[derive(Debug, Eq, PartialEq, Ord, PartialOrd, Copy, Clone, Structural)]
pub enum PokerHandRanks {
    HighCard,
    Pair,
    TwoPair,
    ThreeOfAKind,
    Straight,
    Flush,
    FullHouse,
    FourOfAKind,
    StraightFlush,
}

/// The numeric weight of a hand category, 1 for a high card through 9 for a
/// straight flush.
pub open spec fn category_value(c: PokerHandRanks) -> int {
    match c {
        PokerHandRanks::HighCard => 1,
        PokerHandRanks::Pair => 2,
        PokerHandRanks::TwoPair => 3,
        PokerHandRanks::ThreeOfAKind => 4,
        PokerHandRanks::Straight => 5,
        PokerHandRanks::Flush => 6,
        PokerHandRanks::FullHouse => 7,
        PokerHandRanks::FourOfAKind => 8,
        PokerHandRanks::StraightFlush => 9,
    }
}

/// Two categories with the same weight are the same category.
pub proof fn lemma_category_value_injective(a: PokerHandRanks, b: PokerHandRanks)
    requires
        category_value(a) == category_value(b),
    ensures
        a == b,
{
}

impl PokerHandRanks {
    /// The numeric weight of this category, as an executable value.
    pub fn value(self) -> (v: u8)
        ensures
            v as int == category_value(self),
    {
        match self {
            PokerHandRanks::HighCard => 1,
            PokerHandRanks::Pair => 2,
            PokerHandRanks::TwoPair => 3,
            PokerHandRanks::ThreeOfAKind => 4,
            PokerHandRanks::Straight => 5,
            PokerHandRanks::Flush => 6,
            PokerHandRanks::FullHouse => 7,
            PokerHandRanks::FourOfAKind => 8,
            PokerHandRanks::StraightFlush => 9,
        }
    }
}

/// A poker hand.
///
/// `hand_handle` is a reference to the hand string from the calling
/// environment, so that the very same reference can be returned as a winning
/// hand. `cards` holds the five cards in scoring order: the order in which
/// the cards of two same-category hands are compared to break ties. A pair
/// hand, for example, is stored pair first, then the kickers in descending
/// rank order.
#[derive(Debug)]
pub struct PokerHand<'a> {
    pub hand_handle: &'a str,
    pub hand_rank: PokerHandRanks,
    pub cards: Vec<Card>,
}

/// The rank denoted by a single-character rank token, if any.
fn rank_from_char(c: char) -> (r: Option<Ranks>)
    ensures
        r == spec_rank_char(c),
{
    match c {
        '2' => Some(Ranks::Two),
        '3' => Some(Ranks::Three),
        '4' => Some(Ranks::Four),
        '5' => Some(Ranks::Five),
        '6' => Some(Ranks::Six),
        '7' => Some(Ranks::Seven),
        '8' => Some(Ranks::Eight),
        '9' => Some(Ranks::Nine),
        'J' => Some(Ranks::Jack),
        'Q' => Some(Ranks::Queen),
        'K' => Some(Ranks::King),
        'A' => Some(Ranks::Ace),
        _ => None,
    }
}

/// The suit denoted by a suit letter, if any.
fn suit_from_char(c: char) -> (r: Option<Suits>)
    ensures
        r == spec_suit_char(c),
{
    match c {
        'H' => Some(Suits::Hearts),
        'S' => Some(Suits::Spades),
        'C' => Some(Suits::Clubs),
        'D' => Some(Suits::Diamonds),
        _ => None,
    }
}

/// Reads the card token that begins at character `pos` of `hand`; on
/// success returns the card and the position just past the token.
fn parse_card_at(hand: &str, pos: usize) -> (r: Option<(Card, usize)>)
    requires
        pos <= hand@.len(),
    ensures
        match r {
            Some((c, np)) => pos < np <= hand@.len() && spec_card_token(hand@.skip(pos as int))
                == Some((c, np - pos as int)),
            None => spec_card_token(hand@.skip(pos as int)) is None,
        },
{
    let ghost s = hand@.skip(pos as int);
    let len = hand.unicode_len();
    proof {
        assert(s.len() == hand@.len() - pos);
        assert forall|i: int| 0 <= i < s.len() implies #[trigger] s[i] == hand@[pos + i] by {}
    }
    if len - pos < 2 {
        return None;
    }
    let c0 = hand.get_char(pos);
    assert(c0 == s[0]);
    if c0 == '1' {
        if len - pos >= 3 && hand.get_char(pos + 1) == '0' {
            match suit_from_char(hand.get_char(pos + 2)) {
                Some(su) => Some((Card::new(Ranks::Ten, su), pos + 3)),
                None => None,
            }
        } else {
            None
        }
    } else {
        match (rank_from_char(c0), suit_from_char(hand.get_char(pos + 1))) {
            (Some(r), Some(su)) => Some((Card::new(r, su), pos + 2)),
            _ => None,
        }
    }
}

/// Reads `n` space-separated card tokens that begin at character `pos` of
/// `hand` and reach its end, mirroring [`spec_parse_cards`].
fn parse_cards_from(hand: &str, pos: usize, n: u8) -> (r: Option<Vec<Card>>)
    requires
        1 <= n <= 5,
        pos <= hand@.len(),
    ensures
        match r {
            Some(cards) => spec_parse_cards(hand@.skip(pos as int), n as nat) == Some(cards@)
                && cards@.len() == n,
            None => spec_parse_cards(hand@.skip(pos as int), n as nat) is None,
        },
    decreases n,
{
    let ghost s = hand@.skip(pos as int);
    match parse_card_at(hand, pos) {
        None => None,
        Some((card, np)) => {
            let ghost k = np - pos as int;
            if n == 1 {
                if np == hand.unicode_len() {
                    let mut cards: Vec<Card> = Vec::new();
                    cards.push(card);
                    assert(cards@ =~= seq![card]);
                    Some(cards)
                } else {
                    None
                }
            } else {
                let len = hand.unicode_len();
                if np < len && hand.get_char(np) == ' ' {
                    assert(s[k] == hand@[np as int] && k < s.len());
                    match parse_cards_from(hand, np + 1, n - 1) {
                        None => {
                            proof {
                                assert(s.skip(k + 1) =~= hand@.skip(np + 1));
                            }
                            None
                        },
                        Some(mut rest) => {
                            proof {
                                assert(s.skip(k + 1) =~= hand@.skip(np + 1));
                            }
                            let ghost old_rest = rest@;
                            rest.insert(0, card);
                            assert(rest@ =~= seq![card] + old_rest);
                            Some(rest)
                        },
                    }
                } else {
                    proof {
                        if k < s.len() {
                            assert(s[k] == hand@[np as int]);
                        }
                    }
                    None
                }
            }
        },
    }
}

/// Rearranges `cards` into descending rank order. The cards are kept as a
/// multiset, and so are their rank weights.
fn sort_cards_desc(cards: &mut Vec<Card>)
    ensures
        final(cards)@.len() == old(cards)@.len(),
        final(cards)@.to_multiset() == old(cards)@.to_multiset(),
        ranks_of(final(cards)@).to_multiset() == ranks_of(old(cards)@).to_multiset(),
        vstd::relations::sorted_by(ranks_of(final(cards)@), descending()),
{
    broadcast use vstd::seq_lib::group_to_multiset_ensures;

    let mut sorted_cards: Vec<Card> = Vec::new();
    let mut i: usize = 0;
    while i < cards.len()
        invariant
            i <= cards@.len(),
            cards@ == old(cards)@,
            sorted_cards@.len() == i,
            sorted_cards@.to_multiset() == cards@.take(i as int).to_multiset(),
            ranks_of(sorted_cards@).to_multiset() == ranks_of(cards@.take(i as int)).to_multiset(),
            vstd::relations::sorted_by(ranks_of(sorted_cards@), descending()),
        decreases cards@.len() - i,
    {
        broadcast use vstd::seq_lib::group_to_multiset_ensures;

        let c = cards[i];
        let cv = c.rank.value();
        let mut j: usize = 0;
        while j < sorted_cards.len() && sorted_cards[j].rank.value() >= cv
            invariant
                j <= sorted_cards@.len(),
                cv as int == rank_value(c.rank),
                forall|k: int|
                    0 <= k < j ==> rank_value(#[trigger] sorted_cards@[k].rank) >= rank_value(
                        c.rank,
                    ),
            decreases sorted_cards@.len() - j,
        {
            j += 1;
        }
        let ghost before = sorted_cards@;
        sorted_cards.insert(j, c);
        proof {
            assert(ranks_of(sorted_cards@) =~= ranks_of(before).insert(
                j as int,
                rank_value(c.rank),
            ));
            assert(cards@.take(i + 1) =~= cards@.take(i as int).push(cards@[i as int]));
            assert(ranks_of(cards@.take(i + 1)) =~= ranks_of(cards@.take(i as int)).push(
                rank_value(cards@[i as int].rank),
            ));
            assert forall|a: int, b: int|
                0 <= a < b < ranks_of(sorted_cards@).len() implies #[trigger] descending()(
                ranks_of(sorted_cards@)[a],
                ranks_of(sorted_cards@)[b],
            ) by {
                let rs = ranks_of(sorted_cards@);
                let old_rs = ranks_of(before);
                if b < j {
                    assert(rs[a] == old_rs[a] && rs[b] == old_rs[b]);
                    assert(descending()(old_rs[a], old_rs[b]));
                } else if a > j {
                    assert(rs[a] == old_rs[a - 1] && rs[b] == old_rs[b - 1]);
                    assert(descending()(old_rs[a - 1], old_rs[b - 1]));
                } else if a == j && b > j {
                    if j < before.len() {
                        assert(rank_value(before[j as int].rank) < rank_value(c.rank));
                        assert(descending()(old_rs[j as int], old_rs[b - 1]));
                    }
                    assert(rs[b] == old_rs[b - 1]);
                } else if b == j {
                    assert(rs[a] == old_rs[a]);
                } else if a < j && b > j {
                    assert(rs[a] == old_rs[a] && rs[b] == old_rs[b - 1]);
                    if j < before.len() {
                        assert(descending()(old_rs[a], old_rs[j as int]));
                    }
                    assert(descending()(old_rs[a], old_rs[b - 1]));
                }
            }
        }
        i += 1;
    }
    proof {
        assert(cards@.take(cards@.len() as int) =~= cards@);
    }
    *cards = sorted_cards;
}

/// Swaps the cards at positions `i` and `j`.
fn swap_cards(cards: &mut Vec<Card>, i: usize, j: usize)
    requires
        i < old(cards)@.len(),
        j < old(cards)@.len(),
    ensures
        final(cards)@ == old(cards)@.update(i as int, old(cards)@[j as int]).update(
            j as int,
            old(cards)@[i as int],
        ),
{
    let a = cards[i];
    let b = cards[j];
    cards[i] = b;
    cards[j] = a;
}

impl PokerHand<'_> {
    /// Check for duplicate cards in a hand.
    ///
    /// All ten pairs are compared: two identical cards need not stand next
    /// to each other, in whatever order the hand is held.
    pub fn check_for_duplicate_cards(cards: &Vec<Card>) -> (r: bool)
        ensures
            r == has_duplicate_card(cards@),
    {
        let mut i: usize = 0;
        while i < cards.len()
            invariant
                i <= cards@.len(),
                forall|a: int, b: int| 0 <= a < i && a < b < cards@.len() ==> cards@[a] != cards@[b],
            decreases cards@.len() - i,
        {
            let mut j: usize = i + 1;
            while j < cards.len()
                invariant
                    i < j,
                    j <= cards@.len(),
                    forall|a: int, b: int|
                        0 <= a < i && a < b < cards@.len() ==> cards@[a] != cards@[b],
                    forall|b: int| i < b < j ==> cards@[i as int] != cards@[b],
                decreases cards@.len() - j,
            {
                if cards[i] == cards[j] {
                    return true;
                }
                j += 1;
            }
            i += 1;
        }
        false
    }

    /// Sets the hand rank to a flush when all five cards share one suit.
    pub fn check_flush(cards: &[Card], hand_rank: &mut PokerHandRanks) -> (r: bool)
        requires
            cards@.len() == 5,
        ensures
            r == is_flush(cards@),
            r ==> *final(hand_rank) == PokerHandRanks::Flush,
            !r ==> *final(hand_rank) == *old(hand_rank),
    {
        if cards[0].suit == cards[1].suit && cards[0].suit == cards[2].suit && cards[0].suit
            == cards[3].suit && cards[0].suit == cards[4].suit {
            *hand_rank = PokerHandRanks::Flush;
            assert forall|i: int| 0 <= i < cards@.len() implies #[trigger] cards@[i].suit
                == cards@[0].suit by {}
            return true;
        }
        false
    }

    /// Detects a straight among cards already sorted by descending rank, and
    /// upgrades the hand rank (a flush becomes a straight flush). For the
    /// low-Ace straight A-5-4-3-2 the Ace is moved to the end of the hand,
    /// because it scores below the 5 there.
    pub fn check_straight(cards: &mut Vec<Card>, hand_rank: &mut PokerHandRanks) -> (r: bool)
        requires
            old(cards)@.len() == 5,
        ensures
            r == is_straight(ranks_of(old(cards)@)),
            r ==> *final(hand_rank) == (if *old(hand_rank) == PokerHandRanks::Flush {
                PokerHandRanks::StraightFlush
            } else {
                PokerHandRanks::Straight
            }),
            !r ==> *final(hand_rank) == *old(hand_rank),
            r && is_wheel(ranks_of(old(cards)@)) ==> final(cards)@ == old(
                cards,
            )@.drop_first().push(old(cards)@[0]),
            r && !is_wheel(ranks_of(old(cards)@)) ==> final(cards)@ == old(cards)@,
            !r ==> final(cards)@ == old(cards)@,
    {
        let ghost rs = ranks_of(old(cards)@);
        let v0 = cards[0].rank.value();
        let v1 = cards[1].rank.value();
        let v2 = cards[2].rank.value();
        let v3 = cards[3].rank.value();
        let v4 = cards[4].rank.value();
        let run = v0 == v1 + 1 && v0 == v2 + 2 && v0 == v3 + 3 && v0 == v4 + 4;
        let wheel = v0 == 14 && v1 == 5 && v2 == 4 && v3 == 3 && v4 == 2;
        proof {
            assert(rs.len() == 5);
            assert(rs[0] == v0 as int && rs[1] == v1 as int && rs[2] == v2 as int && rs[3]
                == v3 as int && rs[4] == v4 as int);
            if run {
                assert forall|i: int| 0 < i < rs.len() implies #[trigger] rs[i] == rs[0] - i by {}
            }
            assert(run == is_run(rs));
            assert(wheel == is_wheel(rs));
        }
        if run || wheel {
            if *hand_rank == PokerHandRanks::Flush {
                *hand_rank = PokerHandRanks::StraightFlush;
            } else {
                *hand_rank = PokerHandRanks::Straight;
            }
            if wheel {
                // Move the Ace to the end of the hand.
                let ace = cards.remove(0);
                cards.push(ace);
                proof {
                    assert(final(cards)@ =~= old(cards)@.drop_first().push(old(cards)@[0]));
                }
            }
            return true;
        }
        false
    }

    /// Detects four of a kind among cards already sorted by descending rank,
    /// and moves the four matching cards to the front of the hand.
    pub fn check_four_of_a_kind(cards: &mut Vec<Card>, hand_rank: &mut PokerHandRanks) -> (r: bool)
        requires
            old(cards)@.len() == 5,
        ensures
            ({
                let rs = ranks_of(old(cards)@);
                &&& r == (rs[1] == rs[2] && rs[1] == rs[3] && (rs[1] == rs[0] || rs[1] == rs[4]))
                &&& r ==> *final(hand_rank) == PokerHandRanks::FourOfAKind
                &&& !r ==> *final(hand_rank) == *old(hand_rank)
                &&& r && rs[4] == rs[1] ==> final(cards)@ == old(cards)@.update(
                    0,
                    old(cards)@[4],
                ).update(4, old(cards)@[0])
                &&& r && rs[4] != rs[1] ==> final(cards)@ == old(cards)@
                &&& !r ==> final(cards)@ == old(cards)@
            }),
    {
        let v0 = cards[0].rank.value();
        let v1 = cards[1].rank.value();
        let v2 = cards[2].rank.value();
        let v3 = cards[3].rank.value();
        let v4 = cards[4].rank.value();
        if v1 == v2 && v1 == v3 && (v1 == v0 || v1 == v4) {
            *hand_rank = PokerHandRanks::FourOfAKind;
            // Move the four of a kind to the front of the hand.
            if v4 == v1 {
                swap_cards(cards, 0, 4);
            }
            return true;
        }
        false
    }

    /// Detects three of a kind and full houses among cards already sorted by
    /// descending rank, and moves the three matching cards to the front.
    pub fn check_three_and_full_house(
        cards: &mut Vec<Card>,
        hand_rank: &mut PokerHandRanks,
    ) -> (r: bool)
        requires
            old(cards)@.len() == 5,
        ensures
            ({
                let rs = ranks_of(old(cards)@);
                let c1 = rs[0] == rs[1] && rs[0] == rs[2];
                let c2 = rs[1] == rs[2] && rs[1] == rs[3];
                let c3 = rs[2] == rs[3] && rs[2] == rs[4];
                &&& r == (c1 || c2 || c3)
                &&& c1 ==> *final(hand_rank) == (if rs[3] == rs[4] {
                    PokerHandRanks::FullHouse
                } else {
                    PokerHandRanks::ThreeOfAKind
                }) && final(cards)@ == old(cards)@
                &&& !c1 && c2 ==> *final(hand_rank) == PokerHandRanks::ThreeOfAKind && final(cards)@ == old(cards)@.update(0, old(cards)@[3]).update(3, old(cards)@[0])
                &&& !c1 && !c2 && c3 ==> *final(hand_rank) == (if rs[0] == rs[1] {
                    PokerHandRanks::FullHouse
                } else {
                    PokerHandRanks::ThreeOfAKind
                }) && final(cards)@ == old(cards)@.update(0, old(cards)@[3]).update(
                    3,
                    old(cards)@[0],
                ).update(1, old(cards)@[4]).update(4, old(cards)@[1])
                &&& !r ==> *final(hand_rank) == *old(hand_rank) && final(cards)@ == old(cards)@
            }),
    {
        let v0 = cards[0].rank.value();
        let v1 = cards[1].rank.value();
        let v2 = cards[2].rank.value();
        let v3 = cards[3].rank.value();
        let v4 = cards[4].rank.value();
        if v0 == v1 && v0 == v2 {
            if v3 == v4 {
                *hand_rank = PokerHandRanks::FullHouse;
            } else {
                *hand_rank = PokerHandRanks::ThreeOfAKind;
            }
            return true;
        } else if v1 == v2 && v1 == v3 {
            *hand_rank = PokerHandRanks::ThreeOfAKind;
            // Move the three of a kind to the front of the hand.
            swap_cards(cards, 0, 3);
            return true;
        } else if v2 == v3 && v2 == v4 {
            if v0 == v1 {
                *hand_rank = PokerHandRanks::FullHouse;
            } else {
                *hand_rank = PokerHandRanks::ThreeOfAKind;
            }
            // Move the three of a kind to the front of the hand.
            swap_cards(cards, 0, 3);
            swap_cards(cards, 1, 4);
            return true;
        }
        false
    }

    /// Detects one or two pairs among cards already sorted by descending
    /// rank, and moves the pairs to the front of the hand, the higher pair
    /// first.
    pub fn check_one_and_two_pairs(
        cards: &mut Vec<Card>,
        hand_rank: &mut PokerHandRanks,
    ) -> (r: bool)
        requires
            old(cards)@.len() == 5,
        ensures
            ({
                let rs = ranks_of(old(cards)@);
                let p01 = rs[0] == rs[1];
                let p12 = rs[1] == rs[2];
                let p23 = rs[2] == rs[3];
                let p34 = rs[3] == rs[4];
                &&& r == (p01 || p12 || p23 || p34)
                &&& p01 && p23 ==> *final(hand_rank) == PokerHandRanks::TwoPair && final(cards)@
                    == old(cards)@
                &&& p01 && !p23 && p34 ==> *final(hand_rank) == PokerHandRanks::TwoPair && final(cards)@ == old(cards)@.update(2, old(cards)@[4]).update(4, old(cards)@[2])
                &&& p01 && !p23 && !p34 ==> *final(hand_rank) == PokerHandRanks::Pair && final(cards)@ == old(cards)@
                &&& !p01 && p12 && p34 ==> *final(hand_rank) == PokerHandRanks::TwoPair && final(cards)@ == old(cards)@.update(0, old(cards)@[2]).update(2, old(cards)@[0]).update(
                    2,
                    old(cards)@[4],
                ).update(4, old(cards)@[0])
                &&& !p01 && p12 && !p34 ==> *final(hand_rank) == PokerHandRanks::Pair && final(cards)@ == old(cards)@.update(0, old(cards)@[2]).update(2, old(cards)@[0])
                &&& !p01 && !p12 && p23 ==> *final(hand_rank) == PokerHandRanks::Pair && final(cards)@ == old(cards)@.update(0, old(cards)@[2]).update(2, old(cards)@[0]).update(
                    1,
                    old(cards)@[3],
                ).update(3, old(cards)@[1])
                &&& !p01 && !p12 && !p23 && p34 ==> *final(hand_rank) == PokerHandRanks::Pair
                    && final(cards)@ == old(cards)@.update(2, old(cards)@[4]).update(
                    4,
                    old(cards)@[2],
                ).update(1, old(cards)@[3]).update(3, old(cards)@[1]).update(
                    0,
                    old(cards)@[4],
                ).update(2, old(cards)@[0])
                &&& !r ==> *final(hand_rank) == *old(hand_rank) && final(cards)@ == old(cards)@
            }),
    {
        let v0 = cards[0].rank.value();
        let v1 = cards[1].rank.value();
        let v2 = cards[2].rank.value();
        let v3 = cards[3].rank.value();
        let v4 = cards[4].rank.value();
        if v0 == v1 {
            if v2 == v3 {
                *hand_rank = PokerHandRanks::TwoPair;
            } else if v3 == v4 {
                *hand_rank = PokerHandRanks::TwoPair;
                // Move the pairs to the front of the hand.
                swap_cards(cards, 2, 4);
            } else {
                // Pair is already at the front.
                *hand_rank = PokerHandRanks::Pair;
            }
            return true;
        } else if v1 == v2 {
            if v3 == v4 {
                *hand_rank = PokerHandRanks::TwoPair;
                // Move the pairs to the front.
                swap_cards(cards, 0, 2);
                swap_cards(cards, 2, 4);
            } else {
                *hand_rank = PokerHandRanks::Pair;
                // Move the pair to the front.
                swap_cards(cards, 0, 2);
            }
            return true;
        } else if v2 == v3 {
            *hand_rank = PokerHandRanks::Pair;
            swap_cards(cards, 0, 2);
            swap_cards(cards, 1, 3);
            return true;
        } else if v3 == v4 {
            *hand_rank = PokerHandRanks::Pair;
            // Move the pair to the front.
            swap_cards(cards, 2, 4);
            swap_cards(cards, 1, 3);
            swap_cards(cards, 0, 2);
            return true;
        }
        false
    }

    /// Construct a new PokerHand from the hand string.
    ///
    /// The string is parsed into five cards; a hand that does not parse, or
    /// that holds the same card twice, is rejected. The cards are then
    /// sorted by descending rank and classified, which also rearranges them
    /// into scoring order.
    pub fn new(hand: &str) -> (r: Result<PokerHand<'_>, PokerHandError>)
        ensures
            match r {
                Ok(h) => {
                    &&& spec_parse_hand(hand@) is Some
                    &&& !has_duplicate_card(spec_parse_hand(hand@)->Some_0)
                    &&& h.hand_handle@ == hand@
                    &&& h.cards@.len() == 5
                    &&& h.cards@.to_multiset() == spec_parse_hand(hand@)->Some_0.to_multiset()
                    &&& h.hand_rank == spec_category(spec_parse_hand(hand@)->Some_0)
                    &&& ranks_of(h.cards@) == spec_scoring_ranks(spec_parse_hand(hand@)->Some_0)
                },
                Err(e) => {
                    &&& spec_parse_hand(hand@) is None || has_duplicate_card(
                        spec_parse_hand(hand@)->Some_0,
                    )
                    &&& spec_parse_hand(hand@) is None ==> e@ == "Invalid poker hand"@
                    &&& spec_parse_hand(hand@) is Some ==> e@ == "Duplicate cards in hand"@
                },
            },
    {
        let mut cards: Vec<Card>;

        // Parse the hand string.
        match PokerHand::parse_hand_str(hand) {
            Some(parsed_cards) => {
                cards = parsed_cards;
            },
            None => {
                return Err(PokerHandError::new("Invalid poker hand"));
            },
        }
        let ghost cs = cards@;

        if PokerHand::check_for_duplicate_cards(&cards) {
            return Err(PokerHandError::new("Duplicate cards in hand"));
        }

        // Sort the cards from highest rank to lowest.
        sort_cards_desc(&mut cards);
        let ghost srt = cards@;
        let ghost rss = ranks_of(srt);
        proof {
            assert(sorted_version_of(cs, srt));
        }

        // Classify the hand.
        // The cards are already in the correct order for a HighCard hand.
        let mut hand_rank: PokerHandRanks = PokerHandRanks::HighCard;

        PokerHand::check_flush(cards.as_slice(), &mut hand_rank);
        proof {
            lemma_is_flush_multiset(cs, srt);
        }
        if PokerHand::check_straight(&mut cards, &mut hand_rank) {
            proof {
                broadcast use vstd::seq_lib::group_to_multiset_ensures;

                lemma_classify_straight(cs, srt);
                if is_wheel(rss) {
                    assert(cards@ =~= srt.drop_first().push(srt[0]));
                    assert(srt.remove(0) == srt.drop_first());
                    assert(srt.contains(srt[0]));
                    assert(cards@.to_multiset() =~= srt.to_multiset());
                    assert(ranks_of(cards@) =~= seq![5int, 4, 3, 2, 14]);
                } else {
                    assert(cards@ == srt);
                    assert(ranks_of(cards@) == spec_scoring_ranks(cs));
                }
                assert(hand_rank == spec_category(cs));
                assert(cards@.to_multiset() == cs.to_multiset());
            }
        } else {
            if PokerHand::check_four_of_a_kind(&mut cards, &mut hand_rank) {
                proof {
                    lemma_classify_four(cs, srt);
                    if rss[4] == rss[1] {
                        assert(cards@ == srt.update(0, srt[4]).update(4, srt[0]));
                        lemma_swap_seq_multiset(srt, 0, 4);
                        assert(ranks_of(cards@) =~= rss.update(0, rss[4]).update(4, rss[0]));
                    } else {
                        assert(cards@ == srt);
                    }
                    assert(hand_rank == spec_category(cs));
                    assert(ranks_of(cards@) == spec_scoring_ranks(cs));
                    assert(cards@.to_multiset() == cs.to_multiset());
                }
            } else {
                if PokerHand::check_three_and_full_house(&mut cards, &mut hand_rank) {
                    proof {
                        lemma_classify_three_full(cs, srt);
                        let c1 = rss[0] == rss[1] && rss[0] == rss[2];
                        let c2 = rss[1] == rss[2] && rss[1] == rss[3];
                        if c1 {
                            assert(cards@ == srt);
                        } else if c2 {
                            assert(cards@ == srt.update(0, srt[3]).update(3, srt[0]));
                            lemma_swap_seq_multiset(srt, 0, 3);
                            assert(ranks_of(cards@) =~= rss.update(0, rss[3]).update(3, rss[0]));
                        } else {
                            let u1c = srt.update(0, srt[3]).update(3, srt[0]);
                            assert(cards@ == u1c.update(1, u1c[4]).update(4, u1c[1]));
                            lemma_swap_seq_multiset(srt, 0, 3);
                            lemma_swap_seq_multiset(u1c, 1, 4);
                            let u1 = rss.update(0, rss[3]).update(3, rss[0]);
                            assert(ranks_of(u1c) =~= u1);
                            assert(ranks_of(cards@) =~= u1.update(1, u1[4]).update(4, u1[1]));
                        }
                        assert(hand_rank == spec_category(cs));
                        assert(ranks_of(cards@) == spec_scoring_ranks(cs));
                        assert(cards@.to_multiset() == cs.to_multiset());
                    }
                } else {
                    PokerHand::check_one_and_two_pairs(&mut cards, &mut hand_rank);
                    proof {
                        let p01 = rss[0] == rss[1];
                        let p12 = rss[1] == rss[2];
                        let p23 = rss[2] == rss[3];
                        let p34 = rss[3] == rss[4];
                        if p01 || p12 || p23 || p34 {
                            lemma_classify_pairs(cs, srt);
                            if p01 && p23 {
                                assert(cards@ == srt);
                            } else if p01 && p34 {
                                assert(cards@ == srt.update(2, srt[4]).update(4, srt[2]));
                                lemma_swap_seq_multiset(srt, 2, 4);
                                assert(ranks_of(cards@) =~= rss.update(2, rss[4]).update(
                                    4,
                                    rss[2],
                                ));
                            } else if p01 {
                                assert(cards@ == srt);
                            } else if p12 && p34 {
                                let u1c = srt.update(0, srt[2]).update(2, srt[0]);
                                assert(cards@ == u1c.update(2, u1c[4]).update(4, u1c[2]));
                                lemma_swap_seq_multiset(srt, 0, 2);
                                lemma_swap_seq_multiset(u1c, 2, 4);
                                let u1 = rss.update(0, rss[2]).update(2, rss[0]);
                                assert(ranks_of(u1c) =~= u1);
                                assert(ranks_of(cards@) =~= u1.update(2, u1[4]).update(4, u1[2]));
                                assert(ranks_of(cards@) =~= rss.update(0, rss[2]).update(
                                    2,
                                    rss[0],
                                ).update(2, rss[4]).update(4, rss[0]));
                            } else if p12 {
                                assert(cards@ == srt.update(0, srt[2]).update(2, srt[0]));
                                lemma_swap_seq_multiset(srt, 0, 2);
                                assert(ranks_of(cards@) =~= rss.update(0, rss[2]).update(
                                    2,
                                    rss[0],
                                ));
                            } else if p23 {
                                let u1c = srt.update(0, srt[2]).update(2, srt[0]);
                                assert(cards@ == u1c.update(1, u1c[3]).update(3, u1c[1]));
                                lemma_swap_seq_multiset(srt, 0, 2);
                                lemma_swap_seq_multiset(u1c, 1, 3);
                                let u1 = rss.update(0, rss[2]).update(2, rss[0]);
                                assert(ranks_of(u1c) =~= u1);
                                assert(ranks_of(cards@) =~= u1.update(1, u1[3]).update(3, u1[1]));
                                assert(ranks_of(cards@) =~= rss.update(0, rss[2]).update(
                                    2,
                                    rss[0],
                                ).update(1, rss[3]).update(3, rss[1]));
                            } else {
                                let u1c = srt.update(2, srt[4]).update(4, srt[2]);
                                let u2c = u1c.update(1, u1c[3]).update(3, u1c[1]);
                                assert(cards@ == u2c.update(0, u2c[2]).update(2, u2c[0]));
                                lemma_swap_seq_multiset(srt, 2, 4);
                                lemma_swap_seq_multiset(u1c, 1, 3);
                                lemma_swap_seq_multiset(u2c, 0, 2);
                                let u1 = rss.update(2, rss[4]).update(4, rss[2]);
                                let u2 = u1.update(1, u1[3]).update(3, u1[1]);
                                assert(ranks_of(u1c) =~= u1);
                                assert(ranks_of(u2c) =~= u2);
                                assert(ranks_of(cards@) =~= u2.update(0, u2[2]).update(2, u2[0]));
                                assert(ranks_of(cards@) =~= rss.update(2, rss[4]).update(
                                    4,
                                    rss[2],
                                ).update(1, rss[3]).update(3, rss[1]).update(0, rss[4]).update(
                                    2,
                                    rss[0],
                                ));
                            }
                        } else {
                            lemma_classify_high_card(cs, srt);
                            assert(cards@ == srt);
                        }
                        assert(hand_rank == spec_category(cs));
                        assert(ranks_of(cards@) == spec_scoring_ranks(cs));
                        assert(cards@.to_multiset() == cs.to_multiset());
                    }
                }
            }
        }

        proof {
            assert(hand_rank == spec_category(cs));
            assert(ranks_of(cards@) == spec_scoring_ranks(cs));
            assert(cards@.to_multiset() == cs.to_multiset());
        }
        Ok(PokerHand { hand_handle: hand, hand_rank, cards })
    }

    /// Parse the hand string into a vector of five cards, in input order.
    pub fn parse_hand_str(hand: &str) -> (r: Option<Vec<Card>>)
        ensures
            match r {
                Some(cards) => spec_parse_hand(hand@) == Some(cards@) && cards@.len() == 5,
                None => spec_parse_hand(hand@) is None,
            },
    {
        let r = parse_cards_from(hand, 0, 5);
        proof {
            assert(hand@.skip(0) =~= hand@);
        }
        r
    }
}

/// The value of a classified hand: the pair of its category weight and its
/// scoring-order rank weights. Two hands of equal value tie, whatever their
/// suits; value equality is weaker than card-for-card identity.
pub open spec fn hand_value(h: PokerHand<'_>) -> (int, Seq<int>) {
    (category_value(h.hand_rank), ranks_of(h.cards@))
}

/// The three-way comparison of two hand values under [`value_le`].
pub open spec fn value_ordering(a: (int, Seq<int>), b: (int, Seq<int>)) -> core::cmp::Ordering {
    if a == b {
        core::cmp::Ordering::Equal
    } else if value_le(a, b) {
        core::cmp::Ordering::Less
    } else {
        core::cmp::Ordering::Greater
    }
}

impl PartialEq for PokerHand<'_> {
    /// Value equality: same category and same scoring-order ranks. The
    /// suits, and the hand strings, play no part.
    fn eq(&self, other: &Self) -> bool {
        if self.hand_rank != other.hand_rank {
            return false;
        }
        if self.cards.len() != other.cards.len() {
            proof {
                assert(ranks_of(self.cards@).len() == self.cards@.len());
                assert(ranks_of(other.cards@).len() == other.cards@.len());
                assert(ranks_of(self.cards@) != ranks_of(other.cards@));
            }
            return false;
        }
        let mut i: usize = 0;
        while i < self.cards.len()
            invariant
                i <= self.cards@.len(),
                self.cards@.len() == other.cards@.len(),
                forall|k: int|
                    0 <= k < i ==> #[trigger] ranks_of(self.cards@)[k] == ranks_of(other.cards@)[k],
            decreases self.cards@.len() - i,
        {
            if self.cards[i].rank.value() != other.cards[i].rank.value() {
                proof {
                    assert(ranks_of(self.cards@)[i as int] != ranks_of(other.cards@)[i as int]);
                    assert(ranks_of(self.cards@) != ranks_of(other.cards@));
                }
                return false;
            }
            i += 1;
        }
        proof {
            assert(ranks_of(self.cards@) =~= ranks_of(other.cards@));
        }
        true
    }
}

impl vstd::std_specs::cmp::PartialEqSpecImpl for PokerHand<'_> {
    open spec fn obeys_eq_spec() -> bool {
        true
    }

    open spec fn eq_spec(&self, other: &PokerHand<'_>) -> bool {
        self.hand_rank == other.hand_rank && ranks_of(self.cards@) == ranks_of(other.cards@)
    }
}

impl PartialOrd for PokerHand<'_> {
    /// The total value order over classified hands: the higher category
    /// wins, and within one category the scoring-order ranks decide
    /// lexicographically.
    fn partial_cmp(&self, other: &Self) -> Option<core::cmp::Ordering> {
        let sv = self.hand_rank.value();
        let ov = other.hand_rank.value();
        if sv < ov {
            Some(core::cmp::Ordering::Less)
        } else if sv > ov {
            Some(core::cmp::Ordering::Greater)
        } else {
            // Compare the scoring-order rank weights.
            let n = if self.cards.len() < other.cards.len() {
                self.cards.len()
            } else {
                other.cards.len()
            };
            let mut i: usize = 0;
            while i < n
                invariant
                    i <= n,
                    n <= self.cards@.len(),
                    n <= other.cards@.len(),
                    n == self.cards@.len() || n == other.cards@.len(),
                    category_value(self.hand_rank) == category_value(other.hand_rank),
                    forall|k: int|
                        0 <= k < i ==> #[trigger] ranks_of(self.cards@)[k] == ranks_of(
                            other.cards@,
                        )[k],
                decreases n - i,
            {
                let av = self.cards[i].rank.value();
                let bv = other.cards[i].rank.value();
                if av < bv {
                    proof {
                        let a1 = ranks_of(self.cards@);
                        let b1 = ranks_of(other.cards@);
                        assert(a1.len() == self.cards@.len() && b1.len() == other.cards@.len());
                        assert(a1[i as int] == av as int && b1[i as int] == bv as int);
                        lemma_lex_le_first_diff(a1, b1, i as int);
                        assert(a1 != b1);
                    }
                    return Some(core::cmp::Ordering::Less);
                } else if av > bv {
                    proof {
                        let a1 = ranks_of(self.cards@);
                        let b1 = ranks_of(other.cards@);
                        assert(a1.len() == self.cards@.len() && b1.len() == other.cards@.len());
                        assert(a1[i as int] == av as int && b1[i as int] == bv as int);
                        lemma_lex_le_first_diff(b1, a1, i as int);
                        assert(a1 != b1);
                    }
                    return Some(core::cmp::Ordering::Greater);
                }
                i += 1;
            }
            if self.cards.len() == other.cards.len() {
                proof {
                    assert(ranks_of(self.cards@) =~= ranks_of(other.cards@));
                }
                Some(core::cmp::Ordering::Equal)
            } else if self.cards.len() < other.cards.len() {
                proof {
                    lemma_lex_le_prefix(ranks_of(self.cards@), ranks_of(other.cards@));
                }
                Some(core::cmp::Ordering::Less)
            } else {
                proof {
                    lemma_lex_le_prefix(ranks_of(other.cards@), ranks_of(self.cards@));
                }
                Some(core::cmp::Ordering::Greater)
            }
        }
    }
}

impl vstd::std_specs::cmp::PartialOrdSpecImpl for PokerHand<'_> {
    open spec fn obeys_partial_cmp_spec() -> bool {
        true
    }

    open spec fn partial_cmp_spec(&self, other: &PokerHand<'_>) -> Option<core::cmp::Ordering> {
        Some(value_ordering(hand_value(*self), hand_value(*other)))
    }
}

} // verus!
