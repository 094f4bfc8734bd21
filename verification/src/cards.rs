//! Cards, and methods to determine their relative values.

use vstd::prelude::*;

verus! {

/// The card suits.
///
/// In poker, suits are not ordered; they matter only for flush detection and
/// for card identity (two cards are the same card iff rank and suit match).
#[derive(Debug, Eq, PartialEq, Copy, Clone, Structural)]
pub enum Suits {
    Clubs,
    Diamonds,
    Hearts,
    Spades,
}

/// The card ranks.
///
/// The variants are declared in ascending order, so the derived `<` and `>`
/// order them as poker does, with the Ace highest.
#[derive(Debug, Eq, Ord, PartialEq, PartialOrd, Copy, Clone, Structural)]
pub enum Ranks {
    Two,
    Three,
    Four,
    Five,
    Six,
    Seven,
    Eight,
    Nine,
    Ten,
    Jack,
    Queen,
    King,
    Ace,
}

/// The numeric weight of a rank: 2 through 10 for the number cards,
/// 11 for the Jack, 12 for the Queen, 13 for the King and 14 for the Ace.
pub open spec fn rank_value(r: Ranks) -> int {
    match r {
        Ranks::Two => 2,
        Ranks::Three => 3,
        Ranks::Four => 4,
        Ranks::Five => 5,
        Ranks::Six => 6,
        Ranks::Seven => 7,
        Ranks::Eight => 8,
        Ranks::Nine => 9,
        Ranks::Ten => 10,
        Ranks::Jack => 11,
        Ranks::Queen => 12,
        Ranks::King => 13,
        Ranks::Ace => 14,
    }
}

/// Two ranks with the same numeric weight are the same rank.
pub proof fn lemma_rank_value_injective(a: Ranks, b: Ranks)
    requires
        rank_value(a) == rank_value(b),
    ensures
        a == b,
{
}

impl Ranks {
    /// The numeric weight of this rank, as an executable value.
    pub fn value(self) -> (v: u8)
        ensures
            v as int == rank_value(self),
    {
        match self {
            Ranks::Two => 2,
            Ranks::Three => 3,
            Ranks::Four => 4,
            Ranks::Five => 5,
            Ranks::Six => 6,
            Ranks::Seven => 7,
            Ranks::Eight => 8,
            Ranks::Nine => 9,
            Ranks::Ten => 10,
            Ranks::Jack => 11,
            Ranks::Queen => 12,
            Ranks::King => 13,
            Ranks::Ace => 14,
        }
    }
}

/// An individual card.
///
/// Equality is structural (rank and suit both match), while the order given
/// by `partial_cmp` compares the rank alone: two cards of the same rank and
/// different suits are distinct cards but tie in the ordering. The asymmetry
/// is deliberate and mirrors how poker treats cards.
#[derive(Debug, Eq, Copy, Clone)]
pub struct Card {
    pub rank: Ranks,
    pub suit: Suits,
}

impl Card {
    pub fn new(rank: Ranks, suit: Suits) -> (c: Self)
        ensures
            c.rank == rank,
            c.suit == suit,
    {
        Self { rank, suit }
    }
}

impl PartialEq for Card {
    fn eq(&self, other: &Self) -> bool {
        self.rank == other.rank && self.suit == other.suit
    }
}

impl vstd::std_specs::cmp::PartialEqSpecImpl for Card {
    open spec fn obeys_eq_spec() -> bool {
        true
    }

    open spec fn eq_spec(&self, other: &Card) -> bool {
        self == other
    }
}

impl PartialOrd for Card {
    fn partial_cmp(&self, other: &Self) -> Option<core::cmp::Ordering> {
        let a = self.rank.value();
        let b = other.rank.value();
        if a < b {
            Some(core::cmp::Ordering::Less)
        } else if a > b {
            Some(core::cmp::Ordering::Greater)
        } else {
            Some(core::cmp::Ordering::Equal)
        }
    }
}

impl vstd::std_specs::cmp::PartialOrdSpecImpl for Card {
    open spec fn obeys_partial_cmp_spec() -> bool {
        true
    }

    open spec fn partial_cmp_spec(&self, other: &Card) -> Option<core::cmp::Ordering> {
        if rank_value(self.rank) < rank_value(other.rank) {
            Some(core::cmp::Ordering::Less)
        } else if rank_value(self.rank) > rank_value(other.rank) {
            Some(core::cmp::Ordering::Greater)
        } else {
            Some(core::cmp::Ordering::Equal)
        }
    }
}

} // verus!
