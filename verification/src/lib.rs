//! Five-card poker hand evaluation.
//!
//! The crate parses textual hands such as `"4D 4H JD 6C 2S"`, classifies
//! them into the nine standard poker categories, orders hands by value, and
//! picks the winning hand(s) out of a list of hand strings.

use vstd::prelude::*;

pub mod cards;
pub mod error;
pub mod hand_spec;
pub mod laws;
pub mod poker_hand;

verus! {

use crate::poker_hand::{PokerHand, hand_value, lemma_category_value_injective};
use crate::hand_spec::{spec_hand_value, max_value, winners_of, is_winner_among, views_of,
    lemma_max_value_none, lemma_max_value_attained, value_le, lemma_value_le_refl};

/// Given a list of poker hands, return a list of those hands which win.
///
/// Hands that do not parse, or that hold the same card twice, are ignored;
/// `None` is returned exactly when no valid hand is present. The returned
/// strings are the same references that were passed in — the winners of
/// `hands` in input order — not reconstructed strings that happen to be
/// equal.
pub fn winning_hands<'a>(hands: &[&'a str]) -> (r: Option<Vec<&'a str>>)
    ensures
        r is None <==> (forall|i: int|
            0 <= i < hands@.len() ==> #[trigger] spec_hand_value(hands@[i]@) is None),
        r matches Some(ws) ==> views_of(ws@) == winners_of(views_of(hands@)) && ws@.len() >= 1,
{
    let ghost hs = views_of(hands@);
    proof {
        assert(hs.len() == hands@.len());
        assert forall|k: int| 0 <= k < hs.len() implies #[trigger] hs[k] == hands@[k]@ by {}
    }

    // First pass: find the value of the best hand.
    let mut best: Option<PokerHand<'a>> = None;
    let mut i: usize = 0;
    while i < hands.len()
        invariant
            i <= hands@.len(),
            hs == views_of(hands@),
            hs.len() == hands@.len(),
            forall|k: int| 0 <= k < hs.len() ==> #[trigger] hs[k] == hands@[k]@,
            match best {
                None => max_value(hs.take(i as int)) is None,
                Some(b) => max_value(hs.take(i as int)) == Some(hand_value(b)),
            },
        decreases hands@.len() - i,
    {
        proof {
            assert(hs.take(i + 1).drop_last() =~= hs.take(i as int));
            assert(hs.take(i + 1).last() == hs[i as int]);
        }
        match PokerHand::new(hands[i]) {
            Ok(h) => {
                let ghost vh = hand_value(h);
                proof {
                    assert(spec_hand_value(hs[i as int]) == Some(vh));
                }
                let replace = match &best {
                    None => true,
                    Some(b) => *b < h,
                };
                proof {
                    match &best {
                        Some(b) => lemma_value_le_refl(hand_value(*b)),
                        None => (),
                    }
                }
                if replace {
                    best = Some(h);
                }
            },
            Err(_) => {
                // Invalid hands are ignored; the rest of the list is still
                // processed.
                proof {
                    assert(spec_hand_value(hs[i as int]) is None);
                }
            },
        }
        i += 1;
    }
    proof {
        assert(hs.take(hands@.len() as int) =~= hs);
        lemma_max_value_none(hs);
    }

    let best_hand = match best {
        None => {
            proof {
                assert forall|k: int|
                    0 <= k < hands@.len() implies #[trigger] spec_hand_value(hands@[k]@)
                    is None by {
                    assert(hs[k] == hands@[k]@);
                    assert(spec_hand_value(hs[k]) is None);
                }
            }
            return None;
        },
        Some(b) => b,
    };

    // Second pass: collect the original strings whose hands tie the best.
    let mut winners: Vec<&'a str> = Vec::new();
    let mut j: usize = 0;
    while j < hands.len()
        invariant
            j <= hands@.len(),
            hs == views_of(hands@),
            hs.len() == hands@.len(),
            forall|k: int| 0 <= k < hs.len() ==> #[trigger] hs[k] == hands@[k]@,
            max_value(hs) == Some(hand_value(best_hand)),
            views_of(winners@) == hs.take(j as int).filter(is_winner_among(hs)),
        decreases hands@.len() - j,
    {
        proof {
            assert(hs.take(j + 1).drop_last() =~= hs.take(j as int));
            assert(hs.take(j + 1).last() == hs[j as int]);
            reveal_with_fuel(Seq::filter, 2);
        }
        match PokerHand::new(hands[j]) {
            Ok(h) => {
                let ghost vh = hand_value(h);
                proof {
                    assert(spec_hand_value(hs[j as int]) == Some(vh));
                }
                if h == best_hand {
                    let ghost before = winners@;
                    winners.push(hands[j]);
                    proof {
                        assert(hand_value(h) == hand_value(best_hand));
                        assert(is_winner_among(hs)(hs[j as int]));
                        assert(views_of(winners@) =~= views_of(before).push(hs[j as int]));
                    }
                } else {
                    proof {
                        if vh == hand_value(best_hand) {
                            lemma_category_value_injective(h.hand_rank, best_hand.hand_rank);
                        }
                        assert(vh != hand_value(best_hand));
                        assert(!is_winner_among(hs)(hs[j as int]));
                    }
                }
            },
            Err(_) => {
                proof {
                    assert(spec_hand_value(hs[j as int]) is None);
                    assert(!is_winner_among(hs)(hs[j as int]));
                }
            },
        }
        j += 1;
    }
    proof {
        broadcast use vstd::seq_lib::group_filter_ensures;

        assert(hs.take(hands@.len() as int) =~= hs);
        lemma_max_value_attained(hs);
        let w = choose|k: int|
            0 <= k < hs.len() && #[trigger] spec_hand_value(hs[k]) == max_value(hs);
        assert(is_winner_among(hs)(hs[w]));
        assert(hs.filter(is_winner_among(hs)).contains(hs[w]));
        assert(views_of(winners@).len() >= 1);
        assert(hs[w] == hands@[w]@);
        assert(spec_hand_value(hands@[w]@) is Some);
    }
    Some(winners)
}

} // verus!
