//! General properties of the classifier and the comparator, stated and
//! proved as public lemmas: the category hierarchy, the value order being a
//! total order, and sorting by hand value being idempotent.

use vstd::prelude::*;

verus! {

use vstd::multiset::Multiset;
use crate::cards::Card;
use crate::poker_hand::{PokerHandRanks, category_value};
use crate::hand_spec::{spec_category, sorted_ranks, ranks_of, is_straight, is_flush, has_count,
    has_two_pairs, value_le, lemma_value_le_total, lemma_value_le_transitive};

/// Every hand is assigned one of the nine categories, whose weights run
/// from 1 (HighCard) to 9 (StraightFlush).
pub proof fn lemma_category_in_range(cs: Seq<Card>)
    ensures
        1 <= category_value(spec_category(cs)) <= 9,
{
}

/// The category of a hand follows the standard poker hierarchy exactly:
/// of the nine shapes, the highest one that the hand has is its category,
/// with HighCard for a hand that has none of the other eight.
pub proof fn lemma_category_matches_hierarchy(cs: Seq<Card>)
    ensures
        spec_category(cs) == (if is_straight(sorted_ranks(cs)) && is_flush(cs) {
            PokerHandRanks::StraightFlush
        } else if has_count(ranks_of(cs), 4) {
            PokerHandRanks::FourOfAKind
        } else if has_count(ranks_of(cs), 3) && has_count(ranks_of(cs), 2) {
            PokerHandRanks::FullHouse
        } else if is_flush(cs) {
            PokerHandRanks::Flush
        } else if is_straight(sorted_ranks(cs)) {
            PokerHandRanks::Straight
        } else if has_count(ranks_of(cs), 3) {
            PokerHandRanks::ThreeOfAKind
        } else if has_two_pairs(ranks_of(cs)) {
            PokerHandRanks::TwoPair
        } else if has_count(ranks_of(cs), 2) {
            PokerHandRanks::Pair
        } else {
            PokerHandRanks::HighCard
        }),
{
}

// ---------------------------------------------------------------------------
// Sorting hands by value.
//
// The comparator is a total order (see `lemma_value_le_refl`,
// `lemma_value_le_antisymmetric`, `lemma_value_le_transitive` and
// `lemma_value_le_total` in `hand_spec`), so sorting hand values is
// well-behaved; in particular sorting a sorted list changes nothing.
// ---------------------------------------------------------------------------

/// `s` is sorted by hand value, smallest first.
pub open spec fn values_sorted(s: Seq<(int, Seq<int>)>) -> bool {
    forall|i: int, j: int| 0 <= i < j < s.len() ==> value_le(#[trigger] s[i], #[trigger] s[j])
}

/// Inserts a hand value into a sorted run of hand values, keeping it
/// sorted.
pub open spec fn insert_value(v: (int, Seq<int>), s: Seq<(int, Seq<int>)>) -> Seq<(int, Seq<int>)>
    decreases s.len(),
{
    if s.len() == 0 {
        seq![v]
    } else if value_le(v, s[0]) {
        seq![v] + s
    } else {
        seq![s[0]] + insert_value(v, s.drop_first())
    }
}

/// Sorts a list of hand values by the value order, smallest first.
pub open spec fn sort_values(s: Seq<(int, Seq<int>)>) -> Seq<(int, Seq<int>)>
    decreases s.len(),
{
    if s.len() == 0 {
        s
    } else {
        insert_value(s[0], sort_values(s.drop_first()))
    }
}

/// Inserting into a sorted list keeps it sorted and adds the one value.
pub proof fn lemma_insert_value_ensures(v: (int, Seq<int>), s: Seq<(int, Seq<int>)>)
    requires
        values_sorted(s),
    ensures
        values_sorted(insert_value(v, s)),
        insert_value(v, s).len() == s.len() + 1,
        insert_value(v, s).to_multiset() == s.to_multiset().insert(v),
    decreases s.len(),
{
    broadcast use vstd::seq_lib::group_to_multiset_ensures;
    broadcast use vstd::multiset::group_multiset_axioms;

    if s.len() == 0 {
        assert(seq![v] =~= Seq::<(int, Seq<int>)>::empty().push(v));
        assert(seq![v].to_multiset() =~= s.to_multiset().insert(v));
    } else if value_le(v, s[0]) {
        let r = seq![v] + s;
        assert forall|i: int, j: int| 0 <= i < j < r.len() implies value_le(
            #[trigger] r[i],
            #[trigger] r[j],
        ) by {
            if i == 0 {
                if j > 1 {
                    lemma_value_le_transitive(v, s[0], s[j - 1]);
                }
            }
        }
        vstd::seq_lib::lemma_multiset_commutative(seq![v], s);
        assert(seq![v].to_multiset() =~= Multiset::<(int, Seq<int>)>::empty().insert(v));
        assert(r.to_multiset() =~= s.to_multiset().insert(v));
    } else {
        let rest = insert_value(v, s.drop_first());
        lemma_insert_value_ensures(v, s.drop_first());
        lemma_value_le_total(v, s[0]);
        let r = seq![s[0]] + rest;
        assert forall|k: int| 0 <= k < rest.len() implies value_le(s[0], #[trigger] rest[k]) by {
            assert(rest.contains(rest[k]));
            assert(rest.to_multiset().count(rest[k]) > 0);
            if rest[k] == v {
            } else {
                assert(s.drop_first().to_multiset().count(rest[k]) > 0);
                assert(s.drop_first().contains(rest[k]));
                let m = choose|m: int|
                    0 <= m < s.drop_first().len() && s.drop_first()[m] == rest[k];
                assert(s.drop_first()[m] == s[m + 1]);
                assert(value_le(s[0], s[m + 1]));
            }
        }
        assert forall|i: int, j: int| 0 <= i < j < r.len() implies value_le(
            #[trigger] r[i],
            #[trigger] r[j],
        ) by {
            if i > 0 {
                assert(r[i] == rest[i - 1] && r[j] == rest[j - 1]);
                assert(value_le(rest[i - 1], rest[j - 1]));
            }
        }
        vstd::seq_lib::lemma_multiset_commutative(seq![s[0]], rest);
        assert(seq![s[0]].to_multiset() =~= Multiset::<(int, Seq<int>)>::empty().insert(s[0]));
        assert(s.remove(0) == s.drop_first());
        assert(s.remove(0).to_multiset() == s.to_multiset().remove(s[0]));
        assert(s.contains(s[0]));
        assert(r.to_multiset() =~= s.to_multiset().insert(v));
    }
}

/// Sorting yields a sorted rearrangement of the same hand values.
pub proof fn lemma_sort_values_ensures(s: Seq<(int, Seq<int>)>)
    ensures
        values_sorted(sort_values(s)),
        sort_values(s).len() == s.len(),
        sort_values(s).to_multiset() == s.to_multiset(),
    decreases s.len(),
{
    broadcast use vstd::seq_lib::group_to_multiset_ensures;
    broadcast use vstd::multiset::group_multiset_axioms;

    if s.len() > 0 {
        lemma_sort_values_ensures(s.drop_first());
        lemma_insert_value_ensures(s[0], sort_values(s.drop_first()));
        assert(s.remove(0) == s.drop_first());
        assert(s.remove(0).to_multiset() == s.to_multiset().remove(s[0]));
        assert(s.contains(s[0]));
        assert(sort_values(s).to_multiset() =~= s.to_multiset());
    }
}

/// Sorting a sorted list changes nothing.
pub proof fn lemma_sort_values_of_sorted(s: Seq<(int, Seq<int>)>)
    requires
        values_sorted(s),
    ensures
        sort_values(s) == s,
    decreases s.len(),
{
    if s.len() > 0 {
        lemma_sort_values_of_sorted(s.drop_first());
        let ins = insert_value(s[0], s.drop_first());
        if s.len() == 1 {
            assert(ins =~= s);
        } else {
            assert(value_le(s[0], s.drop_first()[0]));
            assert(ins =~= seq![s[0]] + s.drop_first());
            assert(ins =~= s);
        }
    }
}

/// Sorting by hand value is idempotent.
pub proof fn lemma_sort_values_idempotent(s: Seq<(int, Seq<int>)>)
    ensures
        sort_values(sort_values(s)) == sort_values(s),
{
    lemma_sort_values_ensures(s);
    lemma_sort_values_of_sorted(sort_values(s));
}

} // verus!

