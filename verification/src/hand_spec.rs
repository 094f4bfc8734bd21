//! The mathematical model of hands: the hand-string grammar, the category
//! of a hand, its scoring order, and the value ordering between hands.

use vstd::prelude::*;

verus! {

use vstd::multiset::Multiset;
use crate::cards::{Card, Ranks, Suits, rank_value};
use crate::poker_hand::{PokerHandRanks, category_value};

// ---------------------------------------------------------------------------
// The hand-string grammar.
//
// A hand string is five card tokens separated by single spaces, matching the
// whole string. A card token is a rank token (`2`-`9`, `10`, `J`, `Q`, `K`,
// `A`) immediately followed by a suit letter (`H`, `S`, `C`, `D`).
// ---------------------------------------------------------------------------

/// The rank denoted by a single-character rank token, if any.
/// (`10` is the one two-character rank token and is handled by
/// [`spec_card_token`].)
pub open spec fn spec_rank_char(c: char) -> Option<Ranks> {
    if c == '2' {
        Some(Ranks::Two)
    } else if c == '3' {
        Some(Ranks::Three)
    } else if c == '4' {
        Some(Ranks::Four)
    } else if c == '5' {
        Some(Ranks::Five)
    } else if c == '6' {
        Some(Ranks::Six)
    } else if c == '7' {
        Some(Ranks::Seven)
    } else if c == '8' {
        Some(Ranks::Eight)
    } else if c == '9' {
        Some(Ranks::Nine)
    } else if c == 'J' {
        Some(Ranks::Jack)
    } else if c == 'Q' {
        Some(Ranks::Queen)
    } else if c == 'K' {
        Some(Ranks::King)
    } else if c == 'A' {
        Some(Ranks::Ace)
    } else {
        None
    }
}

/// The suit denoted by a suit letter, if any.
pub open spec fn spec_suit_char(c: char) -> Option<Suits> {
    if c == 'H' {
        Some(Suits::Hearts)
    } else if c == 'S' {
        Some(Suits::Spades)
    } else if c == 'C' {
        Some(Suits::Clubs)
    } else if c == 'D' {
        Some(Suits::Diamonds)
    } else {
        None
    }
}

/// The card token at the front of `s`: the card it denotes and the number of
/// characters it covers (2, or 3 for a `10` rank), or `None` if `s` does not
/// begin with a card token.
pub open spec fn spec_card_token(s: Seq<char>) -> Option<(Card, int)> {
    if s.len() >= 2 && s[0] == '1' {
        if s.len() >= 3 && s[1] == '0' {
            match spec_suit_char(s[2]) {
                Some(su) => Some((Card { rank: Ranks::Ten, suit: su }, 3)),
                None => None,
            }
        } else {
            None
        }
    } else if s.len() >= 2 {
        match (spec_rank_char(s[0]), spec_suit_char(s[1])) {
            (Some(r), Some(su)) => Some((Card { rank: r, suit: su }, 2)),
            _ => None,
        }
    } else {
        None
    }
}

/// `n` card tokens separated by single spaces, covering the whole of `s`:
/// the cards in input order, or `None` if `s` is not of that shape.
pub open spec fn spec_parse_cards(s: Seq<char>, n: nat) -> Option<Seq<Card>>
    decreases n,
{
    if n == 0 {
        None
    } else {
        match spec_card_token(s) {
            None => None,
            Some((c, k)) => {
                if n == 1 {
                    if s.len() == k {
                        Some(seq![c])
                    } else {
                        None
                    }
                } else {
                    if k < s.len() && s[k] == ' ' {
                        match spec_parse_cards(s.skip(k + 1), (n - 1) as nat) {
                            None => None,
                            Some(rest) => Some(seq![c] + rest),
                        }
                    } else {
                        None
                    }
                }
            },
        }
    }
}

/// The five cards denoted by a hand string, in input order, or `None` if the
/// string is not a syntactically valid five-card hand.
pub open spec fn spec_parse_hand(s: Seq<char>) -> Option<Seq<Card>> {
    spec_parse_cards(s, 5)
}

// ---------------------------------------------------------------------------
// Duplicate cards.
// ---------------------------------------------------------------------------

/// Some card occurs twice (same rank and same suit) in `cs`.
pub open spec fn has_duplicate_card(cs: Seq<Card>) -> bool {
    exists|i: int, j: int| 0 <= i < j < cs.len() && cs[i] == cs[j]
}

// ---------------------------------------------------------------------------
// Rank sequences and rank counts.
// ---------------------------------------------------------------------------

/// The numeric rank weights of the cards, in the same order.
pub open spec fn ranks_of(cs: Seq<Card>) -> Seq<int> {
    cs.map_values(|c: Card| rank_value(c.rank))
}

/// How many entries of `rs` equal `v`.
pub open spec fn count_eq(rs: Seq<int>, v: int) -> nat
    decreases rs.len(),
{
    if rs.len() == 0 {
        0
    } else {
        (if rs[0] == v {
            1nat
        } else {
            0nat
        }) + count_eq(rs.drop_first(), v)
    }
}

/// `count_eq` agrees with the multiset count, so it is invariant under
/// permutation.
pub proof fn lemma_count_eq_multiset(rs: Seq<int>, v: int)
    ensures
        count_eq(rs, v) == rs.to_multiset().count(v),
    decreases rs.len(),
{
    broadcast use vstd::seq_lib::group_to_multiset_ensures;

    if rs.len() == 0 {
        assert(rs.to_multiset() =~= Multiset::<int>::empty());
    } else {
        lemma_count_eq_multiset(rs.drop_first(), v);
        assert(rs.remove(0) == rs.drop_first());
        assert(rs.remove(0).to_multiset() == rs.to_multiset().remove(rs[0]));
    }
}

/// For a five-entry sequence, the count is the sum of the five comparisons.
pub proof fn lemma_count_eq5(rs: Seq<int>, v: int)
    requires
        rs.len() == 5,
    ensures
        count_eq(rs, v) == (if rs[0] == v { 1int } else { 0 }) + (if rs[1] == v { 1int } else { 0 })
            + (if rs[2] == v { 1int } else { 0 }) + (if rs[3] == v { 1int } else { 0 }) + (if rs[4]
            == v { 1int } else { 0 }),
{
    reveal_with_fuel(count_eq, 6);
    let r1 = rs.drop_first();
    let r2 = r1.drop_first();
    let r3 = r2.drop_first();
    let r4 = r3.drop_first();
    let r5 = r4.drop_first();
    assert(r5.len() == 0);
    assert(count_eq(r5, v) == 0);
    assert(r4[0] == rs[4]);
    assert(r3[0] == rs[3]);
    assert(r2[0] == rs[2]);
    assert(r1[0] == rs[1]);
}

// ---------------------------------------------------------------------------
// Category of a hand.
//
// All predicates below take the five parsed cards in input order; counting
// predicates are invariant under permutation, and the straight predicates are
// stated over the rank weights sorted in descending order.
// ---------------------------------------------------------------------------

/// Descending order on rank weights, as a `sort_by` relation.
pub open spec fn descending() -> spec_fn(int, int) -> bool {
    |a: int, b: int| a >= b
}

/// The rank weights of the cards, sorted in descending order.
pub open spec fn sorted_ranks(cs: Seq<Card>) -> Seq<int> {
    ranks_of(cs).sort_by(descending())
}

/// All five cards share one suit.
pub open spec fn is_flush(cs: Seq<Card>) -> bool {
    forall|i: int| 0 <= i < cs.len() ==> #[trigger] cs[i].suit == cs[0].suit
}

/// `rs` descends in steps of one from its first entry.
pub open spec fn is_run(rs: Seq<int>) -> bool {
    forall|i: int| 0 < i < rs.len() ==> #[trigger] rs[i] == rs[0] - i
}

/// `rs` is the descending rank weights of the low-Ace straight
/// (the "wheel" A-5-4-3-2).
pub open spec fn is_wheel(rs: Seq<int>) -> bool {
    rs.len() == 5 && rs[0] == 14 && rs[1] == 5 && rs[2] == 4 && rs[3] == 3 && rs[4] == 2
}

/// The descending rank weights `rs` form a straight: five consecutive
/// values, or the wheel.
pub open spec fn is_straight(rs: Seq<int>) -> bool {
    rs.len() == 5 && (is_run(rs) || is_wheel(rs))
}

/// Some rank occurs exactly `n` times among the weights `rs`.
pub open spec fn has_count(rs: Seq<int>, n: nat) -> bool {
    exists|v: int| #[trigger] count_eq(rs, v) == n
}

/// Two different ranks each occur exactly twice among the weights `rs`.
pub open spec fn has_two_pairs(rs: Seq<int>) -> bool {
    exists|v: int, w: int|
        v != w && #[trigger] count_eq(rs, v) == 2 && #[trigger] count_eq(rs, w) == 2
}

/// The category of the five parsed cards `cs`, by the standard poker
/// hierarchy: the first of StraightFlush, FourOfAKind, FullHouse, Flush,
/// Straight, ThreeOfAKind, TwoPair, Pair whose shape the hand has, and
/// HighCard if it has none of them.
pub open spec fn spec_category(cs: Seq<Card>) -> PokerHandRanks {
    let rs = ranks_of(cs);
    if is_straight(sorted_ranks(cs)) && is_flush(cs) {
        PokerHandRanks::StraightFlush
    } else if has_count(rs, 4) {
        PokerHandRanks::FourOfAKind
    } else if has_count(rs, 3) && has_count(rs, 2) {
        PokerHandRanks::FullHouse
    } else if is_flush(cs) {
        PokerHandRanks::Flush
    } else if is_straight(sorted_ranks(cs)) {
        PokerHandRanks::Straight
    } else if has_count(rs, 3) {
        PokerHandRanks::ThreeOfAKind
    } else if has_two_pairs(rs) {
        PokerHandRanks::TwoPair
    } else if has_count(rs, 2) {
        PokerHandRanks::Pair
    } else {
        PokerHandRanks::HighCard
    }
}

// ---------------------------------------------------------------------------
// Scoring order.
//
// The scoring order of a hand is the order in which its rank weights are
// compared against another hand of the same category: groups of equal ranks
// come first, larger groups before smaller ones and higher ranks before
// lower ones within groups of one size. For the wheel the Ace scores below
// the 5, so its scoring order is 5, 4, 3, 2, A.
// ---------------------------------------------------------------------------

/// Scoring precedence among the rank weights of one hand, as a `sort_by`
/// relation: `a` comes no later than `b` when `a` occurs more often in `rs0`,
/// or equally often and is at least as high.
pub open spec fn scoring_precedes(rs0: Seq<int>) -> spec_fn(int, int) -> bool {
    |a: int, b: int|
        count_eq(rs0, a) > count_eq(rs0, b) || (count_eq(rs0, a) == count_eq(rs0, b) && a >= b)
}

/// The rank weights of the five parsed cards `cs` in scoring order.
pub open spec fn spec_scoring_ranks(cs: Seq<Card>) -> Seq<int> {
    let rs = ranks_of(cs);
    if is_wheel(sorted_ranks(cs)) {
        seq![5int, 4, 3, 2, 14]
    } else {
        rs.sort_by(scoring_precedes(rs))
    }
}

/// `descending()` is a total ordering on rank weights.
pub proof fn lemma_descending_total_ordering()
    ensures
        vstd::relations::total_ordering(descending()),
{
}

/// `scoring_precedes(rs0)` is a total ordering on rank weights.
pub proof fn lemma_scoring_precedes_total_ordering(rs0: Seq<int>)
    ensures
        vstd::relations::total_ordering(scoring_precedes(rs0)),
{
}

// ---------------------------------------------------------------------------
// Permutation lemmas: the predicates above do not depend on the order of the
// five cards.
// ---------------------------------------------------------------------------

/// Swapping two entries of a sequence keeps its multiset.
pub proof fn lemma_swap_seq_multiset<A>(s: Seq<A>, i: int, j: int)
    requires
        0 <= i < s.len(),
        0 <= j < s.len(),
    ensures
        s.update(i, s[j]).update(j, s[i]).to_multiset() == s.to_multiset(),
{
    broadcast use vstd::seq_lib::group_to_multiset_ensures;
    broadcast use vstd::multiset::group_multiset_axioms;

    if i == j {
        assert(s.update(i, s[j]).update(j, s[i]) =~= s);
    } else {
        let s1 = s.update(i, s[j]);
        let s2 = s1.update(j, s[i]);
        assert(s1 =~= s.remove(i).insert(i, s[j]));
        assert(s.contains(s[i]));
        assert(s1.to_multiset() =~= s.to_multiset().remove(s[i]).insert(s[j]));
        assert(s2 =~= s1.remove(j).insert(j, s[i]));
        assert(s1[j] == s[j]);
        assert(s1.contains(s1[j]));
        assert(s2.to_multiset() =~= s1.to_multiset().remove(s[j]).insert(s[i]));
        assert(s2.to_multiset() =~= s.to_multiset());
    }
}

/// A sequence holds a duplicate card exactly when some card has multiset
/// count at least two.
pub proof fn lemma_dup_iff_count(a: Seq<Card>)
    ensures
        has_duplicate_card(a) <==> exists|c: Card| a.to_multiset().count(c) >= 2,
{
    broadcast use vstd::seq_lib::group_to_multiset_ensures;

    if has_duplicate_card(a) {
        let (i, j) = choose|i: int, j: int| 0 <= i < j < a.len() && a[i] == a[j];
        let b = a.remove(j);
        assert(b.to_multiset() == a.to_multiset().remove(a[j]));
        assert(b[i] == a[i]);
        assert(b.contains(a[j]));
        assert(b.to_multiset().count(a[j]) >= 1);
        assert(a.to_multiset().count(a[j]) >= 2);
    }
    if exists|c: Card| a.to_multiset().count(c) >= 2 {
        let c = choose|c: Card| a.to_multiset().count(c) >= 2;
        assert(a.contains(c));
        let i = choose|i: int| 0 <= i < a.len() && a[i] == c;
        let b = a.remove(i);
        assert(b.to_multiset() == a.to_multiset().remove(c));
        assert(b.to_multiset().count(c) >= 1);
        assert(b.contains(c));
        let k = choose|k: int| 0 <= k < b.len() && b[k] == c;
        let j = if k < i {
            k
        } else {
            k + 1
        };
        assert(a[j] == b[k]);
        assert(i != j && a[i] == a[j]);
        if i < j {
            assert(has_duplicate_card(a));
        } else {
            assert(has_duplicate_card(a));
        }
    }
}

/// Two sequences with the same cards (as a multiset) either both hold a
/// duplicate card or neither does.
pub proof fn lemma_has_duplicate_multiset(a: Seq<Card>, b: Seq<Card>)
    requires
        a.to_multiset() == b.to_multiset(),
    ensures
        has_duplicate_card(a) == has_duplicate_card(b),
{
    lemma_dup_iff_count(a);
    lemma_dup_iff_count(b);
}

/// Two sequences with the same cards (as a multiset) are flushes together.
pub proof fn lemma_is_flush_multiset(a: Seq<Card>, b: Seq<Card>)
    requires
        a.to_multiset() == b.to_multiset(),
    ensures
        is_flush(a) == is_flush(b),
{
    broadcast use vstd::seq_lib::group_to_multiset_ensures;

    if a.len() == 0 {
        assert(a.to_multiset().len() == 0);
        assert(b.len() == 0);
    } else {
        assert(a.contains(a[0]));
        assert(a.to_multiset().count(a[0]) > 0);
        assert(b.to_multiset().count(a[0]) > 0);
        assert(b.contains(a[0]));
        if is_flush(a) {
            assert forall|k: int| 0 <= k < b.len() implies #[trigger] b[k].suit == b[0].suit by {
                assert(b.contains(b[k]));
                assert(b.to_multiset().count(b[k]) > 0);
                assert(a.to_multiset().count(b[k]) > 0);
                assert(a.contains(b[k]));
                let i = choose|i: int| 0 <= i < a.len() && a[i] == b[k];
                assert(b[k].suit == a[0].suit);
                assert(b.contains(b[0]));
                assert(b.to_multiset().count(b[0]) > 0);
                assert(a.to_multiset().count(b[0]) > 0);
                assert(a.contains(b[0]));
                let i0 = choose|i: int| 0 <= i < a.len() && a[i] == b[0];
                assert(b[0].suit == a[0].suit);
            }
        }
        if is_flush(b) {
            assert forall|k: int| 0 <= k < a.len() implies #[trigger] a[k].suit == a[0].suit by {
                assert(a.contains(a[k]));
                assert(a.to_multiset().count(a[k]) > 0);
                assert(b.to_multiset().count(a[k]) > 0);
                assert(b.contains(a[k]));
                let i = choose|i: int| 0 <= i < b.len() && b[i] == a[k];
                assert(a[k].suit == b[0].suit);
                assert(b.contains(a[0]));
                let i0 = choose|i: int| 0 <= i < b.len() && b[i] == a[0];
                assert(a[0].suit == b[0].suit);
            }
        }
    }
}

/// Five duplicate-free cards cannot all have one rank: there are only four
/// suits.
pub proof fn lemma_no_five_of_one_rank(s: Seq<Card>)
    requires
        s.len() == 5,
        !has_duplicate_card(s),
    ensures
        !(ranks_of(s)[0] == ranks_of(s)[1] && ranks_of(s)[0] == ranks_of(s)[2] && ranks_of(s)[0]
            == ranks_of(s)[3] && ranks_of(s)[0] == ranks_of(s)[4]),
{
    if ranks_of(s)[0] == ranks_of(s)[1] && ranks_of(s)[0] == ranks_of(s)[2] && ranks_of(s)[0]
        == ranks_of(s)[3] && ranks_of(s)[0] == ranks_of(s)[4] {
        assert forall|i: int, j: int| 0 <= i < j < 5 implies s[i].rank == s[j].rank by {
            crate::cards::lemma_rank_value_injective(s[i].rank, s[j].rank);
        }
        assert(forall|i: int, j: int| 0 <= i < j < 5 ==> s[i] != s[j]);
        assert(forall|i: int, j: int| 0 <= i < j < 5 ==> s[i].suit != s[j].suit);
    }
}

/// In a duplicate-free flush all rank weights are pairwise distinct: two
/// cards of one rank and one suit would be the same card.
pub proof fn lemma_flush_distinct_ranks(s: Seq<Card>)
    requires
        is_flush(s),
        !has_duplicate_card(s),
    ensures
        forall|i: int, j: int|
            0 <= i < j < s.len() ==> #[trigger] ranks_of(s)[i] != #[trigger] ranks_of(s)[j],
{
    assert forall|i: int, j: int|
        0 <= i < j < s.len() implies #[trigger] ranks_of(s)[i] != #[trigger] ranks_of(s)[j] by {
        if ranks_of(s)[i] == ranks_of(s)[j] {
            crate::cards::lemma_rank_value_injective(s[i].rank, s[j].rank);
            assert(s[i].suit == s[0].suit && s[j].suit == s[0].suit);
            assert(s[i] == s[j]);
        }
    }
}

// ---------------------------------------------------------------------------
// Classification lemmas: what the category and the scoring order of a hand
// are, computed from its cards in descending rank order.
// ---------------------------------------------------------------------------

/// `srt` is a rearrangement of the five duplicate-free parsed cards `cs`
/// into descending rank order.
pub open spec fn sorted_version_of(cs: Seq<Card>, srt: Seq<Card>) -> bool {
    &&& cs.len() == 5
    &&& srt.len() == 5
    &&& srt.to_multiset() == cs.to_multiset()
    &&& ranks_of(srt).to_multiset() == ranks_of(cs).to_multiset()
    &&& vstd::relations::sorted_by(ranks_of(srt), descending())
    &&& !has_duplicate_card(cs)
}

/// Every rank occurs equally often among the parsed and the sorted cards.
pub proof fn lemma_counts_transfer(cs: Seq<Card>, srt: Seq<Card>)
    requires
        sorted_version_of(cs, srt),
    ensures
        forall|v: int| #[trigger] count_eq(ranks_of(cs), v) == count_eq(ranks_of(srt), v),
{
    assert forall|v: int| #[trigger] count_eq(ranks_of(cs), v) == count_eq(ranks_of(srt), v) by {
        lemma_count_eq_multiset(ranks_of(cs), v);
        lemma_count_eq_multiset(ranks_of(srt), v);
    }
}

/// The rank weights of the sorted cards are the sorted rank weights of the
/// parsed cards.
pub proof fn lemma_rss_is_sorted_ranks(cs: Seq<Card>, srt: Seq<Card>)
    requires
        sorted_version_of(cs, srt),
    ensures
        ranks_of(srt) == sorted_ranks(cs),
{
    let rs0 = ranks_of(cs);
    lemma_descending_total_ordering();
    rs0.lemma_sort_by_ensures(descending());
    vstd::seq_lib::lemma_sorted_unique(ranks_of(srt), rs0.sort_by(descending()), descending());
}

/// A rearrangement of a hand's rank weights that respects scoring
/// precedence is the hand's scoring order.
pub proof fn lemma_scoring_ranks_unique(cs: Seq<Card>, srt: Seq<Card>, frs: Seq<int>)
    requires
        sorted_version_of(cs, srt),
        !is_wheel(sorted_ranks(cs)),
        frs.to_multiset() == ranks_of(srt).to_multiset(),
        vstd::relations::sorted_by(frs, scoring_precedes(ranks_of(cs))),
    ensures
        frs == spec_scoring_ranks(cs),
{
    let rs0 = ranks_of(cs);
    lemma_scoring_precedes_total_ordering(rs0);
    rs0.lemma_sort_by_ensures(scoring_precedes(rs0));
    vstd::seq_lib::lemma_sorted_unique(
        frs,
        rs0.sort_by(scoring_precedes(rs0)),
        scoring_precedes(rs0),
    );
}

/// A straight hand: its category is Straight, or StraightFlush when it is
/// also a flush, and its scoring order is the descending rank order, with
/// the Ace moved behind the 5 in the wheel.
pub proof fn lemma_classify_straight(cs: Seq<Card>, srt: Seq<Card>)
    requires
        sorted_version_of(cs, srt),
        is_straight(ranks_of(srt)),
    ensures
        spec_category(cs) == (if is_flush(cs) {
            PokerHandRanks::StraightFlush
        } else {
            PokerHandRanks::Straight
        }),
        is_wheel(ranks_of(srt)) ==> spec_scoring_ranks(cs) == seq![5int, 4, 3, 2, 14],
        !is_wheel(ranks_of(srt)) ==> spec_scoring_ranks(cs) == ranks_of(srt),
{
    let rs0 = ranks_of(cs);
    let rss = ranks_of(srt);
    lemma_rss_is_sorted_ranks(cs, srt);
    lemma_counts_transfer(cs, srt);
    // The five rank weights of a straight are pairwise distinct.
    assert(forall|i: int, j: int| 0 <= i < j < 5 ==> rss[i] != rss[j]);
    assert forall|v: int| #[trigger] count_eq(rs0, v) <= 1 by {
        lemma_count_eq5(rss, v);
    }
    assert(!has_count(rs0, 4));
    assert(!has_count(rs0, 3));
    if is_flush(cs) {
        assert(spec_category(cs) == PokerHandRanks::StraightFlush);
    } else {
        assert(spec_category(cs) == PokerHandRanks::Straight);
    }
    if !is_wheel(rss) {
        assert forall|a: int, b: int|
            0 <= a < b < rss.len() implies #[trigger] scoring_precedes(rs0)(rss[a], rss[b]) by {
            lemma_count_eq5(rss, rss[a]);
            lemma_count_eq5(rss, rss[b]);
            assert(descending()(rss[a], rss[b]));
        }
        lemma_scoring_ranks_unique(cs, srt, rss);
    }
}

/// A hand with no straight, no flush and no two cards of one rank is a high
/// card hand, and its scoring order is the descending rank order.
pub proof fn lemma_classify_high_card(cs: Seq<Card>, srt: Seq<Card>)
    requires
        sorted_version_of(cs, srt),
        !is_straight(ranks_of(srt)),
        ({
            let rss = ranks_of(srt);
            rss[0] != rss[1] && rss[1] != rss[2] && rss[2] != rss[3] && rss[3] != rss[4]
        }),
    ensures
        spec_category(cs) == (if is_flush(cs) {
            PokerHandRanks::Flush
        } else {
            PokerHandRanks::HighCard
        }),
        spec_scoring_ranks(cs) == ranks_of(srt),
{
    let rs0 = ranks_of(cs);
    let rss = ranks_of(srt);
    lemma_rss_is_sorted_ranks(cs, srt);
    lemma_counts_transfer(cs, srt);
    // Adjacent entries differ and the weights descend, so all are distinct.
    assert(forall|i: int, j: int| 0 <= i < j < 5 ==> descending()(rss[i], rss[j]));
    assert(forall|i: int, j: int| 0 <= i < j < 5 ==> rss[i] != rss[j]);
    assert forall|v: int| #[trigger] count_eq(rs0, v) <= 1 by {
        lemma_count_eq5(rss, v);
    }
    assert(!has_count(rs0, 4));
    assert(!has_count(rs0, 3));
    assert(!has_count(rs0, 2));
    assert(!has_two_pairs(rs0));
    assert forall|a: int, b: int|
        0 <= a < b < rss.len() implies #[trigger] scoring_precedes(rs0)(rss[a], rss[b]) by {
        lemma_count_eq5(rss, rss[a]);
        lemma_count_eq5(rss, rss[b]);
        assert(descending()(rss[a], rss[b]));
    }
    lemma_scoring_ranks_unique(cs, srt, rss);
}

/// A hand with four cards of one rank: its category is FourOfAKind, and its
/// scoring order puts the four matching cards first and the kicker last.
pub proof fn lemma_classify_four(cs: Seq<Card>, srt: Seq<Card>)
    requires
        sorted_version_of(cs, srt),
        !is_straight(ranks_of(srt)),
        ({
            let rss = ranks_of(srt);
            rss[1] == rss[2] && rss[1] == rss[3] && (rss[1] == rss[0] || rss[1] == rss[4])
        }),
    ensures
        spec_category(cs) == PokerHandRanks::FourOfAKind,
        ranks_of(srt)[4] == ranks_of(srt)[1] ==> spec_scoring_ranks(cs) == ranks_of(srt).update(
            0,
            ranks_of(srt)[4],
        ).update(4, ranks_of(srt)[0]),
        ranks_of(srt)[4] != ranks_of(srt)[1] ==> spec_scoring_ranks(cs) == ranks_of(srt),
{
    let rs0 = ranks_of(cs);
    let rss = ranks_of(srt);
    lemma_rss_is_sorted_ranks(cs, srt);
    lemma_counts_transfer(cs, srt);
    lemma_has_duplicate_multiset(cs, srt);
    lemma_no_five_of_one_rank(srt);
    assert forall|i: int, j: int| 0 <= i < j < 5 implies rss[i] >= rss[j] by {
        assert(descending()(rss[i], rss[j]));
    }
    let q = rss[1];
    if rss[4] == q {
        // The kicker stands in front; the four matching cards follow.
        assert(rss[0] != q);
        let frs = rss.update(0, rss[4]).update(4, rss[0]);
        lemma_swap_seq_multiset(rss, 0, 4);
        assert forall|v: int| #[trigger] count_eq(rs0, v) == count_eq(rss, v) && (count_eq(rss, v)
            == 4 <==> v == q) && (count_eq(rss, v) == 1 <==> v == rss[0]) by {
            lemma_count_eq5(rss, v);
        }
        assert(count_eq(rs0, q) == 4);
        assert(has_count(rs0, 4));
        assert(spec_category(cs) == PokerHandRanks::FourOfAKind);
        assert forall|a: int, b: int|
            0 <= a < b < frs.len() implies #[trigger] scoring_precedes(rs0)(frs[a], frs[b]) by {
            lemma_count_eq5(rss, frs[a]);
            lemma_count_eq5(rss, frs[b]);
        }
        lemma_scoring_ranks_unique(cs, srt, frs);
    } else {
        // The four matching cards already stand in front.
        assert(rss[0] == q);
        assert forall|v: int| #[trigger] count_eq(rs0, v) == count_eq(rss, v) && (count_eq(rss, v)
            == 4 <==> v == q) && (count_eq(rss, v) == 1 <==> v == rss[4]) by {
            lemma_count_eq5(rss, v);
        }
        assert(count_eq(rs0, q) == 4);
        assert(has_count(rs0, 4));
        assert(spec_category(cs) == PokerHandRanks::FourOfAKind);
        assert forall|a: int, b: int|
            0 <= a < b < rss.len() implies #[trigger] scoring_precedes(rs0)(rss[a], rss[b]) by {
            lemma_count_eq5(rss, rss[a]);
            lemma_count_eq5(rss, rss[b]);
        }
        lemma_scoring_ranks_unique(cs, srt, rss);
    }
}

/// A hand with exactly three cards of one rank: a FullHouse when the other
/// two cards pair up, a ThreeOfAKind otherwise. The scoring order puts the
/// three matching cards first, then the remaining two in descending rank
/// order.
pub proof fn lemma_classify_three_full(cs: Seq<Card>, srt: Seq<Card>)
    requires
        sorted_version_of(cs, srt),
        !is_straight(ranks_of(srt)),
        ({
            let rss = ranks_of(srt);
            !(rss[1] == rss[2] && rss[1] == rss[3] && (rss[1] == rss[0] || rss[1] == rss[4]))
        }),
        ({
            let rss = ranks_of(srt);
            (rss[0] == rss[1] && rss[0] == rss[2]) || (rss[1] == rss[2] && rss[1] == rss[3]) || (
            rss[2] == rss[3] && rss[2] == rss[4])
        }),
    ensures
        ({
            let rss = ranks_of(srt);
            let c1 = rss[0] == rss[1] && rss[0] == rss[2];
            let c2 = rss[1] == rss[2] && rss[1] == rss[3];
            let c3 = rss[2] == rss[3] && rss[2] == rss[4];
            &&& c1 && rss[3] == rss[4] ==> spec_category(cs) == PokerHandRanks::FullHouse
                && spec_scoring_ranks(cs) == rss
            &&& c1 && rss[3] != rss[4] ==> spec_category(cs) == PokerHandRanks::ThreeOfAKind
                && spec_scoring_ranks(cs) == rss
            &&& !c1 && c2 ==> spec_category(cs) == PokerHandRanks::ThreeOfAKind
                && spec_scoring_ranks(cs) == rss.update(0, rss[3]).update(3, rss[0])
            &&& !c1 && !c2 && c3 && rss[0] == rss[1] ==> spec_category(cs)
                == PokerHandRanks::FullHouse && spec_scoring_ranks(cs) == rss.update(
                0,
                rss[3],
            ).update(3, rss[0]).update(1, rss[4]).update(4, rss[1])
            &&& !c1 && !c2 && c3 && rss[0] != rss[1] ==> spec_category(cs)
                == PokerHandRanks::ThreeOfAKind && spec_scoring_ranks(cs) == rss.update(
                0,
                rss[3],
            ).update(3, rss[0]).update(1, rss[4]).update(4, rss[1])
        }),
{
    let rs0 = ranks_of(cs);
    let rss = ranks_of(srt);
    let c1 = rss[0] == rss[1] && rss[0] == rss[2];
    let c2 = rss[1] == rss[2] && rss[1] == rss[3];
    let c3 = rss[2] == rss[3] && rss[2] == rss[4];
    lemma_rss_is_sorted_ranks(cs, srt);
    lemma_counts_transfer(cs, srt);
    lemma_has_duplicate_multiset(cs, srt);
    lemma_no_five_of_one_rank(srt);
    assert forall|i: int, j: int| 0 <= i < j < 5 implies rss[i] >= rss[j] by {
        assert(descending()(rss[i], rss[j]));
    }
    lemma_is_flush_multiset(cs, srt);
    if is_flush(srt) {
        lemma_flush_distinct_ranks(srt);
    }
    assert(!is_flush(cs));
    if c1 {
        let t = rss[0];
        assert(rss[3] != t && rss[4] != t);
        if rss[3] == rss[4] {
            let p = rss[3];
            assert forall|v: int| #[trigger] count_eq(rs0, v) == count_eq(rss, v) && (count_eq(
                rss,
                v,
            ) == 3 <==> v == t) && (count_eq(rss, v) == 2 <==> v == p) && count_eq(rss, v) != 4 by {
                lemma_count_eq5(rss, v);
            }
            assert(count_eq(rs0, t) == 3 && count_eq(rs0, p) == 2);
            assert(has_count(rs0, 3) && has_count(rs0, 2) && !has_count(rs0, 4));
            assert(spec_category(cs) == PokerHandRanks::FullHouse);
        } else {
            assert forall|v: int| #[trigger] count_eq(rs0, v) == count_eq(rss, v) && (count_eq(
                rss,
                v,
            ) == 3 <==> v == t) && count_eq(rss, v) != 4 && count_eq(rss, v) != 2 by {
                lemma_count_eq5(rss, v);
            }
            assert(count_eq(rs0, t) == 3);
            assert(has_count(rs0, 3) && !has_count(rs0, 2) && !has_count(rs0, 4));
            assert(spec_category(cs) == PokerHandRanks::ThreeOfAKind);
        }
        assert forall|a: int, b: int|
            0 <= a < b < rss.len() implies #[trigger] scoring_precedes(rs0)(rss[a], rss[b]) by {
            lemma_count_eq5(rss, rss[a]);
            lemma_count_eq5(rss, rss[b]);
        }
        lemma_scoring_ranks_unique(cs, srt, rss);
    } else if c2 {
        let t = rss[1];
        assert(rss[0] != t && rss[4] != t);
        assert(rss[0] != rss[4]);
        let frs = rss.update(0, rss[3]).update(3, rss[0]);
        lemma_swap_seq_multiset(rss, 0, 3);
        assert forall|v: int| #[trigger] count_eq(rs0, v) == count_eq(rss, v) && (count_eq(rss, v)
            == 3 <==> v == t) && count_eq(rss, v) != 4 && count_eq(rss, v) != 2 by {
            lemma_count_eq5(rss, v);
        }
        assert(count_eq(rs0, t) == 3);
        assert(has_count(rs0, 3) && !has_count(rs0, 2) && !has_count(rs0, 4));
        assert(spec_category(cs) == PokerHandRanks::ThreeOfAKind);
        assert forall|a: int, b: int|
            0 <= a < b < frs.len() implies #[trigger] scoring_precedes(rs0)(frs[a], frs[b]) by {
            lemma_count_eq5(rss, frs[a]);
            lemma_count_eq5(rss, frs[b]);
        }
        lemma_scoring_ranks_unique(cs, srt, frs);
    } else {
        let t = rss[2];
        assert(rss[1] != t && rss[0] != t);
        let u1 = rss.update(0, rss[3]).update(3, rss[0]);
        let frs = u1.update(1, u1[4]).update(4, u1[1]);
        assert(frs == rss.update(0, rss[3]).update(3, rss[0]).update(1, rss[4]).update(4, rss[1]));
        lemma_swap_seq_multiset(rss, 0, 3);
        lemma_swap_seq_multiset(u1, 1, 4);
        if rss[0] == rss[1] {
            let p = rss[0];
            assert forall|v: int| #[trigger] count_eq(rs0, v) == count_eq(rss, v) && (count_eq(
                rss,
                v,
            ) == 3 <==> v == t) && (count_eq(rss, v) == 2 <==> v == p) && count_eq(rss, v) != 4 by {
                lemma_count_eq5(rss, v);
            }
            assert(count_eq(rs0, t) == 3 && count_eq(rs0, p) == 2);
            assert(has_count(rs0, 3) && has_count(rs0, 2) && !has_count(rs0, 4));
            assert(spec_category(cs) == PokerHandRanks::FullHouse);
        } else {
            assert forall|v: int| #[trigger] count_eq(rs0, v) == count_eq(rss, v) && (count_eq(
                rss,
                v,
            ) == 3 <==> v == t) && count_eq(rss, v) != 4 && count_eq(rss, v) != 2 by {
                lemma_count_eq5(rss, v);
            }
            assert(count_eq(rs0, t) == 3);
            assert(has_count(rs0, 3) && !has_count(rs0, 2) && !has_count(rs0, 4));
            assert(spec_category(cs) == PokerHandRanks::ThreeOfAKind);
        }
        assert forall|a: int, b: int|
            0 <= a < b < frs.len() implies #[trigger] scoring_precedes(rs0)(frs[a], frs[b]) by {
            lemma_count_eq5(rss, frs[a]);
            lemma_count_eq5(rss, frs[b]);
        }
        lemma_scoring_ranks_unique(cs, srt, frs);
    }
}

/// A hand whose largest rank group is a pair: TwoPair when two such groups
/// exist, Pair otherwise. The scoring order puts the pairs first, the higher
/// pair leading, and the kickers after them in descending rank order.
pub proof fn lemma_classify_pairs(cs: Seq<Card>, srt: Seq<Card>)
    requires
        sorted_version_of(cs, srt),
        !is_straight(ranks_of(srt)),
        ({
            let rss = ranks_of(srt);
            !(rss[1] == rss[2] && rss[1] == rss[3] && (rss[1] == rss[0] || rss[1] == rss[4]))
        }),
        ({
            let rss = ranks_of(srt);
            !(rss[0] == rss[1] && rss[0] == rss[2]) && !(rss[1] == rss[2] && rss[1] == rss[3])
                && !(rss[2] == rss[3] && rss[2] == rss[4])
        }),
        ({
            let rss = ranks_of(srt);
            rss[0] == rss[1] || rss[1] == rss[2] || rss[2] == rss[3] || rss[3] == rss[4]
        }),
    ensures
        ({
            let rss = ranks_of(srt);
            let p01 = rss[0] == rss[1];
            let p12 = rss[1] == rss[2];
            let p23 = rss[2] == rss[3];
            let p34 = rss[3] == rss[4];
            &&& p01 && p23 ==> spec_category(cs) == PokerHandRanks::TwoPair
                && spec_scoring_ranks(cs) == rss
            &&& p01 && !p23 && p34 ==> spec_category(cs) == PokerHandRanks::TwoPair
                && spec_scoring_ranks(cs) == rss.update(2, rss[4]).update(4, rss[2])
            &&& p01 && !p23 && !p34 ==> spec_category(cs) == PokerHandRanks::Pair
                && spec_scoring_ranks(cs) == rss
            &&& !p01 && p12 && p34 ==> spec_category(cs) == PokerHandRanks::TwoPair
                && spec_scoring_ranks(cs) == rss.update(0, rss[2]).update(2, rss[0]).update(
                2,
                rss[4],
            ).update(4, rss[0])
            &&& !p01 && p12 && !p34 ==> spec_category(cs) == PokerHandRanks::Pair
                && spec_scoring_ranks(cs) == rss.update(0, rss[2]).update(2, rss[0])
            &&& !p01 && !p12 && p23 ==> spec_category(cs) == PokerHandRanks::Pair
                && spec_scoring_ranks(cs) == rss.update(0, rss[2]).update(2, rss[0]).update(
                1,
                rss[3],
            ).update(3, rss[1])
            &&& !p01 && !p12 && !p23 && p34 ==> spec_category(cs) == PokerHandRanks::Pair
                && spec_scoring_ranks(cs) == rss.update(2, rss[4]).update(4, rss[2]).update(
                1,
                rss[3],
            ).update(3, rss[1]).update(0, rss[4]).update(2, rss[0])
        }),
{
    let rs0 = ranks_of(cs);
    let rss = ranks_of(srt);
    let p01 = rss[0] == rss[1];
    let p12 = rss[1] == rss[2];
    let p23 = rss[2] == rss[3];
    let p34 = rss[3] == rss[4];
    lemma_rss_is_sorted_ranks(cs, srt);
    lemma_counts_transfer(cs, srt);
    lemma_has_duplicate_multiset(cs, srt);
    assert forall|i: int, j: int| 0 <= i < j < 5 implies rss[i] >= rss[j] by {
        assert(descending()(rss[i], rss[j]));
    }
    lemma_is_flush_multiset(cs, srt);
    if is_flush(srt) {
        lemma_flush_distinct_ranks(srt);
    }
    assert(!is_flush(cs));
    if p01 && p23 {
        assert forall|v: int| #[trigger] count_eq(rs0, v) == count_eq(rss, v) && (count_eq(rss, v)
            == 2 <==> v == rss[0] || v == rss[2]) && count_eq(rss, v) != 3 && count_eq(rss, v)
            != 4 by {
            lemma_count_eq5(rss, v);
        }
        assert(count_eq(rs0, rss[0]) == 2 && count_eq(rs0, rss[2]) == 2 && rss[0] != rss[2]);
        assert(has_two_pairs(rs0) && !has_count(rs0, 3) && !has_count(rs0, 4));
        assert(spec_category(cs) == PokerHandRanks::TwoPair);
        assert forall|a: int, b: int|
            0 <= a < b < rss.len() implies #[trigger] scoring_precedes(rs0)(rss[a], rss[b]) by {
            lemma_count_eq5(rss, rss[a]);
            lemma_count_eq5(rss, rss[b]);
        }
        lemma_scoring_ranks_unique(cs, srt, rss);
    } else if p01 && p34 {
        let frs = rss.update(2, rss[4]).update(4, rss[2]);
        lemma_swap_seq_multiset(rss, 2, 4);
        assert forall|v: int| #[trigger] count_eq(rs0, v) == count_eq(rss, v) && (count_eq(rss, v)
            == 2 <==> v == rss[0] || v == rss[4]) && count_eq(rss, v) != 3 && count_eq(rss, v)
            != 4 by {
            lemma_count_eq5(rss, v);
        }
        assert(count_eq(rs0, rss[0]) == 2 && count_eq(rs0, rss[4]) == 2 && rss[0] != rss[4]);
        assert(has_two_pairs(rs0) && !has_count(rs0, 3) && !has_count(rs0, 4));
        assert(spec_category(cs) == PokerHandRanks::TwoPair);
        assert forall|a: int, b: int|
            0 <= a < b < frs.len() implies #[trigger] scoring_precedes(rs0)(frs[a], frs[b]) by {
            lemma_count_eq5(rss, frs[a]);
            lemma_count_eq5(rss, frs[b]);
        }
        lemma_scoring_ranks_unique(cs, srt, frs);
    } else if p01 {
        assert forall|v: int| #[trigger] count_eq(rs0, v) == count_eq(rss, v) && (count_eq(rss, v)
            == 2 <==> v == rss[0]) && count_eq(rss, v) != 3 && count_eq(rss, v) != 4 by {
            lemma_count_eq5(rss, v);
        }
        assert(count_eq(rs0, rss[0]) == 2);
        assert(has_count(rs0, 2) && !has_two_pairs(rs0) && !has_count(rs0, 3) && !has_count(
            rs0,
            4,
        ));
        assert(spec_category(cs) == PokerHandRanks::Pair);
        assert forall|a: int, b: int|
            0 <= a < b < rss.len() implies #[trigger] scoring_precedes(rs0)(rss[a], rss[b]) by {
            lemma_count_eq5(rss, rss[a]);
            lemma_count_eq5(rss, rss[b]);
        }
        lemma_scoring_ranks_unique(cs, srt, rss);
    } else if p12 && p34 {
        let u1 = rss.update(0, rss[2]).update(2, rss[0]);
        let frs = u1.update(2, u1[4]).update(4, u1[2]);
        assert(frs == rss.update(0, rss[2]).update(2, rss[0]).update(2, rss[4]).update(4, rss[0]));
        lemma_swap_seq_multiset(rss, 0, 2);
        lemma_swap_seq_multiset(u1, 2, 4);
        assert forall|v: int| #[trigger] count_eq(rs0, v) == count_eq(rss, v) && (count_eq(rss, v)
            == 2 <==> v == rss[1] || v == rss[3]) && count_eq(rss, v) != 3 && count_eq(rss, v)
            != 4 by {
            lemma_count_eq5(rss, v);
        }
        assert(count_eq(rs0, rss[1]) == 2 && count_eq(rs0, rss[3]) == 2 && rss[1] != rss[3]);
        assert(has_two_pairs(rs0) && !has_count(rs0, 3) && !has_count(rs0, 4));
        assert(spec_category(cs) == PokerHandRanks::TwoPair);
        assert forall|a: int, b: int|
            0 <= a < b < frs.len() implies #[trigger] scoring_precedes(rs0)(frs[a], frs[b]) by {
            lemma_count_eq5(rss, frs[a]);
            lemma_count_eq5(rss, frs[b]);
        }
        lemma_scoring_ranks_unique(cs, srt, frs);
    } else if p12 {
        let frs = rss.update(0, rss[2]).update(2, rss[0]);
        lemma_swap_seq_multiset(rss, 0, 2);
        assert forall|v: int| #[trigger] count_eq(rs0, v) == count_eq(rss, v) && (count_eq(rss, v)
            == 2 <==> v == rss[1]) && count_eq(rss, v) != 3 && count_eq(rss, v) != 4 by {
            lemma_count_eq5(rss, v);
        }
        assert(count_eq(rs0, rss[1]) == 2);
        assert(has_count(rs0, 2) && !has_two_pairs(rs0) && !has_count(rs0, 3) && !has_count(
            rs0,
            4,
        ));
        assert(spec_category(cs) == PokerHandRanks::Pair);
        assert forall|a: int, b: int|
            0 <= a < b < frs.len() implies #[trigger] scoring_precedes(rs0)(frs[a], frs[b]) by {
            lemma_count_eq5(rss, frs[a]);
            lemma_count_eq5(rss, frs[b]);
        }
        lemma_scoring_ranks_unique(cs, srt, frs);
    } else if p23 {
        let u1 = rss.update(0, rss[2]).update(2, rss[0]);
        let frs = u1.update(1, u1[3]).update(3, u1[1]);
        assert(frs == rss.update(0, rss[2]).update(2, rss[0]).update(1, rss[3]).update(3, rss[1]));
        lemma_swap_seq_multiset(rss, 0, 2);
        lemma_swap_seq_multiset(u1, 1, 3);
        assert forall|v: int| #[trigger] count_eq(rs0, v) == count_eq(rss, v) && (count_eq(rss, v)
            == 2 <==> v == rss[2]) && count_eq(rss, v) != 3 && count_eq(rss, v) != 4 by {
            lemma_count_eq5(rss, v);
        }
        assert(count_eq(rs0, rss[2]) == 2);
        assert(has_count(rs0, 2) && !has_two_pairs(rs0) && !has_count(rs0, 3) && !has_count(
            rs0,
            4,
        ));
        assert(spec_category(cs) == PokerHandRanks::Pair);
        assert forall|a: int, b: int|
            0 <= a < b < frs.len() implies #[trigger] scoring_precedes(rs0)(frs[a], frs[b]) by {
            lemma_count_eq5(rss, frs[a]);
            lemma_count_eq5(rss, frs[b]);
        }
        lemma_scoring_ranks_unique(cs, srt, frs);
    } else {
        let u1 = rss.update(2, rss[4]).update(4, rss[2]);
        let u2 = u1.update(1, u1[3]).update(3, u1[1]);
        let frs = u2.update(0, u2[2]).update(2, u2[0]);
        assert(frs == rss.update(2, rss[4]).update(4, rss[2]).update(1, rss[3]).update(
            3,
            rss[1],
        ).update(0, rss[4]).update(2, rss[0]));
        lemma_swap_seq_multiset(rss, 2, 4);
        lemma_swap_seq_multiset(u1, 1, 3);
        lemma_swap_seq_multiset(u2, 0, 2);
        assert forall|v: int| #[trigger] count_eq(rs0, v) == count_eq(rss, v) && (count_eq(rss, v)
            == 2 <==> v == rss[3]) && count_eq(rss, v) != 3 && count_eq(rss, v) != 4 by {
            lemma_count_eq5(rss, v);
        }
        assert(count_eq(rs0, rss[3]) == 2);
        assert(has_count(rs0, 2) && !has_two_pairs(rs0) && !has_count(rs0, 3) && !has_count(
            rs0,
            4,
        ));
        assert(spec_category(cs) == PokerHandRanks::Pair);
        assert forall|a: int, b: int|
            0 <= a < b < frs.len() implies #[trigger] scoring_precedes(rs0)(frs[a], frs[b]) by {
            lemma_count_eq5(rss, frs[a]);
            lemma_count_eq5(rss, frs[b]);
        }
        lemma_scoring_ranks_unique(cs, srt, frs);
    }
}

// ---------------------------------------------------------------------------
// The value of a hand, and the order between hand values.
//
// A hand value is the pair of the category weight and the scoring-order rank
// weights; hands of equal value tie regardless of suits.
// ---------------------------------------------------------------------------

/// The value that a hand string denotes: `None` for a string that is not a
/// syntactically valid hand or that holds a duplicate card.
pub open spec fn spec_hand_value(s: Seq<char>) -> Option<(int, Seq<int>)> {
    match spec_parse_hand(s) {
        None => None,
        Some(cs) => if has_duplicate_card(cs) {
            None
        } else {
            Some((category_value(spec_category(cs)), spec_scoring_ranks(cs)))
        },
    }
}

/// Lexicographic order on rank-weight sequences: the first differing entry
/// decides, and a proper prefix comes before its extensions.
pub open spec fn lex_le(a: Seq<int>, b: Seq<int>) -> bool
    decreases a.len(),
{
    if a.len() == 0 {
        true
    } else if b.len() == 0 {
        false
    } else if a[0] < b[0] {
        true
    } else if a[0] > b[0] {
        false
    } else {
        lex_le(a.drop_first(), b.drop_first())
    }
}

/// The value order between hands: the higher category wins, and within one
/// category the scoring-order rank weights decide lexicographically.
pub open spec fn value_le(a: (int, Seq<int>), b: (int, Seq<int>)) -> bool {
    a.0 < b.0 || (a.0 == b.0 && lex_le(a.1, b.1))
}

/// The lexicographic order is reflexive.
pub proof fn lemma_lex_le_refl(a: Seq<int>)
    ensures
        lex_le(a, a),
    decreases a.len(),
{
    if a.len() > 0 {
        lemma_lex_le_refl(a.drop_first());
    }
}

/// When two sequences agree before position `i` and differ there, the one
/// with the smaller entry comes strictly first.
pub proof fn lemma_lex_le_first_diff(a: Seq<int>, b: Seq<int>, i: int)
    requires
        0 <= i < a.len(),
        i < b.len(),
        forall|k: int| 0 <= k < i ==> a[k] == b[k],
        a[i] < b[i],
    ensures
        lex_le(a, b),
        !lex_le(b, a),
    decreases i,
{
    if i > 0 {
        lemma_lex_le_first_diff(a.drop_first(), b.drop_first(), i - 1);
    }
}

/// A prefix comes no later than its extensions, and a proper prefix comes
/// strictly first.
pub proof fn lemma_lex_le_prefix(a: Seq<int>, b: Seq<int>)
    requires
        a.len() <= b.len(),
        forall|k: int| 0 <= k < a.len() ==> a[k] == b[k],
    ensures
        lex_le(a, b),
        a.len() < b.len() ==> !lex_le(b, a),
    decreases a.len(),
{
    if a.len() > 0 {
        lemma_lex_le_prefix(a.drop_first(), b.drop_first());
    }
}

/// The lexicographic order is total.
pub proof fn lemma_lex_le_total(a: Seq<int>, b: Seq<int>)
    ensures
        lex_le(a, b) || lex_le(b, a),
    decreases a.len(),
{
    if a.len() > 0 && b.len() > 0 && a[0] == b[0] {
        lemma_lex_le_total(a.drop_first(), b.drop_first());
    }
}

/// The lexicographic order is antisymmetric.
pub proof fn lemma_lex_le_antisymmetric(a: Seq<int>, b: Seq<int>)
    requires
        lex_le(a, b),
        lex_le(b, a),
    ensures
        a == b,
    decreases a.len(),
{
    if a.len() == 0 {
        assert(b.len() == 0);
        assert(a =~= b);
    } else {
        lemma_lex_le_antisymmetric(a.drop_first(), b.drop_first());
        assert(a =~= seq![a[0]] + a.drop_first());
        assert(b =~= seq![b[0]] + b.drop_first());
        assert(a =~= b);
    }
}

/// The lexicographic order is transitive.
pub proof fn lemma_lex_le_transitive(a: Seq<int>, b: Seq<int>, c: Seq<int>)
    requires
        lex_le(a, b),
        lex_le(b, c),
    ensures
        lex_le(a, c),
    decreases a.len(),
{
    if a.len() > 0 && b.len() > 0 && c.len() > 0 && a[0] == b[0] && b[0] == c[0] {
        lemma_lex_le_transitive(a.drop_first(), b.drop_first(), c.drop_first());
    }
}

// ---------------------------------------------------------------------------
// Winner selection.
// ---------------------------------------------------------------------------

/// The greatest hand value among the strings `hs`, or `None` when no string
/// denotes a valid hand.
pub open spec fn max_value(hs: Seq<Seq<char>>) -> Option<(int, Seq<int>)>
    decreases hs.len(),
{
    if hs.len() == 0 {
        None
    } else {
        match (max_value(hs.drop_last()), spec_hand_value(hs.last())) {
            (m, None) => m,
            (None, Some(v)) => Some(v),
            (Some(m), Some(v)) => if value_le(m, v) {
                Some(v)
            } else {
                Some(m)
            },
        }
    }
}

/// Whether the string `s` denotes a valid hand whose value is the greatest
/// among the strings `hs`.
pub open spec fn is_winner_among(hs: Seq<Seq<char>>) -> spec_fn(Seq<char>) -> bool {
    |s: Seq<char>| spec_hand_value(s) is Some && spec_hand_value(s) == max_value(hs)
}

/// The strings of `hs` whose hands attain the greatest value, in input
/// order; empty when no string denotes a valid hand.
pub open spec fn winners_of(hs: Seq<Seq<char>>) -> Seq<Seq<char>> {
    hs.filter(is_winner_among(hs))
}

/// The views of a list of hand strings.
pub open spec fn views_of(hands: Seq<&str>) -> Seq<Seq<char>> {
    hands.map_values(|h: &str| h@)
}

/// There is no greatest hand value exactly when no string denotes a valid
/// hand.
pub proof fn lemma_max_value_none(hs: Seq<Seq<char>>)
    ensures
        max_value(hs) is None <==> (forall|i: int|
            0 <= i < hs.len() ==> #[trigger] spec_hand_value(hs[i]) is None),
    decreases hs.len(),
{
    if hs.len() > 0 {
        lemma_max_value_none(hs.drop_last());
        assert(forall|i: int| 0 <= i < hs.len() - 1 ==> hs.drop_last()[i] == hs[i]);
        assert(hs.last() == hs[hs.len() - 1]);
    }
}

/// A greatest hand value, where there is one, is attained by some string
/// and is at least the value of every valid hand in the list.
pub proof fn lemma_max_value_attained(hs: Seq<Seq<char>>)
    requires
        max_value(hs) is Some,
    ensures
        exists|i: int|
            0 <= i < hs.len() && #[trigger] spec_hand_value(hs[i]) == max_value(hs),
        forall|i: int|
            0 <= i < hs.len() && #[trigger] spec_hand_value(hs[i]) is Some ==> value_le(
                spec_hand_value(hs[i])->Some_0,
                max_value(hs)->Some_0,
            ),
    decreases hs.len(),
{
    let m = max_value(hs)->Some_0;
    let rest = hs.drop_last();
    assert(forall|i: int| 0 <= i < hs.len() - 1 ==> hs[i] == rest[i]);
    assert(hs.last() == hs[hs.len() - 1]);
    match (max_value(rest), spec_hand_value(hs.last())) {
        (Some(mr), None) => {
            lemma_max_value_attained(rest);
            let i = choose|i: int|
                0 <= i < rest.len() && #[trigger] spec_hand_value(rest[i]) == max_value(rest);
            assert(spec_hand_value(hs[i]) == max_value(hs));
            assert forall|i: int|
                0 <= i < hs.len() && #[trigger] spec_hand_value(hs[i]) is Some implies value_le(
                spec_hand_value(hs[i])->Some_0,
                m,
            ) by {
                assert(spec_hand_value(rest[i]) is Some);
            }
        },
        (None, Some(v)) => {
            lemma_max_value_none(rest);
            lemma_value_le_refl(v);
            assert(spec_hand_value(hs[hs.len() - 1]) == max_value(hs));
        },
        (Some(mr), Some(v)) => {
            lemma_max_value_attained(rest);
            lemma_value_le_total(mr, v);
            lemma_value_le_refl(v);
            lemma_value_le_refl(mr);
            if value_le(mr, v) {
                assert(spec_hand_value(hs[hs.len() - 1]) == max_value(hs));
                assert forall|i: int|
                    0 <= i < hs.len() && #[trigger] spec_hand_value(hs[i]) is Some implies value_le(
                    spec_hand_value(hs[i])->Some_0,
                    m,
                ) by {
                    if i < hs.len() - 1 {
                        lemma_value_le_transitive(spec_hand_value(hs[i])->Some_0, mr, v);
                    }
                }
            } else {
                let i = choose|i: int|
                    0 <= i < rest.len() && #[trigger] spec_hand_value(rest[i]) == max_value(rest);
                assert(spec_hand_value(hs[i]) == max_value(hs));
                lemma_value_le_total(v, mr);
                assert forall|i: int|
                    0 <= i < hs.len() && #[trigger] spec_hand_value(hs[i]) is Some implies value_le(
                    spec_hand_value(hs[i])->Some_0,
                    m,
                ) by {
                    if i < hs.len() - 1 {
                        assert(spec_hand_value(rest[i]) is Some);
                    }
                }
            }
        },
        (None, None) => {
            lemma_max_value_none(rest);
        },
    }
}

/// The value order between hand values is reflexive.
pub proof fn lemma_value_le_refl(a: (int, Seq<int>))
    ensures
        value_le(a, a),
{
    lemma_lex_le_refl(a.1);
}

/// The value order between hand values is total: any two values compare.
pub proof fn lemma_value_le_total(a: (int, Seq<int>), b: (int, Seq<int>))
    ensures
        value_le(a, b) || value_le(b, a),
{
    lemma_lex_le_total(a.1, b.1);
}

/// The value order between hand values is antisymmetric: two values below
/// one another are the same value.
pub proof fn lemma_value_le_antisymmetric(a: (int, Seq<int>), b: (int, Seq<int>))
    requires
        value_le(a, b),
        value_le(b, a),
    ensures
        a == b,
{
    lemma_lex_le_antisymmetric(a.1, b.1);
}

/// The value order between hand values is transitive.
pub proof fn lemma_value_le_transitive(a: (int, Seq<int>), b: (int, Seq<int>), c: (int, Seq<int>))
    requires
        value_le(a, b),
        value_le(b, c),
    ensures
        value_le(a, c),
{
    if a.0 == b.0 && b.0 == c.0 {
        lemma_lex_le_transitive(a.1, b.1, c.1);
    }
}

} // verus!
