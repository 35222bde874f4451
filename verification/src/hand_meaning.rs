//! What the hand categories mean for the cards of a hand: how often each
//! rank occurs among them, whether they share a suit, and whether their
//! ranks follow one another.

use crate::card::{Card, Rank};
use crate::poker_hand::{classify, rank_geq, ranks_of, same_suit, sorted_ranks, PokerHandRank};
use vstd::prelude::*;

verus! {

/// How often a rank occurs among the cards.
pub open spec fn occurrences(cards: Seq<Card>, rank: Rank) -> nat {
    ranks_of(cards).to_multiset().count(rank)
}

/// One of the cards has the rank with the given number.
pub open spec fn holds_number(cards: Seq<Card>, number: int) -> bool {
    exists|i: int| 0 <= i < cards.len() && (#[trigger] cards[i]).rank.number() == number
}

/// The ranks of the five cards are the five that end with `top`.
pub open spec fn runs_down_from(cards: Seq<Card>, top: Rank) -> bool {
    &&& holds_number(cards, top.number())
    &&& holds_number(cards, top.number() - 1)
    &&& holds_number(cards, top.number() - 2)
    &&& holds_number(cards, top.number() - 3)
    &&& holds_number(cards, top.number() - 4)
}

/// The five ranks differ, are given from the highest to the lowest, and each
/// is the rank of one of the cards.
pub open spec fn five_apart(cards: Seq<Card>, a: Rank, b: Rank, c: Rank, d: Rank, e: Rank) -> bool {
    &&& a.number() > b.number() > c.number() > d.number() > e.number()
    &&& occurrences(cards, a) == 1
    &&& occurrences(cards, b) == 1
    &&& occurrences(cards, c) == 1
    &&& occurrences(cards, d) == 1
    &&& occurrences(cards, e) == 1
}

/// What a hand says of five cards.
pub open spec fn means(hand: PokerHandRank, cards: Seq<Card>) -> bool {
    match hand {
        PokerHandRank::StraightFlush(top) => same_suit(cards) && runs_down_from(cards, top),
        PokerHandRank::FourOfAKind(four, kicker) => {
            &&& occurrences(cards, four) == 4
            &&& occurrences(cards, kicker) == 1
        },
        PokerHandRank::FullHouse(three, two) => {
            &&& occurrences(cards, three) == 3
            &&& occurrences(cards, two) == 2
        },
        PokerHandRank::Flush(a, b, c, d, e) => {
            &&& same_suit(cards)
            &&& five_apart(cards, a, b, c, d, e)
            &&& a.number() - e.number() != 4
        },
        PokerHandRank::Straight(top) => !same_suit(cards) && runs_down_from(cards, top),
        PokerHandRank::ThreeOfAKind(three, a, b) => {
            &&& occurrences(cards, three) == 3
            &&& occurrences(cards, a) == 1
            &&& occurrences(cards, b) == 1
            &&& a.number() > b.number()
        },
        PokerHandRank::TwoPair(high, low, kicker) => {
            &&& occurrences(cards, high) == 2
            &&& occurrences(cards, low) == 2
            &&& occurrences(cards, kicker) == 1
            &&& high.number() > low.number()
        },
        PokerHandRank::Pair(pair, a, b, c) => {
            &&& occurrences(cards, pair) == 2
            &&& occurrences(cards, a) == 1
            &&& occurrences(cards, b) == 1
            &&& occurrences(cards, c) == 1
            &&& a.number() > b.number() > c.number()
        },
        PokerHandRank::HighCard(a, b, c, d, e) => {
            &&& !same_suit(cards)
            &&& five_apart(cards, a, b, c, d, e)
            &&& a.number() - e.number() != 4
        },
    }
}

/// How often a rank occurs in a list of five.
proof fn lemma_count_of_five(r: Seq<Rank>, x: Rank)
    requires
        r.len() == 5,
    ensures
        r.to_multiset().count(x) == (if r[0] == x {
            1nat
        } else {
            0nat
        }) + (if r[1] == x {
            1nat
        } else {
            0nat
        }) + (if r[2] == x {
            1nat
        } else {
            0nat
        }) + (if r[3] == x {
            1nat
        } else {
            0nat
        }) + (if r[4] == x {
            1nat
        } else {
            0nat
        }),
{
    broadcast use vstd::multiset::group_multiset_axioms;

    let e = Seq::<Rank>::empty();
    vstd::seq_lib::to_multiset_build(e, r[0]);
    vstd::seq_lib::to_multiset_build(e.push(r[0]), r[1]);
    vstd::seq_lib::to_multiset_build(e.push(r[0]).push(r[1]), r[2]);
    vstd::seq_lib::to_multiset_build(e.push(r[0]).push(r[1]).push(r[2]), r[3]);
    vstd::seq_lib::to_multiset_build(e.push(r[0]).push(r[1]).push(r[2]).push(r[3]), r[4]);
    assert(r =~= e.push(r[0]).push(r[1]).push(r[2]).push(r[3]).push(r[4]));
    e.to_multiset_ensures();
    assert(e.to_multiset().count(x) == 0);
}

/// The sorted ranks of five cards: five ranks, from the highest to the
/// lowest, each the rank of one of the cards, and each rank as often among
/// them as among the cards.
proof fn lemma_sorted_ranks_of_five(cards: Seq<Card>)
    requires
        cards.len() == 5,
    ensures
        sorted_ranks(cards).len() == 5,
        forall|i: int, j: int|
            0 <= i < j < 5 ==> sorted_ranks(cards)[i].number() >= sorted_ranks(cards)[j].number(),
        forall|i: int|
            0 <= i < 5 ==> holds_number(cards, (#[trigger] sorted_ranks(cards)[i]).number()),
        sorted_ranks(cards).to_multiset() == ranks_of(cards).to_multiset(),
{
    let geq = rank_geq();
    let given = ranks_of(cards);
    let r = sorted_ranks(cards);
    crate::poker_hand::lemma_rank_order_total();
    given.lemma_sort_by_ensures(geq);
    given.to_multiset_ensures();
    r.to_multiset_ensures();
    assert forall|i: int, j: int| 0 <= i < j < 5 implies r[i].number() >= r[j].number() by {
        assert(geq(r[i], r[j]));
    }
    assert forall|i: int| 0 <= i < 5 implies holds_number(cards, (#[trigger] r[i]).number()) by {
        assert(r.contains(r[i]));
        assert(given.to_multiset().count(r[i]) > 0);
        assert(given.contains(r[i]));
        let j = choose|j: int| 0 <= j < given.len() && given[j] == r[i];
        assert(cards[j].rank == r[i]);
    }
}

/// Five different cards of one suit are of five different ranks, and no
/// five different cards are of one rank.
proof fn lemma_different_cards(cards: Seq<Card>)
    requires
        cards.len() == 5,
        cards.no_duplicates(),
    ensures
        same_suit(cards) ==> forall|x: Rank| occurrences(cards, x) <= 1,
        forall|x: Rank| occurrences(cards, x) <= 4,
{
    let given = ranks_of(cards);
    assert forall|x: Rank| occurrences(cards, x) <= 4 && (same_suit(cards) ==> occurrences(
        cards,
        x,
    ) <= 1) by {
        lemma_count_of_five(given, x);
        assert(given[0] == cards[0].rank && given[1] == cards[1].rank && given[2] == cards[2].rank
            && given[3] == cards[3].rank && given[4] == cards[4].rank);
        assert(cards[0] != cards[1] && cards[0] != cards[2] && cards[0] != cards[3] && cards[0]
            != cards[4] && cards[1] != cards[2] && cards[1] != cards[3] && cards[1] != cards[4]
            && cards[2] != cards[3] && cards[2] != cards[4] && cards[3] != cards[4]);
        if same_suit(cards) {
            assert(cards[1].suit == cards[0].suit && cards[2].suit == cards[0].suit
                && cards[3].suit == cards[0].suit && cards[4].suit == cards[0].suit);
        }
    }
}

/// The hand that five different cards make says of them what its category
/// means: which ranks occur among them and how often, whether the cards
/// share a suit, and whether their ranks follow one another.
pub proof fn lemma_classify_means(cards: Seq<Card>)
    requires
        cards.len() == 5,
        cards.no_duplicates(),
    ensures
        means(classify(cards), cards),
{
    let r = sorted_ranks(cards);
    lemma_sorted_ranks_of_five(cards);
    lemma_different_cards(cards);
    lemma_count_of_five(r, r[0]);
    lemma_count_of_five(r, r[1]);
    lemma_count_of_five(r, r[2]);
    lemma_count_of_five(r, r[3]);
    lemma_count_of_five(r, r[4]);
    assert(r[0].number() >= r[1].number() >= r[2].number() >= r[3].number() >= r[4].number());
    assert(holds_number(cards, r[0].number()));
    assert(holds_number(cards, r[1].number()));
    assert(holds_number(cards, r[2].number()));
    assert(holds_number(cards, r[3].number()));
    assert(holds_number(cards, r[4].number()));
}

/// What is known of the sorted ranks `r` of five different cards.
spec fn sorted_facts(cards: Seq<Card>, r: Seq<Rank>) -> bool {
    &&& r.len() == 5
    &&& r == sorted_ranks(cards)
    &&& r[0].number() >= r[1].number() >= r[2].number() >= r[3].number() >= r[4].number()
    &&& forall|x: Rank| #[trigger]
        occurrences(cards, x) == (if r[0] == x {
            1nat
        } else {
            0nat
        }) + (if r[1] == x {
            1nat
        } else {
            0nat
        }) + (if r[2] == x {
            1nat
        } else {
            0nat
        }) + (if r[3] == x {
            1nat
        } else {
            0nat
        }) + (if r[4] == x {
            1nat
        } else {
            0nat
        })
    &&& forall|n: int| #[trigger]
        holds_number(cards, n) ==> r[0].number() == n || r[1].number() == n || r[2].number() == n
            || r[3].number() == n || r[4].number() == n
    &&& same_suit(cards) ==> r[0] != r[1] && r[1] != r[2] && r[2] != r[3] && r[3] != r[4]
    &&& !(r[0] == r[1] && r[1] == r[2] && r[2] == r[3] && r[3] == r[4])
}

/// The facts hold of the sorted ranks of five different cards.
proof fn lemma_sorted_facts(cards: Seq<Card>)
    requires
        cards.len() == 5,
        cards.no_duplicates(),
    ensures
        sorted_facts(cards, sorted_ranks(cards)),
{
    let r = sorted_ranks(cards);
    let given = ranks_of(cards);
    lemma_sorted_ranks_of_five(cards);
    lemma_different_cards(cards);
    assert(r[0].number() >= r[1].number() >= r[2].number() >= r[3].number() >= r[4].number());
    assert forall|x: Rank| #[trigger]
        occurrences(cards, x) == (if r[0] == x {
            1nat
        } else {
            0nat
        }) + (if r[1] == x {
            1nat
        } else {
            0nat
        }) + (if r[2] == x {
            1nat
        } else {
            0nat
        }) + (if r[3] == x {
            1nat
        } else {
            0nat
        }) + (if r[4] == x {
            1nat
        } else {
            0nat
        }) by {
        lemma_count_of_five(r, x);
    }
    assert forall|n: int| #[trigger] holds_number(cards, n) implies r[0].number() == n
        || r[1].number() == n || r[2].number() == n || r[3].number() == n || r[4].number()
        == n by {
        let i = choose|i: int| 0 <= i < cards.len() && (#[trigger] cards[i]).rank.number() == n;
        let x = cards[i].rank;
        assert(given[i] == x);
        given.to_multiset_ensures();
        assert(given.contains(x));
        assert(occurrences(cards, x) > 0);
    }
    assert(occurrences(cards, r[0]) <= 4);
    if same_suit(cards) {
        assert(occurrences(cards, r[0]) <= 1);
        assert(occurrences(cards, r[1]) <= 1);
        assert(occurrences(cards, r[2]) <= 1);
        assert(occurrences(cards, r[3]) <= 1);
    }
}

/// The hand is decided by the sorted ranks and the suits, as `classify`
/// decides it.
proof fn lemma_one_hand_with_few_ranks(cards: Seq<Card>, r: Seq<Rank>, hand: PokerHandRank)
    requires
        sorted_facts(cards, r),
        means(hand, cards),
        hand is FourOfAKind || hand is FullHouse || hand is ThreeOfAKind || hand is TwoPair
            || hand is Pair,
    ensures
        hand == classify(cards),
{
    let k = hand.kickers();
    assert(occurrences(cards, k[0]) >= 2);
    assert(occurrences(cards, k[1]) >= 1);
    if k.len() >= 3 {
        assert(occurrences(cards, k[2]) >= 1);
    }
    if k.len() >= 4 {
        assert(occurrences(cards, k[3]) >= 1);
    }
}

/// A hand of five ranks apart is decided by the sorted ranks and the suits,
/// as `classify` decides it.
proof fn lemma_one_hand_with_five_ranks(cards: Seq<Card>, r: Seq<Rank>, hand: PokerHandRank)
    requires
        sorted_facts(cards, r),
        means(hand, cards),
        hand is Flush || hand is HighCard,
    ensures
        hand == classify(cards),
{
    let k = hand.kickers();
    assert(occurrences(cards, k[0]) == 1);
    assert(occurrences(cards, k[1]) == 1);
    assert(occurrences(cards, k[2]) == 1);
    assert(occurrences(cards, k[3]) == 1);
    assert(occurrences(cards, k[4]) == 1);
    assert(k[0] == r[0] && k[1] == r[1] && k[2] == r[2] && k[3] == r[3] && k[4] == r[4]);
}

/// A run is decided by the sorted ranks and the suits, as `classify`
/// decides it.
proof fn lemma_one_hand_with_a_run(cards: Seq<Card>, r: Seq<Rank>, hand: PokerHandRank)
    requires
        sorted_facts(cards, r),
        means(hand, cards),
        hand is Straight || hand is StraightFlush,
    ensures
        hand == classify(cards),
{
    let top = hand.kickers()[0];
    let t = top.number();
    assert(holds_number(cards, t));
    assert(holds_number(cards, t - 1));
    assert(holds_number(cards, t - 2));
    assert(holds_number(cards, t - 3));
    assert(holds_number(cards, t - 4));
    assert(r[0].number() == t && r[1].number() == t - 1 && r[2].number() == t - 2 && r[3].number()
        == t - 3 && r[4].number() == t - 4);
    assert(r[0] == top);
}

/// No two hands say the same of five cards: what holds of five different
/// cards is what the hand means that `classify` gives them, and what no
/// other hand means.
pub proof fn lemma_meaning_is_of_one_hand(cards: Seq<Card>, hand: PokerHandRank)
    requires
        cards.len() == 5,
        cards.no_duplicates(),
        means(hand, cards),
    ensures
        hand == classify(cards),
{
    let r = sorted_ranks(cards);
    lemma_sorted_facts(cards);
    if hand is Straight || hand is StraightFlush {
        lemma_one_hand_with_a_run(cards, r, hand);
    } else if hand is Flush || hand is HighCard {
        lemma_one_hand_with_five_ranks(cards, r, hand);
    } else {
        lemma_one_hand_with_few_ranks(cards, r, hand);
    }
}

} // verus!
