//! Seven cards and the table: the five-card combinations, the best hand,
//! the deck and the winners of a showdown.

use crate::card::{Card, Rank, Suit};
use crate::poker_hand::{cards_to_hand, classify, PokerHandRank};
use rand::seq::SliceRandom;
use vstd::prelude::*;

verus! {

/// The number of ways to pick `k` things out of `n`.
pub open spec fn binomial(n: int, k: int) -> int
    decreases n,
{
    if k == 0 {
        1
    } else if n <= 0 || k < 0 {
        0
    } else {
        binomial(n - 1, k - 1) + binomial(n - 1, k)
    }
}

/// Five positions among seven, in ascending order.
pub open spec fn ascending(i: int, j: int, k: int, l: int, m: int) -> bool {
    0 <= i < j < k < l < m < 7
}

/// The place of the combination at positions `i < j < k < l < m` when all
/// combinations of five positions among seven are listed in lexicographic
/// order: the number of combinations listed before it.
pub open spec fn combination_place(i: int, j: int, k: int, l: int, m: int) -> int {
    (binomial(7, 5) - binomial(7 - i, 5)) + (binomial(6 - i, 4) - binomial(7 - j, 4)) + (binomial(
        6 - j,
        3,
    ) - binomial(7 - k, 3)) + (binomial(6 - k, 2) - binomial(7 - l, 2)) + (binomial(6 - l, 1)
        - binomial(7 - m, 1))
}

/// The positions of the `n`-th combination of five among seven, the
/// combinations counted from 0 in lexicographic order.
pub open spec fn combination_indices(n: int) -> (int, int, int, int, int) {
    if n == 0 {
        (0, 1, 2, 3, 4)
    } else if n == 1 {
        (0, 1, 2, 3, 5)
    } else if n == 2 {
        (0, 1, 2, 3, 6)
    } else if n == 3 {
        (0, 1, 2, 4, 5)
    } else if n == 4 {
        (0, 1, 2, 4, 6)
    } else if n == 5 {
        (0, 1, 2, 5, 6)
    } else if n == 6 {
        (0, 1, 3, 4, 5)
    } else if n == 7 {
        (0, 1, 3, 4, 6)
    } else if n == 8 {
        (0, 1, 3, 5, 6)
    } else if n == 9 {
        (0, 1, 4, 5, 6)
    } else if n == 10 {
        (0, 2, 3, 4, 5)
    } else if n == 11 {
        (0, 2, 3, 4, 6)
    } else if n == 12 {
        (0, 2, 3, 5, 6)
    } else if n == 13 {
        (0, 2, 4, 5, 6)
    } else if n == 14 {
        (0, 3, 4, 5, 6)
    } else if n == 15 {
        (1, 2, 3, 4, 5)
    } else if n == 16 {
        (1, 2, 3, 4, 6)
    } else if n == 17 {
        (1, 2, 3, 5, 6)
    } else if n == 18 {
        (1, 2, 4, 5, 6)
    } else if n == 19 {
        (1, 3, 4, 5, 6)
    } else {
        (2, 3, 4, 5, 6)
    }
}

/// The cards at five positions, in the positions' order.
pub open spec fn pick(cards: Seq<Card>, at: (int, int, int, int, int)) -> Seq<Card> {
    seq![cards[at.0], cards[at.1], cards[at.2], cards[at.3], cards[at.4]]
}

/// The `n`-th five-card combination of seven cards.
pub open spec fn combination(cards: Seq<Card>, n: int) -> Seq<Card> {
    pick(cards, combination_indices(n))
}

/// The binomial numbers that the count of combinations rests on.
proof fn lemma_binomial_values()
    ensures
        forall|k: int| k >= 1 ==> #[trigger] binomial(0, k) == 0,
        binomial(1, 1) == 1 && binomial(2, 1) == 2 && binomial(3, 1) == 3 && binomial(4, 1) == 4
            && binomial(5, 1) == 5 && binomial(6, 1) == 6,
        binomial(1, 2) == 0 && binomial(2, 2) == 1 && binomial(3, 2) == 3 && binomial(4, 2) == 6
            && binomial(5, 2) == 10,
        binomial(1, 3) == 0 && binomial(2, 3) == 0 && binomial(3, 3) == 1 && binomial(4, 3) == 4
            && binomial(5, 3) == 10 && binomial(6, 3) == 20,
        binomial(1, 4) == 0 && binomial(2, 4) == 0 && binomial(3, 4) == 0 && binomial(4, 4) == 1
            && binomial(5, 4) == 5 && binomial(6, 4) == 15,
        binomial(1, 5) == 0 && binomial(2, 5) == 0 && binomial(3, 5) == 0 && binomial(4, 5) == 0
            && binomial(5, 5) == 1 && binomial(6, 5) == 6 && binomial(7, 5) == 21,
{
    reveal_with_fuel(binomial, 8);
}

/// The combination at ascending positions stands, in the list of all
/// combinations, at the place that counts those before it.
pub proof fn lemma_combination_at_place(i: int, j: int, k: int, l: int, m: int)
    requires
        ascending(i, j, k, l, m),
    ensures
        0 <= combination_place(i, j, k, l, m) < 21,
        combination_indices(combination_place(i, j, k, l, m)) == (i, j, k, l, m),
{
    lemma_binomial_values();
}

/// All the ways to take five cards out of seven: the combinations of five
/// positions among the seven, in lexicographic order of the positions.
pub fn get_combinations(cards: [Card; 7]) -> (combinations: Vec<[Card; 5]>)
    ensures
        combinations@.len() == 21,
        forall|n: int| 0 <= n < 21 ==> (#[trigger] combinations@[n])@ == combination(cards@, n),
{
    let mut combinations: Vec<[Card; 5]> = Vec::new();
    proof {
        lemma_binomial_values();
    }
    let mut i: usize = 0;
    while i < 3
        invariant
            0 <= i <= 3,
            combinations@.len() == combination_place(i as int, i + 1, i + 2, i + 3, i + 4),
            forall|n: int|
                0 <= n < combinations@.len() ==> (#[trigger] combinations@[n])@ == combination(
                    cards@,
                    n,
                ),
        decreases 3 - i,
    {
        proof {
            lemma_binomial_values();
        }
        let mut j: usize = i + 1;
        while j < 4
            invariant
                0 <= i < 3,
                i < j <= 4,
                combinations@.len() == combination_place(i as int, j as int, j + 1, j + 2, j + 3),
                forall|n: int|
                    0 <= n < combinations@.len() ==> (#[trigger] combinations@[n])@
                        == combination(cards@, n),
            decreases 4 - j,
        {
            proof {
                lemma_binomial_values();
            }
            let mut k: usize = j + 1;
            while k < 5
                invariant
                    0 <= i < j < 4,
                    j < k <= 5,
                    combinations@.len() == combination_place(
                        i as int,
                        j as int,
                        k as int,
                        k + 1,
                        k + 2,
                    ),
                    forall|n: int|
                        0 <= n < combinations@.len() ==> (#[trigger] combinations@[n])@
                            == combination(cards@, n),
                decreases 5 - k,
            {
                proof {
                    lemma_binomial_values();
                }
                let mut l: usize = k + 1;
                while l < 6
                    invariant
                        0 <= i < j < k < 5,
                        k < l <= 6,
                        combinations@.len() == combination_place(
                            i as int,
                            j as int,
                            k as int,
                            l as int,
                            l + 1,
                        ),
                        forall|n: int|
                            0 <= n < combinations@.len() ==> (#[trigger] combinations@[n])@
                                == combination(cards@, n),
                    decreases 6 - l,
                {
                    proof {
                        lemma_binomial_values();
                    }
                    let mut m: usize = l + 1;
                    while m < 7
                        invariant
                            0 <= i < j < k < l < 6,
                            l < m <= 7,
                            combinations@.len() == combination_place(
                                i as int,
                                j as int,
                                k as int,
                                l as int,
                                m as int,
                            ),
                            forall|n: int|
                                0 <= n < combinations@.len() ==> (#[trigger] combinations@[n])@
                                    == combination(cards@, n),
                        decreases 7 - m,
                    {
                        proof {
                            lemma_binomial_values();
                            lemma_combination_at_place(
                                i as int,
                                j as int,
                                k as int,
                                l as int,
                                m as int,
                            );
                        }
                        let five = [cards[i], cards[j], cards[k], cards[l], cards[m]];
                        assert(five@ =~= pick(
                            cards@,
                            (i as int, j as int, k as int, l as int, m as int),
                        ));
                        combinations.push(five);
                        m = m + 1;
                    }
                    l = l + 1;
                }
                k = k + 1;
            }
            j = j + 1;
        }
        i = i + 1;
    }
    combinations
}

/// Every listed combination takes its cards at ascending positions, and
/// stands at the place that counts the combinations before it. So no two
/// places of the list hold the same positions.
pub proof fn lemma_combination_indices_ascending(n: int)
    requires
        0 <= n < 21,
    ensures
        ({
            let (i, j, k, l, m) = combination_indices(n);
            ascending(i, j, k, l, m) && combination_place(i, j, k, l, m) == n
        }),
{
    lemma_binomial_values();
}

/// Whether `x` is one of five positions.
pub open spec fn among(at: (int, int, int, int, int), x: int) -> bool {
    at.0 == x || at.1 == x || at.2 == x || at.3 == x || at.4 == x
}

/// Out of seven cards of which no two are the same, no combination holds a
/// card twice, and no two combinations of the list hold the same five cards.
pub proof fn lemma_combinations_distinct(cards: Seq<Card>, n1: int, n2: int)
    requires
        cards.len() == 7,
        cards.no_duplicates(),
        0 <= n1 < 21,
        0 <= n2 < 21,
        n1 != n2,
    ensures
        combination(cards, n1).len() == 5,
        combination(cards, n1).no_duplicates(),
        combination(cards, n1).to_set() != combination(cards, n2).to_set(),
{
    let t1 = combination_indices(n1);
    let t2 = combination_indices(n2);
    lemma_combination_indices_ascending(n1);
    lemma_combination_indices_ascending(n2);
    let c1 = combination(cards, n1);
    let c2 = combination(cards, n2);
    assert(t1 != t2);
    let x = if !among(t2, t1.0) {
        t1.0
    } else if !among(t2, t1.1) {
        t1.1
    } else if !among(t2, t1.2) {
        t1.2
    } else if !among(t2, t1.3) {
        t1.3
    } else {
        t1.4
    };
    assert(among(t1, x) && !among(t2, x));
    assert(c1.contains(cards[x])) by {
        assert(c1[0] == cards[t1.0] && c1[1] == cards[t1.1] && c1[2] == cards[t1.2] && c1[3]
            == cards[t1.3] && c1[4] == cards[t1.4]);
    }
    assert(!c2.contains(cards[x]));
    assert(c1.to_set().contains(cards[x]));
    assert(!c2.to_set().contains(cards[x]));
}

/// The stronger of two hands.
pub open spec fn stronger(a: PokerHandRank, b: PokerHandRank) -> PokerHandRank {
    if a.at_most(b) {
        b
    } else {
        a
    }
}

/// The strongest hand among the first `n + 1` combinations of seven cards.
pub open spec fn best_among(cards: Seq<Card>, n: int) -> PokerHandRank
    decreases n,
{
    if n <= 0 {
        classify(combination(cards, 0))
    } else {
        stronger(best_among(cards, n - 1), classify(combination(cards, n)))
    }
}

/// The strongest five-card hand that seven cards hold.
pub open spec fn best_hand(cards: Seq<Card>) -> PokerHandRank {
    best_among(cards, 20)
}

/// The strongest among the first combinations is the hand of one of them,
/// and none of them is stronger.
pub proof fn lemma_best_among(cards: Seq<Card>, n: int)
    requires
        0 <= n,
    ensures
        exists|w: int|
            0 <= w <= n && best_among(cards, n) == classify(#[trigger] combination(cards, w)),
        forall|w: int|
            0 <= w <= n ==> classify(#[trigger] combination(cards, w)).at_most(
                best_among(cards, n),
            ),
    decreases n,
{
    let here = classify(combination(cards, n));
    if n == 0 {
        crate::poker_hand::lemma_hand_order_total(here, here, here);
    } else {
        lemma_best_among(cards, n - 1);
        let before = best_among(cards, n - 1);
        crate::poker_hand::lemma_hand_order_total(before, here, here);
        assert forall|w: int| 0 <= w <= n implies classify(
            #[trigger] combination(cards, w),
        ).at_most(best_among(cards, n)) by {
            let it = classify(combination(cards, w));
            crate::poker_hand::lemma_hand_order_total(it, before, here);
            crate::poker_hand::lemma_hand_order_total(here, here, before);
        }
        let w0 = choose|w: int|
            0 <= w <= n - 1 && before == classify(#[trigger] combination(cards, w));
        if before.at_most(here) {
            assert(best_among(cards, n) == classify(combination(cards, n)));
        } else {
            assert(best_among(cards, n) == classify(combination(cards, w0)));
        }
    }
}

/// The best hand of seven cards is the hand of one of their twenty-one
/// combinations, and at least as strong as the hand of each.
pub proof fn lemma_best_hand_is_maximum(cards: Seq<Card>)
    ensures
        exists|n: int|
            0 <= n < 21 && best_hand(cards) == classify(#[trigger] combination(cards, n)),
        forall|n: int|
            0 <= n < 21 ==> classify(#[trigger] combination(cards, n)).at_most(best_hand(cards)),
{
    lemma_best_among(cards, 20);
}

/// The best hand of seven cards is at least as strong as the hand of any
/// five of them taken at ascending positions.
pub proof fn lemma_best_hand_beats_subset(cards: Seq<Card>, i: int, j: int, k: int, l: int, m: int)
    requires
        ascending(i, j, k, l, m),
    ensures
        classify(pick(cards, (i, j, k, l, m))).at_most(best_hand(cards)),
{
    lemma_combination_at_place(i, j, k, l, m);
    lemma_best_hand_is_maximum(cards);
    let n = combination_place(i, j, k, l, m);
    assert(combination(cards, n) == pick(cards, (i, j, k, l, m)));
}

/// The card at a position, as a function of the position.
pub open spec fn card_at(cards: Seq<Card>) -> spec_fn(int) -> Card {
    |x: int| cards[x]
}

/// The best hand of seven cards is at least as strong as the hand of any
/// five of them, taken at five different positions in whatever order.
pub proof fn lemma_best_hand_beats_any_five(cards: Seq<Card>, at: (int, int, int, int, int))
    requires
        0 <= at.0 < 7 && 0 <= at.1 < 7 && 0 <= at.2 < 7 && 0 <= at.3 < 7 && 0 <= at.4 < 7,
        at.0 != at.1 && at.0 != at.2 && at.0 != at.3 && at.0 != at.4,
        at.1 != at.2 && at.1 != at.3 && at.1 != at.4,
        at.2 != at.3 && at.2 != at.4,
        at.3 != at.4,
    ensures
        classify(pick(cards, at)).at_most(best_hand(cards)),
{
    let leq = |x: int, y: int| x <= y;
    let given = seq![at.0, at.1, at.2, at.3, at.4];
    let sorted = given.sort_by(leq);
    given.lemma_sort_by_ensures(leq);
    given.to_multiset_ensures();
    sorted.to_multiset_ensures();
    assert(given.no_duplicates());
    given.lemma_multiset_has_no_duplicates();
    sorted.lemma_multiset_has_no_duplicates_conv();
    assert forall|i: int| 0 <= i < 5 implies 0 <= #[trigger] sorted[i] < 7 by {
        assert(sorted.contains(sorted[i]));
        assert(given.to_multiset().count(sorted[i]) > 0);
        assert(given.contains(sorted[i]));
        let j = choose|j: int| 0 <= j < given.len() && given[j] == sorted[i];
    }
    assert forall|i: int, j: int| 0 <= i < j < 5 implies sorted[i] < sorted[j] by {
        assert(leq(sorted[i], sorted[j]));
    }
    let up = (sorted[0], sorted[1], sorted[2], sorted[3], sorted[4]);
    assert(pick(cards, at) =~= given.map_values(card_at(cards)));
    assert(pick(cards, up) =~= sorted.map_values(card_at(cards)));
    crate::poker_hand::lemma_map_values_permutation(given, sorted, card_at(cards));
    crate::poker_hand::lemma_classify_order_invariant(pick(cards, at), pick(cards, up));
    lemma_best_hand_beats_subset(cards, up.0, up.1, up.2, up.3, up.4);
}

/// Ranks every five-card combination of seven cards and returns the best hand.
pub fn get_best_hand(cards: [Card; 7]) -> (best: PokerHandRank)
    ensures
        best == best_hand(cards@),
{
    let combinations = get_combinations(cards);
    let mut best = cards_to_hand(combinations[0]);
    let mut n: usize = 1;
    while n < 21
        invariant
            1 <= n <= 21,
            combinations@.len() == 21,
            forall|w: int|
                0 <= w < 21 ==> (#[trigger] combinations@[w])@ == combination(cards@, w),
            best == best_among(cards@, n - 1),
        decreases 21 - n,
    {
        let hand = cards_to_hand(combinations[n]);
        if best <= hand {
            best = hand;
        }
        n = n + 1;
    }
    best
}

/// The rank at a place among the thirteen, the lowest at place 0.
pub open spec fn rank_at(i: int) -> Rank {
    if i == 0 {
        Rank::Two
    } else if i == 1 {
        Rank::Three
    } else if i == 2 {
        Rank::Four
    } else if i == 3 {
        Rank::Five
    } else if i == 4 {
        Rank::Six
    } else if i == 5 {
        Rank::Seven
    } else if i == 6 {
        Rank::Eight
    } else if i == 7 {
        Rank::Nine
    } else if i == 8 {
        Rank::Ten
    } else if i == 9 {
        Rank::Jack
    } else if i == 10 {
        Rank::Queen
    } else if i == 11 {
        Rank::King
    } else {
        Rank::Ace
    }
}

/// The suit at a place among the four, in the order in which a new deck
/// holds them.
pub open spec fn suit_at(i: int) -> Suit {
    if i == 0 {
        Suit::Spades
    } else if i == 1 {
        Suit::Hearts
    } else if i == 2 {
        Suit::Clubs
    } else {
        Suit::Diamonds
    }
}

/// The card at a place of a new deck: the ranks ascend, and each rank comes
/// in its four suits.
pub open spec fn deck_card(n: int) -> Card {
    Card { rank: rank_at(n / 4), suit: suit_at(n % 4) }
}

/// The place of a suit among the four.
pub open spec fn suit_place(suit: Suit) -> int {
    match suit {
        Suit::Spades => 0,
        Suit::Hearts => 1,
        Suit::Clubs => 2,
        Suit::Diamonds => 3,
    }
}

/// A new deck holds every card, at the place that its rank and suit give.
pub proof fn lemma_deck_holds_every_card(card: Card)
    ensures
        ({
            let n = (card.rank.number() - 2) * 4 + suit_place(card.suit);
            0 <= n < 52 && deck_card(n) == card
        }),
{
}

/// A new deck holds no card twice.
pub proof fn lemma_deck_holds_no_card_twice(n1: int, n2: int)
    requires
        0 <= n1 < 52,
        0 <= n2 < 52,
        n1 != n2,
    ensures
        deck_card(n1) != deck_card(n2),
{
}

/// A deck of 52 cards: the ranks from the Two to the Ace, each in spades,
/// hearts, clubs and diamonds.
pub fn new_deck() -> (deck: Vec<Card>)
    ensures
        deck@.len() == 52,
        forall|n: int| 0 <= n < 52 ==> #[trigger] deck@[n] == deck_card(n),
{
    let ranks = [
        Rank::Two,
        Rank::Three,
        Rank::Four,
        Rank::Five,
        Rank::Six,
        Rank::Seven,
        Rank::Eight,
        Rank::Nine,
        Rank::Ten,
        Rank::Jack,
        Rank::Queen,
        Rank::King,
        Rank::Ace,
    ];
    let suits = [Suit::Spades, Suit::Hearts, Suit::Clubs, Suit::Diamonds];
    let mut deck: Vec<Card> = Vec::new();
    let mut r: usize = 0;
    while r < 13
        invariant
            0 <= r <= 13,
            forall|i: int| 0 <= i < 13 ==> #[trigger] ranks@[i] == rank_at(i),
            forall|i: int| 0 <= i < 4 ==> #[trigger] suits@[i] == suit_at(i),
            deck@.len() == 4 * r,
            forall|n: int| 0 <= n < deck@.len() ==> #[trigger] deck@[n] == deck_card(n),
        decreases 13 - r,
    {
        let mut s: usize = 0;
        while s < 4
            invariant
                0 <= r < 13,
                0 <= s <= 4,
                forall|i: int| 0 <= i < 13 ==> #[trigger] ranks@[i] == rank_at(i),
                forall|i: int| 0 <= i < 4 ==> #[trigger] suits@[i] == suit_at(i),
                deck@.len() == 4 * r + s,
                forall|n: int| 0 <= n < deck@.len() ==> #[trigger] deck@[n] == deck_card(n),
            decreases 4 - s,
        {
            deck.push(Card::new(ranks[r], suits[s]));
            s = s + 1;
        }
        r = r + 1;
    }
    deck
}

/// The generator of random numbers that `rand` keeps for each thread.
#[verifier::external_type_specification]
#[verifier::external_body]
pub struct ExThreadRng(rand::rngs::ThreadRng);

/// `rand::thread_rng` hands out the calling thread's generator, which the
/// system seeds on first use. Nothing is claimed of it.
pub assume_specification[ rand::thread_rng ]() -> (rng: rand::rngs::ThreadRng);

/// `rand::seq::SliceRandom::shuffle` on the cards of a deck: it exchanges
/// cards of the deck with each other, so the deck holds afterwards the cards
/// it held before, each as often as before. In which order is left open.
#[verifier::external_body]
fn shuffle_cards(deck: &mut Vec<Card>, rng: &mut rand::rngs::ThreadRng)
    ensures
        final(deck)@.to_multiset() == old(deck)@.to_multiset(),
{
    deck.shuffle(rng);
}

/// Shuffles the deck in place. The deck keeps its cards; their order is
/// whatever the thread's random generator makes it.
pub fn shuffle_deck(deck: &mut Vec<Card>)
    ensures
        final(deck)@.to_multiset() == old(deck)@.to_multiset(),
        final(deck)@.len() == old(deck)@.len(),
{
    let mut rng = rand::thread_rng();
    shuffle_cards(deck, &mut rng);
    proof {
        deck@.to_multiset_ensures();
        old(deck)@.to_multiset_ensures();
    }
}

/// The seven cards that a player chooses from: the two hole cards, then the
/// five cards of the board.
pub open spec fn seven_cards(hole: Seq<Card>, community: Seq<Card>) -> Seq<Card> {
    seq![
        hole[0],
        hole[1],
        community[0],
        community[1],
        community[2],
        community[3],
        community[4],
    ]
}

/// Each player's best hand on a board, in the players' order.
pub open spec fn player_hands(hands: Seq<[Card; 2]>, community: Seq<Card>) -> Seq<PokerHandRank> {
    Seq::new(hands.len(), |p: int| best_hand(seven_cards(hands[p]@, community)))
}

/// Player `p` holds a hand that no player's hand is stronger than.
pub open spec fn is_winner(best: Seq<PokerHandRank>, p: int) -> bool {
    &&& 0 <= p < best.len()
    &&& forall|q: int| 0 <= q < best.len() ==> (#[trigger] best[q]).at_most(best[p])
}

/// The winners among the first `n` players, in ascending order.
pub open spec fn winners_below(best: Seq<PokerHandRank>, n: int) -> Seq<usize>
    decreases n,
{
    if n <= 0 {
        Seq::empty()
    } else if is_winner(best, n - 1) {
        winners_below(best, n - 1).push((n - 1) as usize)
    } else {
        winners_below(best, n - 1)
    }
}

/// The players who win or share the pot, in ascending order.
pub open spec fn winners(best: Seq<PokerHandRank>) -> Seq<usize> {
    winners_below(best, best.len() as int)
}

/// The list of winners among the first `n` players holds those players
/// below `n` who win, and no others, each once and in ascending order.
pub proof fn lemma_winners_below(best: Seq<PokerHandRank>, n: int)
    requires
        0 <= n <= best.len(),
        best.len() <= usize::MAX,
    ensures
        winners_below(best, n).len() <= n,
        forall|a: int|
            0 <= a < winners_below(best, n).len() ==> (#[trigger] winners_below(best, n)[a]) < n
                && is_winner(best, winners_below(best, n)[a] as int),
        forall|a: int, b: int|
            0 <= a < b < winners_below(best, n).len() ==> (#[trigger] winners_below(best, n)[a])
                < (#[trigger] winners_below(best, n)[b]),
        forall|p: int|
            0 <= p < n && is_winner(best, p) ==> winners_below(best, n).contains(p as usize),
    decreases n,
{
    if n > 0 {
        lemma_winners_below(best, n - 1);
        let before = winners_below(best, n - 1);
        let now = winners_below(best, n);
        assert forall|p: int| 0 <= p < n && is_winner(best, p) implies now.contains(
            p as usize,
        ) by {
            if p < n - 1 {
                assert(before.contains(p as usize));
                let a = choose|a: int| 0 <= a < before.len() && before[a] == p as usize;
                assert(now[a] == p as usize);
            } else {
                assert(now[now.len() - 1] == p as usize);
            }
        }
    }
}

/// Who wins: the list of winners holds exactly the players whose hand no
/// other hand beats, in ascending order; with at least one player there is
/// at least one winner; and all winners hold the same hand.
pub proof fn lemma_winners(best: Seq<PokerHandRank>)
    requires
        best.len() <= usize::MAX,
    ensures
        forall|a: int|
            0 <= a < winners(best).len() ==> is_winner(best, (#[trigger] winners(best)[a]) as int),
        forall|a: int, b: int|
            0 <= a < b < winners(best).len() ==> (#[trigger] winners(best)[a]) < (
            #[trigger] winners(best)[b]),
        forall|p: int| is_winner(best, p) ==> winners(best).contains(p as usize),
        forall|a: int, b: int|
            0 <= a < winners(best).len() && 0 <= b < winners(best).len() ==> best[(
            #[trigger] winners(best)[a]) as int] == best[(#[trigger] winners(best)[b]) as int],
        best.len() >= 1 ==> winners(best).len() >= 1,
{
    let n = best.len() as int;
    lemma_winners_below(best, n);
    let w = winners(best);
    assert forall|a: int, b: int| 0 <= a < w.len() && 0 <= b < w.len() implies best[(
    #[trigger] w[a]) as int] == best[(#[trigger] w[b]) as int] by {
        let x = best[w[a] as int];
        let y = best[w[b] as int];
        assert(is_winner(best, w[a] as int));
        assert(is_winner(best, w[b] as int));
        crate::poker_hand::lemma_hand_order_total(x, y, y);
    }
    if n >= 1 {
        let top = lemma_some_hand_is_strongest(best, n);
        assert(is_winner(best, top));
        assert(w.contains(top as usize));
    }
}

/// Among the first `n` hands of a list, one is at least as strong as each.
proof fn lemma_some_hand_is_strongest(best: Seq<PokerHandRank>, n: int) -> (top: int)
    requires
        1 <= n <= best.len(),
    ensures
        0 <= top < n,
        forall|q: int| 0 <= q < n ==> (#[trigger] best[q]).at_most(best[top]),
    decreases n,
{
    if n == 1 {
        crate::poker_hand::lemma_hand_order_total(best[0], best[0], best[0]);
        0
    } else {
        let before = lemma_some_hand_is_strongest(best, n - 1);
        let last = n - 1;
        crate::poker_hand::lemma_hand_order_total(best[before], best[last], best[last]);
        if best[before].at_most(best[last]) {
            assert forall|q: int| 0 <= q < n implies (#[trigger] best[q]).at_most(best[last]) by {
                crate::poker_hand::lemma_hand_order_total(best[q], best[before], best[last]);
            }
            last
        } else {
            crate::poker_hand::lemma_hand_order_total(best[last], best[before], best[before]);
            before
        }
    }
}

/// Determines who wins a showdown of several hands on one board: each
/// player's best hand, and the players whose hand none beats. More than one
/// winner means that the pot is split.
pub fn determine_winner(hands: Vec<[Card; 2]>, community: [Card; 5]) -> (result: (
    Vec<usize>,
    Vec<PokerHandRank>,
))
    requires
        hands@.len() >= 1,
    ensures
        result.1@ == player_hands(hands@, community@),
        result.0@ == winners(result.1@),
{
    let mut best_hands: Vec<PokerHandRank> = Vec::new();
    let mut p: usize = 0;
    while p < hands.len()
        invariant
            0 <= p <= hands@.len(),
            best_hands@.len() == p,
            forall|q: int|
                0 <= q < p ==> #[trigger] best_hands@[q] == best_hand(
                    seven_cards(hands@[q]@, community@),
                ),
        decreases hands@.len() - p,
    {
        let hand = &hands[p];
        let seven = [
            hand[0],
            hand[1],
            community[0],
            community[1],
            community[2],
            community[3],
            community[4],
        ];
        assert(seven@ =~= seven_cards(hands@[p as int]@, community@));
        best_hands.push(get_best_hand(seven));
        p = p + 1;
    }
    assert(best_hands@ =~= player_hands(hands@, community@));

    // The strongest of the best hands.
    let mut winning_hand = best_hands[0];
    proof {
        crate::poker_hand::lemma_hand_order_total(winning_hand, winning_hand, winning_hand);
    }
    let mut p: usize = 1;
    while p < best_hands.len()
        invariant
            1 <= p <= best_hands@.len(),
            exists|w: int| 0 <= w < p && winning_hand == #[trigger] best_hands@[w],
            forall|q: int| 0 <= q < p ==> (#[trigger] best_hands@[q]).at_most(winning_hand),
        decreases best_hands@.len() - p,
    {
        let hand = best_hands[p];
        proof {
            crate::poker_hand::lemma_hand_order_total(winning_hand, hand, hand);
            crate::poker_hand::lemma_hand_order_total(hand, winning_hand, winning_hand);
            assert forall|q: int| 0 <= q < p implies (#[trigger] best_hands@[q]).at_most(hand)
                || !winning_hand.at_most(hand) by {
                crate::poker_hand::lemma_hand_order_total(best_hands@[q], winning_hand, hand);
            }
        }
        if winning_hand <= hand {
            winning_hand = hand;
        }
        p = p + 1;
    }

    // The players who hold it.
    let mut winning: Vec<usize> = Vec::new();
    let mut p: usize = 0;
    while p < best_hands.len()
        invariant
            0 <= p <= best_hands@.len(),
            exists|w: int|
                0 <= w < best_hands@.len() && winning_hand == #[trigger] best_hands@[w],
            forall|q: int|
                0 <= q < best_hands@.len() ==> (#[trigger] best_hands@[q]).at_most(winning_hand),
            winning@ == winners_below(best_hands@, p as int),
        decreases best_hands@.len() - p,
    {
        proof {
            let hand = best_hands@[p as int];
            let w = choose|w: int|
                0 <= w < best_hands@.len() && winning_hand == #[trigger] best_hands@[w];
            crate::poker_hand::lemma_hand_order_total(hand, winning_hand, winning_hand);
            if hand == winning_hand {
                assert(is_winner(best_hands@, p as int));
            } else {
                assert(best_hands@[w].at_most(winning_hand));
                assert(!is_winner(best_hands@, p as int));
            }
        }
        if best_hands[p] == winning_hand {
            winning.push(p);
        }
        p = p + 1;
    }
    (winning, best_hands)
}

/// The test that a card is none of `cards`.
pub open spec fn none_of(cards: Seq<Card>) -> spec_fn(Card) -> bool {
    |c: Card| !cards.contains(c)
}

/// Whether `card` is one of `cards`.
fn holds_card(cards: &Vec<Card>, card: Card) -> (found: bool)
    ensures
        found == cards@.contains(card),
{
    let mut k: usize = 0;
    while k < cards.len()
        invariant
            0 <= k <= cards@.len(),
            forall|x: int| 0 <= x < k ==> cards@[x] != card,
        decreases cards@.len() - k,
    {
        if cards[k] == card {
            return true;
        }
        k = k + 1;
    }
    false
}

/// The deck without the given cards: what is left of the deck, in the
/// deck's order, when every card that is one of `cards` is taken out. A card
/// named twice in `cards` is taken out as one named once.
pub fn deck_without_cards(deck: Vec<Card>, cards: Vec<Card>) -> (rest: Vec<Card>)
    ensures
        rest@ == deck@.filter(none_of(cards@)),
{
    let mut rest: Vec<Card> = Vec::new();
    let mut i: usize = 0;
    assert(deck@.take(0) =~= Seq::<Card>::empty());
    proof {
        reveal(Seq::filter);
    }
    while i < deck.len()
        invariant
            0 <= i <= deck@.len(),
            rest@ == deck@.take(i as int).filter(none_of(cards@)),
        decreases deck@.len() - i,
    {
        let card = deck[i];
        let dead = holds_card(&cards, card);
        proof {
            reveal(Seq::filter);
            assert(deck@.take(i + 1).drop_last() =~= deck@.take(i as int));
            assert(deck@.take(i + 1).last() == card);
        }
        if !dead {
            rest.push(card);
        }
        i = i + 1;
    }
    assert(deck@.take(deck@.len() as int) =~= deck@);
    rest
}

/// Classification keeps no state: whatever two calls on the same five
/// cards return is the same hand.
pub proof fn lemma_cards_to_hand_repeats(
    cards: [Card; 5],
    first: PokerHandRank,
    second: PokerHandRank,
)
    requires
        call_ensures(cards_to_hand, (cards,), first),
        call_ensures(cards_to_hand, (cards,), second),
    ensures
        first == second,
{
}

/// The search for the best hand keeps no state: whatever two calls on the
/// same seven cards return is the same hand.
pub proof fn lemma_get_best_hand_repeats(
    cards: [Card; 7],
    first: PokerHandRank,
    second: PokerHandRank,
)
    requires
        call_ensures(get_best_hand, (cards,), first),
        call_ensures(get_best_hand, (cards,), second),
    ensures
        first == second,
{
}

/// The showdown keeps no state: whatever two calls on the same hands and
/// the same board return names the same winners and the same hands.
pub proof fn lemma_determine_winner_repeats(
    hands: Vec<[Card; 2]>,
    community: [Card; 5],
    first: (Vec<usize>, Vec<PokerHandRank>),
    second: (Vec<usize>, Vec<PokerHandRank>),
)
    requires
        call_ensures(determine_winner, (hands, community), first),
        call_ensures(determine_winner, (hands, community), second),
    ensures
        first.0@ == second.0@,
        first.1@ == second.1@,
{
}

} // verus!
