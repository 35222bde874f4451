use poker_equity::card::Rank::{
    Ace, Eight, Five, Four, Jack, King, Nine, Queen, Seven, Six, Ten, Three, Two,
};
use poker_equity::card::{cards_from_str, Card, Rank};
use poker_equity::poker_hand::PokerHandRank::{
    Flush, FourOfAKind, FullHouse, HighCard, Pair, Straight, StraightFlush, ThreeOfAKind, TwoPair,
};
use poker_equity::poker_hand::{cards_to_hand, compare_ranks, PokerHandRank};
use std::cmp::Ordering;

fn five(s: &str) -> [Card; 5] {
    let cards = cards_from_str(s);
    assert_eq!(cards.len(), 5);
    [cards[0], cards[1], cards[2], cards[3], cards[4]]
}

/// Every order of five things, as lists of places.
fn orders_of_five() -> Vec<[usize; 5]> {
    let mut orders = Vec::new();
    for a in 0..5 {
        for b in 0..5 {
            for c in 0..5 {
                for d in 0..5 {
                    for e in 0..5 {
                        let order = [a, b, c, d, e];
                        if (0..5).all(|x| order.contains(&x)) {
                            orders.push(order);
                        }
                    }
                }
            }
        }
    }
    orders
}

#[test]
fn classify_known_hands() {
    assert_eq!(cards_to_hand(five("AhKhQhJhTh")), StraightFlush(Ace));
    assert_eq!(cards_to_hand(five("2c2d2h7s7d")), FullHouse(Two, Seven));
    assert_eq!(cards_to_hand(five("9s9c9hAsQc")), ThreeOfAKind(Nine, Ace, Queen));
    assert_eq!(
        cards_to_hand(five("AhQc9h8c7s")),
        HighCard(Ace, Queen, Nine, Eight, Seven)
    );
    assert_eq!(
        cards_to_hand(five("Qc9h8c3d2h")),
        HighCard(Queen, Nine, Eight, Three, Two)
    );
}

#[test]
fn classify_every_category_and_every_place() {
    // Four of a kind, the kicker below and above.
    assert_eq!(cards_to_hand(five("9s9c9h9d2c")), FourOfAKind(Nine, Two));
    assert_eq!(cards_to_hand(five("9s9c9h9dAc")), FourOfAKind(Nine, Ace));
    // Full house, the triplet above and below the pair.
    assert_eq!(cards_to_hand(five("KsKcKh3d3c")), FullHouse(King, Three));
    assert_eq!(cards_to_hand(five("KsKc3h3d3c")), FullHouse(Three, King));
    // Flush and straight.
    assert_eq!(
        cards_to_hand(five("2s9sJs4sKs")),
        Flush(King, Jack, Nine, Four, Two)
    );
    assert_eq!(cards_to_hand(five("5s6c7h8d9c")), Straight(Nine));
    assert_eq!(cards_to_hand(five("6s2c4h3d5c")), Straight(Six));
    assert_eq!(cards_to_hand(five("6s2s4s3s5s")), StraightFlush(Six));
    // Three of a kind at the top, in the middle, at the bottom.
    assert_eq!(cards_to_hand(five("QsQcQh5d3c")), ThreeOfAKind(Queen, Five, Three));
    assert_eq!(cards_to_hand(five("KsQcQhQd3c")), ThreeOfAKind(Queen, King, Three));
    assert_eq!(cards_to_hand(five("KsJc4h4d4c")), ThreeOfAKind(Four, King, Jack));
    // Two pair, the kicker at the bottom, in the middle, at the top.
    assert_eq!(cards_to_hand(five("QsQc5h5d3c")), TwoPair(Queen, Five, Three));
    assert_eq!(cards_to_hand(five("QsQc7h3d3c")), TwoPair(Queen, Three, Seven));
    assert_eq!(cards_to_hand(five("AsQcQh3d3c")), TwoPair(Queen, Three, Ace));
    // A pair at each of the four places.
    assert_eq!(cards_to_hand(five("AsAc9h5d3c")), Pair(Ace, Nine, Five, Three));
    assert_eq!(cards_to_hand(five("As9c9h5d3c")), Pair(Nine, Ace, Five, Three));
    assert_eq!(cards_to_hand(five("As9c5h5d3c")), Pair(Five, Ace, Nine, Three));
    assert_eq!(cards_to_hand(five("As9c5h3d3c")), Pair(Three, Ace, Nine, Five));
}

#[test]
fn wheel_is_not_a_straight() {
    // The ace counts high only: ace to five does not make a run.
    assert_eq!(
        cards_to_hand(five("Ah2s3d4c5h")),
        HighCard(Ace, Five, Four, Three, Two)
    );
    assert_eq!(
        cards_to_hand(five("Ah2h3h4h5h")),
        Flush(Ace, Five, Four, Three, Two)
    );
    // Nor does a run go round the ace.
    assert_eq!(
        cards_to_hand(five("QhKsAd2c3h")),
        HighCard(Ace, King, Queen, Three, Two)
    );
}

#[test]
fn classify_does_not_depend_on_the_order_of_the_cards() {
    let orders = orders_of_five();
    assert_eq!(orders.len(), 120);
    for text in [
        "AhKhQhJhTh",
        "2c2d2h7s7d",
        "9s9c9hAsQc",
        "QsQc7h3d3c",
        "As9c5h5d3c",
        "2s9sJs4sKs",
        "6s2c4h3d5c",
        "9s9c9h9d2c",
        "AhQc9h8c7s",
    ] {
        let cards = five(text);
        let hand = cards_to_hand(cards);
        for order in &orders {
            let shuffled = [
                cards[order[0]],
                cards[order[1]],
                cards[order[2]],
                cards[order[3]],
                cards[order[4]],
            ];
            assert_eq!(cards_to_hand(shuffled), hand);
        }
    }
}

#[test]
fn classify_gives_the_same_hand_every_time() {
    let cards = five("9s9c9hAsQc");
    assert_eq!(cards_to_hand(cards), cards_to_hand(cards));
}

#[test]
fn compare_ranks_is_lexicographic() {
    assert_eq!(
        compare_ranks(&[Ace, King, Queen, Jack, Ten], &[Ace, King, Queen, Jack, Nine]),
        Some(Ordering::Greater)
    );
    assert_eq!(
        compare_ranks(&[Ace, Two, Two, Two, Two], &[King, Ace, Ace, Ace, Ace]),
        Some(Ordering::Greater)
    );
    assert_eq!(
        compare_ranks(&[Seven, Six, Five, Three], &[Seven, Six, Five, Four]),
        Some(Ordering::Less)
    );
    assert_eq!(
        compare_ranks(&[Two, Ace], &[Three, Two]),
        Some(Ordering::Less)
    );
    assert_eq!(compare_ranks(&[Eight, Six], &[Eight, Six]), Some(Ordering::Equal));
    assert_eq!(compare_ranks(&[], &[]), Some(Ordering::Equal));
}

#[test]
fn compare_ranks_goes_by_the_sums_of_five_places() {
    // A longer list has more to add.
    assert_eq!(compare_ranks(&[Ace], &[Ace, Two]), Some(Ordering::Less));
    assert_eq!(compare_ranks(&[Ace, Two], &[Ace]), Some(Ordering::Greater));
    // A sixth rank weighs nothing.
    assert_eq!(
        compare_ranks(&[Ace, King, Queen, Jack, Ten, Two], &[Ace, King, Queen, Jack, Ten, Nine]),
        Some(Ordering::Equal)
    );
}

#[test]
fn compare_ranks_agrees_with_the_order_of_rank_lists() {
    let ranks: [Rank; 4] = [Two, Three, King, Ace];
    for a in ranks {
        for b in ranks {
            for c in ranks {
                for d in ranks {
                    assert_eq!(
                        compare_ranks(&[a, b, Five], &[c, d, Five]),
                        Some([a, b].cmp(&[c, d]))
                    );
                    assert_eq!(
                        compare_ranks(&[Five, Five, Five, a, b], &[Five, Five, Five, c, d]),
                        Some([a, b].cmp(&[c, d]))
                    );
                }
            }
        }
    }
}

#[test]
fn hands_of_one_category_are_ordered_by_every_rank_they_carry() {
    assert!(HighCard(Ace, King, Queen, Jack, Nine) < HighCard(Ace, King, Queen, Jack, Ten));
    assert!(Flush(Ace, King, Queen, Three, Two) < Flush(Ace, King, Queen, Four, Two));
    assert!(Pair(Ace, King, Four, Three) > Pair(Ace, King, Four, Two));
    assert!(TwoPair(Ace, King, Two) < TwoPair(Ace, King, Three));
    assert!(ThreeOfAKind(Nine, Ace, Queen) > ThreeOfAKind(Nine, Ace, Jack));
    assert!(FullHouse(Two, Ace) < FullHouse(Three, Two));
    assert!(FourOfAKind(Two, Ace) < FourOfAKind(Three, Two));
    assert!(Straight(Nine) < Straight(Ten));
    assert!(StraightFlush(King) < StraightFlush(Ace));
}

#[test]
fn category_decides_before_any_rank() {
    let ascending = [
        HighCard(Ace, King, Queen, Jack, Nine),
        Pair(Two, Five, Four, Three),
        TwoPair(Three, Two, Four),
        ThreeOfAKind(Two, Four, Three),
        Straight(Six),
        Flush(Seven, Five, Four, Three, Two),
        FullHouse(Two, Three),
        FourOfAKind(Two, Three),
        StraightFlush(Six),
    ];
    for i in 0..9 {
        for j in 0..9 {
            assert_eq!(ascending[i].partial_cmp(&ascending[j]), Some(i.cmp(&j)));
            assert_eq!(ascending[i].cmp(&ascending[j]), i.cmp(&j));
            assert_eq!(ascending[i] == ascending[j], i == j);
        }
    }
}

#[test]
fn comparison_by_hand_agrees_with_the_derived_order() {
    let hands: Vec<PokerHandRank> = [
        "AhKhQhJhTh",
        "2c2d2h7s7d",
        "7c7d7h2s2d",
        "9s9c9hAsQc",
        "9s9c9hAsJc",
        "QsQc7h3d3c",
        "QsQc6h3d3c",
        "As9c5h5d3c",
        "As8c5h5d3c",
        "2s9sJs4sKs",
        "6s2c4h3d5c",
        "9s9c9h9d2c",
        "AhQc9h8c7s",
        "AhQc9h8c6s",
    ]
    .iter()
    .map(|text| cards_to_hand(five(text)))
    .collect();
    for a in &hands {
        for b in &hands {
            assert_eq!(a.partial_cmp(b), Some(a.cmp(b)));
            assert_eq!(a == b, a.cmp(b) == Ordering::Equal);
        }
    }
}

#[test]
fn equal_hands_need_the_same_category() {
    assert_ne!(Straight(Ace), StraightFlush(Ace));
    assert_ne!(FullHouse(Ace, King), FourOfAKind(Ace, King));
    assert_ne!(
        HighCard(Ace, King, Queen, Jack, Nine),
        Flush(Ace, King, Queen, Jack, Nine)
    );
    assert_eq!(TwoPair(Ace, King, Queen), TwoPair(Ace, King, Queen));
    assert_ne!(TwoPair(Ace, King, Queen), TwoPair(Ace, King, Jack));
}
