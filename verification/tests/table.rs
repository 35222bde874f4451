use poker_equity::card::Rank::{Ace, King, Nine, Seven, Two};
use poker_equity::card::{cards_from_str, Card, Rank, Suit};
use poker_equity::poker_hand::PokerHandRank::{Pair, Straight, ThreeOfAKind};
use poker_equity::poker_hand::{cards_to_hand, PokerHandRank};
use poker_equity::poker_utils::{
    deck_without_cards, determine_winner, get_best_hand, get_combinations, new_deck, shuffle_deck,
};
use std::collections::HashSet;

fn two(s: &str) -> [Card; 2] {
    let cards = cards_from_str(s);
    assert_eq!(cards.len(), 2);
    [cards[0], cards[1]]
}

fn five(s: &str) -> [Card; 5] {
    let cards = cards_from_str(s);
    assert_eq!(cards.len(), 5);
    [cards[0], cards[1], cards[2], cards[3], cards[4]]
}

fn seven(s: &str) -> [Card; 7] {
    let cards = cards_from_str(s);
    assert_eq!(cards.len(), 7);
    [
        cards[0], cards[1], cards[2], cards[3], cards[4], cards[5], cards[6],
    ]
}

#[test]
fn combinations_come_in_the_order_of_their_positions() {
    let cards = seven("AsKsQsJsTs9s8s");
    let combinations = get_combinations(cards);
    assert_eq!(combinations[0].to_vec(), cards_from_str("AsKsQsJsTs"));
    assert_eq!(combinations[1].to_vec(), cards_from_str("AsKsQsJs9s"));
    assert_eq!(combinations[2].to_vec(), cards_from_str("AsKsQsJs8s"));
    assert_eq!(combinations[3].to_vec(), cards_from_str("AsKsQsTs9s"));
    assert_eq!(combinations[14].to_vec(), cards_from_str("AsJsTs9s8s"));
    assert_eq!(combinations[15].to_vec(), cards_from_str("KsQsJsTs9s"));
    assert_eq!(combinations[20].to_vec(), cards_from_str("QsJsTs9s8s"));
}

#[test]
fn combinations_are_distinct_sets_of_five_distinct_cards() {
    let cards = seven("Ah2c7d7sKhTd3c");
    let combinations = get_combinations(cards);
    assert_eq!(combinations.len(), 21);
    let mut seen: Vec<HashSet<Card>> = Vec::new();
    for combination in &combinations {
        let set: HashSet<Card> = combination.iter().cloned().collect();
        assert_eq!(set.len(), 5);
        assert!(set.iter().all(|card| cards.contains(card)));
        assert!(!seen.contains(&set));
        seen.push(set);
    }
}

#[test]
fn best_hand_is_the_strongest_of_the_combinations() {
    for text in ["Ah2c7d7sKhTd3c", "AhKhQhJhTh2c2d", "9s9c9hAsQc2d2h", "5s6c7h8d9cTcJc"] {
        let cards = seven(text);
        let best = get_best_hand(cards);
        let hands: Vec<PokerHandRank> = get_combinations(cards)
            .iter()
            .map(|five| cards_to_hand(*five))
            .collect();
        assert!(hands.contains(&best));
        assert!(hands.iter().all(|hand| *hand <= best));
        assert_eq!(Some(best), hands.iter().cloned().max());
        assert_eq!(get_best_hand(cards), best);
    }
    assert_eq!(get_best_hand(seven("5s6c7h8d9cTcJc")), Straight(Rank::Jack));
}

#[test]
fn aces_beat_kings_on_a_board_with_one_of_each() {
    let (winning, hands) = determine_winner(vec![two("AhAs"), two("KdKh")], five("AdKs2c7h9d"));
    assert_eq!(winning, vec![0]);
    assert_eq!(
        hands,
        vec![ThreeOfAKind(Ace, King, Nine), ThreeOfAKind(King, Ace, Nine)]
    );
}

#[test]
fn trips_beat_a_pair() {
    let (winning, hands) = determine_winner(vec![two("AhAs"), two("KdKh")], five("AdQs2c7h9d"));
    assert_eq!(winning, vec![0]);
    assert_eq!(
        hands,
        vec![ThreeOfAKind(Ace, Rank::Queen, Nine), Pair(King, Ace, Rank::Queen, Nine)]
    );
}

#[test]
fn equal_hands_split_the_pot() {
    // Both play the board.
    let (winning, hands) = determine_winner(vec![two("2h3s"), two("2d3c")], five("AdKsQcJhTd"));
    assert_eq!(winning, vec![0, 1]);
    assert_eq!(hands, vec![Straight(Ace), Straight(Ace)]);
    // Different cards, the same hand; the player between them loses.
    let (winning, hands) = determine_winner(
        vec![two("AhQd"), two("3s2d"), two("AsQc")],
        five("AdKs7c7h9d"),
    );
    assert_eq!(winning, vec![0, 2]);
    assert_eq!(hands[0], hands[2]);
    assert!(hands[1] < hands[0]);
}

#[test]
fn the_last_player_can_win_alone() {
    let (winning, _) = determine_winner(
        vec![two("2h3s"), two("4d5c"), two("AsAc")],
        five("AdKs7c7h9d"),
    );
    assert_eq!(winning, vec![2]);
}

#[test]
fn a_single_player_wins() {
    let (winning, hands) = determine_winner(vec![two("7s2d")], five("AdKs7c7h9d"));
    assert_eq!(winning, vec![0]);
    assert_eq!(hands, vec![ThreeOfAKind(Seven, Ace, King)]);
    assert_eq!(
        determine_winner(vec![two("7s2d")], five("AdKs7c7h9d")),
        (winning, hands)
    );
}

#[test]
fn new_deck_holds_every_card_once_in_order() {
    let deck = new_deck();
    assert_eq!(deck.len(), 52);
    assert_eq!(deck[0], Card::new(Two, Suit::Spades));
    assert_eq!(deck[1], Card::new(Two, Suit::Hearts));
    assert_eq!(deck[2], Card::new(Two, Suit::Clubs));
    assert_eq!(deck[3], Card::new(Two, Suit::Diamonds));
    assert_eq!(deck[4], Card::new(Rank::Three, Suit::Spades));
    assert_eq!(deck[51], Card::new(Ace, Suit::Diamonds));
    let set: HashSet<Card> = deck.iter().cloned().collect();
    assert_eq!(set.len(), 52);
    for (n, card) in deck.iter().enumerate() {
        assert_eq!(card.rank.value() as usize, n / 4 + 2);
    }
}

#[test]
fn deck_without_cards_takes_out_the_named_cards() {
    let deck = deck_without_cards(new_deck(), cards_from_str("AhAsKdKh"));
    assert_eq!(deck.len(), 48);
    for card in cards_from_str("AhAsKdKh") {
        assert!(!deck.contains(&card));
    }
    // What is left keeps its order.
    let mut expected = new_deck();
    expected.retain(|card| !cards_from_str("AhAsKdKh").contains(card));
    assert_eq!(deck, expected);
}

#[test]
fn deck_without_cards_takes_a_card_named_twice_out_once() {
    let deck = deck_without_cards(new_deck(), cards_from_str("AhAh2c"));
    assert_eq!(deck.len(), 50);
    assert_eq!(deck_without_cards(new_deck(), vec![]), new_deck());
    assert_eq!(
        deck_without_cards(cards_from_str("AhKd"), cards_from_str("2c")),
        cards_from_str("AhKd")
    );
    assert_eq!(
        deck_without_cards(cards_from_str("AhKdAh"), cards_from_str("Ah")),
        cards_from_str("Kd")
    );
}

#[test]
fn shuffle_keeps_the_cards_and_changes_their_order() {
    let mut deck = new_deck();
    shuffle_deck(&mut deck);
    assert_eq!(deck.len(), 52);
    assert_ne!(deck, new_deck());
    let set: HashSet<Card> = deck.iter().cloned().collect();
    assert_eq!(set.len(), 52);
    let mut again = new_deck();
    shuffle_deck(&mut again);
    assert_ne!(deck, again);
}
