use poker_equity::card::Card;
use poker_equity::card::Rank::{
    Ace, Eight, Five, Four, Jack, King, Nine, Queen, Seven, Ten, Three, Two,
};
use poker_equity::card::Suit::{Clubs, Diamonds, Hearts, Spades};
use poker_equity::poker_hand::PokerHandRank::{
    Flush, FourOfAKind, FullHouse, HighCard, Pair, Straight, StraightFlush, ThreeOfAKind, TwoPair,
};
use poker_equity::poker_utils::{get_best_hand, get_combinations};

#[test]
fn test_get_best_hand() {
    // Test high card
    assert_eq!(
        get_best_hand([
            Card::new(Ace, Spades),
            Card::new(Queen, Clubs),
            Card::new(Nine, Hearts),
            Card::new(Eight, Clubs),
            Card::new(Seven, Spades),
            Card::new(Three, Diamonds),
            Card::new(Two, Hearts),
        ]),
        HighCard(Ace, Queen, Nine, Eight, Seven)
    );
    // Test pair
    assert_eq!(
        get_best_hand([
            Card::new(Ace, Spades),
            Card::new(Queen, Clubs),
            Card::new(Nine, Hearts),
            Card::new(Nine, Clubs),
            Card::new(Seven, Spades),
            Card::new(Three, Diamonds),
            Card::new(Two, Hearts),
        ]),
        Pair(Nine, Ace, Queen, Seven)
    );
    // Test two pair
    assert_eq!(
        get_best_hand([
            Card::new(Ace, Spades),
            Card::new(Queen, Clubs),
            Card::new(Nine, Hearts),
            Card::new(Nine, Clubs),
            Card::new(Seven, Spades),
            Card::new(Seven, Diamonds),
            Card::new(Two, Hearts),
        ]),
        TwoPair(Nine, Seven, Ace)
    );
    // Test three of a kind
    assert_eq!(
        get_best_hand([
            Card::new(Ace, Spades),
            Card::new(Queen, Clubs),
            Card::new(Nine, Hearts),
            Card::new(Nine, Clubs),
            Card::new(Nine, Spades),
            Card::new(Seven, Diamonds),
            Card::new(Two, Hearts),
        ]),
        ThreeOfAKind(Nine, Ace, Queen)
    );
    // Test straight
    assert_eq!(
        get_best_hand([
            Card::new(Ace, Hearts),
            Card::new(King, Hearts),
            Card::new(Queen, Clubs),
            Card::new(Jack, Diamonds),
            Card::new(Ten, Spades),
            Card::new(Eight, Clubs),
            Card::new(Two, Spades),
        ]),
        Straight(Ace)
    );
    // Test flush
    assert_eq!(
        get_best_hand([
            Card::new(Ace, Spades),
            Card::new(Queen, Spades),
            Card::new(Nine, Spades),
            Card::new(Eight, Clubs),
            Card::new(Seven, Spades),
            Card::new(Three, Diamonds),
            Card::new(Two, Spades),
        ]),
        Flush(Ace, Queen, Nine, Seven, Two)
    );
    // Test Full House
    assert_eq!(
        get_best_hand([
            Card::new(Ace, Spades),
            Card::new(Ace, Clubs),
            Card::new(Ace, Hearts),
            Card::new(Eight, Spades),
            Card::new(Seven, Spades),
            Card::new(Two, Diamonds),
            Card::new(Two, Spades),
        ]),
        FullHouse(Ace, Two)
    );

    // Test Four of a kind
    assert_eq!(
        get_best_hand([
            Card::new(Ace, Spades),
            Card::new(Ace, Clubs),
            Card::new(Ace, Hearts),
            Card::new(Ace, Diamonds),
            Card::new(Seven, Spades),
            Card::new(Two, Diamonds),
            Card::new(Two, Spades),
        ]),
        FourOfAKind(Ace, Seven)
    );

    // Test Straight Flush
    assert_eq!(
        get_best_hand([
            Card::new(Ace, Spades),
            Card::new(King, Spades),
            Card::new(Queen, Spades),
            Card::new(Jack, Spades),
            Card::new(Ten, Spades),
            Card::new(Two, Hearts),
            Card::new(Three, Clubs),
        ]),
        StraightFlush(Ace)
    );
}

#[test]
fn test_hand_order() {
    // Make 20 hands to test compairing
    let mut hands = vec![
        HighCard(Ace, King, Queen, Jack, Ten),
        Pair(Ace, King, Four, Three),
        TwoPair(Ace, King, Queen),
        ThreeOfAKind(Ace, King, Queen),
        Straight(Ace),
        Flush(Ace, King, Queen, Jack, Ten),
        FullHouse(Ace, King),
        FourOfAKind(Ace, King),
        StraightFlush(Ace),
        HighCard(Ace, Queen, Jack, Ten, Nine),
        Pair(Ace, Queen, Four, Five),
        TwoPair(Ace, Queen, Jack),
        ThreeOfAKind(Ace, Queen, Two),
    ];

    // Sort the hands
    hands.sort_unstable();

    // Check that the hands are in the correct order
    assert_eq!(
        hands,
        vec![
            HighCard(Ace, Queen, Jack, Ten, Nine),
            HighCard(Ace, King, Queen, Jack, Ten),
            Pair(Ace, Queen, Four, Five),
            Pair(Ace, King, Four, Three),
            TwoPair(Ace, Queen, Jack),
            TwoPair(Ace, King, Queen),
            ThreeOfAKind(Ace, Queen, Two),
            ThreeOfAKind(Ace, King, Queen),
            Straight(Ace),
            Flush(Ace, King, Queen, Jack, Ten),
            FullHouse(Ace, King),
            FourOfAKind(Ace, King),
            StraightFlush(Ace),
        ]
    );
}

#[test]
fn test_get_combinations() {
    let cards = [
        Card::new(Ace, Spades),
        Card::new(King, Spades),
        Card::new(Queen, Spades),
        Card::new(Jack, Spades),
        Card::new(Ten, Spades),
        Card::new(Nine, Spades),
        Card::new(Eight, Spades),
    ];
    let combinations = get_combinations(cards);
    assert_eq!(combinations.len(), 21);
}
