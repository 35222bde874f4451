use poker_equity::card::{cards_from_str, parse_cards, Card, ParseCardError, Rank, Suit};

const RANKS: [Rank; 13] = [
    Rank::Two,
    Rank::Three,
    Rank::Four,
    Rank::Five,
    Rank::Six,
    Rank::Seven,
    Rank::Eight,
    Rank::Nine,
    Rank::Ten,
    Rank::Jack,
    Rank::Queen,
    Rank::King,
    Rank::Ace,
];

const SUITS: [Suit; 4] = [Suit::Spades, Suit::Hearts, Suit::Clubs, Suit::Diamonds];

fn message(r: Result<Card, ParseCardError>) -> String {
    match r {
        Ok(card) => panic!("read as {:?}", card),
        Err(e) => e.msg,
    }
}

#[test]
fn rank_values_run_from_two_to_fourteen() {
    for (i, rank) in RANKS.iter().enumerate() {
        assert_eq!(rank.value(), i as u32 + 2);
    }
}

#[test]
fn next_rank_is_one_higher_and_the_ace_wraps() {
    for i in 0..12 {
        assert_eq!(RANKS[i].next(), RANKS[i + 1]);
    }
    assert_eq!(Rank::Ace.next(), Rank::Two);
}

#[test]
fn ranks_are_ordered_by_value() {
    for i in 0..13 {
        for j in 0..13 {
            assert_eq!(RANKS[i] < RANKS[j], i < j);
            assert_eq!(RANKS[i] == RANKS[j], i == j);
            assert_eq!(RANKS[i].partial_cmp(&RANKS[j]), Some(i.cmp(&j)));
            assert_eq!(RANKS[i].cmp(&RANKS[j]), i.cmp(&j));
        }
    }
}

#[test]
fn ranks_and_suits_are_written_with_one_character() {
    let written: Vec<String> = RANKS.iter().map(|r| r.to_string()).collect();
    assert_eq!(
        written,
        vec!["2", "3", "4", "5", "6", "7", "8", "9", "T", "J", "Q", "K", "A"]
    );
    let written: Vec<String> = SUITS.iter().map(|s| s.to_string()).collect();
    assert_eq!(written, vec!["s", "h", "c", "d"]);
}

#[test]
fn card_is_written_rank_then_suit() {
    assert_eq!(Card::new(Rank::Ace, Suit::Hearts).to_string(), "Ah");
    assert_eq!(Card::new(Rank::Ten, Suit::Diamonds).to_string(), "Td");
    assert_eq!(Card::new(Rank::Two, Suit::Clubs).to_string(), "2c");
}

#[test]
fn every_card_reads_back_from_its_text() {
    for rank in RANKS {
        for suit in SUITS {
            let card = Card::new(rank, suit);
            let text = card.to_string();
            assert_eq!(Card::from_string(&text).unwrap(), card);
            assert_eq!(Card::from_string(&text.to_uppercase()).unwrap(), card);
            assert_eq!(Card::from_string(&text.to_lowercase()).unwrap(), card);
        }
    }
}

#[test]
fn from_string_folds_upper_case() {
    // Neither character is accepted as it stands: both are folded first.
    assert_eq!(
        Card::from_string("AH").unwrap(),
        Card::new(Rank::Ace, Suit::Hearts)
    );
    assert_eq!(
        Card::from_string("kS").unwrap(),
        Card::new(Rank::King, Suit::Spades)
    );
    assert_eq!(
        Card::from_string("Td").unwrap(),
        Card::new(Rank::Ten, Suit::Diamonds)
    );
    // The Kelvin sign has the small k as its lower case.
    assert_eq!(
        Card::from_string("\u{212A}c").unwrap(),
        Card::new(Rank::King, Suit::Clubs)
    );
}

#[test]
fn from_symbol_takes_folded_characters_only() {
    assert_eq!(Rank::from_symbol('a'), Some(Rank::Ace));
    assert_eq!(Rank::from_symbol('A'), None);
    assert_eq!(Rank::from_symbol('t'), Some(Rank::Ten));
    assert_eq!(Rank::from_symbol('T'), Some(Rank::Ten));
    assert_eq!(Rank::from_symbol('1'), None);
    assert_eq!(Suit::from_symbol('h'), Some(Suit::Hearts));
    assert_eq!(Suit::from_symbol('H'), None);
    assert_eq!(Suit::from_symbol('x'), None);
}

#[test]
fn from_string_ignores_what_follows_the_second_character() {
    assert_eq!(
        Card::from_string("9c and more").unwrap(),
        Card::new(Rank::Nine, Suit::Clubs)
    );
}

#[test]
fn from_string_says_what_is_wrong() {
    assert_eq!(message(Card::from_string("")), "Empty String");
    assert_eq!(message(Card::from_string("1h")), "Unmatched Rank");
    assert_eq!(message(Card::from_string("x")), "Unmatched Rank");
    assert_eq!(message(Card::from_string("A")), "No Suit");
    assert_eq!(message(Card::from_string("Ax")), "Unmatched Suit");
    assert_eq!(message(Card::from_string("hA")), "Unmatched Rank");
}

#[test]
fn parse_error_keeps_its_message() {
    assert_eq!(ParseCardError::new("No Suit").msg, "No Suit");
}

#[test]
fn cards_from_str_reads_two_characters_for_each_card() {
    assert_eq!(cards_from_str(""), vec![]);
    assert_eq!(
        cards_from_str("AhKsQh2c"),
        vec![
            Card::new(Rank::Ace, Suit::Hearts),
            Card::new(Rank::King, Suit::Spades),
            Card::new(Rank::Queen, Suit::Hearts),
            Card::new(Rank::Two, Suit::Clubs),
        ]
    );
}

#[test]
fn parse_cards_reads_what_cards_from_str_reads() {
    assert_eq!(parse_cards("").unwrap(), vec![]);
    assert_eq!(parse_cards("5c6hQs").unwrap(), cards_from_str("5c6hQs"));
    assert_eq!(parse_cards("\u{212A}c").unwrap(), cards_from_str("kc"));
}

#[test]
fn parse_cards_reports_the_first_bad_piece() {
    assert_eq!(parse_cards("AhK").unwrap_err().msg, "No Suit");
    assert_eq!(parse_cards("AhKxZZ").unwrap_err().msg, "Unmatched Suit");
    assert_eq!(parse_cards("Ah1s").unwrap_err().msg, "Unmatched Rank");
    assert_eq!(parse_cards("Zh").unwrap_err().msg, "Unmatched Rank");
}
