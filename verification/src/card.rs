//! Cards: a rank, a suit, and the pair of both.

use std::cmp::Ordering;
use vstd::prelude::*;
use vstd::std_specs::cmp::PartialOrdSpecImpl;
use vstd::string::{StrSliceExecFns, StringExecFns};

verus! {

/// The thirteen card ranks, lowest first.
#[derive(Clone, Copy, Debug, PartialEq, Eq, Structural, Ord, Hash)]
pub enum Rank {
    Two,
    Three,
    Four,
    Five,
    Six,
    Seven,
    Eight,
    Nine,
    Ten,
    Jack,
    Queen,
    King,
    Ace,
}

/// The four suits. Suits carry no order.
#[derive(Clone, Copy, Debug, PartialEq, Eq, Structural, Hash)]
pub enum Suit {
    Spades,
    Hearts,
    Clubs,
    Diamonds,
}

/// A playing card.
#[derive(Clone, Copy, Debug, PartialEq, Eq, Structural, Hash)]
pub struct Card {
    pub rank: Rank,
    pub suit: Suit,
}

impl Rank {
    /// The number a rank counts for: 2 for a Two up to 14 for an Ace.
    pub open spec fn number(self) -> int {
        match self {
            Rank::Two => 2,
            Rank::Three => 3,
            Rank::Four => 4,
            Rank::Five => 5,
            Rank::Six => 6,
            Rank::Seven => 7,
            Rank::Eight => 8,
            Rank::Nine => 9,
            Rank::Ten => 10,
            Rank::Jack => 11,
            Rank::Queen => 12,
            Rank::King => 13,
            Rank::Ace => 14,
        }
    }

    /// The rank that follows in a run, where a Two follows an Ace.
    pub open spec fn successor(self) -> Rank {
        match self {
            Rank::Two => Rank::Three,
            Rank::Three => Rank::Four,
            Rank::Four => Rank::Five,
            Rank::Five => Rank::Six,
            Rank::Six => Rank::Seven,
            Rank::Seven => Rank::Eight,
            Rank::Eight => Rank::Nine,
            Rank::Nine => Rank::Ten,
            Rank::Ten => Rank::Jack,
            Rank::Jack => Rank::Queen,
            Rank::Queen => Rank::King,
            Rank::King => Rank::Ace,
            Rank::Ace => Rank::Two,
        }
    }

    /// Numeric value of a rank.
    pub fn value(&self) -> (v: u32)
        ensures
            v == self.number(),
            2 <= v <= 14,
    {
        match self {
            Rank::Two => 2,
            Rank::Three => 3,
            Rank::Four => 4,
            Rank::Five => 5,
            Rank::Six => 6,
            Rank::Seven => 7,
            Rank::Eight => 8,
            Rank::Nine => 9,
            Rank::Ten => 10,
            Rank::Jack => 11,
            Rank::Queen => 12,
            Rank::King => 13,
            Rank::Ace => 14,
        }
    }

    /// Next rank in a run; the Ace wraps round to the Two.
    pub fn next(&self) -> (r: Rank)
        ensures
            r == self.successor(),
            r.number() == (if *self == Rank::Ace { 2 } else { self.number() + 1 }),
    {
        match self {
            Rank::Two => Rank::Three,
            Rank::Three => Rank::Four,
            Rank::Four => Rank::Five,
            Rank::Five => Rank::Six,
            Rank::Six => Rank::Seven,
            Rank::Seven => Rank::Eight,
            Rank::Eight => Rank::Nine,
            Rank::Nine => Rank::Ten,
            Rank::Ten => Rank::Jack,
            Rank::Jack => Rank::Queen,
            Rank::Queen => Rank::King,
            Rank::King => Rank::Ace,
            Rank::Ace => Rank::Two,
        }
    }
}

impl Rank {
    /// The character that a rank is written with.
    pub open spec fn symbol(self) -> char {
        match self {
            Rank::Two => '2',
            Rank::Three => '3',
            Rank::Four => '4',
            Rank::Five => '5',
            Rank::Six => '6',
            Rank::Seven => '7',
            Rank::Eight => '8',
            Rank::Nine => '9',
            Rank::Ten => 'T',
            Rank::Jack => 'J',
            Rank::Queen => 'Q',
            Rank::King => 'K',
            Rank::Ace => 'A',
        }
    }

    /// The rank that a character stands for, once the character is folded to
    /// lower case. The upper-case `T` is taken as well.
    pub open spec fn of_symbol(c: char) -> Option<Rank> {
        if c == '2' {
            Some(Rank::Two)
        } else if c == '3' {
            Some(Rank::Three)
        } else if c == '4' {
            Some(Rank::Four)
        } else if c == '5' {
            Some(Rank::Five)
        } else if c == '6' {
            Some(Rank::Six)
        } else if c == '7' {
            Some(Rank::Seven)
        } else if c == '8' {
            Some(Rank::Eight)
        } else if c == '9' {
            Some(Rank::Nine)
        } else if c == 'T' || c == 't' {
            Some(Rank::Ten)
        } else if c == 'j' {
            Some(Rank::Jack)
        } else if c == 'q' {
            Some(Rank::Queen)
        } else if c == 'k' {
            Some(Rank::King)
        } else if c == 'a' {
            Some(Rank::Ace)
        } else {
            None
        }
    }

    /// The rank as text: one character, a digit or one of `T J Q K A`.
    pub fn to_string(&self) -> (s: String)
        ensures
            s@ == seq![self.symbol()],
    {
        proof {
            reveal_strlit("2");
            reveal_strlit("3");
            reveal_strlit("4");
            reveal_strlit("5");
            reveal_strlit("6");
            reveal_strlit("7");
            reveal_strlit("8");
            reveal_strlit("9");
            reveal_strlit("T");
            reveal_strlit("J");
            reveal_strlit("Q");
            reveal_strlit("K");
            reveal_strlit("A");
        }
        let symbol = match self {
            Rank::Two => "2",
            Rank::Three => "3",
            Rank::Four => "4",
            Rank::Five => "5",
            Rank::Six => "6",
            Rank::Seven => "7",
            Rank::Eight => "8",
            Rank::Nine => "9",
            Rank::Ten => "T",
            Rank::Jack => "J",
            Rank::Queen => "Q",
            Rank::King => "K",
            Rank::Ace => "A",
        };
        assert(symbol@ =~= seq![self.symbol()]);
        symbol.to_string()
    }

    /// Reads a rank from a character that is already folded to lower case.
    pub fn from_symbol(c: char) -> (rank: Option<Rank>)
        ensures
            rank == Rank::of_symbol(c),
    {
        match c {
            '2' => Some(Rank::Two),
            '3' => Some(Rank::Three),
            '4' => Some(Rank::Four),
            '5' => Some(Rank::Five),
            '6' => Some(Rank::Six),
            '7' => Some(Rank::Seven),
            '8' => Some(Rank::Eight),
            '9' => Some(Rank::Nine),
            'T' => Some(Rank::Ten),
            't' => Some(Rank::Ten),
            'j' => Some(Rank::Jack),
            'q' => Some(Rank::Queen),
            'k' => Some(Rank::King),
            'a' => Some(Rank::Ace),
            _ => None,
        }
    }
}

impl Suit {
    /// The character that a suit is written with.
    pub open spec fn symbol(self) -> char {
        match self {
            Suit::Spades => 's',
            Suit::Hearts => 'h',
            Suit::Clubs => 'c',
            Suit::Diamonds => 'd',
        }
    }

    /// The suit that a character stands for, once the character is folded to
    /// lower case.
    pub open spec fn of_symbol(c: char) -> Option<Suit> {
        if c == 's' {
            Some(Suit::Spades)
        } else if c == 'h' {
            Some(Suit::Hearts)
        } else if c == 'c' {
            Some(Suit::Clubs)
        } else if c == 'd' {
            Some(Suit::Diamonds)
        } else {
            None
        }
    }

    /// The suit as text: one of `s h c d`.
    pub fn to_string(&self) -> (s: String)
        ensures
            s@ == seq![self.symbol()],
    {
        proof {
            reveal_strlit("s");
            reveal_strlit("h");
            reveal_strlit("c");
            reveal_strlit("d");
        }
        let symbol = match self {
            Suit::Spades => "s",
            Suit::Hearts => "h",
            Suit::Clubs => "c",
            Suit::Diamonds => "d",
        };
        assert(symbol@ =~= seq![self.symbol()]);
        symbol.to_string()
    }

    /// Reads a suit from a character that is already folded to lower case.
    pub fn from_symbol(c: char) -> (suit: Option<Suit>)
        ensures
            suit == Suit::of_symbol(c),
    {
        match c {
            's' => Some(Suit::Spades),
            'h' => Some(Suit::Hearts),
            'c' => Some(Suit::Clubs),
            'd' => Some(Suit::Diamonds),
            _ => None,
        }
    }
}

impl PartialOrd for Rank {
    /// Ranks are ordered by their numbers.
    fn partial_cmp(&self, other: &Self) -> (r: Option<Ordering>) {
        let a = self.value();
        let b = other.value();
        if a < b {
            Some(Ordering::Less)
        } else if a > b {
            Some(Ordering::Greater)
        } else {
            Some(Ordering::Equal)
        }
    }
}

impl PartialOrdSpecImpl for Rank {
    open spec fn obeys_partial_cmp_spec() -> bool {
        true
    }

    open spec fn partial_cmp_spec(&self, other: &Self) -> Option<Ordering> {
        if self.number() < other.number() {
            Some(Ordering::Less)
        } else if self.number() > other.number() {
            Some(Ordering::Greater)
        } else {
            Some(Ordering::Equal)
        }
    }
}

/// Why a text could not be read as a card.
#[derive(Debug)]
pub struct ParseCardError {
    /// What is wrong with the text.
    pub msg: String,
}

impl ParseCardError {
    /// An error with the given message.
    pub fn new(msg: &str) -> (e: Self)
        ensures
            e.msg@ == msg@,
    {
        ParseCardError { msg: msg.to_string() }
    }
}

/// The lower-case mapping of a character, as Unicode defines it without
/// regard to context or language: one character or more.
pub uninterp spec fn lowercase_of(c: char) -> Seq<char>;

/// `char::to_lowercase`, its characters collected: the lower-case mapping of
/// `c`, which holds at least one character. What the mapping of a given
/// character is, is not stated here.
#[verifier::external_body]
fn to_lowercase_chars(c: char) -> (lower: Vec<char>)
    ensures
        lower@ == lowercase_of(c),
        lower@.len() >= 1,
{
    c.to_lowercase().collect()
}

/// A character folded to lower case: the first character of its lower-case
/// mapping.
pub open spec fn folded(c: char) -> char {
    lowercase_of(c)[0]
}

/// Folds a character to lower case.
fn fold_to_lowercase(c: char) -> (lower: char)
    ensures
        lower == folded(c),
{
    let mapping = to_lowercase_chars(c);
    mapping[0]
}

/// What a text reads as: the card that its first two characters name, the
/// first the rank and the second the suit, in upper or lower case; or the
/// message that says what is wrong with it. Characters after the second are
/// not looked at.
pub open spec fn parse_card(s: Seq<char>) -> Result<Card, Seq<char>> {
    if s.len() == 0 {
        Err("Empty String"@)
    } else {
        match Rank::of_symbol(folded(s[0])) {
            None => Err("Unmatched Rank"@),
            Some(rank) => if s.len() == 1 {
                Err("No Suit"@)
            } else {
                match Suit::of_symbol(folded(s[1])) {
                    None => Err("Unmatched Suit"@),
                    Some(suit) => Ok(Card { rank, suit }),
                }
            },
        }
    }
}

impl Card {
    /// The card of the given rank and suit.
    pub fn new(rank: Rank, suit: Suit) -> (c: Self)
        ensures
            c.rank == rank,
            c.suit == suit,
    {
        Self { rank, suit }
    }

    /// The card as text: the rank's character, then the suit's.
    pub fn to_string(&self) -> (s: String)
        ensures
            s@ == seq![self.rank.symbol(), self.suit.symbol()],
    {
        let suit = self.suit.to_string();
        let s = self.rank.to_string().concat(suit.as_str());
        assert(s@ =~= seq![self.rank.symbol(), self.suit.symbol()]);
        s
    }

    /// Reads a card from a text such as `Ah` or `td`.
    pub fn from_string(s: &str) -> (r: Result<Self, ParseCardError>)
        ensures
            match (r, parse_card(s@)) {
                (Ok(card), Ok(expected)) => card == expected,
                (Err(e), Err(msg)) => e.msg@ == msg,
                _ => false,
            },
    {
        let n = s.unicode_len();
        if n == 0 {
            return Err(ParseCardError::new("Empty String"));
        }
        let rank = match Rank::from_symbol(fold_to_lowercase(s.get_char(0))) {
            Some(rank) => rank,
            None => {
                return Err(ParseCardError::new("Unmatched Rank"));
            },
        };
        if n == 1 {
            return Err(ParseCardError::new("No Suit"));
        }
        let suit = match Suit::from_symbol(fold_to_lowercase(s.get_char(1))) {
            Some(suit) => suit,
            None => {
                return Err(ParseCardError::new("Unmatched Suit"));
            },
        };
        Ok(Self::new(rank, suit))
    }
}

/// The `i`-th piece of a text cut into pieces of two characters; the last
/// piece of a text of odd length holds one.
pub open spec fn piece(s: Seq<char>, i: int) -> Seq<char> {
    s.subrange(2 * i, if 2 * i + 2 <= s.len() {
        2 * i + 2
    } else {
        s.len() as int
    })
}

/// The number of pieces of two characters that a text is cut into.
pub open spec fn piece_count(s: Seq<char>) -> int {
    (s.len() as int + 1) / 2
}

/// The first piece of the text that does not read as a card, if there is
/// one: its place, or the number of pieces where every piece reads as a card.
pub open spec fn first_bad_piece(s: Seq<char>, from: int) -> int
    decreases piece_count(s) - from,
{
    if from < 0 || from >= piece_count(s) {
        piece_count(s)
    } else if parse_card(piece(s, from)) is Err {
        from
    } else {
        first_bad_piece(s, from + 1)
    }
}

/// Every piece of the text reads as a card.
pub open spec fn reads_as_cards(s: Seq<char>) -> bool {
    forall|i: int| 0 <= i < piece_count(s) ==> (#[trigger] parse_card(piece(s, i))) is Ok
}

/// The pieces before the first bad piece read as cards, and where that
/// place is the number of pieces, all do.
pub proof fn lemma_first_bad_piece(s: Seq<char>, from: int)
    requires
        0 <= from <= piece_count(s),
    ensures
        from <= first_bad_piece(s, from) <= piece_count(s),
        forall|i: int|
            from <= i < first_bad_piece(s, from) ==> (#[trigger] parse_card(piece(s, i))) is Ok,
        first_bad_piece(s, from) < piece_count(s) ==> parse_card(
            piece(s, first_bad_piece(s, from)),
        ) is Err,
    decreases piece_count(s) - from,
{
    if from < piece_count(s) && parse_card(piece(s, from)) is Ok {
        lemma_first_bad_piece(s, from + 1);
    }
}

/// Reads the cards of a text such as `AhKsQh2c`, two characters for each.
/// Every piece of the text must read as a card.
pub fn cards_from_str(s: &str) -> (cards: Vec<Card>)
    requires
        reads_as_cards(s@),
    ensures
        cards@.len() == piece_count(s@),
        forall|i: int|
            0 <= i < piece_count(s@) ==> parse_card(piece(s@, i)) == Ok::<Card, Seq<char>>(
                #[trigger] cards@[i],
            ),
{
    let n = s.unicode_len();
    let mut cards: Vec<Card> = Vec::new();
    if n == 0 {
        return cards;
    }
    let mut from: usize = 0;
    while from < n
        invariant
            n == s@.len(),
            reads_as_cards(s@),
            from % 2 == 0,
            from <= n + 1,
            cards@.len() == from / 2,
            forall|i: int|
                0 <= i < cards@.len() ==> parse_card(piece(s@, i)) == Ok::<Card, Seq<char>>(
                    #[trigger] cards@[i],
                ),
        decreases n + 1 - from,
    {
        let to = if n - from >= 2 {
            from + 2
        } else {
            n
        };
        let text = s.substring_char(from, to);
        assert(text@ == piece(s@, from as int / 2));
        assert(parse_card(piece(s@, from as int / 2)) is Ok);
        match Card::from_string(text) {
            Ok(card) => {
                cards.push(card);
            },
            Err(_) => {
                vstd::pervasive::unreached::<()>();
            },
        }
        from = from + 2;
    }
    cards
}

/// Reads the cards of a text, two characters for each, or says what is wrong
/// with the first piece that does not read as a card.
pub fn parse_cards(s: &str) -> (r: Result<Vec<Card>, ParseCardError>)
    ensures
        r is Ok <==> reads_as_cards(s@),
        match r {
            Ok(cards) => {
                &&& cards@.len() == piece_count(s@)
                &&& forall|i: int|
                    0 <= i < piece_count(s@) ==> parse_card(piece(s@, i)) == Ok::<
                        Card,
                        Seq<char>,
                    >(#[trigger] cards@[i])
            },
            Err(e) => {
                &&& first_bad_piece(s@, 0) < piece_count(s@)
                &&& parse_card(piece(s@, first_bad_piece(s@, 0))) == Err::<Card, Seq<char>>(
                    e.msg@,
                )
            },
        },
{
    let n = s.unicode_len();
    let mut from: usize = 0;
    while from < n
        invariant
            n == s@.len(),
            from % 2 == 0,
            from <= n + 1,
            first_bad_piece(s@, 0) == first_bad_piece(s@, from as int / 2),
            forall|i: int| 0 <= i < from / 2 ==> (#[trigger] parse_card(piece(s@, i))) is Ok,
        decreases n + 1 - from,
    {
        let to = if n - from >= 2 {
            from + 2
        } else {
            n
        };
        let text = s.substring_char(from, to);
        assert(text@ == piece(s@, from as int / 2));
        match Card::from_string(text) {
            Ok(_) => {},
            Err(e) => {
                return Err(e);
            },
        }
        from = from + 2;
    }
    Ok(cards_from_str(s))
}

} // verus!
