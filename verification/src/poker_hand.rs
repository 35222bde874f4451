//! The nine hand categories, their order, and the classification of five cards.

use crate::card::{Card, Rank};
use std::cmp::Ordering;
use vstd::prelude::*;
use vstd::std_specs::cmp::{PartialEqSpecImpl, PartialOrdSpecImpl};

verus! {

/// A classified five-card hand: its category and the ranks that break ties
/// inside that category, most significant first. The variants stand in
/// ascending order of strength.
#[derive(Debug, Clone, Copy, Ord, Eq)]
pub enum PokerHandRank {
    /// Five ranks, descending.
    HighCard(Rank, Rank, Rank, Rank, Rank),
    /// The pair, then three kickers, descending.
    Pair(Rank, Rank, Rank, Rank),
    /// The higher pair, the lower pair, the kicker.
    TwoPair(Rank, Rank, Rank),
    /// The triplet, then two kickers, descending.
    ThreeOfAKind(Rank, Rank, Rank),
    /// The top card of the run.
    Straight(Rank),
    /// Five ranks of one suit, descending.
    Flush(Rank, Rank, Rank, Rank, Rank),
    /// The triplet, then the pair.
    FullHouse(Rank, Rank),
    /// The four, then the kicker.
    FourOfAKind(Rank, Rank),
    /// The top card of the run.
    StraightFlush(Rank),
}

impl PokerHandRank {
    /// The place of the category among the nine, 1 for a high card up to 9
    /// for a straight flush.
    pub open spec fn category(self) -> int {
        match self {
            PokerHandRank::HighCard(..) => 1,
            PokerHandRank::Pair(..) => 2,
            PokerHandRank::TwoPair(..) => 3,
            PokerHandRank::ThreeOfAKind(..) => 4,
            PokerHandRank::Straight(..) => 5,
            PokerHandRank::Flush(..) => 6,
            PokerHandRank::FullHouse(..) => 7,
            PokerHandRank::FourOfAKind(..) => 8,
            PokerHandRank::StraightFlush(..) => 9,
        }
    }

    /// The ranks that the hand carries, most significant first.
    pub open spec fn kickers(self) -> Seq<Rank> {
        match self {
            PokerHandRank::HighCard(a, b, c, d, e) => seq![a, b, c, d, e],
            PokerHandRank::Pair(a, b, c, d) => seq![a, b, c, d],
            PokerHandRank::TwoPair(a, b, c) => seq![a, b, c],
            PokerHandRank::ThreeOfAKind(a, b, c) => seq![a, b, c],
            PokerHandRank::Straight(a) => seq![a],
            PokerHandRank::Flush(a, b, c, d, e) => seq![a, b, c, d, e],
            PokerHandRank::FullHouse(a, b) => seq![a, b],
            PokerHandRank::FourOfAKind(a, b) => seq![a, b],
            PokerHandRank::StraightFlush(a) => seq![a],
        }
    }

    /// How `self` stands to `other`: by category first, then by the ranks
    /// carried, position by position.
    pub open spec fn order_against(self, other: PokerHandRank) -> Ordering {
        if self.category() < other.category() {
            Ordering::Less
        } else if self.category() > other.category() {
            Ordering::Greater
        } else {
            lex_order(self.kickers(), other.kickers(), 0)
        }
    }

    /// `self` is no stronger than `other`.
    pub open spec fn at_most(self, other: PokerHandRank) -> bool {
        self.order_against(other) != Ordering::Greater
    }

    /// The whole hand as one number: the category in the leading place of a
    /// positional sum to the base 15, the ranks carried in the places after
    /// it. Hands stand to each other as these numbers do.
    pub open spec fn strength(self) -> int {
        self.category() * 759375 + weighted_sum(self.kickers(), 0)
    }
}

impl PartialEq for PokerHandRank {
    /// Two hands are equal when they are of one category and carry the same
    /// ranks, position by position.
    fn eq(&self, other: &Self) -> (r: bool) {
        match (self, other) {
            (
                PokerHandRank::HighCard(a1, b1, c1, d1, e1),
                PokerHandRank::HighCard(a2, b2, c2, d2, e2),
            ) => a1 == a2 && b1 == b2 && c1 == c2 && d1 == d2 && e1 == e2,
            (PokerHandRank::Pair(a1, b1, c1, d1), PokerHandRank::Pair(a2, b2, c2, d2)) => {
                a1 == a2 && b1 == b2 && c1 == c2 && d1 == d2
            },
            (PokerHandRank::TwoPair(a1, b1, c1), PokerHandRank::TwoPair(a2, b2, c2)) => {
                a1 == a2 && b1 == b2 && c1 == c2
            },
            (
                PokerHandRank::ThreeOfAKind(a1, b1, c1),
                PokerHandRank::ThreeOfAKind(a2, b2, c2),
            ) => a1 == a2 && b1 == b2 && c1 == c2,
            (PokerHandRank::Straight(a1), PokerHandRank::Straight(a2)) => a1 == a2,
            (
                PokerHandRank::Flush(a1, b1, c1, d1, e1),
                PokerHandRank::Flush(a2, b2, c2, d2, e2),
            ) => a1 == a2 && b1 == b2 && c1 == c2 && d1 == d2 && e1 == e2,
            (PokerHandRank::FullHouse(a1, b1), PokerHandRank::FullHouse(a2, b2)) => {
                a1 == a2 && b1 == b2
            },
            (PokerHandRank::FourOfAKind(a1, b1), PokerHandRank::FourOfAKind(a2, b2)) => {
                a1 == a2 && b1 == b2
            },
            (PokerHandRank::StraightFlush(a1), PokerHandRank::StraightFlush(a2)) => a1 == a2,
            _ => false,
        }
    }
}

impl PartialEqSpecImpl for PokerHandRank {
    open spec fn obeys_eq_spec() -> bool {
        true
    }

    open spec fn eq_spec(&self, other: &Self) -> bool {
        *self == *other
    }
}

impl PartialOrd for PokerHandRank {
    /// Hands of different categories stand as their categories do; hands of
    /// one category stand as the ranks they carry do.
    fn partial_cmp(&self, other: &Self) -> (r: Option<Ordering>) {
        let self_value = category_number(self);
        let other_value = category_number(other);
        if self_value < other_value {
            Some(Ordering::Less)
        } else if self_value > other_value {
            Some(Ordering::Greater)
        } else {
            match (self, other) {
                (
                    PokerHandRank::HighCard(a1, b1, c1, d1, e1),
                    PokerHandRank::HighCard(a2, b2, c2, d2, e2),
                ) => {
                    let n = [*a1, *b1, *c1, *d1, *e1];
                    let m = [*a2, *b2, *c2, *d2, *e2];
                    assert(n@ =~= self.kickers() && m@ =~= other.kickers());
                    compare_ranks(&n, &m)
                },
                (PokerHandRank::Pair(a1, b1, c1, d1), PokerHandRank::Pair(a2, b2, c2, d2)) => {
                    let n = [*a1, *b1, *c1, *d1];
                    let m = [*a2, *b2, *c2, *d2];
                    assert(n@ =~= self.kickers() && m@ =~= other.kickers());
                    compare_ranks(&n, &m)
                },
                (PokerHandRank::TwoPair(a1, b1, c1), PokerHandRank::TwoPair(a2, b2, c2)) => {
                    let n = [*a1, *b1, *c1];
                    let m = [*a2, *b2, *c2];
                    assert(n@ =~= self.kickers() && m@ =~= other.kickers());
                    compare_ranks(&n, &m)
                },
                (
                    PokerHandRank::ThreeOfAKind(a1, b1, c1),
                    PokerHandRank::ThreeOfAKind(a2, b2, c2),
                ) => {
                    let n = [*a1, *b1, *c1];
                    let m = [*a2, *b2, *c2];
                    assert(n@ =~= self.kickers() && m@ =~= other.kickers());
                    compare_ranks(&n, &m)
                },
                (PokerHandRank::Straight(r1), PokerHandRank::Straight(r2)) => {
                    proof {
                        reveal_with_fuel(lex_order, 2);
                    }
                    r1.partial_cmp(r2)
                },
                (
                    PokerHandRank::Flush(a1, b1, c1, d1, e1),
                    PokerHandRank::Flush(a2, b2, c2, d2, e2),
                ) => {
                    let n = [*a1, *b1, *c1, *d1, *e1];
                    let m = [*a2, *b2, *c2, *d2, *e2];
                    assert(n@ =~= self.kickers() && m@ =~= other.kickers());
                    compare_ranks(&n, &m)
                },
                (PokerHandRank::FullHouse(r1, t1), PokerHandRank::FullHouse(r2, t2)) => {
                    let n = [*r1, *t1];
                    let m = [*r2, *t2];
                    assert(n@ =~= self.kickers() && m@ =~= other.kickers());
                    compare_ranks(&n, &m)
                },
                (PokerHandRank::FourOfAKind(r1, k1), PokerHandRank::FourOfAKind(r2, k2)) => {
                    let n = [*r1, *k1];
                    let m = [*r2, *k2];
                    assert(n@ =~= self.kickers() && m@ =~= other.kickers());
                    compare_ranks(&n, &m)
                },
                (PokerHandRank::StraightFlush(r1), PokerHandRank::StraightFlush(r2)) => {
                    proof {
                        reveal_with_fuel(lex_order, 2);
                    }
                    r1.partial_cmp(r2)
                },
                _ => Some(Ordering::Equal),
            }
        }
    }
}

impl PartialOrdSpecImpl for PokerHandRank {
    open spec fn obeys_partial_cmp_spec() -> bool {
        true
    }

    open spec fn partial_cmp_spec(&self, other: &Self) -> Option<Ordering> {
        Some(self.order_against(*other))
    }
}

/// The category's place among the nine.
fn category_number(hand: &PokerHandRank) -> (n: u8)
    ensures
        n == hand.category(),
{
    match hand {
        PokerHandRank::HighCard(..) => 1,
        PokerHandRank::Pair(..) => 2,
        PokerHandRank::TwoPair(..) => 3,
        PokerHandRank::ThreeOfAKind(..) => 4,
        PokerHandRank::Straight(..) => 5,
        PokerHandRank::Flush(..) => 6,
        PokerHandRank::FullHouse(..) => 7,
        PokerHandRank::FourOfAKind(..) => 8,
        PokerHandRank::StraightFlush(..) => 9,
    }
}

/// Lexicographic comparison of two rank lists from position `from` on, by
/// the ranks' numbers. Positions that one of the lists lacks are not
/// compared.
pub open spec fn lex_order(a: Seq<Rank>, b: Seq<Rank>, from: int) -> Ordering
    decreases a.len() - from,
{
    if from < 0 || from >= a.len() || from >= b.len() {
        Ordering::Equal
    } else if a[from].number() < b[from].number() {
        Ordering::Less
    } else if a[from].number() > b[from].number() {
        Ordering::Greater
    } else {
        lex_order(a, b, from + 1)
    }
}

/// The weight of a position in the positional sum: descending powers of 15,
/// a base above every rank's number.
pub open spec fn place_weight(i: int) -> int {
    if i == 0 {
        50625
    } else if i == 1 {
        3375
    } else if i == 2 {
        225
    } else if i == 3 {
        15
    } else if i == 4 {
        1
    } else {
        0
    }
}

/// The positional sum of a rank list from position `from` on.
pub open spec fn weighted_sum(s: Seq<Rank>, from: int) -> int
    decreases s.len() - from,
{
    if from < 0 || from >= s.len() {
        0
    } else {
        s[from].number() * place_weight(from) + weighted_sum(s, from + 1)
    }
}

/// For two lists of one length, at most five ranks long, the positional
/// sums stand to each other as the lists do lexicographically.
pub proof fn lemma_weighted_sum_orders(a: Seq<Rank>, b: Seq<Rank>, from: int)
    requires
        a.len() == b.len(),
        a.len() <= 5,
        0 <= from <= a.len(),
    ensures
        lex_order(a, b, from) == Ordering::Less ==> weighted_sum(a, from) < weighted_sum(b, from),
        lex_order(a, b, from) == Ordering::Greater ==> weighted_sum(a, from) > weighted_sum(
            b,
            from,
        ),
        lex_order(a, b, from) == Ordering::Equal ==> weighted_sum(a, from) == weighted_sum(
            b,
            from,
        ),
        from >= 1 ==> -place_weight(from - 1) < weighted_sum(a, from) - weighted_sum(b, from)
            < place_weight(from - 1),
    decreases a.len() - from,
{
    if from < a.len() {
        lemma_weighted_sum_orders(a, b, from + 1);
    }
}

/// The positional sum of at most five ranks stays below the weight of the
/// place before the first.
pub proof fn lemma_weighted_sum_bounds(s: Seq<Rank>, from: int)
    requires
        s.len() <= 5,
        0 <= from <= s.len(),
    ensures
        0 <= weighted_sum(s, from),
        weighted_sum(s, from) < (if from == 0 {
            759375
        } else {
            place_weight(from - 1)
        }),
    decreases s.len() - from,
{
    if from < s.len() {
        lemma_weighted_sum_bounds(s, from + 1);
    }
}

/// Two lists of one length that compare as equal hold the same ranks.
pub proof fn lemma_lex_equal_is_same(a: Seq<Rank>, b: Seq<Rank>, from: int)
    requires
        a.len() == b.len(),
        0 <= from <= a.len(),
        lex_order(a, b, from) == Ordering::Equal,
    ensures
        forall|i: int| from <= i < a.len() ==> a[i] == b[i],
    decreases a.len() - from,
{
    if from < a.len() {
        lemma_lex_equal_is_same(a, b, from + 1);
    }
}

/// Hands stand to each other as their strengths do, and two hands that
/// compare as equal are the same hand.
pub proof fn lemma_strength_orders(a: PokerHandRank, b: PokerHandRank)
    ensures
        a.order_against(b) == Ordering::Less <==> a.strength() < b.strength(),
        a.order_against(b) == Ordering::Greater <==> a.strength() > b.strength(),
        a.order_against(b) == Ordering::Equal <==> a == b,
        a.strength() == b.strength() <==> a == b,
{
    let ka = a.kickers();
    let kb = b.kickers();
    lemma_weighted_sum_bounds(ka, 0);
    lemma_weighted_sum_bounds(kb, 0);
    if a.category() == b.category() {
        lemma_weighted_sum_orders(ka, kb, 0);
        if lex_order(ka, kb, 0) == Ordering::Equal {
            lemma_lex_equal_is_same(ka, kb, 0);
            assert(ka.len() >= 1 ==> ka[0] == kb[0]);
            assert(ka.len() >= 2 ==> ka[1] == kb[1]);
            assert(ka.len() >= 3 ==> ka[2] == kb[2]);
            assert(ka.len() >= 4 ==> ka[3] == kb[3]);
            assert(ka.len() >= 5 ==> ka[4] == kb[4]);
            assert(a == b);
        }
        if a == b {
            lemma_lex_reflexive(ka, 0);
        }
    }
}

/// A list compares as equal to itself.
pub proof fn lemma_lex_reflexive(a: Seq<Rank>, from: int)
    requires
        0 <= from <= a.len(),
    ensures
        lex_order(a, a, from) == Ordering::Equal,
    decreases a.len() - from,
{
    if from < a.len() {
        lemma_lex_reflexive(a, from + 1);
    }
}

/// The order of hands is total: every hand is at most itself, of two hands
/// one is at most the other, two hands that are each at most the other are
/// the same, and what is at most a hand is at most every stronger one.
pub proof fn lemma_hand_order_total(a: PokerHandRank, b: PokerHandRank, c: PokerHandRank)
    ensures
        a.at_most(a),
        a.at_most(b) || b.at_most(a),
        a.at_most(b) && b.at_most(a) ==> a == b,
        a.at_most(b) && b.at_most(c) ==> a.at_most(c),
{
    lemma_strength_orders(a, a);
    lemma_strength_orders(a, b);
    lemma_strength_orders(b, a);
    lemma_strength_orders(b, c);
    lemma_strength_orders(a, c);
}

/// How two numbers stand to each other.
pub open spec fn number_order(a: int, b: int) -> Ordering {
    if a < b {
        Ordering::Less
    } else if a > b {
        Ordering::Greater
    } else {
        Ordering::Equal
    }
}

/// Compares two rank lists by their positional sums. For lists of one
/// length, at most five ranks long, that is their lexicographic order.
pub fn compare_ranks(n_list: &[Rank], m_list: &[Rank]) -> (r: Option<Ordering>)
    ensures
        r == Some(number_order(weighted_sum(n_list@, 0), weighted_sum(m_list@, 0))),
        n_list@.len() == m_list@.len() && n_list@.len() <= 5 ==> r == Some(
            lex_order(n_list@, m_list@, 0),
        ),
{
    let n_sum = positional_sum(n_list);
    let m_sum = positional_sum(m_list);
    proof {
        if n_list@.len() == m_list@.len() && n_list@.len() <= 5 {
            lemma_weighted_sum_orders(n_list@, m_list@, 0);
        }
    }
    if n_sum < m_sum {
        Some(Ordering::Less)
    } else if n_sum > m_sum {
        Some(Ordering::Greater)
    } else {
        Some(Ordering::Equal)
    }
}

/// The weights of the places before place `i`, added up.
pub open spec fn weight_before(i: int) -> int {
    if i <= 0 {
        0
    } else if i == 1 {
        50625
    } else if i == 2 {
        54000
    } else if i == 3 {
        54225
    } else if i == 4 {
        54240
    } else {
        54241
    }
}

/// The positional sum of a list of ranks.
fn positional_sum(list: &[Rank]) -> (sum: u32)
    ensures
        sum == weighted_sum(list@, 0),
{
    let mut sum: u32 = 0;
    let mut multiplier: u32 = 50625;
    let mut i: usize = 0;
    while i < list.len()
        invariant
            i <= list@.len(),
            multiplier == place_weight(i as int),
            sum + weighted_sum(list@, i as int) == weighted_sum(list@, 0),
            sum <= 14 * weight_before(i as int),
        decreases list@.len() - i,
    {
        let v = list[i].value();
        assert(v * multiplier <= 14 * multiplier) by (nonlinear_arith)
            requires
                v <= 14,
                0 <= multiplier,
        ;
        sum = sum + v * multiplier;
        multiplier = multiplier / 15;
        i = i + 1;
    }
    sum
}

/// The rank of a card, as a function.
pub open spec fn rank_of() -> spec_fn(Card) -> Rank {
    |c: Card| c.rank
}

/// The ranks of the cards, in the cards' order.
pub open spec fn ranks_of(cards: Seq<Card>) -> Seq<Rank> {
    cards.map_values(rank_of())
}

/// The relation by which ranks are listed from the highest to the lowest.
pub open spec fn rank_geq() -> spec_fn(Rank, Rank) -> bool {
    |a: Rank, b: Rank| a.number() >= b.number()
}

/// The ranks of the cards, from the highest to the lowest.
pub open spec fn sorted_ranks(cards: Seq<Card>) -> Seq<Rank> {
    ranks_of(cards).sort_by(rank_geq())
}

/// Every card is of the suit of the first.
pub open spec fn same_suit(cards: Seq<Card>) -> bool {
    forall|i: int| 0 <= i < cards.len() ==> (#[trigger] cards[i]).suit == cards[0].suit
}

/// Exchanging two elements of a sequence keeps its multiset.
proof fn lemma_swap_keeps_multiset<A>(s: Seq<A>, i: int, j: int)
    requires
        0 <= i < s.len(),
        0 <= j < s.len(),
    ensures
        s.update(i, s[j]).update(j, s[i]).to_multiset() == s.to_multiset(),
{
    broadcast use vstd::multiset::group_multiset_axioms;

    let t = s.update(i, s[j]);
    vstd::seq_lib::to_multiset_update(s, i, s[j]);
    vstd::seq_lib::to_multiset_update(t, j, s[i]);
    s.to_multiset_ensures();
    assert(s.contains(s[i]));
    assert(s.contains(s[j]));
    assert(t.update(j, s[i]).to_multiset() =~= s.to_multiset());
}

/// Sorts five cards by rank, the highest first.
fn sort_by_rank_descending(cards: [Card; 5]) -> (sorted: [Card; 5])
    ensures
        sorted@.to_multiset() == cards@.to_multiset(),
        vstd::relations::sorted_by(ranks_of(sorted@), rank_geq()),
{
    let mut a = cards;
    let mut i: usize = 1;
    while i < 5
        invariant
            1 <= i <= 5,
            a@.to_multiset() == cards@.to_multiset(),
            forall|x: int, y: int| 0 <= x < y < i ==> a@[x].rank.number() >= a@[y].rank.number(),
        decreases 5 - i,
    {
        let mut j: usize = i;
        while j > 0 && a[j - 1].rank.value() < a[j].rank.value()
            invariant
                0 <= j <= i < 5,
                a@.to_multiset() == cards@.to_multiset(),
                forall|x: int, y: int|
                    0 <= x < y <= i && y != j ==> a@[x].rank.number() >= a@[y].rank.number(),
            decreases j,
        {
            let ghost before = a@;
            let lower = a[j - 1];
            let upper = a[j];
            a[j - 1] = upper;
            a[j] = lower;
            proof {
                lemma_swap_keeps_multiset(before, j - 1, j as int);
                assert(a@ =~= before.update(j - 1, before[j as int]).update(
                    j as int,
                    before[j - 1],
                ));
            }
            j = j - 1;
        }
        i = i + 1;
    }
    a
}

/// Of five ranks listed from the highest to the lowest, each is the
/// successor of the one listed after it.
pub open spec fn is_run(r: Seq<Rank>) -> bool {
    &&& r[1].successor() == r[0]
    &&& r[2].successor() == r[1]
    &&& r[3].successor() == r[2]
    &&& r[4].successor() == r[3]
}

/// The hand that five ranks make, given from the highest to the lowest, and
/// given whether the five cards are of one suit. The categories are tried
/// from the strongest down, and the first that fits is the hand.
pub open spec fn rank_hand(r: Seq<Rank>, flush: bool) -> PokerHandRank {
    if is_run(r) && flush {
        PokerHandRank::StraightFlush(r[0])
    } else if r[0] == r[1] && r[1] == r[2] && r[2] == r[3] {
        PokerHandRank::FourOfAKind(r[0], r[4])
    } else if r[1] == r[2] && r[2] == r[3] && r[3] == r[4] {
        PokerHandRank::FourOfAKind(r[1], r[0])
    } else if r[0] == r[1] && r[1] == r[2] && r[3] == r[4] {
        PokerHandRank::FullHouse(r[0], r[3])
    } else if r[0] == r[1] && r[2] == r[3] && r[3] == r[4] {
        PokerHandRank::FullHouse(r[2], r[0])
    } else if flush {
        PokerHandRank::Flush(r[0], r[1], r[2], r[3], r[4])
    } else if is_run(r) {
        PokerHandRank::Straight(r[0])
    } else if r[0] == r[1] && r[1] == r[2] {
        PokerHandRank::ThreeOfAKind(r[0], r[3], r[4])
    } else if r[1] == r[2] && r[2] == r[3] {
        PokerHandRank::ThreeOfAKind(r[1], r[0], r[4])
    } else if r[2] == r[3] && r[3] == r[4] {
        PokerHandRank::ThreeOfAKind(r[2], r[0], r[1])
    } else if r[0] == r[1] && r[2] == r[3] {
        PokerHandRank::TwoPair(r[0], r[2], r[4])
    } else if r[0] == r[1] && r[3] == r[4] {
        PokerHandRank::TwoPair(r[0], r[3], r[2])
    } else if r[1] == r[2] && r[3] == r[4] {
        PokerHandRank::TwoPair(r[1], r[3], r[0])
    } else if r[0] == r[1] {
        PokerHandRank::Pair(r[0], r[2], r[3], r[4])
    } else if r[1] == r[2] {
        PokerHandRank::Pair(r[1], r[0], r[3], r[4])
    } else if r[2] == r[3] {
        PokerHandRank::Pair(r[2], r[0], r[1], r[4])
    } else if r[3] == r[4] {
        PokerHandRank::Pair(r[3], r[0], r[1], r[2])
    } else {
        PokerHandRank::HighCard(r[0], r[1], r[2], r[3], r[4])
    }
}

/// The hand that five cards make, in whatever order they are given.
pub open spec fn classify(cards: Seq<Card>) -> PokerHandRank {
    rank_hand(sorted_ranks(cards), same_suit(cards))
}

/// Ranks are totally ordered by their numbers.
pub proof fn lemma_rank_order_total()
    ensures
        vstd::relations::total_ordering(rank_geq()),
{
    let geq = rank_geq();
    assert forall|x: Rank, y: Rank| #[trigger] geq(x, y) && #[trigger] geq(y, x) implies x == y by {
        assert(x.number() == y.number());
    }
}

/// Two sequences that hold the same things as often hold, after every
/// element is mapped, again the same things as often.
pub proof fn lemma_map_values_permutation<A, B>(a: Seq<A>, b: Seq<A>, f: spec_fn(A) -> B)
    requires
        a.to_multiset() == b.to_multiset(),
    ensures
        a.map_values(f).to_multiset() == b.map_values(f).to_multiset(),
    decreases a.len(),
{
    broadcast use vstd::multiset::group_multiset_axioms;

    a.to_multiset_ensures();
    b.to_multiset_ensures();
    if a.len() == 0 {
        assert(a.map_values(f) =~= b.map_values(f));
    } else {
        let last = a.len() - 1;
        let x = a[last];
        assert(a.contains(x));
        assert(b.to_multiset().count(x) > 0);
        assert(b.contains(x));
        let j = choose|j: int| 0 <= j < b.len() && b[j] == x;
        let a1 = a.remove(last);
        let b1 = b.remove(j);
        assert(a1.to_multiset() =~= b1.to_multiset());
        lemma_map_values_permutation(a1, b1, f);
        let ma = a.map_values(f);
        let mb = b.map_values(f);
        assert(a1.map_values(f) =~= ma.remove(last));
        assert(b1.map_values(f) =~= mb.remove(j));
        ma.to_multiset_ensures();
        mb.to_multiset_ensures();
        assert(ma.contains(ma[last]));
        assert(mb.contains(mb[j]));
        assert(ma.to_multiset() =~= ma.remove(last).to_multiset().insert(f(x)));
        assert(mb.to_multiset() =~= mb.remove(j).to_multiset().insert(f(x)));
    }
}

/// Rearranging cards rearranges their ranks and nothing more.
pub proof fn lemma_ranks_of_permutation(a: Seq<Card>, b: Seq<Card>)
    requires
        a.to_multiset() == b.to_multiset(),
    ensures
        ranks_of(a).to_multiset() == ranks_of(b).to_multiset(),
{
    lemma_map_values_permutation(a, b, rank_of());
}

/// Whether cards are all of one suit does not depend on their order.
pub proof fn lemma_same_suit_permutation(a: Seq<Card>, b: Seq<Card>)
    requires
        a.to_multiset() == b.to_multiset(),
    ensures
        same_suit(a) == same_suit(b),
{
    if same_suit(a) {
        lemma_same_suit_carries_over(a, b);
    }
    if same_suit(b) {
        lemma_same_suit_carries_over(b, a);
    }
}

proof fn lemma_same_suit_carries_over(a: Seq<Card>, b: Seq<Card>)
    requires
        a.to_multiset() == b.to_multiset(),
        same_suit(a),
    ensures
        same_suit(b),
{
    a.to_multiset_ensures();
    b.to_multiset_ensures();
    assert forall|i: int| 0 <= i < b.len() implies (#[trigger] b[i]).suit == b[0].suit by {
        assert(b.contains(b[i]));
        assert(b.contains(b[0]));
        assert(a.to_multiset().count(b[i]) > 0);
        assert(a.to_multiset().count(b[0]) > 0);
        assert(a.contains(b[i]));
        assert(a.contains(b[0]));
        let k = choose|k: int| 0 <= k < a.len() && a[k] == b[i];
        let l = choose|l: int| 0 <= l < a.len() && a[l] == b[0];
        assert(a[k].suit == a[0].suit);
        assert(a[l].suit == a[0].suit);
    }
}

/// A list of the cards' ranks that runs from the highest to the lowest is
/// the list of their sorted ranks: there is one such list only.
pub proof fn lemma_sorted_ranks_unique(cards: Seq<Card>, r: Seq<Rank>)
    requires
        r.to_multiset() == ranks_of(cards).to_multiset(),
        vstd::relations::sorted_by(r, rank_geq()),
    ensures
        sorted_ranks(cards) == r,
{
    lemma_rank_order_total();
    ranks_of(cards).lemma_sort_by_ensures(rank_geq());
    vstd::seq_lib::lemma_sorted_unique(sorted_ranks(cards), r, rank_geq());
}

/// The hand that five cards make is the same in whatever order the cards
/// are given.
pub proof fn lemma_classify_order_invariant(a: Seq<Card>, b: Seq<Card>)
    requires
        a.to_multiset() == b.to_multiset(),
    ensures
        classify(a) == classify(b),
{
    lemma_rank_order_total();
    lemma_ranks_of_permutation(a, b);
    lemma_same_suit_permutation(a, b);
    ranks_of(a).lemma_sort_by_ensures(rank_geq());
    lemma_sorted_ranks_unique(b, sorted_ranks(a));
}

/// Whether five cards are all of one suit.
fn all_one_suit(cards: &[Card; 5]) -> (flush: bool)
    ensures
        flush == same_suit(cards@),
{
    cards[1].suit == cards[0].suit && cards[2].suit == cards[0].suit && cards[3].suit
        == cards[0].suit && cards[4].suit == cards[0].suit
}

/// Whether five cards, given from the highest rank to the lowest, make a run.
fn all_in_a_run(cards: &[Card; 5]) -> (run: bool)
    ensures
        run == is_run(ranks_of(cards@)),
{
    cards[1].rank.next() == cards[0].rank && cards[2].rank.next() == cards[1].rank
        && cards[3].rank.next() == cards[2].rank && cards[4].rank.next() == cards[3].rank
}

/// Classifies five cards: sorts them by rank, the highest first, and takes
/// the strongest category that fits. Of five different cards the hand says
/// what its category means.
pub fn cards_to_hand(cards: [Card; 5]) -> (hand: PokerHandRank)
    ensures
        hand == classify(cards@),
        cards@.no_duplicates() ==> crate::hand_meaning::means(hand, cards@),
{
    let cards_in = cards;
    let cards = sort_by_rank_descending(cards_in);
    let flush = all_one_suit(&cards);
    let straight = all_in_a_run(&cards);
    proof {
        lemma_ranks_of_permutation(cards@, cards_in@);
        lemma_same_suit_permutation(cards@, cards_in@);
        lemma_sorted_ranks_unique(cards_in@, ranks_of(cards@));
        if cards_in@.no_duplicates() {
            crate::hand_meaning::lemma_classify_means(cards_in@);
        }
    }

    if straight && flush {
        return PokerHandRank::StraightFlush(cards[0].rank);
    }
    // Four of a kind: the first four cards or the last four.

    if cards[0].rank == cards[1].rank && cards[1].rank == cards[2].rank && cards[2].rank
        == cards[3].rank {
        return PokerHandRank::FourOfAKind(cards[0].rank, cards[4].rank);
    }
    if cards[1].rank == cards[2].rank && cards[2].rank == cards[3].rank && cards[3].rank
        == cards[4].rank {
        return PokerHandRank::FourOfAKind(cards[1].rank, cards[0].rank);
    }
    // Full house: the triplet first or the pair first.

    if cards[0].rank == cards[1].rank && cards[1].rank == cards[2].rank && cards[3].rank
        == cards[4].rank {
        return PokerHandRank::FullHouse(cards[0].rank, cards[3].rank);
    }
    if cards[0].rank == cards[1].rank && cards[2].rank == cards[3].rank && cards[3].rank
        == cards[4].rank {
        return PokerHandRank::FullHouse(cards[2].rank, cards[0].rank);
    }
    if flush {
        return PokerHandRank::Flush(
            cards[0].rank,
            cards[1].rank,
            cards[2].rank,
            cards[3].rank,
            cards[4].rank,
        );
    }
    if straight {
        return PokerHandRank::Straight(cards[0].rank);
    }
    // Three of a kind: the first three cards, the middle three or the last three.

    if cards[0].rank == cards[1].rank && cards[1].rank == cards[2].rank {
        return PokerHandRank::ThreeOfAKind(cards[0].rank, cards[3].rank, cards[4].rank);
    }
    if cards[1].rank == cards[2].rank && cards[2].rank == cards[3].rank {
        return PokerHandRank::ThreeOfAKind(cards[1].rank, cards[0].rank, cards[4].rank);
    }
    if cards[2].rank == cards[3].rank && cards[3].rank == cards[4].rank {
        return PokerHandRank::ThreeOfAKind(cards[2].rank, cards[0].rank, cards[1].rank);
    }
    // Two pair: the kicker last, in the middle or first.

    if cards[0].rank == cards[1].rank && cards[2].rank == cards[3].rank {
        return PokerHandRank::TwoPair(cards[0].rank, cards[2].rank, cards[4].rank);
    }
    if cards[0].rank == cards[1].rank && cards[3].rank == cards[4].rank {
        return PokerHandRank::TwoPair(cards[0].rank, cards[3].rank, cards[2].rank);
    }
    if cards[1].rank == cards[2].rank && cards[3].rank == cards[4].rank {
        return PokerHandRank::TwoPair(cards[1].rank, cards[3].rank, cards[0].rank);
    }
    // A pair: at any of the four places where two neighbours can be equal.

    if cards[0].rank == cards[1].rank {
        return PokerHandRank::Pair(cards[0].rank, cards[2].rank, cards[3].rank, cards[4].rank);
    }
    if cards[1].rank == cards[2].rank {
        return PokerHandRank::Pair(cards[1].rank, cards[0].rank, cards[3].rank, cards[4].rank);
    }
    if cards[2].rank == cards[3].rank {
        return PokerHandRank::Pair(cards[2].rank, cards[0].rank, cards[1].rank, cards[4].rank);
    }
    if cards[3].rank == cards[4].rank {
        return PokerHandRank::Pair(cards[3].rank, cards[0].rank, cards[1].rank, cards[2].rank);
    }
    PokerHandRank::HighCard(
        cards[0].rank,
        cards[1].rank,
        cards[2].rank,
        cards[3].rank,
        cards[4].rank,
    )
}

} // verus!
