//! Equity by simulation: an unfinished board is run out again and again from
//! a shuffled deck, and the winners of every run are tallied.
//!
//! The tally is kept in whole numbers. For each player it counts, for every
//! number of winners, the runs in which the player was one of that many
//! winners. A player's share of the pots is the sum of those counts, each
//! divided by its number of winners, over the number of runs.

use crate::card::Card;
use crate::poker_utils::{
    deck_card,
    deck_without_cards,
    determine_winner,
    lemma_winners,
    new_deck,
    none_of,
    player_hands,
    shuffle_deck,
    winners,
};
use vstd::prelude::*;

verus! {

/// The board once it is completed from a deck: the cards already on it,
/// then cards from the top of the deck, which is its end, one after another.
pub open spec fn dealt_board(deck: Seq<Card>, community: Seq<Card>) -> Seq<Card> {
    Seq::new(
        5,
        |i: int|
            if i < community.len() {
                community[i]
            } else {
                deck[deck.len() - 1 - (i - community.len())]
            },
    )
}

/// The winners of a showdown of the hands on a board of five cards.
pub open spec fn showdown(hands: Seq<[Card; 2]>, board: Seq<Card>) -> Seq<usize> {
    winners(player_hands(hands, board))
}

/// `winning` is what one run can give: the winners on the board completed
/// from the deck in some order of its cards.
pub open spec fn is_run_outcome(
    deck: Seq<Card>,
    hands: Seq<[Card; 2]>,
    community: Seq<Card>,
    winning: Seq<usize>,
) -> bool {
    exists|shuffled: Seq<Card>|
        #![trigger dealt_board(shuffled, community)]
        shuffled.to_multiset() == deck.to_multiset() && winning == showdown(
            hands,
            dealt_board(shuffled, community),
        )
}

/// The number of runs, among those whose winners are listed, in which
/// player `p` was one of exactly `k` winners.
pub open spec fn share_count(outcomes: Seq<Seq<usize>>, p: int, k: int) -> nat
    decreases outcomes.len(),
{
    if outcomes.len() == 0 {
        0
    } else {
        share_count(outcomes.drop_last(), p, k) + (if outcomes.last().len() == k
            && outcomes.last().contains(p as usize) {
            1nat
        } else {
            0nat
        })
    }
}

/// The tally of `n` players holds, for each player and each number of
/// winners from 1 to `n`, the count of the runs listed.
pub open spec fn tally_of(wins: Seq<Vec<u32>>, outcomes: Seq<Seq<usize>>, n: int) -> bool {
    &&& wins.len() == n
    &&& forall|p: int| 0 <= p < n ==> (#[trigger] wins[p])@.len() == n
    &&& forall|p: int, k: int|
        0 <= p < n && 0 <= k < n ==> (#[trigger] wins[p]@[k]) == share_count(outcomes, p, k + 1)
}

/// No count of a tally exceeds the number of runs.
pub proof fn lemma_share_count_bound(outcomes: Seq<Seq<usize>>, p: int, k: int)
    ensures
        share_count(outcomes, p, k) <= outcomes.len(),
    decreases outcomes.len(),
{
    if outcomes.len() > 0 {
        lemma_share_count_bound(outcomes.drop_last(), p, k);
    }
}

/// Where every run has the same winners, a player among them shares every
/// run with that many winners, and every other count is nought.
pub proof fn lemma_share_count_constant(
    outcomes: Seq<Seq<usize>>,
    winning: Seq<usize>,
    p: int,
    k: int,
)
    requires
        forall|t: int| 0 <= t < outcomes.len() ==> #[trigger] outcomes[t] == winning,
    ensures
        share_count(outcomes, p, k) == (if winning.len() == k && winning.contains(p as usize) {
            outcomes.len()
        } else {
            0
        }),
    decreases outcomes.len(),
{
    if outcomes.len() > 0 {
        lemma_share_count_constant(outcomes.drop_last(), winning, p, k);
        assert(outcomes.last() == outcomes[outcomes.len() - 1]);
    }
}

/// Completes the board to five cards with cards drawn from the top of the
/// deck, which is its end.
pub fn complete_board(deck: &mut Vec<Card>, community: &Vec<Card>) -> (board: [Card; 5])
    requires
        community@.len() <= 5,
        old(deck)@.len() + community@.len() >= 5,
    ensures
        board@ == dealt_board(old(deck)@, community@),
        final(deck)@ == old(deck)@.take(old(deck)@.len() - (5 - community@.len())),
{
    let ghost start = deck@;
    let mut cards = community.clone();
    while cards.len() < 5
        invariant
            community@.len() <= cards@.len() <= 5,
            start.len() + community@.len() >= 5,
            deck@.len() + cards@.len() == start.len() + community@.len(),
            deck@ == start.take(deck@.len() as int),
            forall|i: int|
                0 <= i < cards@.len() ==> #[trigger] cards@[i] == dealt_board(start, community@)[i],
        decreases 5 - cards@.len(),
    {
        let card = deck.pop().unwrap();
        cards.push(card);
    }
    let board = [cards[0], cards[1], cards[2], cards[3], cards[4]];
    assert(board@ =~= dealt_board(start, community@));
    board
}

/// A copy of the players' hole cards.
fn copy_hands(hands: &Vec<[Card; 2]>) -> (copy: Vec<[Card; 2]>)
    ensures
        copy@ == hands@,
{
    let mut copy: Vec<[Card; 2]> = Vec::new();
    let mut p: usize = 0;
    while p < hands.len()
        invariant
            0 <= p <= hands@.len(),
            copy@ == hands@.take(p as int),
        decreases hands@.len() - p,
    {
        copy.push(hands[p]);
        assert(hands@.take(p + 1) =~= hands@.take(p as int).push(hands@[p as int]));
        p = p + 1;
    }
    assert(hands@.take(hands@.len() as int) =~= hands@);
    copy
}

/// Runs the board out from a deck in the order given, and finds who wins.
pub fn play_out(deck: Vec<Card>, hands: &Vec<[Card; 2]>, community: &Vec<Card>) -> (winning: Vec<
    usize,
>)
    requires
        hands@.len() >= 1,
        community@.len() <= 5,
        deck@.len() + community@.len() >= 5,
    ensures
        winning@ == showdown(hands@, dealt_board(deck@, community@)),
{
    let mut deck = deck;
    let board = complete_board(&mut deck, community);
    let (winning, _) = determine_winner(copy_hands(hands), board);
    winning
}

/// A tally of `n` players with every count at nought.
fn empty_tally(n: usize) -> (wins: Vec<Vec<u32>>)
    ensures
        tally_of(wins@, Seq::empty(), n as int),
{
    let mut wins: Vec<Vec<u32>> = Vec::new();
    while wins.len() < n
        invariant
            wins@.len() <= n,
            forall|p: int| 0 <= p < wins@.len() ==> (#[trigger] wins@[p])@.len() == n,
            forall|p: int, k: int|
                0 <= p < wins@.len() && 0 <= k < n ==> (#[trigger] wins@[p]@[k]) == 0,
        decreases n - wins@.len(),
    {
        let mut row: Vec<u32> = Vec::new();
        while row.len() < n
            invariant
                row@.len() <= n,
                forall|k: int| 0 <= k < row@.len() ==> #[trigger] row@[k] == 0,
            decreases n - row@.len(),
        {
            row.push(0);
        }
        wins.push(row);
    }
    wins
}

/// Enters the winners of one run into the tally.
fn record_outcome(
    wins: &mut Vec<Vec<u32>>,
    winning: &Vec<usize>,
    Ghost(outcomes): Ghost<Seq<Seq<usize>>>,
)
    requires
        old(wins)@.len() <= usize::MAX,
        tally_of(old(wins)@, outcomes, old(wins)@.len() as int),
        outcomes.len() < u32::MAX,
        1 <= winning@.len() <= old(wins)@.len(),
        forall|a: int| 0 <= a < winning@.len() ==> (#[trigger] winning@[a]) < old(wins)@.len(),
        forall|a: int, b: int|
            0 <= a < b < winning@.len() ==> (#[trigger] winning@[a]) < (#[trigger] winning@[b]),
    ensures
        tally_of(final(wins)@, outcomes.push(winning@), old(wins)@.len() as int),
{
    let ghost n = wins@.len() as int;
    let ghost before = wins@;
    let k = winning.len() - 1;
    let mut a: usize = 0;
    while a < winning.len()
        invariant
            0 <= a <= winning@.len(),
            k == winning@.len() - 1,
            n == before.len(),
            n <= usize::MAX,
            tally_of(before, outcomes, n),
            outcomes.len() < u32::MAX,
            1 <= winning@.len() <= n,
            forall|x: int| 0 <= x < winning@.len() ==> (#[trigger] winning@[x]) < n,
            forall|x: int, y: int|
                0 <= x < y < winning@.len() ==> (#[trigger] winning@[x]) < (#[trigger] winning@[y]),
            wins@.len() == n,
            forall|p: int| 0 <= p < n ==> (#[trigger] wins@[p])@.len() == n,
            forall|p: int, j: int|
                0 <= p < n && 0 <= j < n ==> (#[trigger] wins@[p]@[j]) == before[p]@[j] + (if j
                    == k && exists|x: int| 0 <= x < a && winning@[x] == p {
                    1int
                } else {
                    0int
                }),
        decreases winning@.len() - a,
    {
        let w = winning[a];
        proof {
            lemma_share_count_bound(outcomes, w as int, k + 1);
            assert(!exists|x: int| 0 <= x < a && winning@[x] == w);
            assert(wins@[w as int]@[k as int] == before[w as int]@[k as int]);
        }
        let ghost earlier = wins@;
        wins[w][k] = wins[w][k] + 1;
        proof {
            assert forall|p: int, j: int| 0 <= p < n && 0 <= j < n implies (
            #[trigger] wins@[p]@[j]) == before[p]@[j] + (if j == k && exists|x: int|
                0 <= x < a + 1 && winning@[x] == p {
                1int
            } else {
                0int
            }) by {
                if p == w {
                    assert(winning@[a as int] == p);
                } else {
                    assert(wins@[p] == earlier[p]);
                    assert((exists|x: int| 0 <= x < a + 1 && winning@[x] == p) == (exists|x: int|
                        0 <= x < a && winning@[x] == p));
                }
            }
        }
        a = a + 1;
    }
    proof {
        let after = outcomes.push(winning@);
        assert(after.drop_last() =~= outcomes);
        assert(after.last() == winning@);
        assert forall|p: int, j: int| 0 <= p < n && 0 <= j < n implies (#[trigger] wins@[p]@[j])
            == share_count(after, p, j + 1) by {
            if winning@.contains(p as usize) {
                let x = choose|x: int| 0 <= x < winning@.len() && winning@[x] == p as usize;
                assert(winning@[x] == p);
            }
            if exists|x: int| 0 <= x < winning@.len() && winning@[x] == p {
                let x = choose|x: int| 0 <= x < winning@.len() && winning@[x] == p;
                assert(winning@[x] == p as usize);
            }
        }
    }
}

/// Runs the board out `iterations` times, each time from a fresh shuffle of
/// the deck, and tallies the winners: `wins[p][k]` counts the runs in which
/// player `p` was one of `k + 1` winners. The deck holds the cards that are
/// neither in a hand nor on the board.
///
/// Which runs come up is a matter of chance; each is the showdown on a board
/// completed from the deck in some order. On a board that is complete
/// already no card is drawn, every run has the same winners, and the tally
/// is fixed.
pub fn run_out(
    deck: Vec<Card>,
    hands: Vec<[Card; 2]>,
    community: Vec<Card>,
    iterations: u32,
) -> (wins: Vec<Vec<u32>>)
    requires
        hands@.len() >= 1,
        community@.len() <= 5,
        deck@.len() + community@.len() >= 5,
    ensures
        exists|outcomes: Seq<Seq<usize>>|
            {
                &&& outcomes.len() == iterations
                &&& forall|t: int|
                    0 <= t < outcomes.len() ==> is_run_outcome(
                        deck@,
                        hands@,
                        community@,
                        #[trigger] outcomes[t],
                    )
                &&& #[trigger] tally_of(wins@, outcomes, hands@.len() as int)
            },
        community@.len() == 5 ==> forall|p: int, k: int|
            0 <= p < hands@.len() && 0 <= k < hands@.len() ==> (#[trigger] wins@[p]@[k]) == (
            if showdown(hands@, community@).len() == k + 1 && showdown(hands@, community@).contains(
                p as usize,
            ) {
                iterations
            } else {
                0
            }),
{
    let players = hands.len();
    let mut wins = empty_tally(players);
    let ghost mut outcomes: Seq<Seq<usize>> = Seq::empty();
    let mut i: u32 = 0;
    while i < iterations
        invariant
            0 <= i <= iterations,
            hands@.len() == players,
            hands@.len() >= 1,
            community@.len() <= 5,
            deck@.len() + community@.len() >= 5,
            outcomes.len() == i,
            forall|t: int|
                0 <= t < outcomes.len() ==> is_run_outcome(
                    deck@,
                    hands@,
                    community@,
                    #[trigger] outcomes[t],
                ),
            community@.len() == 5 ==> forall|t: int|
                0 <= t < outcomes.len() ==> #[trigger] outcomes[t] == showdown(
                    hands@,
                    community@,
                ),
            tally_of(wins@, outcomes, hands@.len() as int),
        decreases iterations - i,
    {
        let mut shuffled = deck.clone();
        shuffle_deck(&mut shuffled);
        let winning = play_out(shuffled, &hands, &community);
        proof {
            let best = player_hands(hands@, dealt_board(shuffled@, community@));
            lemma_winners(best);
            assert(winning@.len() <= hands@.len()) by {
                crate::poker_utils::lemma_winners_below(best, best.len() as int);
            }
            assert(is_run_outcome(deck@, hands@, community@, winning@));
            if community@.len() == 5 {
                assert(dealt_board(shuffled@, community@) =~= community@);
            }
        }
        record_outcome(&mut wins, &winning, Ghost(outcomes));
        proof {
            outcomes = outcomes.push(winning@);
        }
        i = i + 1;
    }
    proof {
        if community@.len() == 5 {
            let fixed = showdown(hands@, community@);
            assert forall|p: int, k: int|
                0 <= p < hands@.len() && 0 <= k < hands@.len() implies (#[trigger] wins@[p]@[k])
                == (if fixed.len() == k + 1 && fixed.contains(p as usize) {
                iterations
            } else {
                0
            }) by {
                lemma_share_count_constant(outcomes, fixed, p, k + 1);
            }
        }
    }
    wins
}

/// The hole cards of all players, hand after hand.
pub open spec fn hole_cards(hands: Seq<[Card; 2]>) -> Seq<Card> {
    Seq::new(2 * hands.len(), |i: int| hands[i / 2]@[i % 2])
}

/// The cards that no player holds and that are not on the board, in the
/// order of a new deck.
pub open spec fn live_deck(hands: Seq<[Card; 2]>, board: Seq<Card>) -> Seq<Card> {
    Seq::new(52, |n: int| deck_card(n)).filter(none_of(hole_cards(hands) + board))
}

/// The deck for a calculation: a new deck without the cards that a player
/// holds or that are on the board.
pub fn live_cards(board: &Vec<Card>, hands: &Vec<[Card; 2]>) -> (deck: Vec<Card>)
    ensures
        deck@ == live_deck(hands@, board@),
{
    let deck = new_deck();
    assert(deck@ =~= Seq::new(52, |n: int| deck_card(n)));
    let mut dead_cards: Vec<Card> = Vec::new();
    let mut p: usize = 0;
    while p < hands.len()
        invariant
            0 <= p <= hands@.len(),
            dead_cards@.len() == 2 * p,
            forall|i: int| 0 <= i < 2 * p ==> #[trigger] dead_cards@[i] == hole_cards(hands@)[i],
        decreases hands@.len() - p,
    {
        dead_cards.push(hands[p][0]);
        dead_cards.push(hands[p][1]);
        p = p + 1;
    }
    let mut b: usize = 0;
    while b < board.len()
        invariant
            0 <= b <= board@.len(),
            dead_cards@.len() == 2 * hands@.len() + b,
            forall|i: int|
                0 <= i < 2 * hands@.len() ==> #[trigger] dead_cards@[i] == hole_cards(hands@)[i],
            forall|i: int|
                2 * hands@.len() <= i < 2 * hands@.len() + b ==> #[trigger] dead_cards@[i]
                    == board@[i - 2 * hands@.len()],
        decreases board@.len() - b,
    {
        dead_cards.push(board[b]);
        b = b + 1;
    }
    assert(dead_cards@ =~= hole_cards(hands@) + board@);
    deck_without_cards(deck, dead_cards)
}

/// Tallies `iterations` runs of the board for the given hands, from a deck
/// of the cards that are neither in a hand nor on the board.
pub fn run_calculation(board: Vec<Card>, hands: Vec<[Card; 2]>, iterations: u32) -> (wins: Vec<
    Vec<u32>,
>)
    requires
        hands@.len() >= 1,
        board@.len() <= 5,
        live_deck(hands@, board@).len() + board@.len() >= 5,
    ensures
        exists|outcomes: Seq<Seq<usize>>|
            {
                &&& outcomes.len() == iterations
                &&& forall|t: int|
                    0 <= t < outcomes.len() ==> is_run_outcome(
                        live_deck(hands@, board@),
                        hands@,
                        board@,
                        #[trigger] outcomes[t],
                    )
                &&& #[trigger] tally_of(wins@, outcomes, hands@.len() as int)
            },
        board@.len() == 5 ==> forall|p: int, k: int|
            0 <= p < hands@.len() && 0 <= k < hands@.len() ==> (#[trigger] wins@[p]@[k]) == (
            if showdown(hands@, board@).len() == k + 1 && showdown(hands@, board@).contains(
                p as usize,
            ) {
                iterations
            } else {
                0
            }),
{
    let deck = live_cards(&board, &hands);
    run_out(deck, hands, board, iterations)
}

/// The number of the runs listed that had exactly `k` winners.
pub open spec fn runs_with(outcomes: Seq<Seq<usize>>, k: int) -> nat
    decreases outcomes.len(),
{
    if outcomes.len() == 0 {
        0
    } else {
        runs_with(outcomes.drop_last(), k) + (if outcomes.last().len() == k {
            1nat
        } else {
            0nat
        })
    }
}

/// The runs listed that had from one to `n` winners, counted.
pub open spec fn runs_counted(outcomes: Seq<Seq<usize>>, n: int) -> nat
    decreases n,
{
    if n <= 0 {
        0
    } else {
        runs_counted(outcomes, n - 1) + runs_with(outcomes, n)
    }
}

/// The counts that the first `n` players have for `k` winners, added up.
pub open spec fn shares_counted(outcomes: Seq<Seq<usize>>, n: int, k: int) -> nat
    decreases n,
{
    if n <= 0 {
        0
    } else {
        shares_counted(outcomes, n - 1, k) + share_count(outcomes, n - 1, k)
    }
}

/// A list of winners among `n` players: players below `n`, in ascending
/// order, at least one.
pub open spec fn is_winner_list(winning: Seq<usize>, n: int) -> bool {
    &&& 1 <= winning.len() <= n
    &&& forall|a: int| 0 <= a < winning.len() ==> (#[trigger] winning[a]) < n
    &&& forall|a: int, b: int|
        0 <= a < b < winning.len() ==> (#[trigger] winning[a]) < (#[trigger] winning[b])
}

/// The number of players below `n` that a list names.
pub open spec fn named_below(winning: Seq<usize>, n: int) -> nat
    decreases n,
{
    if n <= 0 {
        0
    } else {
        named_below(winning, n - 1) + (if winning.contains((n - 1) as usize) {
            1nat
        } else {
            0nat
        })
    }
}

/// Two lists that name the same players below `n` name as many of them.
proof fn lemma_named_below_agrees(a: Seq<usize>, b: Seq<usize>, n: int)
    requires
        forall|p: usize| p < n ==> #[trigger] a.contains(p) == b.contains(p),
    ensures
        named_below(a, n) == named_below(b, n),
    decreases n,
{
    if n > 0 {
        lemma_named_below_agrees(a, b, n - 1);
    }
}

/// An ascending list of players below `n` names as many players below `n`
/// as it is long.
proof fn lemma_named_below(winning: Seq<usize>, n: int)
    requires
        0 <= n <= usize::MAX,
        forall|a: int| 0 <= a < winning.len() ==> (#[trigger] winning[a]) < n,
        forall|a: int, b: int|
            0 <= a < b < winning.len() ==> (#[trigger] winning[a]) < (#[trigger] winning[b]),
    ensures
        named_below(winning, n) == winning.len(),
    decreases n,
{
    if n > 0 {
        if winning.len() > 0 && winning.last() == n - 1 {
            let rest = winning.drop_last();
            assert forall|a: int| 0 <= a < rest.len() implies (#[trigger] rest[a]) < n - 1 by {
                assert(winning[a] < winning[winning.len() - 1]);
            }
            lemma_named_below(rest, n - 1);
            assert forall|p: usize| p < n - 1 implies #[trigger] winning.contains(p)
                == rest.contains(p) by {
                if winning.contains(p) {
                    let a = choose|a: int| 0 <= a < winning.len() && winning[a] == p;
                    assert(rest[a] == p);
                }
                if rest.contains(p) {
                    let a = choose|a: int| 0 <= a < rest.len() && rest[a] == p;
                    assert(winning[a] == p);
                }
            }
            lemma_named_below_agrees(winning, rest, n - 1);
            assert(winning[winning.len() - 1] == (n - 1) as usize);
            assert(winning.contains((n - 1) as usize));
        } else {
            assert forall|a: int| 0 <= a < winning.len() implies (#[trigger] winning[a]) < n
                - 1 by {
                if a < winning.len() - 1 {
                    assert(winning[a] < winning[winning.len() - 1]);
                }
            }
            lemma_named_below(winning, n - 1);
            if winning.contains((n - 1) as usize) {
                let a = choose|a: int| 0 <= a < winning.len() && winning[a] == (n - 1) as usize;
                assert(winning[a] < n - 1);
            }
        }
    } else if winning.len() > 0 {
        assert(winning[0] < n);
    }
}

/// What one more run adds to the counts of the first `n` players for `k`
/// winners: the players below `n` among its winners, where it has `k`.
proof fn lemma_shares_counted_step(outcomes: Seq<Seq<usize>>, n: int, k: int)
    requires
        outcomes.len() > 0,
    ensures
        shares_counted(outcomes, n, k) == shares_counted(outcomes.drop_last(), n, k) + (
        if outcomes.last().len() == k {
            named_below(outcomes.last(), n)
        } else {
            0
        }),
    decreases n,
{
    if n > 0 {
        lemma_shares_counted_step(outcomes, n - 1, k);
    }
}

/// What one more run adds to the runs counted: one, where it has from one
/// to `n` winners.
proof fn lemma_runs_counted_step(outcomes: Seq<Seq<usize>>, n: int)
    requires
        outcomes.len() > 0,
    ensures
        runs_counted(outcomes, n) == runs_counted(outcomes.drop_last(), n) + (if 1
            <= outcomes.last().len() <= n {
            1nat
        } else {
            0nat
        }),
    decreases n,
{
    if n > 0 {
        lemma_runs_counted_step(outcomes, n - 1);
    }
}

/// Every run is counted once for each of its winners, and every run is
/// counted: the counts that `n` players have for `k` winners add up to `k`
/// times the runs with `k` winners, and the runs with one winner, with two,
/// and so on up to `n`, are all the runs. So the shares of the pots, each
/// count divided by its number of winners, add up to the number of runs.
pub proof fn lemma_pots_are_shared_out(outcomes: Seq<Seq<usize>>, n: int, k: int)
    requires
        0 <= n <= usize::MAX,
        forall|t: int| 0 <= t < outcomes.len() ==> is_winner_list(#[trigger] outcomes[t], n),
    ensures
        shares_counted(outcomes, n, k) == k * runs_with(outcomes, k),
        runs_counted(outcomes, n) == outcomes.len(),
    decreases outcomes.len(),
{
    if outcomes.len() == 0 {
        lemma_nothing_counted(outcomes, n, k);
        assert(k * 0 == 0);
    } else {
        let before = outcomes.drop_last();
        assert forall|t: int| 0 <= t < before.len() implies is_winner_list(
            #[trigger] before[t],
            n,
        ) by {
            assert(before[t] == outcomes[t]);
        }
        lemma_pots_are_shared_out(before, n, k);
        let last = outcomes.last();
        assert(last == outcomes[outcomes.len() - 1]);
        lemma_shares_counted_step(outcomes, n, k);
        lemma_runs_counted_step(outcomes, n);
        lemma_named_below(last, n);
        let r = runs_with(before, k) as int;
        assert(k * (r + 1) == k * r + k) by (nonlinear_arith);
        if last.len() == k {
            assert(runs_with(outcomes, k) == r + 1);
            assert(shares_counted(outcomes, n, k) == k * r + k);
        } else {
            assert(runs_with(outcomes, k) == r);
        }
    }
}

/// Of no runs nothing is counted.
proof fn lemma_nothing_counted(outcomes: Seq<Seq<usize>>, n: int, k: int)
    requires
        outcomes.len() == 0,
    ensures
        shares_counted(outcomes, n, k) == 0,
        runs_counted(outcomes, n) == 0,
    decreases n,
{
    if n > 0 {
        lemma_nothing_counted(outcomes, n - 1, k);
    }
}

/// What a run can give is a list of winners among the players.
pub proof fn lemma_run_outcome_is_winner_list(
    deck: Seq<Card>,
    hands: Seq<[Card; 2]>,
    community: Seq<Card>,
    winning: Seq<usize>,
)
    requires
        1 <= hands.len() <= usize::MAX,
        is_run_outcome(deck, hands, community, winning),
    ensures
        is_winner_list(winning, hands.len() as int),
{
    let shuffled = choose|shuffled: Seq<Card>|
        #![trigger dealt_board(shuffled, community)]
        shuffled.to_multiset() == deck.to_multiset() && winning == showdown(
            hands,
            dealt_board(shuffled, community),
        );
    let best = player_hands(hands, dealt_board(shuffled, community));
    lemma_winners(best);
    crate::poker_utils::lemma_winners_below(best, best.len() as int);
}

} // verus!
