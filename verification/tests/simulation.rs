use poker_equity::card::{cards_from_str, Card};
use poker_equity::poker_utils::{deck_without_cards, new_deck};
use poker_equity::simulation::{complete_board, live_cards, play_out, run_calculation, run_out};

/// Shorthand for creating pocket cards
fn c(s: &str) -> [Card; 2] {
    let cards = cards_from_str(s);
    assert_eq!(cards.len(), 2);
    [cards[0], cards[1]]
}

/// Each player's share of the pots: every count of the tally divided by its
/// number of winners, summed, over the number of runs.
fn shares(wins: &Vec<Vec<u32>>, iterations: u32) -> Vec<f32> {
    wins.iter()
        .map(|row| {
            let credit: f32 = row
                .iter()
                .enumerate()
                .map(|(k, count)| *count as f32 / (k + 1) as f32)
                .sum();
            credit / iterations as f32
        })
        .collect()
}

#[test]
fn test_aces_vs_kings() {
    let wins = run_calculation(vec![], vec![c("AhAs"), c("KdKh")], 10_000);
    let result = shares(&wins, 10_000);
    assert_eq!(result.len(), 2);

    // AA should be ~ 2
    assert!(result[0] > 0.80, "actual: {}", result[0]);
    assert!(result[1] < 0.20, "actual: {}", result[1]);
}

#[test]
fn shares_of_every_run_sum_to_one() {
    let iterations = 500;
    let wins = run_calculation(
        cards_from_str("2c3d"),
        vec![c("AhKh"), c("AsKs"), c("7d7c")],
        iterations,
    );
    assert_eq!(wins.len(), 3);
    for row in &wins {
        assert_eq!(row.len(), 3);
    }
    // A run with k winners is counted once for each of them.
    let mut runs = 0;
    for k in 0..3 {
        let sharing: u32 = wins.iter().map(|row| row[k]).sum();
        assert_eq!(sharing % (k as u32 + 1), 0);
        runs += sharing / (k as u32 + 1);
    }
    assert_eq!(runs, iterations);
    let total: f32 = shares(&wins, iterations).iter().sum();
    assert!((total - 1.0).abs() < 1e-4, "actual: {}", total);
}

#[test]
fn full_board_gives_the_same_winner_every_run() {
    let board = cards_from_str("AdKs2c7h9d");
    let hands = vec![c("AhAs"), c("KdKh")];
    let wins = run_calculation(board, hands, 250);
    assert_eq!(wins, vec![vec![250, 0], vec![0, 0]]);
}

#[test]
fn full_board_split_pot_is_tallied_for_both() {
    // The board plays: a straight to the ace that neither hand improves.
    let board = cards_from_str("AdKsQcJhTd");
    let hands = vec![c("2h3s"), c("2d3c"), c("4h5s")];
    let wins = run_calculation(board, hands, 40);
    assert_eq!(wins, vec![vec![0, 0, 40], vec![0, 0, 40], vec![0, 0, 40]]);
    for share in shares(&wins, 40) {
        assert!((share - 1.0 / 3.0).abs() < 1e-6, "actual: {}", share);
    }
}

#[test]
fn no_run_on_no_iterations() {
    let wins = run_calculation(vec![], vec![c("AhAs"), c("KdKh")], 0);
    assert_eq!(wins, vec![vec![0, 0], vec![0, 0]]);
}

#[test]
fn run_out_accepts_a_deck_that_just_completes_the_board() {
    // Two cards in the deck, three on the board: every shuffle deals both.
    let deck = cards_from_str("2c7h");
    let wins = run_out(
        deck,
        vec![c("AhAs"), c("KdKh")],
        cards_from_str("AdKs9d"),
        30,
    );
    assert_eq!(wins, vec![vec![30, 0], vec![0, 0]]);
}

#[test]
fn board_is_completed_from_the_top_of_the_deck() {
    let mut deck = cards_from_str("2c3c4c5c6c");
    let board = complete_board(&mut deck, &cards_from_str("AhKh"));
    assert_eq!(board.to_vec(), cards_from_str("AhKh6c5c4c"));
    assert_eq!(deck, cards_from_str("2c3c"));
}

#[test]
fn complete_board_draws_nothing_for_a_full_board() {
    let mut deck = cards_from_str("2c3c");
    let board = complete_board(&mut deck, &cards_from_str("AhKhQhJhTh"));
    assert_eq!(board.to_vec(), cards_from_str("AhKhQhJhTh"));
    assert_eq!(deck, cards_from_str("2c3c"));
}

#[test]
fn play_out_follows_the_order_of_the_deck() {
    let hands = vec![c("AhAs"), c("KdKh")];
    // The top two cards are kings: the kings make four of a kind.
    let winning = play_out(cards_from_str("2c3dKcKs"), &hands, &cards_from_str("7h8s9d"));
    assert_eq!(winning, vec![1]);
    // The top two cards are low: the aces hold.
    let winning = play_out(cards_from_str("KcKs2c3d"), &hands, &cards_from_str("7h8s9d"));
    assert_eq!(winning, vec![0]);
}

#[test]
fn deck_for_a_calculation_leaves_out_the_cards_in_play() {
    let hands = vec![c("AhAs"), c("KdKh")];
    let deck = live_cards(&cards_from_str("2c"), &hands);
    assert_eq!(deck.len(), 47);
    assert_eq!(
        deck,
        deck_without_cards(new_deck(), cards_from_str("AhAsKdKh2c"))
    );
    assert_eq!(live_cards(&vec![], &vec![]), new_deck());
}
