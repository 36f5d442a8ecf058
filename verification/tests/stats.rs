use card_cabal_10_20_30::stats::{GIVEN_UP, NO_GAME_YET};
use card_cabal_10_20_30::Tally;

#[test]
fn new_tally_is_empty() {
    let tally = Tally::new();
    assert_eq!(GIVEN_UP, 60000);
    assert_eq!(NO_GAME_YET, 100000);
    assert_eq!(tally.games, 0);
    assert_eq!(tally.wins, 0);
    assert_eq!(tally.rounds, 0);
    assert_eq!(tally.win_min_rounds, 100000);
    assert_eq!(tally.win_max_rounds, 0);
    assert_eq!(tally.los_min_rounds, 100000);
    assert_eq!(tally.los_max_rounds, 0);
    assert_eq!(tally.dist.len(), 60000);
    assert!(tally.dist.iter().all(|c| *c == 0));
    assert!(tally.trimmed_dist().is_empty());
}

#[test]
fn record_counts_wins_and_losses() {
    let mut tally = Tally::new();
    tally.record(true, 475);
    tally.record(false, 89);
    tally.record(false, 100);
    tally.record(true, 300);
    tally.record(false, 89);
    assert_eq!(tally.games, 5);
    assert_eq!(tally.wins, 2);
    assert_eq!(tally.rounds, 475 + 89 + 100 + 300 + 89);
    assert_eq!(tally.win_min_rounds, 300);
    assert_eq!(tally.win_max_rounds, 475);
    assert_eq!(tally.los_min_rounds, 89);
    assert_eq!(tally.los_max_rounds, 100);
    assert_eq!(tally.dist[89], 2);
    assert_eq!(tally.dist[100], 1);
    assert_eq!(tally.dist[300], 1);
    assert_eq!(tally.dist[475], 1);
    assert_eq!(tally.dist.iter().sum::<u64>(), 5);
    assert_eq!(tally.average_rounds(), 210);
}

#[test]
fn given_up_game_counts_as_game_only() {
    let mut tally = Tally::new();
    tally.record(false, 90);
    tally.record(false, 60000);
    assert_eq!(tally.games, 2);
    assert_eq!(tally.wins, 0);
    assert_eq!(tally.rounds, 90);
    assert_eq!(tally.los_min_rounds, 90);
    assert_eq!(tally.los_max_rounds, 90);
    assert_eq!(tally.win_min_rounds, 100000);
    assert_eq!(tally.dist.iter().sum::<u64>(), 1);
    assert_eq!(tally.average_rounds(), 45);
}

#[test]
fn trimmed_dist_ends_at_the_last_count() {
    let mut tally = Tally::new();
    tally.record(false, 3);
    tally.record(true, 5);
    tally.record(true, 5);
    assert_eq!(tally.trimmed_dist(), vec![0, 0, 0, 1, 0, 2]);
    tally.record(false, 59999);
    let counts = tally.trimmed_dist();
    assert_eq!(counts.len(), 60000);
    assert_eq!(counts[59999], 1);
    assert_eq!(counts[5], 2);
}

#[test]
fn game_of_zero_rounds_is_counted() {
    let mut tally = Tally::new();
    tally.record(false, 0);
    assert_eq!(tally.los_min_rounds, 0);
    assert_eq!(tally.los_max_rounds, 0);
    assert_eq!(tally.trimmed_dist(), vec![1]);
}
