use card_cabal_10_20_30::engine::{MAX_PASSES, PILES};
use card_cabal_10_20_30::{
    deal, game, pile_turn, play, play_out, settle, simulate_one_game, CardStack,
};

fn hand_of(cards: &[i32]) -> CardStack {
    let mut stack = CardStack::empty();
    for card in cards {
        stack.push_back(*card);
    }
    stack
}

fn listed(stack: &CardStack) -> Vec<i32> {
    let mut cards = Vec::new();
    for i in 0..stack.len() {
        cards.push(stack.get(i));
    }
    cards
}

const WINNING_DECK: [i32; 52] = [
    10, 9, 3, 8, 10, 3, 8, 7, 9, 1, 10, 10, 10, 4, 5, 1, 9, 7, 10, 10, 5, 1, 6, 4, 6, 10, 6, 10,
    5, 4, 10, 7, 5, 10, 10, 1, 9, 7, 4, 2, 10, 8, 10, 10, 2, 3, 10, 2, 3, 8, 6, 2,
];

const ENDLESS_DECK: [i32; 52] = [
    10, 10, 3, 7, 8, 4, 3, 7, 6, 9, 10, 10, 1, 5, 8, 10, 8, 5, 7, 3, 4, 9, 4, 10, 1, 10, 9, 2, 2,
    1, 10, 7, 10, 2, 8, 10, 3, 1, 5, 10, 6, 6, 10, 10, 10, 4, 10, 6, 5, 9, 2, 10,
];

#[test]
fn constants_of_the_game() {
    assert_eq!(PILES, 6);
    assert_eq!(MAX_PASSES, 10000);
}

#[test]
fn settle_collects_until_nothing_matches() {
    let mut hand = CardStack::empty();
    let mut board = hand_of(&[5, 4, 1, 10, 10, 10, 2]);
    settle(&mut hand, &mut board);
    assert_eq!(listed(&hand), vec![5, 4, 1, 10, 10, 10]);
    assert_eq!(listed(&board), vec![2]);
}

#[test]
fn settle_leaves_a_pile_without_match() {
    let mut hand = hand_of(&[1]);
    let mut board = hand_of(&[6, 10, 10]);
    settle(&mut hand, &mut board);
    assert_eq!(listed(&hand), vec![1]);
    assert_eq!(listed(&board), vec![6, 10, 10]);
}

#[test]
fn pile_turn_draws_and_collects() {
    let mut hand = hand_of(&[3, 9]);
    let mut board = hand_of(&[5, 2]);
    pile_turn(&mut hand, &mut board);
    assert_eq!(listed(&hand), vec![9, 5, 2, 3]);
    assert_eq!(board.len(), 0);
}

#[test]
fn pile_turn_draws_without_match() {
    let mut hand = hand_of(&[3, 9]);
    let mut board = hand_of(&[5, 3]);
    pile_turn(&mut hand, &mut board);
    assert_eq!(listed(&hand), vec![9]);
    assert_eq!(listed(&board), vec![5, 3, 3]);
}

#[test]
fn pile_turn_skips_an_empty_pile() {
    let mut hand = hand_of(&[3, 9]);
    let mut board = CardStack::empty();
    pile_turn(&mut hand, &mut board);
    assert_eq!(listed(&hand), vec![3, 9]);
    assert_eq!(board.len(), 0);
}

#[test]
fn pile_turn_with_empty_hand_moves_nothing() {
    let mut hand = CardStack::empty();
    let mut board = hand_of(&[5, 4, 1]);
    pile_turn(&mut hand, &mut board);
    assert_eq!(hand.len(), 0);
    assert_eq!(listed(&board), vec![5, 4, 1]);
}

#[test]
fn deal_lays_one_card_on_each_pile() {
    let mut hand = CardStack::full_deck();
    let boards = deal(&mut hand);
    assert_eq!(boards.len(), 6);
    for (i, pile) in boards.iter().enumerate() {
        assert_eq!(listed(pile), vec![i as i32 + 1]);
    }
    assert_eq!(hand.len(), 46);
    assert_eq!(hand.get(0), 7);
    assert_eq!(hand.get(45), 10);
}

#[test]
fn play_of_the_unshuffled_deck() {
    assert_eq!(play(CardStack::full_deck(), MAX_PASSES), (false, 89));
}

#[test]
fn play_of_the_reversed_deck() {
    let mut deck = CardStack::empty();
    let mut source = CardStack::full_deck();
    while let Ok(card) = source.pop_back() {
        deck.push_back(card);
    }
    assert_eq!(play(deck, MAX_PASSES), (false, 100));
}

#[test]
fn play_of_a_winning_deck() {
    assert_eq!(play(hand_of(&WINNING_DECK), MAX_PASSES), (true, 475));
}

#[test]
fn play_of_an_endless_deck_is_given_up() {
    assert_eq!(play(hand_of(&ENDLESS_DECK), MAX_PASSES), (false, 60000));
}

#[test]
fn play_stops_at_the_limit() {
    assert_eq!(play(CardStack::full_deck(), 0), (false, 0));
    assert_eq!(play(CardStack::full_deck(), 1), (false, 6));
    assert_eq!(play(CardStack::full_deck(), 3), (false, 18));
    assert_eq!(play(CardStack::full_deck(), 15), (false, 89));
}

#[test]
fn game_stays_within_the_limit() {
    for _ in 0..200 {
        let (_, rounds) = game();
        assert!(rounds >= 1);
        assert!(rounds <= 60000);
    }
}

#[test]
fn simulated_game_stays_within_the_limit() {
    let mut rng = rand::thread_rng();
    let mut wins = 0;
    for _ in 0..300 {
        let (won, rounds) = simulate_one_game(&mut rng);
        assert!(rounds >= 1);
        assert!(rounds <= 60000);
        if won {
            wins += 1;
            assert!(rounds < 60000);
        }
    }
    assert!(wins < 300);
}

#[test]
fn table_always_holds_the_deck() {
    for deck in [WINNING_DECK, ENDLESS_DECK] {
        let mut hand = hand_of(&deck);
        let mut boards = deal(&mut hand);
        let mut turns = 0;
        let mut decided = false;
        while !decided && turns < 600 {
            let pile = &mut boards[turns % PILES];
            pile_turn(&mut hand, pile);
            turns += 1;
            let on_boards: usize = boards.iter().map(|b| b.len()).sum();
            assert_eq!(hand.len() + on_boards, 52);
            decided = hand.len() == 52 || hand.len() == 0;
        }
        let mut all = listed(&hand);
        for pile in &boards {
            all.extend(listed(pile));
        }
        all.sort();
        let mut expected = deck.to_vec();
        expected.sort();
        assert_eq!(all, expected);
    }
}

#[test]
fn won_game_ends_with_the_deck_in_hand() {
    let mut hand = hand_of(&WINNING_DECK);
    let mut boards = deal(&mut hand);
    for turns in 0..475 {
        assert!(hand.len() != 52 && hand.len() != 0);
        pile_turn(&mut hand, &mut boards[turns % PILES]);
    }
    assert_eq!(hand.len(), 52);
    for pile in &boards {
        assert_eq!(pile.len(), 0);
    }
}

#[test]
fn lost_game_ends_with_an_empty_hand() {
    let mut hand = CardStack::full_deck();
    let mut boards = deal(&mut hand);
    for turns in 0..89 {
        assert!(hand.len() != 52 && hand.len() != 0);
        pile_turn(&mut hand, &mut boards[turns % PILES]);
    }
    assert_eq!(hand.len(), 0);
}

#[test]
fn play_out_of_a_winning_deck() {
    let end = play_out(hand_of(&WINNING_DECK), MAX_PASSES);
    assert!(end.won);
    assert_eq!(end.rounds, 475);
    assert_eq!(end.hand.len(), 52);
    assert_eq!(end.boards.len(), 6);
    for pile in &end.boards {
        assert_eq!(pile.len(), 0);
    }
    let mut cards = listed(&end.hand);
    cards.sort();
    let mut expected = WINNING_DECK.to_vec();
    expected.sort();
    assert_eq!(cards, expected);
}

#[test]
fn play_out_of_a_losing_deck() {
    let end = play_out(CardStack::full_deck(), MAX_PASSES);
    assert!(!end.won);
    assert_eq!(end.rounds, 89);
    assert_eq!(end.hand.len(), 0);
    let on_boards: usize = end.boards.iter().map(|b| b.len()).sum();
    assert_eq!(on_boards, 52);
}

#[test]
fn play_out_given_up_keeps_the_deck() {
    let end = play_out(hand_of(&ENDLESS_DECK), MAX_PASSES);
    assert!(!end.won);
    assert_eq!(end.rounds, 60000);
    assert_eq!(end.hand.len(), 2);
    let sizes: Vec<usize> = end.boards.iter().map(|b| b.len()).collect();
    assert_eq!(sizes, vec![5, 0, 17, 11, 0, 17]);
}

#[test]
fn play_out_after_three_passes() {
    let end = play_out(CardStack::full_deck(), 3);
    assert!(!end.won);
    assert_eq!(end.rounds, 18);
    assert_eq!(
        listed(&end.hand),
        vec![
            10, 10, 1, 2, 3, 4, 5, 6, 7, 8, 9, 10, 10, 10, 10, 1, 2, 3, 4, 5, 6, 7, 8, 9, 10, 10,
            10, 10, 1, 7, 2, 8, 3, 9
        ]
    );
    let piles: Vec<Vec<i32>> = end.boards.iter().map(listed).collect();
    assert_eq!(
        piles,
        vec![
            vec![1, 7, 10, 6],
            vec![8],
            vec![2],
            vec![4, 10, 3, 9],
            vec![5, 10, 4, 10],
            vec![6, 10, 5, 10]
        ]
    );
}
