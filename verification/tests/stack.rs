use card_cabal_10_20_30::{CardStack, EmptyStackError};

fn stack_of(cards: &[i32]) -> CardStack {
    let mut stack = CardStack::empty();
    for card in cards {
        stack.push_back(*card);
    }
    stack
}

fn cards_of(stack: &CardStack) -> Vec<i32> {
    let mut cards = Vec::new();
    for i in 0..stack.len() {
        cards.push(stack.get(i));
    }
    cards
}

#[test]
fn empty_stack_has_no_cards() {
    let stack = CardStack::empty();
    assert_eq!(stack.len(), 0);
}

#[test]
fn full_deck_is_four_suits_in_order() {
    let deck = CardStack::full_deck();
    let suit = vec![1, 2, 3, 4, 5, 6, 7, 8, 9, 10, 10, 10, 10];
    let mut expected = Vec::new();
    for _ in 0..4 {
        expected.extend_from_slice(&suit);
    }
    assert_eq!(cards_of(&deck), expected);
}

#[test]
fn full_deck_counts() {
    let cards = cards_of(&CardStack::full_deck());
    assert_eq!(cards.len(), 52);
    assert_eq!(cards.iter().filter(|c| **c == 10).count(), 16);
    for value in 1..=9 {
        assert_eq!(cards.iter().filter(|c| **c == value).count(), 4);
    }
}

#[test]
fn push_front_and_back_keep_order() {
    let mut stack = CardStack::empty();
    stack.push_back(2);
    stack.push_back(3);
    stack.push_front(1);
    stack.push_front(7);
    assert_eq!(stack.len(), 4);
    assert_eq!(cards_of(&stack), vec![7, 1, 2, 3]);
    assert_eq!(stack.get(0), 7);
    assert_eq!(stack.get(3), 3);
}

#[test]
fn pop_front_takes_the_oldest() {
    let mut stack = stack_of(&[4, 5, 6]);
    assert_eq!(stack.pop_front(), Ok(4));
    assert_eq!(cards_of(&stack), vec![5, 6]);
    assert_eq!(stack.pop_front(), Ok(5));
    assert_eq!(stack.pop_front(), Ok(6));
    assert_eq!(stack.len(), 0);
}

#[test]
fn pop_back_takes_the_newest() {
    let mut stack = stack_of(&[4, 5, 6]);
    assert_eq!(stack.pop_back(), Ok(6));
    assert_eq!(cards_of(&stack), vec![4, 5]);
    assert_eq!(stack.pop_back(), Ok(5));
    assert_eq!(stack.pop_back(), Ok(4));
    assert_eq!(stack.len(), 0);
}

#[test]
fn pop_from_empty_stack_fails() {
    let mut stack = CardStack::empty();
    assert_eq!(stack.pop_front(), Err(EmptyStackError));
    assert_eq!(stack.pop_back(), Err(EmptyStackError));
    assert_eq!(stack.len(), 0);
    stack.push_back(9);
    assert_eq!(stack.pop_back(), Ok(9));
    assert_eq!(stack.pop_front(), Err(EmptyStackError));
}

#[test]
fn shuffle_keeps_the_cards() {
    for _ in 0..50 {
        let shuffled = CardStack::full_deck().shuffle();
        let mut cards = cards_of(&shuffled);
        let mut expected = cards_of(&CardStack::full_deck());
        assert_eq!(cards.len(), 52);
        cards.sort();
        expected.sort();
        assert_eq!(cards, expected);
    }
}

#[test]
fn shuffle_keeps_cards_outside_the_deck() {
    let shuffled = stack_of(&[-3, 0, 7, 7, 1000, i32::MAX, i32::MIN]).shuffle();
    let mut cards = cards_of(&shuffled);
    cards.sort();
    assert_eq!(cards, vec![i32::MIN, -3, 0, 7, 7, 1000, i32::MAX]);
}

#[test]
fn shuffle_of_empty_and_single() {
    assert_eq!(CardStack::empty().shuffle().len(), 0);
    assert_eq!(cards_of(&stack_of(&[5]).shuffle()), vec![5]);
}

#[test]
fn shuffle_changes_the_order() {
    let unshuffled = cards_of(&CardStack::full_deck());
    let mut changed = false;
    for _ in 0..20 {
        if cards_of(&CardStack::full_deck().shuffle()) != unshuffled {
            changed = true;
        }
    }
    assert!(changed);
}

#[test]
fn shuffle_with_keeps_the_cards() {
    let mut rng = rand::thread_rng();
    let unshuffled = cards_of(&CardStack::full_deck());
    let mut changed = false;
    for _ in 0..20 {
        let mut cards = cards_of(&CardStack::full_deck().shuffle_with(&mut rng));
        if cards != unshuffled {
            changed = true;
        }
        cards.sort();
        let mut expected = unshuffled.clone();
        expected.sort();
        assert_eq!(cards, expected);
    }
    assert!(changed);
}
