//! One whole game: the deal onto six board piles, the turns taken pile by
//! pile, and the end of the game.

use crate::resolver::{
    board_after_turn, hand_after_turn, lemma_turn_keeps_cards, matching_window, turn,
};
use crate::stack::{deck_cards, same_cards, thread_generator, CardStack, DECK_SIZE};
use rand::rngs::ThreadRng;
use vstd::multiset::Multiset;
use vstd::prelude::*;

verus! {

/// Number of board piles.
pub const PILES: usize = 6;

/// Number of passes over the board piles after which a game is given up.
pub const MAX_PASSES: usize = 10000;

/// The cards of a game in play: the hand and the board piles.
pub struct Table {
    pub hand: Seq<i32>,
    pub boards: Seq<Seq<i32>>,
}

/// How a game ended: whether it was won, the number of pile turns counted,
/// and the cards as they then lay.
pub struct Outcome {
    pub won: bool,
    pub rounds: nat,
    pub table: Table,
}

/// Number of cards on the first `n` of `boards`.
pub open spec fn cards_on(boards: Seq<Seq<i32>>, n: nat) -> nat
    decreases n,
{
    if n == 0 {
        0
    } else {
        cards_on(boards, (n - 1) as nat) + boards[n - 1].len()
    }
}

/// Number of cards in the hand and on all board piles together.
pub open spec fn total_cards(table: Table) -> nat {
    table.hand.len() + cards_on(table.boards, table.boards.len())
}

/// The cards on the first `n` of `boards`, each as often as it lies there.
pub open spec fn cards_of_piles(boards: Seq<Seq<i32>>, n: nat) -> Multiset<i32>
    decreases n,
{
    if n == 0 {
        Multiset::empty()
    } else {
        cards_of_piles(boards, (n - 1) as nat).add(boards[n - 1].to_multiset())
    }
}

/// The cards in the hand and on all board piles, each as often as it is on
/// the table.
pub open spec fn table_cards(table: Table) -> Multiset<i32> {
    table.hand.to_multiset().add(cards_of_piles(table.boards, table.boards.len()))
}

/// The table after the deal: each pile holds one card, the first pile the
/// front card of the deck, and the hand keeps the rest.
pub open spec fn dealt(deck: Seq<i32>) -> Table
    recommends
        deck.len() >= PILES,
{
    Table {
        hand: deck.subrange(PILES as int, deck.len() as int),
        boards: Seq::new(PILES as nat, |i: int| Seq::<i32>::empty().push(deck[i])),
    }
}

/// The hand and one board pile after matches have been collected from the
/// pile until none is left on it.
pub open spec fn settled(hand: Seq<i32>, board: Seq<i32>) -> (Seq<i32>, Seq<i32>)
    decreases board.len(),
{
    if matching_window(board).is_some() {
        settled(hand_after_turn(hand, board), board_after_turn(board))
    } else {
        (hand, board)
    }
}

/// The hand and one board pile after the pile's turn: where the pile and
/// the hand both hold a card, the front card of the hand goes onto the back
/// of the pile and the pile is settled; else nothing moves.
pub open spec fn drawn_and_settled(hand: Seq<i32>, board: Seq<i32>) -> (Seq<i32>, Seq<i32>) {
    if board.len() == 0 || hand.len() == 0 {
        (hand, board)
    } else {
        settled(hand.drop_first(), board.push(hand[0]))
    }
}

/// The table after the turn of pile `i`.
pub open spec fn after_pile_turn(table: Table, i: int) -> Table
    recommends
        0 <= i < table.boards.len(),
{
    let moved = drawn_and_settled(table.hand, table.boards[i]);
    Table { hand: moved.0, boards: table.boards.update(i, moved.1) }
}

/// The game from `table` on, when `rounds` pile turns have been counted and
/// `cap` is the number at which the game is given up. The piles take their
/// turns one after the other, the first again after the last. After each
/// turn the game is won if the hand holds the whole deck, and lost if the
/// hand is empty.
pub open spec fn play_from(table: Table, rounds: nat, cap: nat) -> Outcome
    decreases cap - rounds,
{
    if rounds >= cap {
        Outcome { won: false, rounds, table }
    } else {
        let next = after_pile_turn(table, (rounds % PILES as nat) as int);
        if next.hand.len() == DECK_SIZE {
            Outcome { won: true, rounds: rounds + 1, table: next }
        } else if next.hand.len() == 0 {
            Outcome { won: false, rounds: rounds + 1, table: next }
        } else {
            play_from(next, rounds + 1, cap)
        }
    }
}

/// The game played with `deck` as the hand, given up after `passes` passes
/// over the piles.
pub open spec fn outcome_of(deck: Seq<i32>, passes: nat) -> Outcome {
    play_from(dealt(deck), 0, PILES as nat * passes)
}

/// The table of the game played with `deck` once `turns` pile turns have
/// been taken, whether or not the game has ended before.
pub open spec fn table_after(deck: Seq<i32>, turns: nat) -> Table
    decreases turns,
{
    if turns == 0 {
        dealt(deck)
    } else {
        after_pile_turn(
            table_after(deck, (turns - 1) as nat),
            ((turns - 1) as nat % PILES as nat) as int,
        )
    }
}

/// The cards on each of `boards`, pile by pile.
pub open spec fn piles(boards: Seq<CardStack>) -> Seq<Seq<i32>> {
    Seq::new(boards.len(), |i: int| boards[i]@)
}

/// The table that holds `hand` and the cards of `boards`.
pub open spec fn table_of(hand: Seq<i32>, boards: Seq<CardStack>) -> Table {
    Table { hand, boards: piles(boards) }
}

/// Settling a pile moves cards from it to the hand and neither adds nor
/// loses one.
pub proof fn lemma_settled_keeps_cards(hand: Seq<i32>, board: Seq<i32>)
    ensures
        settled(hand, board).0.len() + settled(hand, board).1.len() == hand.len() + board.len(),
        same_cards(hand + board, settled(hand, board).0 + settled(hand, board).1),
        matching_window(settled(hand, board).1).is_none(),
    decreases board.len(),
{
    lemma_turn_keeps_cards(hand, board);
    if matching_window(board).is_some() {
        lemma_settled_keeps_cards(hand_after_turn(hand, board), board_after_turn(board));
    }
}

/// The turn of a pile moves cards between it and the hand and neither adds
/// nor loses one.
pub proof fn lemma_drawn_keeps_cards(hand: Seq<i32>, board: Seq<i32>)
    ensures
        drawn_and_settled(hand, board).0.len() + drawn_and_settled(hand, board).1.len()
            == hand.len() + board.len(),
        same_cards(
            hand + board,
            drawn_and_settled(hand, board).0 + drawn_and_settled(hand, board).1,
        ),
{
    if board.len() > 0 && hand.len() > 0 {
        let rest = hand.drop_first();
        let top = Seq::<i32>::empty().push(hand[0]);
        lemma_settled_keeps_cards(rest, board.push(hand[0]));
        assert(hand =~= top + rest);
        assert(board.push(hand[0]) =~= board + top);
        vstd::seq_lib::lemma_multiset_commutative(top, rest);
        vstd::seq_lib::lemma_multiset_commutative(hand, board);
        vstd::seq_lib::lemma_multiset_commutative(board, top);
        vstd::seq_lib::lemma_multiset_commutative(rest, board + top);
        assert((hand + board).to_multiset() =~= (rest + board.push(hand[0])).to_multiset());
    }
}

/// Replacing pile `i` changes the number of cards on the first `n` piles by
/// the difference in size of the two piles, where pile `i` is among them.
proof fn lemma_cards_on_update(boards: Seq<Seq<i32>>, i: int, pile: Seq<i32>, n: nat)
    requires
        0 <= i < boards.len(),
        n <= boards.len(),
    ensures
        cards_on(boards.update(i, pile), n) == if i < n {
            cards_on(boards, n) - boards[i].len() + pile.len()
        } else {
            cards_on(boards, n) as int
        },
        i < n ==> cards_on(boards, n) >= boards[i].len(),
    decreases n,
{
    if n > 0 {
        lemma_cards_on_update(boards, i, pile, (n - 1) as nat);
    }
}

/// The turn of a pile keeps the number of piles and the number of cards on
/// the table.
pub proof fn lemma_pile_turn_keeps_total(table: Table, i: int)
    requires
        0 <= i < table.boards.len(),
    ensures
        after_pile_turn(table, i).boards.len() == table.boards.len(),
        total_cards(after_pile_turn(table, i)) == total_cards(table),
{
    let moved = drawn_and_settled(table.hand, table.boards[i]);
    lemma_drawn_keeps_cards(table.hand, table.boards[i]);
    lemma_cards_on_update(table.boards, i, moved.1, table.boards.len());
}

/// The deal lays out six piles and keeps every card of the deck on the
/// table.
pub proof fn lemma_dealt_total(deck: Seq<i32>)
    requires
        deck.len() >= PILES,
    ensures
        dealt(deck).boards.len() == PILES,
        total_cards(dealt(deck)) == deck.len(),
        table_cards(dealt(deck)) == deck.to_multiset(),
{
    reveal_with_fuel(cards_on, 7);
    lemma_dealt_prefix(deck, PILES as nat);
    let rest = deck.subrange(PILES as int, deck.len() as int);
    assert(deck =~= deck.subrange(0, PILES as int) + rest);
    vstd::seq_lib::lemma_multiset_commutative(deck.subrange(0, PILES as int), rest);
    assert(table_cards(dealt(deck)) =~= deck.to_multiset());
}

/// The first `n` piles after the deal hold the first `n` cards of the deck.
proof fn lemma_dealt_prefix(deck: Seq<i32>, n: nat)
    requires
        n <= PILES <= deck.len(),
    ensures
        cards_of_piles(dealt(deck).boards, n) == deck.subrange(0, n as int).to_multiset(),
    decreases n,
{
    broadcast use vstd::seq_lib::group_to_multiset_ensures;

    if n == 0 {
        assert(deck.subrange(0, 0).to_multiset() =~= Multiset::<i32>::empty());
    } else {
        lemma_dealt_prefix(deck, (n - 1) as nat);
        let before = deck.subrange(0, n - 1);
        let pile = Seq::<i32>::empty().push(deck[n - 1]);
        assert(dealt(deck).boards[n - 1] == pile);
        assert(deck.subrange(0, n as int) =~= before + pile);
        vstd::seq_lib::lemma_multiset_commutative(before, pile);
    }
}

/// Replacing pile `i` takes the cards of the old pile from those on the
/// first `n` piles and adds the cards of the new one, where pile `i` is
/// among them.
proof fn lemma_cards_of_piles_update(boards: Seq<Seq<i32>>, i: int, pile: Seq<i32>, n: nat)
    requires
        0 <= i < boards.len(),
        n <= boards.len(),
    ensures
        i < n ==> cards_of_piles(boards.update(i, pile), n).add(boards[i].to_multiset())
            == cards_of_piles(boards, n).add(pile.to_multiset()),
        i >= n ==> cards_of_piles(boards.update(i, pile), n) == cards_of_piles(boards, n),
    decreases n,
{
    if n > 0 {
        lemma_cards_of_piles_update(boards, i, pile, (n - 1) as nat);
        if i < n {
            let changed = boards.update(i, pile);
            let old_pile = boards[i].to_multiset();
            let new_pile = pile.to_multiset();
            assert forall|v: i32|
                cards_of_piles(changed, n).add(old_pile).count(v) == cards_of_piles(
                    boards,
                    n,
                ).add(new_pile).count(v) by {
                if i < n - 1 {
                    assert(cards_of_piles(changed, (n - 1) as nat).add(old_pile).count(v)
                        == cards_of_piles(boards, (n - 1) as nat).add(new_pile).count(v));
                }
            }
            assert(cards_of_piles(changed, n).add(old_pile) =~= cards_of_piles(boards, n).add(
                new_pile,
            ));
        } else {
            assert(cards_of_piles(boards.update(i, pile), n) =~= cards_of_piles(boards, n));
        }
    }
}

/// The turn of a pile leaves on the table the cards that were on it.
pub proof fn lemma_pile_turn_keeps_cards(table: Table, i: int)
    requires
        0 <= i < table.boards.len(),
    ensures
        table_cards(after_pile_turn(table, i)) == table_cards(table),
{
    let hand = table.hand;
    let board = table.boards[i];
    let moved = drawn_and_settled(hand, board);
    lemma_drawn_keeps_cards(hand, board);
    lemma_cards_of_piles_update(table.boards, i, moved.1, table.boards.len());
    vstd::seq_lib::lemma_multiset_commutative(hand, board);
    vstd::seq_lib::lemma_multiset_commutative(moved.0, moved.1);
    let n = table.boards.len();
    let changed = table.boards.update(i, moved.1);
    assert forall|v: i32|
        table_cards(after_pile_turn(table, i)).count(v) == table_cards(table).count(v) by {
        assert(cards_of_piles(changed, n).add(board.to_multiset()).count(v) == cards_of_piles(
            table.boards,
            n,
        ).add(moved.1.to_multiset()).count(v));
        assert(hand.to_multiset().add(board.to_multiset()).count(v) == moved.0.to_multiset().add(
            moved.1.to_multiset(),
        ).count(v));
    }
    assert(table_cards(after_pile_turn(table, i)) =~= table_cards(table));
}

/// At every point of a game, however many pile turns have been taken, the
/// hand and the six piles together hold as many cards as the deck had, and
/// the very cards of the deck.
pub proof fn lemma_total_at_every_turn(deck: Seq<i32>, turns: nat)
    requires
        deck.len() >= PILES,
    ensures
        table_after(deck, turns).boards.len() == PILES,
        total_cards(table_after(deck, turns)) == deck.len(),
        table_cards(table_after(deck, turns)) == deck.to_multiset(),
    decreases turns,
{
    if turns == 0 {
        lemma_dealt_total(deck);
    } else {
        let before = table_after(deck, (turns - 1) as nat);
        lemma_total_at_every_turn(deck, (turns - 1) as nat);
        lemma_pile_turn_keeps_total(before, ((turns - 1) as nat % PILES as nat) as int);
        lemma_pile_turn_keeps_cards(before, ((turns - 1) as nat % PILES as nat) as int);
    }
}

/// What holds of a game continued from the table that `rounds` pile turns
/// have led to.
proof fn lemma_play_from(deck: Seq<i32>, rounds: nat, cap: nat)
    requires
        rounds <= cap,
    ensures
        ({
            let end = play_from(table_after(deck, rounds), rounds, cap);
            &&& rounds <= end.rounds <= cap
            &&& end.table == table_after(deck, end.rounds)
            &&& end.won ==> end.table.hand.len() == DECK_SIZE
            &&& !end.won && end.rounds < cap ==> end.table.hand.len() == 0
            &&& end.rounds < cap ==> end.rounds > rounds
            &&& forall|earlier: nat|
                rounds < earlier < end.rounds ==> {
                    let hand = #[trigger] table_after(deck, earlier).hand;
                    hand.len() != DECK_SIZE && hand.len() != 0
                }
        }),
    decreases cap - rounds,
{
    if rounds < cap {
        let next = table_after(deck, rounds + 1);
        assert(next == after_pile_turn(
            table_after(deck, rounds),
            (rounds % PILES as nat) as int,
        ));
        if next.hand.len() != DECK_SIZE && next.hand.len() != 0 {
            lemma_play_from(deck, rounds + 1, cap);
        }
    }
}

/// A game takes no more pile turns than the limit allows, and ends with the
/// table that those turns lead to; so hand and piles then hold the 52 cards
/// of the deck, and no others.
pub proof fn lemma_game_bounded(deck: Seq<i32>, passes: nat)
    requires
        deck.len() == DECK_SIZE,
    ensures
        outcome_of(deck, passes).rounds <= PILES * passes,
        outcome_of(deck, passes).table == table_after(deck, outcome_of(deck, passes).rounds),
        total_cards(outcome_of(deck, passes).table) == DECK_SIZE,
        table_cards(outcome_of(deck, passes).table) == deck.to_multiset(),
{
    lemma_play_from(deck, 0, PILES as nat * passes);
    lemma_total_at_every_turn(deck, outcome_of(deck, passes).rounds);
}

/// A game that is won ends with all 52 cards in the hand and none on the
/// piles. A game that is not won and ends before the limit of pile turns
/// ends with an empty hand; one that ends at the limit may hold cards in
/// the hand and on the piles.
pub proof fn lemma_game_end(deck: Seq<i32>, passes: nat)
    requires
        deck.len() == DECK_SIZE,
    ensures
        outcome_of(deck, passes).won ==> outcome_of(deck, passes).table.hand.len() == DECK_SIZE
            && cards_on(outcome_of(deck, passes).table.boards, PILES as nat) == 0,
        !outcome_of(deck, passes).won && outcome_of(deck, passes).rounds < PILES * passes
            ==> outcome_of(deck, passes).table.hand.len() == 0,
{
    lemma_play_from(deck, 0, PILES as nat * passes);
    lemma_game_bounded(deck, passes);
    lemma_total_at_every_turn(deck, outcome_of(deck, passes).rounds);
}

/// A game goes on while it is undecided: after every pile turn before the
/// last one counted, the hand held neither the whole deck nor nothing.
pub proof fn lemma_game_runs_until_decided(deck: Seq<i32>, passes: nat, earlier: nat)
    requires
        0 < earlier < outcome_of(deck, passes).rounds,
    ensures
        table_after(deck, earlier).hand.len() != DECK_SIZE,
        table_after(deck, earlier).hand.len() != 0,
{
    lemma_play_from(deck, 0, PILES as nat * passes);
}

/// Collects matches from `board` into `hand`, one after the other, until
/// the board offers none.
pub fn settle(hand: &mut CardStack, board: &mut CardStack)
    ensures
        (final(hand)@, final(board)@) == settled(old(hand)@, old(board)@),
        final(hand)@.len() + final(board)@.len() == old(hand)@.len() + old(board)@.len(),
        same_cards(old(hand)@ + old(board)@, final(hand)@ + final(board)@),
        matching_window(final(board)@).is_none(),
{
    proof {
        lemma_settled_keeps_cards(old(hand)@, old(board)@);
    }
    loop
        invariant
            settled(hand@, board@) == settled(old(hand)@, old(board)@),
        ensures
            (hand@, board@) == settled(old(hand)@, old(board)@),
        decreases board@.len(),
    {
        proof {
            lemma_turn_keeps_cards(hand@, board@);
        }
        let matched = turn(hand, board);
        if !matched {
            break ;
        }
    }
}

/// The turn of one pile: where the pile and the hand both hold a card, the
/// front card of the hand is dealt onto the back of the pile, and the pile
/// is settled. An empty pile gets no card.
pub fn pile_turn(hand: &mut CardStack, board: &mut CardStack)
    ensures
        (final(hand)@, final(board)@) == drawn_and_settled(old(hand)@, old(board)@),
        final(hand)@.len() + final(board)@.len() == old(hand)@.len() + old(board)@.len(),
        same_cards(old(hand)@ + old(board)@, final(hand)@ + final(board)@),
{
    proof {
        lemma_drawn_keeps_cards(old(hand)@, old(board)@);
    }
    if board.len() > 0 {
        if let Ok(card) = hand.pop_front() {
            board.push_back(card);
            settle(hand, board);
        }
    }
}

/// Deals the front card of `hand` to each of six new piles, the first card
/// to the first pile.
pub fn deal(hand: &mut CardStack) -> (boards: Vec<CardStack>)
    requires
        old(hand)@.len() >= PILES,
    ensures
        boards@.len() == PILES,
        table_of(final(hand)@, boards@) == dealt(old(hand)@),
{
    let mut boards: Vec<CardStack> = Vec::new();
    let mut i: usize = 0;
    while i < PILES
        invariant
            i <= PILES <= old(hand)@.len(),
            boards@.len() == i,
            hand@ == old(hand)@.subrange(i as int, old(hand)@.len() as int),
            forall|j: int| 0 <= j < i ==> (#[trigger] boards@[j])@ == Seq::<i32>::empty().push(old(hand)@[j]),
        decreases PILES - i,
    {
        let mut pile = CardStack::empty();
        if let Ok(card) = hand.pop_front() {
            pile.push_front(card);
            assert(pile@ =~= Seq::<i32>::empty().push(card));
        }
        boards.push(pile);
        i += 1;
        assert(hand@ =~= old(hand)@.subrange(i as int, old(hand)@.len() as int));
    }
    assert(piles(boards@) =~= dealt(old(hand)@).boards);
    boards
}

/// A game that has ended: whether it was won, the number of pile turns
/// counted, and the hand and the piles as they then lay.
pub struct Finished {
    pub won: bool,
    pub rounds: usize,
    pub hand: CardStack,
    pub boards: Vec<CardStack>,
}

/// Plays one game with `deck` as the hand and gives how it ended. After the
/// deal the piles take their turns in a fixed round; each turn counts, that
/// of an empty pile too. The game is won when, after a turn, the hand holds
/// the whole deck again, and lost when the hand is then empty. After
/// `max_passes` passes over the piles the game is given up: it counts as not
/// won, with `PILES * max_passes` turns.
pub fn play_out(deck: CardStack, max_passes: usize) -> (end: Finished)
    requires
        deck@.len() == DECK_SIZE,
        PILES * max_passes <= usize::MAX,
    ensures
        end.won == outcome_of(deck@, max_passes as nat).won,
        end.rounds == outcome_of(deck@, max_passes as nat).rounds,
        table_of(end.hand@, end.boards@) == outcome_of(deck@, max_passes as nat).table,
        end.rounds <= PILES * max_passes,
        end.boards@.len() == PILES,
        total_cards(table_of(end.hand@, end.boards@)) == DECK_SIZE,
        table_cards(table_of(end.hand@, end.boards@)) == deck@.to_multiset(),
        end.won ==> end.hand@.len() == DECK_SIZE,
        !end.won && end.rounds < PILES * max_passes ==> end.hand@.len() == 0,
{
    let ghost cap = PILES as nat * max_passes as nat;
    let ghost goal = outcome_of(deck@, max_passes as nat);
    proof {
        lemma_game_bounded(deck@, max_passes as nat);
    }
    let mut hand = deck;
    let mut boards = deal(&mut hand);
    let mut rounds: usize = 0;
    let mut pass: usize = 0;
    while pass < max_passes
        invariant
            pass <= max_passes,
            cap == PILES * max_passes,
            cap <= usize::MAX,
            deck@.len() == DECK_SIZE,
            goal == outcome_of(deck@, max_passes as nat),
            rounds == PILES * pass,
            boards@.len() == PILES,
            play_from(table_of(hand@, boards@), rounds as nat, cap) == goal,
        decreases max_passes - pass,
    {
        let mut i: usize = 0;
        while i < PILES
            invariant
                i <= PILES,
                pass < max_passes,
                cap == PILES * max_passes,
                cap <= usize::MAX,
                deck@.len() == DECK_SIZE,
                goal == outcome_of(deck@, max_passes as nat),
                rounds == PILES * pass + i,
                boards@.len() == PILES,
                play_from(table_of(hand@, boards@), rounds as nat, cap) == goal,
            decreases PILES - i,
        {
            let ghost before = table_of(hand@, boards@);
            assert(rounds as nat % PILES as nat == i);
            rounds += 1;
            pile_turn(&mut hand, &mut boards[i]);
            assert(table_of(hand@, boards@) == after_pile_turn(before, i as int)) by {
                assert(piles(boards@) =~= before.boards.update(i as int, boards@[i as int]@));
            }
            let in_hand = hand.len();
            if in_hand == DECK_SIZE || in_hand == 0 {
                proof {
                    lemma_game_bounded(deck@, max_passes as nat);
                }
                return Finished { won: in_hand == DECK_SIZE, rounds, hand, boards };
            }
            i += 1;
        }
        pass += 1;
    }
    Finished { won: false, rounds, hand, boards }
}

/// Plays one game with `deck` as the hand and gives whether it was won and
/// the number of pile turns counted: those of `play_out`.
pub fn play(deck: CardStack, max_passes: usize) -> (result: (bool, usize))
    requires
        deck@.len() == DECK_SIZE,
        PILES * max_passes <= usize::MAX,
    ensures
        result.0 == outcome_of(deck@, max_passes as nat).won,
        result.1 == outcome_of(deck@, max_passes as nat).rounds,
        result.1 <= PILES * max_passes,
{
    let end = play_out(deck, max_passes);
    (end.won, end.rounds)
}

/// Whether `won` and `rounds` are the result of a game played with the
/// cards of the full deck in some order, given up after `MAX_PASSES` passes.
pub open spec fn is_game_result(won: bool, rounds: nat) -> bool {
    exists|deck: Seq<i32>| #[trigger]
        same_cards(deck_cards(), deck) && won == outcome_of(deck, MAX_PASSES as nat).won
            && rounds == outcome_of(deck, MAX_PASSES as nat).rounds
}

/// Plays one game with a full deck that the generator `rng` shuffles, given
/// up after `MAX_PASSES` passes. The result is that of `play` on some order
/// of the full deck's cards; which order, the generator decides.
pub fn simulate_one_game(rng: &mut ThreadRng) -> (result: (bool, usize))
    ensures
        is_game_result(result.0, result.1 as nat),
        result.1 <= PILES * MAX_PASSES,
{
    let hand = CardStack::full_deck().shuffle_with(rng);
    play(hand, MAX_PASSES)
}

/// Plays one game with a full deck, shuffled by the calling thread's random
/// generator, given up after `MAX_PASSES` passes.
pub fn game() -> (result: (bool, usize))
    ensures
        is_game_result(result.0, result.1 as nat),
        result.1 <= PILES * MAX_PASSES,
{
    let mut rng = thread_generator();
    simulate_one_game(&mut rng)
}

} // verus!
