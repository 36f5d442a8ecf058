//! A pile of cards that can be extended and reduced at both ends.

use rand::rngs::ThreadRng;
use rand::seq::SliceRandom;
use std::collections::VecDeque;
use vstd::multiset::Multiset;
use vstd::prelude::*;

verus! {

/// Number of cards in a full deck.
pub const DECK_SIZE: usize = 52;

/// The error of taking a card from a pile that holds none.
#[derive(Debug, Clone, Copy, PartialEq, Eq)]
pub struct EmptyStackError;

/// An ordered pile of card values; index 0 is the front (the oldest card).
#[derive(Debug)]
pub struct CardStack {
    cards: VecDeque<i32>,
}

impl View for CardStack {
    type V = Seq<i32>;

    closed spec fn view(&self) -> Seq<i32> {
        self.cards@
    }
}

/// The thirteen cards of one suit: the ranks one to ten, and a ten for each
/// of the three face cards.
pub open spec fn suit_cards() -> Seq<i32> {
    Seq::<i32>::empty().push(1).push(2).push(3).push(4).push(5).push(6).push(7).push(8).push(
        9,
    ).push(10).push(10).push(10).push(10)
}

/// `n` suits, one after the other.
pub open spec fn suits(n: nat) -> Seq<i32>
    decreases n,
{
    if n == 0 {
        Seq::empty()
    } else {
        suits((n - 1) as nat) + suit_cards()
    }
}

/// The unshuffled deck: four suits.
pub open spec fn deck_cards() -> Seq<i32> {
    suits(4)
}

/// How often the value `v` occurs among `cards`.
pub open spec fn occurrences(cards: Seq<i32>, v: i32) -> nat {
    cards.to_multiset().count(v)
}

/// Whether `b` holds the same cards as `a`, each as often, in any order.
pub open spec fn same_cards(a: Seq<i32>, b: Seq<i32>) -> bool {
    a.to_multiset() == b.to_multiset()
}

/// `rand::rngs::ThreadRng`, the handle of the calling thread's generator.
#[verifier::external_type_specification]
#[verifier::external_body]
pub struct ExThreadRng(ThreadRng);

/// Calls `rand::thread_rng`, which hands out the calling thread's generator.
/// Nothing is claimed of the handle. The first call on a thread seeds the
/// generator from the operating system and stops the program if the system
/// gives no seed.
#[verifier::external_body]
pub(crate) fn thread_generator() -> (rng: ThreadRng) {
    rand::thread_rng()
}

/// Calls `rand::seq::SliceRandom::shuffle` on the whole vector. The method
/// only swaps pairs of elements, at places the generator picks, so the vector
/// afterwards holds the same values as before, each as often; of their order
/// nothing is claimed.
#[verifier::external_body]
fn shuffle_in_place(cards: &mut Vec<i32>, rng: &mut ThreadRng)
    ensures
        same_cards(old(cards)@, final(cards)@),
{
    cards.shuffle(rng);
}

/// A sequence has as many elements as its multiset.
proof fn same_cards_same_len(a: Seq<i32>, b: Seq<i32>)
    requires
        same_cards(a, b),
    ensures
        a.len() == b.len(),
{
    vstd::seq_lib::to_multiset_len(a);
    vstd::seq_lib::to_multiset_len(b);
}

/// One suit holds each of the values one to nine once, and the value ten
/// four times.
proof fn lemma_suit_counts()
    ensures
        suit_cards().len() == 13,
        occurrences(suit_cards(), 10) == 4,
        forall|v: i32| 1 <= v <= 9 ==> occurrences(suit_cards(), v) == 1,
        forall|v: i32| v < 1 || v > 10 ==> occurrences(suit_cards(), v) == 0,
{
    broadcast use vstd::seq_lib::group_to_multiset_ensures;

    assert(Seq::<i32>::empty().to_multiset() =~= Multiset::<i32>::empty());
}

/// `n` suits hold `n` times what one suit holds.
proof fn lemma_suits_counts(n: nat)
    ensures
        suits(n).len() == 13 * n,
        occurrences(suits(n), 10) == 4 * n,
        forall|v: i32| 1 <= v <= 9 ==> occurrences(suits(n), v) == n,
        forall|v: i32| v < 1 || v > 10 ==> occurrences(suits(n), v) == 0,
    decreases n,
{
    lemma_suit_counts();
    if n == 0 {
        broadcast use vstd::seq_lib::group_to_multiset_ensures;

        assert(Seq::<i32>::empty().to_multiset() =~= Multiset::<i32>::empty());
    } else {
        let before = suits((n - 1) as nat);
        lemma_suits_counts((n - 1) as nat);
        vstd::seq_lib::lemma_multiset_commutative(before, suit_cards());
        assert forall|v: i32| #[trigger]
            occurrences(suits(n), v) == occurrences(before, v) + occurrences(suit_cards(), v) by {
            assert(suits(n).to_multiset() == before.to_multiset().add(
                suit_cards().to_multiset(),
            ));
        }
    }
}

/// The full deck has 52 cards: four of each value from one to nine, and
/// sixteen of the value ten.
pub proof fn lemma_deck_counts()
    ensures
        deck_cards().len() == 52,
        occurrences(deck_cards(), 10) == 16,
        forall|v: i32| 1 <= v <= 9 ==> occurrences(deck_cards(), v) == 4,
        forall|v: i32| v < 1 || v > 10 ==> occurrences(deck_cards(), v) == 0,
{
    lemma_suits_counts(4);
}

impl CardStack {
    /// A pile without cards.
    pub fn empty() -> (stack: Self)
        ensures
            stack@ == Seq::<i32>::empty(),
    {
        CardStack { cards: VecDeque::new() }
    }

    /// The unshuffled deck of 52 cards: four suits, each the ranks one to
    /// ten in rising order followed by three more tens.
    pub fn full_deck() -> (deck: Self)
        ensures
            deck@ == deck_cards(),
            deck@.len() == DECK_SIZE,
            occurrences(deck@, 10) == 16,
            forall|v: i32| 1 <= v <= 9 ==> occurrences(deck@, v) == 4,
            forall|v: i32| v < 1 || v > 10 ==> occurrences(deck@, v) == 0,
    {
        let mut cards: VecDeque<i32> = VecDeque::new();
        let mut suit: usize = 0;
        while suit < 4
            invariant
                suit <= 4,
                cards@ == suits(suit as nat),
            decreases 4 - suit,
        {
            let mut rank: i32 = 1;
            while rank <= 10
                invariant
                    1 <= rank <= 11,
                    cards@ == suits(suit as nat) + suit_cards().subrange(0, rank - 1),
                decreases 11 - rank,
            {
                cards.push_back(rank);
                rank += 1;
                assert(cards@ =~= suits(suit as nat) + suit_cards().subrange(0, rank - 1));
            }
            cards.push_back(10);
            cards.push_back(10);
            cards.push_back(10);
            suit += 1;
            assert(cards@ =~= suits((suit - 1) as nat) + suit_cards());
        }
        proof {
            lemma_deck_counts();
        }
        CardStack { cards }
    }

    /// The same cards in an order that the calling thread's random generator
    /// picks. Each card of the pile is in the result as often as it was in
    /// the pile, and no other card is.
    pub fn shuffle(self) -> (shuffled: CardStack)
        ensures
            same_cards(self@, shuffled@),
            shuffled@.len() == self@.len(),
    {
        let mut rng = thread_generator();
        self.shuffle_with(&mut rng)
    }

    /// The same cards in an order that the generator `rng` picks. Each card
    /// of the pile is in the result as often as it was in the pile, and no
    /// other card is.
    pub fn shuffle_with(self, rng: &mut ThreadRng) -> (shuffled: CardStack)
        ensures
            same_cards(self@, shuffled@),
            shuffled@.len() == self@.len(),
    {
        let mut source = self.cards;
        let mut cards: Vec<i32> = Vec::new();
        loop
            invariant
                cards@ + source@ == self@,
            ensures
                cards@ == self@,
            decreases source@.len(),
        {
            match source.pop_front() {
                Some(card) => {
                    cards.push(card);
                    assert(cards@ + source@ =~= self@);
                },
                None => {
                    assert(cards@ =~= self@);
                    break ;
                },
            }
        }
        shuffle_in_place(&mut cards, rng);
        proof {
            same_cards_same_len(self@, cards@);
        }
        let mut shuffled: VecDeque<i32> = VecDeque::new();
        let mut at: usize = 0;
        while at < cards.len()
            invariant
                at <= cards.len(),
                shuffled@ == cards@.subrange(0, at as int),
            decreases cards.len() - at,
        {
            shuffled.push_back(cards[at]);
            at += 1;
            assert(shuffled@ =~= cards@.subrange(0, at as int));
        }
        assert(shuffled@ =~= cards@);
        CardStack { cards: shuffled }
    }

    /// The number of cards in the pile.
    pub fn len(&self) -> (n: usize)
        ensures
            n == self@.len(),
    {
        self.cards.len()
    }

    /// The card at place `i`, counted from the front.
    pub fn get(&self, i: usize) -> (card: i32)
        requires
            i < self@.len(),
        ensures
            card == self@[i as int],
    {
        self.cards[i]
    }

    /// Puts `card` in front of all others.
    pub fn push_front(&mut self, card: i32)
        ensures
            final(self)@ == seq![card] + old(self)@,
            final(self)@.len() == old(self)@.len() + 1,
    {
        self.cards.push_front(card);
    }

    /// Puts `card` behind all others.
    pub fn push_back(&mut self, card: i32)
        ensures
            final(self)@ == old(self)@.push(card),
            final(self)@.len() == old(self)@.len() + 1,
    {
        self.cards.push_back(card);
    }

    /// Takes the front card off the pile; fails, and leaves the pile as it
    /// is, exactly when the pile is empty.
    pub fn pop_front(&mut self) -> (taken: Result<i32, EmptyStackError>)
        ensures
            old(self)@.len() == 0 ==> taken.is_err() && final(self)@ == old(self)@,
            old(self)@.len() > 0 ==> taken == Ok::<i32, EmptyStackError>(old(self)@[0])
                && final(self)@ == old(self)@.drop_first(),
    {
        match self.cards.pop_front() {
            Some(card) => Ok(card),
            None => Err(EmptyStackError),
        }
    }

    /// Takes the back card off the pile; fails, and leaves the pile as it
    /// is, exactly when the pile is empty.
    pub fn pop_back(&mut self) -> (taken: Result<i32, EmptyStackError>)
        ensures
            old(self)@.len() == 0 ==> taken.is_err() && final(self)@ == old(self)@,
            old(self)@.len() > 0 ==> taken == Ok::<i32, EmptyStackError>(old(self)@.last())
                && final(self)@ == old(self)@.drop_last(),
    {
        match self.cards.pop_back() {
            Some(card) => Ok(card),
            None => Err(EmptyStackError),
        }
    }
}

} // verus!
