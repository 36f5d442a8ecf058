//! The matching rule: three cards that sum to ten, twenty or thirty leave a
//! board pile for the hand.

use crate::stack::{same_cards, CardStack};
use vstd::prelude::*;

verus! {

/// Whether a sum of three cards lets them be collected.
pub open spec fn is_target(sum: int) -> bool {
    sum == 10 || sum == 20 || sum == 30
}

/// The sum of the window that takes `k` cards from the back of `board` and
/// the other `3 - k` from its front.
pub open spec fn window_sum(board: Seq<i32>, k: int) -> int
    recommends
        board.len() >= 3,
        0 <= k <= 3,
{
    let n = board.len() as int;
    if k == 0 {
        board[0] + board[1] + board[2]
    } else if k == 1 {
        board[0] + board[1] + board[n - 1]
    } else if k == 2 {
        board[0] + board[n - 2] + board[n - 1]
    } else {
        board[n - 3] + board[n - 2] + board[n - 1]
    }
}

/// The window that matches on `board`, given as the number of cards it takes
/// from the back: the first of 0, 1, 2, 3 whose window sums to a target.
/// `None` where the board has fewer than three cards or no window matches.
pub open spec fn matching_window(board: Seq<i32>) -> Option<int> {
    if board.len() < 3 {
        None
    } else if is_target(window_sum(board, 0)) {
        Some(0int)
    } else if is_target(window_sum(board, 1)) {
        Some(1int)
    } else if is_target(window_sum(board, 2)) {
        Some(2int)
    } else if is_target(window_sum(board, 3)) {
        Some(3int)
    } else {
        None
    }
}

/// The cards of the window with `k` back cards, in the order in which the
/// hand receives them: the back cards first, oldest first, then the front
/// cards, oldest first.
pub open spec fn collected(board: Seq<i32>, k: int) -> Seq<i32>
    recommends
        board.len() >= 3,
        0 <= k <= 3,
{
    board.subrange(board.len() - k, board.len() as int) + board.subrange(0, 3 - k)
}

/// What stays on the board once the window with `k` back cards has left.
pub open spec fn remaining(board: Seq<i32>, k: int) -> Seq<i32>
    recommends
        board.len() >= 3,
        0 <= k <= 3,
{
    board.subrange(3 - k, board.len() - k)
}

/// The hand after one attempt to match on `board`.
pub open spec fn hand_after_turn(hand: Seq<i32>, board: Seq<i32>) -> Seq<i32> {
    match matching_window(board) {
        Some(k) => hand + collected(board, k),
        None => hand,
    }
}

/// The board after one attempt to match on it.
pub open spec fn board_after_turn(board: Seq<i32>) -> Seq<i32> {
    match matching_window(board) {
        Some(k) => remaining(board, k),
        None => board,
    }
}

/// The cards of a window and the cards it leaves are, with the hand, the
/// cards that hand and board held before.
pub proof fn lemma_window_keeps_cards(hand: Seq<i32>, board: Seq<i32>, k: int)
    requires
        board.len() >= 3,
        0 <= k <= 3,
    ensures
        same_cards(hand + board, (hand + collected(board, k)) + remaining(board, k)),
        collected(board, k).len() == 3,
        remaining(board, k).len() == board.len() - 3,
{
    let n = board.len() as int;
    let front = board.subrange(0, 3 - k);
    let middle = board.subrange(3 - k, n - k);
    let back = board.subrange(n - k, n);
    assert(board =~= (front + middle) + back);
    vstd::seq_lib::lemma_multiset_commutative(front, middle);
    vstd::seq_lib::lemma_multiset_commutative(front + middle, back);
    vstd::seq_lib::lemma_multiset_commutative(back, front);
    vstd::seq_lib::lemma_multiset_commutative(hand, board);
    vstd::seq_lib::lemma_multiset_commutative(hand, back + front);
    vstd::seq_lib::lemma_multiset_commutative(hand + (back + front), middle);
    assert((hand + board).to_multiset() =~= ((hand + (back + front)) + middle).to_multiset());
}

/// One attempt to match moves cards from the board to the hand and neither
/// adds nor loses one; a match moves exactly three.
pub proof fn lemma_turn_keeps_cards(hand: Seq<i32>, board: Seq<i32>)
    ensures
        same_cards(hand + board, hand_after_turn(hand, board) + board_after_turn(board)),
        hand_after_turn(hand, board).len() + board_after_turn(board).len() == hand.len()
            + board.len(),
        matching_window(board).is_some() ==> board_after_turn(board).len() == board.len() - 3,
{
    match matching_window(board) {
        Some(k) => {
            lemma_window_keeps_cards(hand, board, k);
        },
        None => {},
    }
}

/// What one attempt to match may do: the relation between the piles before,
/// the answer, and the piles after.
pub open spec fn turn_outcome(
    hand: Seq<i32>,
    board: Seq<i32>,
    matched: bool,
    hand_after: Seq<i32>,
    board_after: Seq<i32>,
) -> bool {
    &&& matched == matching_window(board).is_some()
    &&& hand_after == hand_after_turn(hand, board)
    &&& board_after == board_after_turn(board)
}

/// An attempt to match is determined by the two piles alone: two attempts on
/// equal piles give the same answer and leave equal piles.
pub proof fn lemma_turn_deterministic(
    hand: Seq<i32>,
    board: Seq<i32>,
    matched_a: bool,
    hand_a: Seq<i32>,
    board_a: Seq<i32>,
    matched_b: bool,
    hand_b: Seq<i32>,
    board_b: Seq<i32>,
)
    requires
        turn_outcome(hand, board, matched_a, hand_a, board_a),
        turn_outcome(hand, board, matched_b, hand_b, board_b),
    ensures
        matched_a == matched_b,
        hand_a == hand_b,
        board_a == board_b,
{
}

fn sum_matches(sum: i64) -> (hit: bool)
    ensures
        hit == is_target(sum as int),
{
    sum == 10 || sum == 20 || sum == 30
}

/// Moves the `count` front cards of `board` to the back of `hand`, oldest
/// first.
fn collect_front(hand: &mut CardStack, board: &mut CardStack, count: usize)
    requires
        count <= old(board)@.len(),
    ensures
        final(hand)@ == old(hand)@ + old(board)@.subrange(0, count as int),
        final(board)@ == old(board)@.subrange(count as int, old(board)@.len() as int),
{
    let mut moved: usize = 0;
    while moved < count
        invariant
            moved <= count <= old(board)@.len(),
            hand@ == old(hand)@ + old(board)@.subrange(0, moved as int),
            board@ == old(board)@.subrange(moved as int, old(board)@.len() as int),
        decreases count - moved,
    {
        if let Ok(card) = board.pop_front() {
            hand.push_back(card);
        }
        moved += 1;
        assert(hand@ =~= old(hand)@ + old(board)@.subrange(0, moved as int));
        assert(board@ =~= old(board)@.subrange(moved as int, old(board)@.len() as int));
    }
    assert(hand@ =~= old(hand)@ + old(board)@.subrange(0, count as int));
}

/// Moves the `count` back cards of `board` to the back of `hand`, oldest
/// first.
fn collect_back(hand: &mut CardStack, board: &mut CardStack, count: usize)
    requires
        count <= old(board)@.len(),
    ensures
        final(hand)@ == old(hand)@ + old(board)@.subrange(
            old(board)@.len() - count,
            old(board)@.len() as int,
        ),
        final(board)@ == old(board)@.subrange(0, old(board)@.len() - count),
{
    let len = board.len();
    let first = len - count;
    let mut at: usize = first;
    while at < len
        invariant
            first <= at <= len,
            len == board@.len(),
            board@ == old(board)@,
            hand@ == old(hand)@ + board@.subrange(first as int, at as int),
        decreases len - at,
    {
        hand.push_back(board.get(at));
        at += 1;
        assert(hand@ =~= old(hand)@ + board@.subrange(first as int, at as int));
    }
    let mut dropped: usize = 0;
    while dropped < count
        invariant
            dropped <= count <= len,
            len == old(board)@.len(),
            board@ == old(board)@.subrange(0, len - dropped),
        decreases count - dropped,
    {
        let _ = board.pop_back();
        dropped += 1;
        assert(board@ =~= old(board)@.subrange(0, len - dropped));
    }
}

/// Attempts one match on `board`. The windows are tried in a fixed order:
/// the three front cards; then two front cards with the back card; then one
/// front card with the two back cards; then the three back cards. The cards
/// of the first window that sums to ten, twenty or thirty move to the back
/// of `hand` and the result is `true`. Where the board has fewer than three
/// cards, or no window matches, both piles stay as they are and the result
/// is `false`.
pub fn turn(hand: &mut CardStack, board: &mut CardStack) -> (matched: bool)
    ensures
        turn_outcome(old(hand)@, old(board)@, matched, final(hand)@, final(board)@),
        matched == matching_window(old(board)@).is_some(),
        final(hand)@ == hand_after_turn(old(hand)@, old(board)@),
        final(board)@ == board_after_turn(old(board)@),
        !matched ==> final(hand)@ == old(hand)@ && final(board)@ == old(board)@,
        final(hand)@.len() + final(board)@.len() == old(hand)@.len() + old(board)@.len(),
        same_cards(old(hand)@ + old(board)@, final(hand)@ + final(board)@),
{
    proof {
        lemma_turn_keeps_cards(old(hand)@, old(board)@);
    }
    let len = board.len();
    if len < 3 {
        return false;
    }
    let mut sum: i64 = board.get(0) as i64 + board.get(1) as i64 + board.get(2) as i64;
    if sum_matches(sum) {
        collect_front(hand, board, 3);
        assert(hand@ =~= hand_after_turn(old(hand)@, old(board)@));
        return true;
    }
    let mut idx: usize = 0;
    while idx < 3
        invariant
            idx <= 3 <= len,
            len == board@.len(),
            board@ == old(board)@,
            hand@ == old(hand)@,
            sum == window_sum(board@, idx as int),
            forall|k: int| 0 <= k <= idx ==> !is_target(#[trigger] window_sum(board@, k)),
        decreases 3 - idx,
    {
        sum = sum - board.get(2 - idx) as i64 + board.get(len - 1 - idx) as i64;
        if sum_matches(sum) {
            collect_back(hand, board, idx + 1);
            collect_front(hand, board, 2 - idx);
            proof {
                lemma_turn_keeps_cards(old(hand)@, old(board)@);
            }
            assert(matching_window(old(board)@) == Some(idx + 1));
            assert(hand@ =~= hand_after_turn(old(hand)@, old(board)@));
            assert(board@ =~= board_after_turn(old(board)@));
            return true;
        }
        idx += 1;
    }
    false
}

} // verus!
