//! Running figures over many games: wins, rounds, and how often each number
//! of rounds occurred.

use crate::engine::{MAX_PASSES, PILES};
use vstd::prelude::*;

verus! {

/// The number of rounds that marks a game as given up.
pub const GIVEN_UP: usize = PILES * MAX_PASSES;

/// What stands for the fewest rounds of the won games, or of the lost ones,
/// while none was recorded: a number above every possible one.
pub const NO_GAME_YET: usize = 100000;

/// Figures over the games recorded so far. Games that were given up count
/// as games, and as neither won nor lost in the figures on rounds.
pub struct Tally {
    /// Games recorded.
    pub games: u64,
    /// Games won.
    pub wins: u64,
    /// Rounds of all games that were not given up, added up.
    pub rounds: u64,
    /// Fewest rounds of a won game.
    pub win_min_rounds: usize,
    /// Most rounds of a won game.
    pub win_max_rounds: usize,
    /// Fewest rounds of a lost game.
    pub los_min_rounds: usize,
    /// Most rounds of a lost game.
    pub los_max_rounds: usize,
    /// At place `r`, the number of games that ended after `r` rounds.
    pub dist: Vec<u64>,
}

/// The smaller of two numbers.
pub open spec fn lesser(a: int, b: int) -> int {
    if a <= b {
        a
    } else {
        b
    }
}

/// The larger of two numbers.
pub open spec fn greater(a: int, b: int) -> int {
    if a >= b {
        a
    } else {
        b
    }
}

/// Whether every entry of `dist` from place `from` on is zero.
pub open spec fn zero_from(dist: Seq<u64>, from: int) -> bool {
    forall|j: int| from <= j < dist.len() ==> dist[j] == 0
}

/// The counts `dist` with one more game of `rounds` rounds.
pub open spec fn counted(dist: Seq<u64>, rounds: int) -> Seq<u64>
    recommends
        0 <= rounds < dist.len(),
{
    dist.update(rounds, (dist[rounds] + 1) as u64)
}

impl Tally {
    /// No count exceeds the number of games, and there is a count for each
    /// number of rounds below `GIVEN_UP`.
    pub open spec fn wf(&self) -> bool {
        &&& self.wins <= self.games
        &&& self.dist@.len() == GIVEN_UP
        &&& forall|r: int| 0 <= r < self.dist@.len() ==> #[trigger] self.dist@[r] <= self.games
    }

    /// The tally of no games.
    pub fn new() -> (tally: Tally)
        ensures
            tally.wf(),
            tally.games == 0,
            tally.wins == 0,
            tally.rounds == 0,
            tally.win_min_rounds == NO_GAME_YET,
            tally.win_max_rounds == 0,
            tally.los_min_rounds == NO_GAME_YET,
            tally.los_max_rounds == 0,
            zero_from(tally.dist@, 0),
    {
        let mut dist: Vec<u64> = Vec::new();
        let mut r: usize = 0;
        while r < GIVEN_UP
            invariant
                r <= GIVEN_UP,
                dist@.len() == r,
                zero_from(dist@, 0),
            decreases GIVEN_UP - r,
        {
            dist.push(0);
            r += 1;
        }
        Tally {
            games: 0,
            wins: 0,
            rounds: 0,
            win_min_rounds: NO_GAME_YET,
            win_max_rounds: 0,
            los_min_rounds: NO_GAME_YET,
            los_max_rounds: 0,
            dist,
        }
    }

    /// Records one game. It counts as a game, and as a win if it was won.
    /// Unless it was given up, its rounds are added to the sum, counted in
    /// `dist`, and held against the fewest and the most of the won games, or
    /// of the lost ones.
    pub fn record(&mut self, won: bool, rounds: usize)
        requires
            old(self).wf(),
            rounds <= GIVEN_UP,
            old(self).games < u64::MAX,
            old(self).rounds + rounds <= u64::MAX,
        ensures
            final(self).wf(),
            final(self).games == old(self).games + 1,
            final(self).wins == old(self).wins + if won { 1int } else { 0int },
            final(self).rounds == old(self).rounds + if rounds != GIVEN_UP {
                rounds as int
            } else {
                0int
            },
            rounds != GIVEN_UP ==> final(self).dist@[rounds as int] == old(self).dist@[rounds as int]
                + 1,
            final(self).dist@ == if rounds != GIVEN_UP {
                counted(old(self).dist@, rounds as int)
            } else {
                old(self).dist@
            },
            final(self).win_min_rounds == if won && rounds != GIVEN_UP {
                lesser(old(self).win_min_rounds as int, rounds as int)
            } else {
                old(self).win_min_rounds as int
            },
            final(self).win_max_rounds == if won && rounds != GIVEN_UP {
                greater(old(self).win_max_rounds as int, rounds as int)
            } else {
                old(self).win_max_rounds as int
            },
            final(self).los_min_rounds == if !won && rounds != GIVEN_UP {
                lesser(old(self).los_min_rounds as int, rounds as int)
            } else {
                old(self).los_min_rounds as int
            },
            final(self).los_max_rounds == if !won && rounds != GIVEN_UP {
                greater(old(self).los_max_rounds as int, rounds as int)
            } else {
                old(self).los_max_rounds as int
            },
    {
        self.games += 1;
        if won {
            self.wins += 1;
        }
        if rounds != GIVEN_UP {
            self.rounds += rounds as u64;
            let seen = self.dist[rounds];
            self.dist[rounds] = seen + 1;
            if won {
                if rounds < self.win_min_rounds {
                    self.win_min_rounds = rounds;
                }
                if rounds > self.win_max_rounds {
                    self.win_max_rounds = rounds;
                }
            } else {
                if rounds < self.los_min_rounds {
                    self.los_min_rounds = rounds;
                }
                if rounds > self.los_max_rounds {
                    self.los_max_rounds = rounds;
                }
            }
        }
    }

    /// The rounds per recorded game, rounded down; games that were given up
    /// add no rounds and count as games.
    pub fn average_rounds(&self) -> (average: u64)
        requires
            self.games > 0,
        ensures
            average == self.rounds / self.games,
    {
        self.rounds / self.games
    }

    /// The counts of `dist` up to the last one that is not zero.
    pub fn trimmed_dist(&self) -> (counts: Vec<u64>)
        ensures
            counts@.len() <= self.dist@.len(),
            counts@ == self.dist@.subrange(0, counts@.len() as int),
            zero_from(self.dist@, counts@.len() as int),
            counts@.len() > 0 ==> counts@.last() != 0,
    {
        let mut keep: usize = self.dist.len();
        while keep > 0 && self.dist[keep - 1] == 0
            invariant
                keep <= self.dist@.len(),
                zero_from(self.dist@, keep as int),
            decreases keep,
        {
            keep -= 1;
        }
        let mut counts: Vec<u64> = Vec::new();
        let mut r: usize = 0;
        while r < keep
            invariant
                r <= keep <= self.dist@.len(),
                counts@ == self.dist@.subrange(0, r as int),
            decreases keep - r,
        {
            counts.push(self.dist[r]);
            r += 1;
            assert(counts@ =~= self.dist@.subrange(0, r as int));
        }
        counts
    }
}

} // verus!
