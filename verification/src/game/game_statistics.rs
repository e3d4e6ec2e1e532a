//! The statistics kept for each word list and word length.
use vstd::prelude::*;
use vstd::string::StringExecFns;

use crate::game::TRIES;
use crate::text::{decimal, usize_to_text};

verus! {

/// The record of the games played with one word list and word length.
#[derive(Debug)]
pub struct GameStatistics {
    pub total_games: usize,
    pub games_won: usize,
    pub current_streak: usize,
    pub longest_streak: usize,
    pub games_won_tries: Vec<usize>,
}

/// How a game ended: won with the given number of tries, or lost.
#[derive(Debug, Clone, Copy, PartialEq, Eq, Structural)]
pub enum Outcome {
    Won(usize),
    Lost,
}

/// The sum of the numbers in `s`.
pub open spec fn sum(s: Seq<usize>) -> int
    decreases s.len(),
{
    if s.len() == 0 {
        0
    } else {
        sum(s.drop_last()) + s.last()
    }
}

proof fn lemma_sum_increment(s: Seq<usize>, i: int, v: usize)
    requires
        0 <= i < s.len(),
        v == s[i] + 1,
    ensures
        sum(s.update(i, v)) == sum(s) + 1,
    decreases s.len(),
{
    if i < s.len() - 1 {
        assert(s.update(i, v).drop_last() =~= s.drop_last().update(i, v));
        lemma_sum_increment(s.drop_last(), i, v);
    } else {
        assert(s.update(i, v).drop_last() =~= s.drop_last());
    }
}

proof fn lemma_sum_zeros(n: nat)
    ensures
        sum(Seq::new(n, |i: int| 0usize)) == 0,
    decreases n,
{
    if n > 0 {
        assert(Seq::new(n, |i: int| 0usize).drop_last() =~= Seq::new((n - 1) as nat, |i: int| 0usize));
        lemma_sum_zeros((n - 1) as nat);
    }
}

/// `new` is the record `old` after a game that ended as `outcome`: one more game; a win
/// adds to the wins, the streak (and the longest streak, if it is passed) and the count
/// for its number of tries; a loss ends the streak.
pub open spec fn recorded(old: GameStatistics, outcome: Outcome, new: GameStatistics) -> bool {
    &&& new.total_games == old.total_games + 1
    &&& new.games_won_tries@.len() == old.games_won_tries@.len()
    &&& match outcome {
        Outcome::Won(tries) => {
            &&& new.games_won == old.games_won + 1
            &&& new.current_streak == old.current_streak + 1
            &&& new.longest_streak == if old.longest_streak >= old.current_streak + 1 {
                old.longest_streak as int
            } else {
                old.current_streak + 1
            }
            &&& new.games_won_tries@[tries - 1] == old.games_won_tries@[tries - 1] + 1
            &&& forall|i: int|
                0 <= i < old.games_won_tries@.len() && i != tries - 1 ==> #[trigger] new.games_won_tries@[i]
                    == old.games_won_tries@[i]
        },
        Outcome::Lost => {
            &&& new.games_won == old.games_won
            &&& new.current_streak == 0
            &&& new.longest_streak == old.longest_streak
            &&& new.games_won_tries@ == old.games_won_tries@
        },
    }
}

/// The record stays consistent: recording a game, won with 1 to 6 tries or lost, in a
/// consistent record gives a consistent record.
pub proof fn law_statistics_stay_consistent(old: GameStatistics, outcome: Outcome, new: GameStatistics)
    requires
        old.wf(),
        recorded(old, outcome, new),
        outcome matches Outcome::Won(tries) ==> 1 <= tries <= TRIES,
    ensures
        new.wf(),
{
    if let Outcome::Won(tries) = outcome {
        let i = tries - 1;
        assert(new.games_won_tries@ =~= old.games_won_tries@.update(i, new.games_won_tries@[i]));
        lemma_sum_increment(old.games_won_tries@, i, new.games_won_tries@[i]);
    }
}

impl Default for GameStatistics {
    /// No games played, and no counts of tries.
    fn default() -> (r: GameStatistics)
        ensures
            r.total_games == 0,
            r.games_won == 0,
            r.current_streak == 0,
            r.longest_streak == 0,
            r.games_won_tries@.len() == 0,
    {
        GameStatistics {
            total_games: 0,
            games_won: 0,
            current_streak: 0,
            longest_streak: 0,
            games_won_tries: Vec::new(),
        }
    }
}

impl GameStatistics {
    /// The record is consistent: no more games won than played, a streak no longer than the
    /// longest one or than the games won, and one count of wins for each number of tries,
    /// adding up to the games won.
    pub open spec fn wf(&self) -> bool {
        &&& self.games_won <= self.total_games
        &&& self.current_streak <= self.longest_streak
        &&& self.longest_streak <= self.games_won
        &&& self.games_won_tries@.len() == TRIES
        &&& sum(self.games_won_tries@) == self.games_won
    }

    /// Records the end of a game: a win adds to the wins, the streak and the count for its
    /// number of tries; a loss ends the streak.
    pub fn update_game_statistics(&mut self, outcome: Outcome)
        requires
            old(self).total_games < usize::MAX,
            outcome matches Outcome::Won(tries) ==> {
                &&& 1 <= tries <= old(self).games_won_tries@.len()
                &&& old(self).games_won < usize::MAX
                &&& old(self).current_streak < usize::MAX
                &&& old(self).games_won_tries@[tries - 1] < usize::MAX
            },
        ensures
            recorded(*old(self), outcome, *final(self)),
            old(self).wf() ==> final(self).wf(),
    {
        self.total_games += 1;
        if let Outcome::Won(tries) = outcome {
            self.games_won += 1;
            self.current_streak += 1;
            if self.current_streak > self.longest_streak {
                self.longest_streak = self.current_streak;
            }
            let ghost before = self.games_won_tries@;
            let count = self.games_won_tries[tries - 1];
            self.games_won_tries.set(tries - 1, count + 1);
            proof {
                lemma_sum_increment(before, tries - 1, (count + 1) as usize);
                assert(self.games_won_tries@ =~= before.update(tries - 1, (count + 1) as usize));
            }
        } else {
            self.current_streak = 0;
        }
    }

    /// The statistics read from their file, or fresh ones when there were none to read.
    pub fn load_game_statistics(loaded: Option<GameStatistics>) -> (r: GameStatistics)
        ensures
            match loaded {
                Some(s) => r == s,
                None => {
                    &&& r == GameStatistics::fresh_spec(r.games_won_tries)
                    &&& r.games_won_tries@ == Seq::new(TRIES as nat, |i: int| 0usize)
                },
            },
    {
        match loaded {
            Some(statistics) => statistics,
            None => GameStatistics::fresh(),
        }
    }

    /// Fresh statistics holding `tries`, which stand for no wins at any number of tries.
    pub open spec fn fresh_spec(tries: Vec<usize>) -> GameStatistics {
        GameStatistics {
            total_games: 0,
            games_won: 0,
            current_streak: 0,
            longest_streak: 0,
            games_won_tries: tries,
        }
    }

    /// No games played yet, with a count of zero wins for each number of tries.
    pub fn fresh() -> (r: GameStatistics)
        ensures
            r == GameStatistics::fresh_spec(r.games_won_tries),
            r.games_won_tries@ == Seq::new(TRIES as nat, |i: int| 0usize),
            r.wf(),
    {
        let games_won_tries = vec![0; TRIES];
        proof {
            assert(games_won_tries@ =~= Seq::new(TRIES as nat, |i: int| 0usize));
            lemma_sum_zeros(TRIES as nat);
        }
        GameStatistics {
            total_games: 0,
            games_won: 0,
            current_streak: 0,
            longest_streak: 0,
            games_won_tries,
        }
    }
}

/// The name of the file that keeps the statistics of the word list `name` at
/// `number_of_letters` letters.
pub fn statistics_file_name(name: &str, number_of_letters: usize) -> (r: String)
    ensures
        r@ == name@ + seq!['_'] + decimal(number_of_letters as nat),
{
    let mut r = name.to_owned();
    r.append("_");
    let n = usize_to_text(number_of_letters);
    r.append(n.as_str());
    proof {
        reveal_strlit("_");
    }
    r
}

} // verus!
