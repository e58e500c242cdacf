//! The pairing formats: standard Swiss and single-sided Swiss.
use vstd::prelude::*;
use crate::pairing::{Pairing, Result as Outcome};
use crate::player::Player;
use crate::ranking::{is_permutation, random_order};
use crate::round::{check_reports, record_error, Round};
use crate::schedule::{distinct_ids, pair_round, well_paired};
use crate::standings::Points;

verus! {

/// Errors of the pairing engine.
#[derive(Debug, Copy, Clone, PartialEq, Eq, Structural)]
pub enum PairingError {
    /// Fewer than two players were given to a sizing function.
    InvalidPlayerCount,
    /// Some pairing of the open round has no reported result.
    IncompleteResults,
    /// The reported results of some pairing cannot all be true, or a report
    /// names a pairing that is not in the open round.
    InconsistentResults,
    /// A pairing of the round already holds a result, which is never replaced.
    DoubleRecording,
    /// There is no round whose results are still to be recorded.
    NoOpenRound,
    /// The results of the last round have not been recorded yet.
    RoundInProgress,
}

/// The number of Swiss rounds for `n` players, for `n >= 2`.
pub open spec fn swiss_total_rounds(n: int) -> int {
    if n <= 9 {
        3
    } else if n <= 32 {
        4
    } else if n <= 56 {
        5
    } else if n <= 80 {
        6
    } else if n <= 192 {
        7
    } else if n <= 256 {
        8
    } else {
        9
    }
}

/// The top cut size for `n` players, for `n >= 2`; `None` for no top cut.
pub open spec fn swiss_top_cut(n: int) -> Option<usize> {
    if n <= 15 {
        None
    } else if n <= 24 {
        Some(4)
    } else if n <= 128 {
        Some(8)
    } else {
        Some(16)
    }
}

/// The usual Netrunner points: 3 for a win or a bye, 1 for a draw, none for a loss.
pub open spec fn standard_points() -> Points {
    Points { win: 3, draw: 1, loss: 0, bye: 3 }
}

/// Swiss pairing
#[derive(Debug)]
pub struct SwissPairingAlgorithm {
    points: Points,
}

impl SwissPairingAlgorithm {
    pub closed spec fn points_view(&self) -> Points {
        self.points
    }

    /// Swiss pairing with the usual Netrunner points.
    pub fn new() -> (r: SwissPairingAlgorithm)
        ensures
            r.points_view() == standard_points(),
    {
        SwissPairingAlgorithm { points: Points { win: 3, draw: 1, loss: 0, bye: 3 } }
    }

    /// Swiss pairing with the given points.
    pub fn with_points(points: Points) -> (r: SwissPairingAlgorithm)
        ensures
            r.points_view() == points,
    {
        SwissPairingAlgorithm { points }
    }

    pub fn get_points(&self) -> (r: Points)
        ensures
            r == self.points_view(),
    {
        self.points
    }

    /// The pairings of the next round after `rounds`, in a random order among
    /// players of equal standing.
    pub fn next_pairings(&self, players: &Vec<Player>, rounds: &Vec<Round>) -> (r: Vec<Pairing>)
        requires
            distinct_ids(players@),
        ensures
            exists|seed: Seq<usize>|
                is_permutation(seed, players@.len() as int) && #[trigger] well_paired(
                    rounds@,
                    players@,
                    self.points_view(),
                    seed,
                    r@,
                ),
    {
        let seed = random_order(players.len());
        let ghost sv = seed@;
        let r = pair_round(players, rounds, self.points, seed);
        assert(is_permutation(sv, players@.len() as int) && well_paired(rounds@, players@, self.points_view(), sv, r@));
        r
    }

    /// The pairings of the next round after `rounds`, ranking players of equal
    /// standing in the order of `seed`.
    pub fn next_pairings_seeded(&self, players: &Vec<Player>, rounds: &Vec<Round>, seed: Vec<usize>) -> (r: Vec<Pairing>)
        requires
            distinct_ids(players@),
            is_permutation(seed@, players@.len() as int),
        ensures
            well_paired(rounds@, players@, self.points_view(), seed@, r@),
    {
        pair_round(players, rounds, self.points, seed)
    }

    /// Checks that the reported results close the round `pairings`.
    pub fn round_ended(&self, pairings: &Vec<Pairing>, results: &[(&Pairing, Outcome)]) -> (r: Result<(), PairingError>)
        ensures
            (match record_error(pairings@, results@) {
                Some(e) => r == Err::<(), PairingError>(e),
                None => r == Ok::<(), PairingError>(()),
            }),
    {
        match check_reports(pairings, results) {
            Some(e) => Err(e),
            None => Ok(()),
        }
    }

    /// The number of rounds for the given player count.
    pub fn get_total_rounds(&self, player_count: usize) -> (r: Result<usize, PairingError>)
        ensures
            player_count < 2 ==> r == Err::<usize, PairingError>(PairingError::InvalidPlayerCount),
            player_count >= 2 ==> r == Ok::<usize, PairingError>(
                swiss_total_rounds(player_count as int) as usize,
            ),
    {
        if player_count < 2 {
            Err(PairingError::InvalidPlayerCount)
        } else if player_count <= 9 {
            Ok(3)
        } else if player_count <= 32 {
            Ok(4)
        } else if player_count <= 56 {
            Ok(5)
        } else if player_count <= 80 {
            Ok(6)
        } else if player_count <= 192 {
            Ok(7)
        } else if player_count <= 256 {
            Ok(8)
        } else {
            Ok(9)
        }
    }

    /// The top cut size for the given player count; `None` for no top cut.
    pub fn get_top_cut(&self, player_count: usize) -> (r: Result<Option<usize>, PairingError>)
        ensures
            player_count < 2 ==> r == Err::<Option<usize>, PairingError>(
                PairingError::InvalidPlayerCount,
            ),
            player_count >= 2 ==> r == Ok::<Option<usize>, PairingError>(
                swiss_top_cut(player_count as int),
            ),
    {
        if player_count < 2 {
            Err(PairingError::InvalidPlayerCount)
        } else if player_count <= 15 {
            Ok(None)
        } else if player_count <= 24 {
            Ok(Some(4))
        } else if player_count <= 128 {
            Ok(Some(8))
        } else {
            Ok(Some(16))
        }
    }
}

/// Single-sided Swiss pairing. Its points, its number of rounds and its top cut
/// are chosen by the organiser.
#[derive(Debug)]
pub struct SingleSwissPairingAlgorithm {
    points: Points,
    total_rounds: usize,
    top_cut: Option<usize>,
}

impl SingleSwissPairingAlgorithm {
    pub closed spec fn points_view(&self) -> Points {
        self.points
    }

    pub closed spec fn total_rounds_view(&self) -> usize {
        self.total_rounds
    }

    pub closed spec fn top_cut_view(&self) -> Option<usize> {
        self.top_cut
    }

    /// Single-sided Swiss pairing with the given configuration.
    pub fn new(points: Points, total_rounds: usize, top_cut: Option<usize>) -> (r: SingleSwissPairingAlgorithm)
        ensures
            r.points_view() == points,
            r.total_rounds_view() == total_rounds,
            r.top_cut_view() == top_cut,
    {
        SingleSwissPairingAlgorithm { points, total_rounds, top_cut }
    }

    pub fn get_points(&self) -> (r: Points)
        ensures
            r == self.points_view(),
    {
        self.points
    }

    /// The pairings of the next round after `rounds`, in a random order among
    /// players of equal standing.
    pub fn next_pairings(&self, players: &Vec<Player>, rounds: &Vec<Round>) -> (r: Vec<Pairing>)
        requires
            distinct_ids(players@),
        ensures
            exists|seed: Seq<usize>|
                is_permutation(seed, players@.len() as int) && #[trigger] well_paired(
                    rounds@,
                    players@,
                    self.points_view(),
                    seed,
                    r@,
                ),
    {
        let seed = random_order(players.len());
        let ghost sv = seed@;
        let r = pair_round(players, rounds, self.points, seed);
        assert(is_permutation(sv, players@.len() as int) && well_paired(rounds@, players@, self.points_view(), sv, r@));
        r
    }

    /// The pairings of the next round after `rounds`, ranking players of equal
    /// standing in the order of `seed`.
    pub fn next_pairings_seeded(&self, players: &Vec<Player>, rounds: &Vec<Round>, seed: Vec<usize>) -> (r: Vec<Pairing>)
        requires
            distinct_ids(players@),
            is_permutation(seed@, players@.len() as int),
        ensures
            well_paired(rounds@, players@, self.points_view(), seed@, r@),
    {
        pair_round(players, rounds, self.points, seed)
    }

    /// Checks that the reported results close the round `pairings`.
    pub fn round_ended(&self, pairings: &Vec<Pairing>, results: &[(&Pairing, Outcome)]) -> (r: Result<(), PairingError>)
        ensures
            (match record_error(pairings@, results@) {
                Some(e) => r == Err::<(), PairingError>(e),
                None => r == Ok::<(), PairingError>(()),
            }),
    {
        match check_reports(pairings, results) {
            Some(e) => Err(e),
            None => Ok(()),
        }
    }

    /// The configured number of rounds, for two players or more.
    pub fn get_total_rounds(&self, player_count: usize) -> (r: Result<usize, PairingError>)
        ensures
            player_count < 2 ==> r == Err::<usize, PairingError>(PairingError::InvalidPlayerCount),
            player_count >= 2 ==> r == Ok::<usize, PairingError>(self.total_rounds_view()),
    {
        if player_count < 2 {
            Err(PairingError::InvalidPlayerCount)
        } else {
            Ok(self.total_rounds)
        }
    }

    /// The configured top cut, for two players or more.
    pub fn get_top_cut(&self, player_count: usize) -> (r: Result<Option<usize>, PairingError>)
        ensures
            player_count < 2 ==> r == Err::<Option<usize>, PairingError>(
                PairingError::InvalidPlayerCount,
            ),
            player_count >= 2 ==> r == Ok::<Option<usize>, PairingError>(self.top_cut_view()),
    {
        if player_count < 2 {
            Err(PairingError::InvalidPlayerCount)
        } else {
            Ok(self.top_cut)
        }
    }
}

/// The number of Swiss rounds never decreases as the player count grows.
pub proof fn lemma_total_rounds_monotone(n: int, m: int)
    requires
        2 <= n <= m,
    ensures
        swiss_total_rounds(n) <= swiss_total_rounds(m),
        3 <= swiss_total_rounds(n) <= 9,
{
}

/// The top cut never shrinks as the player count grows; no top cut counts as the smallest.
pub proof fn lemma_top_cut_monotone(n: int, m: int)
    requires
        2 <= n <= m,
    ensures
        swiss_top_cut(n) is Some ==> swiss_top_cut(m) is Some && swiss_top_cut(n)->Some_0
            <= swiss_top_cut(m)->Some_0,
{
}

} // verus!
