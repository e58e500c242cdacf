//! Netrunner tournament pairings: round counts, top cuts, Swiss pairing and standings.
mod pairing;
mod player;
mod ranking;
mod round;
mod schedule;
mod standings;
mod swiss;

pub use pairing::{mirrored, Pairing, Result};
pub use player::Player;
pub use ranking::{bye_is_fair, is_permutation, random_order, ranks_at_least, standing_key};
pub use round::{check_reports, complementary, is_closed, legal_reports, record_error, recorded, reports_for, Round};
pub use schedule::{
    all_ids_distinct, distinct_ids, follows_standings, partitions, rematches_forced, shares_no_player, well_paired,
};
pub use standings::{
    average_points, extended_strength_of_schedule, had_bye, met, opponents, points_for,
    rounds_played, score, strength_of_schedule, Points, MAX_AVERAGE, SCALE,
};
pub use swiss::{
    lemma_top_cut_monotone, lemma_total_rounds_monotone, standard_points, swiss_top_cut,
    swiss_total_rounds, PairingError, SingleSwissPairingAlgorithm, SwissPairingAlgorithm,
};

use vstd::prelude::*;

verus! {

/// The pairing format of a tournament.
#[derive(Debug)]
pub enum PairingsAlgorithm {
    /// Swiss style pairings
    Swiss(SwissPairingAlgorithm),
    /// Single-sided Swiss pairings
    SingleSwiss(SingleSwissPairingAlgorithm),
}

impl PairingsAlgorithm {
    pub open spec fn points_view(&self) -> Points {
        match self {
            PairingsAlgorithm::Swiss(a) => a.points_view(),
            PairingsAlgorithm::SingleSwiss(a) => a.points_view(),
        }
    }

    /// The number of rounds for `n` players, for `n >= 2`.
    pub open spec fn rounds_for(&self, n: int) -> int {
        match self {
            PairingsAlgorithm::Swiss(_) => swiss_total_rounds(n),
            PairingsAlgorithm::SingleSwiss(a) => a.total_rounds_view() as int,
        }
    }

    /// The top cut for `n` players, for `n >= 2`.
    pub open spec fn cut_for(&self, n: int) -> Option<usize> {
        match self {
            PairingsAlgorithm::Swiss(_) => swiss_top_cut(n),
            PairingsAlgorithm::SingleSwiss(a) => a.top_cut_view(),
        }
    }

    /// Creates a new Swiss style pairings
    fn new_swiss() -> (r: PairingsAlgorithm)
        ensures
            r is Swiss,
            r.points_view() == standard_points(),
    {
        PairingsAlgorithm::Swiss(SwissPairingAlgorithm::new())
    }

    /// Creates a new Single-sided Swiss pairings
    fn new_single_swiss(points: Points, total_rounds: usize, top_cut: Option<usize>) -> (r: PairingsAlgorithm)
        ensures
            r.points_view() == points,
            forall|n: int| r.rounds_for(n) == total_rounds,
            forall|n: int| r.cut_for(n) == top_cut,
    {
        PairingsAlgorithm::SingleSwiss(SingleSwissPairingAlgorithm::new(points, total_rounds, top_cut))
    }

    fn points(&self) -> (r: Points)
        ensures
            r == self.points_view(),
    {
        match self {
            PairingsAlgorithm::Swiss(a) => a.get_points(),
            PairingsAlgorithm::SingleSwiss(a) => a.get_points(),
        }
    }

    fn get_total_rounds(&self, player_count: usize) -> (r: core::result::Result<usize, PairingError>)
        ensures
            player_count < 2 ==> r == Err::<usize, PairingError>(PairingError::InvalidPlayerCount),
            player_count >= 2 ==> r == Ok::<usize, PairingError>(
                self.rounds_for(player_count as int) as usize,
            ),
    {
        match self {
            PairingsAlgorithm::Swiss(a) => a.get_total_rounds(player_count),
            PairingsAlgorithm::SingleSwiss(a) => a.get_total_rounds(player_count),
        }
    }

    fn get_top_cut(&self, player_count: usize) -> (r: core::result::Result<Option<usize>, PairingError>)
        ensures
            player_count < 2 ==> r == Err::<Option<usize>, PairingError>(
                PairingError::InvalidPlayerCount,
            ),
            player_count >= 2 ==> r == Ok::<Option<usize>, PairingError>(
                self.cut_for(player_count as int),
            ),
    {
        match self {
            PairingsAlgorithm::Swiss(a) => a.get_top_cut(player_count),
            PairingsAlgorithm::SingleSwiss(a) => a.get_top_cut(player_count),
        }
    }

    /// The pairings of the next round: ranked by standing, ties broken by
    /// `seed`, the bye to the lowest ranked player without one, and pairs formed
    /// from the top avoiding rematches where possible.
    fn next_pairings(&self, players: &Vec<Player>, rounds: &Vec<Round>, seed: Vec<usize>) -> (r: Vec<Pairing>)
        requires
            distinct_ids(players@),
            is_permutation(seed@, players@.len() as int),
        ensures
            well_paired(rounds@, players@, self.points_view(), seed@, r@),
    {
        schedule::pair_round(players, rounds, self.points(), seed)
    }
}

/// The number of rounds of `h` whose results are recorded: all but an open last round.
pub open spec fn completed_rounds(h: Seq<Round>) -> int {
    if is_open(h) {
        h.len() - 1
    } else {
        h.len() as int
    }
}

/// Whether the last round of `h` still waits for results.
pub open spec fn is_open(h: Seq<Round>) -> bool {
    h.len() > 0 && !is_closed(h.last()@)
}

/// Standings of one player.
#[derive(Debug, Copy, Clone, PartialEq, Eq, Structural)]
pub struct PlayerStats {
    pub score: u128,
    pub rounds_played: usize,
    /// In fixed point: the value times `SCALE`, rounded down.
    pub strength_of_schedule: u128,
    /// In fixed point: the value times `SCALE`, rounded down.
    pub extended_strength_of_schedule: u128,
    pub had_bye: bool,
}

/// Pairings
#[derive(Debug)]
pub struct Pairings {
    algorithm: PairingsAlgorithm,
    rounds: Vec<Round>,
}

impl Pairings {
    /// The rounds so far, oldest first.
    pub closed spec fn history(&self) -> Seq<Round> {
        self.rounds@
    }

    pub closed spec fn algorithm_view(&self) -> PairingsAlgorithm {
        self.algorithm
    }

    /// Creates a new Swiss style pairings
    pub fn new_swiss() -> (r: Pairings)
        ensures
            r.history().len() == 0,
            r.algorithm_view() is Swiss,
            r.algorithm_view().points_view() == standard_points(),
    {
        Pairings { algorithm: PairingsAlgorithm::new_swiss(), rounds: Vec::new() }
    }

    /// Creates a new Swiss style pairings with the given points for each result
    pub fn new_swiss_with_points(points: Points) -> (r: Pairings)
        ensures
            r.history().len() == 0,
            r.algorithm_view() is Swiss,
            r.algorithm_view().points_view() == points,
    {
        Pairings { algorithm: PairingsAlgorithm::Swiss(SwissPairingAlgorithm::with_points(points)), rounds: Vec::new() }
    }

    /// Creates a new Single-sided Swiss pairings, with the points, number of
    /// rounds and top cut that the organiser chose.
    pub fn new_single_swiss(points: Points, total_rounds: usize, top_cut: Option<usize>) -> (r: Pairings)
        ensures
            r.history().len() == 0,
            r.algorithm_view().points_view() == points,
            forall|n: int| r.algorithm_view().rounds_for(n) == total_rounds,
            forall|n: int| r.algorithm_view().cut_for(n) == top_cut,
    {
        Pairings {
            algorithm: PairingsAlgorithm::new_single_swiss(points, total_rounds, top_cut),
            rounds: Vec::new(),
        }
    }

    /// Gets the number of rounds needed for the given player count
    pub fn get_total_rounds(&self, player_count: usize) -> (r: core::result::Result<usize, PairingError>)
        ensures
            player_count < 2 ==> r == Err::<usize, PairingError>(PairingError::InvalidPlayerCount),
            player_count >= 2 ==> r == Ok::<usize, PairingError>(
                self.algorithm_view().rounds_for(player_count as int) as usize,
            ),
    {
        self.algorithm.get_total_rounds(player_count)
    }

    /// Gets the top cut number of players given the player count
    pub fn get_top_cut(&self, player_count: usize) -> (r: core::result::Result<Option<usize>, PairingError>)
        ensures
            player_count < 2 ==> r == Err::<Option<usize>, PairingError>(
                PairingError::InvalidPlayerCount,
            ),
            player_count >= 2 ==> r == Ok::<Option<usize>, PairingError>(
                self.algorithm_view().cut_for(player_count as int),
            ),
    {
        self.algorithm.get_top_cut(player_count)
    }

    /// Gets the current round number: the number of completed rounds plus one
    /// (it stays at the largest `usize`).
    pub fn get_current_round(&self) -> (r: usize)
        ensures
            completed_rounds(self.history()) < usize::MAX ==> r == completed_rounds(self.history()) + 1,
            completed_rounds(self.history()) >= usize::MAX ==> r == usize::MAX,
    {
        let n = self.rounds.len();
        let done = if self.round_in_progress() {
            n - 1
        } else {
            n
        };
        if done < usize::MAX {
            done + 1
        } else {
            done
        }
    }

    /// The rounds so far, oldest first.
    pub fn get_rounds(&self) -> (r: &Vec<Round>)
        ensures
            r@ == self.history(),
    {
        &self.rounds
    }

    /// Whether the last round still waits for its results.
    pub fn round_in_progress(&self) -> (r: bool)
        ensures
            r == is_open(self.history()),
    {
        let n = self.rounds.len();
        if n == 0 {
            return false;
        }
        let ps = self.rounds[n - 1].get_pairings();
        let mut k: usize = 0;
        while k < ps.len()
            invariant
                n == self.rounds@.len(),
                n > 0,
                ps@ == self.rounds@[n - 1]@,
                k <= ps@.len(),
                forall|j: int| 0 <= j < k ==> (#[trigger] ps@[j]).result_view() is Some,
            decreases ps@.len() - k,
        {
            if ps[k].get_result().is_none() {
                return true;
            }
            k += 1;
        }
        false
    }

    /// Determine the next pairing of the given players, in a random order among
    /// players of equal standing, and open a round with it.
    pub fn next_round(&mut self, players: &Vec<Player>) -> (r: core::result::Result<Vec<Pairing>, PairingError>)
        requires
            distinct_ids(players@),
        ensures
            is_open(old(self).history()) ==> r == Err::<Vec<Pairing>, PairingError>(
                PairingError::RoundInProgress,
            ) && final(self).history() == old(self).history(),
            !is_open(old(self).history()) ==> r is Ok && exists|seed: Seq<usize>|
                is_permutation(seed, players@.len() as int) && #[trigger] opened(
                    old(self).history(),
                    final(self).history(),
                    players@,
                    old(self).algorithm_view().points_view(),
                    seed,
                    r->Ok_0@,
                ),
            final(self).algorithm_view() == old(self).algorithm_view(),
    {
        let seed = random_order(players.len());
        let ghost sv = seed@;
        let ghost before = self.history();
        let r = self.next_round_seeded(players, seed);
        proof {
            if !is_open(before) {
                assert(opened(before, self.history(), players@, self.algorithm_view().points_view(), sv, r->Ok_0@));
            }
        }
        r
    }

    /// Determine the next pairing of the given players, ranking players of equal
    /// standing in the order of `seed`, and open a round with it.
    pub fn next_round_seeded(&mut self, players: &Vec<Player>, seed: Vec<usize>) -> (r: core::result::Result<Vec<Pairing>, PairingError>)
        requires
            distinct_ids(players@),
            is_permutation(seed@, players@.len() as int),
        ensures
            is_open(old(self).history()) ==> r == Err::<Vec<Pairing>, PairingError>(
                PairingError::RoundInProgress,
            ) && final(self).history() == old(self).history(),
            !is_open(old(self).history()) ==> r is Ok && opened(
                old(self).history(),
                final(self).history(),
                players@,
                old(self).algorithm_view().points_view(),
                seed@,
                r->Ok_0@,
            ),
            final(self).algorithm_view() == old(self).algorithm_view(),
    {
        if self.round_in_progress() {
            return Err(PairingError::RoundInProgress);
        }
        let ps = self.algorithm.next_pairings(players, &self.rounds, seed);
        let mut copy: Vec<Pairing> = Vec::new();
        let mut k: usize = 0;
        while k < ps.len()
            invariant
                k <= ps@.len(),
                copy@ == ps@.take(k as int),
            decreases ps@.len() - k,
        {
            copy.push(ps[k].duplicate());
            assert(copy@ =~= ps@.take(k + 1));
            k += 1;
        }
        assert(copy@ =~= ps@);
        let ghost before = self.rounds@;
        self.rounds.push(Round::new(copy));
        proof {
            let n = players@.len() as int;
            let h = self.rounds@;
            assert(h.drop_last() =~= before);
            if n % 2 == 1 {
                let id = ps@[n / 2].player_view().id_view();
                schedule::lemma_entry_unique(ps@, n / 2, id);
            }
        }
        Ok(ps)
    }

    /// Update internal state with round results: closes the open round when the
    /// reports are complete and consistent, else changes nothing.
    ///
    /// Each pairing of two players takes two reports, each from its own
    /// player's side: the first report on a pairing is its first player's
    /// (`get_player`), the second its opponent's. A bye takes one `Bye` report.
    /// The result recorded on the pairing is the first player's.
    pub fn round_ended(&mut self, results: &[(&Pairing, Result)]) -> (r: core::result::Result<(), PairingError>)
        ensures
            !is_open(old(self).history()) ==> r == Err::<(), PairingError>(PairingError::NoOpenRound)
                && final(self).history() == old(self).history(),
            is_open(old(self).history()) ==> (match record_error(old(self).history().last()@, results@) {
                Some(e) => r == Err::<(), PairingError>(e) && final(self).history() == old(self).history(),
                None => r == Ok::<(), PairingError>(()) && closed_with(
                    old(self).history(),
                    final(self).history(),
                    results@,
                ),
            }),
            final(self).algorithm_view() == old(self).algorithm_view(),
    {
        if !self.round_in_progress() {
            return Err(PairingError::NoOpenRound);
        }
        let ghost before = self.rounds@;
        let mut last = self.rounds.pop().unwrap();
        let res = last.round_ended(results);
        self.rounds.push(last);
        assert(self.rounds@.drop_last() =~= before.drop_last());
        proof {
            if res is Err {
                assert(self.rounds@ =~= before);
            }
        }
        res
    }

    /// The standings of a player after the rounds so far.
    pub fn player_stats(&self, player: &Player) -> (r: PlayerStats)
        ensures
            stats_of(self.history(), player.id_view(), self.algorithm_view().points_view(), r),
    {
        let pts = self.algorithm.points();
        let id = player.get_id();
        let (s, n) = standings::tally(&self.rounds, id, pts);
        PlayerStats {
            score: s,
            rounds_played: n,
            strength_of_schedule: standings::strength(&self.rounds, id, pts),
            extended_strength_of_schedule: standings::extended_strength(&self.rounds, id, pts),
            had_bye: standings::bye_given(&self.rounds, id),
        }
    }
}

/// `st` holds the standings of `id` after the rounds `h`.
pub open spec fn stats_of(h: Seq<Round>, id: Seq<char>, pts: Points, st: PlayerStats) -> bool {
    &&& st.score == score(h, id, pts)
    &&& st.rounds_played == rounds_played(h, id)
    &&& st.strength_of_schedule == strength_of_schedule(h, id, pts)
    &&& st.extended_strength_of_schedule == extended_strength_of_schedule(h, id, pts)
    &&& st.had_bye == had_bye(h, id)
}

/// `after` is `before` with a new round of the pairings `ps`, legal for
/// `players` with `seed` ordering players of equal standing; with an odd player count the bye recipient has had a bye from then on.
pub open spec fn opened(
    before: Seq<Round>,
    after: Seq<Round>,
    players: Seq<Player>,
    pts: Points,
    seed: Seq<usize>,
    ps: Seq<Pairing>,
) -> bool {
    let n = players.len() as int;
    &&& after.len() == before.len() + 1
    &&& after.drop_last() == before
    &&& after.last()@ == ps
    &&& well_paired(before, players, pts, seed, ps)
    &&& n % 2 == 1 ==> had_bye(after, ps[n / 2].player_view().id_view())
}

/// `after` is `before` with the results `rs` recorded on its last round.
pub open spec fn closed_with(before: Seq<Round>, after: Seq<Round>, rs: Seq<(&Pairing, Result)>) -> bool {
    &&& after.len() == before.len()
    &&& after.drop_last() == before.drop_last()
    &&& recorded(before.last()@, after.last()@, rs)
}

/// Once a round's results are recorded, the round is closed: recording results
/// again is refused with `NoOpenRound` and leaves the history, and so every
/// player's standings, as they were.
pub proof fn lemma_recording_twice_refused(before: Seq<Round>, after: Seq<Round>, rs: Seq<(&Pairing, Result)>)
    requires
        is_open(before),
        record_error(before.last()@, rs) is None,
        closed_with(before, after, rs),
    ensures
        !is_open(after),
{
    assert forall|k: int| 0 <= k < after.last()@.len() implies (#[trigger] after.last()@[k]).result_view() is Some by {
        assert(after.last()@[k].result_view() == Some(reports_for(rs, before.last()@[k])[0]));
    }
}

/// A player who has played no completed round has strength of schedule and
/// extended strength of schedule 0.
pub proof fn lemma_no_games_no_strength(h: Seq<Round>, id: Seq<char>, pts: Points)
    requires
        rounds_played(h, id) == 0,
    ensures
        strength_of_schedule(h, id, pts) == 0,
        extended_strength_of_schedule(h, id, pts) == 0,
{
    standings::lemma_score_bound(h, id, pts);
}

/// A player with no opponent yet, byes aside, has strength of schedule and
/// extended strength of schedule 0.
pub proof fn lemma_no_opponents_no_strength(h: Seq<Round>, id: Seq<char>, pts: Points)
    requires
        opponents(h, id).len() == 0,
    ensures
        strength_of_schedule(h, id, pts) == 0,
        extended_strength_of_schedule(h, id, pts) == 0,
{
}

} // verus!
