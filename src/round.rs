//! Game rounds.
use vstd::prelude::*;
use crate::pairing::{Pairing, Result as Outcome};
use crate::swiss::PairingError;

verus! {

/// Game round container: the pairings of one round, in order.
#[derive(Debug)]
pub struct Round {
    pairings: Vec<Pairing>,
}

impl View for Round {
    type V = Seq<Pairing>;

    closed spec fn view(&self) -> Seq<Pairing> {
        self.pairings@
    }
}

impl Round {
    /// Create a new round using the given pairings
    pub fn new(pairings: Vec<Pairing>) -> (r: Round)
        ensures
            r@ == pairings@,
    {
        Round { pairings }
    }

    /// Get the round's pairings
    pub fn get_pairings(&self) -> (r: &Vec<Pairing>)
        ensures
            r@ == self@,
    {
        &self.pairings
    }
}

/// Whether every pairing of the round has a recorded result.
pub open spec fn is_closed(ps: Seq<Pairing>) -> bool {
    forall|k: int| 0 <= k < ps.len() ==> (#[trigger] ps[k]).result_view() is Some
}

/// The results reported on pairing `p`, in the order of the reports. A report is
/// on `p` when its pairing is between the same players.
pub open spec fn reports_for(rs: Seq<(&Pairing, Outcome)>, p: Pairing) -> Seq<Outcome>
    decreases rs.len(),
{
    if rs.len() == 0 {
        Seq::empty()
    } else {
        reports_for(rs.drop_last(), p) + if rs.last().0.same_players(&p) {
            seq![rs.last().1]
        } else {
            Seq::empty()
        }
    }
}

/// Whether the two sides' results of one game can both be true.
pub open spec fn complementary(a: Outcome, b: Outcome) -> bool {
    (a == Outcome::Win && b == Outcome::Loss) || (a == Outcome::Loss && b == Outcome::Win) || (a
        == Outcome::Draw && b == Outcome::Draw)
}

/// Whether `s` is a legal set of reports for `p`: one `Bye` for a bye; else one
/// report per player, the first player's first, that agree with each other.
pub open spec fn legal_reports(p: Pairing, s: Seq<Outcome>) -> bool {
    match p.opponent_view() {
        None => s == seq![Outcome::Bye],
        Some(_) => s.len() == 2 && complementary(s[0], s[1]),
    }
}

/// Whether report `i` is on none of the pairings `ps`.
pub open spec fn stray(ps: Seq<Pairing>, rs: Seq<(&Pairing, Outcome)>, i: int) -> bool {
    forall|k: int| 0 <= k < ps.len() ==> !rs[i].0.same_players(&#[trigger] ps[k])
}

/// The error that recording the reports `rs` on the round `ps` gives, if any.
/// A result once recorded is never replaced: a round in which some pairing
/// already holds a result is refused as a whole.
pub open spec fn record_error(ps: Seq<Pairing>, rs: Seq<(&Pairing, Outcome)>) -> Option<PairingError> {
    if exists|k: int| 0 <= k < ps.len() && (#[trigger] ps[k]).result_view() is Some {
        Some(PairingError::DoubleRecording)
    } else if exists|k: int| 0 <= k < ps.len() && #[trigger] reports_for(rs, ps[k]).len() == 0 {
        Some(PairingError::IncompleteResults)
    } else if (exists|k: int| 0 <= k < ps.len() && !legal_reports(ps[k], #[trigger] reports_for(rs, ps[k])))
        || (exists|i: int| 0 <= i < rs.len() && #[trigger] stray(ps, rs, i)) {
        Some(PairingError::InconsistentResults)
    } else {
        None
    }
}

/// `after` is the round `before` with the first player's reported result recorded on each pairing.
pub open spec fn recorded(before: Seq<Pairing>, after: Seq<Pairing>, rs: Seq<(&Pairing, Outcome)>) -> bool {
    &&& after.len() == before.len()
    &&& forall|k: int|
        0 <= k < before.len() ==> {
            &&& (#[trigger] after[k]).player_view() == before[k].player_view()
            &&& after[k].opponent_view() == before[k].opponent_view()
            &&& after[k].result_view() == Some(reports_for(rs, before[k])[0])
        }
}

/// The results reported on pairing `p`.
fn collect_reports(results: &[(&Pairing, Outcome)], p: &Pairing) -> (r: Vec<Outcome>)
    ensures
        r@ == reports_for(results@, *p),
{
    let mut out: Vec<Outcome> = Vec::new();
    let mut i: usize = 0;
    while i < results.len()
        invariant
            i <= results@.len(),
            out@ == reports_for(results@.take(i as int), *p),
        decreases results@.len() - i,
    {
        assert(results@.take(i + 1).drop_last() =~= results@.take(i as int));
        let (rp, res) = results[i];
        if rp.same_players_as(p) {
            out.push(res);
        }
        assert(out@ =~= reports_for(results@.take(i + 1), *p));
        i += 1;
    }
    assert(results@.take(results@.len() as int) =~= results@);
    out
}

/// Whether the two results can both be true of one game.
fn agree(a: Outcome, b: Outcome) -> (r: bool)
    ensures
        r == complementary(a, b),
{
    match (a, b) {
        (Outcome::Win, Outcome::Loss) => true,
        (Outcome::Loss, Outcome::Win) => true,
        (Outcome::Draw, Outcome::Draw) => true,
        _ => false,
    }
}

/// Checks the reports `results` against the pairings `ps` of a round: the error
/// that recording them would give, if any.
pub fn check_reports(ps: &Vec<Pairing>, results: &[(&Pairing, Outcome)]) -> (r: Option<PairingError>)
    ensures
        r == record_error(ps@, results@),
{
    let n = ps.len();
    let mut k: usize = 0;
    while k < n
        invariant
            n == ps@.len(),
            k <= n,
            forall|j: int| 0 <= j < k ==> (#[trigger] ps@[j]).result_view() is None,
        decreases n - k,
    {
        if ps[k].get_result().is_some() {
            return Some(PairingError::DoubleRecording);
        }
        k += 1;
    }
    let mut lists: Vec<Vec<Outcome>> = Vec::new();
    let mut k: usize = 0;
    while k < n
        invariant
            n == ps@.len(),
            forall|j: int| 0 <= j < n ==> (#[trigger] ps@[j]).result_view() is None,
            k <= n,
            lists@.len() == k,
            forall|j: int| 0 <= j < k ==> (#[trigger] lists@[j])@ == reports_for(results@, ps@[j]),
            forall|j: int| 0 <= j < k ==> reports_for(results@, #[trigger] ps@[j]).len() > 0,
        decreases n - k,
    {
        let l = collect_reports(results, &ps[k]);
        if l.len() == 0 {
            return Some(PairingError::IncompleteResults);
        }
        lists.push(l);
        k += 1;
    }
    let mut k: usize = 0;
    while k < n
        invariant
            n == ps@.len(),
            forall|j: int| 0 <= j < n ==> (#[trigger] ps@[j]).result_view() is None,
            k <= n,
            lists@.len() == n,
            forall|j: int| 0 <= j < n ==> (#[trigger] lists@[j])@ == reports_for(results@, ps@[j]),
            forall|j: int| 0 <= j < n ==> reports_for(results@, #[trigger] ps@[j]).len() > 0,
            forall|j: int| 0 <= j < k ==> legal_reports(ps@[j], #[trigger] reports_for(results@, ps@[j])),
        decreases n - k,
    {
        let l = &lists[k];
        let ok = match ps[k].get_opponent() {
            None => l.len() == 1 && l[0] == Outcome::Bye,
            Some(_) => l.len() == 2 && agree(l[0], l[1]),
        };
        if !ok {
            proof {
                if ps@[k as int].opponent_view() is None {
                    assert(l@.len() != 1 || l@[0] != Outcome::Bye);
                    assert(l@ != seq![Outcome::Bye]);
                }
                assert(!legal_reports(ps@[k as int], reports_for(results@, ps@[k as int])));
            }
            return Some(PairingError::InconsistentResults);
        }
        proof {
            if ps@[k as int].opponent_view() is None {
                assert(l@ =~= seq![Outcome::Bye]);
            }
        }
        k += 1;
    }
    let mut i: usize = 0;
    while i < results.len()
        invariant
            n == ps@.len(),
            forall|j: int| 0 <= j < n ==> (#[trigger] ps@[j]).result_view() is None,
            i <= results@.len(),
            lists@.len() == n,
            forall|j: int| 0 <= j < n ==> (#[trigger] lists@[j])@ == reports_for(results@, ps@[j]),
            forall|j: int| 0 <= j < n ==> reports_for(results@, #[trigger] ps@[j]).len() > 0,
            forall|j: int| 0 <= j < n ==> legal_reports(ps@[j], #[trigger] reports_for(results@, ps@[j])),
            forall|t: int| 0 <= t < i ==> !#[trigger] stray(ps@, results@, t),
        decreases results@.len() - i,
    {
        let mut found = false;
        let mut k: usize = 0;
        while k < n && !found
            invariant
                n == ps@.len(),
            forall|j: int| 0 <= j < n ==> (#[trigger] ps@[j]).result_view() is None,
                k <= n,
                i < results@.len(),
                found ==> !stray(ps@, results@, i as int),
                !found ==> forall|j: int| 0 <= j < k ==> !results@[i as int].0.same_players(&#[trigger] ps@[j]),
            decreases n - k,
        {
            if results[i].0.same_players_as(&ps[k]) {
                found = true;
            }
            k += 1;
        }
        if !found {
            assert(stray(ps@, results@, i as int));
            return Some(PairingError::InconsistentResults);
        }
        i += 1;
    }
    None
}

impl Round {
    /// Update the round with the reported results, or leave it as it is and
    /// say why the reports do not close it.
    pub(crate) fn round_ended(&mut self, results: &[(&Pairing, Outcome)]) -> (r: Result<(), PairingError>)
        ensures
            (match record_error(old(self)@, results@) {
                Some(e) => r == Err::<(), PairingError>(e) && *final(self) == *old(self),
                None => r == Ok::<(), PairingError>(()) && recorded(old(self)@, final(self)@, results@),
            }),
    {
        if let Some(e) = check_reports(&self.pairings, results) {
            return Err(e);
        }
        let n = self.pairings.len();
        assert forall|j: int| 0 <= j < n implies (#[trigger] self.pairings@[j]).result_view() is None by {
            if self.pairings@[j].result_view() is Some {
                assert(record_error(self.pairings@, results@) == Some(PairingError::DoubleRecording));
            }
        }
        let mut updated: Vec<Pairing> = Vec::new();
        let mut k: usize = 0;
        while k < n
            invariant
                n == self.pairings@.len(),
                k <= n,
                updated@.len() == k,
                record_error(self.pairings@, results@) is None,
                forall|j: int| 0 <= j < n ==> (#[trigger] self.pairings@[j]).result_view() is None,
                forall|j: int|
                    0 <= j < k ==> {
                        &&& (#[trigger] updated@[j]).player_view() == self.pairings@[j].player_view()
                        &&& updated@[j].opponent_view() == self.pairings@[j].opponent_view()
                        &&& updated@[j].result_view() == Some(reports_for(results@, self.pairings@[j])[0])
                    },
            decreases n - k,
        {
            let l = collect_reports(results, &self.pairings[k]);
            assert(reports_for(results@, self.pairings@[k as int]).len() > 0);
            let mut p = self.pairings[k].duplicate();
            p.update_result(l[0]);
            updated.push(p);
            k += 1;
        }
        self.pairings = updated;
        Ok(())
    }
}

} // verus!
