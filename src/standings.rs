//! Standings derived from the round history: score, rounds played, byes and
//! the strength-of-schedule tie-breaks.
//!
//! Averages and strengths of schedule are fixed-point numbers: the value
//! times `SCALE`, rounded down.
use vstd::prelude::*;
use crate::pairing::{Pairing, Result};
use crate::round::Round;

verus! {

/// The fixed-point scale of averages and strengths of schedule.
pub const SCALE: u128 = 1_000_000;

/// The largest score that a single game can give.
pub const MAX_GAME_POINTS: u128 = 0xffff_ffff;

/// The largest average, and so the largest strength of schedule.
pub const MAX_AVERAGE: u128 = 0xffff_ffff * 1_000_000;

/// Points given for each result.
#[derive(Debug, Copy, Clone, PartialEq, Eq, Structural)]
pub struct Points {
    pub win: u32,
    pub draw: u32,
    pub loss: u32,
    pub bye: u32,
}

pub open spec fn points_for(pts: Points, r: Result) -> int {
    match r {
        Result::Win => pts.win as int,
        Result::Draw => pts.draw as int,
        Result::Loss => pts.loss as int,
        Result::Bye => pts.bye as int,
    }
}

/// Points given for a result.
pub fn points_of(pts: Points, r: Result) -> (p: u32)
    ensures
        p == points_for(pts, r),
{
    match r {
        Result::Win => pts.win,
        Result::Draw => pts.draw,
        Result::Loss => pts.loss,
        Result::Bye => pts.bye,
    }
}

/// The first pairing of a round that names the player `id`.
pub open spec fn entry_in(ps: Seq<Pairing>, id: Seq<char>) -> Option<Pairing>
    decreases ps.len(),
{
    if ps.len() == 0 {
        None
    } else if ps[0].involves(id) {
        Some(ps[0])
    } else {
        entry_in(ps.drop_first(), id)
    }
}

/// The pairing in which `id` played a round, if its result is recorded.
pub open spec fn completed_entry(r: Round, id: Seq<char>) -> Option<Pairing> {
    match entry_in(r@, id) {
        Some(p) => if p.result_view() is Some {
            Some(p)
        } else {
            None
        },
        None => None,
    }
}

/// The points that `id` earned in one round.
pub open spec fn round_points(r: Round, id: Seq<char>, pts: Points) -> int {
    match completed_entry(r, id) {
        Some(p) => match p.result_of(id) {
            Some(res) => points_for(pts, res),
            None => 0,
        },
        None => 0,
    }
}

/// The total score of `id` over the rounds.
pub open spec fn score(h: Seq<Round>, id: Seq<char>, pts: Points) -> int
    decreases h.len(),
{
    if h.len() == 0 {
        0
    } else {
        score(h.drop_last(), id, pts) + round_points(h.last(), id, pts)
    }
}

/// The number of rounds in which `id` has a recorded result.
pub open spec fn rounds_played(h: Seq<Round>, id: Seq<char>) -> int
    decreases h.len(),
{
    if h.len() == 0 {
        0
    } else {
        rounds_played(h.drop_last(), id) + if completed_entry(h.last(), id) is Some {
            1int
        } else {
            0int
        }
    }
}

/// The opponent that `id` met in a completed round, with the round's position
/// `i` in the history: a sequence of zero or one entries.
pub open spec fn round_opponent(r: Round, i: int, id: Seq<char>) -> Seq<(Seq<char>, int)> {
    match completed_entry(r, id) {
        Some(p) => match p.opponent_of(id) {
            Some(o) => seq![(o.id_view(), i)],
            None => Seq::empty(),
        },
        None => Seq::empty(),
    }
}

/// The opponents of `id` over the completed rounds, in order, each with the
/// position of the round in which they were faced; byes add none.
pub open spec fn opponents(h: Seq<Round>, id: Seq<char>) -> Seq<(Seq<char>, int)>
    decreases h.len(),
{
    if h.len() == 0 {
        Seq::empty()
    } else {
        opponents(h.drop_last(), id) + round_opponent(h.last(), h.len() - 1, id)
    }
}

/// Whether `id` has been given a bye in some round, recorded or not.
pub open spec fn had_bye(h: Seq<Round>, id: Seq<char>) -> bool
    decreases h.len(),
{
    if h.len() == 0 {
        false
    } else {
        had_bye(h.drop_last(), id) || match entry_in(h.last()@, id) {
            Some(p) => p.is_bye(),
            None => false,
        }
    }
}

/// Average points per round played, in fixed point; 0 before any round.
pub open spec fn average_points(h: Seq<Round>, id: Seq<char>, pts: Points) -> int {
    let n = rounds_played(h, id);
    if n == 0 {
        0
    } else {
        score(h, id, pts) * SCALE / n
    }
}

/// The sum of the opponents' average points per round, each taken from the
/// rounds before the one in which they were faced.
pub open spec fn sum_average(h: Seq<Round>, os: Seq<(Seq<char>, int)>, pts: Points) -> int
    decreases os.len(),
{
    if os.len() == 0 {
        0
    } else {
        sum_average(h, os.drop_last(), pts) + average_points(h.take(os.last().1), os.last().0, pts)
    }
}

/// The mean of the opponents' average points per round at the time they were
/// faced, that is over the rounds before that game; 0 without opponents.
pub open spec fn strength_of_schedule(h: Seq<Round>, id: Seq<char>, pts: Points) -> int {
    let os = opponents(h, id);
    if os.len() == 0 {
        0
    } else {
        sum_average(h, os, pts) / os.len() as int
    }
}

pub open spec fn sum_strength(h: Seq<Round>, os: Seq<(Seq<char>, int)>, pts: Points) -> int
    decreases os.len(),
{
    if os.len() == 0 {
        0
    } else {
        sum_strength(h, os.drop_last(), pts) + strength_of_schedule(h, os.last().0, pts)
    }
}

/// The mean of the opponents' strengths of schedule; 0 without opponents.
pub open spec fn extended_strength_of_schedule(h: Seq<Round>, id: Seq<char>, pts: Points) -> int {
    let os = opponents(h, id);
    if os.len() == 0 {
        0
    } else {
        sum_strength(h, os, pts) / os.len() as int
    }
}

} // verus!

verus! {

/// The index of the first pairing of `ps` that names `id`.
pub fn find_entry(ps: &Vec<Pairing>, id: &String) -> (r: Option<usize>)
    ensures
        (match r {
            Some(i) => i < ps@.len() && entry_in(ps@, id@) == Some(ps@[i as int]),
            None => entry_in(ps@, id@) is None,
        }),
{
    let mut j: usize = 0;
    assert(ps@.subrange(0, ps@.len() as int) =~= ps@);
    while j < ps.len()
        invariant
            j <= ps@.len(),
            entry_in(ps@, id@) == entry_in(ps@.subrange(j as int, ps@.len() as int), id@),
        decreases ps@.len() - j,
    {
        assert(ps@.subrange(j as int, ps@.len() as int).drop_first() =~= ps@.subrange(
            j + 1,
            ps@.len() as int,
        ));
        if ps[j].has_id(id) {
            return Some(j);
        }
        j += 1;
    }
    None
}

/// The index of the pairing in which `id` played round `r`, if its result is recorded.
pub fn find_completed(r: &Round, id: &String) -> (res: Option<usize>)
    ensures
        (match res {
            Some(i) => i < r@.len() && completed_entry(*r, id@) == Some(r@[i as int]),
            None => completed_entry(*r, id@) is None,
        }),
{
    let ps = r.get_pairings();
    match find_entry(ps, id) {
        Some(i) => if ps[i].get_result().is_some() {
            Some(i)
        } else {
            None
        },
        None => None,
    }
}

proof fn lemma_take_step<T>(h: Seq<T>, i: int)
    requires
        0 <= i < h.len(),
    ensures
        h.take(i + 1).drop_last() == h.take(i),
        h.take(i + 1).last() == h[i],
{
    assert(h.take(i + 1).drop_last() =~= h.take(i));
}

/// A player's score only grows by at most one game's points per round played.
pub proof fn lemma_score_bound(h: Seq<Round>, id: Seq<char>, pts: Points)
    ensures
        0 <= score(h, id, pts) <= rounds_played(h, id) * MAX_GAME_POINTS,
        0 <= rounds_played(h, id) <= h.len(),
        opponents(h, id).len() <= rounds_played(h, id),
    decreases h.len(),
{
    if h.len() > 0 {
        lemma_score_bound(h.drop_last(), id, pts);
    }
}

/// The total score and the number of rounds played of `id` over the first `upto` rounds.
pub fn tally_upto(rounds: &Vec<Round>, upto: usize, id: &String, pts: Points) -> (r: (u128, usize))
    requires
        upto <= rounds@.len(),
    ensures
        r.0 == score(rounds@.take(upto as int), id@, pts),
        r.1 == rounds_played(rounds@.take(upto as int), id@),
{
    let ghost h = rounds@.take(upto as int);
    let mut total: u128 = 0;
    let mut played: usize = 0;
    let mut i: usize = 0;
    while i < upto
        invariant
            upto <= rounds@.len(),
            h == rounds@.take(upto as int),
            i <= upto,
            total == score(h.take(i as int), id@, pts),
            played == rounds_played(h.take(i as int), id@),
            total <= played * MAX_GAME_POINTS,
            played <= i,
        decreases upto - i,
    {
        proof {
            lemma_take_step(h, i as int);
        }
        let round = &rounds[i];
        match find_completed(round, id) {
            Some(k) => {
                let p = &round.get_pairings()[k];
                let gained: u32 = match p.get_result_of(id) {
                    Some(res) => points_of(pts, res),
                    None => 0,
                };
                total = total + gained as u128;
                played = played + 1;
            },
            None => {},
        }
        i += 1;
    }
    assert(h.take(upto as int) =~= h);
    (total, played)
}

/// The total score and the number of rounds played of `id`.
pub fn tally(rounds: &Vec<Round>, id: &String, pts: Points) -> (r: (u128, usize))
    ensures
        r.0 == score(rounds@, id@, pts),
        r.1 == rounds_played(rounds@, id@),
{
    assert(rounds@.take(rounds@.len() as int) =~= rounds@);
    tally_upto(rounds, rounds.len(), id, pts)
}

/// The opponents that `id` met in the completed rounds, in order.
pub fn opponent_ids(rounds: &Vec<Round>, id: &String) -> (r: Vec<(String, usize)>)
    ensures
        r@.len() == opponents(rounds@, id@).len(),
        forall|k: int|
            0 <= k < r@.len() ==> (#[trigger] r@[k]).0@ == opponents(rounds@, id@)[k].0 && r@[k].1
                == opponents(rounds@, id@)[k].1,
        forall|k: int| 0 <= k < r@.len() ==> (#[trigger] r@[k]).1 < rounds@.len(),
{
    let mut out: Vec<(String, usize)> = Vec::new();
    let mut i: usize = 0;
    while i < rounds.len()
        invariant
            i <= rounds@.len(),
            out@.len() == opponents(rounds@.take(i as int), id@).len(),
            forall|k: int|
                0 <= k < out@.len() ==> (#[trigger] out@[k]).0@ == opponents(
                    rounds@.take(i as int),
                    id@,
                )[k].0 && out@[k].1 == opponents(rounds@.take(i as int), id@)[k].1,
            forall|k: int| 0 <= k < out@.len() ==> (#[trigger] out@[k]).1 < i,
        decreases rounds@.len() - i,
    {
        proof {
            lemma_take_step(rounds@, i as int);
        }
        let round = &rounds[i];
        match find_completed(round, id) {
            Some(k) => {
                let p = &round.get_pairings()[k];
                match p.get_opponent_of(id) {
                    Some(o) => {
                        out.push((o.get_id().clone(), i));
                    },
                    None => {},
                }
            },
            None => {},
        }
        i += 1;
    }
    assert(rounds@.take(rounds@.len() as int) =~= rounds@);
    out
}

proof fn lemma_average_fits(s: int, n: int)
    requires
        0 <= s <= n * MAX_GAME_POINTS,
        0 < n <= usize::MAX,
    ensures
        s * SCALE <= u128::MAX,
        0 <= s * SCALE / n <= MAX_AVERAGE,
{
    assert(s * SCALE <= n * MAX_GAME_POINTS * SCALE) by (nonlinear_arith)
        requires
            0 <= s <= n * MAX_GAME_POINTS,
            n > 0,
    ;
    assert(n * MAX_GAME_POINTS * SCALE <= u128::MAX) by (nonlinear_arith)
        requires
            0 < n <= usize::MAX,
    ;
    assert(s * SCALE / n <= MAX_AVERAGE) by (nonlinear_arith)
        requires
            0 <= s * SCALE <= n * (MAX_GAME_POINTS * SCALE),
            n > 0,
            MAX_AVERAGE == MAX_GAME_POINTS * SCALE,
    ;
    assert(0 <= s * SCALE / n) by (nonlinear_arith)
        requires
            0 <= s,
            n > 0,
    ;
}

/// The average points per round played of `id` over the first `upto` rounds, in fixed point.
pub fn average(rounds: &Vec<Round>, upto: usize, id: &String, pts: Points) -> (r: u128)
    requires
        upto <= rounds@.len(),
    ensures
        r == average_points(rounds@.take(upto as int), id@, pts),
        r <= MAX_AVERAGE,
{
    let (s, n) = tally_upto(rounds, upto, id, pts);
    if n == 0 {
        return 0;
    }
    proof {
        lemma_score_bound(rounds@.take(upto as int), id@, pts);
        lemma_average_fits(s as int, n as int);
    }
    s * SCALE / (n as u128)
}

proof fn lemma_mean_fits(total: int, n: int)
    requires
        0 <= total <= n * MAX_AVERAGE,
        0 < n,
    ensures
        0 <= total / n <= MAX_AVERAGE,
{
    assert(total / n <= MAX_AVERAGE) by (nonlinear_arith)
        requires
            0 <= total <= n * MAX_AVERAGE,
            0 < n,
    ;
    assert(0 <= total / n) by (nonlinear_arith)
        requires
            0 <= total,
            0 < n,
    ;
}

proof fn lemma_sum_step(k: int)
    requires
        0 <= k < usize::MAX,
    ensures
        (k + 1) * MAX_AVERAGE == k * MAX_AVERAGE + MAX_AVERAGE,
        (k + 1) * MAX_AVERAGE <= u128::MAX,
{
    assert((k + 1) * MAX_AVERAGE == k * MAX_AVERAGE + MAX_AVERAGE) by (nonlinear_arith);
    assert((k + 1) * MAX_AVERAGE <= u128::MAX) by (nonlinear_arith)
        requires
            0 <= k < usize::MAX,
    ;
}

/// The strength of schedule of `id`, in fixed point.
pub fn strength(rounds: &Vec<Round>, id: &String, pts: Points) -> (r: u128)
    ensures
        r == strength_of_schedule(rounds@, id@, pts),
        r <= MAX_AVERAGE,
{
    let os = opponent_ids(rounds, id);
    let ghost osv = opponents(rounds@, id@);
    proof {
        lemma_score_bound(rounds@, id@, pts);
    }
    if os.len() == 0 {
        return 0;
    }
    let mut total: u128 = 0;
    let mut k: usize = 0;
    while k < os.len()
        invariant
            k <= os@.len(),
            os@.len() == osv.len(),
            os@.len() <= rounds@.len(),
            forall|j: int| 0 <= j < os@.len() ==> (#[trigger] os@[j]).0@ == osv[j].0 && os@[j].1 == osv[j].1,
            forall|j: int| 0 <= j < os@.len() ==> (#[trigger] os@[j]).1 < rounds@.len(),
            total == sum_average(rounds@, osv.take(k as int), pts),
            total <= k * MAX_AVERAGE,
        decreases os@.len() - k,
    {
        proof {
            lemma_take_step(osv, k as int);
            lemma_sum_step(k as int);
        }
        let a = average(rounds, os[k].1, &os[k].0, pts);
        total = total + a;
        k += 1;
    }
    assert(osv.take(osv.len() as int) =~= osv);
    proof {
        lemma_mean_fits(total as int, os@.len() as int);
    }
    total / (os.len() as u128)
}

/// The extended strength of schedule of `id`, in fixed point.
pub fn extended_strength(rounds: &Vec<Round>, id: &String, pts: Points) -> (r: u128)
    ensures
        r == extended_strength_of_schedule(rounds@, id@, pts),
        r <= MAX_AVERAGE,
{
    let os = opponent_ids(rounds, id);
    let ghost osv = opponents(rounds@, id@);
    proof {
        lemma_score_bound(rounds@, id@, pts);
    }
    if os.len() == 0 {
        return 0;
    }
    let mut total: u128 = 0;
    let mut k: usize = 0;
    while k < os.len()
        invariant
            k <= os@.len(),
            os@.len() == osv.len(),
            os@.len() <= rounds@.len(),
            forall|j: int| 0 <= j < os@.len() ==> (#[trigger] os@[j]).0@ == osv[j].0 && os@[j].1 == osv[j].1,
            forall|j: int| 0 <= j < os@.len() ==> (#[trigger] os@[j]).1 < rounds@.len(),
            total == sum_strength(rounds@, osv.take(k as int), pts),
            total <= k * MAX_AVERAGE,
        decreases os@.len() - k,
    {
        proof {
            lemma_take_step(osv, k as int);
            lemma_sum_step(k as int);
        }
        let a = strength(rounds, &os[k].0, pts);
        total = total + a;
        k += 1;
    }
    assert(osv.take(osv.len() as int) =~= osv);
    proof {
        lemma_mean_fits(total as int, os@.len() as int);
    }
    total / (os.len() as u128)
}

} // verus!

verus! {

/// Whether `id` has been given a bye in some round.
pub fn bye_given(rounds: &Vec<Round>, id: &String) -> (r: bool)
    ensures
        r == had_bye(rounds@, id@),
{
    let mut found = false;
    let mut i: usize = 0;
    while i < rounds.len()
        invariant
            i <= rounds@.len(),
            found == had_bye(rounds@.take(i as int), id@),
        decreases rounds@.len() - i,
    {
        proof {
            lemma_take_step(rounds@, i as int);
        }
        let ps = rounds[i].get_pairings();
        match find_entry(ps, id) {
            Some(k) => {
                if ps[k].get_opponent().is_none() {
                    found = true;
                }
            },
            None => {},
        }
        i += 1;
    }
    assert(rounds@.take(rounds@.len() as int) =~= rounds@);
    found
}

/// Whether the players `x` and `y` are paired together in one of the pairings.
pub open spec fn met_in(ps: Seq<Pairing>, x: Seq<char>, y: Seq<char>) -> bool
    decreases ps.len(),
{
    if ps.len() == 0 {
        false
    } else {
        met_in(ps.drop_last(), x, y) || (ps.last().involves(x) && ps.last().involves(y))
    }
}

/// Whether the players `x` and `y` have been paired together in an earlier round.
pub open spec fn met(h: Seq<Round>, x: Seq<char>, y: Seq<char>) -> bool
    decreases h.len(),
{
    if h.len() == 0 {
        false
    } else {
        met(h.drop_last(), x, y) || met_in(h.last()@, x, y)
    }
}

/// Whether the players `x` and `y` have been paired together in one of the rounds.
pub fn have_met(rounds: &Vec<Round>, x: &String, y: &String) -> (r: bool)
    ensures
        r == met(rounds@, x@, y@),
{
    let mut found = false;
    let mut i: usize = 0;
    while i < rounds.len()
        invariant
            i <= rounds@.len(),
            found == met(rounds@.take(i as int), x@, y@),
        decreases rounds@.len() - i,
    {
        proof {
            lemma_take_step(rounds@, i as int);
        }
        let ps = rounds[i].get_pairings();
        let mut in_round = false;
        let mut j: usize = 0;
        while j < ps.len()
            invariant
                j <= ps@.len(),
                ps@ == rounds@[i as int]@,
                in_round == met_in(ps@.take(j as int), x@, y@),
            decreases ps@.len() - j,
        {
            proof {
                lemma_take_step(ps@, j as int);
            }
            if ps[j].has_id(x) && ps[j].has_id(y) {
                in_round = true;
            }
            j += 1;
        }
        assert(ps@.take(ps@.len() as int) =~= ps@);
        found = found || in_round;
        i += 1;
    }
    assert(rounds@.take(rounds@.len() as int) =~= rounds@);
    found
}

} // verus!
