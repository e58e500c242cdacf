//! Ranking of players and the grouping of ranked players into pairs.
use vstd::prelude::*;
use crate::player::Player;
use crate::round::Round;
use crate::pairing::Pairing;
use crate::standings::{
    met, have_met, had_bye, bye_given, score, strength_of_schedule, extended_strength_of_schedule, Points, tally,
    strength, extended_strength,
};
use rand::seq::SliceRandom;

verus! {

broadcast use vstd::seq_lib::group_to_multiset_ensures, vstd::multiset::group_multiset_axioms;

/// Relies on rand's `SliceRandom::shuffle` with the thread-local generator:
/// the elements are put in a random order, none added or lost.
#[verifier::external_body]
fn shuffle(v: &mut Vec<usize>)
    ensures
        final(v)@.to_multiset() == old(v)@.to_multiset(),
{
    v.shuffle(&mut rand::thread_rng());
}

/// The ranking key of a player: score, strength of schedule, extended strength of schedule.
pub type Key = (u128, u128, u128);

/// Whether key `a` ranks at least as high as key `b`: by score, then strength of
/// schedule, then extended strength of schedule, each compared only on a tie of the one before.
pub open spec fn ranks_at_least(a: (int, int, int), b: (int, int, int)) -> bool {
    a.0 > b.0 || (a.0 == b.0 && (a.1 > b.1 || (a.1 == b.1 && a.2 >= b.2)))
}

/// Whether key `a` with seed position `ta` comes no later than key `b` with seed
/// position `tb`: by the keys as in `ranks_at_least`, and on equal keys by the
/// earlier seed position.
pub open spec fn precedes(a: (int, int, int), ta: int, b: (int, int, int), tb: int) -> bool {
    a.0 > b.0 || (a.0 == b.0 && (a.1 > b.1 || (a.1 == b.1 && (a.2 > b.2 || (a.2 == b.2 && ta
        <= tb)))))
}

/// Whether entry `x` comes no later than entry `y` by `keys`, ties broken by `ties`.
pub open spec fn ahead(keys: Seq<Key>, ties: Seq<usize>, x: usize, y: usize) -> bool {
    precedes(key_view(keys[x as int]), ties[x as int] as int, key_view(keys[y as int]), ties[y as int] as int)
}

pub open spec fn key_view(k: Key) -> (int, int, int) {
    (k.0 as int, k.1 as int, k.2 as int)
}

/// The ranking key of player `id` after the rounds `h`.
pub open spec fn standing_key(h: Seq<Round>, id: Seq<char>, pts: Points) -> (int, int, int) {
    (score(h, id, pts), strength_of_schedule(h, id, pts), extended_strength_of_schedule(h, id, pts))
}

/// Whether `s` holds each of `0..n` exactly once.
pub open spec fn is_permutation(s: Seq<usize>, n: int) -> bool {
    &&& s.len() == n
    &&& s.no_duplicates()
    &&& forall|i: int| 0 <= i < s.len() ==> #[trigger] s[i] < n
    &&& forall|x: usize| x < n ==> #[trigger] s.contains(x)
}

/// A random order of `0..n`.
pub fn random_order(n: usize) -> (r: Vec<usize>)
    ensures
        is_permutation(r@, n as int),
{
    let mut v: Vec<usize> = Vec::new();
    let mut i: usize = 0;
    while i < n
        invariant
            i <= n,
            v@.len() == i,
            forall|k: int| 0 <= k < i ==> #[trigger] v@[k] == k,
        decreases n - i,
    {
        v.push(i);
        i += 1;
    }
    let ghost before = v@;
    assert forall|x: usize| x < n implies #[trigger] before.contains(x) by {
        assert(before[x as int] == x);
    }
    assert(is_permutation(before, n as int));
    shuffle(&mut v);
    proof {
        lemma_same_multiset_permutation(before, v@, n as int);
    }
    v
}

/// A sequence with the same elements as a permutation is a permutation.
pub proof fn lemma_same_multiset_permutation(a: Seq<usize>, b: Seq<usize>, n: int)
    requires
        is_permutation(a, n),
        a.to_multiset() == b.to_multiset(),
    ensures
        is_permutation(b, n),
{
    a.lemma_multiset_has_no_duplicates();
    b.lemma_multiset_has_no_duplicates_conv();
    assert(b.len() == b.to_multiset().len());
    assert(a.len() == a.to_multiset().len());
    assert forall|i: int| 0 <= i < b.len() implies #[trigger] b[i] < n by {
        assert(b.to_multiset().count(b[i]) > 0);
        assert(a.contains(b[i]));
    }
    assert forall|x: usize| x < n implies #[trigger] b.contains(x) by {
        assert(a.contains(x));
        assert(a.to_multiset().count(x) > 0);
    }
}

/// The ranking keys of the players, from the round history.
pub fn ranking_keys(players: &Vec<Player>, rounds: &Vec<Round>, pts: Points) -> (r: Vec<Key>)
    ensures
        r@.len() == players@.len(),
        forall|i: int|
            0 <= i < r@.len() ==> key_view(#[trigger] r@[i]) == standing_key(
                rounds@,
                players@[i].id_view(),
                pts,
            ),
{
    let mut keys: Vec<Key> = Vec::new();
    let mut i: usize = 0;
    while i < players.len()
        invariant
            i <= players@.len(),
            keys@.len() == i,
            forall|k: int|
                0 <= k < i ==> {
                    let id = #[trigger] players@[k].id_view();
                    &&& keys@[k].0 == score(rounds@, id, pts)
                    &&& keys@[k].1 == strength_of_schedule(rounds@, id, pts)
                    &&& keys@[k].2 == extended_strength_of_schedule(rounds@, id, pts)
                },
        decreases players@.len() - i,
    {
        let id = players[i].get_id();
        let (s, _) = tally(rounds, id, pts);
        let sos = strength(rounds, id, pts);
        let esos = extended_strength(rounds, id, pts);
        keys.push((s, sos, esos));
        assert(key_view(keys@[i as int]) == standing_key(rounds@, players@[i as int].id_view(), pts));
        i += 1;
    }
    keys
}

/// Orders `start` best first by `keys`. Elements of equal key keep their order in `start`.
pub fn rank_order(keys: &Vec<Key>, ties: &Vec<usize>, start: Vec<usize>) -> (out: Vec<usize>)
    requires
        ties@.len() == keys@.len(),
        forall|i: int| 0 <= i < start@.len() ==> #[trigger] start@[i] < keys@.len(),
    ensures
        out@.to_multiset() == start@.to_multiset(),
        out@.len() == start@.len(),
        forall|i: int, j: int|
            0 <= i < j < out@.len() ==> ahead(keys@, ties@, #[trigger] out@[i], #[trigger] out@[j]),
{
    let mut rest = start;
    let mut out: Vec<usize> = Vec::new();
    while rest.len() > 0
        invariant
            ties@.len() == keys@.len(),
            out@.to_multiset().add(rest@.to_multiset()) == start@.to_multiset(),
            forall|i: int| 0 <= i < rest@.len() ==> #[trigger] rest@[i] < keys@.len(),
            forall|i: int| 0 <= i < out@.len() ==> #[trigger] out@[i] < keys@.len(),
            forall|i: int, j: int|
                0 <= i < j < out@.len() ==> ahead(keys@, ties@, #[trigger] out@[i], #[trigger] out@[j]),
            forall|i: int, j: int|
                0 <= i < out@.len() && 0 <= j < rest@.len() ==> ahead(keys@, ties@, #[trigger] out@[i], #[trigger] rest@[j]),
        decreases rest@.len(),
    {
        let mut best: usize = 0;
        let mut j: usize = 1;
        while j < rest.len()
            invariant
                0 <= best < j <= rest@.len(),
                ties@.len() == keys@.len(),
                forall|i: int| 0 <= i < rest@.len() ==> #[trigger] rest@[i] < keys@.len(),
                forall|t: int|
                    0 <= t < j ==> ahead(keys@, ties@, rest@[best as int], #[trigger] rest@[t]),
            decreases rest@.len() - j,
        {
            let kj = keys[rest[j]];
            let kb = keys[rest[best]];
            if kj.0 > kb.0 || (kj.0 == kb.0 && (kj.1 > kb.1 || (kj.1 == kb.1 && (kj.2 > kb.2 || (kj.2
                == kb.2 && ties[rest[j]] < ties[rest[best]]))))) {
                best = j;
            }
            j += 1;
        }
        let ghost old_rest = rest@;
        let x = rest.remove(best);
        out.push(x);
        assert(out@.to_multiset().add(rest@.to_multiset()) =~= start@.to_multiset()) by {
            assert(old_rest.remove(best as int) == rest@);
        }
        assert forall|i: int, j: int|
            0 <= i < out@.len() && 0 <= j < rest@.len() implies ahead(keys@, ties@, #[trigger] out@[i], #[trigger] rest@[j]) by {
            if j < best {
                assert(rest@[j] == old_rest[j]);
            } else {
                assert(rest@[j] == old_rest[j + 1]);
            }
        }
    }
    assert(out@.len() == out@.to_multiset().len());
    assert(rest@.to_multiset().len() == 0);
    assert(start@.len() == start@.to_multiset().len());
    out
}

} // verus!

verus! {

/// The position in `ranked` of the bye recipient: the lowest ranked player who
/// has not had a bye yet, or the lowest ranked player if every one has had one.
pub fn bye_position(ranked: &Vec<usize>, byed: &Vec<bool>) -> (pos: usize)
    requires
        ranked@.len() > 0,
        forall|i: int| 0 <= i < ranked@.len() ==> #[trigger] ranked@[i] < byed@.len(),
    ensures
        pos < ranked@.len(),
        !byed@[ranked@[pos as int] as int] ==> forall|i: int|
            pos < i < ranked@.len() ==> byed@[#[trigger] ranked@[i] as int],
        byed@[ranked@[pos as int] as int] ==> pos == ranked@.len() - 1 && forall|i: int|
            0 <= i < ranked@.len() ==> byed@[#[trigger] ranked@[i] as int],
{
    let mut i: usize = ranked.len();
    while i > 0
        invariant
            i <= ranked@.len(),
            forall|t: int| 0 <= t < ranked@.len() ==> #[trigger] ranked@[t] < byed@.len(),
            forall|t: int| i <= t < ranked@.len() ==> byed@[#[trigger] ranked@[t] as int],
        decreases i,
    {
        i -= 1;
        if !byed[ranked[i]] {
            return i;
        }
    }
    ranked.len() - 1
}

/// The identifier of player number `x`.
pub open spec fn id_at(players: Seq<Player>, x: usize) -> Seq<char> {
    players[x as int].id_view()
}

/// Pair `k` of `flat` (its elements `2k` and `2k + 1`) is a rematch only where
/// its first player has met every player placed after it in `flat` and every player of `rest`.
pub open spec fn rematch_forced(
    h: Seq<Round>,
    players: Seq<Player>,
    flat: Seq<usize>,
    rest: Seq<usize>,
    k: int,
) -> bool {
    met(h, id_at(players, flat[2 * k]), id_at(players, flat[2 * k + 1])) ==> {
        &&& forall|t: int|
            2 * k + 1 < t < flat.len() ==> met(
                h,
                id_at(players, flat[2 * k]),
                id_at(players, #[trigger] flat[t]),
            )
        &&& forall|j: int|
            0 <= j < rest.len() ==> met(
                h,
                id_at(players, flat[2 * k]),
                id_at(players, #[trigger] rest[j]),
            )
    }
}

/// The standing of player number `x` after the rounds `h`.
pub open spec fn key_at(h: Seq<Round>, players: Seq<Player>, pts: Points, x: usize) -> (int, int, int) {
    standing_key(h, players[x as int].id_view(), pts)
}

/// Whether player number `x` comes no later than player number `y` in the
/// ranking after the rounds `h`: by standing, ties broken by the earlier
/// position in `seed`.
pub open spec fn ranked_before(
    h: Seq<Round>,
    players: Seq<Player>,
    pts: Points,
    seed: Seq<usize>,
    x: usize,
    y: usize,
) -> bool {
    precedes(key_at(h, players, pts, x), seed.index_of(x), key_at(h, players, pts, y), seed.index_of(y))
}

/// The players numbered in `s` are in ranking order, best first.
pub open spec fn sorted_by_standing(
    h: Seq<Round>,
    players: Seq<Player>,
    pts: Points,
    seed: Seq<usize>,
    s: Seq<usize>,
) -> bool {
    forall|i: int, j: int|
        0 <= i < j < s.len() ==> ranked_before(h, players, pts, seed, #[trigger] s[i], #[trigger] s[j])
}

/// Pair `k` of `flat` was formed from the top of the ranking: its first player
/// comes before its second and every player placed after it in `flat` or left
/// in `rest`; its second comes before every such player whom the first has not
/// met, and before every such player at all if the first had met the second.
pub open spec fn placed_by_rank(
    h: Seq<Round>,
    players: Seq<Player>,
    pts: Points,
    seed: Seq<usize>,
    flat: Seq<usize>,
    rest: Seq<usize>,
    k: int,
) -> bool {
    let a = flat[2 * k];
    let b = flat[2 * k + 1];
    &&& ranked_before(h, players, pts, seed, a, b)
    &&& forall|t: int|
        2 * k + 1 < t < flat.len() ==> ranked_before(h, players, pts, seed, a, #[trigger] flat[t]) && ((!met(h, id_at(players, a), id_at(players, flat[t])) || met(h, id_at(players, a), id_at(players, b))) ==> ranked_before(h, players, pts, seed, b, flat[t]))
    &&& forall|j: int|
        0 <= j < rest.len() ==> ranked_before(h, players, pts, seed, a, #[trigger] rest[j]) && ((!met(h, id_at(players, a), id_at(players, rest[j])) || met(h, id_at(players, a), id_at(players, b))) ==> ranked_before(h, players, pts, seed, b, rest[j]))
}

/// Pairs the ranked `pool` greedily from the top: each pair is written as two
/// consecutive elements of the result. The highest ranked player left is paired
/// with the next highest ranked player left whom they have not met, and with the
/// next one left if they have met them all.
pub(crate) fn group(
    players: &Vec<Player>,
    rounds: &Vec<Round>,
    pts: Ghost<Points>,
    seed: Ghost<Seq<usize>>,
    pool: Vec<usize>,
) -> (flat: Vec<usize>)
    requires
        pool@.len() % 2 == 0,
        forall|i: int| 0 <= i < pool@.len() ==> #[trigger] pool@[i] < players@.len(),
        sorted_by_standing(rounds@, players@, pts@, seed@, pool@),
    ensures
        forall|k: int|
            0 <= k < flat@.len() / 2 ==> #[trigger] placed_by_rank(rounds@, players@, pts@, seed@,
                flat@,
                Seq::empty(),
                k,
            ),
        flat@.to_multiset() == pool@.to_multiset(),
        flat@.len() == pool@.len(),
        forall|k: int|
            0 <= k < flat@.len() / 2 ==> #[trigger] rematch_forced(
                rounds@,
                players@,
                flat@,
                Seq::empty(),
                k,
            ),
{
    let mut rest = pool;
    let mut flat: Vec<usize> = Vec::new();
    while rest.len() > 0
        invariant
            flat@.to_multiset().add(rest@.to_multiset()) == pool@.to_multiset(),
            flat@.len() % 2 == 0,
            rest@.len() % 2 == 0,
            forall|i: int| 0 <= i < rest@.len() ==> #[trigger] rest@[i] < players@.len(),
            forall|i: int| 0 <= i < flat@.len() ==> #[trigger] flat@[i] < players@.len(),
            forall|k: int|
                0 <= k < flat@.len() / 2 ==> #[trigger] rematch_forced(
                    rounds@,
                    players@,
                    flat@,
                    rest@,
                    k,
                ),
            sorted_by_standing(rounds@, players@, pts@, seed@, rest@),
            forall|k: int|
                0 <= k < flat@.len() / 2 ==> #[trigger] placed_by_rank(rounds@, players@, pts@, seed@,
                    flat@,
                    rest@,
                    k,
                ),
        decreases rest@.len(),
    {
        let ghost r0 = rest@;
        let ghost f0 = flat@;
        let a = rest.remove(0);
        let ghost r1 = rest@;
        assert(r1 == r0.remove(0));
        let mut choice: usize = 0;
        let mut found = false;
        let mut j: usize = 0;
        while j < rest.len() && !found
            invariant
                rest@ == r1,
                r1.len() > 0,
                a < players@.len(),
                j <= r1.len(),
                forall|i: int| 0 <= i < r1.len() ==> #[trigger] r1[i] < players@.len(),
                found ==> choice < r1.len() && !met(
                    rounds@,
                    id_at(players@, a),
                    id_at(players@, r1[choice as int]),
                ),
                !found ==> choice == 0 && forall|t: int|
                    0 <= t < j ==> met(
                        rounds@,
                        id_at(players@, a),
                        id_at(players@, #[trigger] r1[t]),
                    ),
                found ==> forall|t: int|
                    0 <= t < choice ==> met(
                        rounds@,
                        id_at(players@, a),
                        id_at(players@, #[trigger] r1[t]),
                    ),
            decreases r1.len() - j,
        {
            if !have_met(rounds, players[a].get_id(), players[rest[j]].get_id()) {
                choice = j;
                found = true;
            }
            j += 1;
        }
        let b = rest.remove(choice);
        let ghost r2 = rest@;
        assert(r2 == r1.remove(choice as int));
        flat.push(a);
        flat.push(b);
        let ghost f2 = flat@;
        assert(f2 == f0.push(a).push(b));
        assert(flat@.to_multiset().add(rest@.to_multiset()) =~= pool@.to_multiset());
        assert forall|k: int| 0 <= k < flat@.len() / 2 implies #[trigger] rematch_forced(
            rounds@,
            players@,
            flat@,
            rest@,
            k,
        ) by {
            if k < f0.len() / 2 {
                assert(rematch_forced(rounds@, players@, f0, r0, k));
                assert(f2[2 * k] == f0[2 * k]);
                assert(f2[2 * k + 1] == f0[2 * k + 1]);
                if met(rounds@, id_at(players@, f0[2 * k]), id_at(players@, f0[2 * k + 1])) {
                    assert forall|t: int| 2 * k + 1 < t < f2.len() implies met(
                        rounds@,
                        id_at(players@, f2[2 * k]),
                        id_at(players@, #[trigger] f2[t]),
                    ) by {
                        if t == f0.len() {
                            assert(f2[t] == r0[0]);
                        } else if t == f0.len() + 1 {
                            assert(f2[t] == r0[choice + 1]);
                        } else {
                            assert(f2[t] == f0[t]);
                        }
                    }
                    assert forall|j: int| 0 <= j < r2.len() implies met(
                        rounds@,
                        id_at(players@, f2[2 * k]),
                        id_at(players@, #[trigger] r2[j]),
                    ) by {
                        if j < choice {
                            assert(r2[j] == r0[j + 1]);
                        } else {
                            assert(r2[j] == r0[j + 2]);
                        }
                    }
                }
            } else {
                assert(k == f0.len() / 2);
                assert(f2[2 * k] == a);
                assert(f2[2 * k + 1] == b);
                if met(rounds@, id_at(players@, a), id_at(players@, b)) {
                    assert(!found);
                    assert forall|j: int| 0 <= j < r2.len() implies met(
                        rounds@,
                        id_at(players@, f2[2 * k]),
                        id_at(players@, #[trigger] r2[j]),
                    ) by {
                        if j < choice {
                            assert(r2[j] == r1[j]);
                        } else {
                            assert(r2[j] == r1[j + 1]);
                        }
                    }
                }
            }
        }
        assert(sorted_by_standing(rounds@, players@, pts@, seed@, r2)) by {
            assert forall|i: int, j: int| 0 <= i < j < r2.len() implies ranked_before(rounds@, players@, pts@, seed@, #[trigger] r2[i], #[trigger] r2[j]) by {
                let i0 = if i < choice { i + 1 } else { i + 2 };
                let j0 = if j < choice { j + 1 } else { j + 2 };
                assert(r2[i] == r0[i0]);
                assert(r2[j] == r0[j0]);
            }
        }
        assert forall|k: int| 0 <= k < flat@.len() / 2 implies #[trigger] placed_by_rank(rounds@, players@, pts@, seed@,
            flat@,
            rest@,
            k,
        ) by {
            if k < f0.len() / 2 {
                assert(placed_by_rank(rounds@, players@, pts@, seed@, f0, r0, k));
                assert(f2[2 * k] == f0[2 * k]);
                assert(f2[2 * k + 1] == f0[2 * k + 1]);
                assert forall|t: int| 2 * k + 1 < t < f2.len() implies ranked_before(rounds@, players@, pts@, seed@, f2[2 * k], #[trigger] f2[t]) && ((!met(rounds@, id_at(players@, f2[2 * k]), id_at(players@, f2[t])) || met(rounds@, id_at(players@, f2[2 * k]), id_at(players@, f2[2 * k + 1]))) ==> ranked_before(rounds@, players@, pts@, seed@, f2[2 * k + 1], f2[t])) by {
                    if t == f0.len() {
                        assert(f2[t] == r0[0]);
                    } else if t == f0.len() + 1 {
                        assert(f2[t] == r0[choice + 1]);
                    } else {
                        assert(f2[t] == f0[t]);
                    }
                }
                assert forall|j: int| 0 <= j < r2.len() implies ranked_before(rounds@, players@, pts@, seed@, f2[2 * k], #[trigger] r2[j]) && ((!met(rounds@, id_at(players@, f2[2 * k]), id_at(players@, r2[j])) || met(rounds@, id_at(players@, f2[2 * k]), id_at(players@, f2[2 * k + 1]))) ==> ranked_before(rounds@, players@, pts@, seed@, f2[2 * k + 1], r2[j])) by {
                    if j < choice {
                        assert(r2[j] == r0[j + 1]);
                    } else {
                        assert(r2[j] == r0[j + 2]);
                    }
                }
            } else {
                assert(k == f0.len() / 2);
                assert(f2[2 * k] == a);
                assert(f2[2 * k + 1] == b);
                assert(a == r0[0]);
                assert(b == r0[choice + 1]);
                assert forall|j: int| 0 <= j < r2.len() implies ranked_before(rounds@, players@, pts@, seed@, f2[2 * k], #[trigger] r2[j]) && ((!met(rounds@, id_at(players@, f2[2 * k]), id_at(players@, r2[j])) || met(rounds@, id_at(players@, f2[2 * k]), id_at(players@, f2[2 * k + 1]))) ==> ranked_before(rounds@, players@, pts@, seed@, f2[2 * k + 1], r2[j])) by {
                    if j < choice {
                        assert(r2[j] == r1[j]);
                        assert(r2[j] == r0[j + 1]);
                    } else {
                        assert(r2[j] == r1[j + 1]);
                        assert(r2[j] == r0[j + 2]);
                    }
                }
            }
        }
    }
    assert(flat@.len() == flat@.to_multiset().len());
    assert(rest@.to_multiset().len() == 0);
    assert(pool@.len() == pool@.to_multiset().len());
    assert(rest@ =~= Seq::<usize>::empty());
    flat
}

} // verus!

verus! {

/// For each player, whether they have had a bye.
pub fn bye_flags(players: &Vec<Player>, rounds: &Vec<Round>) -> (r: Vec<bool>)
    ensures
        r@.len() == players@.len(),
        forall|i: int| 0 <= i < r@.len() ==> #[trigger] r@[i] == had_bye(rounds@, players@[i].id_view()),
{
    let mut flags: Vec<bool> = Vec::new();
    let mut i: usize = 0;
    while i < players.len()
        invariant
            i <= players@.len(),
            flags@.len() == i,
            forall|k: int| 0 <= k < i ==> #[trigger] flags@[k] == had_bye(rounds@, players@[k].id_view()),
        decreases players@.len() - i,
    {
        flags.push(bye_given(rounds, players[i].get_id()));
        i += 1;
    }
    flags
}

/// For each number `x` in `0..n`, its position in the permutation `seed`.
pub fn seed_positions(seed: &Vec<usize>) -> (r: Vec<usize>)
    requires
        is_permutation(seed@, seed@.len() as int),
    ensures
        r@.len() == seed@.len(),
        forall|x: int| 0 <= x < r@.len() ==> #[trigger] r@[x] as int == seed@.index_of(x as usize),
{
    let n = seed.len();
    let mut r: Vec<usize> = Vec::new();
    let mut i: usize = 0;
    while i < n
        invariant
            i <= n,
            n == seed@.len(),
            r@.len() == i,
        decreases n - i,
    {
        r.push(0);
        i += 1;
    }
    let mut p: usize = 0;
    while p < n
        invariant
            p <= n,
            n == seed@.len(),
            r@.len() == n,
            is_permutation(seed@, n as int),
            forall|q: int| 0 <= q < p ==> #[trigger] r@[seed@[q] as int] == q,
        decreases n - p,
    {
        let ghost before = r@;
        r.set(seed[p], p);
        assert forall|q: int| 0 <= q < p + 1 implies #[trigger] r@[seed@[q] as int] == q by {
            if q < p {
                assert(seed@[q] != seed@[p as int]);
                assert(r@[seed@[q] as int] == before[seed@[q] as int]);
            }
        }
        p += 1;
    }
    assert forall|x: int| 0 <= x < r@.len() implies #[trigger] r@[x] as int == seed@.index_of(x as usize) by {
        assert(seed@.contains(x as usize));
        let q = choose|q: int| 0 <= q < seed@.len() && seed@[q] == x as usize;
        assert(r@[seed@[q] as int] == q);
        let k = seed@.index_of(x as usize);
        assert(0 <= k < seed@.len() && seed@[k] == x as usize);
        assert(k == q);
    }
    r
}

/// The players' numbers in pairing order: pair `k` is elements `2k` and
/// `2k + 1`, and with an odd number of players the last element gets the bye.
/// `seed` is the order in which players of equal standing are ranked.
pub fn plan(players: &Vec<Player>, rounds: &Vec<Round>, pts: Points, seed: Vec<usize>) -> (flat: Vec<usize>)
    requires
        is_permutation(seed@, players@.len() as int),
    ensures
        is_permutation(flat@, players@.len() as int),
        forall|k: int|
            0 <= k < players@.len() / 2 ==> #[trigger] rematch_forced(
                rounds@,
                players@,
                flat@.take(players@.len() - players@.len() % 2),
                Seq::empty(),
                k,
            ),
        players@.len() % 2 == 1 ==> bye_is_fair(rounds@, players@, pts, flat@.last()),
        forall|k: int|
            0 <= k < players@.len() / 2 ==> #[trigger] placed_by_rank(rounds@, players@, pts, seed@,
                flat@.take(players@.len() - players@.len() % 2),
                Seq::empty(),
                k,
            ),
{
    let n = players.len();
    let ghost sv = seed@;
    let keys = ranking_keys(players, rounds, pts);
    let ties = seed_positions(&seed);
    let mut ranked = rank_order(&keys, &ties, seed);
    proof {
        lemma_same_multiset_permutation(sv, ranked@, n as int);
        assert forall|i: int, j: int| 0 <= i < j < ranked@.len() implies ranked_before(rounds@, players@, pts, sv, #[trigger] ranked@[i], #[trigger] ranked@[j]) by {
            assert(key_view(keys@[ranked@[i] as int]) == key_at(rounds@, players@, pts, ranked@[i]));
            assert(key_view(keys@[ranked@[j] as int]) == key_at(rounds@, players@, pts, ranked@[j]));
            assert(ahead(keys@, ties@, ranked@[i], ranked@[j]));
        }
    }
    if n % 2 == 0 {
        let flat = group(players, rounds, Ghost(pts), Ghost(sv), ranked);
        proof {
            lemma_same_multiset_permutation(ranked@, flat@, n as int);
            assert(flat@.take(n as int) =~= flat@);
        }
        flat
    } else {
        let byed = bye_flags(players, rounds);
        let pos = bye_position(&ranked, &byed);
        let ghost full = ranked@;
        let b = ranked.remove(pos);
        assert(ranked@ == full.remove(pos as int));
        assert forall|i: int, j: int| 0 <= i < j < ranked@.len() implies ranked_before(rounds@, players@, pts, sv, #[trigger] ranked@[i], #[trigger] ranked@[j]) by {
            let i0 = if i < pos { i } else { i + 1 };
            let j0 = if j < pos { j } else { j + 1 };
            assert(ranked@[i] == full[i0]);
            assert(ranked@[j] == full[j0]);
        }
        let mut flat = group(players, rounds, Ghost(pts), Ghost(sv), ranked);
        let ghost paired = flat@;
        flat.push(b);
        proof {
            assert(flat@.to_multiset() =~= full.to_multiset());
            lemma_same_multiset_permutation(full, flat@, n as int);
            assert(flat@.take(n - 1) =~= paired);
            assert forall|i: int|
                0 <= i < n && i != b && !had_bye(rounds@, players@[i].id_view()) implies ranks_at_least(
                standing_key(rounds@, #[trigger] players@[i].id_view(), pts),
                standing_key(rounds@, players@[b as int].id_view(), pts),
            ) by {
                assert(full.contains(i as usize));
                let q = choose|q: int| 0 <= q < full.len() && full[q] == i as usize;
                assert(byed@[full[q] as int] == false);
                assert(q != pos);
                assert(q < pos);
                assert(ranks_at_least(key_view(keys@[full[q] as int]), key_view(keys@[full[pos as int] as int])));
            }
            if forall|i: int| 0 <= i < n ==> had_bye(rounds@, #[trigger] players@[i].id_view()) {
                assert forall|i: int| 0 <= i < n && i != b implies ranks_at_least(
                    standing_key(rounds@, #[trigger] players@[i].id_view(), pts),
                    standing_key(rounds@, players@[b as int].id_view(), pts),
                ) by {
                    assert(full.contains(i as usize));
                    let q = choose|q: int| 0 <= q < full.len() && full[q] == i as usize;
                    assert(byed@[full[pos as int] as int]);
                    assert(q != pos);
                    assert(q < pos);
                    assert(ranks_at_least(key_view(keys@[full[q] as int]), key_view(keys@[full[pos as int] as int])));
                }
            }
            if exists|i: int| 0 <= i < n && !had_bye(rounds@, #[trigger] players@[i].id_view()) {
                let i = choose|i: int| 0 <= i < n && !had_bye(rounds@, #[trigger] players@[i].id_view());
                assert(full.contains(i as usize));
                let q = choose|q: int| 0 <= q < full.len() && full[q] == i as usize;
                assert(byed@[full[q] as int] == false);
            }
        }
        flat
    }
}

/// The bye goes to player number `b` fairly: to a player without a bye if there
/// is one, and to no player who ranks above another player without a bye; if
/// every player has had a bye, to a player ranked no higher than any other.
pub open spec fn bye_is_fair(h: Seq<Round>, players: Seq<Player>, pts: Points, b: usize) -> bool {
    &&& (forall|i: int| 0 <= i < players.len() ==> had_bye(h, #[trigger] players[i].id_view()))
        ==> forall|i: int|
        0 <= i < players.len() && i != b ==> ranks_at_least(
            standing_key(h, #[trigger] players[i].id_view(), pts),
            standing_key(h, players[b as int].id_view(), pts),
        )
    &&& (exists|i: int| 0 <= i < players.len() && !had_bye(h, #[trigger] players[i].id_view()))
        ==> !had_bye(h, players[b as int].id_view())
    &&& forall|i: int|
        0 <= i < players.len() && i != b && !had_bye(h, players[i].id_view()) ==> ranks_at_least(
            standing_key(h, #[trigger] players[i].id_view(), pts),
            standing_key(h, players[b as int].id_view(), pts),
        )
}

} // verus!
