//! Turning a pairing order into the pairings of a round, and what such a round satisfies.
use vstd::prelude::*;
use crate::pairing::Pairing;
use crate::player::Player;
use crate::ranking::{
    precedes, bye_is_fair, id_at, is_permutation, key_at, placed_by_rank, plan, ranks_at_least, rematch_forced,
    standing_key,
};
use crate::standings::Points;
use crate::round::Round;
use crate::standings::{entry_in, met};

verus! {

/// No two players share an identifier.
pub open spec fn distinct_ids(players: Seq<Player>) -> bool {
    forall|i: int, j: int|
        0 <= i < players.len() && 0 <= j < players.len() && i != j ==> #[trigger] players[i].id_view()
            != #[trigger] players[j].id_view()
}

/// `ps` pairs the players in the order `flat`: pairing `k` is elements `2k` and
/// `2k + 1`, and with an odd number of players a last bye pairing holds the last element.
/// No result is recorded yet.
pub open spec fn laid_out(ps: Seq<Pairing>, players: Seq<Player>, flat: Seq<usize>) -> bool {
    let n = flat.len() as int;
    &&& ps.len() == n / 2 + n % 2
    &&& forall|k: int|
        0 <= k < n / 2 ==> {
            &&& (#[trigger] ps[k]).player_view() == players[flat[2 * k] as int]
            &&& ps[k].opponent_view() == Some(players[flat[2 * k + 1] as int])
            &&& ps[k].result_view() is None
        }
    &&& n % 2 == 1 ==> {
        &&& ps[n / 2].player_view() == players[flat[n - 1] as int]
        &&& ps[n / 2].opponent_view() is None
        &&& ps[n / 2].result_view() is None
    }
}

/// Each player of `players` is in exactly one pairing of `ps`, and every player
/// of `ps` is an entry of `players` itself. Nobody is paired against themselves.
pub open spec fn partitions(ps: Seq<Pairing>, players: Seq<Player>) -> bool {
    &&& forall|i: int| 0 <= i < players.len() ==> named_in(ps, #[trigger] players[i].id_view())
    &&& forall|k: int, id: Seq<char>|
        0 <= k < ps.len() && #[trigger] ps[k].involves(id) ==> on_roster(players, id)
    &&& shares_no_player(ps)
    &&& forall|k: int|
        0 <= k < ps.len() ==> match (#[trigger] ps[k]).opponent_view() {
            Some(o) => o.id_view() != ps[k].player_view().id_view(),
            None => true,
        }
    &&& forall|k: int|
        0 <= k < ps.len() ==> players.contains((#[trigger] ps[k]).player_view()) && match ps[k].opponent_view() {
            Some(o) => players.contains(o),
            None => true,
        }
}

/// Some pairing of `ps` names the player `id`.
pub open spec fn named_in(ps: Seq<Pairing>, id: Seq<char>) -> bool {
    exists|k: int| 0 <= k < ps.len() && #[trigger] ps[k].involves(id)
}

/// Some player of `players` has the identifier `id`.
pub open spec fn on_roster(players: Seq<Player>, id: Seq<char>) -> bool {
    exists|i: int| 0 <= i < players.len() && #[trigger] players[i].id_view() == id
}

/// No player is in two distinct pairings of `ps`.
pub open spec fn shares_no_player(ps: Seq<Pairing>) -> bool {
    forall|k1: int, k2: int, id: Seq<char>|
        0 <= k1 < ps.len() && 0 <= k2 < ps.len() && #[trigger] ps[k1].involves(id)
            && #[trigger] ps[k2].involves(id) ==> k1 == k2
}

/// The pairings that pair the players in the order `flat`.
pub fn build_pairings(players: &Vec<Player>, flat: &Vec<usize>) -> (ps: Vec<Pairing>)
    requires
        forall|i: int| 0 <= i < flat@.len() ==> #[trigger] flat@[i] < players@.len(),
    ensures
        laid_out(ps@, players@, flat@),
{
    let n = flat.len();
    let mut ps: Vec<Pairing> = Vec::new();
    let mut k: usize = 0;
    while k < n / 2
        invariant
            n == flat@.len(),
            k <= n / 2,
            ps@.len() == k,
            forall|i: int| 0 <= i < flat@.len() ==> #[trigger] flat@[i] < players@.len(),
            forall|j: int|
                0 <= j < k ==> {
                    &&& (#[trigger] ps@[j]).player_view() == players@[flat@[2 * j] as int]
                    &&& ps@[j].opponent_view() == Some(players@[flat@[2 * j + 1] as int])
                    &&& ps@[j].result_view() is None
                },
        decreases n / 2 - k,
    {
        let a = players[flat[2 * k]].duplicate();
        let b = players[flat[2 * k + 1]].duplicate();
        ps.push(Pairing::new(a, b));
        k += 1;
    }
    if n % 2 == 1 {
        ps.push(Pairing::new_bye(players[flat[n - 1]].duplicate()));
    }
    ps
}

/// The position in `flat` of a player named by pairing `k` of a round laid out by `flat`.
proof fn lemma_slot(ps: Seq<Pairing>, players: Seq<Player>, flat: Seq<usize>, k: int, id: Seq<char>) -> (q: int)
    requires
        laid_out(ps, players, flat),
        forall|i: int| 0 <= i < flat.len() ==> #[trigger] flat[i] < players.len(),
        0 <= k < ps.len(),
        ps[k].involves(id),
    ensures
        0 <= q < flat.len(),
        q / 2 == k,
        players[flat[q] as int].id_view() == id,
{
    let n = flat.len() as int;
    if k < n / 2 {
        assert(ps[k].player_view() == players[flat[2 * k] as int]);
        if ps[k].player_view().id_view() == id {
            2 * k
        } else {
            2 * k + 1
        }
    } else {
        n - 1
    }
}

/// A round laid out by a permutation of distinct players pairs each of them exactly once.
pub proof fn lemma_laid_out_partitions(ps: Seq<Pairing>, players: Seq<Player>, flat: Seq<usize>)
    requires
        laid_out(ps, players, flat),
        is_permutation(flat, players.len() as int),
        distinct_ids(players),
        players.len() <= usize::MAX,
    ensures
        partitions(ps, players),
{
    let n = flat.len() as int;
    assert forall|i: int| 0 <= i < players.len() implies named_in(ps, #[trigger] players[i].id_view()) by {
        assert(flat.contains(i as usize));
        let q = choose|q: int| 0 <= q < flat.len() && flat[q] == i as usize;
        let k = q / 2;
        if k < n / 2 {
            assert(ps[k].player_view() == players[flat[2 * k] as int]);
            if q == 2 * k {
                assert(ps[k].player_view().id_view() == players[i].id_view());
            } else {
                assert(q == 2 * k + 1);
                assert(ps[k].opponent_view() == Some(players[flat[2 * k + 1] as int]));
            }
            assert(ps[k].involves(players[i].id_view()));
        } else {
            assert(n % 2 == 1 && q == n - 1 && k == n / 2);
            assert(ps[k].player_view() == players[flat[n - 1] as int]);
            assert(ps[k].involves(players[i].id_view()));
        }
    }
    assert forall|k: int, id: Seq<char>| 0 <= k < ps.len() && #[trigger] ps[k].involves(id) implies on_roster(players, id) by {
        let q = lemma_slot(ps, players, flat, k, id);
        assert(players[flat[q] as int].id_view() == id);
    }
    assert forall|k1: int, k2: int, id: Seq<char>|
        0 <= k1 < ps.len() && 0 <= k2 < ps.len() && #[trigger] ps[k1].involves(id)
            && #[trigger] ps[k2].involves(id) implies k1 == k2 by {
        let q1 = lemma_slot(ps, players, flat, k1, id);
        let q2 = lemma_slot(ps, players, flat, k2, id);
        assert(flat[q1] == flat[q2]);
    }
    assert forall|k: int| 0 <= k < ps.len() implies match (#[trigger] ps[k]).opponent_view() {
        Some(o) => o.id_view() != ps[k].player_view().id_view(),
        None => true,
    } by {
        if k < n / 2 {
            assert(ps[k].player_view() == players[flat[2 * k] as int]);
            assert(flat[2 * k] != flat[2 * k + 1]);
        }
    }
    assert(shares_no_player(ps));
    assert forall|k: int| 0 <= k < ps.len() implies players.contains((#[trigger] ps[k]).player_view()) && match ps[k].opponent_view() {
        Some(o) => players.contains(o),
        None => true,
    } by {
        if k < n / 2 {
            assert(ps[k].player_view() == players[flat[2 * k] as int]);
            assert(ps[k].opponent_view() == Some(players[flat[2 * k + 1] as int]));
        } else {
            assert(ps[k].player_view() == players[flat[n - 1] as int]);
        }
    }
}

/// Whether no two of `players` share an identifier.
pub fn all_ids_distinct(players: &Vec<Player>) -> (r: bool)
    ensures
        r == distinct_ids(players@),
{
    let n = players.len();
    let mut i: usize = 0;
    while i < n
        invariant
            n == players@.len(),
            i <= n,
            forall|a: int, b: int|
                0 <= a < i && 0 <= b < n && a != b ==> #[trigger] players@[a].id_view()
                    != #[trigger] players@[b].id_view(),
        decreases n - i,
    {
        let mut j: usize = 0;
        while j < n
            invariant
                n == players@.len(),
                i < n,
                j <= n,
                forall|a: int, b: int|
                    0 <= a < i && 0 <= b < n && a != b ==> #[trigger] players@[a].id_view()
                        != #[trigger] players@[b].id_view(),
                forall|b: int| 0 <= b < j && b != i ==> players@[i as int].id_view() != #[trigger] players@[b].id_view(),
            decreases n - j,
        {
            if j != i && players[i].has_id(players[j].get_id()) {
                assert(!distinct_ids(players@)) by {
                    assert(players@[i as int].id_view() == players@[j as int].id_view());
                }
                return false;
            }
            j += 1;
        }
        i += 1;
    }
    true
}

} // verus!

verus! {

/// Each pairing among the first `m` of `ps` is a rematch only where its first
/// player has met both players of every later pairing among them.
pub open spec fn rematches_forced(h: Seq<Round>, ps: Seq<Pairing>, m: int) -> bool {
    forall|k: int, k2: int|
        0 <= k < k2 < m && met(
            h,
            ps[k].player_view().id_view(),
            ps[k].opponent_view()->Some_0.id_view(),
        ) ==> met(h, ps[k].player_view().id_view(), (#[trigger] ps[k2]).player_view().id_view())
            && met(h, (#[trigger] ps[k]).player_view().id_view(), ps[k2].opponent_view()->Some_0.id_view())
}

/// The number in `players` of the player with identifier `id`.
pub open spec fn roster_index(players: Seq<Player>, id: Seq<char>) -> usize {
    choose|i: usize| (i as int) < players.len() && players[i as int].id_view() == id
}

/// Whether the player `x` comes no later than the player `y` in the ranking
/// after the rounds `h`: by standing, ties broken by the earlier position in
/// `seed` of their numbers in `players`.
pub open spec fn comes_before(
    h: Seq<Round>,
    pts: Points,
    players: Seq<Player>,
    seed: Seq<usize>,
    x: Seq<char>,
    y: Seq<char>,
) -> bool {
    precedes(
        standing_key(h, x, pts),
        seed.index_of(roster_index(players, x)),
        standing_key(h, y, pts),
        seed.index_of(roster_index(players, y)),
    )
}

/// The first `m` pairings of `ps` are formed from the top of the ranking: in
/// each, the first player comes before the second and both players of every
/// later pairing; the second comes before every player of a later pairing whom
/// the first has not met, and before all of them if the two had met.
pub open spec fn follows_standings(
    h: Seq<Round>,
    pts: Points,
    players: Seq<Player>,
    seed: Seq<usize>,
    ps: Seq<Pairing>,
    m: int,
) -> bool {
    &&& forall|k: int|
        0 <= k < m ==> comes_before(
            h,
            pts,
            players,
            seed,
            (#[trigger] ps[k]).player_view().id_view(),
            ps[k].opponent_view()->Some_0.id_view(),
        )
    &&& forall|k: int, k2: int|
        0 <= k < k2 < m ==> {
            let a = (#[trigger] ps[k]).player_view().id_view();
            let b = ps[k].opponent_view()->Some_0.id_view();
            let c = (#[trigger] ps[k2]).player_view().id_view();
            let d = ps[k2].opponent_view()->Some_0.id_view();
            &&& comes_before(h, pts, players, seed, a, c)
            &&& comes_before(h, pts, players, seed, a, d)
            &&& (!met(h, a, c) || met(h, a, b)) ==> comes_before(h, pts, players, seed, b, c)
            &&& (!met(h, a, d) || met(h, a, b)) ==> comes_before(h, pts, players, seed, b, d)
        }
}

/// With distinct identifiers, a player's number is found again from their identifier.
pub proof fn lemma_roster_index(players: Seq<Player>, i: usize)
    requires
        distinct_ids(players),
        (i as int) < players.len(),
    ensures
        roster_index(players, players[i as int].id_view()) == i,
{
    let j = roster_index(players, players[i as int].id_view());
    assert((i as int) < players.len() && players[i as int].id_view() == players[i as int].id_view());
    assert(players[j as int].id_view() == players[i as int].id_view());
}

/// Laid out by an order whose pairs were formed from the top of the ranking, the pairings were too.
pub proof fn lemma_laid_out_ranked(
    h: Seq<Round>,
    pts: Points,
    seed: Seq<usize>,
    ps: Seq<Pairing>,
    players: Seq<Player>,
    flat: Seq<usize>,
)
    requires
        laid_out(ps, players, flat),
        distinct_ids(players),
        forall|i: int| 0 <= i < flat.len() ==> #[trigger] flat[i] < players.len(),
        forall|k: int|
            0 <= k < flat.len() / 2 ==> #[trigger] placed_by_rank(
                h,
                players,
                pts,
                seed,
                flat.take(flat.len() - flat.len() % 2),
                Seq::empty(),
                k,
            ),
    ensures
        follows_standings(h, pts, players, seed, ps, (flat.len() / 2) as int),
{
    let n = flat.len() as int;
    let f = flat.take(n - n % 2);
    assert forall|k: int| 0 <= k < n / 2 implies comes_before(
        h,
        pts,
        players,
        seed,
        (#[trigger] ps[k]).player_view().id_view(),
        ps[k].opponent_view()->Some_0.id_view(),
    ) by {
        assert(placed_by_rank(h, players, pts, seed, f, Seq::empty(), k));
        assert(ps[k].player_view() == players[flat[2 * k] as int]);
        assert(f[2 * k] == flat[2 * k]);
        assert(f[2 * k + 1] == flat[2 * k + 1]);
        lemma_roster_index(players, flat[2 * k]);
        lemma_roster_index(players, flat[2 * k + 1]);
    }
    assert forall|k: int, k2: int| 0 <= k < k2 < n / 2 implies {
        let a = (#[trigger] ps[k]).player_view().id_view();
        let b = ps[k].opponent_view()->Some_0.id_view();
        let c = (#[trigger] ps[k2]).player_view().id_view();
        let d = ps[k2].opponent_view()->Some_0.id_view();
        &&& comes_before(h, pts, players, seed, a, c)
        &&& comes_before(h, pts, players, seed, a, d)
        &&& (!met(h, a, c) || met(h, a, b)) ==> comes_before(h, pts, players, seed, b, c)
        &&& (!met(h, a, d) || met(h, a, b)) ==> comes_before(h, pts, players, seed, b, d)
    } by {
        assert(placed_by_rank(h, players, pts, seed, f, Seq::empty(), k));
        assert(ps[k].player_view() == players[flat[2 * k] as int]);
        assert(ps[k2].player_view() == players[flat[2 * k2] as int]);
        assert(f[2 * k] == flat[2 * k]);
        assert(f[2 * k + 1] == flat[2 * k + 1]);
        assert(f[2 * k2] == flat[2 * k2]);
        assert(f[2 * k2 + 1] == flat[2 * k2 + 1]);
        lemma_roster_index(players, flat[2 * k]);
        lemma_roster_index(players, flat[2 * k + 1]);
        lemma_roster_index(players, flat[2 * k2]);
        lemma_roster_index(players, flat[2 * k2 + 1]);
    }
}

/// Laid out by an order whose pairs avoid rematches where they can, the pairings do too.
pub proof fn lemma_laid_out_rematches(h: Seq<Round>, ps: Seq<Pairing>, players: Seq<Player>, flat: Seq<usize>)
    requires
        laid_out(ps, players, flat),
        forall|k: int|
            0 <= k < flat.len() / 2 ==> #[trigger] rematch_forced(
                h,
                players,
                flat.take(flat.len() - flat.len() % 2),
                Seq::empty(),
                k,
            ),
    ensures
        rematches_forced(h, ps, (flat.len() / 2) as int),
{
    let n = flat.len() as int;
    let f = flat.take(n - n % 2);
    assert forall|k: int, k2: int|
        0 <= k < k2 < n / 2 && met(
            h,
            ps[k].player_view().id_view(),
            ps[k].opponent_view()->Some_0.id_view(),
        ) implies met(h, ps[k].player_view().id_view(), (#[trigger] ps[k2]).player_view().id_view())
            && met(h, (#[trigger] ps[k]).player_view().id_view(), ps[k2].opponent_view()->Some_0.id_view()) by {
        assert(rematch_forced(h, players, f, Seq::empty(), k));
        assert(ps[k].player_view() == players[flat[2 * k] as int]);
        assert(ps[k2].player_view() == players[flat[2 * k2] as int]);
        assert(f[2 * k] == flat[2 * k]);
        assert(f[2 * k + 1] == flat[2 * k + 1]);
        assert(f[2 * k2] == flat[2 * k2]);
        assert(f[2 * k2 + 1] == flat[2 * k2 + 1]);
        assert(met(h, id_at(players, f[2 * k]), id_at(players, f[2 * k2])));
        assert(met(h, id_at(players, f[2 * k]), id_at(players, f[2 * k2 + 1])));
    }
}

/// The first pairing that names `id` is the only one that does.
pub proof fn lemma_entry_unique(ps: Seq<Pairing>, k: int, id: Seq<char>)
    requires
        0 <= k < ps.len(),
        ps[k].involves(id),
        shares_no_player(ps),
    ensures
        entry_in(ps, id) == Some(ps[k]),
    decreases k,
{
    if k > 0 {
        assert(!ps[0].involves(id));
        let rest = ps.drop_first();
        assert(rest[k - 1] == ps[k]);
        assert forall|k1: int, k2: int, x: Seq<char>|
            0 <= k1 < rest.len() && 0 <= k2 < rest.len() && #[trigger] rest[k1].involves(x)
                && #[trigger] rest[k2].involves(x) implies k1 == k2 by {
            assert(rest[k1] == ps[k1 + 1]);
            assert(rest[k2] == ps[k2 + 1]);
        }
        lemma_entry_unique(rest, k - 1, id);
    }
}

/// The pairings `ps` are a legal next round for `players` after the rounds `h`:
/// each player is in exactly one pairing; all pairings but a last bye have two
/// players, and there is a bye exactly when the player count is odd; the bye is
/// fair; pairs are formed from the top of the ranking, in which `seed` orders
/// players of equal standing; rematches only where no
/// other pairing was left; no result yet.
pub open spec fn well_paired(
    h: Seq<Round>,
    players: Seq<Player>,
    pts: Points,
    seed: Seq<usize>,
    ps: Seq<Pairing>,
) -> bool {
    let n = players.len() as int;
    &&& partitions(ps, players)
    &&& ps.len() == n / 2 + n % 2
    &&& forall|k: int| 0 <= k < n / 2 ==> (#[trigger] ps[k]).opponent_view() is Some
    &&& n % 2 == 1 ==> ps[n / 2].is_bye() && exists|b: usize|
        b < n && ps[n / 2].player_view() == players[b as int] && #[trigger] bye_is_fair(
            h,
            players,
            pts,
            b,
        )
    &&& forall|k: int| 0 <= k < ps.len() ==> (#[trigger] ps[k]).result_view() is None
    &&& rematches_forced(h, ps, n / 2)
    &&& follows_standings(h, pts, players, seed, ps, n / 2)
}

/// The pairings of the next round: ranked by standing, ties broken by
/// `seed`, the bye to the lowest ranked player without one, and pairs formed
/// from the top avoiding rematches where possible.
pub fn pair_round(players: &Vec<Player>, rounds: &Vec<Round>, pts: Points, seed: Vec<usize>) -> (r: Vec<Pairing>)
    requires
        distinct_ids(players@),
        is_permutation(seed@, players@.len() as int),
    ensures
        well_paired(rounds@, players@, pts, seed@, r@),
{
    let count = players.len();
    assert(count == players@.len());
    let ghost sv = seed@;
    let flat = plan(players, rounds, pts, seed);
    let ps = build_pairings(players, &flat);
    proof {
        lemma_laid_out_partitions(ps@, players@, flat@);
        lemma_laid_out_rematches(rounds@, ps@, players@, flat@);
        lemma_laid_out_ranked(rounds@, pts, sv, ps@, players@, flat@);
        let n = players@.len() as int;
        if n % 2 == 1 {
            let b = flat@.last();
            assert(ps@[n / 2].player_view() == players@[b as int]);
        }
    }
    ps
}

} // verus!
