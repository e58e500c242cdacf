//! Pairings of players for one round, and game results.
use vstd::prelude::*;
use crate::player::Player;

verus! {

/// Pairing results, as seen from one side of a pairing.
#[derive(Debug, Copy, Clone, PartialEq, Eq, Structural)]
pub enum Result {
    Win,
    Draw,
    Loss,
    Bye,
}

/// The result as seen from the other side of the same game.
pub open spec fn mirrored(r: Result) -> Result {
    match r {
        Result::Win => Result::Loss,
        Result::Loss => Result::Win,
        other => other,
    }
}

/// The result as seen from the other side of the same game.
pub fn mirror(r: Result) -> (m: Result)
    ensures
        m == mirrored(r),
{
    match r {
        Result::Win => Result::Loss,
        Result::Loss => Result::Win,
        other => other,
    }
}

/// A pairing of players for a round. Without an opponent it is a bye.
#[derive(Debug, Clone)]
pub struct Pairing {
    player: Player,
    opponent: Option<Player>,
    result: Option<Result>,
}

impl PartialEq for Pairing {
    fn eq(&self, other: &Pairing) -> (r: bool) {
        self.same_players_as(other)
    }
}

impl vstd::std_specs::cmp::PartialEqSpecImpl for Pairing {
    open spec fn obeys_eq_spec() -> bool {
        true
    }

    open spec fn eq_spec(&self, other: &Pairing) -> bool {
        self.same_players(other)
    }
}

impl Pairing {
    pub closed spec fn player_view(&self) -> Player {
        self.player
    }

    pub closed spec fn opponent_view(&self) -> Option<Player> {
        self.opponent
    }

    /// The recorded result, from the first player's side.
    pub closed spec fn result_view(&self) -> Option<Result> {
        self.result
    }

    pub open spec fn is_bye(&self) -> bool {
        self.opponent_view() is None
    }

    /// Whether the player with identifier `id` takes part in this pairing.
    pub open spec fn involves(&self, id: Seq<char>) -> bool {
        self.player_view().id_view() == id || (match self.opponent_view() {
            Some(o) => o.id_view() == id,
            None => false,
        })
    }

    /// Whether the two pairings are between the same players, in either order.
    pub open spec fn same_players(&self, other: &Pairing) -> bool {
        match (self.opponent_view(), other.opponent_view()) {
            (None, None) => self.player_view().id_view() == other.player_view().id_view(),
            (Some(a), Some(b)) => (self.player_view().id_view() == other.player_view().id_view()
                && a.id_view() == b.id_view()) || (self.player_view().id_view() == b.id_view()
                && a.id_view() == other.player_view().id_view()),
            _ => false,
        }
    }

    /// The opponent of the player with identifier `id`, if that player has one here.
    pub open spec fn opponent_of(&self, id: Seq<char>) -> Option<Player> {
        if self.player_view().id_view() == id {
            self.opponent_view()
        } else {
            match self.opponent_view() {
                Some(o) => if o.id_view() == id {
                    Some(self.player_view())
                } else {
                    None
                },
                None => None,
            }
        }
    }

    /// The recorded result of the player with identifier `id`, from that player's side.
    pub open spec fn result_of(&self, id: Seq<char>) -> Option<Result> {
        match self.result_view() {
            Some(r) => if self.player_view().id_view() == id {
                Some(r)
            } else if self.involves(id) {
                Some(mirrored(r))
            } else {
                None
            },
            None => None,
        }
    }

    /// Creates a new pairing
    pub(crate) fn new(player: Player, opponent: Player) -> (r: Pairing)
        ensures
            r.player_view() == player,
            r.opponent_view() == Some(opponent),
            r.result_view() is None,
    {
        Pairing { player, opponent: Some(opponent), result: None }
    }

    /// Creates a new Bye pairing
    pub(crate) fn new_bye(player: Player) -> (r: Pairing)
        ensures
            r.player_view() == player,
            r.opponent_view() is None,
            r.result_view() is None,
    {
        Pairing { player, opponent: None, result: None }
    }

    /// A pairing with the given players and result, as kept in a round's history.
    pub fn from_parts(player: Player, opponent: Option<Player>, result: Option<Result>) -> (r: Pairing)
        ensures
            r.player_view() == player,
            r.opponent_view() == opponent,
            r.result_view() == result,
    {
        Pairing { player, opponent, result }
    }

    /// Creates a new pairing from one or two players: the second, if there
    /// is one, is the opponent.
    pub fn from_slice(players: &[Player]) -> (r: Pairing)
        requires
            players@.len() == 1 || players@.len() == 2,
        ensures
            r.player_view() == players@[0],
            r.opponent_view() == (if players@.len() == 2 {
                Some(players@[1])
            } else {
                None
            }),
            r.result_view() is None,
    {
        let opponent = if players.len() > 1 {
            Some(players[1].duplicate())
        } else {
            None
        };
        Pairing { player: players[0].duplicate(), opponent, result: None }
    }

    /// A copy of this pairing.
    pub fn duplicate(&self) -> (r: Pairing)
        ensures
            r == *self,
    {
        let opponent = match &self.opponent {
            Some(o) => Some(o.duplicate()),
            None => None,
        };
        Pairing { player: self.player.duplicate(), opponent, result: self.result }
    }

    /// Checks if the given player is in this pairing
    pub fn has_player(&self, player: &Player) -> (r: bool)
        ensures
            r == self.involves(player.id_view()),
    {
        if self.player.same_as(player) {
            return true;
        }
        if let Some(opponent) = &self.opponent {
            return opponent.same_as(player);
        }
        false
    }

    /// Checks if the player with identifier `id` is in this pairing
    pub fn has_id(&self, id: &String) -> (r: bool)
        ensures
            r == self.involves(id@),
    {
        if self.player.has_id(id) {
            return true;
        }
        if let Some(opponent) = &self.opponent {
            return opponent.has_id(id);
        }
        false
    }

    /// The recorded result of the player with identifier `id`, from that player's side.
    pub fn get_result_of(&self, id: &String) -> (r: Option<Result>)
        ensures
            r == self.result_of(id@),
    {
        match self.result {
            Some(res) => if self.player.has_id(id) {
                Some(res)
            } else if self.has_id(id) {
                Some(mirror(res))
            } else {
                None
            },
            None => None,
        }
    }

    /// The opponent of the player with identifier `id`, if that player has one here.
    pub fn get_opponent_of(&self, id: &String) -> (r: Option<&Player>)
        ensures
            (match r {
                Some(p) => self.opponent_of(id@) == Some(*p),
                None => self.opponent_of(id@) is None,
            }),
    {
        if self.player.has_id(id) {
            return self.opponent.as_ref();
        }
        if let Some(opponent) = &self.opponent {
            if opponent.has_id(id) {
                return Some(&self.player);
            }
        }
        None
    }

    /// Whether this pairing and `other` are between the same players.
    pub fn same_players_as(&self, other: &Pairing) -> (r: bool)
        ensures
            r == self.same_players(other),
    {
        match (&self.opponent, &other.opponent) {
            (None, None) => self.player.same_as(&other.player),
            (Some(a), Some(b)) => (self.player.same_as(&other.player) && a.same_as(b)) || (
            self.player.same_as(b) && a.same_as(&other.player)),
            _ => false,
        }
    }

    /// Gets the first player in the pairing
    pub fn get_player(&self) -> (r: &Player)
        ensures
            *r == self.player_view(),
    {
        &self.player
    }

    /// Gets the second player in the pairing
    ///
    /// This will be None if the first player had a bye this round
    pub fn get_opponent(&self) -> (r: &Option<Player>)
        ensures
            *r == self.opponent_view(),
    {
        &self.opponent
    }

    /// Returns the given player's opponent if they were in this pairing and had an opponent
    pub fn get_player_opponent(&self, player: &Player) -> (r: Option<&Player>)
        ensures
            (match r {
                Some(p) => self.opponent_of(player.id_view()) == Some(*p),
                None => self.opponent_of(player.id_view()) is None,
            }),
    {
        if self.player.same_as(player) {
            return self.opponent.as_ref();
        }
        if let Some(opponent) = &self.opponent {
            if opponent.same_as(player) {
                return Some(&self.player);
            }
        }
        None
    }

    /// Gets the pairing result, from the first player's side
    ///
    /// This will be None if the game result has not been reported
    pub fn get_result(&self) -> (r: Option<Result>)
        ensures
            r == self.result_view(),
    {
        self.result
    }

    /// Records the result, from the first player's side. Only a pairing
    /// without a result can get one.
    pub(crate) fn update_result(&mut self, result: Result)
        requires
            old(self).result_view() is None,
        ensures
            final(self).player_view() == old(self).player_view(),
            final(self).opponent_view() == old(self).opponent_view(),
            final(self).result_view() == Some(result),
    {
        self.result = Some(result);
    }
}

} // verus!
