//! Player identity records.
use vstd::prelude::*;
use vstd::string::StringExecFns;

verus! {

/// Relies on uuid::Uuid::new_v4 and its `Display`: a fresh random identifier
/// rendered as text. Nothing is promised of the value, which is random.
#[verifier::external_body]
fn fresh_id() -> (r: String) {
    uuid::Uuid::new_v4().to_string()
}

/// A Netrunner player. Two players are the same player exactly when their
/// identifiers are equal.
#[derive(Debug, Clone)]
pub struct Player {
    id: String,
    first_name: String,
    last_name: String,
    nickname: Option<String>,
}

impl PartialEq for Player {
    fn eq(&self, other: &Player) -> (r: bool) {
        self.id == other.id
    }
}

impl vstd::std_specs::cmp::PartialEqSpecImpl for Player {
    open spec fn obeys_eq_spec() -> bool {
        true
    }

    open spec fn eq_spec(&self, other: &Player) -> bool {
        self.id_view() == other.id_view()
    }
}

impl Player {
    /// The player's identifier, as text.
    pub closed spec fn id_view(&self) -> Seq<char> {
        self.id@
    }

    pub closed spec fn first_name_view(&self) -> Seq<char> {
        self.first_name@
    }

    pub closed spec fn last_name_view(&self) -> Seq<char> {
        self.last_name@
    }

    pub closed spec fn nickname_view(&self) -> Option<Seq<char>> {
        match self.nickname {
            Some(n) => Some(n@),
            None => None,
        }
    }

    /// The full name: first name, a space, last name.
    pub open spec fn full_name_view(&self) -> Seq<char> {
        self.first_name_view() + seq![' '] + self.last_name_view()
    }

    /// Creates a new player with a fresh random identifier.
    pub fn new(first_name: &str, last_name: &str, nickname: Option<String>) -> (r: Player)
        ensures
            r.first_name_view() == first_name@,
            r.last_name_view() == last_name@,
            r.nickname_view() == (match nickname {
                Some(n) => Some(n@),
                None => None::<Seq<char>>,
            }),
    {
        Player {
            id: fresh_id(),
            first_name: String::from_str(first_name),
            last_name: String::from_str(last_name),
            nickname,
        }
    }

    /// Creates a player with a given identifier.
    pub fn with_id(id: &str, first_name: &str, last_name: &str, nickname: Option<String>) -> (r: Player)
        ensures
            r.id_view() == id@,
            r.first_name_view() == first_name@,
            r.last_name_view() == last_name@,
            r.nickname_view() == (match nickname {
                Some(n) => Some(n@),
                None => None::<Seq<char>>,
            }),
    {
        Player {
            id: String::from_str(id),
            first_name: String::from_str(first_name),
            last_name: String::from_str(last_name),
            nickname,
        }
    }

    /// A copy of this player.
    pub fn duplicate(&self) -> (r: Player)
        ensures
            r == *self,
    {
        let nickname = match &self.nickname {
            Some(n) => Some(n.clone()),
            None => None,
        };
        Player {
            id: self.id.clone(),
            first_name: self.first_name.clone(),
            last_name: self.last_name.clone(),
            nickname,
        }
    }

    /// Whether this player and `other` are the same player.
    pub fn same_as(&self, other: &Player) -> (r: bool)
        ensures
            r == (self.id_view() == other.id_view()),
    {
        self.id == other.id
    }

    /// Whether this player has the identifier `id`.
    pub fn has_id(&self, id: &String) -> (r: bool)
        ensures
            r == (self.id_view() == id@),
    {
        self.id == *id
    }

    /// Get the player's internal id
    pub fn get_id(&self) -> (r: &String)
        ensures
            r@ == self.id_view(),
    {
        &self.id
    }

    /// Get the player's first name
    pub fn get_first_name(&self) -> (r: &String)
        ensures
            r@ == self.first_name_view(),
    {
        &self.first_name
    }

    /// Get the player's last name
    pub fn get_last_name(&self) -> (r: &String)
        ensures
            r@ == self.last_name_view(),
    {
        &self.last_name
    }

    /// Get the player's full name
    pub fn get_full_name(&self) -> (r: String)
        ensures
            r@ == self.full_name_view(),
    {
        let s = self.first_name.clone().concat(" ");
        proof {
            reveal_strlit(" ");
        }
        s.concat(self.last_name.as_str())
    }

    /// Get the player's nickname, if they gave one
    pub fn get_given_nickname(&self) -> (r: &Option<String>)
        ensures
            (match *r {
                Some(n) => self.nickname_view() == Some(n@),
                None => self.nickname_view() is None,
            }),
    {
        &self.nickname
    }

    /// Get the player's display name: the nickname if there is one, else the full name.
    pub fn get_nickname(&self) -> (r: String)
        ensures
            r@ == (match self.nickname_view() {
                Some(n) => n,
                None => self.full_name_view(),
            }),
    {
        match &self.nickname {
            Some(n) => n.clone(),
            None => self.get_full_name(),
        }
    }
}

} // verus!
