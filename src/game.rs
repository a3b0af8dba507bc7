use vstd::prelude::*;

verus! {

/// A pair of players that plays on the same side: one man and one woman.
#[derive(Clone, Copy, Debug, PartialEq, Eq, Structural)]
pub struct Team {
    pub man: u32,
    pub woman: u32,
}

/// Two teams facing each other on one court.
#[derive(Clone, Copy, Debug, PartialEq, Eq, Structural)]
pub struct Game {
    pub team1: Team,
    pub team2: Team,
}

/// The games played at the same time, and the players who sit out.
#[derive(Clone, Debug)]
pub struct Round {
    pub games: Vec<Game>,
    pub byes: Vec<u32>,
}

#[derive(Clone, Copy, Debug, PartialEq, Eq, Structural)]
pub enum ScheduleError {
    /// A pool of players is empty.
    InvalidArgument,
}

/// `{a, b}` and `{c, d}` are the same unordered pair.
pub open spec fn same_pair(a: u32, b: u32, c: u32, d: u32) -> bool {
    (a == c && b == d) || (a == d && b == c)
}

impl Team {
    pub open spec fn has(self, p: u32) -> bool {
        self.man == p || self.woman == p
    }

    /// The team is the unordered pair `{a, b}`.
    pub open spec fn is_pair(self, a: u32, b: u32) -> bool {
        same_pair(self.man, self.woman, a, b)
    }

    pub open spec fn in_pools(self, num_men: nat, num_players: nat) -> bool {
        self.man < num_men && num_men <= self.woman && self.woman < num_players
    }
}

impl Game {
    /// The four players, team by team.
    pub open spec fn players(self) -> Seq<u32> {
        seq![self.team1.man, self.team1.woman, self.team2.man, self.team2.woman]
    }

    pub open spec fn has(self, p: u32) -> bool {
        self.team1.has(p) || self.team2.has(p)
    }

    /// `{a, b}` is one of the two teams of this game.
    pub open spec fn teams_up(self, a: u32, b: u32) -> bool {
        self.team1.is_pair(a, b) || self.team2.is_pair(a, b)
    }

    /// `a` and `b` stand on opposite sides of this game.
    pub open spec fn opposes(self, a: u32, b: u32) -> bool {
        (self.team1.has(a) && self.team2.has(b)) || (self.team2.has(a) && self.team1.has(b))
    }

    /// No player is on both teams.
    pub open spec fn sides_disjoint(self) -> bool {
        !self.team1.has(self.team2.man) && !self.team1.has(self.team2.woman)
    }

    pub open spec fn in_pools(self, num_men: nat, num_players: nat) -> bool {
        self.team1.in_pools(num_men, num_players) && self.team2.in_pools(num_men, num_players)
    }

    /// The two games have no player in common.
    pub open spec fn apart(self, other: Game) -> bool {
        forall|p: u32| !(self.has(p) && other.has(p))
    }
}

/// No unordered pair of players forms a team more than once, within a game or
/// across games.
pub open spec fn no_repeat_teammate(s: Seq<Game>) -> bool {
    &&& forall|i: int| 0 <= i < s.len() ==> !s[i].team1.is_pair(s[i].team2.man, s[i].team2.woman)
    &&& forall|i: int, j: int, a: u32, b: u32|
        0 <= i < j < s.len() && #[trigger] s[i].teams_up(a, b) ==> !#[trigger] s[j].teams_up(a, b)
}

/// No pair of players stands on opposite sides in more than one game.
pub open spec fn no_repeat_opponent(s: Seq<Game>) -> bool {
    forall|i: int, j: int, a: u32, b: u32|
        0 <= i < j < s.len() && #[trigger] s[i].opposes(a, b) ==> !#[trigger] s[j].opposes(a, b)
}

/// In every game the two teams share no player.
pub open spec fn no_self_opposition(s: Seq<Game>) -> bool {
    forall|i: int| 0 <= i < s.len() ==> #[trigger] s[i].sides_disjoint()
}

/// Every team is one man (ids below `num_men`) and one woman (ids from
/// `num_men` below `num_men + num_women`).
pub open spec fn pools_respected(s: Seq<Game>, num_men: nat, num_women: nat) -> bool {
    forall|i: int| 0 <= i < s.len() ==> #[trigger] s[i].in_pools(num_men, num_men + num_women)
}

/// The hard constraints of a generated schedule.
pub open spec fn valid_schedule(s: Seq<Game>, num_men: nat, num_women: nat) -> bool {
    &&& no_repeat_teammate(s)
    &&& no_repeat_opponent(s)
    &&& no_self_opposition(s)
    &&& pools_respected(s, num_men, num_women)
}

} // verus!
