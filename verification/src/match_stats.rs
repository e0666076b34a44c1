//! Match records and the read-only queries the analyses make against them.
//!
//! Every accessor that can fail signals a per-match skip: the caller drops
//! that one match from the analysis at hand and goes on.

use vstd::prelude::*;

verus! {

pub type PlayerName = String;

pub type PlayerLane = (String, u64);

/// Per-player facts recorded for one match; any field may be absent.
#[derive(Debug, Clone)]
pub struct PlayerStats {
    pub personaname: Option<String>,
    pub hero_id: Option<u64>,
    pub win: Option<u64>,
    pub lane: Option<u64>,
}

/// Match-wide facts.
#[derive(Debug, Clone)]
pub struct MatchStats {
    pub skill: Option<u64>,
}

/// All data about one played match.
#[derive(Debug, Clone)]
pub struct Match {
    pub match_stats: MatchStats,
    pub players_stats: Vec<PlayerStats>,
}

/// Why a query against a match could not be answered.
#[derive(Debug, Clone, Copy, PartialEq, Eq, Structural)]
pub enum StatsError {
    MissingField,
    NoTargetPlayer,
}

pub type StatsResult<T> = Result<T, StatsError>;

pub open spec fn has_name(p: PlayerStats) -> bool {
    p.personaname is Some
}

pub open spec fn name_view(p: PlayerStats) -> Seq<char> {
    match p.personaname {
        Some(s) => s@,
        None => Seq::empty(),
    }
}

/// The roster's names, in listed order.
pub open spec fn names_of(players: Seq<PlayerStats>) -> Seq<Seq<char>> {
    players.map_values(|p: PlayerStats| name_view(p))
}

/// The roster's name/lane pairs, in listed order.
pub open spec fn lanes_of(players: Seq<PlayerStats>) -> Seq<(Seq<char>, u64)> {
    players.map_values(
        |p: PlayerStats|
            (
                name_view(p),
                match p.lane {
                    Some(l) => l,
                    None => 0u64,
                },
            ),
    )
}

/// The outcome query walked over a roster, first player decides.
pub open spec fn player_hero_from(players: Seq<PlayerStats>, name: Seq<char>) -> Result<
    u64,
    StatsError,
>
    decreases players.len(),
{
    if players.len() == 0 {
        Err(StatsError::NoTargetPlayer)
    } else {
        match players[0].personaname {
            None => Err(StatsError::MissingField),
            Some(n) => if n@ == name {
                match players[0].hero_id {
                    Some(h) => Ok(h),
                    None => Err(StatsError::MissingField),
                }
            } else {
                player_hero_from(players.skip(1), name)
            },
        }
    }
}

impl Match {
    /// Whether the first listed participant won; unknown when the roster is
    /// empty or that participant has no recorded outcome.
    pub open spec fn is_won_spec(self) -> Result<bool, StatsError> {
        if self.players_stats@.len() == 0 {
            Err(StatsError::MissingField)
        } else {
            match self.players_stats@[0].win {
                Some(w) => Ok(w == 1),
                None => Err(StatsError::MissingField),
            }
        }
    }

    /// The roster names in listed order, or nothing if any name is missing.
    pub open spec fn team_spec(self) -> Option<Seq<Seq<char>>> {
        if forall|i: int|
            0 <= i < self.players_stats@.len() ==> has_name(#[trigger] self.players_stats@[i]) {
            Some(names_of(self.players_stats@))
        } else {
            None
        }
    }

    /// Each participant's name and lane, or nothing if either is missing
    /// anywhere.
    pub open spec fn laning_spec(self) -> Option<Seq<(Seq<char>, u64)>> {
        if forall|i: int|
            0 <= i < self.players_stats@.len() ==> has_name(#[trigger] self.players_stats@[i])
                && self.players_stats@[i].lane is Some {
            Some(lanes_of(self.players_stats@))
        } else {
            None
        }
    }

    pub fn new(match_stats: MatchStats, players_stats: Vec<PlayerStats>) -> (r: Match)
        ensures
            r.match_stats == match_stats,
            r.players_stats == players_stats,
    {
        Match { match_stats, players_stats }
    }

    pub fn is_won(&self) -> (r: StatsResult<bool>)
        ensures
            r == self.is_won_spec(),
    {
        if self.players_stats.len() == 0 {
            return Err(StatsError::MissingField);
        }
        match self.players_stats[0].win {
            Some(w) => Ok(w == 1),
            None => Err(StatsError::MissingField),
        }
    }

    /// The roster names; fails when any participant's name is missing.
    pub fn get_team(&self) -> (r: StatsResult<Vec<PlayerName>>)
        ensures
            match r {
                Ok(team) => self.team_spec() == Some(team.deep_view()),
                Err(e) => self.team_spec() is None && e == StatsError::MissingField,
            },
    {
        let mut team: Vec<PlayerName> = Vec::new();
        let n = self.players_stats.len();
        let mut i: usize = 0;
        while i < n
            invariant
                i <= n,
                n == self.players_stats@.len(),
                team@.len() == i,
                forall|k: int| 0 <= k < i ==> has_name(#[trigger] self.players_stats@[k]),
                team.deep_view() =~= names_of(self.players_stats@.take(i as int)),
            decreases n - i,
        {
            match &self.players_stats[i].personaname {
                Some(s) => {
                    let ghost before = team@;
                    team.push(s.clone());
                    proof {
                        let ps = self.players_stats@;
                        assert(team@[i as int] == *s);
                        assert(name_view(ps[i as int]) == s@);
                        assert forall|k: int| 0 <= k < i + 1 implies #[trigger] team.deep_view()[k]
                            == names_of(ps.take(i + 1))[k] by {
                            assert(team.deep_view()[k] == team@[k].deep_view());
                            assert(ps.take(i + 1)[k] == ps[k]);
                            if k < i {
                                assert(team@[k] == before[k]);
                                assert(before[k].deep_view() == names_of(ps.take(i as int))[k]);
                            }
                        }
                        assert(team.deep_view() =~= names_of(ps.take(i + 1)));
                    }
                },
                None => {
                    return Err(StatsError::MissingField);
                },
            }
            i = i + 1;
        }
        proof {
            assert(self.players_stats@.take(n as int) =~= self.players_stats@);
        }
        Ok(team)
    }

    /// The named player's hero id; fails on a missing name or hero field,
    /// or when the player is not on the roster.
    pub fn get_player_hero(&self, player_name: &PlayerName) -> (r: StatsResult<u64>)
        ensures
            r == player_hero_from(self.players_stats@, player_name@),
    {
        let n = self.players_stats.len();
        let mut i: usize = 0;
        proof {
            assert(self.players_stats@.skip(0) =~= self.players_stats@);
        }
        while i < n
            invariant
                i <= n,
                n == self.players_stats@.len(),
                player_hero_from(self.players_stats@, player_name@) == player_hero_from(
                    self.players_stats@.skip(i as int),
                    player_name@,
                ),
            decreases n - i,
        {
            match &self.players_stats[i].personaname {
                Some(s) => {
                    if crate::strutil::str_eq(s.as_str(), player_name.as_str()) {
                        return match self.players_stats[i].hero_id {
                            Some(h) => Ok(h),
                            None => Err(StatsError::MissingField),
                        };
                    }
                },
                None => {
                    return Err(StatsError::MissingField);
                },
            }
            proof {
                assert(self.players_stats@.skip(i as int).skip(1) =~= self.players_stats@.skip(
                    i + 1,
                ));
            }
            i = i + 1;
        }
        Err(StatsError::NoTargetPlayer)
    }

    /// Name and lane of each participant; fails when either is missing.
    pub fn get_team_laning(&self) -> (r: StatsResult<Vec<PlayerLane>>)
        ensures
            match r {
                Ok(lanes) => self.laning_spec() == Some(lanes.deep_view()),
                Err(e) => self.laning_spec() is None && e == StatsError::MissingField,
            },
    {
        let mut lanes: Vec<PlayerLane> = Vec::new();
        let n = self.players_stats.len();
        let mut i: usize = 0;
        while i < n
            invariant
                i <= n,
                n == self.players_stats@.len(),
                lanes@.len() == i,
                forall|k: int|
                    0 <= k < i ==> has_name(#[trigger] self.players_stats@[k])
                        && self.players_stats@[k].lane is Some,
                lanes.deep_view() =~= lanes_of(self.players_stats@.take(i as int)),
            decreases n - i,
        {
            let lane = match self.players_stats[i].lane {
                Some(l) => l,
                None => {
                    return Err(StatsError::MissingField);
                },
            };
            match &self.players_stats[i].personaname {
                Some(s) => {
                    let ghost before = lanes@;
                    lanes.push((s.clone(), lane));
                    proof {
                        let ps = self.players_stats@;
                        assert(lanes@[i as int] == (*s, lane));
                        assert(name_view(ps[i as int]) == s@);
                        assert forall|k: int| 0 <= k < i + 1 implies #[trigger] lanes.deep_view()[k]
                            == lanes_of(ps.take(i + 1))[k] by {
                            assert(lanes.deep_view()[k] == lanes@[k].deep_view());
                            assert(ps.take(i + 1)[k] == ps[k]);
                            if k < i {
                                assert(lanes@[k] == before[k]);
                                assert(before[k].deep_view() == lanes_of(ps.take(i as int))[k]);
                            }
                        }
                        assert(lanes.deep_view() =~= lanes_of(ps.take(i + 1)));
                    }
                },
                None => {
                    return Err(StatsError::MissingField);
                },
            }
            i = i + 1;
        }
        proof {
            assert(self.players_stats@.take(n as int) =~= self.players_stats@);
        }
        Ok(lanes)
    }

    /// The number of participants recorded for this match.
    pub fn get_team_size(&self) -> (r: usize)
        ensures
            r == self.players_stats@.len(),
    {
        self.players_stats.len()
    }
}

} // verus!
