//! The state of a guild's stored analysis results: which analyses were
//! found and how fresh they are.

use vstd::prelude::*;

verus! {

/// Tags naming which analysis a stored result belongs to.
#[derive(Debug, Clone, Copy, PartialEq, Eq, Structural)]
pub enum AnalysisTag {
    RolesWr,
    RolesSynergy,
    RolesRecords,
    HeroesPlayersStats,
    PlayersWr,
}

impl AnalysisTag {
    /// The tag's stored name.
    pub open spec fn name_spec(self) -> Seq<char> {
        match self {
            AnalysisTag::RolesWr => "RolesWr"@,
            AnalysisTag::RolesSynergy => "RolesSynergy"@,
            AnalysisTag::RolesRecords => "RolesRecords"@,
            AnalysisTag::HeroesPlayersStats => "HeroesPlayersStats"@,
            AnalysisTag::PlayersWr => "PlayersWr"@,
        }
    }

    /// Writes the tag's stored name.
    pub fn name(&self) -> (r: String)
        ensures
            r@ == self.name_spec(),
    {
        match self {
            AnalysisTag::RolesWr => String::from_str("RolesWr"),
            AnalysisTag::RolesSynergy => String::from_str("RolesSynergy"),
            AnalysisTag::RolesRecords => String::from_str("RolesRecords"),
            AnalysisTag::HeroesPlayersStats => String::from_str("HeroesPlayersStats"),
            AnalysisTag::PlayersWr => String::from_str("PlayersWr"),
        }
    }

    /// Every tag, in declaration order.
    pub fn all() -> (r: Vec<AnalysisTag>)
        ensures
            r@ == seq![
                AnalysisTag::RolesWr,
                AnalysisTag::RolesSynergy,
                AnalysisTag::RolesRecords,
                AnalysisTag::HeroesPlayersStats,
                AnalysisTag::PlayersWr,
            ],
    {
        let mut v: Vec<AnalysisTag> = Vec::new();
        v.push(AnalysisTag::RolesWr);
        v.push(AnalysisTag::RolesSynergy);
        v.push(AnalysisTag::RolesRecords);
        v.push(AnalysisTag::HeroesPlayersStats);
        v.push(AnalysisTag::PlayersWr);
        proof {
            assert(v@ =~= seq![
                AnalysisTag::RolesWr,
                AnalysisTag::RolesSynergy,
                AnalysisTag::RolesRecords,
                AnalysisTag::HeroesPlayersStats,
                AnalysisTag::PlayersWr,
            ]);
        }
        v
    }
}

/// Possible states of a guild's stored results.
#[derive(Debug, Clone, Copy, PartialEq, Eq, Structural)]
pub enum ResultsState {
    NotComputed,
    ResultMissing,
    AllComputed { timestamp: i64 },
}

/// One guild's results state.
#[derive(Debug)]
pub struct GuildResultsState {
    pub guild_id: String,
    pub state: ResultsState,
}

/// Why a results state could not be derived.
#[derive(Debug, Clone, Copy, PartialEq, Eq, Structural)]
pub enum ResultsStateError {
    NoTimestamps,
}

/// The found tags hold exactly the five analysis names.
pub open spec fn covers_all_tags(tags: Seq<Seq<char>>) -> bool {
    &&& (exists|k: int| 0 <= k < tags.len() && tags[k] == "RolesWr"@)
    &&& (exists|k: int| 0 <= k < tags.len() && tags[k] == "RolesSynergy"@)
    &&& (exists|k: int| 0 <= k < tags.len() && tags[k] == "RolesRecords"@)
    &&& (exists|k: int| 0 <= k < tags.len() && tags[k] == "HeroesPlayersStats"@)
    &&& (exists|k: int| 0 <= k < tags.len() && tags[k] == "PlayersWr"@)
    &&& (forall|k: int|
        0 <= k < tags.len() ==> (#[trigger] tags[k]) == "RolesWr"@ || tags[k] == "RolesSynergy"@
            || tags[k] == "RolesRecords"@ || tags[k] == "HeroesPlayersStats"@ || tags[k]
            == "PlayersWr"@)
}

/// The smallest of the timestamps.
pub open spec fn min_ts(ts: Seq<i64>) -> i64
    decreases ts.len(),
{
    if ts.len() <= 1 {
        ts[0]
    } else {
        let rest = min_ts(ts.drop_last());
        if ts.last() < rest {
            ts.last()
        } else {
            rest
        }
    }
}

/// The state a guild's stored results are in.
pub open spec fn results_state_spec(tags: Seq<Seq<char>>, ts: Seq<i64>) -> Result<
    ResultsState,
    ResultsStateError,
> {
    if tags.len() == 0 {
        Ok(ResultsState::NotComputed)
    } else if !covers_all_tags(tags) {
        Ok(ResultsState::ResultMissing)
    } else if ts.len() == 0 {
        Err(ResultsStateError::NoTimestamps)
    } else {
        Ok(ResultsState::AllComputed { timestamp: min_ts(ts) })
    }
}

/// Derives the state of one guild's stored results from the tags found and
/// their timestamps.
pub fn extract_results_state(
    guild_id: &String,
    tags_found: &Vec<String>,
    timestamps: &Vec<i64>,
) -> (r: Result<GuildResultsState, ResultsStateError>)
    ensures
        match r {
            Ok(g) => g.guild_id@ == guild_id@ && results_state_spec(
                tags_found.deep_view(),
                timestamps@,
            ) == Ok::<ResultsState, ResultsStateError>(g.state),
            Err(e) => results_state_spec(tags_found.deep_view(), timestamps@) == Err::<
                ResultsState,
                ResultsStateError,
            >(e),
        },
{
    let ghost tv = tags_found.deep_view();
    let n = tags_found.len();
    if n == 0 {
        return Ok(GuildResultsState { guild_id: guild_id.clone(), state: ResultsState::NotComputed });
    }
    let mut f1 = false;
    let mut f2 = false;
    let mut f3 = false;
    let mut f4 = false;
    let mut f5 = false;
    let mut stray = false;
    let mut i: usize = 0;
    while i < n
        invariant
            i <= n,
            n == tags_found@.len(),
            tv == tags_found.deep_view(),
            f1 == (exists|k: int| 0 <= k < i && tv[k] == "RolesWr"@),
            f2 == (exists|k: int| 0 <= k < i && tv[k] == "RolesSynergy"@),
            f3 == (exists|k: int| 0 <= k < i && tv[k] == "RolesRecords"@),
            f4 == (exists|k: int| 0 <= k < i && tv[k] == "HeroesPlayersStats"@),
            f5 == (exists|k: int| 0 <= k < i && tv[k] == "PlayersWr"@),
            stray == !(forall|k: int|
                0 <= k < i ==> (#[trigger] tv[k]) == "RolesWr"@ || tv[k] == "RolesSynergy"@
                    || tv[k] == "RolesRecords"@ || tv[k] == "HeroesPlayersStats"@ || tv[k]
                    == "PlayersWr"@),
        decreases n - i,
    {
        proof {
            assert(tv[i as int] == tags_found@[i as int]@);
            reveal_strlit("RolesWr");
            reveal_strlit("RolesSynergy");
            reveal_strlit("RolesRecords");
            reveal_strlit("HeroesPlayersStats");
            reveal_strlit("PlayersWr");
            assert("RolesWr"@.len() == 7);
            assert("RolesSynergy"@.len() == 12);
            assert("RolesRecords"@.len() == 12);
            assert("HeroesPlayersStats"@.len() == 18);
            assert("PlayersWr"@.len() == 9);
            assert("RolesWr"@ != "RolesSynergy"@);
            assert("RolesWr"@ != "RolesRecords"@);
            assert("RolesWr"@ != "HeroesPlayersStats"@);
            assert("RolesWr"@ != "PlayersWr"@);
            assert("RolesSynergy"@ != "RolesRecords"@) by {
                assert("RolesSynergy"@[5] == 'S');
                assert("RolesRecords"@[5] == 'R');
            }
            assert("RolesSynergy"@ != "HeroesPlayersStats"@);
            assert("RolesSynergy"@ != "PlayersWr"@);
            assert("RolesRecords"@ != "HeroesPlayersStats"@);
            assert("RolesRecords"@ != "PlayersWr"@);
            assert("HeroesPlayersStats"@ != "PlayersWr"@);
        }
        let s = tags_found[i].as_str();
        if crate::strutil::str_eq(s, "RolesWr") {
            f1 = true;
        } else if crate::strutil::str_eq(s, "RolesSynergy") {
            f2 = true;
        } else if crate::strutil::str_eq(s, "RolesRecords") {
            f3 = true;
        } else if crate::strutil::str_eq(s, "HeroesPlayersStats") {
            f4 = true;
        } else if crate::strutil::str_eq(s, "PlayersWr") {
            f5 = true;
        } else {
            stray = true;
        }
        i = i + 1;
    }
    let covered = f1 && f2 && f3 && f4 && f5 && !stray;
    proof {
        assert(covered == covers_all_tags(tv));
    }
    if !covered {
        return Ok(
            GuildResultsState { guild_id: guild_id.clone(), state: ResultsState::ResultMissing },
        );
    }
    if timestamps.len() == 0 {
        return Err(ResultsStateError::NoTimestamps);
    }
    let mut least = timestamps[0];
    let m = timestamps.len();
    let mut j: usize = 1;
    proof {
        assert(timestamps@.take(1).len() == 1);
        assert(timestamps@.take(1)[0] == timestamps@[0]);
        assert(least == min_ts(timestamps@.take(1)));
    }
    while j < m
        invariant
            1 <= j <= m,
            m == timestamps@.len(),
            least == min_ts(timestamps@.take(j as int)),
        decreases m - j,
    {
        proof {
            assert(timestamps@.take(j + 1).drop_last() =~= timestamps@.take(j as int));
            assert(timestamps@.take(j + 1).last() == timestamps@[j as int]);
        }
        if timestamps[j] < least {
            least = timestamps[j];
        }
        j = j + 1;
    }
    proof {
        assert(timestamps@.take(m as int) =~= timestamps@);
    }
    Ok(
        GuildResultsState {
            guild_id: guild_id.clone(),
            state: ResultsState::AllComputed { timestamp: least },
        },
    )
}

} // verus!
