use guildstats::match_stats::{Match, MatchStats, PlayerStats, StatsError};
use guildstats::match_storage::MatchStorage;

fn ms_player(name: Option<&str>, hero_id: Option<u64>, win: Option<u64>, lane: Option<u64>) -> PlayerStats {
    PlayerStats {
        personaname: name.map(|s| s.to_string()),
        hero_id,
        win,
        lane,
    }
}

#[test]
fn is_won_reads_the_first_participant() {
    let m = Match::new(
        MatchStats { skill: None },
        vec![
            ms_player(Some("a"), None, Some(1), None),
            ms_player(Some("b"), None, Some(0), None),
        ],
    );
    assert_eq!(m.is_won(), Ok(true));

    let lost = Match::new(
        MatchStats { skill: None },
        vec![ms_player(Some("a"), None, Some(0), None)],
    );
    assert_eq!(lost.is_won(), Ok(false));

    let unknown = Match::new(
        MatchStats { skill: None },
        vec![ms_player(Some("a"), None, None, None)],
    );
    assert_eq!(unknown.is_won(), Err(StatsError::MissingField));

    let empty = Match::new(MatchStats { skill: None }, vec![]);
    assert_eq!(empty.is_won(), Err(StatsError::MissingField));
}

#[test]
fn get_team_needs_every_name() {
    let m = Match::new(
        MatchStats { skill: None },
        vec![
            ms_player(Some("a"), None, Some(1), None),
            ms_player(None, None, Some(1), None),
        ],
    );
    assert_eq!(m.get_team(), Err(StatsError::MissingField));

    let ok = Match::new(
        MatchStats { skill: None },
        vec![
            ms_player(Some("b"), None, Some(1), None),
            ms_player(Some("a"), None, Some(1), None),
        ],
    );
    // Roster order is kept as listed.
    assert_eq!(ok.get_team(), Ok(vec!["b".to_string(), "a".to_string()]));
    assert_eq!(ok.get_team_size(), 2);
}

#[test]
fn get_player_hero_walks_the_roster() {
    let m = Match::new(
        MatchStats { skill: None },
        vec![
            ms_player(Some("a"), Some(7), Some(1), None),
            ms_player(Some("b"), None, Some(1), None),
        ],
    );
    assert_eq!(m.get_player_hero(&"a".to_string()), Ok(7));
    assert_eq!(m.get_player_hero(&"b".to_string()), Err(StatsError::MissingField));
    assert_eq!(m.get_player_hero(&"c".to_string()), Err(StatsError::NoTargetPlayer));
}

#[test]
fn get_team_laning_needs_names_and_lanes() {
    let m = Match::new(
        MatchStats { skill: None },
        vec![
            ms_player(Some("a"), None, Some(1), Some(2)),
            ms_player(Some("b"), None, Some(1), Some(3)),
        ],
    );
    assert_eq!(
        m.get_team_laning(),
        Ok(vec![("a".to_string(), 2), ("b".to_string(), 3)])
    );

    let bad = Match::new(
        MatchStats { skill: None },
        vec![ms_player(Some("a"), None, Some(1), None)],
    );
    assert_eq!(bad.get_team_laning(), Err(StatsError::MissingField));
}

#[test]
fn storage_file_names_follow_the_guild_id() {
    let storage = MatchStorage::new();
    let gid = "123".to_string();
    assert_eq!(storage.req_filename(&gid), "123_req");
    assert_eq!(storage.ids_filename(&gid), "123_ids");
    assert_eq!(storage.info_filename(&gid), "123_info");
}
