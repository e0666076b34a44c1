use guildstats::analyzers::team::best_teams;
use guildstats::analyzers::winratio::WinRatio;
use guildstats::match_stats::{Match, MatchStats, PlayerStats};

fn team_player(name: &str, lane: u64, win: u64) -> PlayerStats {
    PlayerStats {
        personaname: Some(name.to_string()),
        hero_id: None,
        win: Some(win),
        lane: Some(lane),
    }
}

fn team_match(players: Vec<PlayerStats>) -> Match {
    Match::new(MatchStats { skill: None }, players)
}

fn team_fixture() -> Vec<Match> {
    vec![
        team_match(vec![team_player("test1", 1, 1), team_player("test2", 1, 1)]),
        team_match(vec![team_player("test1", 1, 1), team_player("test2", 1, 1)]),
        team_match(vec![team_player("test1", 1, 1), team_player("test2", 1, 1)]),
        team_match(vec![team_player("test3", 1, 1), team_player("test2", 1, 1)]),
        team_match(vec![team_player("test3", 1, 1), team_player("test2", 1, 1)]),
        team_match(vec![team_player("test3", 1, 1), team_player("test1", 1, 1)]),
        team_match(vec![
            team_player("test1", 1, 0),
            team_player("test2", 1, 0),
            team_player("test3", 1, 0),
        ]),
    ]
}

#[test]
fn best_team_test() {
    let mock_matches = team_fixture();
    let expected_result: Vec<(String, WinRatio)> = vec![
        ("test1 test2".to_string(), WinRatio { wins: 3, looses: 1 }),
        ("test2 test3".to_string(), WinRatio { wins: 2, looses: 1 }),
        ("test1 test3".to_string(), WinRatio { wins: 1, looses: 1 }),
        (
            "test1 test2 test3".to_string(),
            WinRatio { wins: 0, looses: 1 },
        ),
    ];
    assert_eq!(expected_result, best_teams(&mock_matches));
}

#[test]
fn best_teams_is_deterministic() {
    let mock_matches = team_fixture();
    assert_eq!(best_teams(&mock_matches), best_teams(&mock_matches));
}

#[test]
fn match_missing_win_flag_contributes_nothing() {
    // The first participant has no win flag: the match is skipped whole,
    // without stopping the batch.
    let bad = team_match(vec![
        PlayerStats {
            personaname: Some("test1".to_string()),
            hero_id: None,
            win: None,
            lane: Some(1),
        },
        team_player("test2", 1, 1),
    ]);
    assert_eq!(best_teams(&vec![bad]), vec![]);

    let mut extended = team_fixture();
    extended.push(team_match(vec![
        PlayerStats {
            personaname: Some("test1".to_string()),
            hero_id: None,
            win: None,
            lane: Some(1),
        },
        team_player("test2", 1, 1),
    ]));
    assert_eq!(best_teams(&extended), best_teams(&team_fixture()));
}

#[test]
fn players_wr_counts_every_subset() {
    let matches = vec![
        team_match(vec![team_player("p2", 1, 1), team_player("p1", 1, 1)]),
        team_match(vec![team_player("p1", 1, 0)]),
    ];
    let got = guildstats::analyzers::players::get_players_wr(&matches);
    let expected: Vec<(Vec<String>, WinRatio)> = vec![
        (vec!["p1".to_string()], WinRatio { wins: 1, looses: 1 }),
        (vec!["p2".to_string()], WinRatio { wins: 1, looses: 0 }),
        (
            vec!["p1".to_string(), "p2".to_string()],
            WinRatio { wins: 1, looses: 0 },
        ),
    ];
    assert_eq!(got, expected);
}
