use guildstats::analyser::best_team_setup;
use guildstats::match_stats::{Match, MatchStats, PlayerStats};

fn setup_player(name: &str, lane: u64, win: u64) -> PlayerStats {
    PlayerStats {
        personaname: Some(name.to_string()),
        hero_id: None,
        win: Some(win),
        lane: Some(lane),
    }
}

fn setup_match(players: Vec<PlayerStats>) -> Match {
    Match::new(MatchStats { skill: None }, players)
}

#[test]
fn best_team_setup_test() {
    let mock_matches: Vec<Match> = vec![
        setup_match(vec![setup_player("test1", 1, 1), setup_player("test2", 1, 1)]),
        setup_match(vec![setup_player("test1", 1, 1), setup_player("test2", 1, 1)]),
        setup_match(vec![setup_player("test1", 1, 1), setup_player("test2", 1, 1)]),
        setup_match(vec![setup_player("test3", 1, 1), setup_player("test2", 1, 1)]),
        setup_match(vec![setup_player("test3", 1, 1), setup_player("test2", 1, 1)]),
        setup_match(vec![setup_player("test3", 1, 1), setup_player("test1", 1, 1)]),
        setup_match(vec![
            setup_player("test1", 1, 0),
            setup_player("test2", 1, 0),
            setup_player("test3", 1, 0),
        ]),
    ];
    let expected_result: Vec<(String, (u32, u32))> = vec![
        ("test1_1 test2_1".to_string(), (3, 1)),
        ("test2_1 test3_1".to_string(), (2, 1)),
        ("test1_1 test3_1".to_string(), (1, 1)),
        ("test1_1 test2_1 test3_1".to_string(), (0, 1)),
    ];
    assert_eq!(expected_result, best_team_setup(&mock_matches));
}
