use guildstats::analyzers::roles::{
    compress_roles_wr, get_role_subsets, get_roles_synergies, get_roles_wr, RolesRecords,
};
use guildstats::analyzers::winratio::WinRatio;
use guildstats::heroes_info::{Hero, HeroesInfo};
use guildstats::match_stats::{Match, MatchStats, PlayerStats};
use guildstats::storage::result_storage::{
    extract_results_state, AnalysisTag, ResultsState, ResultsStateError,
};

fn role_player(name: &str, hero_id: u64, win: u64) -> PlayerStats {
    PlayerStats {
        personaname: Some(name.to_string()),
        hero_id: Some(hero_id),
        win: Some(win),
        lane: Some(1),
    }
}

fn role_match(players: Vec<PlayerStats>) -> Match {
    Match::new(MatchStats { skill: None }, players)
}

fn hero(name: &str, roles: Vec<&str>) -> Hero {
    Hero {
        name: name.to_string(),
        roles: roles.into_iter().map(|r| r.to_string()).collect(),
    }
}

#[test]
fn role_cartesian_explosion() {
    // Two players whose heroes carry two roles each: exactly four subsets
    // of size two, two plus two of size one, and the one empty seed.
    let setup = vec![
        ("p1".to_string(), hero("A", vec!["r1", "r2"])),
        ("p2".to_string(), hero("B", vec!["r3", "r4"])),
    ];
    let subsets = get_role_subsets(setup);
    assert_eq!(subsets.len(), 9);
    assert_eq!(subsets.iter().filter(|s| s.len() == 2).count(), 4);
    assert_eq!(subsets.iter().filter(|s| s.len() == 1).count(), 4);
    assert_eq!(subsets.iter().filter(|s| s.len() == 0).count(), 1);
}

#[test]
fn roles_wr_scores_every_nonempty_subset() {
    let catalog = r#"{
        "1": {"localized_name": "A", "roles": ["Carry"]},
        "2": {"localized_name": "B", "roles": ["Support", "Nuker"]}
    }"#;
    let info = HeroesInfo::init(catalog).unwrap();
    let matches = vec![role_match(vec![
        role_player("p1", 1, 1),
        role_player("p2", 2, 1),
    ])];
    let got = get_roles_wr(&matches, &info);
    // Subsets: {p1-Carry}, {p2-Support}, {p2-Nuker}, {p1-Carry,p2-Support},
    // {p1-Carry,p2-Nuker}; none empty.
    assert_eq!(got.len(), 5);
    for (_, wr) in &got {
        assert_eq!(*wr, WinRatio { wins: 1, looses: 0 });
    }
    assert_eq!(
        got[0].0,
        vec![("p1".to_string(), "Carry".to_string())]
    );
}

fn synergy_rows() -> Vec<(Vec<(String, String)>, WinRatio)> {
    vec![
        (
            vec![("p1".to_string(), "Carry".to_string())],
            WinRatio { wins: 2, looses: 1 },
        ),
        (
            vec![("p2".to_string(), "Support".to_string())],
            WinRatio { wins: 2, looses: 1 },
        ),
        (
            vec![
                ("p1".to_string(), "Carry".to_string()),
                ("p2".to_string(), "Support".to_string()),
            ],
            WinRatio { wins: 1, looses: 0 },
        ),
    ]
}

#[test]
fn roles_synergy_divides_by_average_solo_baseline() {
    let rows = synergy_rows();
    let got = get_roles_synergies(&rows, 0);
    // Solo baselines after removing the duo's games are 1/2 each; the duo
    // win percentage is a full 1, so the synergy is 2.0.
    assert_eq!(got.len(), 1);
    assert_eq!(got[0].0, rows[2].0);
    assert_eq!(got[0].1, Some(2000));
}

#[test]
fn roles_records_fixture() {
    let rows = synergy_rows();
    let records = RolesRecords::extract_records(&rows, 0);
    let mut singles = records.best_single.clone();
    singles.sort_by(|a, b| a.0.cmp(&b.0));
    assert_eq!(
        singles,
        vec![
            (
                "Carry".to_string(),
                "p1".to_string(),
                WinRatio { wins: 2, looses: 1 }
            ),
            (
                "Support".to_string(),
                "p2".to_string(),
                WinRatio { wins: 2, looses: 1 }
            ),
        ]
    );
    assert_eq!(records.top3_carry_sup.len(), 3);
    assert_eq!(
        records.top3_carry_sup[0],
        (
            "p1".to_string(),
            "p2".to_string(),
            WinRatio { wins: 1, looses: 0 }
        )
    );
    assert_eq!(records.top3_carry_sup[1].0, "");
    assert_eq!(records.top3_carry_sup[2].0, "");
    assert_eq!(records.best_fight_crew.0, "");
    assert_eq!(records.best_nuking_squad.0, "");
}

#[test]
fn nuking_squad_and_fight_crew() {
    let rows: Vec<(Vec<(String, String)>, WinRatio)> = vec![
        (
            vec![
                ("a".to_string(), "Nuker".to_string()),
                ("b".to_string(), "Nuker".to_string()),
            ],
            WinRatio { wins: 4, looses: 1 },
        ),
        (
            vec![
                ("a".to_string(), "Nuker".to_string()),
                ("c".to_string(), "Nuker".to_string()),
            ],
            WinRatio { wins: 5, looses: 1 },
        ),
        (
            vec![
                ("a".to_string(), "Disabler".to_string()),
                ("b".to_string(), "Initiator".to_string()),
                ("c".to_string(), "Nuker".to_string()),
            ],
            WinRatio { wins: 3, looses: 1 },
        ),
    ];
    let records = RolesRecords::extract_records(&rows, 0);
    assert_eq!(
        records.best_nuking_squad,
        (
            "a".to_string(),
            "c".to_string(),
            WinRatio { wins: 5, looses: 1 }
        )
    );
    assert_eq!(
        records.best_fight_crew,
        (
            "a".to_string(),
            "b".to_string(),
            "c".to_string(),
            WinRatio { wins: 3, looses: 1 }
        )
    );
}

#[test]
fn compress_drops_rows_below_the_floor() {
    let rows = synergy_rows();
    let kept = compress_roles_wr(rows, 2);
    assert_eq!(kept.len(), 2);
    assert_eq!(kept[0].1, WinRatio { wins: 2, looses: 1 });
    assert_eq!(kept[1].1, WinRatio { wins: 2, looses: 1 });
}

#[test]
fn results_state_reflects_found_tags() {
    let gid = "g1".to_string();
    let none: Vec<String> = vec![];
    let ts: Vec<i64> = vec![5, 3, 9];
    let r = extract_results_state(&gid, &none, &ts).unwrap();
    assert_eq!(r.state, ResultsState::NotComputed);
    assert_eq!(r.guild_id, "g1");

    let some = vec!["RolesWr".to_string()];
    let r = extract_results_state(&gid, &some, &ts).unwrap();
    assert_eq!(r.state, ResultsState::ResultMissing);

    let all: Vec<String> = AnalysisTag::all().iter().map(|t| t.name()).collect();
    let r = extract_results_state(&gid, &all, &ts).unwrap();
    assert_eq!(r.state, ResultsState::AllComputed { timestamp: 3 });

    let empty_ts: Vec<i64> = vec![];
    assert_eq!(
        extract_results_state(&gid, &all, &empty_ts).err(),
        Some(ResultsStateError::NoTimestamps)
    );
}

#[test]
fn roles_wr_is_deterministic() {
    let catalog = r#"{
        "1": {"localized_name": "A", "roles": ["Carry"]},
        "2": {"localized_name": "B", "roles": ["Support", "Nuker"]}
    }"#;
    let info = HeroesInfo::init(catalog).unwrap();
    let matches = vec![
        role_match(vec![role_player("p1", 1, 1), role_player("p2", 2, 1)]),
        role_match(vec![role_player("p2", 2, 0)]),
    ];
    assert_eq!(get_roles_wr(&matches, &info), get_roles_wr(&matches, &info));
}
