use guildstats::analyzers::heroes::{
    get_hero_players_stats, get_heroes_played, get_player_total_games, get_player_wr,
};
use guildstats::analyzers::winratio::WinRatio;
use guildstats::heroes_info::{CatalogError, HeroesInfo};
use guildstats::match_stats::{Match, MatchStats, PlayerStats};

fn hero_player(name: &str, hero_id: u64, win: u64) -> PlayerStats {
    PlayerStats {
        personaname: Some(name.to_string()),
        hero_id: Some(hero_id),
        win: Some(win),
        lane: Some(1),
    }
}

fn hero_match(players: Vec<PlayerStats>) -> Match {
    Match::new(MatchStats { skill: None }, players)
}

const CATALOG: &str = r#"{
    "1": {"localized_name": "Axe", "roles": ["Carry", "Durable"]},
    "2": {"localized_name": "Lion", "roles": ["Support", "Nuker"]}
}"#;

#[test]
fn catalog_loads_and_looks_up() {
    let info = HeroesInfo::init(CATALOG).unwrap();
    let axe = info.get_hero(1).unwrap();
    assert_eq!(axe.name, "Axe");
    assert_eq!(axe.roles, vec!["Carry".to_string(), "Durable".to_string()]);
    assert!(info.get_hero(3).is_none());
}

#[test]
fn catalog_rejects_bad_sources() {
    assert_eq!(HeroesInfo::init("nonsense").err(), Some(CatalogError::Unreadable));
    assert_eq!(HeroesInfo::init("[1, 2]").err(), Some(CatalogError::NotAnObject));
    assert_eq!(
        HeroesInfo::init(r#"{"0": {"localized_name": "X", "roles": []}}"#).err(),
        Some(CatalogError::BadHeroId)
    );
    assert_eq!(
        HeroesInfo::init(r#"{"w": {"localized_name": "X", "roles": []}}"#).err(),
        Some(CatalogError::BadHeroId)
    );
    assert_eq!(
        HeroesInfo::init(r#"{"1": {"roles": []}}"#).err(),
        Some(CatalogError::MissingName)
    );
    assert_eq!(
        HeroesInfo::init(r#"{"1": {"localized_name": "X", "roles": 3}}"#).err(),
        Some(CatalogError::MissingRoles)
    );
    assert_eq!(
        HeroesInfo::init(r#"{"1": {"localized_name": "X"}}"#).err(),
        Some(CatalogError::MissingRoles)
    );
    assert_eq!(
        HeroesInfo::init(r#"{"1": {"localized_name": "X", "roles": ["a", 7]}}"#).err(),
        Some(CatalogError::BadRole)
    );
}

#[test]
fn heroes_played_counts_pair_combinations() {
    let info = HeroesInfo::init(CATALOG).unwrap();
    let matches = vec![hero_match(vec![
        hero_player("p2", 2, 1),
        hero_player("p1", 1, 1),
    ])];
    let got = get_heroes_played(&matches, &info);
    let expected: Vec<(Vec<(String, String)>, WinRatio)> = vec![
        (
            vec![("p1".to_string(), "Axe".to_string())],
            WinRatio { wins: 1, looses: 0 },
        ),
        (
            vec![("p2".to_string(), "Lion".to_string())],
            WinRatio { wins: 1, looses: 0 },
        ),
        (
            vec![
                ("p1".to_string(), "Axe".to_string()),
                ("p2".to_string(), "Lion".to_string()),
            ],
            WinRatio { wins: 1, looses: 0 },
        ),
    ];
    assert_eq!(got, expected);
}

#[test]
fn unknown_hero_skips_whole_match() {
    let info = HeroesInfo::init(CATALOG).unwrap();
    let matches = vec![hero_match(vec![
        hero_player("p1", 1, 1),
        hero_player("p2", 9, 1),
    ])];
    assert_eq!(get_heroes_played(&matches, &info).len(), 0);
}

fn stats_scores() -> Vec<(Vec<(String, String)>, WinRatio)> {
    vec![
        (
            vec![("p1".to_string(), "A".to_string())],
            WinRatio { wins: 6, looses: 1 },
        ),
        (
            vec![("p1".to_string(), "B".to_string())],
            WinRatio { wins: 16, looses: 0 },
        ),
        (
            vec![("p2".to_string(), "A".to_string())],
            WinRatio { wins: 3, looses: 3 },
        ),
    ]
}

#[test]
fn player_indices_sum_and_fold() {
    let scores = stats_scores();
    let totals = get_player_total_games(&scores);
    assert_eq!(totals, vec![("p1".to_string(), 23), ("p2".to_string(), 6)]);
    let phw = guildstats::analyzers::heroes::get_player_heroes_wr(&scores);
    let overall = get_player_wr(&phw);
    assert_eq!(overall.len(), 2);
    assert_eq!(overall[0].0, "p1");
    assert_eq!(overall[0].1.wins, 22);
    assert_eq!(overall[0].1.looses, 1);
    assert_eq!(overall[1].0, "p2");
    assert_eq!(overall[1].1.wins, 3);
    assert_eq!(overall[1].1.looses, 3);
}

#[test]
fn hero_players_stats_records() {
    let scores = stats_scores();
    let stats = get_hero_players_stats(&scores);
    assert_eq!(stats.heroes_stats.len(), 2);

    let a = &stats.heroes_stats[0];
    assert_eq!(a.hero_name, "A");
    // p2's hero ratio equals their overall ratio; p1's is below theirs.
    assert_eq!(a.top_player.0, "p2");
    assert_eq!(a.top_player.1, WinRatio { wins: 3, looses: 3 });
    assert_eq!(a.top_player.2, 1000);
    assert_eq!(a.common_player_raw.0, "p1");
    assert_eq!(a.common_player_raw.1, WinRatio { wins: 6, looses: 1 });
    // p2 spent all six of their games on this hero.
    assert_eq!(a.common_player_relative.0, "p2");
    assert_eq!(a.common_player_relative.2, 1000);

    let b = &stats.heroes_stats[1];
    assert_eq!(b.hero_name, "B");
    assert_eq!(b.top_player.0, "p1");
    // 1.0 relative to 22/23 overall, rounded to thousandths.
    assert_eq!(b.top_player.2, 1045);
    assert_eq!(b.common_player_raw.0, "p1");
    // 16 of p1's 23 games, rounded to thousandths.
    assert_eq!(b.common_player_relative.2, 696);

    // Signature heroes: more than 15 games, else the empty sentinel.
    assert_eq!(
        stats.players_stats,
        vec![
            (
                "p1".to_string(),
                "B".to_string(),
                WinRatio { wins: 16, looses: 0 }
            ),
            (
                "p2".to_string(),
                String::new(),
                WinRatio { wins: 0, looses: 0 }
            ),
        ]
    );
}

#[test]
fn later_catalog_entries_replace_earlier_ids() {
    // Two text keys can parse to the same number.  Entries arrive in the
    // JSON map's key order ("+1" sorts before "1"), and the later one
    // replaces the earlier.
    let catalog = r#"{
        "1": {"localized_name": "Old", "roles": []},
        "+1": {"localized_name": "New", "roles": ["Carry"]}
    }"#;
    let info = HeroesInfo::init(catalog).unwrap();
    let hero = info.get_hero(1).unwrap();
    assert_eq!(hero.name, "Old");
    assert_eq!(hero.roles, Vec::<String>::new());
}

#[test]
fn heroes_analyses_are_deterministic() {
    let info = HeroesInfo::init(CATALOG).unwrap();
    let matches = vec![
        hero_match(vec![hero_player("p1", 1, 1), hero_player("p2", 2, 0)]),
        hero_match(vec![hero_player("p1", 1, 0)]),
    ];
    let a = get_heroes_played(&matches, &info);
    let b = get_heroes_played(&matches, &info);
    assert_eq!(a, b);
}
