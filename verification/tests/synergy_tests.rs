use guildstats::analyzers::synergy::{lane_name, lane_synergy, LaneSynergy};
use guildstats::analyzers::winratio::WinRatio;
use guildstats::match_stats::{Match, MatchStats, PlayerStats};

fn lane_player(name: &str, lane: u64, win: u64) -> PlayerStats {
    PlayerStats {
        personaname: Some(name.to_string()),
        hero_id: None,
        win: Some(win),
        lane: Some(lane),
    }
}

fn lane_match(players: Vec<PlayerStats>) -> Match {
    Match::new(MatchStats { skill: None }, players)
}

fn as_percent(wr: &WinRatio) -> f64 {
    if wr.looses == 0 {
        1.0
    } else {
        wr.wins as f64 / (wr.wins + wr.looses) as f64
    }
}

fn synergy_fixture() -> Vec<Match> {
    vec![
        lane_match(vec![lane_player("test1", 1, 1), lane_player("test2", 1, 1)]),
        lane_match(vec![lane_player("test1", 1, 1)]),
        lane_match(vec![lane_player("test2", 1, 1)]),
        lane_match(vec![lane_player("test1", 1, 0)]),
        lane_match(vec![lane_player("test2", 1, 0)]),
    ]
}

#[test]
fn synergy_test() {
    let result = lane_synergy(&synergy_fixture());
    assert_eq!(result.len(), 1);
    let (label, row) = &result[0];
    assert_eq!(label, "test1 test2 Safe-lane");
    assert_eq!(row.duo, WinRatio { wins: 1, looses: 0 });
    assert_eq!(row.solo1, WinRatio { wins: 2, looses: 1 });
    assert_eq!(row.solo2, WinRatio { wins: 2, looses: 1 });
    let synergy = as_percent(&row.duo)
        / ((as_percent(&row.solo1) + as_percent(&row.solo2)) / 2.0);
    assert_eq!(synergy, 1.5);
    assert_eq!(row.synergy, Some(1500));
}

#[test]
fn lane_synergy_is_deterministic() {
    let a: Vec<(String, LaneSynergy)> = lane_synergy(&synergy_fixture());
    let b = lane_synergy(&synergy_fixture());
    assert_eq!(a.len(), b.len());
    for i in 0..a.len() {
        assert_eq!(a[i].0, b[i].0);
        assert_eq!(a[i].1.duo, b[i].1.duo);
        assert_eq!(a[i].1.synergy, b[i].1.synergy);
    }
}

#[test]
fn lane_names_cover_known_and_unknown_lanes() {
    assert_eq!(lane_name(0), "Safe-lane");
    assert_eq!(lane_name(1), "Mid-lane");
    assert_eq!(lane_name(2), "Hard-lane");
    assert_eq!(lane_name(3), "(Unknown lane: 3)");
    assert_eq!(lane_name(12), "(Unknown lane: 12)");
}

#[test]
fn out_of_range_lane_skips_the_match() {
    // Lane 0 names no lane; the whole match is skipped.
    let bad = lane_match(vec![lane_player("a", 0, 1), lane_player("b", 0, 1)]);
    assert_eq!(lane_synergy(&vec![bad]).len(), 0);
}
