use guildstats::analyzers::winratio::WinRatio;
use std::cmp::Ordering;

fn wr(wins: u32, looses: u32) -> WinRatio {
    WinRatio { wins, looses }
}

#[test]
fn ordering_cross_multiplication() {
    // a < b iff a.wins*b.looses < b.wins*a.looses, ties by total.
    assert_eq!(wr(1, 1).partial_cmp(&wr(2, 1)), Some(Ordering::Less));
    assert_eq!(wr(2, 1).partial_cmp(&wr(1, 1)), Some(Ordering::Greater));
    assert_eq!(wr(1, 1).partial_cmp(&wr(2, 2)), Some(Ordering::Less));
    assert_eq!(wr(2, 2).partial_cmp(&wr(1, 1)), Some(Ordering::Greater));
    assert!(wr(1, 1) < wr(2, 1));
    assert!(wr(3, 1) > wr(2, 1));
}

#[test]
fn ordering_equal_percent_smaller_sample_loses() {
    // Both 100%, the smaller sample is strictly less.
    assert_eq!(wr(1, 0).partial_cmp(&wr(10, 0)), Some(Ordering::Less));
    assert!(wr(1, 0) < wr(10, 0));
}

#[test]
fn stored_equality_ignores_sample_size() {
    assert_eq!(wr(1, 1), wr(2, 2));
    assert_ne!(wr(1, 1), wr(2, 1));
}

#[test]
fn as_percent_edge_case() {
    // {0,0} and {5,0} both count as a full 1.
    let p = wr(0, 0).percent();
    assert_eq!(p.0 as f64 / p.1 as f64, 1.0);
    let q = wr(5, 0).percent();
    assert_eq!(q.0 as f64 / q.1 as f64, 1.0);
    let h = wr(1, 1).percent();
    assert_eq!(h.0 as f64 / h.1 as f64, 0.5);
}

#[test]
fn subtraction_partial_function() {
    assert_eq!(wr(3, 2).sub(wr(1, 1)), Some(wr(2, 1)));
    assert_eq!(wr(1, 1).sub(wr(3, 2)), None);
}

#[test]
fn addition_is_element_wise() {
    let s = wr(2, 3).add(wr(4, 5));
    assert_eq!(s.wins, 6);
    assert_eq!(s.looses, 8);
}

#[test]
fn add_score_and_total() {
    let mut a = WinRatio::default();
    a.add_score(true);
    a.add_score(false);
    a.add_score(true);
    assert_eq!(a.wins, 2);
    assert_eq!(a.looses, 1);
    assert_eq!(a.total(), 3);
}

#[test]
fn fraction_comparison_is_exact() {
    assert!(guildstats::fracs::frac_le(1, 3, 1, 2));
    assert!(!guildstats::fracs::frac_le(2, 3, 1, 2));
    assert!(guildstats::fracs::frac_le(2, 4, 1, 2));
    assert!(guildstats::fracs::frac_le(0, 7, 0, 1));
    // Values far beyond what direct cross-multiplication could hold.
    let big = u128::MAX / 2;
    assert!(guildstats::fracs::frac_le(big - 1, big, big, big));
    assert!(!guildstats::fracs::frac_le(big, big, big - 1, big));
}

#[test]
fn permille_rounds_half_away_from_zero() {
    assert_eq!(guildstats::fracs::permille(1, 3), 333);
    assert_eq!(guildstats::fracs::permille(1, 2), 500);
    assert_eq!(guildstats::fracs::permille(2, 3), 667);
    assert_eq!(guildstats::fracs::permille(3, 2), 1500);
    assert_eq!(guildstats::fracs::permille(1, 1600), 1);
    assert_eq!(guildstats::fracs::permille(1, 4000), 0);
}
