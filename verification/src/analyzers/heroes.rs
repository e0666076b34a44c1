//! Hero-combination win ratios and the statistics derived from them.

use crate::accmap::{
    counter_get, counter_upsert, entries_view, fold_scores, get_spec, group_upsert, key_count,
    lemma_bump_n_exact, lemma_counter_get_absent, lemma_counter_get_at,
    lemma_counter_upsert_absent, lemma_counter_upsert_at, lemma_fold_scores_snoc,
    lemma_get_fold_scores, lemma_group_upsert_absent, lemma_group_upsert_at, lemma_key_count_nonneg,
    sat_add_spec, upsert_score,
};
use crate::analyzers::analyzers_utils::{
    combinations, combos_range, get_heroes, lemma_combos_range_snoc, match_setup_spec, pairs_of,
    subs_of, SetupEntryView,
};
use crate::analyzers::winratio::WinRatio;
use crate::heroes_info::{Hero, HeroesInfo};
use crate::match_stats::{Match, PlayerName};
use crate::orders::views_of;
use vstd::prelude::*;

verus! {

broadcast use crate::orders::lemma_deep_view_views;

pub type HeroName = String;

pub type PlayerHeroScores = Vec<(Vec<(PlayerName, HeroName)>, WinRatio)>;

/// The keys one match contributes: every non-empty combination of its
/// resolved (player, hero) pairs, in enumeration order.
pub open spec fn hero_keys_spec(sv: Seq<SetupEntryView>) -> Seq<Seq<(Seq<char>, Seq<char>)>> {
    combos_range(pairs_of(sv), 1, pairs_of(sv).len() as int + 1)
}

/// The accumulated scores after one more match; the whole match is skipped
/// when its roster, any member's hero, or its outcome cannot be resolved.
pub open spec fn heroes_step(
    m: Seq<(Seq<(Seq<char>, Seq<char>)>, WinRatio)>,
    cat: Seq<(u64, Hero)>,
    mt: Match,
) -> Seq<(Seq<(Seq<char>, Seq<char>)>, WinRatio)> {
    match (match_setup_spec(cat, mt), mt.is_won_spec()) {
        (Some(sv), Ok(won)) => fold_scores(m, hero_keys_spec(sv), won),
        _ => m,
    }
}

/// The hero-combination score map over the corpus, in first-seen order.
pub open spec fn heroes_played_spec(cat: Seq<(u64, Hero)>, data: Seq<Match>) -> Seq<
    (Seq<(Seq<char>, Seq<char>)>, WinRatio),
>
    decreases data.len(),
{
    if data.len() == 0 {
        Seq::empty()
    } else {
        heroes_step(heroes_played_spec(cat, data.drop_last()), cat, data.last())
    }
}

/// Scores every non-empty combination of (player, hero) pairs over the
/// corpus.  The raw map comes back in first-seen order, unsorted.
pub fn get_heroes_played(data: &Vec<Match>, heroes_info: &HeroesInfo) -> (r: PlayerHeroScores)
    ensures
        entries_view(r@) == heroes_played_spec(heroes_info.heroes@, data@),
{
    let ghost cat = heroes_info.heroes@;
    let mut score: PlayerHeroScores = Vec::new();
    let n = data.len();
    let mut i: usize = 0;
    proof {
        assert(data@.take(0) =~= Seq::<Match>::empty());
        assert(entries_view(score@) =~= heroes_played_spec(cat, data@.take(0)));
    }
    while i < n
        invariant
            i <= n,
            n == data@.len(),
            cat == heroes_info.heroes@,
            entries_view(score@) == heroes_played_spec(cat, data@.take(i as int)),
        decreases n - i,
    {
        let mt = &data[i];
        proof {
            assert(data@.take(i + 1).drop_last() =~= data@.take(i as int));
            assert(data@.take(i + 1).last() == data@[i as int]);
        }
        let team_r = mt.get_team();
        let won_r = mt.is_won();
        match (team_r, won_r) {
            (Ok(team), Ok(won)) => {
                match get_heroes(heroes_info, mt, team) {
                    Some(setup) => {
                        proof {
                            assert(match_setup_spec(cat, data@[i as int]) == Some(
                                crate::analyzers::analyzers_utils::setup_view(setup@),
                            ));
                        }
                        let ghost sv = crate::analyzers::analyzers_utils::setup_view(setup@);
                        let mut pairs: Vec<(PlayerName, HeroName)> = Vec::new();
                        let m = setup.len();
                        let mut j: usize = 0;
                        while j < m
                            invariant
                                j <= m,
                                m == setup@.len(),
                                pairs@.len() == j,
                                sv == crate::analyzers::analyzers_utils::setup_view(setup@),
                                forall|k: int|
                                    0 <= k < j ==> views_of(pairs@)[k] == pairs_of(sv)[k],
                            decreases m - j,
                        {
                            let ghost before = pairs@;
                            pairs.push((setup[j].0.clone(), setup[j].1.name.clone()));
                            proof {
                                assert forall|k: int| 0 <= k < j + 1 implies #[trigger] views_of(
                                    pairs@,
                                )[k] == pairs_of(sv)[k] by {
                                    assert(views_of(pairs@)[k] == pairs@[k].deep_view());
                                    if k < j {
                                        assert(pairs@[k] == before[k]);
                                        assert(views_of(before)[k] == before[k].deep_view());
                                        assert(views_of(before)[k] == pairs_of(sv)[k]);
                                    } else {
                                        assert(pairs_of(sv)[k] == (sv[k].0, sv[k].1.0));
                                    }
                                }
                            }
                            j = j + 1;
                        }
                        proof {
                            assert(views_of(pairs@) =~= pairs_of(sv));
                        }
                        accumulate_pair_combos(&mut score, &pairs, won);
                        proof {
                            assert(entries_view(score@) == heroes_step(
                                heroes_played_spec(cat, data@.take(i as int)),
                                cat,
                                data@[i as int],
                            ));
                        }
                    },
                    None => {},
                }
            },
            _ => {},
        }
        i = i + 1;
    }
    proof {
        assert(data@.take(n as int) =~= data@);
    }
    score
}

/// Records one outcome under every non-empty combination of the pairs, in
/// enumeration order.
fn accumulate_pair_combos(
    score: &mut Vec<(Vec<(PlayerName, HeroName)>, WinRatio)>,
    pairs: &Vec<(PlayerName, HeroName)>,
    won: bool,
)
    ensures
        entries_view(final(score)@) == fold_scores(
            entries_view(old(score)@),
            combos_range(views_of(pairs@), 1, views_of(pairs@).len() as int + 1),
            won,
        ),
{
    let ghost start = entries_view(old(score)@);
    let ghost sv = views_of(pairs@);
    let n_t = pairs.len();
    let mut subsets: Vec<Vec<(PlayerName, HeroName)>> = Vec::new();
    proof {
        assert(subs_of(subsets@) =~~= combos_range(sv, 1, 1));
    }
    if n_t >= 1 {
        let mut c: usize = 0;
        while c <= n_t - 1
            invariant
                n_t == sv.len(),
                n_t >= 1,
                c + 1 <= n_t + 1,
                sv == views_of(pairs@),
                subs_of(subsets@) == combos_range(sv, 1, c + 1),
            decreases n_t - c,
        {
            let k = c + 1;
            let mut cs = combinations(pairs, k);
            let ghost before = subsets@;
            let ghost cs0 = cs@;
            subsets.append(&mut cs);
            proof {
                assert(subs_of(subsets@) =~~= subs_of(before) + subs_of(cs0));
                lemma_combos_range_snoc(sv, 1, k as int);
                assert(subs_of(subsets@) =~~= combos_range(sv, 1, k + 1));
            }
            c = c + 1;
        }
        proof {
            assert(c == n_t);
            assert(subs_of(subsets@) == combos_range(sv, 1, n_t + 1));
        }
    } else {
        proof {
            assert(combos_range(sv, 1, sv.len() as int + 1) =~~= Seq::<
                Seq<(Seq<char>, Seq<char>)>,
            >::empty());
            assert(subs_of(subsets@) =~~= combos_range(sv, 1, sv.len() as int + 1));
        }
    }
    let ghost keys = combos_range(sv, 1, sv.len() as int + 1);
    proof {
        assert(keys == subs_of(subsets@));
        assert(keys.take(0) =~= Seq::<Seq<(Seq<char>, Seq<char>)>>::empty());
    }
    let ghost m0 = subsets@.len();
    let mut rem = subsets;
    while rem.len() > 0
        invariant
            rem@.len() <= m0,
            keys.len() == m0,
            forall|j: int| 0 <= j < rem@.len() ==> subs_of(rem@)[j] == keys[m0 - rem@.len() + j],
            entries_view(score@) == fold_scores(start, keys.take(m0 - rem@.len()), won),
        decreases rem@.len(),
    {
        let ghost done = m0 - rem@.len();
        let ghost rem_before = rem@;
        let sub = rem.remove(0);
        proof {
            assert(subs_of(rem_before)[0] == sub.deep_view());
            assert(sub.deep_view() == keys[done]);
            assert forall|j: int| 0 <= j < rem@.len() implies #[trigger] subs_of(rem@)[j] == keys[
                done + 1 + j
            ] by {
                assert(rem@[j] == rem_before[j + 1]);
                assert(subs_of(rem_before)[j + 1] == keys[done + j + 1]);
            }
        }
        upsert_score(score, sub, won);
        proof {
            lemma_fold_scores_snoc(start, keys.take(done), keys[done], won);
            assert(keys.take(done).push(keys[done]) =~= keys.take(done + 1));
        }
    }
    proof {
        assert(keys.take(m0 as int) =~= keys);
    }
}

/// A player must have played a hero more than this many games to count for
/// `top_player` and as a signature-hero candidate.
pub const TOP_PLAYER_MIN_GAMES: u32 = 5;

/// The (lower) floor used by the two `common_player` records.
pub const COMMON_PLAYER_MIN_GAMES: u32 = 0;

/// A player's signature hero must have more than this many games.
pub const SIGNATURE_HERO_MIN_GAMES: u32 = 15;

/// One size-1 hero-map entry: the lone (player, hero) pair with its record.
pub open spec fn single_of(e: (Seq<(Seq<char>, Seq<char>)>, WinRatio)) -> (
    Seq<char>,
    Seq<char>,
    WinRatio,
) {
    (e.0[0].0, e.0[0].1, e.1)
}

/// View of one group's (name, record) rows.
pub open spec fn rows_view(s: Seq<(String, WinRatio)>) -> Seq<(Seq<char>, WinRatio)> {
    s.map_values(|p: (String, WinRatio)| (p.0@, p.1))
}

/// View of a grouping map from names to (name, record) lists.
pub open spec fn groups_view(m: Seq<(String, Vec<(String, WinRatio)>)>) -> Seq<
    (Seq<char>, Seq<(Seq<char>, WinRatio)>),
> {
    m.map_values(|g: (String, Vec<(String, WinRatio)>)| (g.0@, rows_view(g.1@)))
}

/// View of a counter map.
pub open spec fn counters_view(m: Seq<(String, u32)>) -> Seq<(Seq<char>, u32)> {
    m.map_values(|g: (String, u32)| (g.0@, g.1))
}

/// A counter's total held to the counter type.
pub open spec fn total_u32(wr: WinRatio) -> u32 {
    if wr.total_spec() <= u32::MAX {
        wr.total_spec() as u32
    } else {
        u32::MAX
    }
}

/// The per-hero index: each hero's standalone (player, record) rows, built
/// from the size-1 entries in order.
pub open spec fn hero_players_wr_spec(svs: Seq<(Seq<(Seq<char>, Seq<char>)>, WinRatio)>) -> Seq<
    (Seq<char>, Seq<(Seq<char>, WinRatio)>),
>
    decreases svs.len(),
{
    if svs.len() == 0 {
        Seq::empty()
    } else {
        let prev = hero_players_wr_spec(svs.drop_last());
        let e = svs.last();
        if e.0.len() == 1 {
            group_upsert(prev, single_of(e).1, (single_of(e).0, single_of(e).2))
        } else {
            prev
        }
    }
}

/// The per-player game counts summed over the size-1 entries.
pub open spec fn player_total_games_spec(
    svs: Seq<(Seq<(Seq<char>, Seq<char>)>, WinRatio)>,
) -> Seq<(Seq<char>, u32)>
    decreases svs.len(),
{
    if svs.len() == 0 {
        Seq::empty()
    } else {
        let prev = player_total_games_spec(svs.drop_last());
        let e = svs.last();
        if e.0.len() == 1 {
            counter_upsert(prev, single_of(e).0, total_u32(e.1))
        } else {
            prev
        }
    }
}

/// The per-player index: each player's (hero, record) rows.
pub open spec fn player_heroes_wr_spec(svs: Seq<(Seq<(Seq<char>, Seq<char>)>, WinRatio)>) -> Seq<
    (Seq<char>, Seq<(Seq<char>, WinRatio)>),
>
    decreases svs.len(),
{
    if svs.len() == 0 {
        Seq::empty()
    } else {
        let prev = player_heroes_wr_spec(svs.drop_last());
        let e = svs.last();
        if e.0.len() == 1 {
            group_upsert(prev, single_of(e).0, (single_of(e).1, single_of(e).2))
        } else {
            prev
        }
    }
}

/// Component-wise sum of two counters, each side saturating.
pub open spec fn wr_sat_add(a: WinRatio, b: WinRatio) -> WinRatio {
    WinRatio {
        wins: sat_add_spec(a.wins as int, b.wins as int) as u32,
        looses: sat_add_spec(a.looses as int, b.looses as int) as u32,
    }
}

/// The fold of a player's per-hero records into one overall record.
pub open spec fn sum_wrs(s: Seq<(Seq<char>, WinRatio)>) -> WinRatio
    decreases s.len(),
{
    if s.len() == 0 {
        WinRatio { wins: 0, looses: 0 }
    } else {
        wr_sat_add(sum_wrs(s.drop_last()), s.last().1)
    }
}

/// Each player's overall record.
pub open spec fn player_wr_spec(phw: Seq<(Seq<char>, Seq<(Seq<char>, WinRatio)>)>) -> Seq<
    (Seq<char>, WinRatio),
> {
    phw.map_values(|g: (Seq<char>, Seq<(Seq<char>, WinRatio)>)| (g.0, sum_wrs(g.1)))
}

/// One step of the signature-hero scan: a candidate needs more than
/// `SIGNATURE_HERO_MIN_GAMES` games and displaces the holder unless it
/// compares strictly below it.
pub open spec fn sig_step(
    acc: Option<(Seq<char>, WinRatio)>,
    x: (Seq<char>, WinRatio),
) -> Option<(Seq<char>, WinRatio)> {
    if x.1.total_spec() > SIGNATURE_HERO_MIN_GAMES {
        match acc {
            None => Some(x),
            Some(c) => if !x.1.lt_spec(c.1) {
                Some(x)
            } else {
                acc
            },
        }
    } else {
        acc
    }
}

pub open spec fn sig_scan(
    s: Seq<(Seq<char>, WinRatio)>,
    acc: Option<(Seq<char>, WinRatio)>,
) -> Option<(Seq<char>, WinRatio)>
    decreases s.len(),
{
    if s.len() == 0 {
        acc
    } else {
        sig_scan(s.skip(1), sig_step(acc, s[0]))
    }
}

/// Each player's signature hero: the best-ratio hero among those they
/// played more than `SIGNATURE_HERO_MIN_GAMES` games, or an empty-name
/// sentinel.
pub open spec fn player_stats_spec(phw: Seq<(Seq<char>, Seq<(Seq<char>, WinRatio)>)>) -> Seq<
    (Seq<char>, Seq<char>, WinRatio),
> {
    phw.map_values(
        |g: (Seq<char>, Seq<(Seq<char>, WinRatio)>)|
            match sig_scan(g.1, None) {
                Some(p) => (g.0, p.0, p.1),
                None => (g.0, Seq::<char>::empty(), WinRatio { wins: 0, looses: 0 }),
            },
    )
}

/// Files one (name, record) row under `key` in a grouping map.
pub(crate) fn group_push(m: &mut Vec<(String, Vec<(String, WinRatio)>)>, key: String, val: (String, WinRatio))
    ensures
        groups_view(final(m)@) == group_upsert(groups_view(old(m)@), key@, (val.0@, val.1)),
{
    let mut i: usize = 0;
    while i < m.len()
        invariant
            i <= m@.len(),
            m@ == old(m)@,
            forall|k: int| 0 <= k < i ==> (#[trigger] m@[k]).0@ != key@,
        decreases m@.len() - i,
    {
        let hit = crate::strutil::str_eq(m[i].0.as_str(), key.as_str());
        if hit {
            let ghost vv = (val.0@, val.1);
            let ghost old_group = rows_view(m@[i as int].1@);
            let mut entry = m.remove(i);
            let ghost before_push = entry.1@;
            proof {
                assert(entry == old(m)@[i as int]);
                assert(before_push == old(m)@[i as int].1@);
                assert(old_group == rows_view(before_push));
            }
            entry.1.push(val);
            proof {
                assert(entry.1@ == before_push.push(val));
                let new_group = rows_view(entry.1@);
                assert forall|k: int| 0 <= k < new_group.len() implies new_group[k]
                    == old_group.push(vv)[k] by {
                    assert(old_group.len() == before_push.len());
                    assert(new_group[k] == (entry.1@[k].0@, entry.1@[k].1));
                    if k < before_push.len() {
                        assert(entry.1@[k] == before_push[k]);
                        assert(old_group[k] == (before_push[k].0@, before_push[k].1));
                        assert(old_group.push(vv)[k] == old_group[k]);
                    } else {
                        assert(entry.1@[k] == val);
                        assert(old_group.push(vv)[k] == vv);
                    }
                }
                assert(new_group.len() == old_group.push(vv).len());
                assert(rows_view(entry.1@) =~= old_group.push(vv));
            }
            m.insert(i, entry);
            proof {
                let mv = groups_view(old(m)@);
                assert(forall|k: int| 0 <= k < i ==> mv[k].0 != key@);
                assert(mv[i as int].0 == key@);
                lemma_group_upsert_at(mv, key@, vv, i as int);
                assert(groups_view(m@) =~= mv.update(
                    i as int,
                    (mv[i as int].0, mv[i as int].1.push(vv)),
                ));
            }
            return;
        }
        i = i + 1;
    }
    let mut g: Vec<(String, WinRatio)> = Vec::new();
    g.push(val);
    let ghost gv = rows_view(g@);
    m.push((key, g));
    proof {
        let vv = (val.0@, val.1);
        let mv = groups_view(old(m)@);
        assert(forall|k: int| 0 <= k < mv.len() ==> mv[k].0 != key@);
        lemma_group_upsert_absent(mv, key@, vv);
        assert(gv =~= seq![vv]);
        assert(groups_view(m@) =~= mv.push((key@, seq![vv])));
    }
}

/// Adds games to a named counter, saturating at the counter type.
fn counter_add(m: &mut Vec<(String, u32)>, key: String, t: u32)
    ensures
        counters_view(final(m)@) == counter_upsert(counters_view(old(m)@), key@, t),
{
    let mut i: usize = 0;
    while i < m.len()
        invariant
            i <= m@.len(),
            m@ == old(m)@,
            forall|k: int| 0 <= k < i ==> (#[trigger] m@[k]).0@ != key@,
        decreases m@.len() - i,
    {
        let hit = crate::strutil::str_eq(m[i].0.as_str(), key.as_str());
        if hit {
            let entry = m.remove(i);
            let s = (entry.1 as u64) + (t as u64);
            let c: u32 = if s > 0xFFFF_FFFFu64 {
                u32::MAX
            } else {
                s as u32
            };
            m.insert(i, (entry.0, c));
            proof {
                let mv = counters_view(old(m)@);
                assert(forall|k: int| 0 <= k < i ==> mv[k].0 != key@);
                assert(mv[i as int].0 == key@);
                lemma_counter_upsert_at(mv, key@, t, i as int);
                assert(c == sat_add_spec(mv[i as int].1 as int, t as int));
                assert(counters_view(m@) =~= mv.update(
                    i as int,
                    (mv[i as int].0, sat_add_spec(mv[i as int].1 as int, t as int) as u32),
                ));
            }
            return;
        }
        i = i + 1;
    }
    m.push((key, t));
    proof {
        let mv = counters_view(old(m)@);
        assert(forall|k: int| 0 <= k < mv.len() ==> mv[k].0 != key@);
        lemma_counter_upsert_absent(mv, key@, t);
        assert(counters_view(m@) =~= mv.push((key@, t)));
    }
}

/// Reads a named counter.
fn counter_lookup(m: &Vec<(String, u32)>, key: &String) -> (r: Option<u32>)
    ensures
        r == counter_get(counters_view(m@), key@),
{
    let mut i: usize = 0;
    while i < m.len()
        invariant
            i <= m@.len(),
            forall|k: int| 0 <= k < i ==> (#[trigger] m@[k]).0@ != key@,
        decreases m@.len() - i,
    {
        let hit = crate::strutil::str_eq(m[i].0.as_str(), key.as_str());
        if hit {
            proof {
                let mv = counters_view(m@);
                assert(forall|k: int| 0 <= k < i ==> mv[k].0 != key@);
                assert(mv[i as int].0 == key@);
                lemma_counter_get_at(mv, key@, i as int);
            }
            return Some(m[i].1);
        }
        i = i + 1;
    }
    proof {
        let mv = counters_view(m@);
        assert(forall|k: int| 0 <= k < mv.len() ==> mv[k].0 != key@);
        lemma_counter_get_absent(mv, key@);
    }
    None
}

/// The games of one counter, held to the counter type.
fn wr_total_u32(wr: &WinRatio) -> (r: u32)
    ensures
        r == total_u32(*wr),
{
    let s = (wr.wins as u64) + (wr.looses as u64);
    if s > 0xFFFF_FFFFu64 {
        u32::MAX
    } else {
        s as u32
    }
}

/// Each hero's standalone (player, record) rows, from the size-1 entries.
pub fn get_hero_players_wr(player_hero_scores: &PlayerHeroScores) -> (r: Vec<
    (HeroName, Vec<(PlayerName, WinRatio)>),
>)
    ensures
        groups_view(r@) == hero_players_wr_spec(entries_view(player_hero_scores@)),
{
    let ghost svs = entries_view(player_hero_scores@);
    let mut g: Vec<(HeroName, Vec<(PlayerName, WinRatio)>)> = Vec::new();
    let n = player_hero_scores.len();
    let mut i: usize = 0;
    proof {
        assert(svs.take(0) =~= Seq::<(Seq<(Seq<char>, Seq<char>)>, WinRatio)>::empty());
        assert(groups_view(g@) =~= hero_players_wr_spec(svs.take(0)));
    }
    while i < n
        invariant
            i <= n,
            n == player_hero_scores@.len(),
            svs == entries_view(player_hero_scores@),
            groups_view(g@) == hero_players_wr_spec(svs.take(i as int)),
        decreases n - i,
    {
        proof {
            assert(svs.take(i + 1).drop_last() =~= svs.take(i as int));
            assert(svs.take(i + 1).last() == svs[i as int]);
            assert(svs[i as int] == (
                player_hero_scores@[i as int].0.deep_view(),
                player_hero_scores@[i as int].1,
            ));
        }
        if player_hero_scores[i].0.len() == 1 {
            let hero = player_hero_scores[i].0[0].1.clone();
            let player = player_hero_scores[i].0[0].0.clone();
            let wr = player_hero_scores[i].1;
            proof {
                let e = svs[i as int];
                assert(e.0[0] == player_hero_scores@[i as int].0@[0].deep_view());
                assert(single_of(e) == (player@, hero@, wr));
            }
            group_push(&mut g, hero, (player, wr));
        }
        i = i + 1;
    }
    proof {
        assert(svs.take(n as int) =~= svs);
    }
    g
}

/// Each player's total games, summed over their size-1 entries.
pub fn get_player_total_games(player_hero_scores: &PlayerHeroScores) -> (r: Vec<
    (PlayerName, u32),
>)
    ensures
        counters_view(r@) == player_total_games_spec(entries_view(player_hero_scores@)),
{
    let ghost svs = entries_view(player_hero_scores@);
    let mut g: Vec<(PlayerName, u32)> = Vec::new();
    let n = player_hero_scores.len();
    let mut i: usize = 0;
    proof {
        assert(svs.take(0) =~= Seq::<(Seq<(Seq<char>, Seq<char>)>, WinRatio)>::empty());
        assert(counters_view(g@) =~= player_total_games_spec(svs.take(0)));
    }
    while i < n
        invariant
            i <= n,
            n == player_hero_scores@.len(),
            svs == entries_view(player_hero_scores@),
            counters_view(g@) == player_total_games_spec(svs.take(i as int)),
        decreases n - i,
    {
        proof {
            assert(svs.take(i + 1).drop_last() =~= svs.take(i as int));
            assert(svs.take(i + 1).last() == svs[i as int]);
            assert(svs[i as int] == (
                player_hero_scores@[i as int].0.deep_view(),
                player_hero_scores@[i as int].1,
            ));
        }
        if player_hero_scores[i].0.len() == 1 {
            let player = player_hero_scores[i].0[0].0.clone();
            let t = wr_total_u32(&player_hero_scores[i].1);
            proof {
                let e = svs[i as int];
                assert(e.0[0] == player_hero_scores@[i as int].0@[0].deep_view());
                assert(single_of(e).0 == player@);
                assert(t == total_u32(e.1));
            }
            counter_add(&mut g, player, t);
        }
        i = i + 1;
    }
    proof {
        assert(svs.take(n as int) =~= svs);
    }
    g
}

/// Each player's (hero, record) rows, from the size-1 entries.
pub fn get_player_heroes_wr(player_hero_scores: &PlayerHeroScores) -> (r: Vec<
    (PlayerName, Vec<(HeroName, WinRatio)>),
>)
    ensures
        groups_view(r@) == player_heroes_wr_spec(entries_view(player_hero_scores@)),
{
    let ghost svs = entries_view(player_hero_scores@);
    let mut g: Vec<(PlayerName, Vec<(HeroName, WinRatio)>)> = Vec::new();
    let n = player_hero_scores.len();
    let mut i: usize = 0;
    proof {
        assert(svs.take(0) =~= Seq::<(Seq<(Seq<char>, Seq<char>)>, WinRatio)>::empty());
        assert(groups_view(g@) =~= player_heroes_wr_spec(svs.take(0)));
    }
    while i < n
        invariant
            i <= n,
            n == player_hero_scores@.len(),
            svs == entries_view(player_hero_scores@),
            groups_view(g@) == player_heroes_wr_spec(svs.take(i as int)),
        decreases n - i,
    {
        proof {
            assert(svs.take(i + 1).drop_last() =~= svs.take(i as int));
            assert(svs.take(i + 1).last() == svs[i as int]);
            assert(svs[i as int] == (
                player_hero_scores@[i as int].0.deep_view(),
                player_hero_scores@[i as int].1,
            ));
        }
        if player_hero_scores[i].0.len() == 1 {
            let hero = player_hero_scores[i].0[0].1.clone();
            let player = player_hero_scores[i].0[0].0.clone();
            let wr = player_hero_scores[i].1;
            proof {
                let e = svs[i as int];
                assert(e.0[0] == player_hero_scores@[i as int].0@[0].deep_view());
                assert(single_of(e) == (player@, hero@, wr));
            }
            group_push(&mut g, player, (hero, wr));
        }
        i = i + 1;
    }
    proof {
        assert(svs.take(n as int) =~= svs);
    }
    g
}

/// View of (player, hero, record) rows.
pub open spec fn rows3_view(s: Seq<(String, String, WinRatio)>) -> Seq<
    (Seq<char>, Seq<char>, WinRatio),
> {
    s.map_values(|p: (String, String, WinRatio)| (p.0@, p.1@, p.2))
}

/// Looks one name's record up in a (name, record) list.
fn lookup_wr(m: &Vec<(String, WinRatio)>, key: &String) -> (r: Option<WinRatio>)
    ensures
        r == get_spec(rows_view(m@), key@),
{
    let mut i: usize = 0;
    while i < m.len()
        invariant
            i <= m@.len(),
            forall|k: int| 0 <= k < i ==> (#[trigger] m@[k]).0@ != key@,
        decreases m@.len() - i,
    {
        let hit = crate::strutil::str_eq(m[i].0.as_str(), key.as_str());
        if hit {
            proof {
                let mv = rows_view(m@);
                assert(forall|k: int| 0 <= k < i ==> mv[k].0 != key@);
                assert(mv[i as int].0 == key@);
                crate::accmap::lemma_get_at(mv, key@, i as int);
            }
            return Some(m[i].1);
        }
        i = i + 1;
    }
    proof {
        let mv = rows_view(m@);
        assert(forall|k: int| 0 <= k < mv.len() ==> mv[k].0 != key@);
        crate::accmap::lemma_get_absent(mv, key@);
    }
    None
}

/// Folds each player's per-hero records into one overall record.
pub fn get_player_wr(player_heroes_wr: &Vec<(PlayerName, Vec<(HeroName, WinRatio)>)>) -> (r: Vec<
    (PlayerName, WinRatio),
>)
    ensures
        rows_view(r@) == player_wr_spec(groups_view(player_heroes_wr@)),
{
    let ghost gv = groups_view(player_heroes_wr@);
    let mut out: Vec<(PlayerName, WinRatio)> = Vec::new();
    let n = player_heroes_wr.len();
    let mut i: usize = 0;
    while i < n
        invariant
            i <= n,
            n == player_heroes_wr@.len(),
            gv == groups_view(player_heroes_wr@),
            out@.len() == i,
            forall|k: int| 0 <= k < i ==> rows_view(out@)[k] == player_wr_spec(gv)[k],
        decreases n - i,
    {
        let group = &player_heroes_wr[i];
        let mut acc = WinRatio { wins: 0, looses: 0 };
        let m = group.1.len();
        let mut j: usize = 0;
        proof {
            assert(rows_view(group.1@).take(0) =~= Seq::<(Seq<char>, WinRatio)>::empty());
        }
        while j < m
            invariant
                j <= m,
                m == group.1@.len(),
                acc == sum_wrs(rows_view(group.1@).take(j as int)),
            decreases m - j,
        {
            let x = group.1[j].1;
            proof {
                let rv = rows_view(group.1@);
                assert(rv.take(j + 1).drop_last() =~= rv.take(j as int));
                assert(rv.take(j + 1).last() == rv[j as int]);
                assert(rv[j as int] == (group.1@[j as int].0@, group.1@[j as int].1));
            }
            let w64 = (acc.wins as u64) + (x.wins as u64);
            let l64 = (acc.looses as u64) + (x.looses as u64);
            let neww: u32 = if w64 > 0xFFFF_FFFFu64 {
                u32::MAX
            } else {
                w64 as u32
            };
            let newl: u32 = if l64 > 0xFFFF_FFFFu64 {
                u32::MAX
            } else {
                l64 as u32
            };
            acc = WinRatio { wins: neww, looses: newl };
            j = j + 1;
        }
        proof {
            assert(rows_view(group.1@).take(m as int) =~= rows_view(group.1@));
        }
        let ghost before = out@;
        out.push((group.0.clone(), acc));
        proof {
            assert forall|k: int| 0 <= k < i + 1 implies #[trigger] rows_view(out@)[k]
                == player_wr_spec(gv)[k] by {
                assert(rows_view(out@)[k] == (out@[k].0@, out@[k].1));
                assert(gv[k] == (player_heroes_wr@[k].0@, rows_view(player_heroes_wr@[k].1@)));
                if k < i {
                    assert(out@[k] == before[k]);
                    assert(rows_view(before)[k] == (before[k].0@, before[k].1));
                    assert(rows_view(before)[k] == player_wr_spec(gv)[k]);
                } else {
                    assert(out@[k] == (player_heroes_wr@[i as int].0, acc));
                }
            }
        }
        i = i + 1;
    }
    proof {
        assert(rows_view(out@) =~= player_wr_spec(gv));
    }
    out
}

/// View of an optional best-so-far candidate.
pub open spec fn opt_row_view(o: Option<(String, WinRatio)>) -> Option<(Seq<char>, WinRatio)> {
    match o {
        Some(p) => Some((p.0@, p.1)),
        None => None,
    }
}

/// Each player's signature hero: the best record among heroes played more
/// than `SIGNATURE_HERO_MIN_GAMES` games, with an empty-name sentinel.
pub fn get_player_stats(player_heroes_wr: &Vec<(PlayerName, Vec<(HeroName, WinRatio)>)>) -> (r:
    Vec<(PlayerName, HeroName, WinRatio)>)
    ensures
        rows3_view(r@) == player_stats_spec(groups_view(player_heroes_wr@)),
{
    let ghost gv = groups_view(player_heroes_wr@);
    let mut out: Vec<(PlayerName, HeroName, WinRatio)> = Vec::new();
    let n = player_heroes_wr.len();
    let mut i: usize = 0;
    while i < n
        invariant
            i <= n,
            n == player_heroes_wr@.len(),
            gv == groups_view(player_heroes_wr@),
            out@.len() == i,
            forall|k: int| 0 <= k < i ==> rows3_view(out@)[k] == player_stats_spec(gv)[k],
        decreases n - i,
    {
        let group = &player_heroes_wr[i];
        let mut best: Option<(HeroName, WinRatio)> = None;
        let m = group.1.len();
        let mut j: usize = 0;
        proof {
            assert(rows_view(group.1@).skip(0) =~= rows_view(group.1@));
        }
        while j < m
            invariant
                j <= m,
                m == group.1@.len(),
                sig_scan(rows_view(group.1@), None) == sig_scan(
                    rows_view(group.1@).skip(j as int),
                    opt_row_view(best),
                ),
            decreases m - j,
        {
            let ghost rv = rows_view(group.1@);
            proof {
                assert(rv.skip(j as int)[0] == rv[j as int]);
                assert(rv[j as int] == (group.1@[j as int].0@, group.1@[j as int].1));
                assert(rv.skip(j as int).skip(1) =~= rv.skip(j + 1));
            }
            let ghost accv_old = opt_row_view(best);
            let x = group.1[j].1;
            let t = (x.wins as u64) + (x.looses as u64);
            if t > SIGNATURE_HERO_MIN_GAMES as u64 {
                let replace = match &best {
                    None => true,
                    Some(c) => !(matches!(x.cmp_to(&c.1), core::cmp::Ordering::Less)),
                };
                if replace {
                    best = Some((group.1[j].0.clone(), x));
                }
            }
            proof {
                assert(opt_row_view(best) == sig_step(accv_old, rv[j as int]));
                assert(sig_scan(rv.skip(j as int), accv_old) == sig_scan(
                    rv.skip(j + 1),
                    sig_step(accv_old, rv[j as int]),
                ));
            }
            j = j + 1;
        }
        proof {
            assert(rows_view(group.1@).skip(m as int).len() == 0);
        }
        let ghost before = out@;
        let row = match best {
            Some(p) => (group.0.clone(), p.0, p.1),
            None => (group.0.clone(), String::new(), WinRatio { wins: 0, looses: 0 }),
        };
        out.push(row);
        proof {
            assert forall|k: int| 0 <= k < i + 1 implies #[trigger] rows3_view(out@)[k]
                == player_stats_spec(gv)[k] by {
                assert(rows3_view(out@)[k] == (out@[k].0@, out@[k].1@, out@[k].2));
                assert(gv[k] == (player_heroes_wr@[k].0@, rows_view(player_heroes_wr@[k].1@)));
                if k < i {
                    assert(out@[k] == before[k]);
                    assert(rows3_view(before)[k] == (before[k].0@, before[k].1@, before[k].2));
                    assert(rows3_view(before)[k] == player_stats_spec(gv)[k]);
                }
            }
        }
        i = i + 1;
    }
    proof {
        assert(rows3_view(out@) =~= player_stats_spec(gv));
    }
    out
}


/// The view of one derived hero record.
pub type HeroStatsView = (
    Seq<char>,
    (Seq<char>, WinRatio, u64),
    (Seq<char>, WinRatio),
    (Seq<char>, WinRatio, u64),
);

/// Named records derived for one hero.
#[derive(Debug)]
pub struct HeroStats {
    pub hero_name: HeroName,
    /// The player whose ratio on this hero most exceeds their overall
    /// ratio, with that quotient rounded to thousandths.
    pub top_player: (PlayerName, WinRatio, u64),
    /// The player with the most games on this hero.
    pub common_player_raw: (PlayerName, WinRatio),
    /// The player with the largest share of their own games spent on this
    /// hero, with that share rounded to thousandths.
    pub common_player_relative: (PlayerName, WinRatio, u64),
}

pub open spec fn hero_stats_view(h: HeroStats) -> HeroStatsView {
    (
        h.hero_name@,
        (h.top_player.0@, h.top_player.1, h.top_player.2),
        (h.common_player_raw.0@, h.common_player_raw.1),
        (h.common_player_relative.0@, h.common_player_relative.1, h.common_player_relative.2),
    )
}

/// The full derived statistics: per-hero records and per-player signature
/// heroes.
#[derive(Debug)]
pub struct HeroPlayersStats {
    pub heroes_stats: Vec<HeroStats>,
    pub players_stats: Vec<(PlayerName, HeroName, WinRatio)>,
}

/// A quotient of two percentage fractions; a zero divisor percentage
/// counts as a zero quotient.
pub open spec fn rel_frac(a: (int, int), b: (int, int)) -> (int, int) {
    if b.0 == 0 {
        (0int, 1int)
    } else {
        (a.0 * b.1, a.1 * b.0)
    }
}

/// `a` is at least `b`, as fractions with positive denominators.
pub open spec fn frac_ge(a: (int, int), b: (int, int)) -> bool {
    a.0 * b.1 >= b.0 * a.1
}

/// One step of the `top_player` scan over a hero's (player, record) rows.
pub open spec fn top_step(
    pw: Seq<(Seq<char>, WinRatio)>,
    acc: Option<(Seq<char>, WinRatio)>,
    x: (Seq<char>, WinRatio),
) -> Option<(Seq<char>, WinRatio)> {
    if x.1.total_spec() > TOP_PLAYER_MIN_GAMES {
        match get_spec(pw, x.0) {
            Some(pwr) => match acc {
                None => Some(x),
                Some(c) => match get_spec(pw, c.0) {
                    Some(cp) => if frac_ge(
                        rel_frac(x.1.percent_spec(), pwr.percent_spec()),
                        rel_frac(c.1.percent_spec(), cp.percent_spec()),
                    ) {
                        Some(x)
                    } else {
                        acc
                    },
                    None => acc,
                },
            },
            None => acc,
        }
    } else {
        acc
    }
}

pub open spec fn top_scan(
    pw: Seq<(Seq<char>, WinRatio)>,
    s: Seq<(Seq<char>, WinRatio)>,
    acc: Option<(Seq<char>, WinRatio)>,
) -> Option<(Seq<char>, WinRatio)>
    decreases s.len(),
{
    if s.len() == 0 {
        acc
    } else {
        top_scan(pw, s.skip(1), top_step(pw, acc, s[0]))
    }
}

/// One step of the `common_player_raw` scan: most games wins.
pub open spec fn raw_step(
    acc: Option<(Seq<char>, WinRatio)>,
    x: (Seq<char>, WinRatio),
) -> Option<(Seq<char>, WinRatio)> {
    if x.1.total_spec() > COMMON_PLAYER_MIN_GAMES {
        match acc {
            None => Some(x),
            Some(c) => if x.1.total_spec() >= c.1.total_spec() {
                Some(x)
            } else {
                acc
            },
        }
    } else {
        acc
    }
}

pub open spec fn raw_scan(
    s: Seq<(Seq<char>, WinRatio)>,
    acc: Option<(Seq<char>, WinRatio)>,
) -> Option<(Seq<char>, WinRatio)>
    decreases s.len(),
{
    if s.len() == 0 {
        acc
    } else {
        raw_scan(s.skip(1), raw_step(acc, s[0]))
    }
}

/// The share of a player's own games spent on one hero.
pub open spec fn share_frac(x: (Seq<char>, WinRatio), games: u32) -> (int, int) {
    if games == 0 {
        (0int, 1int)
    } else {
        (total_u32(x.1) as int, games as int)
    }
}

/// One step of the `common_player_relative` scan: largest own-games share
/// wins.
pub open spec fn rel_step(
    ptg: Seq<(Seq<char>, u32)>,
    acc: Option<(Seq<char>, WinRatio)>,
    x: (Seq<char>, WinRatio),
) -> Option<(Seq<char>, WinRatio)> {
    if x.1.total_spec() > COMMON_PLAYER_MIN_GAMES {
        match counter_get(ptg, x.0) {
            Some(g) => match acc {
                None => Some(x),
                Some(c) => match counter_get(ptg, c.0) {
                    Some(cg) => if frac_ge(share_frac(x, g), share_frac(c, cg)) {
                        Some(x)
                    } else {
                        acc
                    },
                    None => acc,
                },
            },
            None => acc,
        }
    } else {
        acc
    }
}

pub open spec fn rel_scan(
    ptg: Seq<(Seq<char>, u32)>,
    s: Seq<(Seq<char>, WinRatio)>,
    acc: Option<(Seq<char>, WinRatio)>,
) -> Option<(Seq<char>, WinRatio)>
    decreases s.len(),
{
    if s.len() == 0 {
        acc
    } else {
        rel_scan(ptg, s.skip(1), rel_step(ptg, acc, s[0]))
    }
}

/// The empty-name sentinel used when no candidate clears a floor.
pub open spec fn no_candidate2() -> (Seq<char>, WinRatio) {
    (Seq::<char>::empty(), WinRatio { wins: 0, looses: 0 })
}

/// The exact derived record for one hero.
pub open spec fn hero_stats_spec(
    hero: Seq<char>,
    s: Seq<(Seq<char>, WinRatio)>,
    pw: Seq<(Seq<char>, WinRatio)>,
    ptg: Seq<(Seq<char>, u32)>,
) -> HeroStatsView {
    let top = match top_scan(pw, s, None) {
        Some(c) => match get_spec(pw, c.0) {
            Some(cp) => {
                let f = rel_frac(c.1.percent_spec(), cp.percent_spec());
                (c.0, c.1, crate::fracs::permille_spec(f.0, f.1) as u64)
            },
            None => (no_candidate2().0, no_candidate2().1, 0u64),
        },
        None => (no_candidate2().0, no_candidate2().1, 0u64),
    };
    let raw = match raw_scan(s, None) {
        Some(c) => (c.0, c.1),
        None => no_candidate2(),
    };
    let rel = match rel_scan(ptg, s, None) {
        Some(c) => match counter_get(ptg, c.0) {
            Some(cg) => {
                let f = share_frac(c, cg);
                (c.0, c.1, crate::fracs::permille_spec(f.0, f.1) as u64)
            },
            None => (no_candidate2().0, no_candidate2().1, 0u64),
        },
        None => (no_candidate2().0, no_candidate2().1, 0u64),
    };
    (hero, top, raw, rel)
}


proof fn lemma_small_mul_fits(a: u128, b: u128)
    requires
        a <= 0x2_0000_0000,
        b <= 0x2_0000_0000,
    ensures
        a * b <= 0x4_0000_0000_0000_0000,
{
    assert(a * b <= 0x2_0000_0000 * 0x2_0000_0000) by (nonlinear_arith)
        requires
            a <= 0x2_0000_0000 && b <= 0x2_0000_0000,
    ;
}

/// The relative-ratio fraction of a hero percentage against an overall
/// percentage, computed exactly.
fn rel_frac_exec(hp: (u64, u64), pp: (u64, u64)) -> (r: (u128, u128))
    requires
        hp.0 <= u32::MAX,
        1 <= hp.1 <= 0x1_FFFF_FFFF,
        pp.0 <= u32::MAX,
        1 <= pp.1 <= 0x1_FFFF_FFFF,
    ensures
        (r.0 as int, r.1 as int) == rel_frac(
            (hp.0 as int, hp.1 as int),
            (pp.0 as int, pp.1 as int),
        ),
        1 <= r.1 <= 0x4_0000_0000_0000_0000,
        r.0 <= 0x4_0000_0000_0000_0000,
{
    if pp.0 == 0 {
        (0, 1)
    } else {
        proof {
            lemma_small_mul_fits(hp.0 as u128, pp.1 as u128);
            lemma_small_mul_fits(hp.1 as u128, pp.0 as u128);
            assert((hp.1 as u128) * (pp.0 as u128) >= 1) by (nonlinear_arith)
                requires
                    hp.1 as int >= 1 && pp.0 as int >= 1,
            ;
        }
        ((hp.0 as u128) * (pp.1 as u128), (hp.1 as u128) * (pp.0 as u128))
    }
}

/// Rounds `n / d` to thousandths, held to a machine word.
fn permille_exec(n: u128, d: u128) -> (r: u64)
    requires
        1 <= d <= 0x4_0000_0000_0000_0000,
        n <= 0x4_0000_0000_0000_0000,
    ensures
        r as int == crate::fracs::permille_spec(n as int, d as int),
{
    let m = (2000 * n + d) / (2 * d);
    if m > 0xFFFF_FFFF_FFFF_FFFFu128 {
        u64::MAX
    } else {
        m as u64
    }
}

/// Derives the three named records for one hero from its standalone
/// (player, record) rows and the player-wide indices.
pub fn aggregate_hero_stats(
    hero_name: String,
    players_hero_wr: Vec<(PlayerName, WinRatio)>,
    player_wr: &Vec<(PlayerName, WinRatio)>,
    player_total_games: &Vec<(PlayerName, u32)>,
) -> (r: HeroStats)
    ensures
        hero_stats_view(r) == hero_stats_spec(
            hero_name@,
            rows_view(players_hero_wr@),
            rows_view(player_wr@),
            counters_view(player_total_games@),
        ),
{
    let ghost s = rows_view(players_hero_wr@);
    let ghost pw = rows_view(player_wr@);
    let ghost ptg = counters_view(player_total_games@);
    let n = players_hero_wr.len();
    let mut top_best: Option<(PlayerName, WinRatio)> = None;
    let mut i: usize = 0;
    proof {
        assert(s.skip(0) =~= s);
    }
    while i < n
        invariant
            i <= n,
            n == players_hero_wr@.len(),
            s == rows_view(players_hero_wr@),
            pw == rows_view(player_wr@),
            top_scan(pw, s, None) == top_scan(pw, s.skip(i as int), opt_row_view(top_best)),
        decreases n - i,
    {
        proof {
            assert(s.skip(i as int)[0] == s[i as int]);
            assert(s[i as int] == (players_hero_wr@[i as int].0@, players_hero_wr@[i as int].1));
            assert(s.skip(i as int).skip(1) =~= s.skip(i + 1));
        }
        let ghost acc_old = opt_row_view(top_best);
        let xwr = players_hero_wr[i].1;
        let t = (xwr.wins as u64) + (xwr.looses as u64);
        if t > TOP_PLAYER_MIN_GAMES as u64 {
            match lookup_wr(player_wr, &players_hero_wr[i].0) {
                Some(pwr) => {
                    let replace: bool = match &top_best {
                        None => true,
                        Some(c) => match lookup_wr(player_wr, &c.0) {
                            Some(cp) => {
                                let xf = rel_frac_exec(xwr.percent(), pwr.percent());
                                let cf = rel_frac_exec(c.1.percent(), cp.percent());
                                crate::fracs::frac_ge_of(xf.0, xf.1, cf.0, cf.1)
                            },
                            None => false,
                        },
                    };
                    if replace {
                        top_best = Some((players_hero_wr[i].0.clone(), xwr));
                    }
                },
                None => {},
            }
        }
        proof {
            assert(opt_row_view(top_best) == top_step(pw, acc_old, s[i as int]));
            assert(top_scan(pw, s.skip(i as int), acc_old) == top_scan(
                pw,
                s.skip(i + 1),
                top_step(pw, acc_old, s[i as int]),
            ));
        }
        i = i + 1;
    }
    proof {
        assert(s.skip(n as int).len() == 0);
    }
    let top_player: (PlayerName, WinRatio, u64) = match top_best {
        Some(c) => match lookup_wr(player_wr, &c.0) {
            Some(cp) => {
                let f = rel_frac_exec(c.1.percent(), cp.percent());
                let pm = permille_exec(f.0, f.1);
                (c.0, c.1, pm)
            },
            None => (String::new(), WinRatio { wins: 0, looses: 0 }, 0),
        },
        None => (String::new(), WinRatio { wins: 0, looses: 0 }, 0),
    };
    let mut raw_best: Option<(PlayerName, WinRatio)> = None;
    let mut i2: usize = 0;
    proof {
        assert(s.skip(0) =~= s);
    }
    while i2 < n
        invariant
            i2 <= n,
            n == players_hero_wr@.len(),
            s == rows_view(players_hero_wr@),
            raw_scan(s, None) == raw_scan(s.skip(i2 as int), opt_row_view(raw_best)),
        decreases n - i2,
    {
        proof {
            assert(s.skip(i2 as int)[0] == s[i2 as int]);
            assert(s[i2 as int] == (players_hero_wr@[i2 as int].0@, players_hero_wr@[i2 as int].1));
            assert(s.skip(i2 as int).skip(1) =~= s.skip(i2 + 1));
        }
        let ghost acc_old = opt_row_view(raw_best);
        let xwr = players_hero_wr[i2].1;
        let t = (xwr.wins as u64) + (xwr.looses as u64);
        if t > COMMON_PLAYER_MIN_GAMES as u64 {
            let replace: bool = match &raw_best {
                None => true,
                Some(c) => {
                    let tc = (c.1.wins as u64) + (c.1.looses as u64);
                    t >= tc
                },
            };
            if replace {
                raw_best = Some((players_hero_wr[i2].0.clone(), xwr));
            }
        }
        proof {
            assert(opt_row_view(raw_best) == raw_step(acc_old, s[i2 as int]));
            assert(raw_scan(s.skip(i2 as int), acc_old) == raw_scan(
                s.skip(i2 + 1),
                raw_step(acc_old, s[i2 as int]),
            ));
        }
        i2 = i2 + 1;
    }
    proof {
        assert(s.skip(n as int).len() == 0);
    }
    let common_player_raw: (PlayerName, WinRatio) = match raw_best {
        Some(c) => (c.0, c.1),
        None => (String::new(), WinRatio { wins: 0, looses: 0 }),
    };
    let mut rel_best: Option<(PlayerName, WinRatio)> = None;
    let mut i3: usize = 0;
    proof {
        assert(s.skip(0) =~= s);
    }
    while i3 < n
        invariant
            i3 <= n,
            n == players_hero_wr@.len(),
            s == rows_view(players_hero_wr@),
            ptg == counters_view(player_total_games@),
            rel_scan(ptg, s, None) == rel_scan(ptg, s.skip(i3 as int), opt_row_view(rel_best)),
        decreases n - i3,
    {
        proof {
            assert(s.skip(i3 as int)[0] == s[i3 as int]);
            assert(s[i3 as int] == (players_hero_wr@[i3 as int].0@, players_hero_wr@[i3 as int].1));
            assert(s.skip(i3 as int).skip(1) =~= s.skip(i3 + 1));
        }
        let ghost acc_old = opt_row_view(rel_best);
        let xwr = players_hero_wr[i3].1;
        let t = (xwr.wins as u64) + (xwr.looses as u64);
        if t > COMMON_PLAYER_MIN_GAMES as u64 {
            match counter_lookup(player_total_games, &players_hero_wr[i3].0) {
                Some(g) => {
                    let replace: bool = match &rel_best {
                        None => true,
                        Some(c) => match counter_lookup(player_total_games, &c.0) {
                            Some(cg) => {
                                let xs: (u128, u128) = if g == 0 {
                                    (0, 1)
                                } else {
                                    (wr_total_u32(&xwr) as u128, g as u128)
                                };
                                let cs: (u128, u128) = if cg == 0 {
                                    (0, 1)
                                } else {
                                    (wr_total_u32(&c.1) as u128, cg as u128)
                                };
                                crate::fracs::frac_ge_of(xs.0, xs.1, cs.0, cs.1)
                            },
                            None => false,
                        },
                    };
                    if replace {
                        rel_best = Some((players_hero_wr[i3].0.clone(), xwr));
                    }
                },
                None => {},
            }
        }
        proof {
            assert(opt_row_view(rel_best) == rel_step(ptg, acc_old, s[i3 as int]));
            assert(rel_scan(ptg, s.skip(i3 as int), acc_old) == rel_scan(
                ptg,
                s.skip(i3 + 1),
                rel_step(ptg, acc_old, s[i3 as int]),
            ));
        }
        i3 = i3 + 1;
    }
    proof {
        assert(s.skip(n as int).len() == 0);
    }
    let common_player_relative: (PlayerName, WinRatio, u64) = match rel_best {
        Some(c) => match counter_lookup(player_total_games, &c.0) {
            Some(cg) => {
                let f: (u128, u128) = if cg == 0 {
                    (0, 1)
                } else {
                    (wr_total_u32(&c.1) as u128, cg as u128)
                };
                let pm = permille_exec(f.0, f.1);
                (c.0, c.1, pm)
            },
            None => (String::new(), WinRatio { wins: 0, looses: 0 }, 0),
        },
        None => (String::new(), WinRatio { wins: 0, looses: 0 }, 0),
    };
    let r = HeroStats { hero_name, top_player, common_player_raw, common_player_relative };
    proof {
        assert(hero_stats_view(r) == hero_stats_spec(hero_name@, s, pw, ptg));
    }
    r
}

/// The derived per-hero records for every hero with at least one
/// standalone row, in index order.
pub open spec fn heroes_stats_list_spec(
    groups: Seq<(Seq<char>, Seq<(Seq<char>, WinRatio)>)>,
    pw: Seq<(Seq<char>, WinRatio)>,
    ptg: Seq<(Seq<char>, u32)>,
) -> Seq<HeroStatsView>
    decreases groups.len(),
{
    if groups.len() == 0 {
        Seq::empty()
    } else {
        let prev = heroes_stats_list_spec(groups.drop_last(), pw, ptg);
        let g = groups.last();
        if g.1.len() == 0 {
            prev
        } else {
            prev.push(hero_stats_spec(g.0, g.1, pw, ptg))
        }
    }
}

pub open spec fn hs_list_view(v: Seq<HeroStats>) -> Seq<HeroStatsView> {
    v.map_values(|h: HeroStats| hero_stats_view(h))
}

/// Derives the full hero/player statistics from the hero-combination map.
pub fn get_hero_players_stats(player_hero_scores: &PlayerHeroScores) -> (r: HeroPlayersStats)
    ensures
        hs_list_view(r.heroes_stats@) == heroes_stats_list_spec(
            hero_players_wr_spec(entries_view(player_hero_scores@)),
            player_wr_spec(player_heroes_wr_spec(entries_view(player_hero_scores@))),
            player_total_games_spec(entries_view(player_hero_scores@)),
        ),
        rows3_view(r.players_stats@) == player_stats_spec(
            player_heroes_wr_spec(entries_view(player_hero_scores@)),
        ),
{
    let hero_players_wr = get_hero_players_wr(player_hero_scores);
    let player_total_games = get_player_total_games(player_hero_scores);
    let player_heroes_wr = get_player_heroes_wr(player_hero_scores);
    let player_wr = get_player_wr(&player_heroes_wr);
    let ghost gv = groups_view(hero_players_wr@);
    let ghost pw = rows_view(player_wr@);
    let ghost ptg = counters_view(player_total_games@);
    let mut heroes_stats: Vec<HeroStats> = Vec::new();
    let ghost m0 = hero_players_wr@.len();
    let mut rem = hero_players_wr;
    proof {
        assert(gv.take(0) =~= Seq::<(Seq<char>, Seq<(Seq<char>, WinRatio)>)>::empty());
        assert(hs_list_view(heroes_stats@) =~= heroes_stats_list_spec(gv.take(0), pw, ptg));
    }
    while rem.len() > 0
        invariant
            rem@.len() <= m0,
            gv.len() == m0,
            pw == rows_view(player_wr@),
            ptg == counters_view(player_total_games@),
            forall|j: int|
                0 <= j < rem@.len() ==> #[trigger] groups_view(rem@)[j] == gv[m0 - rem@.len() + j],
            hs_list_view(heroes_stats@) == heroes_stats_list_spec(
                gv.take(m0 - rem@.len()),
                pw,
                ptg,
            ),
        decreases rem@.len(),
    {
        let ghost done = m0 - rem@.len();
        let ghost rem_before = rem@;
        let g = rem.remove(0);
        proof {
            assert(groups_view(rem_before)[0] == (g.0@, rows_view(g.1@)));
            assert((g.0@, rows_view(g.1@)) == gv[done]);
            assert forall|j: int| 0 <= j < rem@.len() implies #[trigger] groups_view(rem@)[j]
                == gv[done + 1 + j] by {
                assert(rem@[j] == rem_before[j + 1]);
                assert(groups_view(rem_before)[j + 1] == gv[done + j + 1]);
            }
            assert(gv.take(done + 1).drop_last() =~= gv.take(done));
            assert(gv.take(done + 1).last() == gv[done]);
        }
        let ghost hsb = heroes_stats@;
        if g.1.len() > 0 {
            let hs = aggregate_hero_stats(g.0, g.1, &player_wr, &player_total_games);
            heroes_stats.push(hs);
            proof {
                assert forall|k: int| 0 <= k < heroes_stats@.len() implies #[trigger] hs_list_view(
                    heroes_stats@,
                )[k] == heroes_stats_list_spec(gv.take(done + 1), pw, ptg)[k] by {
                    assert(hs_list_view(heroes_stats@)[k] == hero_stats_view(heroes_stats@[k]));
                    if k < hsb.len() {
                        assert(heroes_stats@[k] == hsb[k]);
                        assert(hs_list_view(hsb)[k] == hero_stats_view(hsb[k]));
                        assert(hs_list_view(hsb)[k] == heroes_stats_list_spec(
                            gv.take(done),
                            pw,
                            ptg,
                        )[k]);
                    }
                }
                assert(hs_list_view(heroes_stats@) =~= heroes_stats_list_spec(
                    gv.take(done + 1),
                    pw,
                    ptg,
                ));
            }
        } else {
            proof {
                assert(hs_list_view(heroes_stats@) =~= heroes_stats_list_spec(
                    gv.take(done + 1),
                    pw,
                    ptg,
                ));
            }
        }
    }
    proof {
        assert(gv.take(m0 as int) =~= gv);
    }
    let players_stats = get_player_stats(&player_heroes_wr);
    HeroPlayersStats { heroes_stats, players_stats }
}


/// Law: two runs over the same corpus and catalog return the same map.
pub proof fn lemma_heroes_played_deterministic(
    r1: Seq<(Seq<(Seq<char>, Seq<char>)>, WinRatio)>,
    r2: Seq<(Seq<(Seq<char>, Seq<char>)>, WinRatio)>,
    cat: Seq<(u64, Hero)>,
    data: Seq<Match>,
)
    requires
        r1 == heroes_played_spec(cat, data),
        r2 == heroes_played_spec(cat, data),
    ensures
        r1 == r2,
{
}

/// Law: a match whose roster, any hero, or outcome cannot be resolved
/// contributes to no combination; appending it changes nothing.
pub proof fn lemma_heroes_played_skips_unusable(
    cat: Seq<(u64, Hero)>,
    data: Seq<Match>,
    mt: Match,
)
    requires
        match_setup_spec(cat, mt) is None || !(mt.is_won_spec() is Ok),
    ensures
        heroes_played_spec(cat, data.push(mt)) == heroes_played_spec(cat, data),
{
    assert(data.push(mt).drop_last() =~= data);
    assert(data.push(mt).last() == mt);
}


/// The winning contributions the corpus makes to a hero-combination key.
pub open spec fn heroes_win_count(cat: Seq<(u64, Hero)>, data: Seq<Match>, k: Seq<(Seq<char>, Seq<char>)>) -> int
    decreases data.len(),
{
    if data.len() == 0 {
        0
    } else {
        heroes_win_count(cat, data.drop_last(), k) + (match (
            match_setup_spec(cat, data.last()),
            data.last().is_won_spec(),
        ) {
            (Some(sv), Ok(won)) => if won {
                key_count(hero_keys_spec(sv), k)
            } else {
                0int
            },
            _ => 0int,
        })
    }
}

/// The losing contributions, counted the same way.
pub open spec fn heroes_loss_count(cat: Seq<(u64, Hero)>, data: Seq<Match>, k: Seq<(Seq<char>, Seq<char>)>) -> int
    decreases data.len(),
{
    if data.len() == 0 {
        0
    } else {
        heroes_loss_count(cat, data.drop_last(), k) + (match (
            match_setup_spec(cat, data.last()),
            data.last().is_won_spec(),
        ) {
            (Some(sv), Ok(won)) => if won {
                0int
            } else {
                key_count(hero_keys_spec(sv), k)
            },
            _ => 0int,
        })
    }
}

proof fn lemma_heroes_counts_nonneg(cat: Seq<(u64, Hero)>, data: Seq<Match>, k: Seq<(Seq<char>, Seq<char>)>)
    ensures
        heroes_win_count(cat, data, k) >= 0,
        heroes_loss_count(cat, data, k) >= 0,
    decreases data.len(),
{
    if data.len() > 0 {
        lemma_heroes_counts_nonneg(cat, data.drop_last(), k);
        match (match_setup_spec(cat, data.last()), data.last().is_won_spec()) {
            (Some(sv), Ok(_)) => {
                lemma_key_count_nonneg(hero_keys_spec(sv), k);
            },
            _ => {},
        }
    }
}

/// Law: while the counters have room, each hero combination's record holds
/// exactly the number of won and lost matches in which it was enumerated.
pub proof fn lemma_heroes_counting(cat: Seq<(u64, Hero)>, data: Seq<Match>, k: Seq<(Seq<char>, Seq<char>)>)
    requires
        heroes_win_count(cat, data, k) + heroes_loss_count(cat, data, k) <= u32::MAX,
    ensures
        heroes_win_count(cat, data, k) + heroes_loss_count(cat, data, k) > 0 ==> get_spec(
            heroes_played_spec(cat, data),
            k,
        ) == Some(
            WinRatio {
                wins: heroes_win_count(cat, data, k) as u32,
                looses: heroes_loss_count(cat, data, k) as u32,
            },
        ),
        heroes_win_count(cat, data, k) + heroes_loss_count(cat, data, k) == 0 ==> get_spec(
            heroes_played_spec(cat, data),
            k,
        ) is None,
    decreases data.len(),
{
    lemma_heroes_counts_nonneg(cat, data, k);
    if data.len() > 0 {
        let d = data.drop_last();
        let m = data.last();
        lemma_heroes_counts_nonneg(cat, d, k);
        match (match_setup_spec(cat, m), m.is_won_spec()) {
            (Some(sv), Ok(won)) => {
                lemma_key_count_nonneg(hero_keys_spec(sv), k);
                lemma_heroes_counting(cat, d, k);
                let prev = heroes_played_spec(cat, d);
                lemma_get_fold_scores(prev, hero_keys_spec(sv), won, k);
                lemma_bump_n_exact(get_spec(prev, k), key_count(hero_keys_spec(sv), k), won);
            },
            _ => {
                lemma_heroes_counting(cat, d, k);
            },
        }
    }
}

} // verus!
