//! Player-role win ratios: each hero carries several role tags, so one
//! match fans out into the cartesian product of its members' role choices.

use crate::accmap::{
    entries_view, fold_scores_skip_empty, get_spec as map_get_spec, key_count, lemma_bump_n_exact,
    lemma_fold_skip_snoc, lemma_get_fold_skip, lemma_key_count_nonneg, upsert_score,
};
use crate::analyzers::analyzers_utils::{
    get_heroes, match_setup_spec, setup_view, subs_of, SetupEntryView,
};
use crate::analyzers::winratio::{
    lemma_winratio_order_flip, lemma_winratio_order_total, lemma_winratio_order_trans, WinRatio,
};
use crate::heroes_info::{Hero, HeroesInfo};
use crate::match_stats::{Match, PlayerName};
use crate::orders::views_of;
use vstd::prelude::*;

verus! {

broadcast use crate::orders::lemma_deep_view_views;

pub type RoleName = String;

pub type Roles = Vec<(PlayerName, RoleName)>;

pub type RolesWr = Vec<(Roles, WinRatio)>;

/// A player/role assignment at the contract level.
pub type RolePairView = (Seq<char>, Seq<char>);

/// One existing partial subset extended by each of one player's roles.
pub open spec fn with_roles(s: Seq<RolePairView>, player: Seq<char>, roles: Seq<Seq<char>>) -> Seq<
    Seq<RolePairView>,
> {
    roles.map_values(|r: Seq<char>| s.push((player, r)))
}

/// All partial subsets extended by one player: for every existing subset,
/// in order, one new subset per role.
pub open spec fn cross_one(
    prev: Seq<Seq<RolePairView>>,
    player: Seq<char>,
    roles: Seq<Seq<char>>,
) -> Seq<Seq<RolePairView>>
    decreases prev.len(),
{
    if prev.len() == 0 {
        Seq::empty()
    } else {
        cross_one(prev.drop_last(), player, roles) + with_roles(prev.last(), player, roles)
    }
}

/// The cartesian role subsets of a resolved setup: starting from one empty
/// subset, each player in turn doubles the set with every role choice.
pub open spec fn role_subsets_spec(setup: Seq<SetupEntryView>) -> Seq<Seq<RolePairView>>
    decreases setup.len(),
{
    if setup.len() == 0 {
        seq![Seq::<RolePairView>::empty()]
    } else {
        let prev = role_subsets_spec(setup.drop_last());
        let e = setup.last();
        prev + cross_one(prev, e.0, e.1.1)
    }
}

/// Duplicates a role-pair list.
fn clone_pairs(v: &Vec<(String, String)>) -> (r: Vec<(String, String)>)
    ensures
        views_of(r@) == views_of(v@),
{
    let mut r: Vec<(String, String)> = Vec::new();
    let mut i: usize = 0;
    while i < v.len()
        invariant
            i <= v@.len(),
            r@.len() == i,
            forall|k: int| 0 <= k < i ==> views_of(r@)[k] == views_of(v@)[k],
        decreases v@.len() - i,
    {
        let ghost before = r@;
        r.push((v[i].0.clone(), v[i].1.clone()));
        proof {
            assert forall|k: int| 0 <= k < i + 1 implies #[trigger] views_of(r@)[k] == views_of(
                v@,
            )[k] by {
                assert(views_of(r@)[k] == r@[k].deep_view());
                assert(views_of(v@)[k] == v@[k].deep_view());
                if k < i {
                    assert(r@[k] == before[k]);
                    assert(views_of(before)[k] == before[k].deep_view());
                    assert(views_of(before)[k] == views_of(v@)[k]);
                }
            }
        }
        i = i + 1;
    }
    proof {
        assert(views_of(r@) =~= views_of(v@));
    }
    r
}

/// Generates the cartesian role subsets of a team's resolved setup.
pub fn get_role_subsets(team_setup: Vec<(PlayerName, Hero)>) -> (r: Vec<Roles>)
    ensures
        subs_of(r@) == role_subsets_spec(setup_view(team_setup@)),
{
    let ghost sv = setup_view(team_setup@);
    let mut subsets: Vec<Roles> = Vec::new();
    let e: Roles = Vec::new();
    subsets.push(e);
    proof {
        assert(sv.take(0) =~= Seq::<SetupEntryView>::empty());
        assert(subs_of(subsets@) =~~= role_subsets_spec(sv.take(0)));
    }
    let n = team_setup.len();
    let mut i: usize = 0;
    while i < n
        invariant
            i <= n,
            n == team_setup@.len(),
            sv == setup_view(team_setup@),
            subs_of(subsets@) == role_subsets_spec(sv.take(i as int)),
        decreases n - i,
    {
        proof {
            assert(sv.take(i + 1).drop_last() =~= sv.take(i as int));
            assert(sv.take(i + 1).last() == sv[i as int]);
            assert(sv[i as int] == (
                team_setup@[i as int].0@,
                crate::heroes_info::hero_view(team_setup@[i as int].1),
            ));
        }
        let ghost prev = subs_of(subsets@);
        let player = &team_setup[i].0;
        let hero = &team_setup[i].1;
        let mut crossed: Vec<Roles> = Vec::new();
        let m = subsets.len();
        let mut j: usize = 0;
        proof {
            assert(prev.take(0) =~= Seq::<Seq<RolePairView>>::empty());
            assert(subs_of(crossed@) =~~= cross_one(prev.take(0), sv[i as int].0, sv[i as int].1.1));
        }
        while j < m
            invariant
                j <= m,
                m == subsets@.len(),
                prev == subs_of(subsets@),
                prev.len() == m,
                sv == setup_view(team_setup@),
                i < n,
                n == team_setup@.len(),
                player == &team_setup@[i as int].0,
                hero == &team_setup@[i as int].1,
                sv[i as int] == (
                    team_setup@[i as int].0@,
                    crate::heroes_info::hero_view(team_setup@[i as int].1),
                ),
                subs_of(crossed@) == cross_one(
                    prev.take(j as int),
                    sv[i as int].0,
                    sv[i as int].1.1,
                ),
            decreases m - j,
        {
            let ghost crossed_before = subs_of(crossed@);
            let nr = hero.roles.len();
            let mut q: usize = 0;
            while q < nr
                invariant
                    q <= nr,
                    j < m,
                    m == subsets@.len(),
                    nr == hero.roles@.len(),
                    prev == subs_of(subsets@),
                    prev.len() == m,
                    sv[i as int].1.1 == views_of(hero.roles@),
                    player == &team_setup@[i as int].0,
                    sv[i as int].0 == team_setup@[i as int].0@,
                    crossed_before == cross_one(prev.take(j as int), sv[i as int].0, sv[i as int].1.1),
                    subs_of(crossed@) == crossed_before + with_roles(
                        prev[j as int],
                        sv[i as int].0,
                        sv[i as int].1.1,
                    ).take(q as int),
                decreases nr - q,
            {
                let mut ns = clone_pairs(&subsets[j]);
                ns.push((player.clone(), hero.roles[q].clone()));
                proof {
                    assert(views_of(ns@) =~= prev[j as int].push(
                        (sv[i as int].0, views_of(hero.roles@)[q as int]),
                    ));
                    assert(with_roles(prev[j as int], sv[i as int].0, sv[i as int].1.1)[q as int]
                        == prev[j as int].push((sv[i as int].0, sv[i as int].1.1[q as int])));
                }
                let ghost cb = subs_of(crossed@);
                crossed.push(ns);
                proof {
                    assert(subs_of(crossed@) =~~= cb.push(views_of(ns@)));
                    assert(subs_of(crossed@) =~~= crossed_before + with_roles(
                        prev[j as int],
                        sv[i as int].0,
                        sv[i as int].1.1,
                    ).take(q + 1));
                }
                q = q + 1;
            }
            proof {
                let wr_full = with_roles(prev[j as int], sv[i as int].0, sv[i as int].1.1);
                assert(wr_full.take(nr as int) =~= wr_full);
                assert(prev.take(j + 1).drop_last() =~= prev.take(j as int));
                assert(prev.take(j + 1).last() == prev[j as int]);
                assert(subs_of(crossed@) =~~= cross_one(
                    prev.take(j + 1),
                    sv[i as int].0,
                    sv[i as int].1.1,
                ));
            }
            j = j + 1;
        }
        proof {
            assert(prev.take(m as int) =~= prev);
        }
        let ghost sb = subs_of(subsets@);
        let ghost cr = subs_of(crossed@);
        let mut crossed2 = crossed;
        subsets.append(&mut crossed2);
        proof {
            assert(subs_of(subsets@) =~~= sb + cr);
            assert(subs_of(subsets@) =~~= role_subsets_spec(sv.take(i + 1)));
        }
        i = i + 1;
    }
    proof {
        assert(sv.take(n as int) =~= sv);
    }
    subsets
}

/// The accumulated scores after one more match: every non-empty generated
/// role subset receives the outcome; the whole match is skipped when its
/// roster, any hero, or the outcome cannot be resolved.
pub open spec fn roles_step(
    m: Seq<(Seq<RolePairView>, WinRatio)>,
    cat: Seq<(u64, Hero)>,
    mt: Match,
) -> Seq<(Seq<RolePairView>, WinRatio)> {
    match (match_setup_spec(cat, mt), mt.is_won_spec()) {
        (Some(sv), Ok(won)) => fold_scores_skip_empty(m, role_subsets_spec(sv), won),
        _ => m,
    }
}

/// The role-subset score map over the corpus, in first-seen order.
pub open spec fn roles_wr_spec(cat: Seq<(u64, Hero)>, data: Seq<Match>) -> Seq<
    (Seq<RolePairView>, WinRatio),
>
    decreases data.len(),
{
    if data.len() == 0 {
        Seq::empty()
    } else {
        roles_step(roles_wr_spec(cat, data.drop_last()), cat, data.last())
    }
}

/// Computes the win ratio of each player-role setup over the corpus.
pub fn get_roles_wr(matches: &Vec<Match>, heroes_info: &HeroesInfo) -> (r: RolesWr)
    ensures
        entries_view(r@) == roles_wr_spec(heroes_info.heroes@, matches@),
{
    let ghost cat = heroes_info.heroes@;
    let mut score: RolesWr = Vec::new();
    let n = matches.len();
    let mut i: usize = 0;
    proof {
        assert(matches@.take(0) =~= Seq::<Match>::empty());
        assert(entries_view(score@) =~= roles_wr_spec(cat, matches@.take(0)));
    }
    while i < n
        invariant
            i <= n,
            n == matches@.len(),
            cat == heroes_info.heroes@,
            entries_view(score@) == roles_wr_spec(cat, matches@.take(i as int)),
        decreases n - i,
    {
        let mt = &matches[i];
        proof {
            assert(matches@.take(i + 1).drop_last() =~= matches@.take(i as int));
            assert(matches@.take(i + 1).last() == matches@[i as int]);
        }
        let team_r = mt.get_team();
        let won_r = mt.is_won();
        match (team_r, won_r) {
            (Ok(team), Ok(won)) => {
                match get_heroes(heroes_info, mt, team) {
                    Some(setup) => {
                        proof {
                            assert(match_setup_spec(cat, matches@[i as int]) == Some(
                                setup_view(setup@),
                            ));
                        }
                        let ghost sv = setup_view(setup@);
                        let subsets = get_role_subsets(setup);
                        let ghost keys = role_subsets_spec(sv);
                        let ghost start = entries_view(score@);
                        proof {
                            assert(keys == subs_of(subsets@));
                            assert(keys.take(0) =~= Seq::<Seq<RolePairView>>::empty());
                        }
                        let ghost m0 = subsets@.len();
                        let mut rem = subsets;
                        while rem.len() > 0
                            invariant
                                rem@.len() <= m0,
                                keys.len() == m0,
                                forall|j: int|
                                    0 <= j < rem@.len() ==> subs_of(rem@)[j] == keys[m0
                                        - rem@.len() + j],
                                entries_view(score@) == fold_scores_skip_empty(
                                    start,
                                    keys.take(m0 - rem@.len()),
                                    won,
                                ),
                            decreases rem@.len(),
                        {
                            let ghost done = m0 - rem@.len();
                            let ghost rem_before = rem@;
                            let sub = rem.remove(0);
                            proof {
                                assert(subs_of(rem_before)[0] == sub.deep_view());
                                assert(sub.deep_view() == keys[done]);
                                assert forall|j: int|
                                    0 <= j < rem@.len() implies #[trigger] subs_of(rem@)[j]
                                    == keys[done + 1 + j] by {
                                    assert(rem@[j] == rem_before[j + 1]);
                                    assert(subs_of(rem_before)[j + 1] == keys[done + j + 1]);
                                }
                                assert(sub.deep_view() == views_of(sub@));
                            }
                            if sub.len() > 0 {
                                upsert_score(&mut score, sub, won);
                            }
                            proof {
                                lemma_fold_skip_snoc(start, keys.take(done), keys[done], won);
                                assert(keys.take(done).push(keys[done]) =~= keys.take(done + 1));
                            }
                        }
                        proof {
                            assert(keys.take(m0 as int) =~= keys);
                            assert(entries_view(score@) == roles_step(
                                roles_wr_spec(cat, matches@.take(i as int)),
                                cat,
                                matches@[i as int],
                            ));
                        }
                    },
                    None => {},
                }
            },
            _ => {},
        }
        i = i + 1;
    }
    proof {
        assert(matches@.take(n as int) =~= matches@);
    }
    score
}


/// View of a (player, role) keyed record list.
pub open spec fn prows_view(s: Seq<((String, String), WinRatio)>) -> Seq<
    (RolePairView, WinRatio),
> {
    s.map_values(|p: ((String, String), WinRatio)| ((p.0.0@, p.0.1@), p.1))
}

/// The single-pair index: the record of each lone (player, role) pair,
/// later entries replacing earlier ones.
pub open spec fn singles_spec(rows: Seq<(Seq<RolePairView>, WinRatio)>) -> Seq<
    (RolePairView, WinRatio),
>
    decreases rows.len(),
{
    if rows.len() == 0 {
        Seq::empty()
    } else {
        let prev = singles_spec(rows.drop_last());
        let e = rows.last();
        if e.0.len() == 1 {
            crate::accmap::put_spec(prev, e.0[0], e.1)
        } else {
            prev
        }
    }
}

fn pair_put(m: &mut Vec<((String, String), WinRatio)>, key: (String, String), wr: WinRatio)
    ensures
        prows_view(final(m)@) == crate::accmap::put_spec(
            prows_view(old(m)@),
            (key.0@, key.1@),
            wr,
        ),
{
    let mut i: usize = 0;
    while i < m.len()
        invariant
            i <= m@.len(),
            m@ == old(m)@,
            forall|k: int|
                0 <= k < i ==> ((#[trigger] m@[k]).0.0@, m@[k].0.1@) != (key.0@, key.1@),
        decreases m@.len() - i,
    {
        let hit = crate::strutil::str_eq(m[i].0.0.as_str(), key.0.as_str())
            && crate::strutil::str_eq(m[i].0.1.as_str(), key.1.as_str());
        if hit {
            let entry = m.remove(i);
            m.insert(i, (entry.0, wr));
            proof {
                let mv = prows_view(old(m)@);
                assert(forall|k: int| 0 <= k < i ==> mv[k].0 != (key.0@, key.1@));
                assert(mv[i as int].0 == (key.0@, key.1@));
                crate::accmap::lemma_put_at(mv, (key.0@, key.1@), wr, i as int);
                assert(prows_view(m@) =~= mv.update(i as int, (mv[i as int].0, wr)));
            }
            return;
        }
        i = i + 1;
    }
    m.push((key, wr));
    proof {
        let mv = prows_view(old(m)@);
        assert(forall|k: int| 0 <= k < mv.len() ==> mv[k].0 != (key.0@, key.1@));
        crate::accmap::lemma_put_absent(mv, (key.0@, key.1@), wr);
        assert(prows_view(m@) =~= mv.push(((key.0@, key.1@), wr)));
    }
}

fn pair_get(m: &Vec<((String, String), WinRatio)>, key: &(String, String)) -> (r: Option<
    WinRatio,
>)
    ensures
        r == crate::accmap::get_spec(prows_view(m@), (key.0@, key.1@)),
{
    let mut i: usize = 0;
    while i < m.len()
        invariant
            i <= m@.len(),
            forall|k: int|
                0 <= k < i ==> ((#[trigger] m@[k]).0.0@, m@[k].0.1@) != (key.0@, key.1@),
        decreases m@.len() - i,
    {
        let hit = crate::strutil::str_eq(m[i].0.0.as_str(), key.0.as_str())
            && crate::strutil::str_eq(m[i].0.1.as_str(), key.1.as_str());
        if hit {
            proof {
                let mv = prows_view(m@);
                assert(forall|k: int| 0 <= k < i ==> mv[k].0 != (key.0@, key.1@));
                assert(mv[i as int].0 == (key.0@, key.1@));
                crate::accmap::lemma_get_at(mv, (key.0@, key.1@), i as int);
            }
            return Some(m[i].1);
        }
        i = i + 1;
    }
    proof {
        let mv = prows_view(m@);
        assert(forall|k: int| 0 <= k < mv.len() ==> mv[k].0 != (key.0@, key.1@));
        crate::accmap::lemma_get_absent(mv, (key.0@, key.1@));
    }
    None
}

/// Every record value in a map respects a games bound.
pub open spec fn totals_bounded(m: Seq<(RolePairView, WinRatio)>, bound: int) -> bool {
    forall|k: int| 0 <= k < m.len() ==> (#[trigger] m[k]).1.total_spec() <= bound
}

proof fn lemma_put_bounded(m: Seq<(RolePairView, WinRatio)>, key: RolePairView, wr: WinRatio, b: int)
    requires
        totals_bounded(m, b),
        wr.total_spec() <= b,
    ensures
        totals_bounded(crate::accmap::put_spec(m, key, wr), b),
    decreases m.len(),
{
    if m.len() == 0 {
    } else if m[0].0 == key {
        assert forall|k: int|
            0 <= k < crate::accmap::put_spec(m, key, wr).len() implies (#[trigger] crate::accmap::put_spec(
            m,
            key,
            wr,
        )[k]).1.total_spec() <= b by {
            if k > 0 {
                assert(crate::accmap::put_spec(m, key, wr)[k] == m[k]);
            }
        }
    } else {
        assert(totals_bounded(m.skip(1), b));
        lemma_put_bounded(m.skip(1), key, wr, b);
        assert forall|k: int|
            0 <= k < crate::accmap::put_spec(m, key, wr).len() implies (#[trigger] crate::accmap::put_spec(
            m,
            key,
            wr,
        )[k]).1.total_spec() <= b by {
            if k > 0 {
                assert(crate::accmap::put_spec(m, key, wr)[k] == crate::accmap::put_spec(
                    m.skip(1),
                    key,
                    wr,
                )[k - 1]);
            }
        }
    }
}

proof fn lemma_singles_bounded(rows: Seq<(Seq<RolePairView>, WinRatio)>, b: int)
    requires
        forall|k: int| 0 <= k < rows.len() ==> (#[trigger] rows[k]).1.total_spec() <= b,
    ensures
        totals_bounded(singles_spec(rows), b),
    decreases rows.len(),
{
    if rows.len() > 0 {
        assert(forall|k: int|
            0 <= k < rows.drop_last().len() ==> (#[trigger] rows.drop_last()[k]).1.total_spec()
                <= b);
        lemma_singles_bounded(rows.drop_last(), b);
        if rows.last().0.len() == 1 {
            lemma_put_bounded(singles_spec(rows.drop_last()), rows.last().0[0], rows.last().1, b);
        }
    }
}

proof fn lemma_get_bounded(m: Seq<(RolePairView, WinRatio)>, key: RolePairView, b: int)
    requires
        totals_bounded(m, b),
        crate::accmap::get_spec(m, key) is Some,
    ensures
        crate::accmap::get_spec(m, key).unwrap().total_spec() <= b,
    decreases m.len(),
{
    if m.len() > 0 && m[0].0 != key {
        assert(totals_bounded(m.skip(1), b));
        lemma_get_bounded(m.skip(1), key, b);
    }
}


/// Powers of the largest counter denominator: the ceiling that keeps the
/// running fraction sum within 128 bits.
pub open spec fn pw16(j: int) -> int
    decreases j,
{
    if j <= 0 {
        1
    } else {
        0x10000 * pw16(j - 1)
    }
}

proof fn lemma_pw16_mono(j: int)
    requires
        0 <= j <= 5,
    ensures
        1 <= pw16(j) <= 0x1_0000_0000_0000_0000_0000,
{
    assert(pw16(0) == 1);
    assert(pw16(1) == 0x10000 * pw16(0));
    assert(pw16(2) == 0x10000 * pw16(1));
    assert(pw16(3) == 0x10000 * pw16(2));
    assert(pw16(4) == 0x10000 * pw16(3));
    assert(pw16(5) == 0x10000 * pw16(4));
    if j == 0 {
    } else if j == 1 {
    } else if j == 2 {
    } else if j == 3 {
    } else if j == 4 {
    } else {
        assert(j == 5);
    }
}

/// The exact sum of a list of fractions, denominators multiplied out.
pub open spec fn sum_fracs(ps: Seq<(int, int)>) -> (int, int)
    decreases ps.len(),
{
    if ps.len() == 0 {
        (0int, 1int)
    } else {
        let prev = sum_fracs(ps.drop_last());
        let p = ps.last();
        (prev.0 * p.1 + p.0 * prev.1, prev.1 * p.1)
    }
}

/// Adds up at most five small percentage fractions exactly.
fn sum_fracs_exec(ps: &Vec<(u64, u64)>) -> (r: (u128, u128))
    requires
        ps@.len() <= 5,
        forall|k: int|
            0 <= k < ps@.len() ==> 1 <= (#[trigger] ps@[k]).1 <= 0x10000 && ps@[k].0 <= ps@[k].1,
    ensures
        (r.0 as int, r.1 as int) == sum_fracs(pcts_view(ps@)),
        1 <= r.1 <= 0x1_0000_0000_0000_0000_0000,
        r.0 <= 0x5_0000_0000_0000_0000_0000,
{
    let mut accn: u128 = 0;
    let mut accd: u128 = 1;
    let n = ps.len();
    let mut i: usize = 0;
    proof {
        assert(pcts_view(ps@).take(0) =~= Seq::<(int, int)>::empty());
    }
    while i < n
        invariant
            i <= n,
            n == ps@.len(),
            n <= 5,
            forall|k: int|
                0 <= k < ps@.len() ==> 1 <= (#[trigger] ps@[k]).1 <= 0x10000 && ps@[k].0
                    <= ps@[k].1,
            (accn as int, accd as int) == sum_fracs(pcts_view(ps@).take(i as int)),
            1 <= accd,
            accd <= pw16(i as int),
            accn <= (i as int) * pw16(i as int),
        decreases n - i,
    {
        let p = ps[i];
        proof {
            let pv = pcts_view(ps@);
            assert(pv.take(i + 1).drop_last() =~= pv.take(i as int));
            assert(pv.take(i + 1).last() == pv[i as int]);
            assert(pv[i as int] == (ps@[i as int].0 as int, ps@[i as int].1 as int));
            lemma_pw16_mono(i as int);
            lemma_pw16_mono(i + 1);
            assert(accd * p.1 <= pw16(i + 1)) by (nonlinear_arith)
                requires
                    accd <= pw16(i as int),
                    0 < accd,
                    0 < p.1 <= 0x10000,
                    pw16(i + 1) == 0x10000 * pw16(i as int),
                    pw16(i as int) >= 1,
            ;
            assert(accn * p.1 <= (i as int) * pw16(i + 1)) by (nonlinear_arith)
                requires
                    accn <= (i as int) * pw16(i as int),
                    accn >= 0,
                    i >= 0,
                    0 < p.1 <= 0x10000,
                    pw16(i + 1) == 0x10000 * pw16(i as int),
                    pw16(i as int) >= 1,
            ;
            assert(p.0 * accd <= pw16(i + 1)) by (nonlinear_arith)
                requires
                    p.0 <= p.1,
                    0 < p.1 <= 0x10000,
                    0 < accd <= pw16(i as int),
                    pw16(i + 1) == 0x10000 * pw16(i as int),
                    pw16(i as int) >= 1,
            ;
            assert(accd * p.1 >= 1) by (nonlinear_arith)
                requires
                    accd >= 1 && p.1 >= 1,
            ;
            assert((i as int) * pw16(i + 1) + pw16(i + 1) == (i + 1) * pw16(i + 1))
                by (nonlinear_arith);
            assert((i + 1) * pw16(i + 1) <= 6 * 0x1_0000_0000_0000_0000_0000) by (nonlinear_arith)
                requires
                    0 <= i + 1 <= 6,
                    1 <= pw16(i + 1) <= 0x1_0000_0000_0000_0000_0000,
            ;
        }
        let new_n = accn * (p.1 as u128) + (p.0 as u128) * accd;
        let new_d = accd * (p.1 as u128);
        accn = new_n;
        accd = new_d;
        i = i + 1;
        proof {
            lemma_pw16_mono(i as int);
        }
    }
    proof {
        assert(pcts_view(ps@).take(n as int) =~= pcts_view(ps@));
        lemma_pw16_mono(n as int);
        assert(accn <= (n as int) * pw16(n as int));
        assert((n as int) * pw16(n as int) <= 5 * 0x1_0000_0000_0000_0000_0000) by (nonlinear_arith)
            requires
                0 <= n <= 5,
                1 <= pw16(n as int) <= 0x1_0000_0000_0000_0000_0000,
        ;
    }
    (accn, accd)
}

pub open spec fn pcts_view(s: Seq<(u64, u64)>) -> Seq<(int, int)> {
    s.map_values(|p: (u64, u64)| (p.0 as int, p.1 as int))
}

/// The solo baseline percentage of one role pair: its standalone record
/// minus the team record where that subtraction is defined, else the raw
/// standalone record.
pub open spec fn solo_pct(
    singles: Seq<(RolePairView, WinRatio)>,
    role: RolePairView,
    team: WinRatio,
) -> Option<(int, int)> {
    match crate::accmap::get_spec(singles, role) {
        Some(s) => match s.sub_spec(team) {
            Some(d) => Some(d.percent_spec()),
            None => Some(s.percent_spec()),
        },
        None => None,
    }
}

/// Every member's solo baseline, or nothing as soon as one is missing.
pub open spec fn solo_pcts(
    singles: Seq<(RolePairView, WinRatio)>,
    roles: Seq<RolePairView>,
    team: WinRatio,
) -> Option<Seq<(int, int)>>
    decreases roles.len(),
{
    if roles.len() == 0 {
        Some(Seq::<(int, int)>::empty())
    } else {
        match solo_pct(singles, roles[0], team) {
            Some(p) => match solo_pcts(singles, roles.skip(1), team) {
                Some(rest) => Some(seq![p] + rest),
                None => None,
            },
            None => None,
        }
    }
}

/// The synergy row for one subset: nothing for singles or rows under the
/// games floor; otherwise the team ratio over the average solo baseline,
/// rounded to thousandths, or an undefined marker when every baseline is
/// zero.  A subset with a missing baseline is left out entirely.
pub open spec fn synergy_row(
    singles: Seq<(RolePairView, WinRatio)>,
    roles: Seq<RolePairView>,
    wr: WinRatio,
    min_games: u32,
) -> Option<Option<Option<u64>>> {
    if roles.len() <= 1 || wr.total_spec() < min_games {
        None
    } else {
        match solo_pcts(singles, roles, wr) {
            Some(ps) => {
                let nd = sum_fracs(ps);
                if nd.0 == 0 {
                    Some(Some(None))
                } else {
                    let tp = wr.percent_spec();
                    Some(
                        Some(
                            Some(
                                crate::fracs::permille_spec(
                                    roles.len() * tp.0 * nd.1,
                                    tp.1 * nd.0,
                                ) as u64,
                            ),
                        ),
                    )
                }
            },
            None => Some(None),
        }
    }
}

/// The synergy rows over a whole score map, in map order.
pub open spec fn roles_synergies_from(
    singles: Seq<(RolePairView, WinRatio)>,
    rows: Seq<(Seq<RolePairView>, WinRatio)>,
    min_games: u32,
) -> Seq<(Seq<RolePairView>, Option<u64>)>
    decreases rows.len(),
{
    if rows.len() == 0 {
        Seq::empty()
    } else {
        let prev = roles_synergies_from(singles, rows.drop_last(), min_games);
        let e = rows.last();
        match synergy_row(singles, e.0, e.1, min_games) {
            Some(Some(v)) => prev.push((e.0, v)),
            _ => prev,
        }
    }
}

pub open spec fn roles_synergies_spec(
    rows: Seq<(Seq<RolePairView>, WinRatio)>,
    min_games: u32,
) -> Seq<(Seq<RolePairView>, Option<u64>)> {
    roles_synergies_from(singles_spec(rows), rows, min_games)
}

/// View of the synergy result rows.
pub open spec fn syn_rows_view(s: Seq<(Roles, Option<u64>)>) -> Seq<
    (Seq<RolePairView>, Option<u64>),
> {
    s.map_values(|p: (Roles, Option<u64>)| (views_of(p.0@), p.1))
}


/// Computes the synergy of each multi-member role subset with at least
/// `min_games` recorded games: the subset's win percentage over the
/// average of its members' solo baselines, rounded to thousandths; the
/// marker value stands where every baseline percentage is zero.  Exact
/// 128-bit evaluation asks for rosters of at most five and counters of at
/// most 65535 games.
pub fn get_roles_synergies(roles_wr: &RolesWr, min_games: u32) -> (r: Vec<(Roles, Option<u64>)>)
    requires
        forall|j: int|
            0 <= j < roles_wr@.len() ==> (#[trigger] roles_wr@[j]).0@.len() <= 5
                && roles_wr@[j].1.total_spec() <= 0xFFFF,
    ensures
        syn_rows_view(r@) == roles_synergies_spec(entries_view(roles_wr@), min_games),
{
    let ghost ev = entries_view(roles_wr@);
    let mut singles: Vec<((String, String), WinRatio)> = Vec::new();
    let n = roles_wr.len();
    let mut i: usize = 0;
    proof {
        assert(ev.take(0) =~= Seq::<(Seq<RolePairView>, WinRatio)>::empty());
        assert(prows_view(singles@) =~= singles_spec(ev.take(0)));
    }
    while i < n
        invariant
            i <= n,
            n == roles_wr@.len(),
            ev == entries_view(roles_wr@),
            prows_view(singles@) == singles_spec(ev.take(i as int)),
        decreases n - i,
    {
        proof {
            assert(ev.take(i + 1).drop_last() =~= ev.take(i as int));
            assert(ev.take(i + 1).last() == ev[i as int]);
            assert(ev[i as int] == (roles_wr@[i as int].0.deep_view(), roles_wr@[i as int].1));
        }
        if roles_wr[i].0.len() == 1 {
            let key = (roles_wr[i].0[0].0.clone(), roles_wr[i].0[0].1.clone());
            proof {
                assert(ev[i as int].0[0] == roles_wr@[i as int].0@[0].deep_view());
                assert((key.0@, key.1@) == ev[i as int].0[0]);
            }
            pair_put(&mut singles, key, roles_wr[i].1);
        }
        i = i + 1;
    }
    proof {
        assert(ev.take(n as int) =~= ev);
        assert(forall|k: int|
            0 <= k < ev.len() ==> (#[trigger] ev[k]).1.total_spec() <= 0xFFFF) by {
            assert(forall|k: int|
                0 <= k < ev.len() ==> (#[trigger] ev[k]).1 == roles_wr@[k].1);
        }
        lemma_singles_bounded(ev, 0xFFFF);
    }
    let ghost singles_v = prows_view(singles@);
    let mut out: Vec<(Roles, Option<u64>)> = Vec::new();
    let mut i2: usize = 0;
    proof {
        assert(syn_rows_view(out@) =~= roles_synergies_from(singles_v, ev.take(0), min_games));
    }
    while i2 < n
        invariant
            i2 <= n,
            n == roles_wr@.len(),
            ev == entries_view(roles_wr@),
            singles_v == prows_view(singles@),
            singles_v == singles_spec(ev),
            totals_bounded(singles_v, 0xFFFF),
            forall|j: int|
                0 <= j < roles_wr@.len() ==> (#[trigger] roles_wr@[j]).0@.len() <= 5
                    && roles_wr@[j].1.total_spec() <= 0xFFFF,
            syn_rows_view(out@) == roles_synergies_from(singles_v, ev.take(i2 as int), min_games),
        decreases n - i2,
    {
        proof {
            assert(ev.take(i2 + 1).drop_last() =~= ev.take(i2 as int));
            assert(ev.take(i2 + 1).last() == ev[i2 as int]);
            assert(ev[i2 as int] == (roles_wr@[i2 as int].0.deep_view(), roles_wr@[i2 as int].1));
        }
        let ghost rv = ev[i2 as int].0;
        let wr = roles_wr[i2].1;
        let m = roles_wr[i2].0.len();
        let t = (wr.wins as u64) + (wr.looses as u64);
        if m <= 1 || t < min_games as u64 {
            proof {
                assert(synergy_row(singles_v, rv, wr, min_games) is None);
                assert(syn_rows_view(out@) =~= roles_synergies_from(
                    singles_v,
                    ev.take(i2 + 1),
                    min_games,
                ));
            }
        } else {
            let mut ps: Vec<(u64, u64)> = Vec::new();
            let mut ok = true;
            let mut q: usize = 0;
            proof {
                assert(rv.skip(0) =~= rv);
                assert(pcts_view(ps@) =~= Seq::<(int, int)>::empty());
            }
            while q < m && ok
                invariant
                    q <= m,
                    m == roles_wr@[i2 as int].0@.len(),
                    i2 < n,
                    n == roles_wr@.len(),
                    ev == entries_view(roles_wr@),
                    rv == ev[i2 as int].0,
                    rv.len() == m,
                    m <= 5,
                    wr == roles_wr@[i2 as int].1,
                    wr.total_spec() <= 0xFFFF,
                    singles_v == prows_view(singles@),
                    totals_bounded(singles_v, 0xFFFF),
                    ok ==> ps@.len() == q,
                    ok ==> forall|k: int|
                        0 <= k < ps@.len() ==> 1 <= (#[trigger] ps@[k]).1 <= 0x10000 && ps@[k].0
                            <= ps@[k].1,
                    ok ==> solo_pcts(singles_v, rv, wr) == crate::analyzers::analyzers_utils::opt_prepend(
                        pcts_view(ps@),
                        solo_pcts(singles_v, rv.skip(q as int), wr),
                    ),
                    !ok ==> solo_pcts(singles_v, rv, wr) is None,
                decreases m - q,
            {
                proof {
                    assert(rv.skip(q as int)[0] == rv[q as int]);
                    assert(rv[q as int] == roles_wr@[i2 as int].0@[q as int].deep_view());
                    assert(rv.skip(q as int).skip(1) =~= rv.skip(q + 1));
                }
                let pr = (roles_wr[i2].0[q].0.clone(), roles_wr[i2].0[q].1.clone());
                proof {
                    assert((pr.0@, pr.1@) == rv[q as int]);
                }
                match pair_get(&singles, &pr) {
                    Some(swr) => {
                        proof {
                            lemma_get_bounded(singles_v, rv[q as int], 0xFFFF);
                        }
                        let d = match swr.sub(wr) {
                            Some(d) => d,
                            None => swr,
                        };
                        proof {
                            assert(d.total_spec() <= 0xFFFF);
                        }
                        let p = d.percent();
                        proof {
                            assert(1 <= p.1 <= 0x10000 && p.0 <= p.1);
                            assert(solo_pct(singles_v, rv[q as int], wr) == Some(
                                (p.0 as int, p.1 as int),
                            ));
                        }
                        let ghost ps_before = pcts_view(ps@);
                        ps.push(p);
                        proof {
                            assert(pcts_view(ps@) =~= ps_before.push((p.0 as int, p.1 as int)));
                            assert(solo_pcts(singles_v, rv.skip(q as int), wr) == (
                            match solo_pcts(singles_v, rv.skip(q + 1), wr) {
                                Some(rest) => Some(seq![(p.0 as int, p.1 as int)] + rest),
                                None => None,
                            }));
                            match solo_pcts(singles_v, rv.skip(q + 1), wr) {
                                Some(rest) => {
                                    assert((ps_before + (seq![(p.0 as int, p.1 as int)] + rest))
                                        =~= (pcts_view(ps@) + rest));
                                },
                                None => {},
                            }
                        }
                    },
                    None => {
                        proof {
                            assert(solo_pct(singles_v, rv[q as int], wr) is None);
                            assert(solo_pcts(singles_v, rv.skip(q as int), wr) is None);
                        }
                        ok = false;
                    },
                }
                q = q + 1;
            }
            if ok {
                proof {
                    assert(rv.skip(m as int).len() == 0);
                    assert(solo_pcts(singles_v, rv.skip(m as int), wr) == Some(
                        Seq::<(int, int)>::empty(),
                    ));
                    assert(pcts_view(ps@) + Seq::<(int, int)>::empty() =~= pcts_view(ps@));
                    assert(solo_pcts(singles_v, rv, wr) == Some(pcts_view(ps@)));
                }
                let nd = sum_fracs_exec(&ps);
                if nd.0 == 0 {
                    let key = clone_pairs(&roles_wr[i2].0);
                    let ghost ob = out@;
                    out.push((key, None));
                    proof {
                        assert(views_of(key@) == rv);
                        assert(synergy_row(singles_v, rv, wr, min_games) == Some(
                            Some(None::<u64>),
                        ));
                        assert forall|k: int| 0 <= k < out@.len() implies #[trigger] syn_rows_view(
                            out@,
                        )[k] == roles_synergies_from(singles_v, ev.take(i2 + 1), min_games)[k] by {
                            assert(syn_rows_view(out@)[k] == (views_of(out@[k].0@), out@[k].1));
                            if k < ob.len() {
                                assert(out@[k] == ob[k]);
                                assert(syn_rows_view(ob)[k] == (views_of(ob[k].0@), ob[k].1));
                                assert(syn_rows_view(ob)[k] == roles_synergies_from(
                                    singles_v,
                                    ev.take(i2 as int),
                                    min_games,
                                )[k]);
                            }
                        }
                        assert(syn_rows_view(out@) =~= roles_synergies_from(
                            singles_v,
                            ev.take(i2 + 1),
                            min_games,
                        ));
                    }
                } else {
                    let tp = wr.percent();
                    proof {
                        assert(1 <= tp.1 <= 0x10000 && tp.0 <= tp.1);
                        assert((m as u128) * (tp.0 as u128) <= 5 * 0x10000) by (nonlinear_arith)
                            requires
                                0 <= m <= 5,
                                0 <= tp.0 <= 0x10000,
                        ;
                        assert((m as u128) * (tp.0 as u128) * nd.1
                            <= 0x5_0000_0000_0000_0000_0000_0000) by (nonlinear_arith)
                            requires
                                0 <= (m as u128) * (tp.0 as u128) <= 5 * 0x10000,
                                0 <= nd.1 <= 0x1_0000_0000_0000_0000_0000,
                        ;
                        assert((tp.1 as u128) * nd.0 <= 0x5_0000_0000_0000_0000_0000_0000)
                            by (nonlinear_arith)
                            requires
                                0 <= tp.1 <= 0x10000,
                                0 <= nd.0 <= 0x5_0000_0000_0000_0000_0000,
                        ;
                        assert((tp.1 as u128) * nd.0 >= 1) by (nonlinear_arith)
                            requires
                                tp.1 >= 1,
                                nd.0 >= 1,
                        ;
                    }
                    let num = (m as u128) * (tp.0 as u128) * nd.1;
                    let den = (tp.1 as u128) * nd.0;
                    let pm = crate::fracs::permille(num, den);
                    let key = clone_pairs(&roles_wr[i2].0);
                    let ghost ob = out@;
                    out.push((key, Some(pm)));
                    proof {
                        assert(views_of(key@) == rv);
                        assert(num as int == rv.len() * wr.percent_spec().0 * sum_fracs(
                            pcts_view(ps@),
                        ).1);
                        assert(den as int == wr.percent_spec().1 * sum_fracs(pcts_view(ps@)).0);
                        assert(synergy_row(singles_v, rv, wr, min_games) == Some(
                            Some(Some(pm)),
                        ));
                        assert forall|k: int| 0 <= k < out@.len() implies #[trigger] syn_rows_view(
                            out@,
                        )[k] == roles_synergies_from(singles_v, ev.take(i2 + 1), min_games)[k] by {
                            assert(syn_rows_view(out@)[k] == (views_of(out@[k].0@), out@[k].1));
                            if k < ob.len() {
                                assert(out@[k] == ob[k]);
                                assert(syn_rows_view(ob)[k] == (views_of(ob[k].0@), ob[k].1));
                                assert(syn_rows_view(ob)[k] == roles_synergies_from(
                                    singles_v,
                                    ev.take(i2 as int),
                                    min_games,
                                )[k]);
                            }
                        }
                        assert(syn_rows_view(out@) =~= roles_synergies_from(
                            singles_v,
                            ev.take(i2 + 1),
                            min_games,
                        ));
                    }
                }
            } else {
                proof {
                    assert(synergy_row(singles_v, rv, wr, min_games) == Some(
                        None::<Option<u64>>,
                    ));
                    assert(syn_rows_view(out@) =~= roles_synergies_from(
                        singles_v,
                        ev.take(i2 + 1),
                        min_games,
                    ));
                }
            }
        }
        i2 = i2 + 1;
    }
    proof {
        assert(ev.take(n as int) =~= ev);
    }
    out
}


/// The rows whose counter shows strictly more than `min` games.
pub open spec fn keep_rows(rows: Seq<(Seq<RolePairView>, WinRatio)>, min: u32) -> Seq<
    (Seq<RolePairView>, WinRatio),
>
    decreases rows.len(),
{
    if rows.len() == 0 {
        Seq::empty()
    } else {
        let prev = keep_rows(rows.drop_last(), min);
        if rows.last().1.total_spec() > min {
            prev.push(rows.last())
        } else {
            prev
        }
    }
}

/// The rows whose counter shows at least `min` games.
pub open spec fn compress_spec(rows: Seq<(Seq<RolePairView>, WinRatio)>, min: u32) -> Seq<
    (Seq<RolePairView>, WinRatio),
>
    decreases rows.len(),
{
    if rows.len() == 0 {
        Seq::empty()
    } else {
        let prev = compress_spec(rows.drop_last(), min);
        if rows.last().1.total_spec() >= min {
            prev.push(rows.last())
        } else {
            prev
        }
    }
}

/// Drops setups without enough recorded games; applied only after the
/// derived statistics were computed from the uncompressed map.
pub fn compress_roles_wr(roles_wr: RolesWr, min_games: u32) -> (r: RolesWr)
    ensures
        entries_view(r@) == compress_spec(entries_view(roles_wr@), min_games),
{
    let ghost ev = entries_view(roles_wr@);
    let ghost m0 = roles_wr@.len();
    let mut rem = roles_wr;
    let mut out: RolesWr = Vec::new();
    proof {
        assert(ev.take(0) =~= Seq::<(Seq<RolePairView>, WinRatio)>::empty());
        assert(entries_view(out@) =~= compress_spec(ev.take(0), min_games));
    }
    while rem.len() > 0
        invariant
            rem@.len() <= m0,
            ev.len() == m0,
            forall|j: int|
                0 <= j < rem@.len() ==> (#[trigger] entries_view(rem@)[j]) == ev[m0 - rem@.len()
                    + j],
            entries_view(out@) == compress_spec(ev.take(m0 - rem@.len()), min_games),
        decreases rem@.len(),
    {
        let ghost done = m0 - rem@.len();
        let ghost rem_before = rem@;
        let e = rem.remove(0);
        proof {
            assert(entries_view(rem_before)[0] == (e.0.deep_view(), e.1));
            assert((e.0.deep_view(), e.1) == ev[done]);
            assert forall|j: int| 0 <= j < rem@.len() implies #[trigger] entries_view(rem@)[j]
                == ev[done + 1 + j] by {
                assert(rem@[j] == rem_before[j + 1]);
                assert(entries_view(rem_before)[j + 1] == ev[done + j + 1]);
            }
            assert(ev.take(done + 1).drop_last() =~= ev.take(done));
            assert(ev.take(done + 1).last() == ev[done]);
        }
        let t = (e.1.wins as u64) + (e.1.looses as u64);
        let ghost ob = out@;
        if t >= min_games as u64 {
            out.push(e);
            proof {
                assert forall|k: int| 0 <= k < out@.len() implies #[trigger] entries_view(out@)[k]
                    == compress_spec(ev.take(done + 1), min_games)[k] by {
                    assert(entries_view(out@)[k] == (out@[k].0.deep_view(), out@[k].1));
                    if k < ob.len() {
                        assert(out@[k] == ob[k]);
                        assert(entries_view(ob)[k] == (ob[k].0.deep_view(), ob[k].1));
                        assert(entries_view(ob)[k] == compress_spec(ev.take(done), min_games)[k]);
                    }
                }
                assert(entries_view(out@) =~= compress_spec(ev.take(done + 1), min_games));
            }
        } else {
            proof {
                assert(entries_view(out@) =~= compress_spec(ev.take(done + 1), min_games));
            }
        }
    }
    proof {
        assert(ev.take(m0 as int) =~= ev);
    }
    out
}



/// Ranked duo rows order by their record alone.
impl crate::orders::SortOrd for (String, String, WinRatio) {
    open spec fn le_key(
        a: (Seq<char>, Seq<char>, WinRatio),
        b: (Seq<char>, Seq<char>, WinRatio),
    ) -> bool {
        a.2.cmp_spec(b.2) != core::cmp::Ordering::Greater
    }

    fn le(&self, other: &(String, String, WinRatio)) -> (r: bool) {
        let c = self.2.cmp_to(&other.2);
        !(matches!(c, core::cmp::Ordering::Greater))
    }
}

/// Two names in lexicographic order.
pub open spec fn sort2v(a: Seq<char>, b: Seq<char>) -> (Seq<char>, Seq<char>) {
    if crate::strutil::str_le_spec(a, b) {
        (a, b)
    } else {
        (b, a)
    }
}

/// Three names in lexicographic order.
pub open spec fn sort3v(a: Seq<char>, b: Seq<char>, c: Seq<char>) -> (
    Seq<char>,
    Seq<char>,
    Seq<char>,
) {
    let xy = sort2v(a, b);
    let yz = sort2v(xy.1, c);
    let xy2 = sort2v(xy.0, yz.0);
    (xy2.0, xy2.1, yz.1)
}

/// The per-role grouping of the lone (player, role) rows.
pub open spec fn bs_groups(rows: Seq<(Seq<RolePairView>, WinRatio)>) -> Seq<
    (Seq<char>, Seq<(Seq<char>, WinRatio)>),
>
    decreases rows.len(),
{
    if rows.len() == 0 {
        Seq::empty()
    } else {
        let prev = bs_groups(rows.drop_last());
        let e = rows.last();
        if e.0.len() == 1 {
            crate::accmap::group_upsert(prev, e.0[0].1, (e.0[0].0, e.1))
        } else {
            prev
        }
    }
}

/// One step of a best-record scan: a later row displaces the holder unless
/// it compares strictly below it.
pub open spec fn best_step(
    acc: Option<(Seq<char>, WinRatio)>,
    x: (Seq<char>, WinRatio),
) -> Option<(Seq<char>, WinRatio)> {
    match acc {
        None => Some(x),
        Some(c) => if !x.1.lt_spec(c.1) {
            Some(x)
        } else {
            acc
        },
    }
}

pub open spec fn best_scan(
    s: Seq<(Seq<char>, WinRatio)>,
    acc: Option<(Seq<char>, WinRatio)>,
) -> Option<(Seq<char>, WinRatio)>
    decreases s.len(),
{
    if s.len() == 0 {
        acc
    } else {
        best_scan(s.skip(1), best_step(acc, s[0]))
    }
}

/// For each role, the player with the best record on it.
pub open spec fn best_single_spec(rows: Seq<(Seq<RolePairView>, WinRatio)>) -> Seq<
    (Seq<char>, Seq<char>, WinRatio),
> {
    bs_groups(rows).map_values(
        |g: (Seq<char>, Seq<(Seq<char>, WinRatio)>)|
            match best_scan(g.1, None) {
                Some(p) => (g.0, p.0, p.1),
                None => (Seq::<char>::empty(), Seq::<char>::empty(), WinRatio { wins: 0, looses: 0 }),
            },
    )
}

/// The carry/support duos among the rows, in row order.
pub open spec fn carry_sup_rows(rows: Seq<(Seq<RolePairView>, WinRatio)>) -> Seq<
    (Seq<char>, Seq<char>, WinRatio),
>
    decreases rows.len(),
{
    if rows.len() == 0 {
        Seq::empty()
    } else {
        let prev = carry_sup_rows(rows.drop_last());
        let e = rows.last();
        if e.0.len() == 2 && sort2v(e.0[0].1, e.0[1].1) == ("Carry"@, "Support"@) {
            prev.push((e.0[0].0, e.0[1].0, e.1))
        } else {
            prev
        }
    }
}

/// A slot from the ranked duos, or the empty sentinel.
pub open spec fn slot3(s: Seq<(Seq<char>, Seq<char>, WinRatio)>, k: int) -> (
    Seq<char>,
    Seq<char>,
    WinRatio,
) {
    if k < s.len() {
        s[k]
    } else {
        (Seq::<char>::empty(), Seq::<char>::empty(), WinRatio { wins: 0, looses: 0 })
    }
}

/// The top three carry/support duos by record, empty slots at the back.
pub open spec fn top3_carry_sup_spec(rows: Seq<(Seq<RolePairView>, WinRatio)>) -> Seq<
    (Seq<char>, Seq<char>, WinRatio),
> {
    let ranked = crate::orders::sort_spec::<(String, String, WinRatio)>(
        carry_sup_rows(rows),
    ).reverse();
    seq![slot3(ranked, 0), slot3(ranked, 1), slot3(ranked, 2)]
}

/// A trio whose sorted role names form one of the five fight compositions.
pub open spec fn is_fight(e: (Seq<RolePairView>, WinRatio)) -> bool {
    e.0.len() == 3 && {
        let t = sort3v(e.0[0].1, e.0[1].1, e.0[2].1);
        ||| t == ("Disabler"@, "Initiator"@, "Nuker"@)
        ||| t == ("Initiator"@, "Nuker"@, "Support"@)
        ||| t == ("Disabler"@, "Initiator"@, "Support"@)
        ||| t == ("Disabler"@, "Durable"@, "Support"@)
        ||| t == ("Durable"@, "Initiator"@, "Support"@)
    }
}

pub open spec fn fight_step(
    acc: Option<(Seq<char>, Seq<char>, Seq<char>, WinRatio)>,
    e: (Seq<RolePairView>, WinRatio),
) -> Option<(Seq<char>, Seq<char>, Seq<char>, WinRatio)> {
    if is_fight(e) {
        match acc {
            None => Some((e.0[0].0, e.0[1].0, e.0[2].0, e.1)),
            Some(c) => if !e.1.lt_spec(c.3) {
                Some((e.0[0].0, e.0[1].0, e.0[2].0, e.1))
            } else {
                acc
            },
        }
    } else {
        acc
    }
}

pub open spec fn fight_scan(
    rows: Seq<(Seq<RolePairView>, WinRatio)>,
    acc: Option<(Seq<char>, Seq<char>, Seq<char>, WinRatio)>,
) -> Option<(Seq<char>, Seq<char>, Seq<char>, WinRatio)>
    decreases rows.len(),
{
    if rows.len() == 0 {
        acc
    } else {
        fight_scan(rows.skip(1), fight_step(acc, rows[0]))
    }
}

pub open spec fn best_fight_crew_spec(rows: Seq<(Seq<RolePairView>, WinRatio)>) -> (
    Seq<char>,
    Seq<char>,
    Seq<char>,
    WinRatio,
) {
    match fight_scan(rows, None) {
        Some(c) => c,
        None => (
            Seq::<char>::empty(),
            Seq::<char>::empty(),
            Seq::<char>::empty(),
            WinRatio { wins: 0, looses: 0 },
        ),
    }
}

/// A duo whose roles are written Nuker, Nuker in that order.
pub open spec fn is_nuke(e: (Seq<RolePairView>, WinRatio)) -> bool {
    e.0.len() == 2 && e.0[0].1 == "Nuker"@ && e.0[1].1 == "Nuker"@
}

pub open spec fn nuke_step(
    acc: Option<(Seq<char>, Seq<char>, WinRatio)>,
    e: (Seq<RolePairView>, WinRatio),
) -> Option<(Seq<char>, Seq<char>, WinRatio)> {
    if is_nuke(e) {
        match acc {
            None => Some((e.0[0].0, e.0[1].0, e.1)),
            Some(c) => if !e.1.lt_spec(c.2) {
                Some((e.0[0].0, e.0[1].0, e.1))
            } else {
                acc
            },
        }
    } else {
        acc
    }
}

pub open spec fn nuke_scan(
    rows: Seq<(Seq<RolePairView>, WinRatio)>,
    acc: Option<(Seq<char>, Seq<char>, WinRatio)>,
) -> Option<(Seq<char>, Seq<char>, WinRatio)>
    decreases rows.len(),
{
    if rows.len() == 0 {
        acc
    } else {
        nuke_scan(rows.skip(1), nuke_step(acc, rows[0]))
    }
}

pub open spec fn best_nuking_squad_spec(rows: Seq<(Seq<RolePairView>, WinRatio)>) -> (
    Seq<char>,
    Seq<char>,
    WinRatio,
) {
    match nuke_scan(rows, None) {
        Some(c) => c,
        None => (Seq::<char>::empty(), Seq::<char>::empty(), WinRatio { wins: 0, looses: 0 }),
    }
}


/// Results for the named player-role records.
#[derive(Debug)]
pub struct RolesRecords {
    /// For each role, the player with the best record on it.
    pub best_single: Vec<(RoleName, PlayerName, WinRatio)>,
    /// The three best carry/support duos, empty slots at the back.
    pub top3_carry_sup: Vec<(PlayerName, PlayerName, WinRatio)>,
    /// The best trio among the five fight compositions.
    pub best_fight_crew: (PlayerName, PlayerName, PlayerName, WinRatio),
    /// The best double-Nuker duo.
    pub best_nuking_squad: (PlayerName, PlayerName, WinRatio),
}

pub open spec fn records_view(r: RolesRecords) -> (
    Seq<(Seq<char>, Seq<char>, WinRatio)>,
    Seq<(Seq<char>, Seq<char>, WinRatio)>,
    (Seq<char>, Seq<char>, Seq<char>, WinRatio),
    (Seq<char>, Seq<char>, WinRatio),
) {
    (
        crate::analyzers::heroes::rows3_view(r.best_single@),
        crate::analyzers::heroes::rows3_view(r.top3_carry_sup@),
        (
            r.best_fight_crew.0@,
            r.best_fight_crew.1@,
            r.best_fight_crew.2@,
            r.best_fight_crew.3,
        ),
        (r.best_nuking_squad.0@, r.best_nuking_squad.1@, r.best_nuking_squad.2),
    )
}

impl RolesRecords {
    /// Calculates the per-role best players over already-filtered rows.
    pub fn extract_best_single(roles_wr: &RolesWr) -> (r: Vec<(RoleName, PlayerName, WinRatio)>)
        ensures
            crate::analyzers::heroes::rows3_view(r@) == best_single_spec(entries_view(roles_wr@)),
    {
        let ghost rv = entries_view(roles_wr@);
        let mut groups: Vec<(String, Vec<(String, WinRatio)>)> = Vec::new();
        let n = roles_wr.len();
        let mut i: usize = 0;
        proof {
            assert(rv.take(0) =~= Seq::<(Seq<RolePairView>, WinRatio)>::empty());
            assert(crate::analyzers::heroes::groups_view(groups@) =~= bs_groups(rv.take(0)));
        }
        while i < n
            invariant
                i <= n,
                n == roles_wr@.len(),
                rv == entries_view(roles_wr@),
                crate::analyzers::heroes::groups_view(groups@) == bs_groups(rv.take(i as int)),
            decreases n - i,
        {
            proof {
                assert(rv.take(i + 1).drop_last() =~= rv.take(i as int));
                assert(rv.take(i + 1).last() == rv[i as int]);
                assert(rv[i as int] == (roles_wr@[i as int].0.deep_view(), roles_wr@[i as int].1));
            }
            if roles_wr[i].0.len() == 1 {
                let role = roles_wr[i].0[0].1.clone();
                let player = roles_wr[i].0[0].0.clone();
                proof {
                    assert(rv[i as int].0[0] == roles_wr@[i as int].0@[0].deep_view());
                }
                crate::analyzers::heroes::group_push(&mut groups, role, (player, roles_wr[i].1));
            }
            i = i + 1;
        }
        proof {
            assert(rv.take(n as int) =~= rv);
        }
        let ghost gv = crate::analyzers::heroes::groups_view(groups@);
        let mut out: Vec<(RoleName, PlayerName, WinRatio)> = Vec::new();
        let gn = groups.len();
        let mut g: usize = 0;
        while g < gn
            invariant
                g <= gn,
                gn == groups@.len(),
                gv == crate::analyzers::heroes::groups_view(groups@),
                out@.len() == g,
                forall|k: int|
                    0 <= k < g ==> crate::analyzers::heroes::rows3_view(out@)[k]
                        == best_single_spec(rv)[k],
                gv == bs_groups(rv),
            decreases gn - g,
        {
            let group = &groups[g];
            let mut best: Option<(PlayerName, WinRatio)> = None;
            let m = group.1.len();
            let mut j: usize = 0;
            proof {
                assert(crate::analyzers::heroes::rows_view(group.1@).skip(0)
                    =~= crate::analyzers::heroes::rows_view(group.1@));
            }
            while j < m
                invariant
                    j <= m,
                    m == group.1@.len(),
                    best_scan(crate::analyzers::heroes::rows_view(group.1@), None) == best_scan(
                        crate::analyzers::heroes::rows_view(group.1@).skip(j as int),
                        crate::analyzers::heroes::opt_row_view(best),
                    ),
                decreases m - j,
            {
                let ghost grv = crate::analyzers::heroes::rows_view(group.1@);
                proof {
                    assert(grv.skip(j as int)[0] == grv[j as int]);
                    assert(grv[j as int] == (group.1@[j as int].0@, group.1@[j as int].1));
                    assert(grv.skip(j as int).skip(1) =~= grv.skip(j + 1));
                }
                let ghost acc_old = crate::analyzers::heroes::opt_row_view(best);
                let x = group.1[j].1;
                let replace = match &best {
                    None => true,
                    Some(c) => !(matches!(x.cmp_to(&c.1), core::cmp::Ordering::Less)),
                };
                if replace {
                    best = Some((group.1[j].0.clone(), x));
                }
                proof {
                    assert(crate::analyzers::heroes::opt_row_view(best) == best_step(
                        acc_old,
                        grv[j as int],
                    ));
                    assert(best_scan(grv.skip(j as int), acc_old) == best_scan(
                        grv.skip(j + 1),
                        best_step(acc_old, grv[j as int]),
                    ));
                }
                j = j + 1;
            }
            proof {
                assert(crate::analyzers::heroes::rows_view(group.1@).skip(m as int).len() == 0);
            }
            let ghost ob = out@;
            let row = match best {
                Some(p) => (group.0.clone(), p.0, p.1),
                None => (String::new(), String::new(), WinRatio { wins: 0, looses: 0 }),
            };
            out.push(row);
            proof {
                assert forall|k: int|
                    0 <= k < g + 1 implies #[trigger] crate::analyzers::heroes::rows3_view(out@)[k]
                    == best_single_spec(rv)[k] by {
                    assert(crate::analyzers::heroes::rows3_view(out@)[k] == (
                        out@[k].0@,
                        out@[k].1@,
                        out@[k].2,
                    ));
                    assert(gv[k] == (groups@[k].0@, crate::analyzers::heroes::rows_view(
                        groups@[k].1@,
                    )));
                    if k < g {
                        assert(out@[k] == ob[k]);
                        assert(crate::analyzers::heroes::rows3_view(ob)[k] == (
                            ob[k].0@,
                            ob[k].1@,
                            ob[k].2,
                        ));
                        assert(crate::analyzers::heroes::rows3_view(ob)[k] == best_single_spec(
                            rv,
                        )[k]);
                    }
                }
            }
            g = g + 1;
        }
        proof {
            assert(crate::analyzers::heroes::rows3_view(out@) =~= best_single_spec(rv));
        }
        out
    }

    /// Calculates the ranked carry/support duos over already-filtered rows.
    pub fn extract_top3_carry_sup(roles_wr: &RolesWr) -> (r: Vec<
        (PlayerName, PlayerName, WinRatio),
    >)
        ensures
            crate::analyzers::heroes::rows3_view(r@) == top3_carry_sup_spec(
                entries_view(roles_wr@),
            ),
            r@.len() == 3,
    {
        let ghost rv = entries_view(roles_wr@);
        let mut cs: Vec<(PlayerName, PlayerName, WinRatio)> = Vec::new();
        let n = roles_wr.len();
        let mut i: usize = 0;
        proof {
            assert(rv.take(0) =~= Seq::<(Seq<RolePairView>, WinRatio)>::empty());
            assert(crate::analyzers::heroes::rows3_view(cs@) =~= carry_sup_rows(rv.take(0)));
        }
        while i < n
            invariant
                i <= n,
                n == roles_wr@.len(),
                rv == entries_view(roles_wr@),
                crate::analyzers::heroes::rows3_view(cs@) == carry_sup_rows(rv.take(i as int)),
            decreases n - i,
        {
            proof {
                assert(rv.take(i + 1).drop_last() =~= rv.take(i as int));
                assert(rv.take(i + 1).last() == rv[i as int]);
                assert(rv[i as int] == (roles_wr@[i as int].0.deep_view(), roles_wr@[i as int].1));
            }
            let ghost cb = cs@;
            if roles_wr[i].0.len() == 2 {
                proof {
                    assert(rv[i as int].0[0] == roles_wr@[i as int].0@[0].deep_view());
                    assert(rv[i as int].0[1] == roles_wr@[i as int].0@[1].deep_view());
                }
                let r0 = &roles_wr[i].0[0].1;
                let r1 = &roles_wr[i].0[1].1;
                let le01 = crate::strutil::str_le(r0.as_str(), r1.as_str());
                let is_pair = if le01 {
                    crate::strutil::str_eq(r0.as_str(), "Carry") && crate::strutil::str_eq(
                        r1.as_str(),
                        "Support",
                    )
                } else {
                    crate::strutil::str_eq(r1.as_str(), "Carry") && crate::strutil::str_eq(
                        r0.as_str(),
                        "Support",
                    )
                };
                if is_pair {
                    cs.push(
                        (
                            roles_wr[i].0[0].0.clone(),
                            roles_wr[i].0[1].0.clone(),
                            roles_wr[i].1,
                        ),
                    );
                    proof {
                        assert(sort2v(rv[i as int].0[0].1, rv[i as int].0[1].1) == (
                            "Carry"@,
                            "Support"@,
                        ));
                        assert forall|k: int|
                            0 <= k < cs@.len() implies #[trigger] crate::analyzers::heroes::rows3_view(
                            cs@,
                        )[k] == carry_sup_rows(rv.take(i + 1))[k] by {
                            assert(crate::analyzers::heroes::rows3_view(cs@)[k] == (
                                cs@[k].0@,
                                cs@[k].1@,
                                cs@[k].2,
                            ));
                            if k < cb.len() {
                                assert(cs@[k] == cb[k]);
                                assert(crate::analyzers::heroes::rows3_view(cb)[k] == (
                                    cb[k].0@,
                                    cb[k].1@,
                                    cb[k].2,
                                ));
                                assert(crate::analyzers::heroes::rows3_view(cb)[k]
                                    == carry_sup_rows(rv.take(i as int))[k]);
                            }
                        }
                        assert(crate::analyzers::heroes::rows3_view(cs@) =~= carry_sup_rows(
                            rv.take(i + 1),
                        ));
                    }
                } else {
                    proof {
                        assert(sort2v(rv[i as int].0[0].1, rv[i as int].0[1].1) != (
                            "Carry"@,
                            "Support"@,
                        ));
                        assert(crate::analyzers::heroes::rows3_view(cs@) =~= carry_sup_rows(
                            rv.take(i + 1),
                        ));
                    }
                }
            } else {
                proof {
                    assert(crate::analyzers::heroes::rows3_view(cs@) =~= carry_sup_rows(
                        rv.take(i + 1),
                    ));
                }
            }
            i = i + 1;
        }
        proof {
            assert(rv.take(n as int) =~= rv);
        }
        let ghost csv = cs@;
        proof {
            assert forall|k: int| 0 <= k < csv.len() implies #[trigger] crate::orders::views_of(
                csv,
            )[k] == crate::analyzers::heroes::rows3_view(csv)[k] by {
                assert(crate::orders::views_of(csv)[k] == csv[k].deep_view());
                assert(crate::analyzers::heroes::rows3_view(csv)[k] == (
                    csv[k].0@,
                    csv[k].1@,
                    csv[k].2,
                ));
            }
            assert(crate::orders::views_of(csv) =~= crate::analyzers::heroes::rows3_view(csv));
        }
        let sorted = crate::orders::stable_sort(cs);
        let ghost sortedv = crate::orders::views_of(sorted@);
        let ghost sorted_raw = sorted@;
        let ranked = crate::orders::reverse_vec(sorted);
        let ghost rankedv = crate::orders::sort_spec::<(String, String, WinRatio)>(
            carry_sup_rows(rv),
        ).reverse();
        proof {
            assert(sortedv == crate::orders::sort_spec::<(String, String, WinRatio)>(
                carry_sup_rows(rv),
            ));
            assert(ranked@ == sorted_raw.reverse());
            assert forall|k: int| 0 <= k < ranked@.len() implies #[trigger] crate::analyzers::heroes::rows3_view(
                ranked@,
            )[k] == rankedv[k] by {
                let len = sorted_raw.len() as int;
                assert(crate::analyzers::heroes::rows3_view(ranked@)[k] == (
                    ranked@[k].0@,
                    ranked@[k].1@,
                    ranked@[k].2,
                ));
                assert(ranked@[k] == sorted_raw[len - 1 - k]);
                assert(sortedv[len - 1 - k] == sorted_raw[len - 1 - k].deep_view());
                assert(rankedv[k] == sortedv[len - 1 - k]);
            }
            assert(crate::analyzers::heroes::rows3_view(ranked@) =~= rankedv);
        }
        let mut out: Vec<(PlayerName, PlayerName, WinRatio)> = Vec::new();
        let mut k: usize = 0;
        while k < 3
            invariant
                k <= 3,
                crate::analyzers::heroes::rows3_view(ranked@) == rankedv,
                out@.len() == k,
                forall|q: int|
                    0 <= q < k ==> crate::analyzers::heroes::rows3_view(out@)[q] == slot3(
                        rankedv,
                        q,
                    ),
            decreases 3 - k,
        {
            let ghost ob = out@;
            if k < ranked.len() {
                out.push((ranked[k].0.clone(), ranked[k].1.clone(), ranked[k].2));
            } else {
                out.push((String::new(), String::new(), WinRatio { wins: 0, looses: 0 }));
            }
            proof {
                assert forall|q: int|
                    0 <= q < k + 1 implies #[trigger] crate::analyzers::heroes::rows3_view(
                    out@,
                )[q] == slot3(rankedv, q) by {
                    assert(crate::analyzers::heroes::rows3_view(out@)[q] == (
                        out@[q].0@,
                        out@[q].1@,
                        out@[q].2,
                    ));
                    if q < k {
                        assert(out@[q] == ob[q]);
                        assert(crate::analyzers::heroes::rows3_view(ob)[q] == (
                            ob[q].0@,
                            ob[q].1@,
                            ob[q].2,
                        ));
                        assert(crate::analyzers::heroes::rows3_view(ob)[q] == slot3(rankedv, q));
                    } else {
                        if q < rankedv.len() {
                            assert(crate::analyzers::heroes::rows3_view(ranked@)[q] == rankedv[q]);
                        }
                    }
                }
            }
            k = k + 1;
        }
        proof {
            assert(crate::analyzers::heroes::rows3_view(out@) =~= top3_carry_sup_spec(rv));
        }
        out
    }
}


impl RolesRecords {
    /// Calculates the best fight trio over already-filtered rows.
    pub fn extract_best_fight_crew(roles_wr: &RolesWr) -> (r: (
        PlayerName,
        PlayerName,
        PlayerName,
        WinRatio,
    ))
        ensures
            (r.0@, r.1@, r.2@, r.3) == best_fight_crew_spec(entries_view(roles_wr@)),
    {
        let ghost rv = entries_view(roles_wr@);
        let mut best: Option<(PlayerName, PlayerName, PlayerName, WinRatio)> = None;
        let n = roles_wr.len();
        let mut i: usize = 0;
        proof {
            assert(rv.skip(0) =~= rv);
        }
        while i < n
            invariant
                i <= n,
                n == roles_wr@.len(),
                rv == entries_view(roles_wr@),
                fight_scan(rv, None) == fight_scan(rv.skip(i as int), opt_row4_view(best)),
            decreases n - i,
        {
            proof {
                assert(rv.skip(i as int)[0] == rv[i as int]);
                assert(rv[i as int] == (roles_wr@[i as int].0.deep_view(), roles_wr@[i as int].1));
                assert(rv.skip(i as int).skip(1) =~= rv.skip(i + 1));
            }
            let ghost acc_old = opt_row4_view(best);
            let hit: bool = if roles_wr[i].0.len() == 3 {
                proof {
                    assert(rv[i as int].0[0] == roles_wr@[i as int].0@[0].deep_view());
                    assert(rv[i as int].0[1] == roles_wr@[i as int].0@[1].deep_view());
                    assert(rv[i as int].0[2] == roles_wr@[i as int].0@[2].deep_view());
                }
                let a = &roles_wr[i].0[0].1;
                let b = &roles_wr[i].0[1].1;
                let c = &roles_wr[i].0[2].1;
                let (x, y) = if crate::strutil::str_le(a.as_str(), b.as_str()) {
                    (a, b)
                } else {
                    (b, a)
                };
                let (y2, z) = if crate::strutil::str_le(y.as_str(), c.as_str()) {
                    (y, c)
                } else {
                    (c, y)
                };
                let (x2, y3) = if crate::strutil::str_le(x.as_str(), y2.as_str()) {
                    (x, y2)
                } else {
                    (y2, x)
                };
                proof {
                    assert((x2@, y3@, z@) == sort3v(a@, b@, c@));
                }
                let m1 = crate::strutil::str_eq(x2.as_str(), "Disabler") && crate::strutil::str_eq(
                    y3.as_str(),
                    "Initiator",
                ) && crate::strutil::str_eq(z.as_str(), "Nuker");
                let m2 = crate::strutil::str_eq(x2.as_str(), "Initiator") && crate::strutil::str_eq(
                    y3.as_str(),
                    "Nuker",
                ) && crate::strutil::str_eq(z.as_str(), "Support");
                let m3 = crate::strutil::str_eq(x2.as_str(), "Disabler") && crate::strutil::str_eq(
                    y3.as_str(),
                    "Initiator",
                ) && crate::strutil::str_eq(z.as_str(), "Support");
                let m4 = crate::strutil::str_eq(x2.as_str(), "Disabler") && crate::strutil::str_eq(
                    y3.as_str(),
                    "Durable",
                ) && crate::strutil::str_eq(z.as_str(), "Support");
                let m5 = crate::strutil::str_eq(x2.as_str(), "Durable") && crate::strutil::str_eq(
                    y3.as_str(),
                    "Initiator",
                ) && crate::strutil::str_eq(z.as_str(), "Support");
                m1 || m2 || m3 || m4 || m5
            } else {
                false
            };
            proof {
                assert(hit == is_fight(rv[i as int]));
            }
            if hit {
                let replace = match &best {
                    None => true,
                    Some(c) => !(matches!(
                        roles_wr[i].1.cmp_to(&c.3),
                        core::cmp::Ordering::Less
                    )),
                };
                if replace {
                    best = Some(
                        (
                            roles_wr[i].0[0].0.clone(),
                            roles_wr[i].0[1].0.clone(),
                            roles_wr[i].0[2].0.clone(),
                            roles_wr[i].1,
                        ),
                    );
                }
            }
            proof {
                assert(opt_row4_view(best) == fight_step(acc_old, rv[i as int]));
                assert(fight_scan(rv.skip(i as int), acc_old) == fight_scan(
                    rv.skip(i + 1),
                    fight_step(acc_old, rv[i as int]),
                ));
            }
            i = i + 1;
        }
        proof {
            assert(rv.skip(n as int).len() == 0);
        }
        match best {
            Some(c) => (c.0, c.1, c.2, c.3),
            None => (String::new(), String::new(), String::new(), WinRatio { wins: 0, looses: 0 }),
        }
    }

    /// Calculates the best double-Nuker duo over already-filtered rows.
    pub fn extract_best_nuking_squad(roles_wr: &RolesWr) -> (r: (
        PlayerName,
        PlayerName,
        WinRatio,
    ))
        ensures
            (r.0@, r.1@, r.2) == best_nuking_squad_spec(entries_view(roles_wr@)),
    {
        let ghost rv = entries_view(roles_wr@);
        let mut best: Option<(PlayerName, PlayerName, WinRatio)> = None;
        let n = roles_wr.len();
        let mut i: usize = 0;
        proof {
            assert(rv.skip(0) =~= rv);
        }
        while i < n
            invariant
                i <= n,
                n == roles_wr@.len(),
                rv == entries_view(roles_wr@),
                nuke_scan(rv, None) == nuke_scan(rv.skip(i as int), opt_row3n_view(best)),
            decreases n - i,
        {
            proof {
                assert(rv.skip(i as int)[0] == rv[i as int]);
                assert(rv[i as int] == (roles_wr@[i as int].0.deep_view(), roles_wr@[i as int].1));
                assert(rv.skip(i as int).skip(1) =~= rv.skip(i + 1));
            }
            let ghost acc_old = opt_row3n_view(best);
            let hit: bool = if roles_wr[i].0.len() == 2 {
                proof {
                    assert(rv[i as int].0[0] == roles_wr@[i as int].0@[0].deep_view());
                    assert(rv[i as int].0[1] == roles_wr@[i as int].0@[1].deep_view());
                }
                crate::strutil::str_eq(roles_wr[i].0[0].1.as_str(), "Nuker")
                    && crate::strutil::str_eq(roles_wr[i].0[1].1.as_str(), "Nuker")
            } else {
                false
            };
            proof {
                assert(hit == is_nuke(rv[i as int]));
            }
            if hit {
                let replace = match &best {
                    None => true,
                    Some(c) => !(matches!(
                        roles_wr[i].1.cmp_to(&c.2),
                        core::cmp::Ordering::Less
                    )),
                };
                if replace {
                    best = Some(
                        (
                            roles_wr[i].0[0].0.clone(),
                            roles_wr[i].0[1].0.clone(),
                            roles_wr[i].1,
                        ),
                    );
                }
            }
            proof {
                assert(opt_row3n_view(best) == nuke_step(acc_old, rv[i as int]));
                assert(nuke_scan(rv.skip(i as int), acc_old) == nuke_scan(
                    rv.skip(i + 1),
                    nuke_step(acc_old, rv[i as int]),
                ));
            }
            i = i + 1;
        }
        proof {
            assert(rv.skip(n as int).len() == 0);
        }
        match best {
            Some(c) => (c.0, c.1, c.2),
            None => (String::new(), String::new(), WinRatio { wins: 0, looses: 0 }),
        }
    }

    /// Constructs the records from the score map: rows with more than
    /// `min_games` games feed the four extractors.
    pub fn extract_records(roles_wr: &RolesWr, min_games: u32) -> (r: RolesRecords)
        ensures
            records_view(r) == (
                best_single_spec(keep_rows(entries_view(roles_wr@), min_games)),
                top3_carry_sup_spec(keep_rows(entries_view(roles_wr@), min_games)),
                best_fight_crew_spec(keep_rows(entries_view(roles_wr@), min_games)),
                best_nuking_squad_spec(keep_rows(entries_view(roles_wr@), min_games)),
            ),
    {
        let ghost ev = entries_view(roles_wr@);
        let mut kept: RolesWr = Vec::new();
        let n = roles_wr.len();
        let mut i: usize = 0;
        proof {
            assert(ev.take(0) =~= Seq::<(Seq<RolePairView>, WinRatio)>::empty());
            assert(entries_view(kept@) =~= keep_rows(ev.take(0), min_games));
        }
        while i < n
            invariant
                i <= n,
                n == roles_wr@.len(),
                ev == entries_view(roles_wr@),
                entries_view(kept@) == keep_rows(ev.take(i as int), min_games),
            decreases n - i,
        {
            proof {
                assert(ev.take(i + 1).drop_last() =~= ev.take(i as int));
                assert(ev.take(i + 1).last() == ev[i as int]);
                assert(ev[i as int] == (roles_wr@[i as int].0.deep_view(), roles_wr@[i as int].1));
            }
            let wr = roles_wr[i].1;
            let t = (wr.wins as u64) + (wr.looses as u64);
            let ghost kb = kept@;
            if t > min_games as u64 {
                let key = clone_pairs(&roles_wr[i].0);
                kept.push((key, wr));
                proof {
                    assert(views_of(kept@[kept@.len() - 1].0@) == ev[i as int].0);
                    assert forall|k: int|
                        0 <= k < kept@.len() implies #[trigger] entries_view(kept@)[k]
                        == keep_rows(ev.take(i + 1), min_games)[k] by {
                        assert(entries_view(kept@)[k] == (kept@[k].0.deep_view(), kept@[k].1));
                        if k < kb.len() {
                            assert(kept@[k] == kb[k]);
                            assert(entries_view(kb)[k] == (kb[k].0.deep_view(), kb[k].1));
                            assert(entries_view(kb)[k] == keep_rows(ev.take(i as int), min_games)[k]);
                        }
                    }
                    assert(entries_view(kept@) =~= keep_rows(ev.take(i + 1), min_games));
                }
            } else {
                proof {
                    assert(entries_view(kept@) =~= keep_rows(ev.take(i + 1), min_games));
                }
            }
            i = i + 1;
        }
        proof {
            assert(ev.take(n as int) =~= ev);
        }
        let best_single = RolesRecords::extract_best_single(&kept);
        let top3_carry_sup = RolesRecords::extract_top3_carry_sup(&kept);
        let best_fight_crew = RolesRecords::extract_best_fight_crew(&kept);
        let best_nuking_squad = RolesRecords::extract_best_nuking_squad(&kept);
        RolesRecords { best_single, top3_carry_sup, best_fight_crew, best_nuking_squad }
    }
}

pub open spec fn opt_row4_view(o: Option<(String, String, String, WinRatio)>) -> Option<
    (Seq<char>, Seq<char>, Seq<char>, WinRatio),
> {
    match o {
        Some(p) => Some((p.0@, p.1@, p.2@, p.3)),
        None => None,
    }
}

pub open spec fn opt_row3n_view(o: Option<(String, String, WinRatio)>) -> Option<
    (Seq<char>, Seq<char>, WinRatio),
> {
    match o {
        Some(p) => Some((p.0@, p.1@, p.2)),
        None => None,
    }
}

/// Constructs the player-role records from the score map.
pub fn get_roles_records(roles_wr: &RolesWr, min_games: u32) -> (r: RolesRecords)
    ensures
        records_view(r) == (
            best_single_spec(keep_rows(entries_view(roles_wr@), min_games)),
            top3_carry_sup_spec(keep_rows(entries_view(roles_wr@), min_games)),
            best_fight_crew_spec(keep_rows(entries_view(roles_wr@), min_games)),
            best_nuking_squad_spec(keep_rows(entries_view(roles_wr@), min_games)),
        ),
{
    RolesRecords::extract_records(roles_wr, min_games)
}


/// The number of role subsets one setup generates, the empty one included:
/// each player multiplies the count by one more than their hero's role
/// count.
pub open spec fn subset_count(setup: Seq<SetupEntryView>) -> int
    decreases setup.len(),
{
    if setup.len() == 0 {
        1
    } else {
        subset_count(setup.drop_last()) * (1 + setup.last().1.1.len())
    }
}

proof fn lemma_cross_one_len(prev: Seq<Seq<RolePairView>>, player: Seq<char>, roles: Seq<Seq<char>>)
    ensures
        cross_one(prev, player, roles).len() == prev.len() * roles.len(),
    decreases prev.len(),
{
    if prev.len() == 0 {
        assert(0 * roles.len() == 0) by (nonlinear_arith);
    } else {
        lemma_cross_one_len(prev.drop_last(), player, roles);
        assert((prev.len() - 1) * roles.len() + roles.len() == prev.len() * roles.len())
            by (nonlinear_arith);
    }
}

/// Law: the cartesian enumeration produces exactly the product of each
/// player's role choices plus one, counting the empty subset.
pub proof fn lemma_role_subsets_count(setup: Seq<SetupEntryView>)
    ensures
        role_subsets_spec(setup).len() == subset_count(setup),
    decreases setup.len(),
{
    if setup.len() > 0 {
        lemma_role_subsets_count(setup.drop_last());
        lemma_cross_one_len(
            role_subsets_spec(setup.drop_last()),
            setup.last().0,
            setup.last().1.1,
        );
        let p = subset_count(setup.drop_last());
        assert(p + p * setup.last().1.1.len() == p * (1 + setup.last().1.1.len()))
            by (nonlinear_arith);
    }
}

/// Law: two runs over the same corpus and catalog return the same map.
pub proof fn lemma_roles_wr_deterministic(
    r1: Seq<(Seq<RolePairView>, WinRatio)>,
    r2: Seq<(Seq<RolePairView>, WinRatio)>,
    cat: Seq<(u64, Hero)>,
    data: Seq<Match>,
)
    requires
        r1 == roles_wr_spec(cat, data),
        r2 == roles_wr_spec(cat, data),
    ensures
        r1 == r2,
{
}


/// The winning contributions the corpus makes to a role-subset key.
pub open spec fn roles_win_count(cat: Seq<(u64, Hero)>, data: Seq<Match>, k: Seq<RolePairView>) -> int
    decreases data.len(),
{
    if data.len() == 0 {
        0
    } else {
        roles_win_count(cat, data.drop_last(), k) + (match (
            match_setup_spec(cat, data.last()),
            data.last().is_won_spec(),
        ) {
            (Some(sv), Ok(won)) => if won {
                key_count(role_subsets_spec(sv), k)
            } else {
                0int
            },
            _ => 0int,
        })
    }
}

/// The losing contributions, counted the same way.
pub open spec fn roles_loss_count(cat: Seq<(u64, Hero)>, data: Seq<Match>, k: Seq<RolePairView>) -> int
    decreases data.len(),
{
    if data.len() == 0 {
        0
    } else {
        roles_loss_count(cat, data.drop_last(), k) + (match (
            match_setup_spec(cat, data.last()),
            data.last().is_won_spec(),
        ) {
            (Some(sv), Ok(won)) => if won {
                0int
            } else {
                key_count(role_subsets_spec(sv), k)
            },
            _ => 0int,
        })
    }
}

proof fn lemma_roles_counts_nonneg(cat: Seq<(u64, Hero)>, data: Seq<Match>, k: Seq<RolePairView>)
    ensures
        roles_win_count(cat, data, k) >= 0,
        roles_loss_count(cat, data, k) >= 0,
    decreases data.len(),
{
    if data.len() > 0 {
        lemma_roles_counts_nonneg(cat, data.drop_last(), k);
        match (match_setup_spec(cat, data.last()), data.last().is_won_spec()) {
            (Some(sv), Ok(_)) => {
                lemma_key_count_nonneg(role_subsets_spec(sv), k);
            },
            _ => {},
        }
    }
}

/// Law: while the counters have room, each non-empty role subset's record
/// holds exactly the number of won and lost matches in which that subset
/// was generated.
pub proof fn lemma_roles_counting(cat: Seq<(u64, Hero)>, data: Seq<Match>, k: Seq<RolePairView>)
    requires
        k.len() > 0,
        roles_win_count(cat, data, k) + roles_loss_count(cat, data, k) <= u32::MAX,
    ensures
        roles_win_count(cat, data, k) + roles_loss_count(cat, data, k) > 0 ==> map_get_spec(
            roles_wr_spec(cat, data),
            k,
        ) == Some(
            WinRatio {
                wins: roles_win_count(cat, data, k) as u32,
                looses: roles_loss_count(cat, data, k) as u32,
            },
        ),
        roles_win_count(cat, data, k) + roles_loss_count(cat, data, k) == 0 ==> map_get_spec(
            roles_wr_spec(cat, data),
            k,
        ) is None,
    decreases data.len(),
{
    lemma_roles_counts_nonneg(cat, data, k);
    if data.len() > 0 {
        let d = data.drop_last();
        let m = data.last();
        lemma_roles_counts_nonneg(cat, d, k);
        match (match_setup_spec(cat, m), m.is_won_spec()) {
            (Some(sv), Ok(won)) => {
                lemma_key_count_nonneg(role_subsets_spec(sv), k);
                lemma_roles_counting(cat, d, k);
                let prev = roles_wr_spec(cat, d);
                lemma_get_fold_skip(prev, role_subsets_spec(sv), won, k);
                lemma_bump_n_exact(map_get_spec(prev, k), key_count(role_subsets_spec(sv), k), won);
            },
            _ => {
                lemma_roles_counting(cat, d, k);
            },
        }
    }
}


/// Law: the carry/support ranking is ordered: no later duo's record
/// compares above an earlier one's.
pub proof fn lemma_top3_carry_sup_sorted(
    rows: Seq<(Seq<RolePairView>, WinRatio)>,
    i: int,
    j: int,
)
    requires
        0 <= i <= j < 3,
        j < crate::orders::sort_spec::<(String, String, WinRatio)>(carry_sup_rows(rows)).len(),
    ensures
        top3_carry_sup_spec(rows)[i].2.cmp_spec(top3_carry_sup_spec(rows)[j].2)
            != core::cmp::Ordering::Less,
{
    let cs = carry_sup_rows(rows);
    assert forall|a: (Seq<char>, Seq<char>, WinRatio), b: (Seq<char>, Seq<char>, WinRatio)|
        #[trigger] <(String, String, WinRatio) as crate::orders::SortOrd>::le_key(a, b) || <(
        String,
        String,
        WinRatio,
    ) as crate::orders::SortOrd>::le_key(b, a) by {
        lemma_winratio_order_total(a.2, b.2);
        lemma_winratio_order_total(b.2, a.2);
    }
    assert forall|
        a: (Seq<char>, Seq<char>, WinRatio),
        b: (Seq<char>, Seq<char>, WinRatio),
        c: (Seq<char>, Seq<char>, WinRatio),
    |
        #![trigger <(String, String, WinRatio) as crate::orders::SortOrd>::le_key(a, b), <(String, String, WinRatio) as crate::orders::SortOrd>::le_key(b, c)]
        <(String, String, WinRatio) as crate::orders::SortOrd>::le_key(a, b) && <(
            String,
            String,
            WinRatio,
        ) as crate::orders::SortOrd>::le_key(b, c) implies <(
        String,
        String,
        WinRatio,
    ) as crate::orders::SortOrd>::le_key(a, c) by {
        lemma_winratio_order_trans(a.2, b.2, c.2);
    }
    crate::orders::lemma_sort_spec_sorted::<(String, String, WinRatio)>(cs);
    let sorted = crate::orders::sort_spec::<(String, String, WinRatio)>(cs);
    let ranked = sorted.reverse();
    let n = sorted.len() as int;
    assert(top3_carry_sup_spec(rows)[i] == slot3(ranked, i));
    assert(top3_carry_sup_spec(rows)[j] == slot3(ranked, j));
    assert(slot3(ranked, i) == ranked[i]);
    assert(slot3(ranked, j) == ranked[j]);
    assert(ranked[i] == sorted[n - 1 - i]);
    assert(ranked[j] == sorted[n - 1 - j]);
    assert(<(String, String, WinRatio) as crate::orders::SortOrd>::le_key(
        sorted[n - 1 - j],
        sorted[n - 1 - i],
    ));
    lemma_winratio_order_flip(ranked[i].2, ranked[j].2);
    lemma_winratio_order_flip(ranked[j].2, ranked[i].2);
}

} // verus!
