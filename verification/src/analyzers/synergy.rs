//! Lane-partner synergy: how a duo's record in one lane compares with its
//! members' own records in that lane.

use crate::accmap::{
    entries_view, fold_scores, get_spec, key_count, lemma_bump_n_exact, lemma_fold_scores_snoc,
    lemma_get_fold_scores, lemma_get_upsert, lemma_key_count_nonneg, upsert_score, upsert_spec,
};
use crate::analyzers::winratio::{
    lemma_winratio_order_flip, lemma_winratio_order_ties, lemma_winratio_order_total,
    lemma_winratio_order_trans, WinRatio,
};
use crate::match_stats::Match;
use crate::orders::{sort_spec, stable_sort, views_of, SortOrd};
use crate::strutil::{dec_str_spec, join_space, join_space_spec, str_le, u64_to_dec};
use core::cmp::Ordering;
use vstd::prelude::*;

verus! {

broadcast use crate::orders::lemma_deep_view_views;

/// The display name of a zero-based lane index.
pub open spec fn lane_name_spec(l: int) -> Seq<char> {
    if l == 0 {
        "Safe-lane"@
    } else if l == 1 {
        "Mid-lane"@
    } else if l == 2 {
        "Hard-lane"@
    } else {
        "(Unknown lane: "@ + dec_str_spec(l) + ")"@
    }
}

/// Writes the display name of a zero-based lane index.
pub fn lane_name(lane: u64) -> (r: String)
    ensures
        r@ == lane_name_spec(lane as int),
{
    if lane == 0 {
        let s = String::from_str("Safe-lane");
        proof {
            assert(s@ == "Safe-lane"@);
        }
        s
    } else if lane == 1 {
        String::from_str("Mid-lane")
    } else if lane == 2 {
        String::from_str("Hard-lane")
    } else {
        let mut s = String::from_str("(Unknown lane: ");
        let d = u64_to_dec(lane);
        s.append(d.as_str());
        s.append(")");
        s
    }
}

/// The duo's record in one lane beside each member's own record there.
#[derive(Debug, Clone, Copy)]
pub struct LaneSynergy {
    pub duo: WinRatio,
    pub solo1: WinRatio,
    pub solo2: WinRatio,
    /// The duo's win percentage over the average of the two solo
    /// percentages, in thousandths; nothing when that average is zero.
    pub synergy: Option<u64>,
}

impl View for LaneSynergy {
    type V = LaneSynergy;

    open spec fn view(&self) -> LaneSynergy {
        *self
    }
}

impl DeepView for LaneSynergy {
    type V = LaneSynergy;

    open spec fn deep_view(&self) -> LaneSynergy {
        *self
    }
}

/// The synergy of a duo record against two solo records, as an exact
/// fraction.
pub open spec fn syn_frac(duo: WinRatio, s1: WinRatio, s2: WinRatio) -> (int, int) {
    let d = duo.percent_spec();
    let p1 = s1.percent_spec();
    let p2 = s2.percent_spec();
    (2 * d.0 * p1.1 * p2.1, d.1 * (p1.0 * p2.1 + p2.0 * p1.1))
}

/// Ranks two rows: an undefined synergy sorts above everything, then the
/// exact synergy fractions, then the three records decide.
pub open spec fn lane_cmp(a: LaneSynergy, b: LaneSynergy) -> Ordering {
    let fa = syn_frac(a.duo, a.solo1, a.solo2);
    let fb = syn_frac(b.duo, b.solo1, b.solo2);
    if fa.1 == 0 && fb.1 != 0 {
        Ordering::Greater
    } else if fa.1 != 0 && fb.1 == 0 {
        Ordering::Less
    } else if fa.1 != 0 && fb.1 != 0 && fa.0 * fb.1 < fb.0 * fa.1 {
        Ordering::Less
    } else if fa.1 != 0 && fb.1 != 0 && fa.0 * fb.1 > fb.0 * fa.1 {
        Ordering::Greater
    } else if a.duo.cmp_spec(b.duo) != Ordering::Equal {
        a.duo.cmp_spec(b.duo)
    } else if a.solo1.cmp_spec(b.solo1) != Ordering::Equal {
        a.solo1.cmp_spec(b.solo1)
    } else {
        a.solo2.cmp_spec(b.solo2)
    }
}

/// Rows sort descending: a row stays in front when it does not rank below
/// the next.
impl SortOrd for (String, LaneSynergy) {
    open spec fn le_key(a: (Seq<char>, LaneSynergy), b: (Seq<char>, LaneSynergy)) -> bool {
        lane_cmp(a.1, b.1) != Ordering::Less
    }

    fn le(&self, other: &(String, LaneSynergy)) -> (r: bool) {
        let c = lane_cmp_exec(&self.1, &other.1);
        !(matches!(c, Ordering::Less))
    }
}

proof fn lemma_syn_frac_bounds(duo: WinRatio, s1: WinRatio, s2: WinRatio)
    ensures
        0 <= syn_frac(duo, s1, s2).0 <= 0x10_0000_0000_0000_0000_0000_0000,
        0 <= syn_frac(duo, s1, s2).1 <= 0x10_0000_0000_0000_0000_0000_0000,
{
    let d = duo.percent_spec();
    let p1 = s1.percent_spec();
    let p2 = s2.percent_spec();
    assert(0 <= d.0 <= 0x1_0000_0000 && 1 <= d.1 <= 0x2_0000_0000) by {
        assert(duo.total_spec() <= 0x2_0000_0000);
    }
    assert(0 <= p1.0 <= 0x1_0000_0000 && 1 <= p1.1 <= 0x2_0000_0000) by {
        assert(s1.total_spec() <= 0x2_0000_0000);
    }
    assert(0 <= p2.0 <= 0x1_0000_0000 && 1 <= p2.1 <= 0x2_0000_0000) by {
        assert(s2.total_spec() <= 0x2_0000_0000);
    }
    assert(0 <= 2 * d.0 * p1.1 * p2.1 <= 0x10_0000_0000_0000_0000_0000_0000) by (nonlinear_arith)
        requires
            0 <= d.0 <= 0x1_0000_0000,
            1 <= p1.1 <= 0x2_0000_0000,
            1 <= p2.1 <= 0x2_0000_0000,
    ;
    assert(0 <= d.1 * (p1.0 * p2.1 + p2.0 * p1.1) <= 0x10_0000_0000_0000_0000_0000_0000)
        by (nonlinear_arith)
        requires
            1 <= d.1 <= 0x2_0000_0000,
            0 <= p1.0 <= 0x1_0000_0000,
            1 <= p1.1 <= 0x2_0000_0000,
            0 <= p2.0 <= 0x1_0000_0000,
            1 <= p2.1 <= 0x2_0000_0000,
    ;
}

/// Computes the exact synergy fraction of a row.
fn syn_frac_exec(duo: &WinRatio, s1: &WinRatio, s2: &WinRatio) -> (r: (u128, u128))
    ensures
        (r.0 as int, r.1 as int) == syn_frac(*duo, *s1, *s2),
{
    proof {
        lemma_syn_frac_bounds(*duo, *s1, *s2);
    }
    let d = duo.percent();
    let p1 = s1.percent();
    let p2 = s2.percent();
    proof {
        assert((2 * (d.0 as int)) * (p1.1 as int) * (p2.1 as int) == 2 * (d.0 as int) * (
        p1.1 as int) * (p2.1 as int)) by (nonlinear_arith);
        assert(0 <= 2 * (d.0 as int) * (p1.1 as int) <= 0x8_0000_0000_0000_0000) by (nonlinear_arith)
            requires
                0 <= d.0 <= 0x1_0000_0000,
                1 <= p1.1 <= 0x2_0000_0000,
        ;
        assert(0 <= 2 * (d.0 as int) * (p1.1 as int) * (p2.1 as int)
            <= 0x10_0000_0000_0000_0000_0000_0000) by (nonlinear_arith)
            requires
                0 <= 2 * (d.0 as int) * (p1.1 as int) <= 0x8_0000_0000_0000_0000,
                1 <= p2.1 <= 0x2_0000_0000,
        ;
        assert(0 <= (p1.0 as int) * (p2.1 as int) <= 0x2_0000_0000_0000_0000) by (nonlinear_arith)
            requires
                0 <= p1.0 <= 0x1_0000_0000,
                1 <= p2.1 <= 0x2_0000_0000,
        ;
        assert(0 <= (p2.0 as int) * (p1.1 as int) <= 0x2_0000_0000_0000_0000) by (nonlinear_arith)
            requires
                0 <= p2.0 <= 0x1_0000_0000,
                1 <= p1.1 <= 0x2_0000_0000,
        ;
        assert(0 <= (d.1 as int) * ((p1.0 as int) * (p2.1 as int) + (p2.0 as int) * (p1.1 as int))
            <= 0x10_0000_0000_0000_0000_0000_0000) by (nonlinear_arith)
            requires
                1 <= d.1 <= 0x2_0000_0000,
                0 <= (p1.0 as int) * (p2.1 as int) <= 0x2_0000_0000_0000_0000,
                0 <= (p2.0 as int) * (p1.1 as int) <= 0x2_0000_0000_0000_0000,
        ;
    }
    let num = 2 * (d.0 as u128) * (p1.1 as u128) * (p2.1 as u128);
    let den = (d.1 as u128) * ((p1.0 as u128) * (p2.1 as u128) + (p2.0 as u128) * (p1.1 as u128));
    (num, den)
}

/// Three-way ranking of two rows.
fn lane_cmp_exec(a: &LaneSynergy, b: &LaneSynergy) -> (r: Ordering)
    ensures
        r == lane_cmp(*a, *b),
{
    let fa = syn_frac_exec(&a.duo, &a.solo1, &a.solo2);
    let fb = syn_frac_exec(&b.duo, &b.solo1, &b.solo2);
    if fa.1 == 0 && fb.1 != 0 {
        return Ordering::Greater;
    }
    if fa.1 != 0 && fb.1 == 0 {
        return Ordering::Less;
    }
    if fa.1 != 0 && fb.1 != 0 {
        let ge = crate::fracs::frac_ge_of(fa.0, fa.1, fb.0, fb.1);
        let le = crate::fracs::frac_le(fa.0, fa.1, fb.0, fb.1);
        if !ge {
            return Ordering::Less;
        }
        if !le {
            return Ordering::Greater;
        }
    }
    let c1 = a.duo.cmp_to(&b.duo);
    if !(matches!(c1, Ordering::Equal)) {
        return c1;
    }
    let c2 = a.solo1.cmp_to(&b.solo1);
    if !(matches!(c2, Ordering::Equal)) {
        return c2;
    }
    a.solo2.cmp_to(&b.solo2)
}


/// Every lane value names one of the five lanes.
pub open spec fn lanes_ok(lv: Seq<(Seq<char>, u64)>) -> bool {
    forall|k: int| 0 <= k < lv.len() ==> 1 <= (#[trigger] lv[k]).1 <= 5
}

/// The per-member solo keys of one match: each name with its zero-based
/// lane.
pub open spec fn solo_keys(lv: Seq<(Seq<char>, u64)>) -> Seq<(Seq<char>, u64)> {
    lv.map_values(|e: (Seq<char>, u64)| (e.0, (e.1 - 1) as u64))
}

/// The names grouped into one zero-based lane, in roster order.
pub open spec fn lane_members(lv: Seq<(Seq<char>, u64)>, lane: u64) -> Seq<Seq<char>>
    decreases lv.len(),
{
    if lv.len() == 0 {
        Seq::empty()
    } else {
        let prev = lane_members(lv.drop_last(), lane);
        let e = lv.last();
        if e.1 >= 1 && e.1 - 1 == lane {
            prev.push(e.0)
        } else {
            prev
        }
    }
}

/// Records the duo outcome for one lane when it holds exactly two names,
/// the pair sorted.
pub open spec fn duo_put(
    m: Seq<(((Seq<char>, Seq<char>), u64), WinRatio)>,
    lv: Seq<(Seq<char>, u64)>,
    lane: u64,
    won: bool,
) -> Seq<(((Seq<char>, Seq<char>), u64), WinRatio)> {
    let ms = lane_members(lv, lane);
    if ms.len() == 2 {
        upsert_spec(m, (crate::analyzers::roles::sort2v(ms[0], ms[1]), lane), won)
    } else {
        m
    }
}

/// The solo map after one more match.
pub open spec fn solo_step(
    m: Seq<((Seq<char>, u64), WinRatio)>,
    mt: Match,
) -> Seq<((Seq<char>, u64), WinRatio)> {
    match (mt.laning_spec(), mt.is_won_spec()) {
        (Some(lv), Ok(won)) => if lanes_ok(lv) {
            fold_scores(m, solo_keys(lv), won)
        } else {
            m
        },
        _ => m,
    }
}

/// The duo map after one more match.
pub open spec fn duo_step(
    m: Seq<(((Seq<char>, Seq<char>), u64), WinRatio)>,
    mt: Match,
) -> Seq<(((Seq<char>, Seq<char>), u64), WinRatio)> {
    match (mt.laning_spec(), mt.is_won_spec()) {
        (Some(lv), Ok(won)) => if lanes_ok(lv) {
            duo_put(duo_put(duo_put(duo_put(duo_put(m, lv, 0, won), lv, 1, won), lv, 2, won), lv, 3, won), lv, 4, won)
        } else {
            m
        },
        _ => m,
    }
}

pub open spec fn solo_fold(data: Seq<Match>) -> Seq<((Seq<char>, u64), WinRatio)>
    decreases data.len(),
{
    if data.len() == 0 {
        Seq::empty()
    } else {
        solo_step(solo_fold(data.drop_last()), data.last())
    }
}

pub open spec fn duo_fold(data: Seq<Match>) -> Seq<(((Seq<char>, Seq<char>), u64), WinRatio)>
    decreases data.len(),
{
    if data.len() == 0 {
        Seq::empty()
    } else {
        duo_step(duo_fold(data.drop_last()), data.last())
    }
}

/// One output row per duo whose members both have a solo record in that
/// lane, labeled and in map order.
pub open spec fn lane_rows(
    duos: Seq<(((Seq<char>, Seq<char>), u64), WinRatio)>,
    solos: Seq<((Seq<char>, u64), WinRatio)>,
) -> Seq<(Seq<char>, LaneSynergy)>
    decreases duos.len(),
{
    if duos.len() == 0 {
        Seq::empty()
    } else {
        let prev = lane_rows(duos.drop_last(), solos);
        let e = duos.last();
        match (
            crate::accmap::get_spec(solos, (e.0.0.0, e.0.1)),
            crate::accmap::get_spec(solos, (e.0.0.1, e.0.1)),
        ) {
            (Some(s1), Some(s2)) => {
                let f = syn_frac(e.1, s1, s2);
                let syn: Option<u64> = if f.1 == 0 {
                    None
                } else {
                    Some(crate::fracs::permille_spec(f.0, f.1) as u64)
                };
                prev.push(
                    (
                        join_space_spec(
                            seq![e.0.0.0, e.0.0.1, lane_name_spec(e.0.1 as int)],
                        ),
                        LaneSynergy { duo: e.1, solo1: s1, solo2: s2, synergy: syn },
                    ),
                )
            },
            _ => prev,
        }
    }
}

/// View of the labeled rows.
pub open spec fn lsrows_view(s: Seq<(String, LaneSynergy)>) -> Seq<(Seq<char>, LaneSynergy)> {
    s.map_values(|p: (String, LaneSynergy)| (p.0@, p.1))
}

/// The whole analysis: rows sorted best synergy first.
pub open spec fn lane_synergy_spec(data: Seq<Match>) -> Seq<(Seq<char>, LaneSynergy)> {
    sort_spec::<(String, LaneSynergy)>(lane_rows(duo_fold(data), solo_fold(data)))
}


/// Computes the lane-partner synergies over the corpus: for every lane
/// that exactly two tracked players shared, their duo record beside each
/// member's solo record in that lane, ranked best synergy first.  Matches
/// with a missing or out-of-range lane are skipped whole.
pub fn lane_synergy(data: &Vec<Match>) -> (r: Vec<(String, LaneSynergy)>)
    ensures
        lsrows_view(r@) == lane_synergy_spec(data@),
{
    let mut solo: Vec<((String, u64), WinRatio)> = Vec::new();
    let mut duo: Vec<(((String, String), u64), WinRatio)> = Vec::new();
    let n = data.len();
    let mut i: usize = 0;
    proof {
        assert(data@.take(0) =~= Seq::<Match>::empty());
        assert(entries_view(solo@) =~= solo_fold(data@.take(0)));
        assert(entries_view(duo@) =~= duo_fold(data@.take(0)));
    }
    while i < n
        invariant
            i <= n,
            n == data@.len(),
            entries_view(solo@) == solo_fold(data@.take(i as int)),
            entries_view(duo@) == duo_fold(data@.take(i as int)),
        decreases n - i,
    {
        let mt = &data[i];
        proof {
            assert(data@.take(i + 1).drop_last() =~= data@.take(i as int));
            assert(data@.take(i + 1).last() == data@[i as int]);
        }
        let lanes_r = mt.get_team_laning();
        let won_r = mt.is_won();
        match (lanes_r, won_r) {
            (Ok(lanes), Ok(won)) => {
                let ghost lv = mt.laning_spec().unwrap();
                proof {
                    assert(mt.laning_spec() == Some(lanes.deep_view()));
                    assert(lv == lanes.deep_view());
                }
                let m = lanes.len();
                let mut valid = true;
                let mut j: usize = 0;
                while j < m && valid
                    invariant
                        j <= m,
                        m == lanes@.len(),
                        lv == lanes.deep_view(),
                        valid ==> forall|k: int| 0 <= k < j ==> 1 <= (#[trigger] lv[k]).1 <= 5,
                        !valid ==> !lanes_ok(lv),
                    decreases m - j, (if valid { 1int } else { 0int }),
                {
                    let l = lanes[j].1;
                    proof {
                        assert(lv[j as int] == (lanes@[j as int].0@, lanes@[j as int].1));
                    }
                    if l < 1 || l > 5 {
                        proof {
                            assert(!(1 <= lv[j as int].1 <= 5));
                        }
                        valid = false;
                    }
                    j = j + 1;
                }
                if valid {
                    proof {
                        assert(lanes_ok(lv));
                    }
                    let ghost skeys = solo_keys(lv);
                    let ghost solo_start = entries_view(solo@);
                    let mut q: usize = 0;
                    proof {
                        assert(skeys.take(0) =~= Seq::<(Seq<char>, u64)>::empty());
                    }
                    while q < m
                        invariant
                            q <= m,
                            m == lanes@.len(),
                            lv == lanes.deep_view(),
                            lanes_ok(lv),
                            skeys == solo_keys(lv),
                            entries_view(solo@) == fold_scores(solo_start, skeys.take(q as int), won),
                        decreases m - q,
                    {
                        proof {
                            assert(lv[q as int] == (lanes@[q as int].0@, lanes@[q as int].1));
                            assert(skeys[q as int] == (lv[q as int].0, (lv[q as int].1 - 1) as u64));
                        }
                        let key = (lanes[q].0.clone(), lanes[q].1 - 1);
                        proof {
                            assert(key.deep_view() == skeys[q as int]);
                        }
                        upsert_score(&mut solo, key, won);
                        proof {
                            lemma_fold_scores_snoc(solo_start, skeys.take(q as int), skeys[q as int], won);
                            assert(skeys.take(q as int).push(skeys[q as int]) =~= skeys.take(q + 1));
                        }
                        q = q + 1;
                    }
                    proof {
                        assert(skeys.take(m as int) =~= skeys);
                        assert(entries_view(solo@) == solo_step(solo_fold(data@.take(i as int)), data@[i as int]));
                    }
                    let mut l0: Vec<String> = Vec::new();
                    let mut l1: Vec<String> = Vec::new();
                    let mut l2: Vec<String> = Vec::new();
                    let mut l3: Vec<String> = Vec::new();
                    let mut l4: Vec<String> = Vec::new();
                    let mut p: usize = 0;
                    proof {
                        assert(lv.take(0) =~= Seq::<(Seq<char>, u64)>::empty());
                        assert(views_of(l0@) =~= lane_members(lv.take(0), 0));
                        assert(views_of(l1@) =~= lane_members(lv.take(0), 1));
                        assert(views_of(l2@) =~= lane_members(lv.take(0), 2));
                        assert(views_of(l3@) =~= lane_members(lv.take(0), 3));
                        assert(views_of(l4@) =~= lane_members(lv.take(0), 4));
                    }
                    while p < m
                        invariant
                            p <= m,
                            m == lanes@.len(),
                            lv == lanes.deep_view(),
                            lanes_ok(lv),
                            views_of(l0@) == lane_members(lv.take(p as int), 0),
                            views_of(l1@) == lane_members(lv.take(p as int), 1),
                            views_of(l2@) == lane_members(lv.take(p as int), 2),
                            views_of(l3@) == lane_members(lv.take(p as int), 3),
                            views_of(l4@) == lane_members(lv.take(p as int), 4),
                        decreases m - p,
                    {
                        proof {
                            assert(lv[p as int] == (lanes@[p as int].0@, lanes@[p as int].1));
                            assert(lv.take(p + 1).drop_last() =~= lv.take(p as int));
                            assert(lv.take(p + 1).last() == lv[p as int]);
                            assert(1 <= lv[p as int].1 <= 5);
                        }
                        let lane = lanes[p].1 - 1;
                        let name = lanes[p].0.clone();
                        let ghost b0 = l0@;
                        let ghost b1 = l1@;
                        let ghost b2 = l2@;
                        let ghost b3 = l3@;
                        let ghost b4 = l4@;
                        if lane == 0 {
                            l0.push(name);
                        } else if lane == 1 {
                            l1.push(name);
                        } else if lane == 2 {
                            l2.push(name);
                        } else if lane == 3 {
                            l3.push(name);
                        } else {
                            l4.push(name);
                        }
                        proof {
                            assert(views_of(l0@) =~= lane_members(lv.take(p + 1), 0));
                            assert(views_of(l1@) =~= lane_members(lv.take(p + 1), 1));
                            assert(views_of(l2@) =~= lane_members(lv.take(p + 1), 2));
                            assert(views_of(l3@) =~= lane_members(lv.take(p + 1), 3));
                            assert(views_of(l4@) =~= lane_members(lv.take(p + 1), 4));
                        }
                        p = p + 1;
                    }
                    proof {
                        assert(lv.take(m as int) =~= lv);
                    }
                    let ghost duo_start = entries_view(duo@);
                    record_lane_duo(&mut duo, &l0, 0, won, Ghost(lv));
                    record_lane_duo(&mut duo, &l1, 1, won, Ghost(lv));
                    record_lane_duo(&mut duo, &l2, 2, won, Ghost(lv));
                    record_lane_duo(&mut duo, &l3, 3, won, Ghost(lv));
                    record_lane_duo(&mut duo, &l4, 4, won, Ghost(lv));
                    proof {
                        assert(entries_view(duo@) == duo_step(duo_fold(data@.take(i as int)), data@[i as int]));
                    }
                } else {
                    proof {
                        assert(entries_view(solo@) == solo_fold(data@.take(i + 1)));
                        assert(entries_view(duo@) == duo_fold(data@.take(i + 1)));
                    }
                }
            },
            _ => {},
        }
        i = i + 1;
    }
    proof {
        assert(data@.take(n as int) =~= data@);
    }
    let ghost duov = entries_view(duo@);
    let ghost solov = entries_view(solo@);
    let mut rows: Vec<(String, LaneSynergy)> = Vec::new();
    let dn = duo.len();
    let mut t: usize = 0;
    proof {
        assert(duov.take(0) =~= Seq::<(((Seq<char>, Seq<char>), u64), WinRatio)>::empty());
        assert(lsrows_view(rows@) =~= lane_rows(duov.take(0), solov));
    }
    while t < dn
        invariant
            t <= dn,
            dn == duo@.len(),
            duov == entries_view(duo@),
            solov == entries_view(solo@),
            lsrows_view(rows@) == lane_rows(duov.take(t as int), solov),
        decreases dn - t,
    {
        proof {
            assert(duov.take(t + 1).drop_last() =~= duov.take(t as int));
            assert(duov.take(t + 1).last() == duov[t as int]);
            assert(duov[t as int] == (duo@[t as int].0.deep_view(), duo@[t as int].1));
        }
        let lane = duo[t].0.1;
        let k1 = (duo[t].0.0.0.clone(), lane);
        let k2 = (duo[t].0.0.1.clone(), lane);
        proof {
            assert(k1.deep_view() == (duov[t as int].0.0.0, duov[t as int].0.1));
            assert(k2.deep_view() == (duov[t as int].0.0.1, duov[t as int].0.1));
        }
        let s1_r = crate::accmap::get_score(&solo, &k1);
        let s2_r = crate::accmap::get_score(&solo, &k2);
        let ghost rb = rows@;
        match (s1_r, s2_r) {
            (Some(s1), Some(s2)) => {
                let dwr = duo[t].1;
                let f = syn_frac_exec(&dwr, &s1, &s2);
                let syn: Option<u64> = if f.1 == 0 {
                    None
                } else {
                    proof {
                        lemma_syn_frac_bounds(dwr, s1, s2);
                    }
                    Some(crate::fracs::permille(f.0, f.1))
                };
                let mut parts: Vec<String> = Vec::new();
                parts.push(k1.0);
                parts.push(k2.0);
                parts.push(lane_name(lane));
                let label = join_space(&parts);
                proof {
                    assert(parts.deep_view() =~= seq![
                        duov[t as int].0.0.0,
                        duov[t as int].0.0.1,
                        lane_name_spec(duov[t as int].0.1 as int),
                    ]);
                }
                rows.push((label, LaneSynergy { duo: dwr, solo1: s1, solo2: s2, synergy: syn }));
                proof {
                    assert forall|k: int| 0 <= k < rows@.len() implies #[trigger] lsrows_view(
                        rows@,
                    )[k] == lane_rows(duov.take(t + 1), solov)[k] by {
                        assert(lsrows_view(rows@)[k] == (rows@[k].0@, rows@[k].1));
                        if k < rb.len() {
                            assert(rows@[k] == rb[k]);
                            assert(lsrows_view(rb)[k] == (rb[k].0@, rb[k].1));
                            assert(lsrows_view(rb)[k] == lane_rows(duov.take(t as int), solov)[k]);
                        }
                    }
                    assert(lsrows_view(rows@) =~= lane_rows(duov.take(t + 1), solov));
                }
            },
            _ => {
                proof {
                    assert(lsrows_view(rows@) =~= lane_rows(duov.take(t + 1), solov));
                }
            },
        }
        t = t + 1;
    }
    proof {
        assert(duov.take(dn as int) =~= duov);
    }
    let ghost rowsv = lane_rows(duov, solov);
    let ghost rows_raw = rows@;
    proof {
        assert forall|k: int| 0 <= k < rows_raw.len() implies #[trigger] views_of(rows_raw)[k]
            == lsrows_view(rows_raw)[k] by {
            assert(views_of(rows_raw)[k] == rows_raw[k].deep_view());
            assert(lsrows_view(rows_raw)[k] == (rows_raw[k].0@, rows_raw[k].1));
        }
        assert(views_of(rows_raw) =~= lsrows_view(rows_raw));
    }
    let sorted = stable_sort(rows);
    proof {
        assert forall|k: int| 0 <= k < sorted@.len() implies #[trigger] lsrows_view(sorted@)[k]
            == views_of(sorted@)[k] by {
            assert(views_of(sorted@)[k] == sorted@[k].deep_view());
            assert(lsrows_view(sorted@)[k] == (sorted@[k].0@, sorted@[k].1));
        }
        assert(lsrows_view(sorted@) =~= views_of(sorted@));
        assert(lsrows_view(sorted@) == lane_synergy_spec(data@));
    }
    sorted
}

/// Records the duo outcome for one lane when exactly two names share it.
fn record_lane_duo(
    duo: &mut Vec<(((String, String), u64), WinRatio)>,
    members: &Vec<String>,
    lane: u64,
    won: bool,
    Ghost(lv): Ghost<Seq<(Seq<char>, u64)>>,
)
    requires
        views_of(members@) == lane_members(lv, lane),
    ensures
        entries_view(final(duo)@) == duo_put(entries_view(old(duo)@), lv, lane, won),
{
    let ghost ms = lane_members(lv, lane);
    if members.len() == 2 {
        proof {
            assert(ms[0] == members@[0]@);
            assert(ms[1] == members@[1]@);
        }
        let a = &members[0];
        let b = &members[1];
        let pair: (String, String) = if str_le(a.as_str(), b.as_str()) {
            (a.clone(), b.clone())
        } else {
            (b.clone(), a.clone())
        };
        proof {
            assert((pair.0@, pair.1@) == crate::analyzers::roles::sort2v(ms[0], ms[1]));
        }
        let key = (pair, lane);
        proof {
            assert(key.deep_view() == (crate::analyzers::roles::sort2v(ms[0], ms[1]), lane));
        }
        upsert_score(duo, key, won);
    }
}


/// Law: two runs over the same corpus return the same rows.
pub proof fn lemma_lane_synergy_deterministic(
    r1: Seq<(Seq<char>, LaneSynergy)>,
    r2: Seq<(Seq<char>, LaneSynergy)>,
    data: Seq<Match>,
)
    requires
        r1 == lane_synergy_spec(data),
        r2 == lane_synergy_spec(data),
    ensures
        r1 == r2,
{
}

/// Law: a match whose laning or outcome cannot be read contributes to no
/// solo or duo record; appending it changes nothing.
pub proof fn lemma_lane_synergy_skips_unusable(data: Seq<Match>, mt: Match)
    requires
        mt.laning_spec() is None || !(mt.is_won_spec() is Ok),
    ensures
        lane_synergy_spec(data.push(mt)) == lane_synergy_spec(data),
{
    assert(data.push(mt).drop_last() =~= data);
    assert(data.push(mt).last() == mt);
}


/// The winning contributions the corpus makes to one (player, lane) solo
/// key: one per usable match in which that player held that lane.
pub open spec fn solo_win_count(data: Seq<Match>, k: (Seq<char>, u64)) -> int
    decreases data.len(),
{
    if data.len() == 0 {
        0
    } else {
        solo_win_count(data.drop_last(), k) + (match (
            data.last().laning_spec(),
            data.last().is_won_spec(),
        ) {
            (Some(lv), Ok(won)) => if lanes_ok(lv) && won {
                key_count(solo_keys(lv), k)
            } else {
                0int
            },
            _ => 0int,
        })
    }
}

/// The losing contributions, counted the same way.
pub open spec fn solo_loss_count(data: Seq<Match>, k: (Seq<char>, u64)) -> int
    decreases data.len(),
{
    if data.len() == 0 {
        0
    } else {
        solo_loss_count(data.drop_last(), k) + (match (
            data.last().laning_spec(),
            data.last().is_won_spec(),
        ) {
            (Some(lv), Ok(won)) => if lanes_ok(lv) && !won {
                key_count(solo_keys(lv), k)
            } else {
                0int
            },
            _ => 0int,
        })
    }
}

proof fn lemma_solo_counts_nonneg(data: Seq<Match>, k: (Seq<char>, u64))
    ensures
        solo_win_count(data, k) >= 0,
        solo_loss_count(data, k) >= 0,
    decreases data.len(),
{
    if data.len() > 0 {
        lemma_solo_counts_nonneg(data.drop_last(), k);
        match (data.last().laning_spec(), data.last().is_won_spec()) {
            (Some(lv), Ok(_)) => {
                lemma_key_count_nonneg(solo_keys(lv), k);
            },
            _ => {},
        }
    }
}

/// Law: while the counters have room, each solo record holds exactly the
/// number of won and lost usable matches in which its player held its
/// lane.
pub proof fn lemma_solo_counting(data: Seq<Match>, k: (Seq<char>, u64))
    requires
        solo_win_count(data, k) + solo_loss_count(data, k) <= u32::MAX,
    ensures
        solo_win_count(data, k) + solo_loss_count(data, k) > 0 ==> get_spec(solo_fold(data), k)
            == Some(
            WinRatio {
                wins: solo_win_count(data, k) as u32,
                looses: solo_loss_count(data, k) as u32,
            },
        ),
        solo_win_count(data, k) + solo_loss_count(data, k) == 0 ==> get_spec(
            solo_fold(data),
            k,
        ) is None,
    decreases data.len(),
{
    lemma_solo_counts_nonneg(data, k);
    if data.len() > 0 {
        let d = data.drop_last();
        let m = data.last();
        lemma_solo_counts_nonneg(d, k);
        match (m.laning_spec(), m.is_won_spec()) {
            (Some(lv), Ok(won)) => {
                lemma_key_count_nonneg(solo_keys(lv), k);
                lemma_solo_counting(d, k);
                if lanes_ok(lv) {
                    let prev = solo_fold(d);
                    lemma_get_fold_scores(prev, solo_keys(lv), won, k);
                    lemma_bump_n_exact(get_spec(prev, k), key_count(solo_keys(lv), k), won);
                }
            },
            _ => {
                lemma_solo_counting(d, k);
            },
        }
    }
}

/// Whether one usable match files a duo outcome under key `k`: its lane
/// must hold exactly the key's sorted pair.
pub open spec fn duo_hit(lv: Seq<(Seq<char>, u64)>, k: ((Seq<char>, Seq<char>), u64)) -> bool {
    &&& k.1 <= 4
    &&& lane_members(lv, k.1).len() == 2
    &&& crate::analyzers::roles::sort2v(lane_members(lv, k.1)[0], lane_members(lv, k.1)[1]) == k.0
}

/// The winning duo contributions of the corpus to key `k`.
pub open spec fn duo_win_count(data: Seq<Match>, k: ((Seq<char>, Seq<char>), u64)) -> int
    decreases data.len(),
{
    if data.len() == 0 {
        0
    } else {
        duo_win_count(data.drop_last(), k) + (match (
            data.last().laning_spec(),
            data.last().is_won_spec(),
        ) {
            (Some(lv), Ok(won)) => if lanes_ok(lv) && won && duo_hit(lv, k) {
                1int
            } else {
                0int
            },
            _ => 0int,
        })
    }
}

/// The losing duo contributions, counted the same way.
pub open spec fn duo_loss_count(data: Seq<Match>, k: ((Seq<char>, Seq<char>), u64)) -> int
    decreases data.len(),
{
    if data.len() == 0 {
        0
    } else {
        duo_loss_count(data.drop_last(), k) + (match (
            data.last().laning_spec(),
            data.last().is_won_spec(),
        ) {
            (Some(lv), Ok(won)) => if lanes_ok(lv) && !won && duo_hit(lv, k) {
                1int
            } else {
                0int
            },
            _ => 0int,
        })
    }
}

proof fn lemma_duo_counts_nonneg(data: Seq<Match>, k: ((Seq<char>, Seq<char>), u64))
    ensures
        duo_win_count(data, k) >= 0,
        duo_loss_count(data, k) >= 0,
    decreases data.len(),
{
    if data.len() > 0 {
        lemma_duo_counts_nonneg(data.drop_last(), k);
    }
}

proof fn lemma_get_duo_put(
    m: Seq<(((Seq<char>, Seq<char>), u64), WinRatio)>,
    lv: Seq<(Seq<char>, u64)>,
    lane: u64,
    won: bool,
    k: ((Seq<char>, Seq<char>), u64),
)
    requires
        lane <= 4,
    ensures
        get_spec(duo_put(m, lv, lane, won), k) == (if k.1 == lane && duo_hit(lv, k) {
            Some(
                crate::accmap::bump_spec(crate::accmap::or_zero(get_spec(m, k)), won),
            )
        } else {
            get_spec(m, k)
        }),
{
    let ms = lane_members(lv, lane);
    if ms.len() == 2 {
        let key = (crate::analyzers::roles::sort2v(ms[0], ms[1]), lane);
        lemma_get_upsert(m, key, won, k);
        if k.1 == lane && duo_hit(lv, k) {
            assert(k == key);
        } else {
            assert(k != key);
        }
    }
}

/// Law: while the counters have room, each duo record holds exactly the
/// number of won and lost usable matches in which its pair shared its
/// lane alone.
pub proof fn lemma_duo_counting(data: Seq<Match>, k: ((Seq<char>, Seq<char>), u64))
    requires
        duo_win_count(data, k) + duo_loss_count(data, k) <= u32::MAX,
    ensures
        duo_win_count(data, k) + duo_loss_count(data, k) > 0 ==> get_spec(duo_fold(data), k)
            == Some(
            WinRatio {
                wins: duo_win_count(data, k) as u32,
                looses: duo_loss_count(data, k) as u32,
            },
        ),
        duo_win_count(data, k) + duo_loss_count(data, k) == 0 ==> get_spec(
            duo_fold(data),
            k,
        ) is None,
    decreases data.len(),
{
    lemma_duo_counts_nonneg(data, k);
    if data.len() > 0 {
        let d = data.drop_last();
        let m = data.last();
        lemma_duo_counts_nonneg(d, k);
        lemma_duo_counting(d, k);
        match (m.laning_spec(), m.is_won_spec()) {
            (Some(lv), Ok(won)) => {
                if lanes_ok(lv) {
                    let m0 = duo_fold(d);
                    let m1 = duo_put(m0, lv, 0, won);
                    let m2 = duo_put(m1, lv, 1, won);
                    let m3 = duo_put(m2, lv, 2, won);
                    let m4 = duo_put(m3, lv, 3, won);
                    lemma_get_duo_put(m0, lv, 0, won, k);
                    lemma_get_duo_put(m1, lv, 1, won, k);
                    lemma_get_duo_put(m2, lv, 2, won, k);
                    lemma_get_duo_put(m3, lv, 3, won, k);
                    lemma_get_duo_put(m4, lv, 4, won, k);
                    if k.1 <= 4 && duo_hit(lv, k) {
                        lemma_bump_n_exact(get_spec(m0, k), 1, won);
                    }
                }
            },
            _ => {},
        }
    }
}


proof fn lemma_syn_frac_nonneg(x: LaneSynergy)
    ensures
        syn_frac(x.duo, x.solo1, x.solo2).0 >= 0,
        syn_frac(x.duo, x.solo1, x.solo2).1 >= 0,
{
    let d = x.duo.percent_spec();
    let p1 = x.solo1.percent_spec();
    let p2 = x.solo2.percent_spec();
    assert(2 * d.0 * p1.1 * p2.1 >= 0) by (nonlinear_arith)
        requires
            d.0 >= 0 && p1.1 >= 1 && p2.1 >= 1,
    ;
    assert(d.1 * (p1.0 * p2.1 + p2.0 * p1.1) >= 0) by (nonlinear_arith)
        requires
            d.1 >= 1 && p1.0 >= 0 && p2.1 >= 1 && p2.0 >= 0 && p1.1 >= 1,
    ;
}

/// The record chain behind tied synergies: duo, then first solo, then
/// second solo.
spec fn chain_cmp(a: LaneSynergy, b: LaneSynergy) -> Ordering {
    if a.duo.cmp_spec(b.duo) != Ordering::Equal {
        a.duo.cmp_spec(b.duo)
    } else if a.solo1.cmp_spec(b.solo1) != Ordering::Equal {
        a.solo1.cmp_spec(b.solo1)
    } else {
        a.solo2.cmp_spec(b.solo2)
    }
}

proof fn lemma_chain_not_less_total(a: LaneSynergy, b: LaneSynergy)
    ensures
        chain_cmp(a, b) != Ordering::Less || chain_cmp(b, a) != Ordering::Less,
{
    lemma_winratio_order_ties(a.duo, b.duo);
    lemma_winratio_order_ties(b.duo, a.duo);
    lemma_winratio_order_ties(a.solo1, b.solo1);
    lemma_winratio_order_ties(b.solo1, a.solo1);
    lemma_winratio_order_ties(a.solo2, b.solo2);
    lemma_winratio_order_ties(b.solo2, a.solo2);
    lemma_winratio_order_flip(a.duo, b.duo);
    lemma_winratio_order_flip(b.duo, a.duo);
    lemma_winratio_order_flip(a.solo1, b.solo1);
    lemma_winratio_order_flip(b.solo1, a.solo1);
    lemma_winratio_order_flip(a.solo2, b.solo2);
    lemma_winratio_order_flip(b.solo2, a.solo2);
    lemma_winratio_order_total(a.duo, b.duo);
    lemma_winratio_order_total(a.solo1, b.solo1);
    lemma_winratio_order_total(a.solo2, b.solo2);
}

proof fn lemma_wr_greater_trans(a: WinRatio, b: WinRatio, c: WinRatio)
    requires
        a.cmp_spec(b) == Ordering::Greater,
        b.cmp_spec(c) == Ordering::Greater,
    ensures
        a.cmp_spec(c) == Ordering::Greater,
{
    lemma_winratio_order_flip(c, b);
    lemma_winratio_order_flip(b, c);
    if a.cmp_spec(c) != Ordering::Greater {
        lemma_winratio_order_trans(a, c, b);
    }
}

proof fn lemma_chain_not_less_trans(a: LaneSynergy, b: LaneSynergy, c: LaneSynergy)
    requires
        chain_cmp(a, b) != Ordering::Less,
        chain_cmp(b, c) != Ordering::Less,
    ensures
        chain_cmp(a, c) != Ordering::Less,
{
    lemma_winratio_order_ties(a.duo, b.duo);
    lemma_winratio_order_ties(b.duo, c.duo);
    lemma_winratio_order_ties(a.duo, c.duo);
    lemma_winratio_order_ties(a.solo1, b.solo1);
    lemma_winratio_order_ties(b.solo1, c.solo1);
    lemma_winratio_order_ties(a.solo1, c.solo1);
    lemma_winratio_order_ties(a.solo2, b.solo2);
    lemma_winratio_order_ties(b.solo2, c.solo2);
    lemma_winratio_order_ties(a.solo2, c.solo2);
    if a.duo == b.duo {
        if b.duo == c.duo {
            if a.solo1 == b.solo1 {
                if b.solo1 == c.solo1 {
                    lemma_winratio_order_flip(a.solo2, b.solo2);
                    lemma_winratio_order_flip(b.solo2, a.solo2);
                    lemma_winratio_order_flip(b.solo2, c.solo2);
                    lemma_winratio_order_flip(c.solo2, b.solo2);
                    lemma_winratio_order_flip(a.solo2, c.solo2);
                    lemma_winratio_order_flip(c.solo2, a.solo2);
                    lemma_winratio_order_trans(c.solo2, b.solo2, a.solo2);
                }
            } else {
                if b.solo1 != c.solo1 {
                    lemma_wr_greater_trans(a.solo1, b.solo1, c.solo1);
                }
            }
        }
    } else {
        if b.duo != c.duo {
            lemma_wr_greater_trans(a.duo, b.duo, c.duo);
        }
    }
}

proof fn lemma_lane_le_total(a: LaneSynergy, b: LaneSynergy)
    ensures
        lane_cmp(a, b) != Ordering::Less || lane_cmp(b, a) != Ordering::Less,
{
    lemma_chain_not_less_total(a, b);
}

proof fn lemma_lane_le_trans(a: LaneSynergy, b: LaneSynergy, c: LaneSynergy)
    requires
        lane_cmp(a, b) != Ordering::Less,
        lane_cmp(b, c) != Ordering::Less,
    ensures
        lane_cmp(a, c) != Ordering::Less,
{
    let fa = syn_frac(a.duo, a.solo1, a.solo2);
    let fb = syn_frac(b.duo, b.solo1, b.solo2);
    let fc = syn_frac(c.duo, c.solo1, c.solo2);
    lemma_syn_frac_nonneg(a);
    lemma_syn_frac_nonneg(b);
    lemma_syn_frac_nonneg(c);
    if fa.1 == 0 {
        if fc.1 == 0 {
            // Both undefined: the hypotheses force b undefined too, and
            // everything reduces to the record chain.
            assert(fb.1 == 0);
            lemma_chain_not_less_trans(a, b, c);
        }
        // An undefined a never ranks below a defined c.
    } else {
        // a defined forces b and then c defined.
        assert(fb.1 != 0);
        assert(fc.1 != 0);
        assert(fa.0 * fb.1 >= fb.0 * fa.1);
        assert(fb.0 * fc.1 >= fc.0 * fb.1);
        assert(fa.0 * fc.1 >= fc.0 * fa.1) by (nonlinear_arith)
            requires
                fa.0 * fb.1 >= fb.0 * fa.1,
                fb.0 * fc.1 >= fc.0 * fb.1,
                fa.1 > 0,
                fb.1 > 0,
                fc.1 > 0,
                fa.0 >= 0,
                fb.0 >= 0,
                fc.0 >= 0,
        ;
        if fa.0 * fc.1 == fc.0 * fa.1 {
            assert(fa.0 * fb.1 == fb.0 * fa.1 && fb.0 * fc.1 == fc.0 * fb.1) by (nonlinear_arith)
                requires
                    fa.0 * fb.1 >= fb.0 * fa.1,
                    fb.0 * fc.1 >= fc.0 * fb.1,
                    fa.0 * fc.1 == fc.0 * fa.1,
                    fa.1 > 0,
                    fb.1 > 0,
                    fc.1 > 0,
                    fa.0 >= 0,
                    fb.0 >= 0,
                    fc.0 >= 0,
            ;
            lemma_chain_not_less_trans(a, b, c);
        }
    }
}

/// Law: the rows come back ranked best synergy first; no later row ranks
/// above an earlier one.
pub proof fn lemma_lane_synergy_sorted(data: Seq<Match>, i: int, j: int)
    requires
        0 <= i <= j < lane_synergy_spec(data).len(),
    ensures
        lane_cmp(lane_synergy_spec(data)[i].1, lane_synergy_spec(data)[j].1) != Ordering::Less,
{
    let rows = lane_rows(duo_fold(data), solo_fold(data));
    assert forall|a: (Seq<char>, LaneSynergy), b: (Seq<char>, LaneSynergy)| #[trigger] <(
        String,
        LaneSynergy,
    ) as SortOrd>::le_key(a, b) || <(String, LaneSynergy) as SortOrd>::le_key(b, a) by {
        lemma_lane_le_total(a.1, b.1);
    }
    assert forall|a: (Seq<char>, LaneSynergy), b: (Seq<char>, LaneSynergy), c: (
        Seq<char>,
        LaneSynergy,
    )|
        #![trigger <(String, LaneSynergy) as SortOrd>::le_key(a, b), <(String, LaneSynergy) as SortOrd>::le_key(b, c)]
        <(String, LaneSynergy) as SortOrd>::le_key(a, b) && <(String, LaneSynergy) as SortOrd>::le_key(
            b,
            c,
        ) implies <(String, LaneSynergy) as SortOrd>::le_key(a, c) by {
        lemma_lane_le_trans(a.1, b.1, c.1);
    }
    crate::orders::lemma_sort_spec_sorted::<(String, LaneSynergy)>(rows);
    assert(<(String, LaneSynergy) as SortOrd>::le_key(
        lane_synergy_spec(data)[i],
        lane_synergy_spec(data)[j],
    ));
}

} // verus!
