//! An earlier team analysis over name/lane setups: every sub-roster of two
//! or more `name_lane` setup strings, ranked by cross-multiplied ratio.

use crate::accmap::{entries_view, fold_scores};
use crate::analyzers::team::team_keys_spec;
use crate::analyzers::winratio::WinRatio;
use crate::match_stats::Match;
use crate::orders::{sort_spec, stable_sort, views_of, SortOrd};
use crate::strutil::{dec_str_spec, u64_to_dec};
use vstd::prelude::*;

verus! {

broadcast use crate::orders::lemma_deep_view_views;

pub type SetupRatio = (u32, u32);

/// A member's setup string: the name, an underscore, the lane.
pub open spec fn setup_name(e: (Seq<char>, u64)) -> Seq<char> {
    e.0 + "_"@ + dec_str_spec(e.1 as int)
}

pub open spec fn setup_names(lv: Seq<(Seq<char>, u64)>) -> Seq<Seq<char>> {
    lv.map_values(|e: (Seq<char>, u64)| setup_name(e))
}

/// The accumulated scores after one more match.
pub open spec fn setup_step(m: Seq<(Seq<char>, WinRatio)>, mt: Match) -> Seq<
    (Seq<char>, WinRatio),
> {
    match (mt.laning_spec(), mt.is_won_spec()) {
        (Some(lv), Ok(won)) => fold_scores(m, team_keys_spec(setup_names(lv)), won),
        _ => m,
    }
}

pub open spec fn setup_scores_spec(data: Seq<Match>) -> Seq<(Seq<char>, WinRatio)>
    decreases data.len(),
{
    if data.len() == 0 {
        Seq::empty()
    } else {
        setup_step(setup_scores_spec(data.drop_last()), data.last())
    }
}

/// Ranked rows order by cross-multiplied ratio alone, best first; rows
/// whose cross-products balance keep their first-seen order.
impl SortOrd for (String, SetupRatio) {
    open spec fn le_key(a: (Seq<char>, SetupRatio), b: (Seq<char>, SetupRatio)) -> bool {
        a.1.1 * b.1.0 <= a.1.0 * b.1.1
    }

    fn le(&self, other: &(String, SetupRatio)) -> (r: bool) {
        proof {
            crate::analyzers::winratio::lemma_u32_mul_fits(
                self.1.1 as u64,
                other.1.0 as u64,
            );
            crate::analyzers::winratio::lemma_u32_mul_fits(
                self.1.0 as u64,
                other.1.1 as u64,
            );
        }
        (self.1.1 as u64) * (other.1.0 as u64) <= (self.1.0 as u64) * (other.1.1 as u64)
    }
}

pub open spec fn ratio_rows(m: Seq<(Seq<char>, WinRatio)>) -> Seq<(Seq<char>, SetupRatio)> {
    m.map_values(|e: (Seq<char>, WinRatio)| (e.0, (e.1.wins, e.1.looses)))
}

/// The analysis result, sorted by cross-multiplied ratio.
pub open spec fn best_team_setup_spec(data: Seq<Match>) -> Seq<(Seq<char>, SetupRatio)> {
    sort_spec::<(String, SetupRatio)>(ratio_rows(setup_scores_spec(data)))
}

/// View of the ranked rows.
pub open spec fn setup_rows_view(s: Seq<(String, SetupRatio)>) -> Seq<(Seq<char>, SetupRatio)> {
    s.map_values(|p: (String, SetupRatio)| (p.0@, p.1))
}

/// Scores every sub-setup of two or more `name_lane` strings over the
/// corpus and ranks them by cross-multiplied ratio.
pub fn best_team_setup(data: &Vec<Match>) -> (r: Vec<(String, SetupRatio)>)
    ensures
        setup_rows_view(r@) == best_team_setup_spec(data@),
{
    let mut score: Vec<(String, WinRatio)> = Vec::new();
    let n = data.len();
    let mut i: usize = 0;
    proof {
        assert(data@.take(0) =~= Seq::<Match>::empty());
        assert(entries_view(score@) =~= setup_scores_spec(data@.take(0)));
    }
    while i < n
        invariant
            i <= n,
            n == data@.len(),
            entries_view(score@) == setup_scores_spec(data@.take(i as int)),
        decreases n - i,
    {
        let mt = &data[i];
        proof {
            assert(data@.take(i + 1).drop_last() =~= data@.take(i as int));
            assert(data@.take(i + 1).last() == data@[i as int]);
        }
        let lanes_r = mt.get_team_laning();
        let won_r = mt.is_won();
        match (lanes_r, won_r) {
            (Ok(lanes), Ok(won)) => {
                let ghost lv = mt.laning_spec().unwrap();
                proof {
                    assert(mt.laning_spec() == Some(lanes.deep_view()));
                }
                let m = lanes.len();
                let mut members: Vec<String> = Vec::new();
                let mut j: usize = 0;
                while j < m
                    invariant
                        j <= m,
                        m == lanes@.len(),
                        lv == lanes.deep_view(),
                        members@.len() == j,
                        forall|k: int| 0 <= k < j ==> views_of(members@)[k] == setup_names(lv)[k],
                    decreases m - j,
                {
                    proof {
                        assert(lv[j as int] == (lanes@[j as int].0@, lanes@[j as int].1));
                    }
                    let mut s = lanes[j].0.clone();
                    proof {
                        reveal_strlit("_");
                    }
                    s.append("_");
                    let d = u64_to_dec(lanes[j].1);
                    s.append(d.as_str());
                    let ghost mb = members@;
                    members.push(s);
                    proof {
                        assert forall|k: int| 0 <= k < j + 1 implies #[trigger] views_of(
                            members@,
                        )[k] == setup_names(lv)[k] by {
                            assert(views_of(members@)[k] == members@[k]@);
                            if k < j {
                                assert(members@[k] == mb[k]);
                                assert(views_of(mb)[k] == mb[k]@);
                                assert(views_of(mb)[k] == setup_names(lv)[k]);
                            } else {
                                assert(setup_names(lv)[k] == setup_name(lv[k]));
                            }
                        }
                    }
                    j = j + 1;
                }
                proof {
                    assert(views_of(members@) =~= setup_names(lv));
                    assert(members.deep_view() == views_of(members@));
                }
                crate::analyzers::team::accumulate_match_subteams(&mut score, members, won);
                proof {
                    assert(entries_view(score@) == setup_step(
                        setup_scores_spec(data@.take(i as int)),
                        data@[i as int],
                    ));
                }
            },
            _ => {},
        }
        i = i + 1;
    }
    proof {
        assert(data@.take(n as int) =~= data@);
    }
    let ghost scorev = entries_view(score@);
    let ghost m0 = score@.len();
    let mut rem = score;
    let mut rows: Vec<(String, SetupRatio)> = Vec::new();
    proof {
        assert(setup_rows_view(rows@) =~= ratio_rows(scorev).take(0));
    }
    while rem.len() > 0
        invariant
            rem@.len() <= m0,
            scorev.len() == m0,
            forall|j: int|
                0 <= j < rem@.len() ==> (#[trigger] entries_view(rem@)[j]) == scorev[m0
                    - rem@.len() + j],
            rows@.len() == m0 - rem@.len(),
            setup_rows_view(rows@) == ratio_rows(scorev).take(m0 - rem@.len()),
        decreases rem@.len(),
    {
        let ghost done = m0 - rem@.len();
        let ghost rem_before = rem@;
        let e = rem.remove(0);
        proof {
            assert(entries_view(rem_before)[0] == (e.0.deep_view(), e.1));
            assert((e.0@, e.1) == scorev[done]);
            assert forall|j: int| 0 <= j < rem@.len() implies #[trigger] entries_view(rem@)[j]
                == scorev[done + 1 + j] by {
                assert(rem@[j] == rem_before[j + 1]);
                assert(entries_view(rem_before)[j + 1] == scorev[done + j + 1]);
            }
        }
        let ghost rb = rows@;
        rows.push((e.0, (e.1.wins, e.1.looses)));
        proof {
            assert forall|k: int| 0 <= k < rows@.len() implies #[trigger] setup_rows_view(
                rows@,
            )[k] == ratio_rows(scorev).take(done + 1)[k] by {
                assert(setup_rows_view(rows@)[k] == (rows@[k].0@, rows@[k].1));
                if k < rb.len() {
                    assert(rows@[k] == rb[k]);
                    assert(setup_rows_view(rb)[k] == (rb[k].0@, rb[k].1));
                    assert(setup_rows_view(rb)[k] == ratio_rows(scorev).take(done)[k]);
                } else {
                    assert(ratio_rows(scorev)[k] == (scorev[k].0, (
                        scorev[k].1.wins,
                        scorev[k].1.looses,
                    )));
                }
            }
            assert(setup_rows_view(rows@) =~= ratio_rows(scorev).take(done + 1));
        }
    }
    proof {
        assert(ratio_rows(scorev).take(m0 as int) =~= ratio_rows(scorev));
    }
    let ghost rows_raw = rows@;
    proof {
        assert forall|k: int| 0 <= k < rows_raw.len() implies #[trigger] views_of(rows_raw)[k]
            == setup_rows_view(rows_raw)[k] by {
            assert(views_of(rows_raw)[k] == rows_raw[k].deep_view());
            assert(setup_rows_view(rows_raw)[k] == (rows_raw[k].0@, rows_raw[k].1));
        }
        assert(views_of(rows_raw) =~= setup_rows_view(rows_raw));
    }
    let sorted = stable_sort(rows);
    proof {
        assert forall|k: int| 0 <= k < sorted@.len() implies #[trigger] setup_rows_view(
            sorted@,
        )[k] == views_of(sorted@)[k] by {
            assert(views_of(sorted@)[k] == sorted@[k].deep_view());
            assert(setup_rows_view(sorted@)[k] == (sorted@[k].0@, sorted@[k].1));
        }
        assert(setup_rows_view(sorted@) =~= views_of(sorted@));
    }
    sorted
}

} // verus!
