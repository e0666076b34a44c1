//! Team-subset win ratios: every sub-roster of two or more players that
//! played a match together, ranked by their joint record.

use crate::accmap::{
    entries_view, fold_scores, get_spec, key_count, lemma_bump_n_exact, lemma_fold_scores_snoc,
    lemma_get_fold_scores, lemma_key_count_nonneg, upsert_score,
};
use crate::analyzers::analyzers_utils::{
    combinations, combos_range, lemma_combos_range_snoc, subs_of,
};
use crate::analyzers::winratio::{
    lemma_winratio_order_flip, lemma_winratio_order_total, lemma_winratio_order_trans, WinRatio,
};
use crate::match_stats::{Match, PlayerName};
use crate::orders::{
    lemma_sort_spec_sorted, reverse_vec, sort_spec, sorted_by, stable_sort, views_of, SortOrd,
};
use crate::strutil::{join_space, join_space_spec};
use core::cmp::Ordering;
use vstd::prelude::*;

verus! {

broadcast use crate::orders::lemma_deep_view_views;

/// Leaderboard rows order by their win ratio alone; rows that tie keep
/// their first-seen order.
impl SortOrd for (String, WinRatio) {
    open spec fn le_key(a: (Seq<char>, WinRatio), b: (Seq<char>, WinRatio)) -> bool {
        a.1.cmp_spec(b.1) != Ordering::Greater
    }

    fn le(&self, other: &(String, WinRatio)) -> (r: bool) {
        let c = self.1.cmp_to(&other.1);
        !(matches!(c, Ordering::Greater))
    }
}

/// The keys one match contributes: each sub-roster of two or more players,
/// members sorted by name, joined with single spaces.
pub open spec fn team_keys_spec(team: Seq<Seq<char>>) -> Seq<Seq<char>> {
    let sorted = sort_spec::<String>(team);
    combos_range(sorted, 2, sorted.len() as int + 1).map_values(|c: Seq<Seq<char>>| join_space_spec(c))
}

/// The accumulated scores after one more match; a match whose roster or
/// outcome cannot be read contributes nothing.
pub open spec fn team_step(m: Seq<(Seq<char>, WinRatio)>, mt: Match) -> Seq<(Seq<char>, WinRatio)> {
    match (mt.team_spec(), mt.is_won_spec()) {
        (Some(team), Ok(won)) => fold_scores(m, team_keys_spec(team), won),
        _ => m,
    }
}

/// The score map accumulated over a whole corpus, in first-seen key order.
pub open spec fn team_scores_spec(data: Seq<Match>) -> Seq<(Seq<char>, WinRatio)>
    decreases data.len(),
{
    if data.len() == 0 {
        Seq::empty()
    } else {
        team_step(team_scores_spec(data.drop_last()), data.last())
    }
}

/// The analysis result: the accumulated scores, best ratio first.
pub open spec fn best_teams_spec(data: Seq<Match>) -> Seq<(Seq<char>, WinRatio)> {
    sort_spec::<(String, WinRatio)>(team_scores_spec(data)).reverse()
}

/// Scores every sub-roster of two or more players over the corpus and
/// returns the subsets with their records, best win ratio first.
pub fn best_teams(data: &Vec<Match>) -> (r: Vec<(String, WinRatio)>)
    ensures
        views_of(r@) == best_teams_spec(data@),
{
    let mut score: Vec<(String, WinRatio)> = Vec::new();
    let n = data.len();
    let mut i: usize = 0;
    proof {
        assert(data@.take(0) =~= Seq::<Match>::empty());
        assert(entries_view(score@) =~= team_scores_spec(data@.take(0)));
    }
    while i < n
        invariant
            i <= n,
            n == data@.len(),
            entries_view(score@) == team_scores_spec(data@.take(i as int)),
        decreases n - i,
    {
        let mt = &data[i];
        proof {
            assert(data@.take(i + 1).drop_last() =~= data@.take(i as int));
            assert(data@.take(i + 1).last() == data@[i as int]);
        }
        let team_r = mt.get_team();
        let won_r = mt.is_won();
        match (team_r, won_r) {
            (Ok(team), Ok(won)) => {
                accumulate_match_subteams(&mut score, team, won);
                proof {
                    assert(entries_view(score@) == team_scores_spec(data@.take(i + 1)));
                }
            },
            _ => {},
        }
        i = i + 1;
    }
    proof {
        assert(data@.take(n as int) =~= data@);
    }
    let sorted = stable_sort(score);
    let rows = reverse_vec(sorted);
    proof {
        assert(entries_view(score@) =~= views_of(score@));
        assert(views_of(rows@) =~= views_of(sorted@).reverse());
    }
    rows
}

/// Records one match outcome under every sub-roster key of size two or more.
pub(crate) fn accumulate_match_subteams(
    score: &mut Vec<(String, WinRatio)>,
    team: Vec<PlayerName>,
    won: bool,
)
    ensures
        entries_view(final(score)@) == fold_scores(
            entries_view(old(score)@),
            team_keys_spec(team.deep_view()),
            won,
        ),
{
    let ghost start = entries_view(old(score)@);
    let sorted = stable_sort(team);
    let ghost sv = sort_spec::<String>(team.deep_view());
    proof {
        assert(views_of(sorted@) == sv);
    }
    let n_t = sorted.len();
    let mut subsets: Vec<Vec<String>> = Vec::new();
    proof {
        assert(subs_of(subsets@) =~~= combos_range(sv, 2, 2));
    }
    if n_t >= 2 {
        let mut c: usize = 0;
        while c <= n_t - 2
            invariant
                n_t == sv.len(),
                n_t >= 2,
                c + 2 <= n_t + 1,
                sv == sort_spec::<String>(team.deep_view()),
                views_of(sorted@) == sv,
                subs_of(subsets@) == combos_range(sv, 2, c + 2),
            decreases n_t - c,
        {
            let k = c + 2;
            let mut cs = combinations(&sorted, k);
            let ghost before = subsets@;
            let ghost cs0 = cs@;
            subsets.append(&mut cs);
            proof {
                assert(subs_of(subsets@) =~~= subs_of(before) + subs_of(cs0));
                lemma_combos_range_snoc(sv, 2, k as int);
                assert(subs_of(subsets@) =~~= combos_range(sv, 2, k + 1));
            }
            c = c + 1;
        }
        proof {
            assert(c == n_t - 1);
            assert(subs_of(subsets@) == combos_range(sv, 2, n_t + 1));
        }
    } else {
        proof {
            assert(combos_range(sv, 2, sv.len() as int + 1) =~~= Seq::<Seq<Seq<char>>>::empty());
            assert(subs_of(subsets@) =~~= combos_range(sv, 2, sv.len() as int + 1));
        }
    }
    let ghost keys = team_keys_spec(team.deep_view());
    proof {
        assert(keys == subs_of(subsets@).map_values(|c: Seq<Seq<char>>| join_space_spec(c)));
        assert(keys.take(0) =~= Seq::<Seq<char>>::empty());
    }
    let m = subsets.len();
    let mut j: usize = 0;
    while j < m
        invariant
            j <= m,
            m == subsets@.len(),
            keys == subs_of(subsets@).map_values(|c: Seq<Seq<char>>| join_space_spec(c)),
            keys.len() == m,
            entries_view(score@) == fold_scores(start, keys.take(j as int), won),
        decreases m - j,
    {
        let key = join_space(&subsets[j]);
        proof {
            assert(subs_of(subsets@)[j as int] == subsets@[j as int].deep_view());
            assert(key@ == keys[j as int]);
        }
        upsert_score(score, key, won);
        proof {
            lemma_fold_scores_snoc(start, keys.take(j as int), keys[j as int], won);
            assert(keys.take(j as int).push(keys[j as int]) =~= keys.take(j + 1));
        }
        j = j + 1;
    }
    proof {
        assert(keys.take(m as int) =~= keys);
    }
}


/// Law: the analysis is a function of the corpus alone; two runs over the
/// same corpus return the same rows.
pub proof fn lemma_best_teams_deterministic(
    r1: Seq<(Seq<char>, WinRatio)>,
    r2: Seq<(Seq<char>, WinRatio)>,
    data: Seq<Match>,
)
    requires
        r1 == best_teams_spec(data),
        r2 == best_teams_spec(data),
    ensures
        r1 == r2,
{
}

/// Law: a match whose roster or outcome cannot be read contributes to no
/// subset; appending it to a corpus leaves the analysis unchanged.
pub proof fn lemma_best_teams_skips_unusable(data: Seq<Match>, mt: Match)
    requires
        mt.team_spec() is None || !(mt.is_won_spec() is Ok),
    ensures
        best_teams_spec(data.push(mt)) == best_teams_spec(data),
{
    assert(data.push(mt).drop_last() =~= data);
    assert(data.push(mt).last() == mt);
}


/// How many winning contributions the corpus makes to the subset key `k`:
/// one per enumerated sub-roster equal to `k` in each won match.
pub open spec fn team_win_count(data: Seq<Match>, k: Seq<char>) -> int
    decreases data.len(),
{
    if data.len() == 0 {
        0
    } else {
        team_win_count(data.drop_last(), k) + (match (
            data.last().team_spec(),
            data.last().is_won_spec(),
        ) {
            (Some(team), Ok(won)) => if won {
                key_count(team_keys_spec(team), k)
            } else {
                0int
            },
            _ => 0int,
        })
    }
}

/// The losing contributions, counted the same way.
pub open spec fn team_loss_count(data: Seq<Match>, k: Seq<char>) -> int
    decreases data.len(),
{
    if data.len() == 0 {
        0
    } else {
        team_loss_count(data.drop_last(), k) + (match (
            data.last().team_spec(),
            data.last().is_won_spec(),
        ) {
            (Some(team), Ok(won)) => if won {
                0int
            } else {
                key_count(team_keys_spec(team), k)
            },
            _ => 0int,
        })
    }
}

proof fn lemma_team_counts_nonneg(data: Seq<Match>, k: Seq<char>)
    ensures
        team_win_count(data, k) >= 0,
        team_loss_count(data, k) >= 0,
    decreases data.len(),
{
    if data.len() > 0 {
        lemma_team_counts_nonneg(data.drop_last(), k);
        match (data.last().team_spec(), data.last().is_won_spec()) {
            (Some(team), Ok(_)) => {
                lemma_key_count_nonneg(team_keys_spec(team), k);
            },
            _ => {},
        }
    }
}

/// Law: while the counters have room, each subset's record holds exactly
/// the number of won and lost matches in which that sub-roster was
/// enumerated, and only keys with a contribution appear at all.
pub proof fn lemma_team_counting(data: Seq<Match>, k: Seq<char>)
    requires
        team_win_count(data, k) + team_loss_count(data, k) <= u32::MAX,
    ensures
        team_win_count(data, k) + team_loss_count(data, k) > 0 ==> get_spec(
            team_scores_spec(data),
            k,
        ) == Some(
            WinRatio {
                wins: team_win_count(data, k) as u32,
                looses: team_loss_count(data, k) as u32,
            },
        ),
        team_win_count(data, k) + team_loss_count(data, k) == 0 ==> get_spec(
            team_scores_spec(data),
            k,
        ) is None,
    decreases data.len(),
{
    lemma_team_counts_nonneg(data, k);
    if data.len() > 0 {
        let d = data.drop_last();
        let m = data.last();
        lemma_team_counts_nonneg(d, k);
        match (m.team_spec(), m.is_won_spec()) {
            (Some(team), Ok(won)) => {
                lemma_key_count_nonneg(team_keys_spec(team), k);
                lemma_team_counting(d, k);
                let prev = team_scores_spec(d);
                lemma_get_fold_scores(prev, team_keys_spec(team), won, k);
                let n = key_count(team_keys_spec(team), k);
                lemma_bump_n_exact(get_spec(prev, k), n, won);
            },
            _ => {
                lemma_team_counting(d, k);
            },
        }
    }
}


/// Law: the rows come back ranked best ratio first; no later row's ratio
/// compares above an earlier one's.
pub proof fn lemma_best_teams_sorted(data: Seq<Match>, i: int, j: int)
    requires
        0 <= i <= j < best_teams_spec(data).len(),
    ensures
        best_teams_spec(data)[i].1.cmp_spec(best_teams_spec(data)[j].1) != Ordering::Less,
{
    let m = team_scores_spec(data);
    assert forall|a: (Seq<char>, WinRatio), b: (Seq<char>, WinRatio)| #[trigger] <(
        String,
        WinRatio,
    ) as SortOrd>::le_key(a, b) || <(String, WinRatio) as SortOrd>::le_key(b, a) by {
        lemma_winratio_order_total(a.1, b.1);
        lemma_winratio_order_total(b.1, a.1);
    }
    assert forall|a: (Seq<char>, WinRatio), b: (Seq<char>, WinRatio), c: (Seq<char>, WinRatio)|
        #![trigger <(String, WinRatio) as SortOrd>::le_key(a, b), <(String, WinRatio) as SortOrd>::le_key(b, c)]
        <(String, WinRatio) as SortOrd>::le_key(a, b) && <(String, WinRatio) as SortOrd>::le_key(
            b,
            c,
        ) implies <(String, WinRatio) as SortOrd>::le_key(a, c) by {
        lemma_winratio_order_trans(a.1, b.1, c.1);
    }
    lemma_sort_spec_sorted::<(String, WinRatio)>(m);
    let sorted = sort_spec::<(String, WinRatio)>(m);
    let rows = best_teams_spec(data);
    let n = sorted.len() as int;
    assert(rows[i] == sorted[n - 1 - i]);
    assert(rows[j] == sorted[n - 1 - j]);
    assert(<(String, WinRatio) as SortOrd>::le_key(sorted[n - 1 - j], sorted[n - 1 - i]));
    assert(rows[j].1.cmp_spec(rows[i].1) != Ordering::Greater);
    lemma_winratio_order_flip(rows[i].1, rows[j].1);
    lemma_winratio_order_flip(rows[j].1, rows[i].1);
}

} // verus!
