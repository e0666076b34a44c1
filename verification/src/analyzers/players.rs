//! Per-player-setup win ratios: every non-empty sub-roster, keyed by the
//! sorted list of member names.

use crate::accmap::{
    entries_view, fold_scores, get_spec, key_count, lemma_bump_n_exact, lemma_fold_scores_snoc,
    lemma_get_fold_scores, lemma_key_count_nonneg, upsert_score,
};
use crate::analyzers::analyzers_utils::{
    combinations, combos_range, lemma_combos_range_snoc, subs_of,
};
use crate::analyzers::winratio::WinRatio;
use crate::match_stats::{Match, PlayerName};
use crate::orders::{sort_spec, stable_sort, views_of};
use vstd::prelude::*;

verus! {

broadcast use crate::orders::lemma_deep_view_views;

/// The keys one match contributes: every non-empty sub-roster, as the list
/// of its members in sorted-name order.
pub open spec fn player_keys_spec(team: Seq<Seq<char>>) -> Seq<Seq<Seq<char>>> {
    let sorted = sort_spec::<String>(team);
    combos_range(sorted, 1, sorted.len() as int + 1)
}

/// The accumulated scores after one more match; a match whose roster or
/// outcome cannot be read contributes nothing.
pub open spec fn players_step(
    m: Seq<(Seq<Seq<char>>, WinRatio)>,
    mt: Match,
) -> Seq<(Seq<Seq<char>>, WinRatio)> {
    match (mt.team_spec(), mt.is_won_spec()) {
        (Some(team), Ok(won)) => fold_scores(m, player_keys_spec(team), won),
        _ => m,
    }
}

/// The score map accumulated over the corpus, in first-seen key order.
pub open spec fn players_wr_spec(data: Seq<Match>) -> Seq<(Seq<Seq<char>>, WinRatio)>
    decreases data.len(),
{
    if data.len() == 0 {
        Seq::empty()
    } else {
        players_step(players_wr_spec(data.drop_last()), data.last())
    }
}

/// Computes the win ratio of each player setup: every non-empty sub-roster
/// over the corpus, in first-seen order.
pub fn get_players_wr(matches: &Vec<Match>) -> (r: Vec<(Vec<PlayerName>, WinRatio)>)
    ensures
        entries_view(r@) == players_wr_spec(matches@),
{
    let mut score: Vec<(Vec<PlayerName>, WinRatio)> = Vec::new();
    let n = matches.len();
    let mut i: usize = 0;
    proof {
        assert(matches@.take(0) =~= Seq::<Match>::empty());
        assert(entries_view(score@) =~= players_wr_spec(matches@.take(0)));
    }
    while i < n
        invariant
            i <= n,
            n == matches@.len(),
            entries_view(score@) == players_wr_spec(matches@.take(i as int)),
        decreases n - i,
    {
        let mt = &matches[i];
        proof {
            assert(matches@.take(i + 1).drop_last() =~= matches@.take(i as int));
            assert(matches@.take(i + 1).last() == matches@[i as int]);
        }
        let team_r = mt.get_team();
        let won_r = mt.is_won();
        match (team_r, won_r) {
            (Ok(team), Ok(won)) => {
                accumulate_match_subsets(&mut score, team, won);
            },
            _ => {},
        }
        i = i + 1;
    }
    proof {
        assert(matches@.take(n as int) =~= matches@);
    }
    score
}

/// Records one match outcome under every non-empty sub-roster key.
fn accumulate_match_subsets(
    score: &mut Vec<(Vec<PlayerName>, WinRatio)>,
    team: Vec<PlayerName>,
    won: bool,
)
    ensures
        entries_view(final(score)@) == fold_scores(
            entries_view(old(score)@),
            player_keys_spec(team.deep_view()),
            won,
        ),
{
    let ghost start = entries_view(old(score)@);
    let sorted = stable_sort(team);
    let ghost sv = sort_spec::<String>(team.deep_view());
    proof {
        assert(views_of(sorted@) == sv);
    }
    let n_t = sorted.len();
    let mut subsets: Vec<Vec<String>> = Vec::new();
    proof {
        assert(subs_of(subsets@) =~~= combos_range(sv, 1, 1));
    }
    if n_t >= 1 {
        let mut c: usize = 0;
        while c <= n_t - 1
            invariant
                n_t == sv.len(),
                n_t >= 1,
                c + 1 <= n_t + 1,
                sv == sort_spec::<String>(team.deep_view()),
                views_of(sorted@) == sv,
                subs_of(subsets@) == combos_range(sv, 1, c + 1),
            decreases n_t - c,
        {
            let k = c + 1;
            let mut cs = combinations(&sorted, k);
            let ghost before = subsets@;
            let ghost cs0 = cs@;
            subsets.append(&mut cs);
            proof {
                assert(subs_of(subsets@) =~~= subs_of(before) + subs_of(cs0));
                lemma_combos_range_snoc(sv, 1, k as int);
                assert(subs_of(subsets@) =~~= combos_range(sv, 1, k + 1));
            }
            c = c + 1;
        }
        proof {
            assert(c == n_t);
            assert(subs_of(subsets@) == combos_range(sv, 1, n_t + 1));
        }
    } else {
        proof {
            assert(combos_range(sv, 1, sv.len() as int + 1) =~~= Seq::<Seq<Seq<char>>>::empty());
            assert(subs_of(subsets@) =~~= combos_range(sv, 1, sv.len() as int + 1));
        }
    }
    let ghost keys = player_keys_spec(team.deep_view());
    proof {
        assert(keys == subs_of(subsets@));
        assert(keys.take(0) =~= Seq::<Seq<Seq<char>>>::empty());
    }
    let ghost m0 = subsets@.len();
    let mut rem = subsets;
    while rem.len() > 0
        invariant
            rem@.len() <= m0,
            keys.len() == m0,
            forall|j: int| 0 <= j < rem@.len() ==> subs_of(rem@)[j] == keys[m0 - rem@.len() + j],
            entries_view(score@) == fold_scores(start, keys.take(m0 - rem@.len()), won),
        decreases rem@.len(),
    {
        let ghost done = m0 - rem@.len();
        let ghost rem_before = rem@;
        let sub = rem.remove(0);
        proof {
            assert(subs_of(rem_before)[0] == sub.deep_view());
            assert(sub.deep_view() == keys[done]);
            assert forall|j: int| 0 <= j < rem@.len() implies #[trigger] subs_of(rem@)[j] == keys[
                done + 1 + j
            ] by {
                assert(rem@[j] == rem_before[j + 1]);
                assert(subs_of(rem_before)[j + 1] == keys[done + j + 1]);
            }
        }
        upsert_score(score, sub, won);
        proof {
            lemma_fold_scores_snoc(start, keys.take(done), keys[done], won);
            assert(keys.take(done).push(keys[done]) =~= keys.take(done + 1));
        }
    }
    proof {
        assert(keys.take(m0 as int) =~= keys);
    }
}


/// Law: two runs over the same corpus return the same map.
pub proof fn lemma_players_wr_deterministic(
    r1: Seq<(Seq<Seq<char>>, WinRatio)>,
    r2: Seq<(Seq<Seq<char>>, WinRatio)>,
    data: Seq<Match>,
)
    requires
        r1 == players_wr_spec(data),
        r2 == players_wr_spec(data),
    ensures
        r1 == r2,
{
}

/// Law: a match whose roster or outcome cannot be read contributes to no
/// subset; appending it to a corpus leaves the map unchanged.
pub proof fn lemma_players_wr_skips_unusable(data: Seq<Match>, mt: Match)
    requires
        mt.team_spec() is None || !(mt.is_won_spec() is Ok),
    ensures
        players_wr_spec(data.push(mt)) == players_wr_spec(data),
{
    assert(data.push(mt).drop_last() =~= data);
    assert(data.push(mt).last() == mt);
}


/// The winning contributions the corpus makes to the setup key `k`.
pub open spec fn players_win_count(data: Seq<Match>, k: Seq<Seq<char>>) -> int
    decreases data.len(),
{
    if data.len() == 0 {
        0
    } else {
        players_win_count(data.drop_last(), k) + (match (
            data.last().team_spec(),
            data.last().is_won_spec(),
        ) {
            (Some(team), Ok(won)) => if won {
                key_count(player_keys_spec(team), k)
            } else {
                0int
            },
            _ => 0int,
        })
    }
}

/// The losing contributions, counted the same way.
pub open spec fn players_loss_count(data: Seq<Match>, k: Seq<Seq<char>>) -> int
    decreases data.len(),
{
    if data.len() == 0 {
        0
    } else {
        players_loss_count(data.drop_last(), k) + (match (
            data.last().team_spec(),
            data.last().is_won_spec(),
        ) {
            (Some(team), Ok(won)) => if won {
                0int
            } else {
                key_count(player_keys_spec(team), k)
            },
            _ => 0int,
        })
    }
}

proof fn lemma_players_counts_nonneg(data: Seq<Match>, k: Seq<Seq<char>>)
    ensures
        players_win_count(data, k) >= 0,
        players_loss_count(data, k) >= 0,
    decreases data.len(),
{
    if data.len() > 0 {
        lemma_players_counts_nonneg(data.drop_last(), k);
        match (data.last().team_spec(), data.last().is_won_spec()) {
            (Some(team), Ok(_)) => {
                lemma_key_count_nonneg(player_keys_spec(team), k);
            },
            _ => {},
        }
    }
}

/// Law: while the counters have room, each setup's record holds exactly
/// the number of won and lost matches in which it was enumerated.
pub proof fn lemma_players_counting(data: Seq<Match>, k: Seq<Seq<char>>)
    requires
        players_win_count(data, k) + players_loss_count(data, k) <= u32::MAX,
    ensures
        players_win_count(data, k) + players_loss_count(data, k) > 0 ==> get_spec(
            players_wr_spec(data),
            k,
        ) == Some(
            WinRatio {
                wins: players_win_count(data, k) as u32,
                looses: players_loss_count(data, k) as u32,
            },
        ),
        players_win_count(data, k) + players_loss_count(data, k) == 0 ==> get_spec(
            players_wr_spec(data),
            k,
        ) is None,
    decreases data.len(),
{
    lemma_players_counts_nonneg(data, k);
    if data.len() > 0 {
        let d = data.drop_last();
        let m = data.last();
        lemma_players_counts_nonneg(d, k);
        match (m.team_spec(), m.is_won_spec()) {
            (Some(team), Ok(won)) => {
                lemma_key_count_nonneg(player_keys_spec(team), k);
                lemma_players_counting(d, k);
                let prev = players_wr_spec(d);
                lemma_get_fold_scores(prev, player_keys_spec(team), won, k);
                lemma_bump_n_exact(get_spec(prev, k), key_count(player_keys_spec(team), k), won);
            },
            _ => {
                lemma_players_counting(d, k);
            },
        }
    }
}

} // verus!
