//! Shared helpers for the analyzers: subset enumeration over a roster and
//! the resolution of a roster to the heroes its members played.

use crate::heroes_info::{find_hero, hero_view, Hero, HeroesInfo};
use crate::match_stats::{player_hero_from, Match, PlayerName};
use crate::orders::{sort_spec, stable_sort, views_of};
use vstd::prelude::*;

verus! {

broadcast use crate::orders::lemma_deep_view_views;

/// A resolved roster member at the contract level: the player's name and
/// their hero's name and role tags.
pub type SetupEntryView = (Seq<char>, (Seq<char>, Seq<Seq<char>>));

/// The contract-level reading of a resolved roster.
pub open spec fn setup_view(s: Seq<(String, Hero)>) -> Seq<SetupEntryView> {
    s.map_values(|p: (String, Hero)| (p.0@, hero_view(p.1)))
}

/// The (player name, hero name) pairs of a resolved setup.
pub open spec fn pairs_of(sv: Seq<SetupEntryView>) -> Seq<(Seq<char>, Seq<char>)> {
    sv.map_values(|e: SetupEntryView| (e.0, e.1.0))
}

pub open spec fn opt_prepend<X>(p: Seq<X>, o: Option<Seq<X>>) -> Option<Seq<X>> {
    match o {
        Some(rest) => Some(p + rest),
        None => None,
    }
}

/// The resolved setup for the given names, or nothing as soon as any
/// player's hero or its catalog entry is missing: that skips the whole
/// match for every hero- or role-based analysis.
pub open spec fn setup_from(cat: Seq<(u64, Hero)>, mt: Match, names: Seq<Seq<char>>) -> Option<
    Seq<SetupEntryView>,
>
    decreases names.len(),
{
    if names.len() == 0 {
        Some(Seq::<SetupEntryView>::empty())
    } else {
        match player_hero_from(mt.players_stats@, names[0]) {
            Ok(id) => match find_hero(cat, id) {
                Some(hv) => match setup_from(cat, mt, names.skip(1)) {
                    Some(rest) => Some(seq![(names[0], hv)] + rest),
                    None => None,
                },
                None => None,
            },
            Err(_) => None,
        }
    }
}

/// The full resolution of one match: the roster sorted by name, each
/// member paired with their hero.
pub open spec fn match_setup_spec(cat: Seq<(u64, Hero)>, mt: Match) -> Option<
    Seq<SetupEntryView>,
> {
    match mt.team_spec() {
        Some(team) => setup_from(cat, mt, sort_spec::<String>(team)),
        None => None,
    }
}

/// Resolves the heroes played by the team, sorted by player name; yields
/// nothing when any member's hero cannot be resolved.
pub fn get_heroes(heroes_info: &HeroesInfo, match_: &Match, team: Vec<PlayerName>) -> (r: Option<
    Vec<(PlayerName, Hero)>,
>)
    ensures
        match r {
            Some(setup) => setup_from(
                heroes_info.heroes@,
                *match_,
                sort_spec::<String>(views_of(team@)),
            ) == Some(setup_view(setup@)),
            None => setup_from(
                heroes_info.heroes@,
                *match_,
                sort_spec::<String>(views_of(team@)),
            ) is None,
        },
{
    let ghost cat = heroes_info.heroes@;
    let sorted = stable_sort(team);
    let ghost sv = sort_spec::<String>(views_of(team@));
    proof {
        assert(views_of(sorted@) == sv);
    }
    let mut setup: Vec<(PlayerName, Hero)> = Vec::new();
    let n = sorted.len();
    let mut i: usize = 0;
    proof {
        assert(sv.skip(0) =~= sv);
        assert(setup_view(setup@) =~= Seq::<SetupEntryView>::empty());
        assert(setup_from(cat, *match_, sv) == opt_prepend(
            setup_view(setup@),
            setup_from(cat, *match_, sv.skip(0)),
        ));
    }
    while i < n
        invariant
            i <= n,
            n == sorted@.len(),
            views_of(sorted@) == sv,
            sv == sort_spec::<String>(views_of(team@)),
            cat == heroes_info.heroes@,
            setup@.len() == i,
            setup_from(cat, *match_, sv) == opt_prepend(
                setup_view(setup@),
                setup_from(cat, *match_, sv.skip(i as int)),
            ),
        decreases n - i,
    {
        proof {
            assert(sv.skip(i as int)[0] == sv[i as int]);
            assert(sv[i as int] == sorted@[i as int]@);
        }
        let hero_id = match match_.get_player_hero(&sorted[i]) {
            Ok(h) => h,
            Err(_) => {
                proof {
                    assert(sv.skip(i as int).len() > 0);
                    assert(setup_from(cat, *match_, sv.skip(i as int)) is None);
                }
                return None;
            },
        };
        let hero = match heroes_info.get_hero(hero_id) {
            Some(h) => h,
            None => {
                proof {
                    assert(sv.skip(i as int).len() > 0);
                    assert(setup_from(cat, *match_, sv.skip(i as int)) is None);
                }
                return None;
            },
        };
        let ghost before = setup@;
        let ghost hv = hero_view(hero);
        setup.push((sorted[i].clone(), hero));
        proof {
            assert(sv.skip(i as int).skip(1) =~= sv.skip(i + 1));
            assert(setup_from(cat, *match_, sv.skip(i as int)) == opt_prepend(
                seq![(sv[i as int], hv)],
                setup_from(cat, *match_, sv.skip(i + 1)),
            ));
            assert forall|k: int| 0 <= k < i + 1 implies #[trigger] setup_view(setup@)[k] == (
            setup_view(before) + seq![(sv[i as int], hv)])[k] by {
                assert(setup_view(setup@)[k] == (setup@[k].0@, hero_view(setup@[k].1)));
                if k < i {
                    assert(setup@[k] == before[k]);
                    assert(setup_view(before)[k] == (before[k].0@, hero_view(before[k].1)));
                }
            }
            assert(setup_view(setup@) =~= setup_view(before) + seq![(sv[i as int], hv)]);
            match setup_from(cat, *match_, sv.skip(i + 1)) {
                Some(rest) => {
                    assert((setup_view(before) + (seq![(sv[i as int], hv)] + rest)) =~= (
                    setup_view(setup@) + rest));
                },
                None => {},
            }
        }
        i = i + 1;
    }
    proof {
        assert(sv.skip(n as int).len() == 0);
        assert(setup_from(cat, *match_, sv.skip(n as int)) == Some(Seq::<SetupEntryView>::empty()));
        assert(setup_view(setup@) + Seq::<SetupEntryView>::empty() =~= setup_view(setup@));
    }
    Some(setup)
}

/// An element that can be duplicated without changing its view.
pub trait CloneVal: DeepView + Sized {
    fn clone_val(&self) -> (r: Self)
        ensures
            r.deep_view() == self.deep_view(),
    ;
}

impl CloneVal for String {
    fn clone_val(&self) -> (r: String) {
        self.clone()
    }
}

impl CloneVal for (String, String) {
    fn clone_val(&self) -> (r: (String, String)) {
        (self.0.clone(), self.1.clone())
    }
}

/// All combinations of `k` elements in positional order: the groups that
/// contain the first element come first, as a nested enumeration produces
/// them.
pub open spec fn combos_spec<T>(s: Seq<T>, k: int) -> Seq<Seq<T>>
    decreases s.len(),
{
    if k <= 0 {
        seq![Seq::<T>::empty()]
    } else if s.len() == 0 {
        Seq::<Seq<T>>::empty()
    } else {
        combos_spec(s.skip(1), k - 1).map_values(|c: Seq<T>| seq![s[0]] + c) + combos_spec(
            s.skip(1),
            k,
        )
    }
}

/// The combinations of every size from `lo` up to but excluding `hi`,
/// smaller sizes first.
pub open spec fn combos_range<T>(s: Seq<T>, lo: int, hi: int) -> Seq<Seq<T>>
    decreases hi - lo,
{
    if lo >= hi {
        Seq::<Seq<T>>::empty()
    } else {
        combos_spec(s, lo) + combos_range(s, lo + 1, hi)
    }
}

/// The views of a sequence of enumerated groups.
pub open spec fn subs_of<T: DeepView>(s: Seq<Vec<T>>) -> Seq<Seq<T::V>> {
    s.map_values(|c: Vec<T>| c.deep_view())
}

pub proof fn lemma_combos_range_snoc<T>(s: Seq<T>, lo: int, hi: int)
    requires
        lo <= hi,
    ensures
        combos_range(s, lo, hi + 1) == combos_range(s, lo, hi) + combos_spec(s, hi),
    decreases hi - lo,
{
    if lo == hi {
        assert(combos_range(s, lo + 1, hi + 1) =~= Seq::<Seq<T>>::empty());
        assert(combos_range(s, lo, hi) =~= Seq::<Seq<T>>::empty());
        assert(combos_range(s, lo, hi + 1) =~= combos_range(s, lo, hi) + combos_spec(s, hi));
    } else {
        lemma_combos_range_snoc(s, lo + 1, hi);
        assert(combos_range(s, lo, hi + 1) == combos_spec(s, lo) + combos_range(s, lo + 1, hi + 1));
        assert(combos_range(s, lo, hi) == combos_spec(s, lo) + combos_range(s, lo + 1, hi));
        assert(combos_range(s, lo, hi + 1) =~= combos_range(s, lo, hi) + combos_spec(s, hi));
    }
}

/// Enumerates all combinations of `k` of the elements, in positional order.
pub fn combinations<T: CloneVal>(v: &Vec<T>, k: usize) -> (r: Vec<Vec<T>>)
    ensures
        subs_of(r@) == combos_spec(views_of(v@), k as int),
    decreases v@.len(),
{
    let mut r: Vec<Vec<T>> = Vec::new();
    if k == 0 {
        let e: Vec<T> = Vec::new();
        r.push(e);
        proof {
            assert(subs_of(r@) =~~= combos_spec(views_of(v@), 0));
        }
        return r;
    }
    if v.len() == 0 {
        proof {
            assert(views_of(v@).len() == 0);
            assert(subs_of(r@) =~~= combos_spec(views_of(v@), k as int));
        }
        return r;
    }
    let mut rest: Vec<T> = Vec::new();
    let mut i: usize = 1;
    while i < v.len()
        invariant
            1 <= i <= v@.len(),
            rest@.len() == i - 1,
            forall|j: int| 0 <= j < i - 1 ==> views_of(rest@)[j] == views_of(v@)[j + 1],
        decreases v@.len() - i,
    {
        let ghost rb = rest@;
        rest.push(v[i].clone_val());
        proof {
            assert forall|j: int| 0 <= j < i implies #[trigger] views_of(rest@)[j] == views_of(
                v@,
            )[j + 1] by {
                assert(views_of(rest@)[j] == rest@[j].deep_view());
                assert(views_of(v@)[j + 1] == v@[j + 1].deep_view());
                if j < i - 1 {
                    assert(views_of(rb)[j] == views_of(v@)[j + 1]);
                    assert(views_of(rb)[j] == rb[j].deep_view());
                    assert(rest@[j] == rb[j]);
                } else {
                    assert(rest@[j].deep_view() == v@[i as int].deep_view());
                }
            }
        }
        i = i + 1;
    }
    proof {
        assert(views_of(rest@) =~= views_of(v@).skip(1));
    }
    let ghost dv = views_of(v@);
    let ghost mapped = combos_spec(dv.skip(1), (k - 1) as int).map_values(
        |c: Seq<T::V>| seq![dv[0]] + c,
    );
    let mut ft = combinations(&rest, k - 1);
    let ghost ft0 = subs_of(ft@);
    while ft.len() > 0
        invariant
            ft@.len() <= ft0.len(),
            subs_of(ft@) =~~= ft0.skip(ft0.len() - ft@.len()),
            ft0 == combos_spec(dv.skip(1), (k - 1) as int),
            mapped == combos_spec(dv.skip(1), (k - 1) as int).map_values(
                |c: Seq<T::V>| seq![dv[0]] + c,
            ),
            dv == views_of(v@),
            dv.len() > 0,
            r@.len() == ft0.len() - ft@.len(),
            subs_of(r@) =~~= mapped.take(ft0.len() - ft@.len()),
        decreases ft@.len(),
    {
        let ghost done = ft0.len() - ft@.len();
        let ghost ft_before = ft@;
        let tail = ft.remove(0);
        proof {
            assert(tail.deep_view() == subs_of(ft_before)[0]);
            assert(subs_of(ft_before)[0] == ft0[done]);
            assert forall|j: int| 0 <= j < ft@.len() implies #[trigger] subs_of(ft@)[j] == ft0[
                done + 1 + j
            ] by {
                assert(ft@[j] == ft_before[j + 1]);
                assert(subs_of(ft_before)[j + 1] == ft0[done + j + 1]);
            }
            assert(subs_of(ft@) =~~= ft0.skip(done + 1));
        }
        let mut c: Vec<T> = Vec::new();
        c.push(v[0].clone_val());
        let mut t = tail;
        c.append(&mut t);
        r.push(c);
        proof {
            assert(c.deep_view() =~= seq![dv[0]] + ft0[done]);
            assert(mapped[done] == seq![dv[0]] + ft0[done]);
            assert(subs_of(r@) =~~= mapped.take(done + 1));
        }
    }
    proof {
        assert(mapped.take(ft0.len() as int) =~~= mapped);
    }
    let mut without = combinations(&rest, k);
    let ghost r_before = r@;
    let ghost w0 = without@;
    r.append(&mut without);
    proof {
        assert(subs_of(r@) =~~= subs_of(r_before) + subs_of(w0));
        assert(combos_spec(dv, k as int) == mapped + combos_spec(dv.skip(1), k as int));
        assert(subs_of(r@) =~~= combos_spec(dv, k as int));
    }
    r
}

} // verus!
