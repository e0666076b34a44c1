//! The hero catalog: display name and role tags for each hero id, loaded
//! from the JSON text of an externally maintained constants file.

use crate::orders::views_of;
use crate::strutil::{parse_u64, parse_u64_spec};
use vstd::prelude::*;

verus! {

broadcast use crate::orders::lemma_deep_view_views;

/// Hero data relevant for the analyses.
#[derive(Debug, Clone)]
pub struct Hero {
    pub name: String,
    pub roles: Vec<String>,
}

/// Why the catalog could not be built.  A catalog failure aborts the whole
/// analysis that needs it; it is a configuration fault, not match data.
#[derive(Debug, Clone, Copy, PartialEq, Eq, Structural)]
pub enum CatalogError {
    /// The source text is not JSON.
    Unreadable,
    /// The top level is not an object.
    NotAnObject,
    /// A key is not a positive integer.
    BadHeroId,
    /// An entry has no string `localized_name`.
    MissingName,
    /// An entry has no array `roles`.
    MissingRoles,
    /// A role entry is not a string.
    BadRole,
}

/// A hero as the contracts see it: display name and role tags.
pub open spec fn hero_view(h: Hero) -> (Seq<char>, Seq<Seq<char>>) {
    (h.name@, views_of(h.roles@))
}

/// The first catalog entry with the given id, if any.
pub open spec fn find_hero(entries: Seq<(u64, Hero)>, id: u64) -> Option<
    (Seq<char>, Seq<Seq<char>>),
>
    decreases entries.len(),
{
    if entries.len() == 0 {
        None
    } else if entries[0].0 == id {
        Some(hero_view(entries[0].1))
    } else {
        find_hero(entries.skip(1), id)
    }
}

/// Ids are positive and appear once each.
pub open spec fn entries_wf(s: Seq<(u64, Hero)>) -> bool {
    &&& forall|i: int| 0 <= i < s.len() ==> (#[trigger] s[i]).0 > 0
    &&& forall|i: int, j: int| 0 <= i < j < s.len() ==> s[i].0 != s[j].0
}

/// The catalog: hero id to hero, in catalog order.
pub struct HeroesInfo {
    pub heroes: Vec<(u64, Hero)>,
}

fn clone_hero(h: &Hero) -> (r: Hero)
    ensures
        hero_view(r) == hero_view(*h),
{
    let mut roles: Vec<String> = Vec::new();
    let mut i: usize = 0;
    while i < h.roles.len()
        invariant
            i <= h.roles@.len(),
            roles@.len() == i,
            forall|k: int| 0 <= k < i ==> views_of(roles@)[k] == views_of(h.roles@)[k],
        decreases h.roles@.len() - i,
    {
        let ghost before = roles@;
        roles.push(h.roles[i].clone());
        proof {
            assert forall|k: int| 0 <= k < i + 1 implies #[trigger] views_of(roles@)[k] == views_of(
                h.roles@,
            )[k] by {
                assert(views_of(roles@)[k] == roles@[k]@);
                assert(views_of(h.roles@)[k] == h.roles@[k]@);
                if k < i {
                    assert(roles@[k] == before[k]);
                    assert(views_of(before)[k] == before[k]@);
                    assert(views_of(before)[k] == views_of(h.roles@)[k]);
                }
            }
        }
        i = i + 1;
    }
    proof {
        assert(views_of(roles@) =~= views_of(h.roles@));
    }
    Hero { name: h.name.clone(), roles }
}

proof fn lemma_find_at(s: Seq<(u64, Hero)>, id: u64, i: int)
    requires
        0 <= i < s.len(),
        forall|k: int| 0 <= k < i ==> (#[trigger] s[k]).0 != id,
        s[i].0 == id,
    ensures
        find_hero(s, id) == Some(hero_view(s[i].1)),
    decreases i,
{
    if i > 0 {
        assert(forall|k: int| 0 <= k < i - 1 ==> (#[trigger] s.skip(1)[k]).0 != id);
        lemma_find_at(s.skip(1), id, i - 1);
    }
}

proof fn lemma_find_absent(s: Seq<(u64, Hero)>, id: u64)
    requires
        forall|k: int| 0 <= k < s.len() ==> (#[trigger] s[k]).0 != id,
    ensures
        find_hero(s, id) is None,
    decreases s.len(),
{
    if s.len() > 0 {
        assert(forall|k: int| 0 <= k < s.skip(1).len() ==> (#[trigger] s.skip(1)[k]).0 != id);
        lemma_find_absent(s.skip(1), id);
    }
}

impl HeroesInfo {
    /// Well-formed: every id positive, no id twice.
    pub open spec fn wf(self) -> bool {
        entries_wf(self.heroes@)
    }

    /// Looks a hero up by id; callers skip the match at hand when the
    /// catalog has no entry for it.
    pub fn get_hero(&self, hero_id: u64) -> (r: Option<Hero>)
        ensures
            match r {
                Some(h) => find_hero(self.heroes@, hero_id) == Some(hero_view(h)),
                None => find_hero(self.heroes@, hero_id) is None,
            },
    {
        let n = self.heroes.len();
        let mut i: usize = 0;
        while i < n
            invariant
                i <= n,
                n == self.heroes@.len(),
                forall|k: int| 0 <= k < i ==> (#[trigger] self.heroes@[k]).0 != hero_id,
            decreases n - i,
        {
            if self.heroes[i].0 == hero_id {
                let h = clone_hero(&self.heroes[i].1);
                proof {
                    lemma_find_at(self.heroes@, hero_id, i as int);
                }
                return Some(h);
            }
            i = i + 1;
        }
        proof {
            lemma_find_absent(self.heroes@, hero_id);
        }
        None
    }

    /// Builds the catalog from the constants file's JSON text.  Succeeds
    /// exactly on a JSON object whose every member has a positive
    /// `u64`-parsable key, a string `localized_name` and an all-string
    /// `roles` array; the catalog then holds the fold of the members in
    /// order, a later key replacing an earlier equal one.  Anything else
    /// yields the descriptive error of the first offence.
    pub fn init(heroes_json: &str) -> (r: Result<HeroesInfo, CatalogError>)
        ensures
            match r {
                Ok(c) => c.wf() && (match crate::jsonval::catalog_entries_of(heroes_json@) {
                    Some(Some(entries)) => catalog_fold(entries, Seq::empty()) == Ok::<
                        Seq<(u64, HeroView)>,
                        CatalogError,
                    >(cat_view(c.heroes@)),
                    _ => false,
                }),
                Err(e) => match crate::jsonval::catalog_entries_of(heroes_json@) {
                    None => e == CatalogError::Unreadable,
                    Some(None) => e == CatalogError::NotAnObject,
                    Some(Some(entries)) => catalog_fold(entries, Seq::empty()) == Err::<
                        Seq<(u64, HeroView)>,
                        CatalogError,
                    >(e),
                },
            },
    {
        let entries = match crate::jsonval::parse_catalog(heroes_json) {
            None => {
                return Err(CatalogError::Unreadable);
            },
            Some(None) => {
                return Err(CatalogError::NotAnObject);
            },
            Some(Some(v)) => v,
        };
        let ghost ev = entries@.map_values(|e: crate::jsonval::RawEntry| crate::jsonval::raw_entry_view(e));
        proof {
            assert(crate::jsonval::catalog_entries_of(heroes_json@) == Some(Some(ev)));
        }
        let mut heroes: Vec<(u64, Hero)> = Vec::new();
        let ghost m0 = entries@.len();
        let mut rem = entries;
        proof {
            assert(ev.skip(0) =~= ev);
            assert(cat_view(heroes@) =~= Seq::<(u64, HeroView)>::empty());
        }
        while rem.len() > 0
            invariant
                rem@.len() <= m0,
                ev.len() == m0,
                crate::jsonval::catalog_entries_of(heroes_json@) == Some(Some(ev)),
                forall|j: int|
                    0 <= j < rem@.len() ==> #[trigger] crate::jsonval::raw_entry_view(rem@[j])
                        == ev[m0 - rem@.len() + j],
                entries_wf(heroes@),
                catalog_fold(ev, Seq::empty()) == catalog_fold(
                    ev.skip(m0 - rem@.len()),
                    cat_view(heroes@),
                ),
            decreases rem@.len(),
        {
            let ghost done = m0 - rem@.len();
            let ghost rem_before = rem@;
            let e = rem.remove(0);
            proof {
                assert(crate::jsonval::raw_entry_view(rem_before[0]) == ev[done]);
                assert forall|j: int|
                    0 <= j < rem@.len() implies #[trigger] crate::jsonval::raw_entry_view(
                    rem@[j],
                ) == ev[done + 1 + j] by {
                    assert(rem@[j] == rem_before[j + 1]);
                    assert(crate::jsonval::raw_entry_view(rem_before[j + 1]) == ev[done + j + 1]);
                }
                assert(ev.skip(done)[0] == ev[done]);
                assert(ev.skip(done).skip(1) =~= ev.skip(done + 1));
            }
            let ghost acc_before = cat_view(heroes@);
            match hero_entry_from_parts(&e.0, e.1, e.2) {
                Ok(p) => {
                    let ghost hv = hero_view(p.1);
                    proof {
                        assert(parts_result(parse_u64_spec(ev[done].0), ev[done].1, ev[done].2)
                            == Ok::<(u64, HeroView), CatalogError>((p.0, hv)));
                    }
                    insert_hero(&mut heroes, p.0, p.1);
                    proof {
                        assert(cat_view(heroes@) == put_entry(acc_before, p.0, hv));
                        assert(catalog_fold(ev.skip(done), acc_before) == catalog_fold(
                            ev.skip(done + 1),
                            put_entry(acc_before, p.0, hv),
                        ));
                    }
                },
                Err(err) => {
                    proof {
                        assert(parts_result(parse_u64_spec(ev[done].0), ev[done].1, ev[done].2)
                            == Err::<(u64, HeroView), CatalogError>(err));
                        assert(catalog_fold(ev.skip(done), acc_before) == Err::<
                            Seq<(u64, HeroView)>,
                            CatalogError,
                        >(err));
                    }
                    return Err(err);
                },
            }
        }
        proof {
            assert(ev.skip(m0 as int).len() == 0);
            assert(catalog_fold(ev.skip(m0 as int), cat_view(heroes@)) == Ok::<
                Seq<(u64, HeroView)>,
                CatalogError,
            >(cat_view(heroes@)));
        }
        Ok(HeroesInfo { heroes })
    }
}

/// A hero at the contract level: display name and role tags.
pub type HeroView = (Seq<char>, Seq<Seq<char>>);

/// The catalog content at the contract level.
pub open spec fn cat_view(s: Seq<(u64, Hero)>) -> Seq<(u64, HeroView)> {
    s.map_values(|p: (u64, Hero)| (p.0, hero_view(p.1)))
}

/// The catalog with the first entry for `id` replaced, or a fresh entry
/// appended at the back.
pub open spec fn put_entry(m: Seq<(u64, HeroView)>, id: u64, h: HeroView) -> Seq<(u64, HeroView)>
    decreases m.len(),
{
    if m.len() == 0 {
        seq![(id, h)]
    } else if m[0].0 == id {
        seq![(m[0].0, h)] + m.skip(1)
    } else {
        seq![m[0]] + put_entry(m.skip(1), id, h)
    }
}

proof fn lemma_put_entry_at(m: Seq<(u64, HeroView)>, id: u64, h: HeroView, i: int)
    requires
        0 <= i < m.len(),
        forall|k: int| 0 <= k < i ==> m[k].0 != id,
        m[i].0 == id,
    ensures
        put_entry(m, id, h) == m.update(i, (m[i].0, h)),
    decreases i,
{
    if i == 0 {
        assert(put_entry(m, id, h) =~= m.update(0, (m[0].0, h)));
    } else {
        assert(forall|k: int| 0 <= k < i - 1 ==> m.skip(1)[k].0 != id);
        lemma_put_entry_at(m.skip(1), id, h, i - 1);
        assert(put_entry(m, id, h) =~= m.update(i, (m[i].0, h)));
    }
}

proof fn lemma_put_entry_absent(m: Seq<(u64, HeroView)>, id: u64, h: HeroView)
    requires
        forall|k: int| 0 <= k < m.len() ==> m[k].0 != id,
    ensures
        put_entry(m, id, h) == m.push((id, h)),
    decreases m.len(),
{
    if m.len() > 0 {
        assert(forall|k: int| 0 <= k < m.skip(1).len() ==> m.skip(1)[k].0 != id);
        lemma_put_entry_absent(m.skip(1), id, h);
        assert(put_entry(m, id, h) =~= m.push((id, h)));
    } else {
        assert(put_entry(m, id, h) =~= m.push((id, h)));
    }
}

/// The whole catalog build at the contract level: each raw member
/// validated in order, the first offence aborting with its error, a
/// passing member filed under its id with a later entry replacing an
/// earlier equal id.
pub open spec fn catalog_fold(
    entries: Seq<crate::jsonval::RawEntryView>,
    acc: Seq<(u64, HeroView)>,
) -> Result<Seq<(u64, HeroView)>, CatalogError>
    decreases entries.len(),
{
    if entries.len() == 0 {
        Ok(acc)
    } else {
        match parts_result(parse_u64_spec(entries[0].0), entries[0].1, entries[0].2) {
            Ok(p) => catalog_fold(entries.skip(1), put_entry(acc, p.0, p.1)),
            Err(e) => Err(e),
        }
    }
}

/// The exact validation rule for one raw catalog entry, over the values the
/// JSON layer handed out.
pub open spec fn parts_result(
    id: Option<u64>,
    name: Option<Seq<char>>,
    roles: Option<Seq<Option<Seq<char>>>>,
) -> Result<(u64, HeroView), CatalogError> {
    match id {
        None => Err(CatalogError::BadHeroId),
        Some(i) => if i == 0 {
            Err(CatalogError::BadHeroId)
        } else {
            match name {
                None => Err(CatalogError::MissingName),
                Some(nm) => match roles {
                    None => Err(CatalogError::MissingRoles),
                    Some(rs) => if exists|k: int| 0 <= k < rs.len() && rs[k] is None {
                        Err(CatalogError::BadRole)
                    } else {
                        Ok(
                            (
                                i,
                                (
                                    nm,
                                    rs.map_values(
                                        |o: Option<Seq<char>>|
                                            match o {
                                                Some(s) => s,
                                                None => Seq::<char>::empty(),
                                            },
                                    ),
                                ),
                            ),
                        )
                    },
                },
            }
        },
    }
}

/// Validates one raw catalog entry handed over as plain values.
pub fn hero_entry_from_parts(
    id_text: &String,
    name: Option<String>,
    roles: Option<Vec<Option<String>>>,
) -> (r: Result<(u64, Hero), CatalogError>)
    ensures
        match r {
            Ok(p) => parts_result(parse_u64_spec(id_text@), crate::jsonval::raw_str_view(name), crate::jsonval::raw_roles_view(roles))
                == Ok::<_, CatalogError>((p.0, hero_view(p.1))) && p.0 > 0,
            Err(e) => parts_result(
                parse_u64_spec(id_text@),
                crate::jsonval::raw_str_view(name),
                crate::jsonval::raw_roles_view(roles),
            ) == Err::<(u64, HeroView), _>(e),
        },
{
    let id = match parse_u64(id_text.as_str()) {
        Some(v) => v,
        None => {
            return Err(CatalogError::BadHeroId);
        },
    };
    if id == 0 {
        return Err(CatalogError::BadHeroId);
    }
    let nm = match name {
        Some(s) => s,
        None => {
            return Err(CatalogError::MissingName);
        },
    };
    let rs = match roles {
        Some(v) => v,
        None => {
            return Err(CatalogError::MissingRoles);
        },
    };
    let ghost rsv = crate::jsonval::raw_roles_view(Some(rs)).unwrap();
    let mut role_names: Vec<String> = Vec::new();
    let n = rs.len();
    let mut i: usize = 0;
    while i < n
        invariant
            i <= n,
            n == rs@.len(),
            parse_u64_spec(id_text@) == Some(id),
            id != 0,
            crate::jsonval::raw_str_view(name) == Some(nm@),
            crate::jsonval::raw_roles_view(roles) == Some(rsv),
            rsv == rs@.map_values(|x: Option<String>| crate::jsonval::raw_str_view(x)),
            role_names@.len() == i,
            forall|k: int| 0 <= k < i ==> rsv[k] is Some,
            forall|k: int| 0 <= k < i ==> views_of(role_names@)[k] == rsv[k].unwrap(),
        decreases n - i,
    {
        let ghost before = role_names@;
        match &rs[i] {
            Some(s) => {
                role_names.push(s.clone());
            },
            None => {
                proof {
                    assert(rsv[i as int] is None);
                    assert(exists|k: int| 0 <= k < rsv.len() && rsv[k] is None) by {
                        assert(0 <= i < rsv.len() && rsv[i as int] is None);
                    }
                }
                return Err(CatalogError::BadRole);
            },
        }
        proof {
            assert forall|k: int| 0 <= k < i + 1 implies #[trigger] views_of(role_names@)[k]
                == rsv[k].unwrap() by {
                assert(views_of(role_names@)[k] == role_names@[k]@);
                if k < i {
                    assert(role_names@[k] == before[k]);
                    assert(views_of(before)[k] == before[k]@);
                    assert(views_of(before)[k] == rsv[k].unwrap());
                }
            }
        }
        i = i + 1;
    }
    let hero = Hero { name: nm, roles: role_names };
    proof {
        assert(forall|k: int| 0 <= k < rsv.len() ==> #[trigger] rsv[k] is Some);
        assert(views_of(hero.roles@) =~= rsv.map_values(
            |o: Option<Seq<char>>|
                match o {
                    Some(s) => s,
                    None => Seq::<char>::empty(),
                },
        ));
    }
    Ok((id, hero))
}

/// Replaces the entry with this id, or appends a fresh one; keeps the
/// catalog well-formed.
fn insert_hero(heroes: &mut Vec<(u64, Hero)>, id: u64, hero: Hero)
    requires
        id > 0,
        entries_wf(old(heroes)@),
    ensures
        entries_wf(final(heroes)@),
        cat_view(final(heroes)@) == put_entry(cat_view(old(heroes)@), id, hero_view(hero)),
{
    let ghost hv = hero_view(hero);
    let n = heroes.len();
    let mut i: usize = 0;
    while i < n
        invariant
            i <= n,
            n == heroes@.len(),
            heroes@ == old(heroes)@,
            id > 0,
            hv == hero_view(hero),
            entries_wf(heroes@),
            forall|k: int| 0 <= k < i ==> (#[trigger] heroes@[k]).0 != id,
        decreases n - i,
    {
        if heroes[i].0 == id {
            let _old_entry = heroes.remove(i);
            heroes.insert(i, (id, hero));
            proof {
                let before = old(heroes)@;
                let cv = cat_view(before);
                assert(heroes@.len() == before.len());
                assert forall|a: int| 0 <= a < heroes@.len() && a != i implies #[trigger] heroes@[a]
                    == before[a] by {
                    if a < i {
                        assert(heroes@[a] == before.remove(i as int)[a]);
                        assert(before.remove(i as int)[a] == before[a]);
                    } else {
                        assert(heroes@[a] == before.remove(i as int)[a - 1]);
                        assert(before.remove(i as int)[a - 1] == before[a]);
                    }
                }
                assert(heroes@[i as int] == (id, hero));
                assert forall|a: int| 0 <= a < heroes@.len() implies (#[trigger] heroes@[a]).0
                    == before[a].0 by {
                    if a != i {
                        assert(heroes@[a] == before[a]);
                    } else {
                        assert(before[a].0 == id);
                    }
                }
                assert forall|a: int| 0 <= a < heroes@.len() implies (#[trigger] heroes@[a]).0
                    > 0 by {
                    assert(heroes@[a].0 == before[a].0);
                    assert((#[trigger] before[a]).0 > 0);
                }
                assert forall|a: int, b: int| 0 <= a < b < heroes@.len() implies heroes@[a].0
                    != heroes@[b].0 by {
                    assert(heroes@[a].0 == before[a].0);
                    assert(heroes@[b].0 == before[b].0);
                    assert(before[a].0 != before[b].0);
                }
                assert(forall|k: int| 0 <= k < i ==> (#[trigger] cv[k]).0 != id);
                assert(cv[i as int].0 == id);
                lemma_put_entry_at(cv, id, hv, i as int);
                assert forall|a: int| 0 <= a < heroes@.len() implies #[trigger] cat_view(
                    heroes@,
                )[a] == cv.update(i as int, (cv[i as int].0, hv))[a] by {
                    assert(cat_view(heroes@)[a] == (heroes@[a].0, hero_view(heroes@[a].1)));
                    if a != i {
                        assert(heroes@[a] == before[a]);
                        assert(cv[a] == (before[a].0, hero_view(before[a].1)));
                    }
                }
                assert(cat_view(heroes@) =~= cv.update(i as int, (cv[i as int].0, hv)));
            }
            return;
        }
        i = i + 1;
    }
    let ghost before = heroes@;
    heroes.push((id, hero));
    proof {
        let cv = cat_view(before);
        assert(forall|k: int| 0 <= k < cv.len() ==> (#[trigger] cv[k]).0 != id);
        lemma_put_entry_absent(cv, id, hv);
        assert forall|a: int| 0 <= a < heroes@.len() implies #[trigger] cat_view(heroes@)[a]
            == cv.push((id, hv))[a] by {
            assert(cat_view(heroes@)[a] == (heroes@[a].0, hero_view(heroes@[a].1)));
            if a < before.len() {
                assert(heroes@[a] == before[a]);
                assert(cv[a] == (before[a].0, hero_view(before[a].1)));
            } else {
                assert(heroes@[a] == (id, hero));
            }
        }
        assert(cat_view(heroes@) =~= cv.push((id, hv)));
    }
}

} // verus!
