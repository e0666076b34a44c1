//! Association lists used as insertion-ordered score maps: the accumulator
//! behind every subset analysis.

use crate::analyzers::winratio::WinRatio;
use vstd::prelude::*;

verus! {

/// A key whose executable equality decides equality of the views.
pub trait MapKey: DeepView + Sized {
    fn key_eq(&self, other: &Self) -> (r: bool)
        ensures
            r == (self.deep_view() == other.deep_view()),
    ;
}

impl MapKey for String {
    fn key_eq(&self, other: &String) -> (r: bool) {
        crate::strutil::str_eq(self.as_str(), other.as_str())
    }
}

impl MapKey for u64 {
    fn key_eq(&self, other: &u64) -> (r: bool) {
        self == other
    }
}

impl MapKey for (String, String) {
    fn key_eq(&self, other: &(String, String)) -> (r: bool) {
        crate::strutil::str_eq(self.0.as_str(), other.0.as_str()) && crate::strutil::str_eq(
            self.1.as_str(),
            other.1.as_str(),
        )
    }
}

impl MapKey for (String, u64) {
    fn key_eq(&self, other: &(String, u64)) -> (r: bool) {
        crate::strutil::str_eq(self.0.as_str(), other.0.as_str()) && self.1 == other.1
    }
}

impl MapKey for ((String, String), u64) {
    fn key_eq(&self, other: &((String, String), u64)) -> (r: bool) {
        crate::strutil::str_eq(self.0.0.as_str(), other.0.0.as_str()) && crate::strutil::str_eq(
            self.0.1.as_str(),
            other.0.1.as_str(),
        ) && self.1 == other.1
    }
}

impl<T: MapKey> MapKey for Vec<T> {
    fn key_eq(&self, other: &Vec<T>) -> (r: bool) {
        if self.len() != other.len() {
            proof {
                assert(self.deep_view().len() == self@.len());
                assert(other.deep_view().len() == other@.len());
            }
            return false;
        }
        let n = self.len();
        let mut i: usize = 0;
        while i < n
            invariant
                i <= n,
                n == self@.len(),
                n == other@.len(),
                forall|k: int|
                    0 <= k < i ==> (#[trigger] self@[k]).deep_view() == other@[k].deep_view(),
            decreases n - i,
        {
            if !self[i].key_eq(&other[i]) {
                proof {
                    assert(self.deep_view()[i as int] != other.deep_view()[i as int]);
                }
                return false;
            }
            i = i + 1;
        }
        proof {
            assert(self.deep_view() =~= other.deep_view());
        }
        true
    }
}

/// View of an entry list: each key replaced by its view.
pub open spec fn entries_view<K: DeepView>(s: Seq<(K, WinRatio)>) -> Seq<(K::V, WinRatio)> {
    s.map_values(|p: (K, WinRatio)| (p.0.deep_view(), p.1))
}

/// One more game recorded on a counter; a full counter stays unchanged.
pub open spec fn bump_spec(wr: WinRatio, won: bool) -> WinRatio {
    if wr.total_spec() < u32::MAX {
        if won {
            WinRatio { wins: (wr.wins + 1) as u32, looses: wr.looses }
        } else {
            WinRatio { wins: wr.wins, looses: (wr.looses + 1) as u32 }
        }
    } else {
        wr
    }
}

/// The map after recording one game for `key`: the first entry with that
/// key is bumped, or a fresh entry is appended at the back.
pub open spec fn upsert_spec<KV>(m: Seq<(KV, WinRatio)>, key: KV, won: bool) -> Seq<
    (KV, WinRatio),
>
    decreases m.len(),
{
    if m.len() == 0 {
        seq![(key, bump_spec(WinRatio { wins: 0, looses: 0 }, won))]
    } else if m[0].0 == key {
        seq![(m[0].0, bump_spec(m[0].1, won))] + m.skip(1)
    } else {
        seq![m[0]] + upsert_spec(m.skip(1), key, won)
    }
}

/// The map with the first entry for `key` replaced by `wr`, or with a new
/// entry appended.
pub open spec fn put_spec<KV>(m: Seq<(KV, WinRatio)>, key: KV, wr: WinRatio) -> Seq<
    (KV, WinRatio),
>
    decreases m.len(),
{
    if m.len() == 0 {
        seq![(key, wr)]
    } else if m[0].0 == key {
        seq![(m[0].0, wr)] + m.skip(1)
    } else {
        seq![m[0]] + put_spec(m.skip(1), key, wr)
    }
}

pub proof fn lemma_put_at<KV>(m: Seq<(KV, WinRatio)>, key: KV, wr: WinRatio, i: int)
    requires
        0 <= i < m.len(),
        forall|k: int| 0 <= k < i ==> m[k].0 != key,
        m[i].0 == key,
    ensures
        put_spec(m, key, wr) == m.update(i, (m[i].0, wr)),
    decreases i,
{
    if i == 0 {
        assert(put_spec(m, key, wr) =~= m.update(0, (m[0].0, wr)));
    } else {
        assert(forall|k: int| 0 <= k < i - 1 ==> m.skip(1)[k].0 != key);
        lemma_put_at(m.skip(1), key, wr, i - 1);
        assert(put_spec(m, key, wr) =~= m.update(i, (m[i].0, wr)));
    }
}

pub proof fn lemma_put_absent<KV>(m: Seq<(KV, WinRatio)>, key: KV, wr: WinRatio)
    requires
        forall|k: int| 0 <= k < m.len() ==> m[k].0 != key,
    ensures
        put_spec(m, key, wr) == m.push((key, wr)),
    decreases m.len(),
{
    if m.len() == 0 {
        assert(put_spec(m, key, wr) =~= m.push((key, wr)));
    } else {
        assert(forall|k: int| 0 <= k < m.skip(1).len() ==> m.skip(1)[k].0 != key);
        lemma_put_absent(m.skip(1), key, wr);
        assert(put_spec(m, key, wr) =~= m.push((key, wr)));
    }
}

/// The counter stored for `key`, if any.
pub open spec fn get_spec<KV>(m: Seq<(KV, WinRatio)>, key: KV) -> Option<WinRatio>
    decreases m.len(),
{
    if m.len() == 0 {
        None
    } else if m[0].0 == key {
        Some(m[0].1)
    } else {
        get_spec(m.skip(1), key)
    }
}

/// The map after recording one game under each key in turn.
pub open spec fn fold_scores<KV>(m: Seq<(KV, WinRatio)>, keys: Seq<KV>, won: bool) -> Seq<
    (KV, WinRatio),
>
    decreases keys.len(),
{
    if keys.len() == 0 {
        m
    } else {
        fold_scores(upsert_spec(m, keys[0], won), keys.skip(1), won)
    }
}

/// Like `fold_scores`, but an empty key contributes nothing.
pub open spec fn fold_scores_skip_empty<KE>(
    m: Seq<(Seq<KE>, WinRatio)>,
    keys: Seq<Seq<KE>>,
    won: bool,
) -> Seq<(Seq<KE>, WinRatio)>
    decreases keys.len(),
{
    if keys.len() == 0 {
        m
    } else {
        let m2 = if keys[0].len() == 0 {
            m
        } else {
            upsert_spec(m, keys[0], won)
        };
        fold_scores_skip_empty(m2, keys.skip(1), won)
    }
}

/// Folding one more key equals one more conditional upsert at the back.
pub proof fn lemma_fold_skip_snoc<KE>(
    m: Seq<(Seq<KE>, WinRatio)>,
    keys: Seq<Seq<KE>>,
    key: Seq<KE>,
    won: bool,
)
    ensures
        fold_scores_skip_empty(m, keys.push(key), won) == (if key.len() == 0 {
            fold_scores_skip_empty(m, keys, won)
        } else {
            upsert_spec(fold_scores_skip_empty(m, keys, won), key, won)
        }),
    decreases keys.len(),
{
    if keys.len() == 0 {
        assert(keys.push(key).skip(1) =~= Seq::<Seq<KE>>::empty());
        assert(keys.push(key)[0] == key);
        if key.len() == 0 {
            assert(fold_scores_skip_empty(m, keys.push(key).skip(1), won) == m);
        } else {
            assert(fold_scores_skip_empty(
                upsert_spec(m, key, won),
                keys.push(key).skip(1),
                won,
            ) == upsert_spec(m, key, won));
        }
    } else {
        assert(keys.push(key)[0] == keys[0]);
        assert(keys.push(key).skip(1) =~= keys.skip(1).push(key));
        let m2 = if keys[0].len() == 0 {
            m
        } else {
            upsert_spec(m, keys[0], won)
        };
        lemma_fold_skip_snoc(m2, keys.skip(1), key, won);
        assert(fold_scores_skip_empty(m, keys.push(key), won) == fold_scores_skip_empty(
            m2,
            keys.skip(1).push(key),
            won,
        ));
        assert(fold_scores_skip_empty(m, keys, won) == fold_scores_skip_empty(
            m2,
            keys.skip(1),
            won,
        ));
    }
}

/// Folding one more key equals one more upsert at the back.
pub proof fn lemma_fold_scores_snoc<KV>(
    m: Seq<(KV, WinRatio)>,
    keys: Seq<KV>,
    key: KV,
    won: bool,
)
    ensures
        fold_scores(m, keys.push(key), won) == upsert_spec(fold_scores(m, keys, won), key, won),
    decreases keys.len(),
{
    if keys.len() == 0 {
        assert(keys.push(key).skip(1) =~= Seq::<KV>::empty());
        assert(keys.push(key)[0] == key);
        assert(fold_scores(upsert_spec(m, key, won), keys.push(key).skip(1), won) == upsert_spec(
            m,
            key,
            won,
        ));
    } else {
        assert(keys.push(key)[0] == keys[0]);
        assert(keys.push(key).skip(1) =~= keys.skip(1).push(key));
        lemma_fold_scores_snoc(upsert_spec(m, keys[0], won), keys.skip(1), key, won);
        assert(fold_scores(m, keys.push(key), won) == fold_scores(
            upsert_spec(m, keys[0], won),
            keys.skip(1).push(key),
            won,
        ));
        assert(fold_scores(m, keys, won) == fold_scores(
            upsert_spec(m, keys[0], won),
            keys.skip(1),
            won,
        ));
    }
}

proof fn lemma_upsert_at<KV>(m: Seq<(KV, WinRatio)>, key: KV, won: bool, i: int)
    requires
        0 <= i < m.len(),
        forall|k: int| 0 <= k < i ==> m[k].0 != key,
        m[i].0 == key,
    ensures
        upsert_spec(m, key, won) == m.update(i, (m[i].0, bump_spec(m[i].1, won))),
    decreases i,
{
    if i == 0 {
        assert(upsert_spec(m, key, won) =~= m.update(0, (m[0].0, bump_spec(m[0].1, won))));
    } else {
        assert(forall|k: int| 0 <= k < i - 1 ==> m.skip(1)[k].0 != key);
        lemma_upsert_at(m.skip(1), key, won, i - 1);
        assert(upsert_spec(m, key, won) =~= m.update(i, (m[i].0, bump_spec(m[i].1, won))));
    }
}

proof fn lemma_upsert_absent<KV>(m: Seq<(KV, WinRatio)>, key: KV, won: bool)
    requires
        forall|k: int| 0 <= k < m.len() ==> m[k].0 != key,
    ensures
        upsert_spec(m, key, won) == m.push((key, bump_spec(WinRatio { wins: 0, looses: 0 }, won))),
    decreases m.len(),
{
    if m.len() == 0 {
        assert(upsert_spec(m, key, won) =~= m.push(
            (key, bump_spec(WinRatio { wins: 0, looses: 0 }, won)),
        ));
    } else {
        assert(forall|k: int| 0 <= k < m.skip(1).len() ==> m.skip(1)[k].0 != key);
        lemma_upsert_absent(m.skip(1), key, won);
        assert(upsert_spec(m, key, won) =~= m.push(
            (key, bump_spec(WinRatio { wins: 0, looses: 0 }, won)),
        ));
    }
}

pub proof fn lemma_get_at<KV>(m: Seq<(KV, WinRatio)>, key: KV, i: int)
    requires
        0 <= i < m.len(),
        forall|k: int| 0 <= k < i ==> m[k].0 != key,
        m[i].0 == key,
    ensures
        get_spec(m, key) == Some(m[i].1),
    decreases i,
{
    if i > 0 {
        assert(forall|k: int| 0 <= k < i - 1 ==> m.skip(1)[k].0 != key);
        lemma_get_at(m.skip(1), key, i - 1);
    }
}

pub proof fn lemma_get_absent<KV>(m: Seq<(KV, WinRatio)>, key: KV)
    requires
        forall|k: int| 0 <= k < m.len() ==> m[k].0 != key,
    ensures
        get_spec(m, key) is None,
    decreases m.len(),
{
    if m.len() > 0 {
        assert(forall|k: int| 0 <= k < m.skip(1).len() ==> m.skip(1)[k].0 != key);
        lemma_get_absent(m.skip(1), key);
    }
}

/// Records one game outcome under `key`.
pub fn upsert_score<K: MapKey>(m: &mut Vec<(K, WinRatio)>, key: K, won: bool)
    ensures
        entries_view(final(m)@) == upsert_spec(entries_view(old(m)@), key.deep_view(), won),
{
    let mut i: usize = 0;
    while i < m.len()
        invariant
            i <= m@.len(),
            m@ == old(m)@,
            forall|k: int| 0 <= k < i ==> m@[k].0.deep_view() != key.deep_view(),
        decreases m@.len() - i,
    {
        let hit = m[i].0.key_eq(&key);
        if hit {
            let entry = m.remove(i);
            let mut wr = entry.1;
            let t = (wr.wins as u64) + (wr.looses as u64);
            if t < 0xFFFF_FFFF {
                wr.add_score(won);
            }
            m.insert(i, (entry.0, wr));
            proof {
                let mv = entries_view(old(m)@);
                assert(forall|k: int| 0 <= k < i ==> mv[k].0 != key.deep_view());
                assert(mv[i as int].0 == key.deep_view());
                lemma_upsert_at(mv, key.deep_view(), won, i as int);
                assert(wr == bump_spec(old(m)@[i as int].1, won));
                assert(m@ =~= old(m)@.update(i as int, (old(m)@[i as int].0, wr)));
                assert(entries_view(m@) =~= mv.update(
                    i as int,
                    (mv[i as int].0, bump_spec(mv[i as int].1, won)),
                ));
            }
            return;
        }
        i = i + 1;
    }
    let mut wr = WinRatio { wins: 0, looses: 0 };
    wr.add_score(won);
    m.push((key, wr));
    proof {
        let mv = entries_view(old(m)@);
        assert(forall|k: int| 0 <= k < mv.len() ==> mv[k].0 != key.deep_view());
        lemma_upsert_absent(mv, key.deep_view(), won);
        assert(wr == bump_spec(WinRatio { wins: 0, looses: 0 }, won));
        assert(entries_view(m@) =~= mv.push((key.deep_view(), wr)));
    }
}

/// Saturating sum of two counters.
pub open spec fn sat_add_spec(a: int, b: int) -> int {
    if a + b <= u32::MAX {
        a + b
    } else {
        u32::MAX as int
    }
}

/// A grouping map after one more value filed under `key`: the value is
/// pushed onto the first group with that key, or a fresh group is appended.
pub open spec fn group_upsert<KV, VV>(m: Seq<(KV, Seq<VV>)>, key: KV, v: VV) -> Seq<
    (KV, Seq<VV>),
>
    decreases m.len(),
{
    if m.len() == 0 {
        seq![(key, seq![v])]
    } else if m[0].0 == key {
        seq![(m[0].0, m[0].1.push(v))] + m.skip(1)
    } else {
        seq![m[0]] + group_upsert(m.skip(1), key, v)
    }
}

/// A counter map after adding `t` games under `key`, saturating.
pub open spec fn counter_upsert<KV>(m: Seq<(KV, u32)>, key: KV, t: u32) -> Seq<(KV, u32)>
    decreases m.len(),
{
    if m.len() == 0 {
        seq![(key, t)]
    } else if m[0].0 == key {
        seq![(m[0].0, sat_add_spec(m[0].1 as int, t as int) as u32)] + m.skip(1)
    } else {
        seq![m[0]] + counter_upsert(m.skip(1), key, t)
    }
}

/// The counter stored for `key`, if any.
pub open spec fn counter_get<KV>(m: Seq<(KV, u32)>, key: KV) -> Option<u32>
    decreases m.len(),
{
    if m.len() == 0 {
        None
    } else if m[0].0 == key {
        Some(m[0].1)
    } else {
        counter_get(m.skip(1), key)
    }
}

pub proof fn lemma_group_upsert_at<KV, VV>(m: Seq<(KV, Seq<VV>)>, key: KV, v: VV, i: int)
    requires
        0 <= i < m.len(),
        forall|k: int| 0 <= k < i ==> m[k].0 != key,
        m[i].0 == key,
    ensures
        group_upsert(m, key, v) == m.update(i, (m[i].0, m[i].1.push(v))),
    decreases i,
{
    if i == 0 {
        assert(group_upsert(m, key, v) =~= m.update(0, (m[0].0, m[0].1.push(v))));
    } else {
        assert(forall|k: int| 0 <= k < i - 1 ==> m.skip(1)[k].0 != key);
        lemma_group_upsert_at(m.skip(1), key, v, i - 1);
        assert(group_upsert(m, key, v) =~= m.update(i, (m[i].0, m[i].1.push(v))));
    }
}

pub proof fn lemma_group_upsert_absent<KV, VV>(m: Seq<(KV, Seq<VV>)>, key: KV, v: VV)
    requires
        forall|k: int| 0 <= k < m.len() ==> m[k].0 != key,
    ensures
        group_upsert(m, key, v) == m.push((key, seq![v])),
    decreases m.len(),
{
    if m.len() == 0 {
        assert(group_upsert(m, key, v) =~= m.push((key, seq![v])));
    } else {
        assert(forall|k: int| 0 <= k < m.skip(1).len() ==> m.skip(1)[k].0 != key);
        lemma_group_upsert_absent(m.skip(1), key, v);
        assert(group_upsert(m, key, v) =~= m.push((key, seq![v])));
    }
}

pub proof fn lemma_counter_upsert_at<KV>(m: Seq<(KV, u32)>, key: KV, t: u32, i: int)
    requires
        0 <= i < m.len(),
        forall|k: int| 0 <= k < i ==> m[k].0 != key,
        m[i].0 == key,
    ensures
        counter_upsert(m, key, t) == m.update(
            i,
            (m[i].0, sat_add_spec(m[i].1 as int, t as int) as u32),
        ),
    decreases i,
{
    if i == 0 {
        assert(counter_upsert(m, key, t) =~= m.update(
            0,
            (m[0].0, sat_add_spec(m[0].1 as int, t as int) as u32),
        ));
    } else {
        assert(forall|k: int| 0 <= k < i - 1 ==> m.skip(1)[k].0 != key);
        lemma_counter_upsert_at(m.skip(1), key, t, i - 1);
        assert(counter_upsert(m, key, t) =~= m.update(
            i,
            (m[i].0, sat_add_spec(m[i].1 as int, t as int) as u32),
        ));
    }
}

pub proof fn lemma_counter_upsert_absent<KV>(m: Seq<(KV, u32)>, key: KV, t: u32)
    requires
        forall|k: int| 0 <= k < m.len() ==> m[k].0 != key,
    ensures
        counter_upsert(m, key, t) == m.push((key, t)),
    decreases m.len(),
{
    if m.len() == 0 {
        assert(counter_upsert(m, key, t) =~= m.push((key, t)));
    } else {
        assert(forall|k: int| 0 <= k < m.skip(1).len() ==> m.skip(1)[k].0 != key);
        lemma_counter_upsert_absent(m.skip(1), key, t);
        assert(counter_upsert(m, key, t) =~= m.push((key, t)));
    }
}

pub proof fn lemma_counter_get_at<KV>(m: Seq<(KV, u32)>, key: KV, i: int)
    requires
        0 <= i < m.len(),
        forall|k: int| 0 <= k < i ==> m[k].0 != key,
        m[i].0 == key,
    ensures
        counter_get(m, key) == Some(m[i].1),
    decreases i,
{
    if i > 0 {
        assert(forall|k: int| 0 <= k < i - 1 ==> m.skip(1)[k].0 != key);
        lemma_counter_get_at(m.skip(1), key, i - 1);
    }
}

pub proof fn lemma_counter_get_absent<KV>(m: Seq<(KV, u32)>, key: KV)
    requires
        forall|k: int| 0 <= k < m.len() ==> m[k].0 != key,
    ensures
        counter_get(m, key) is None,
    decreases m.len(),
{
    if m.len() > 0 {
        assert(forall|k: int| 0 <= k < m.skip(1).len() ==> m.skip(1)[k].0 != key);
        lemma_counter_get_absent(m.skip(1), key);
    }
}

/// Looks a key up.
pub fn get_score<K: MapKey>(m: &Vec<(K, WinRatio)>, key: &K) -> (r: Option<WinRatio>)
    ensures
        r == get_spec(entries_view(m@), key.deep_view()),
{
    let mut i: usize = 0;
    while i < m.len()
        invariant
            i <= m@.len(),
            forall|k: int| 0 <= k < i ==> m@[k].0.deep_view() != key.deep_view(),
        decreases m@.len() - i,
    {
        let hit = m[i].0.key_eq(key);
        if hit {
            proof {
                let mv = entries_view(m@);
                assert(forall|k: int| 0 <= k < i ==> mv[k].0 != key.deep_view());
                assert(mv[i as int].0 == key.deep_view());
                lemma_get_at(mv, key.deep_view(), i as int);
            }
            return Some(m[i].1);
        }
        i = i + 1;
    }
    proof {
        let mv = entries_view(m@);
        assert(forall|k: int| 0 <= k < mv.len() ==> mv[k].0 != key.deep_view());
        lemma_get_absent(mv, key.deep_view());
    }
    None
}


/// How often `k` occurs among the keys.
pub open spec fn key_count<KV>(keys: Seq<KV>, k: KV) -> int
    decreases keys.len(),
{
    if keys.len() == 0 {
        0
    } else {
        (if keys[0] == k {
            1int
        } else {
            0int
        }) + key_count(keys.skip(1), k)
    }
}

pub proof fn lemma_key_count_nonneg<KV>(keys: Seq<KV>, k: KV)
    ensures
        key_count(keys, k) >= 0,
    decreases keys.len(),
{
    if keys.len() > 0 {
        lemma_key_count_nonneg(keys.skip(1), k);
    }
}

/// The stored counter, or the empty one.
pub open spec fn or_zero(v: Option<WinRatio>) -> WinRatio {
    match v {
        Some(w) => w,
        None => WinRatio { wins: 0, looses: 0 },
    }
}

/// `n` games recorded one after the other on an optional counter.
pub open spec fn bump_n(v: Option<WinRatio>, n: int, won: bool) -> Option<WinRatio>
    decreases n,
{
    if n <= 0 {
        v
    } else {
        bump_n(Some(bump_spec(or_zero(v), won)), n - 1, won)
    }
}

/// What one upsert does to any lookup: the touched key is bumped, with a
/// fresh counter where none was stored; every other key is untouched.
pub proof fn lemma_get_upsert<KV>(m: Seq<(KV, WinRatio)>, key: KV, won: bool, k: KV)
    ensures
        get_spec(upsert_spec(m, key, won), k) == (if k == key {
            Some(bump_spec(or_zero(get_spec(m, key)), won))
        } else {
            get_spec(m, k)
        }),
    decreases m.len(),
{
    let u = upsert_spec(m, key, won);
    if m.len() == 0 {
        assert(u == seq![(key, bump_spec(WinRatio { wins: 0, looses: 0 }, won))]);
        assert(u.len() == 1);
        assert(u[0] == (key, bump_spec(WinRatio { wins: 0, looses: 0 }, won)));
        assert(u.skip(1) =~= Seq::<(KV, WinRatio)>::empty());
        assert(get_spec(m, k) is None);
        assert(get_spec(m, key) is None);
        if k == key {
            assert(get_spec(u, k) == Some(u[0].1));
        } else {
            assert(get_spec(u, k) == get_spec(u.skip(1), k));
            assert(get_spec(u.skip(1), k) is None);
        }
    } else if m[0].0 == key {
        assert(u == seq![(m[0].0, bump_spec(m[0].1, won))] + m.skip(1));
        assert(u[0] == (m[0].0, bump_spec(m[0].1, won)));
        assert(u.skip(1) =~= m.skip(1));
        assert(get_spec(m, key) == Some(m[0].1));
        if k == key {
            assert(get_spec(u, k) == Some(u[0].1));
        } else {
            assert(get_spec(u, k) == get_spec(u.skip(1), k));
            assert(get_spec(m, k) == get_spec(m.skip(1), k));
        }
    } else {
        assert(u == seq![m[0]] + upsert_spec(m.skip(1), key, won));
        assert(u[0] == m[0]);
        assert(u.skip(1) =~= upsert_spec(m.skip(1), key, won));
        lemma_get_upsert(m.skip(1), key, won, k);
        assert(get_spec(m, key) == get_spec(m.skip(1), key));
        if u[0].0 == k {
            assert(get_spec(u, k) == Some(u[0].1));
            assert(get_spec(m, k) == Some(m[0].1));
            assert(k != key);
        } else {
            assert(get_spec(u, k) == get_spec(u.skip(1), k));
            assert(get_spec(m, k) == get_spec(m.skip(1), k));
        }
    }
}

/// What a whole fold does to any lookup: the key is bumped once per
/// occurrence among the folded keys.
pub proof fn lemma_get_fold_scores<KV>(m: Seq<(KV, WinRatio)>, keys: Seq<KV>, won: bool, k: KV)
    ensures
        get_spec(fold_scores(m, keys, won), k) == bump_n(get_spec(m, k), key_count(keys, k), won),
    decreases keys.len(),
{
    if keys.len() > 0 {
        let m2 = upsert_spec(m, keys[0], won);
        lemma_get_fold_scores(m2, keys.skip(1), won, k);
        lemma_get_upsert(m, keys[0], won, k);
        lemma_key_count_nonneg(keys.skip(1), k);
        if keys[0] == k {
            assert(get_spec(m2, k) == Some(bump_spec(or_zero(get_spec(m, k)), won)));
            assert(bump_n(get_spec(m, k), key_count(keys, k), won) == bump_n(
                Some(bump_spec(or_zero(get_spec(m, k)), won)),
                key_count(keys, k) - 1,
                won,
            ));
        } else {
            assert(get_spec(m2, k) == get_spec(m, k));
        }
    }
}

/// Repeated bumping is exact while the counter has room: each game adds
/// one to the winning or the losing side.
pub proof fn lemma_bump_n_exact(v: Option<WinRatio>, n: int, won: bool)
    requires
        n >= 0,
        or_zero(v).total_spec() + n <= u32::MAX,
    ensures
        n > 0 ==> bump_n(v, n, won) == Some(
            WinRatio {
                wins: (or_zero(v).wins + (if won {
                    n
                } else {
                    0int
                })) as u32,
                looses: (or_zero(v).looses + (if won {
                    0int
                } else {
                    n
                })) as u32,
            },
        ),
        n == 0 ==> bump_n(v, n, won) == v,
    decreases n,
{
    if n > 0 {
        let w1 = bump_spec(or_zero(v), won);
        lemma_bump_n_exact(Some(w1), n - 1, won);
    }
}


/// Like `lemma_get_fold_scores`, for the fold that skips empty keys: a
/// non-empty key is still bumped once per occurrence.
pub proof fn lemma_get_fold_skip<KE>(
    m: Seq<(Seq<KE>, WinRatio)>,
    keys: Seq<Seq<KE>>,
    won: bool,
    k: Seq<KE>,
)
    requires
        k.len() > 0,
    ensures
        get_spec(fold_scores_skip_empty(m, keys, won), k) == bump_n(
            get_spec(m, k),
            key_count(keys, k),
            won,
        ),
    decreases keys.len(),
{
    if keys.len() > 0 {
        let m2 = if keys[0].len() == 0 {
            m
        } else {
            upsert_spec(m, keys[0], won)
        };
        lemma_get_fold_skip(m2, keys.skip(1), won, k);
        lemma_key_count_nonneg(keys.skip(1), k);
        if keys[0].len() == 0 {
            assert(keys[0] != k);
        } else {
            lemma_get_upsert(m, keys[0], won, k);
            if keys[0] == k {
                assert(get_spec(m2, k) == Some(bump_spec(or_zero(get_spec(m, k)), won)));
                assert(bump_n(get_spec(m, k), key_count(keys, k), won) == bump_n(
                    Some(bump_spec(or_zero(get_spec(m, k)), won)),
                    key_count(keys, k) - 1,
                    won,
                ));
            }
        }
    }
}

} // verus!
