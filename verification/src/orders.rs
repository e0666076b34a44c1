//! A stable insertion sort, generic over an order on element views.

use vstd::prelude::*;

verus! {

/// An order on the views of elements, with an executable test.
pub trait SortOrd: DeepView + Sized {
    /// `a` may stay in front of `b`.
    spec fn le_key(a: Self::V, b: Self::V) -> bool;

    /// Executable comparison agreeing with `le_key`.
    fn le(&self, other: &Self) -> (r: bool)
        ensures
            r == Self::le_key(self.deep_view(), other.deep_view()),
    ;
}

impl SortOrd for String {
    /// Names order lexicographically.
    open spec fn le_key(a: Seq<char>, b: Seq<char>) -> bool {
        crate::strutil::str_le_spec(a, b)
    }

    fn le(&self, other: &String) -> (r: bool) {
        crate::strutil::str_le(self.as_str(), other.as_str())
    }
}

/// The views of the elements of a sequence.
pub open spec fn views_of<T: DeepView>(s: Seq<T>) -> Seq<T::V> {
    s.map_values(|t: T| t.deep_view())
}

/// A vector's deep view is the sequence of its elements' views.
pub broadcast proof fn lemma_deep_view_views<T: DeepView>(v: &Vec<T>)
    ensures
        #[trigger] v.deep_view() == views_of(v@),
{
    assert(v.deep_view() =~= views_of(v@));
}

/// `x` inserted behind every leading element that may stay in front of it.
pub open spec fn insert_sorted<T: SortOrd>(x: T::V, s: Seq<T::V>) -> Seq<T::V>
    decreases s.len(),
{
    if s.len() == 0 {
        seq![x]
    } else if T::le_key(s[0], x) {
        seq![s[0]] + insert_sorted::<T>(x, s.skip(1))
    } else {
        seq![x] + s
    }
}

/// Stable insertion sort of the element views, processed left to right.
pub open spec fn sort_spec<T: SortOrd>(s: Seq<T::V>) -> Seq<T::V>
    decreases s.len(),
{
    if s.len() == 0 {
        Seq::empty()
    } else {
        insert_sorted::<T>(s.last(), sort_spec::<T>(s.drop_last()))
    }
}

proof fn lemma_insert_at<T: SortOrd>(x: T::V, s: Seq<T::V>, j: int)
    requires
        0 <= j <= s.len(),
        forall|k: int| 0 <= k < j ==> T::le_key(s[k], x),
        j < s.len() ==> !T::le_key(s[j], x),
    ensures
        insert_sorted::<T>(x, s) == s.take(j) + seq![x] + s.skip(j),
    decreases j,
{
    if j == 0 {
        assert(insert_sorted::<T>(x, s) =~= s.take(0) + seq![x] + s.skip(0));
    } else {
        assert(forall|k: int| 0 <= k < j - 1 ==> T::le_key(s.skip(1)[k], x));
        lemma_insert_at::<T>(x, s.skip(1), j - 1);
        assert(insert_sorted::<T>(x, s) =~= s.take(j) + seq![x] + s.skip(j));
    }
}

/// Sorts by repeated insertion; elements whose views tie keep their order.
pub fn stable_sort<T: SortOrd>(v: Vec<T>) -> (r: Vec<T>)
    ensures
        views_of(r@) == sort_spec::<T>(views_of(v@)),
{
    let ghost orig = v@;
    let mut src = v;
    let mut out: Vec<T> = Vec::new();
    proof {
        assert(src@ =~= orig.skip(0));
        assert(views_of(out@) =~= sort_spec::<T>(views_of(orig.take(0))));
    }
    while src.len() > 0
        invariant
            src@.len() <= orig.len(),
            src@ == orig.skip(orig.len() - src@.len()),
            views_of(out@) == sort_spec::<T>(views_of(orig.take(orig.len() - src@.len()))),
        decreases src.len(),
    {
        let ghost done = orig.len() - src@.len();
        let ghost before = src@;
        let x = src.remove(0);
        proof {
            assert(x == orig[done]);
            assert(src@ =~= before.remove(0));
            assert forall|k: int| 0 <= k < src@.len() implies src@[k] == orig[done + 1 + k] by {
                assert(src@[k] == before[k + 1]);
            }
            assert(src@ =~= orig.skip(done + 1));
        }
        let mut j: usize = 0;
        let mut found = false;
        while j < out.len() && !found
            invariant
                j <= out.len(),
                forall|k: int| 0 <= k < j ==> T::le_key(views_of(out@)[k], x.deep_view()),
                found ==> j < out.len() && !T::le_key(views_of(out@)[j as int], x.deep_view()),
            decreases out.len() - j, (if found { 0int } else { 1int }),
        {
            if out[j].le(&x) {
                j = j + 1;
            } else {
                found = true;
            }
        }
        proof {
            lemma_insert_at::<T>(x.deep_view(), views_of(out@), j as int);
        }
        let ghost out_before = out@;
        out.insert(j, x);
        proof {
            assert(views_of(out@) =~= views_of(out_before).take(j as int)
                + seq![x.deep_view()] + views_of(out_before).skip(j as int));
            let p = orig.take(done + 1);
            assert(p.drop_last() =~= orig.take(done));
            assert(p.last() == orig[done]);
            assert(views_of(p).drop_last() =~= views_of(p.drop_last()));
            assert(views_of(p).last() == x.deep_view());
            assert(views_of(p).len() > 0);
            assert(sort_spec::<T>(views_of(p)) == insert_sorted::<T>(
                x.deep_view(),
                sort_spec::<T>(views_of(orig.take(done))),
            ));
        }
    }
    proof {
        assert(orig.take(orig.len() as int) =~= orig);
    }
    out
}

/// Reverses a vector.
pub fn reverse_vec<T>(v: Vec<T>) -> (r: Vec<T>)
    ensures
        r@ == v@.reverse(),
{
    let mut src = v;
    let mut out: Vec<T> = Vec::new();
    let ghost orig = src@;
    proof {
        assert(src@ =~= orig.take(src@.len() as int));
        assert(out@ =~= orig.skip(src@.len() as int).reverse());
    }
    while src.len() > 0
        invariant
            src@.len() <= orig.len(),
            src@ == orig.take(src@.len() as int),
            out@ == orig.skip(src@.len() as int).reverse(),
        decreases src.len(),
    {
        let ghost n = src@.len() as int;
        let x = match src.pop() {
            Some(x) => x,
            None => {
                proof {
                    assert(false);
                }
                unreached()
            },
        };
        out.push(x);
        proof {
            assert(src@ =~= orig.take(n - 1));
            assert(x == orig[n - 1]);
            assert(out@ =~= orig.skip(n - 1).reverse());
        }
    }
    proof {
        assert(out@ =~= orig.reverse());
    }
    out
}


/// Every pair of positions is ordered under the element order.
pub open spec fn sorted_by<T: SortOrd>(s: Seq<T::V>) -> bool {
    forall|i: int, j: int| 0 <= i <= j < s.len() ==> #[trigger] T::le_key(s[i], s[j])
}

proof fn lemma_insert_elements<T: SortOrd>(x: T::V, s: Seq<T::V>, k: int)
    requires
        0 <= k < insert_sorted::<T>(x, s).len(),
    ensures
        insert_sorted::<T>(x, s)[k] == x || exists|j: int|
            0 <= j < s.len() && s[j] == insert_sorted::<T>(x, s)[k],
    decreases s.len(),
{
    let r = insert_sorted::<T>(x, s);
    if s.len() == 0 {
    } else if T::le_key(s[0], x) {
        assert(r == seq![s[0]] + insert_sorted::<T>(x, s.skip(1)));
        if k == 0 {
            assert(r[0] == s[0]);
        } else {
            lemma_insert_elements::<T>(x, s.skip(1), k - 1);
            assert(r[k] == insert_sorted::<T>(x, s.skip(1))[k - 1]);
            if r[k] != x {
                let j = choose|j: int|
                    0 <= j < s.skip(1).len() && s.skip(1)[j] == insert_sorted::<T>(
                        x,
                        s.skip(1),
                    )[k - 1];
                assert(s[j + 1] == r[k]);
            }
        }
    } else {
        assert(r == seq![x] + s);
        if k > 0 {
            assert(r[k] == s[k - 1]);
        }
    }
}

proof fn lemma_insert_sorted_keeps<T: SortOrd>(x: T::V, s: Seq<T::V>)
    requires
        sorted_by::<T>(s),
        forall|a: T::V, b: T::V| #[trigger] T::le_key(a, b) || T::le_key(b, a),
        forall|a: T::V, b: T::V, c: T::V|
            #![trigger T::le_key(a, b), T::le_key(b, c)]
            T::le_key(a, b) && T::le_key(b, c) ==> T::le_key(a, c),
    ensures
        sorted_by::<T>(insert_sorted::<T>(x, s)),
    decreases s.len(),
{
    let r = insert_sorted::<T>(x, s);
    if s.len() == 0 {
        assert forall|i: int, j: int| 0 <= i <= j < r.len() implies #[trigger] T::le_key(
            r[i],
            r[j],
        ) by {
            assert(r[i] == x && r[j] == x);
            assert(T::le_key(x, x) || T::le_key(x, x));
        }
    } else if T::le_key(s[0], x) {
        let rest = s.skip(1);
        assert forall|i: int, j: int| 0 <= i <= j < rest.len() implies #[trigger] T::le_key(
            rest[i],
            rest[j],
        ) by {
            assert(T::le_key(s[i + 1], s[j + 1]));
        }
        lemma_insert_sorted_keeps::<T>(x, rest);
        let ri = insert_sorted::<T>(x, rest);
        assert(r == seq![s[0]] + ri);
        assert forall|i: int, j: int| 0 <= i <= j < r.len() implies #[trigger] T::le_key(
            r[i],
            r[j],
        ) by {
            if i == 0 {
                if j == 0 {
                    assert(T::le_key(s[0], s[0]) || T::le_key(s[0], s[0]));
                } else {
                    lemma_insert_elements::<T>(x, rest, j - 1);
                    assert(r[j] == ri[j - 1]);
                    if ri[j - 1] == x {
                        assert(T::le_key(s[0], x));
                    } else {
                        let q = choose|q: int| 0 <= q < rest.len() && rest[q] == ri[j - 1];
                        assert(T::le_key(s[0], s[q + 1]));
                    }
                }
            } else {
                assert(r[i] == ri[i - 1] && r[j] == ri[j - 1]);
                assert(T::le_key(ri[i - 1], ri[j - 1]));
            }
        }
    } else {
        assert(T::le_key(x, s[0]) || T::le_key(s[0], x));
        assert(T::le_key(x, s[0]));
        assert(r == seq![x] + s);
        assert forall|i: int, j: int| 0 <= i <= j < r.len() implies #[trigger] T::le_key(
            r[i],
            r[j],
        ) by {
            if i == 0 {
                if j == 0 {
                    assert(T::le_key(x, x) || T::le_key(x, x));
                } else {
                    assert(r[j] == s[j - 1]);
                    assert(T::le_key(s[0], s[j - 1]));
                    assert(T::le_key(x, s[0]) && T::le_key(s[0], s[j - 1]));
                }
            } else {
                assert(r[i] == s[i - 1] && r[j] == s[j - 1]);
                assert(T::le_key(s[i - 1], s[j - 1]));
            }
        }
    }
}

/// Law: when the element order is total and transitive, the stable sort's
/// result is ordered.
pub proof fn lemma_sort_spec_sorted<T: SortOrd>(s: Seq<T::V>)
    requires
        forall|a: T::V, b: T::V| #[trigger] T::le_key(a, b) || T::le_key(b, a),
        forall|a: T::V, b: T::V, c: T::V|
            #![trigger T::le_key(a, b), T::le_key(b, c)]
            T::le_key(a, b) && T::le_key(b, c) ==> T::le_key(a, c),
    ensures
        sorted_by::<T>(sort_spec::<T>(s)),
    decreases s.len(),
{
    if s.len() == 0 {
        assert(sorted_by::<T>(sort_spec::<T>(s)));
    } else {
        lemma_sort_spec_sorted::<T>(s.drop_last());
        lemma_insert_sorted_keeps::<T>(s.last(), sort_spec::<T>(s.drop_last()));
    }
}

} // verus!
