//! Stable sorting of sequences, and the distinct items of a sequence.

use vstd::prelude::*;

verus! {

/// `x` put into `s` behind the last item that it may follow.
pub open spec fn put_in<T>(s: Seq<T>, x: T, le: spec_fn(T, T) -> bool) -> Seq<T>
    decreases s.len(),
{
    if s.len() == 0 || le(s.last(), x) {
        s.push(x)
    } else {
        put_in(s.drop_last(), x, le).push(s.last())
    }
}

/// `s` in the order of `le`, with items that are level left in the order in
/// which they stand.
pub open spec fn sorted_by<T>(s: Seq<T>, le: spec_fn(T, T) -> bool) -> Seq<T>
    decreases s.len(),
{
    if s.len() == 0 {
        s
    } else {
        put_in(sorted_by(s.drop_last(), le), s.last(), le)
    }
}

/// No item of `s` stands behind one that it may not follow.
pub open spec fn in_order<T>(s: Seq<T>, le: spec_fn(T, T) -> bool) -> bool {
    forall|i: int, j: int| 0 <= i < j < s.len() ==> #[trigger] le(s[i], s[j])
}

/// `le` is a total preorder.
pub open spec fn total_preorder<T>(le: spec_fn(T, T) -> bool) -> bool {
    &&& forall|a: T, b: T| #[trigger] le(a, b) || le(b, a)
    &&& forall|a: T, b: T, c: T| #[trigger] le(a, b) && #[trigger] le(b, c) ==> le(a, c)
}

/// Putting `x` in is inserting it at `k`, where `k` is behind the last item
/// that `x` may follow.
pub proof fn lemma_put_in_at<T>(s: Seq<T>, x: T, le: spec_fn(T, T) -> bool, k: int)
    requires
        0 <= k <= s.len(),
        k > 0 ==> le(s[k - 1], x),
        forall|j: int| k <= j < s.len() ==> !le(#[trigger] s[j], x),
    ensures
        put_in(s, x, le) == s.insert(k, x),
    decreases s.len(),
{
    if k == s.len() {
        assert(s.insert(k, x) =~= s.push(x));
    } else {
        assert(!le(s[s.len() - 1], x));
        lemma_put_in_at(s.drop_last(), x, le, k);
        assert(s.insert(k, x) =~= s.drop_last().insert(k, x).push(s.last()));
    }
}

/// Putting an item in adds that item and nothing else.
pub proof fn lemma_put_in_multiset<T>(s: Seq<T>, x: T, le: spec_fn(T, T) -> bool)
    ensures
        put_in(s, x, le).to_multiset() == s.to_multiset().insert(x),
        put_in(s, x, le).len() == s.len() + 1,
    decreases s.len(),
{
    broadcast use vstd::seq_lib::group_to_multiset_ensures;

    if s.len() == 0 || le(s.last(), x) {
    } else {
        lemma_put_in_multiset(s.drop_last(), x, le);
        assert(s =~= s.drop_last().push(s.last()));
        assert(put_in(s, x, le).to_multiset() =~= s.to_multiset().insert(x));
    }
}

/// Sorting keeps the items.
pub proof fn lemma_sorted_multiset<T>(s: Seq<T>, le: spec_fn(T, T) -> bool)
    ensures
        sorted_by(s, le).to_multiset() == s.to_multiset(),
        sorted_by(s, le).len() == s.len(),
    decreases s.len(),
{
    broadcast use vstd::seq_lib::group_to_multiset_ensures;

    if s.len() > 0 {
        lemma_sorted_multiset(s.drop_last(), le);
        lemma_put_in_multiset(sorted_by(s.drop_last(), le), s.last(), le);
        assert(s =~= s.drop_last().push(s.last()));
    }
}

/// Putting an item into an ordered sequence keeps it ordered.
proof fn lemma_put_in_order<T>(s: Seq<T>, x: T, le: spec_fn(T, T) -> bool)
    requires
        total_preorder(le),
        in_order(s, le),
    ensures
        in_order(put_in(s, x, le), le),
        forall|i: int| 0 <= i < put_in(s, x, le).len() ==> {
            ||| #[trigger] put_in(s, x, le)[i] == x
            ||| s.contains(put_in(s, x, le)[i])
        },
    decreases s.len(),
{
    let r = put_in(s, x, le);
    if s.len() == 0 {
    } else if le(s.last(), x) {
        assert forall|i: int, j: int| 0 <= i < j < r.len() implies #[trigger] le(r[i], r[j]) by {
            if j == s.len() && i < s.len() - 1 {
                assert(le(s[i], s[s.len() - 1]));
            }
        }
    } else {
        let t = s.drop_last();
        assert forall|i: int, j: int| 0 <= i < j < t.len() implies #[trigger] le(t[i], t[j]) by {
            assert(le(s[i], s[j]));
        }
        lemma_put_in_order(t, x, le);
        lemma_put_in_multiset(t, x, le);
        let q = put_in(t, x, le);
        assert forall|i: int| 0 <= i < r.len() implies #[trigger] r[i] == x || s.contains(r[i]) by {
            if i < q.len() {
                assert(q[i] == r[i]);
                if q[i] != x {
                    let k = choose|k: int| 0 <= k < t.len() && t[k] == q[i];
                    assert(s[k] == r[i]);
                }
            } else {
                assert(s[s.len() - 1] == r[i]);
            }
        }
        assert forall|i: int, j: int| 0 <= i < j < r.len() implies #[trigger] le(r[i], r[j]) by {
            if j < q.len() {
                assert(le(q[i], q[j]));
            } else {
                assert(q[i] == r[i]);
                if q[i] == x {
                    assert(le(s.last(), x) || le(x, s.last()));
                } else {
                    let k = choose|k: int| 0 <= k < t.len() && t[k] == q[i];
                    assert(le(s[k], s[s.len() - 1]));
                }
            }
        }
    }
}

/// What `sorted_by` gives is ordered.
pub proof fn lemma_sorted_in_order<T>(s: Seq<T>, le: spec_fn(T, T) -> bool)
    requires
        total_preorder(le),
    ensures
        in_order(sorted_by(s, le), le),
    decreases s.len(),
{
    if s.len() > 0 {
        lemma_sorted_in_order(s.drop_last(), le);
        lemma_put_in_order(sorted_by(s.drop_last(), le), s.last(), le);
    }
}

/// Sorting leaves the items of one class in the order in which they stood,
/// where the items of the class are level with each other.
pub proof fn law_sort_stable<T>(
    s: Seq<T>,
    le: spec_fn(T, T) -> bool,
    class: spec_fn(T) -> bool,
)
    requires
        total_preorder(le),
        forall|a: T, b: T| class(a) && class(b) ==> #[trigger] le(a, b),
    ensures
        sorted_by(s, le).filter(class) == s.filter(class),
    decreases s.len(),
{
    reveal(Seq::filter);
    if s.len() > 0 {
        law_sort_stable(s.drop_last(), le, class);
        lemma_sorted_in_order(s.drop_last(), le);
        lemma_put_in_filter(sorted_by(s.drop_last(), le), s.last(), le, class);
    }
}

proof fn lemma_put_in_filter<T>(
    s: Seq<T>,
    x: T,
    le: spec_fn(T, T) -> bool,
    class: spec_fn(T) -> bool,
)
    requires
        total_preorder(le),
        forall|a: T, b: T| class(a) && class(b) ==> #[trigger] le(a, b),
    ensures
        put_in(s, x, le).filter(class) == if class(x) {
            s.filter(class).push(x)
        } else {
            s.filter(class)
        },
    decreases s.len(),
{
    reveal(Seq::filter);
    if s.len() == 0 || le(s.last(), x) {
        assert(s.push(x).drop_last() =~= s);
    } else {
        lemma_put_in_filter(s.drop_last(), x, le, class);
        let q = put_in(s.drop_last(), x, le);
        assert(q.push(s.last()).drop_last() =~= q);
        if class(x) {
            assert(!class(s.last()));
        }
    }
}

// ---------------------------------------------------------------------------
// Distinct items
// ---------------------------------------------------------------------------
/// The items of `s` in the order in which they first occur.
pub open spec fn distinct<T>(s: Seq<T>) -> Seq<T>
    decreases s.len(),
{
    if s.len() == 0 {
        s
    } else {
        let d = distinct(s.drop_last());
        if d.contains(s.last()) {
            d
        } else {
            d.push(s.last())
        }
    }
}

/// `distinct` holds each item of `s` once and nothing else.
pub proof fn law_distinct<T>(s: Seq<T>)
    ensures
        distinct(s).no_duplicates(),
        forall|x: T| #[trigger] distinct(s).contains(x) <==> s.contains(x),
        distinct(s).len() <= s.len(),
    decreases s.len(),
{
    if s.len() > 0 {
        let t = s.drop_last();
        let d = distinct(t);
        law_distinct(t);
        assert forall|x: T| #[trigger] distinct(s).contains(x) <==> s.contains(x) by {
            if s.contains(x) {
                let i = choose|i: int| 0 <= i < s.len() && s[i] == x;
                if i < t.len() {
                    assert(t[i] == x);
                    assert(d.contains(x));
                    let k = choose|k: int| 0 <= k < d.len() && d[k] == x;
                    assert(distinct(s)[k] == x);
                } else if !d.contains(x) {
                    assert(distinct(s)[d.len() as int] == x);
                }
            }
            if distinct(s).contains(x) {
                let k = choose|k: int| 0 <= k < distinct(s).len() && distinct(s)[k] == x;
                if k < d.len() {
                    assert(d.contains(x));
                    let i = choose|i: int| 0 <= i < t.len() && t[i] == x;
                    assert(s[i] == x);
                } else {
                    assert(s[s.len() - 1] == x);
                }
            }
        }
    }
}

/// How many items of `s` satisfy `p`.
pub open spec fn count_of<T>(s: Seq<T>, p: spec_fn(T) -> bool) -> nat
    decreases s.len(),
{
    if s.len() == 0 {
        0
    } else {
        count_of(s.drop_last(), p) + if p(s.last()) {
            1nat
        } else {
            0nat
        }
    }
}

/// A count does not exceed the length.
pub proof fn lemma_count_bound<T>(s: Seq<T>, p: spec_fn(T) -> bool)
    ensures
        count_of(s, p) <= s.len(),
    decreases s.len(),
{
    if s.len() > 0 {
        lemma_count_bound(s.drop_last(), p);
    }
}

// ---------------------------------------------------------------------------
// Vectors
// ---------------------------------------------------------------------------
/// What each item of `v` stands for.
pub open spec fn models<T: View>(v: Seq<T>) -> Seq<T::V> {
    Seq::new(v.len(), |i: int| v[i]@)
}

/// `v` in the order of `le`, which decides `rel`. Items that are level stay in the
/// order in which they stand.
pub(crate) fn sort_models<T: View, F: Fn(&T, &T) -> bool>(
    v: Vec<T>,
    le: F,
    Ghost(rel): Ghost<spec_fn(T::V, T::V) -> bool>,
) -> (r: Vec<T>)
    requires
        forall|a: &T, b: &T| call_requires(le, (a, b)),
        forall|a: &T, b: &T, r: bool| call_ensures(le, (a, b), r) ==> r == rel(a@, b@),
    ensures
        models(r@) == sorted_by(models(v@), rel),
{
    let ghost all = models(v@);
    let mut rest = v;
    let mut out: Vec<T> = Vec::new();
    let ghost mut done: int = 0;
    proof {
        assert(models(out@) =~= sorted_by(all.take(0), rel));
        assert(models(rest@) =~= all.skip(0));
    }
    while rest.len() > 0
        invariant
            forall|a: &T, b: &T| call_requires(le, (a, b)),
            forall|a: &T, b: &T, r: bool| call_ensures(le, (a, b), r) ==> r == rel(a@, b@),
            0 <= done <= all.len(),
            rest@.len() == all.len() - done,
            models(rest@) == all.skip(done),
            models(out@) == sorted_by(all.take(done), rel),
        decreases rest@.len(),
    {
        let ghost before = rest@;
        let ghost m = models(out@);
        assert(all.skip(done)[0] == all[done]);
        let x = rest.remove(0);
        let mut k: usize = out.len();
        while k > 0 && !le(&out[k - 1], &x)
            invariant
                forall|a: &T, b: &T| call_requires(le, (a, b)),
                forall|a: &T, b: &T, r: bool| call_ensures(le, (a, b), r) ==> r == rel(a@, b@),
                m == models(out@),
                k <= out@.len(),
                forall|j: int| k <= j < m.len() ==> !rel(#[trigger] m[j], x@),
            decreases k,
        {
            assert(m[k - 1] == out@[k - 1]@);
            k -= 1;
        }
        proof {
            if k > 0 {
                assert(m[k - 1] == out@[k - 1]@);
            }
            lemma_put_in_at(m, x@, rel, k as int);
            assert(all.take(done + 1).drop_last() =~= all.take(done));
            assert(models(rest@) =~= all.skip(done + 1)) by {
                assert forall|i: int| 0 <= i < rest@.len() implies models(rest@)[i] == all.skip(
                    done + 1,
                )[i] by {
                    assert(rest@[i] == before[i + 1]);
                    assert(models(before)[i + 1] == all.skip(done)[i + 1]);
                }
            }
        }
        out.insert(k, x);
        proof {
            assert(models(out@) =~= m.insert(k as int, x@));
            done = done + 1;
        }
    }
    assert(all.take(done) =~= all);
    out
}

/// Items are listed once each, at the place where they come up first.
pub proof fn law_distinct_grows<T>(s: Seq<T>, x: T)
    ensures
        distinct(Seq::<T>::empty()).len() == 0,
        distinct(s.push(x)) == if s.contains(x) {
            distinct(s)
        } else {
            distinct(s).push(x)
        },
{
    assert(s.push(x).drop_last() =~= s);
    law_distinct(s);
    assert(distinct(s).contains(x) <==> s.contains(x));
}

/// Items are counted one by one.
pub proof fn law_count<T>(s: Seq<T>, x: T, p: spec_fn(T) -> bool)
    ensures
        count_of(Seq::<T>::empty(), p) == 0,
        count_of(s.push(x), p) == if p(x) {
            count_of(s, p) + 1
        } else {
            count_of(s, p)
        },
{
    assert(s.push(x).drop_last() =~= s);
}

} // verus!
