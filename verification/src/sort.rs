//! Frecency ranking: deduplicate a command history and order it by
//! frequency, breaking ties by recency of the last occurrence.
use vstd::prelude::*;
use crate::views_of;

verus! {

/// How often `x` occurs in `s`.
pub open spec fn count_of<A>(s: Seq<A>, x: A) -> nat
    decreases s.len(),
{
    if s.len() == 0 {
        0
    } else {
        count_of(s.drop_last(), x) + if s.last() == x { 1nat } else { 0nat }
    }
}

/// Index of the last occurrence of `x` in `s`, or -1 if absent.
pub open spec fn last_pos<A>(s: Seq<A>, x: A) -> int
    decreases s.len(),
{
    if s.len() == 0 {
        -1
    } else if s.last() == x {
        s.len() - 1
    } else {
        last_pos(s.drop_last(), x)
    }
}

/// Index of the first occurrence of `x` in `s`, or -1 if absent.
pub open spec fn first_pos<A>(s: Seq<A>, x: A) -> int
    decreases s.len(),
{
    if s.len() == 0 {
        -1
    } else if s[0] == x {
        0
    } else {
        let t = first_pos(s.subrange(1, s.len() as int), x);
        if t == -1 {
            -1
        } else {
            t + 1
        }
    }
}

/// An entry that the ranker can work on: it can be duplicated and compared,
/// and both operations are pinned to the entry's abstract view.
pub trait Rankable: View + Sized {
    fn same_as(&self, other: &Self) -> (r: bool)
        ensures
            r == (self@ == other@),
    ;

    fn copy_of(&self) -> (r: Self)
        ensures
            r@ == self@,
    ;
}

impl Rankable for String {
    fn same_as(&self, other: &Self) -> (r: bool) {
        *self == *other
    }

    fn copy_of(&self) -> (r: Self) {
        self.clone()
    }
}

impl Rankable for i32 {
    fn same_as(&self, other: &Self) -> (r: bool) {
        *self == *other
    }

    fn copy_of(&self) -> (r: Self) {
        *self
    }
}

/// Whether a sequence has no two equal elements.
pub open spec fn distinct_seq<A>(s: Seq<A>) -> bool {
    forall|i: int, j: int| 0 <= i < j < s.len() ==> s[i] != s[j]
}

/// Filtering keeps elements of the original and preserves distinctness.
pub proof fn lemma_filter_distinct<A>(s: Seq<A>, pred: spec_fn(A) -> bool)
    ensures
        forall|x: A| #[trigger] s.filter(pred).contains(x) ==> s.contains(x),
        distinct_seq(s) ==> distinct_seq(s.filter(pred)),
    decreases s.len(),
{
    reveal(Seq::filter);
    if s.len() > 0 {
        let t = s.drop_last();
        lemma_filter_distinct(t, pred);
        assert forall|x: A| #[trigger] s.filter(pred).contains(x) implies s.contains(x) by {
            if s.filter(pred).contains(x) {
                if pred(s.last()) && x == s.last() {
                    assert(s[s.len() - 1] == x);
                } else {
                    let f = s.filter(pred);
                    let k = choose|k: int| 0 <= k < f.len() && f[k] == x;
                    if pred(s.last()) && k == f.len() - 1 {
                        assert(s[s.len() - 1] == x);
                    } else {
                        assert(t.filter(pred).contains(x));
                        let j = choose|j: int| 0 <= j < t.len() && t[j] == x;
                        assert(s[j] == x);
                    }
                }
            }
        }
        if distinct_seq(s) {
            assert forall|i: int, j: int| 0 <= i < j < t.len() implies t[i] != t[j] by {
                assert(t[i] == s[i]);
                assert(t[j] == s[j]);
            }
            if pred(s.last()) {
                if t.filter(pred).contains(s.last()) {
                    let j = choose|j: int| 0 <= j < t.len() && t[j] == s.last();
                    assert(s[j] == s.last());
                    assert(s[s.len() - 1] == s.last());
                    assert(false);
                }
                let f = s.filter(pred);
                assert(f == t.filter(pred).push(s.last()));
                assert forall|i: int, j: int| 0 <= i < j < f.len() implies f[i] != f[j] by {
                    if j < f.len() - 1 {
                        assert(f[i] == t.filter(pred)[i]);
                        assert(f[j] == t.filter(pred)[j]);
                    } else {
                        assert(f[j] == s.last());
                        assert(f[i] == t.filter(pred)[i]);
                        assert(t.filter(pred).contains(f[i]));
                    }
                }
            }
        }
    }
}

/// True if `r` holds some element with the same view as `x`.
pub open spec fn holds_view<T: View>(r: Seq<T>, x: T::V) -> bool {
    exists|k: int| 0 <= k < r.len() && r[k]@ == x
}

/// Whether the sequence of views has no two equal elements.
pub open spec fn distinct_views<T: View>(r: Seq<T>) -> bool {
    forall|i: int, j: int| 0 <= i < j < r.len() ==> r[i]@ != r[j]@
}

/// `count_of` over a prefix grows by one exactly where the next element is `x`.
pub proof fn lemma_count_subrange_step<A>(s: Seq<A>, x: A, i: int)
    requires
        0 <= i < s.len(),
    ensures
        count_of(s.subrange(0, i + 1), x) == count_of(s.subrange(0, i), x) + (if s[i] == x {
            1int
        } else {
            0int
        }),
{
    let t = s.subrange(0, i + 1);
    assert(t.drop_last() =~= s.subrange(0, i));
    assert(t.last() == s[i]);
}

/// The last occurrence is an occurrence, and no later index holds `x`.
pub proof fn lemma_last_pos<A>(s: Seq<A>, x: A)
    ensures
        s.contains(x) <==> 0 <= last_pos(s, x) < s.len(),
        s.contains(x) ==> s[last_pos(s, x)] == x,
        forall|j: int| 0 <= j < s.len() && s[j] == x ==> j <= last_pos(s, x),
        !s.contains(x) ==> last_pos(s, x) == -1,
    decreases s.len(),
{
    if s.len() > 0 {
        lemma_last_pos(s.drop_last(), x);
        if s.last() == x {
            assert(s[s.len() - 1] == x);
        } else {
            assert forall|j: int| 0 <= j < s.len() && s[j] == x implies j <= last_pos(s, x) by {
                assert(j < s.len() - 1);
                assert(s.drop_last()[j] == x);
            }
            if s.drop_last().contains(x) {
                let j = choose|j: int|
                    0 <= j < s.drop_last().len() && s.drop_last()[j] == x;
                assert(s[j] == x);
            }
            if s.contains(x) {
                let j = choose|j: int| 0 <= j < s.len() && s[j] == x;
                assert(j < s.len() - 1);
                assert(s.drop_last()[j] == x);
            }
        }
    }
}

/// The first occurrence is an occurrence, and no earlier index holds `x`.
pub proof fn lemma_first_pos<A>(s: Seq<A>, x: A)
    ensures
        s.contains(x) <==> 0 <= first_pos(s, x) < s.len(),
        s.contains(x) ==> s[first_pos(s, x)] == x,
        forall|j: int| 0 <= j < s.len() && s[j] == x ==> first_pos(s, x) <= j,
        !s.contains(x) ==> first_pos(s, x) == -1,
    decreases s.len(),
{
    if s.len() > 0 {
        let t = s.subrange(1, s.len() as int);
        lemma_first_pos(t, x);
        if s[0] == x {
        } else {
            assert forall|j: int| 0 <= j < s.len() && s[j] == x implies first_pos(s, x) <= j by {
                assert(j >= 1);
                assert(t[j - 1] == x);
            }
            if t.contains(x) {
                let j = choose|j: int| 0 <= j < t.len() && t[j] == x;
                assert(s[j + 1] == x);
            }
            if s.contains(x) {
                let j = choose|j: int| 0 <= j < s.len() && s[j] == x;
                assert(j >= 1);
                assert(t[j - 1] == x);
            }
        }
    }
}

fn count_occurrences<T: Rankable>(entries: &Vec<T>, x: &T) -> (c: usize)
    ensures
        c == count_of(views_of(entries@), x@),
{
    let ghost v = views_of(entries@);
    let mut c: usize = 0;
    let mut i: usize = 0;
    while i < entries.len()
        invariant
            0 <= i <= entries@.len(),
            v == views_of(entries@),
            c == count_of(v.subrange(0, i as int), x@),
            c <= i,
        decreases entries@.len() - i,
    {
        proof {
            lemma_count_subrange_step(v, x@, i as int);
        }
        if entries[i].same_as(x) {
            c = c + 1;
        }
        i = i + 1;
    }
    proof {
        assert(v.subrange(0, entries@.len() as int) =~= v);
    }
    c
}

pub(crate) fn contains_entry<T: Rankable>(v: &Vec<T>, x: &T) -> (r: bool)
    ensures
        r == holds_view(v@, x@),
{
    let mut i: usize = 0;
    while i < v.len()
        invariant
            0 <= i <= v@.len(),
            forall|k: int| 0 <= k < i ==> v@[k]@ != x@,
        decreases v@.len() - i,
    {
        if v[i].same_as(x) {
            assert(v@[i as int]@ == x@);
            return true;
        }
        i = i + 1;
    }
    false
}

pub proof fn lemma_views_push<T: View>(s: Seq<T>, e: T)
    ensures
        views_of(s.push(e)) == views_of(s).push(e@),
{
    assert(views_of(s.push(e)) =~= views_of(s).push(e@));
}

/// An element is held by a vector exactly when its view occurs among the
/// vector's element views.
pub proof fn lemma_holds_view_contains<T: View>(s: Seq<T>, x: T::V)
    ensures
        holds_view(s, x) <==> views_of(s).contains(x),
{
    if holds_view(s, x) {
        let k = choose|k: int| 0 <= k < s.len() && s[k]@ == x;
        assert(views_of(s)[k] == x);
    }
    if views_of(s).contains(x) {
        let k = choose|k: int| 0 <= k < views_of(s).len() && views_of(s)[k] == x;
        assert(s[k]@ == x);
    }
}

/// Distinct entries of `entries`, ordered by strictly decreasing index of
/// their last occurrence (most recently used first).
fn recency_order<T: Rankable>(entries: &Vec<T>) -> (r: Vec<T>)
    ensures
        distinct_views(r@),
        forall|k: int| 0 <= k < r@.len() ==> views_of(entries@).contains(#[trigger] r@[k]@),
        forall|j: int|
            0 <= j < entries@.len() ==> holds_view(r@, #[trigger] views_of(entries@)[j]),
        forall|k: int, l: int|
            0 <= k < l < r@.len() ==> last_pos(views_of(entries@), r@[k]@) > last_pos(
                views_of(entries@),
                r@[l]@,
            ),
{
    let ghost v = views_of(entries@);
    let ghost n = v.len() as int;
    let mut r: Vec<T> = Vec::new();
    let mut i: usize = entries.len();
    while i > 0
        invariant
            0 <= i <= entries@.len(),
            v == views_of(entries@),
            n == v.len() as int,
            distinct_views(r@),
            forall|k: int| 0 <= k < r@.len() ==> v.subrange(i as int, n).contains(#[trigger] r@[k]@),
            forall|j: int| i <= j < n ==> holds_view(r@, #[trigger] v[j]),
            forall|k: int, l: int|
                0 <= k < l < r@.len() ==> last_pos(v, r@[k]@) > last_pos(v, r@[l]@),
        decreases i,
    {
        i = i - 1;
        let ghost old_r = r@;
        assert(v[i as int] == entries@[i as int]@);
        if !contains_entry(&r, &entries[i]) {
            proof {
                // the element does not occur later than i
                assert forall|j: int| i < j < n implies v[j] != v[i as int] by {
                    if v[j] == v[i as int] {
                        assert(v.subrange(i as int + 1, n)[j - i - 1] == v[j]);
                        assert(holds_view(old_r, v[j]));
                    }
                }
                lemma_last_pos(v, v[i as int]);
                assert(last_pos(v, v[i as int]) >= i) by {
                    assert(v[i as int] == v[i as int]);
                }
                if last_pos(v, v[i as int]) > i {
                    assert(v[last_pos(v, v[i as int])] == v[i as int]);
                }
                assert(last_pos(v, v[i as int]) == i);
                // existing elements occur strictly later
                assert forall|k: int| 0 <= k < old_r.len() implies last_pos(v, old_r[k]@)
                    > i by {
                    let s = v.subrange(i as int + 1, n);
                    assert(s.contains(old_r[k]@));
                    let w = choose|w: int| 0 <= w < s.len() && s[w] == old_r[k]@;
                    assert(s[w] == v[i as int + 1 + w]);
                    lemma_last_pos(v, old_r[k]@);
                }
            }
            let e = entries[i].copy_of();
            r.push(e);
            proof {
                assert(r@ == old_r.push(e));
                assert forall|k: int| 0 <= k < r@.len() implies v.subrange(i as int, n).contains(
                    #[trigger] r@[k]@,
                ) by {
                    if k < old_r.len() {
                        let s1 = v.subrange(i as int + 1, n);
                        assert(s1.contains(old_r[k]@));
                        let w = choose|w: int| 0 <= w < s1.len() && s1[w] == old_r[k]@;
                        assert(s1[w] == v[i as int + 1 + w]);
                        assert(v.subrange(i as int, n)[w + 1] == v[i as int + 1 + w]);
                    } else {
                        assert(r@[k]@ == v[i as int]);
                        assert(v.subrange(i as int, n)[0] == v[i as int]);
                    }
                }
                assert forall|j: int| i <= j < n implies holds_view(r@, #[trigger] v[j]) by {
                    if j == i {
                        assert(r@[old_r.len() as int]@ == v[i as int]);
                    } else {
                        assert(holds_view(old_r, v[j]));
                        let w = choose|w: int| 0 <= w < old_r.len() && old_r[w]@ == v[j];
                        assert(r@[w]@ == v[j]);
                    }
                }
            }
        } else {
            proof {
                assert forall|k: int| 0 <= k < r@.len() implies v.subrange(i as int, n).contains(
                    #[trigger] r@[k]@,
                ) by {
                    let s1 = v.subrange(i as int + 1, n);
                    assert(s1.contains(r@[k]@));
                    let w = choose|w: int| 0 <= w < s1.len() && s1[w] == r@[k]@;
                    assert(s1[w] == v[i as int + 1 + w]);
                    assert(v.subrange(i as int, n)[w + 1] == v[i as int + 1 + w]);
                }
                assert forall|j: int| i <= j < n implies holds_view(r@, #[trigger] v[j]) by {
                    if j == i {
                        assert(holds_view(r@, v[i as int]));
                    }
                }
            }
        }
    }
    proof {
        assert(v.subrange(0, n) =~= v);
    }
    r
}

/// Number of leading entries of `out` whose frequency in `entries` is at
/// least `cx`: the place where an entry of frequency `cx` is inserted.
fn insertion_point<T: Rankable>(out: &Vec<T>, entries: &Vec<T>, cx: usize) -> (p: usize)
    requires
        forall|k: int, l: int|
            0 <= k < l < out@.len() ==> count_of(views_of(entries@), out@[k]@) >= count_of(
                views_of(entries@),
                out@[l]@,
            ),
    ensures
        p <= out@.len(),
        forall|k: int| 0 <= k < p ==> count_of(views_of(entries@), out@[k]@) >= cx,
        forall|k: int|
            p <= k < out@.len() ==> count_of(views_of(entries@), out@[k]@) < cx,
{
    let ghost v = views_of(entries@);
    let mut p: usize = 0;
    while p < out.len()
        invariant
            0 <= p <= out@.len(),
            v == views_of(entries@),
            forall|k: int| 0 <= k < p ==> count_of(v, out@[k]@) >= cx,
            forall|k: int, l: int|
                0 <= k < l < out@.len() ==> count_of(v, out@[k]@) >= count_of(v, out@[l]@),
        decreases out@.len() - p,
    {
        let c = count_occurrences(entries, &out[p]);
        if c < cx {
            return p;
        }
        p = p + 1;
    }
    p
}

/// Stable descending sort of the distinct `recency` entries by their
/// frequency in `entries`; `recency` must already be in recency order, so
/// equal frequencies stay ordered by their last occurrence.
#[verifier::rlimit(60)]
fn rank_by_frequency<T: Rankable>(recency: Vec<T>, entries: &Vec<T>) -> (r: Vec<T>)
    requires
        distinct_views(recency@),
        forall|k: int, l: int|
            0 <= k < l < recency@.len() ==> last_pos(views_of(entries@), recency@[k]@) > last_pos(
                views_of(entries@),
                recency@[l]@,
            ),
    ensures
        distinct_views(r@),
        r@.len() == recency@.len(),
        forall|x: <T as View>::V| holds_view(r@, x) <==> holds_view(recency@, x),
        forall|k: int, l: int|
            0 <= k < l < r@.len() ==> count_of(views_of(entries@), r@[k]@) >= count_of(
                views_of(entries@),
                r@[l]@,
            ),
        forall|k: int, l: int|
            0 <= k < l < r@.len() && count_of(views_of(entries@), r@[k]@) == count_of(
                views_of(entries@),
                r@[l]@,
            ) ==> last_pos(views_of(entries@), r@[k]@) > last_pos(views_of(entries@), r@[l]@),
{
    let ghost v = views_of(entries@);
    let ghost m = recency@.len() as int;
    let mut out: Vec<T> = Vec::new();
    let mut j: usize = 0;
    while j < recency.len()
        invariant
            0 <= j <= m,
            v == views_of(entries@),
            m == recency@.len() as int,
            distinct_views(recency@),
            forall|k: int, l: int|
                0 <= k < l < m ==> last_pos(v, recency@[k]@) > last_pos(v, recency@[l]@),
            out@.len() == j,
            distinct_views(out@),
            forall|k: int| 0 <= k < out@.len() ==> holds_view(recency@.subrange(0, j as int), #[trigger] out@[k]@),
            forall|w: int| 0 <= w < j ==> holds_view(out@, #[trigger] recency@[w]@),
            forall|k: int, l: int|
                0 <= k < l < out@.len() ==> count_of(v, out@[k]@) >= count_of(v, out@[l]@),
            forall|k: int, l: int|
                0 <= k < l < out@.len() && count_of(v, out@[k]@) == count_of(v, out@[l]@)
                    ==> last_pos(v, out@[k]@) > last_pos(v, out@[l]@),
        decreases m - j,
    {
        let x = recency[j].copy_of();
        let cx = count_occurrences(entries, &x);
        let p = insertion_point(&out, entries, cx);
        let ghost old_out = out@;
        proof {
            // the new entry is not yet present
            if holds_view(old_out, x@) {
                let k = choose|k: int| 0 <= k < old_out.len() && old_out[k]@ == x@;
                assert(holds_view(recency@.subrange(0, j as int), old_out[k]@));
                let w = choose|w: int|
                    0 <= w < recency@.subrange(0, j as int).len() && recency@.subrange(
                        0,
                        j as int,
                    )[w]@ == old_out[k]@;
                assert(recency@[w]@ == recency@[j as int]@);
                assert(false);
            }
            // entries already placed sit strictly earlier in recency order
            assert forall|k: int| 0 <= k < old_out.len() implies last_pos(v, old_out[k]@)
                > last_pos(v, x@) by {
                assert(holds_view(recency@.subrange(0, j as int), old_out[k]@));
                let w = choose|w: int|
                    0 <= w < recency@.subrange(0, j as int).len() && recency@.subrange(
                        0,
                        j as int,
                    )[w]@ == old_out[k]@;
                assert(recency@[w]@ == old_out[k]@);
                assert(last_pos(v, recency@[w]@) > last_pos(v, recency@[j as int]@));
            }
            old_out.insert_ensures(p as int, x);
        }
        out.insert(p, x);
        proof {
            assert(out@ == old_out.insert(p as int, x));
            let new_out = out@;
            // membership both ways
            assert forall|k: int| 0 <= k < new_out.len() implies holds_view(
                recency@.subrange(0, j as int + 1),
                #[trigger] new_out[k]@,
            ) by {
                let s = recency@.subrange(0, j as int + 1);
                if k == p {
                    assert(new_out[k]@ == x@);
                    assert(s[j as int]@ == recency@[j as int]@);
                } else {
                    let ko = if k < p { k } else { k - 1 };
                    assert(new_out[k]@ == old_out[ko]@);
                    assert(holds_view(recency@.subrange(0, j as int), old_out[ko]@));
                    let w = choose|w: int|
                        0 <= w < recency@.subrange(0, j as int).len() && recency@.subrange(
                            0,
                            j as int,
                        )[w]@ == old_out[ko]@;
                    assert(s[w]@ == recency@[w]@);
                }
            }
            assert forall|w: int| 0 <= w < j + 1 implies holds_view(
                new_out,
                #[trigger] recency@[w]@,
            ) by {
                if w == j {
                    assert(new_out[p as int]@ == recency@[j as int]@);
                } else {
                    assert(holds_view(old_out, recency@[w]@));
                    let k = choose|k: int| 0 <= k < old_out.len() && old_out[k]@ == recency@[w]@;
                    if k < p {
                        assert(new_out[k]@ == recency@[w]@);
                    } else {
                        assert(new_out[k + 1]@ == recency@[w]@);
                    }
                }
            }
            // distinctness
            assert forall|k: int, l: int| 0 <= k < l < new_out.len() implies new_out[k]@
                != new_out[l]@ by {
                if k == p || l == p {
                    let o = if k == p { if l < p { l } else { l - 1 } } else if k < p { k } else { k - 1 };
                    assert(!holds_view(old_out, x@));
                    assert(0 <= o < old_out.len());
                } else {
                    let ko = if k < p { k } else { k - 1 };
                    let lo = if l < p { l } else { l - 1 };
                    assert(new_out[k]@ == old_out[ko]@);
                    assert(new_out[l]@ == old_out[lo]@);
                }
            }
            // ordering
            assert forall|k: int, l: int| 0 <= k < l < new_out.len() implies count_of(
                v,
                new_out[k]@,
            ) >= count_of(v, new_out[l]@) && (count_of(v, new_out[k]@) == count_of(v, new_out[l]@)
                ==> last_pos(v, new_out[k]@) > last_pos(v, new_out[l]@)) by {
                if k == p {
                    let lo = l - 1;
                    assert(new_out[l]@ == old_out[lo]@);
                    assert(count_of(v, old_out[lo]@) < cx);
                } else if l == p {
                    assert(new_out[k]@ == old_out[k]@);
                    assert(count_of(v, old_out[k]@) >= cx);
                    assert(last_pos(v, old_out[k]@) > last_pos(v, x@));
                } else {
                    let ko = if k < p { k } else { k - 1 };
                    let lo = if l < p { l } else { l - 1 };
                    assert(new_out[k]@ == old_out[ko]@);
                    assert(new_out[l]@ == old_out[lo]@);
                    if ko >= p {
                        assert(count_of(v, old_out[ko]@) < cx);
                    }
                    if lo < p {
                        assert(count_of(v, old_out[lo]@) >= cx);
                    }
                }
            }
            assert(recency@.subrange(0, j as int + 1).len() == j + 1);
        }
        j = j + 1;
    }
    proof {
        assert(recency@.subrange(0, m) =~= recency@);
        assert forall|x: <T as View>::V| holds_view(out@, x) <==> holds_view(recency@, x) by {
            if holds_view(out@, x) {
                let k = choose|k: int| 0 <= k < out@.len() && out@[k]@ == x;
                assert(holds_view(recency@.subrange(0, m), out@[k]@));
            }
            if holds_view(recency@, x) {
                let w = choose|w: int| 0 <= w < recency@.len() && recency@[w]@ == x;
                assert(holds_view(out@, recency@[w]@));
            }
        }
    }
    out
}

/// What it means for `output` to be the frecency ranking of `input`:
/// each distinct element of `input` appears exactly once, more frequent
/// elements come first, and equal frequencies are ordered by how recently
/// the element last occurred.
pub open spec fn is_ranking_of<A>(input: Seq<A>, output: Seq<A>) -> bool {
    &&& forall|i: int, j: int| 0 <= i < j < output.len() ==> output[i] != output[j]
    &&& forall|x: A| #[trigger] output.contains(x) <==> input.contains(x)
    &&& forall|i: int, j: int|
        0 <= i < j < output.len() ==> count_of(input, output[i]) >= count_of(input, output[j])
    &&& forall|i: int, j: int|
        0 <= i < j < output.len() && count_of(input, output[i]) == count_of(input, output[j])
            ==> last_pos(input, output[i]) > last_pos(input, output[j])
}

/// Rank a command history: deduplicate it and order it by descending
/// frequency, breaking frequency ties by recency of the last occurrence.
pub fn sort<T: Rankable>(entries: Vec<T>) -> (r: Vec<T>)
    ensures
        is_ranking_of(views_of(entries@), views_of(r@)),
{
    let recency = recency_order(&entries);
    let r = rank_by_frequency(recency, &entries);
    proof {
        let v = views_of(entries@);
        let o = views_of(r@);
        assert forall|i: int, j: int| 0 <= i < j < o.len() implies o[i] != o[j] by {
            assert(o[i] == r@[i]@);
            assert(o[j] == r@[j]@);
        }
        assert forall|x: <T as View>::V| #[trigger] o.contains(x) <==> v.contains(x) by {
            if o.contains(x) {
                let k = choose|k: int| 0 <= k < o.len() && o[k] == x;
                assert(r@[k]@ == x);
                assert(holds_view(r@, x));
                assert(holds_view(recency@, x));
                let w = choose|w: int| 0 <= w < recency@.len() && recency@[w]@ == x;
                assert(v.contains(recency@[w]@));
            }
            if v.contains(x) {
                let j = choose|j: int| 0 <= j < v.len() && v[j] == x;
                assert(holds_view(recency@, v[j]));
                assert(holds_view(r@, x));
                let k = choose|k: int| 0 <= k < r@.len() && r@[k]@ == x;
                assert(o[k] == x);
            }
        }
        assert forall|i: int, j: int| 0 <= i < j < o.len() implies count_of(v, o[i]) >= count_of(
            v,
            o[j],
        ) && (count_of(v, o[i]) == count_of(v, o[j]) ==> last_pos(v, o[i]) > last_pos(
            v,
            o[j],
        )) by {
            assert(o[i] == r@[i]@);
            assert(o[j] == r@[j]@);
        }
    }
    r
}

/// What it means for `output` to be `input` with duplicates removed while
/// keeping the order of first occurrences.
pub open spec fn is_unique_of<A>(input: Seq<A>, output: Seq<A>) -> bool {
    &&& forall|i: int, j: int| 0 <= i < j < output.len() ==> output[i] != output[j]
    &&& forall|x: A| #[trigger] output.contains(x) <==> input.contains(x)
    &&& forall|i: int, j: int|
        0 <= i < j < output.len() ==> first_pos(input, output[i]) < first_pos(input, output[j])
}

/// Remove duplicates from `entries`, keeping the first occurrence of each
/// element and the order in which those first occurrences appear.
pub fn unique<T: Rankable>(entries: &Vec<T>) -> (r: Vec<T>)
    ensures
        is_unique_of(views_of(entries@), views_of(r@)),
{
    let ghost v = views_of(entries@);
    let ghost n = v.len() as int;
    let mut r: Vec<T> = Vec::new();
    let mut i: usize = 0;
    while i < entries.len()
        invariant
            0 <= i <= n,
            v == views_of(entries@),
            n == v.len() as int,
            distinct_views(r@),
            forall|k: int| 0 <= k < r@.len() ==> v.subrange(0, i as int).contains(#[trigger] r@[k]@),
            forall|j: int| 0 <= j < i ==> holds_view(r@, #[trigger] v[j]),
            forall|k: int, l: int|
                0 <= k < l < r@.len() ==> first_pos(v, r@[k]@) < first_pos(v, r@[l]@),
        decreases n - i,
    {
        let ghost old_r = r@;
        assert(v[i as int] == entries@[i as int]@);
        if !contains_entry(&r, &entries[i]) {
            proof {
                // the element does not occur before i
                assert forall|j: int| 0 <= j < i implies v[j] != v[i as int] by {
                    if v[j] == v[i as int] {
                        assert(holds_view(old_r, v[j]));
                    }
                }
                lemma_first_pos(v, v[i as int]);
                assert(v.contains(v[i as int]));
                if first_pos(v, v[i as int]) < i {
                    assert(v[first_pos(v, v[i as int])] == v[i as int]);
                }
                assert(first_pos(v, v[i as int]) == i);
                // existing elements occur strictly earlier
                assert forall|k: int| 0 <= k < old_r.len() implies first_pos(v, old_r[k]@)
                    < i by {
                    let s = v.subrange(0, i as int);
                    assert(s.contains(old_r[k]@));
                    let w = choose|w: int| 0 <= w < s.len() && s[w] == old_r[k]@;
                    assert(v[w] == old_r[k]@);
                    lemma_first_pos(v, old_r[k]@);
                }
            }
            let e = entries[i].copy_of();
            r.push(e);
            proof {
                assert(r@ == old_r.push(e));
                assert forall|k: int| 0 <= k < r@.len() implies v.subrange(0, i as int + 1).contains(
                    #[trigger] r@[k]@,
                ) by {
                    if k < old_r.len() {
                        let s = v.subrange(0, i as int);
                        assert(s.contains(old_r[k]@));
                        let w = choose|w: int| 0 <= w < s.len() && s[w] == old_r[k]@;
                        assert(v.subrange(0, i as int + 1)[w] == v[w]);
                    } else {
                        assert(r@[k]@ == v[i as int]);
                        assert(v.subrange(0, i as int + 1)[i as int] == v[i as int]);
                    }
                }
                assert forall|j: int| 0 <= j < i + 1 implies holds_view(r@, #[trigger] v[j]) by {
                    if j == i {
                        assert(r@[old_r.len() as int]@ == v[i as int]);
                    } else {
                        assert(holds_view(old_r, v[j]));
                        let w = choose|w: int| 0 <= w < old_r.len() && old_r[w]@ == v[j];
                        assert(r@[w]@ == v[j]);
                    }
                }
            }
        } else {
            proof {
                assert forall|k: int| 0 <= k < r@.len() implies v.subrange(0, i as int + 1).contains(
                    #[trigger] r@[k]@,
                ) by {
                    let s = v.subrange(0, i as int);
                    assert(s.contains(r@[k]@));
                    let w = choose|w: int| 0 <= w < s.len() && s[w] == r@[k]@;
                    assert(v.subrange(0, i as int + 1)[w] == v[w]);
                }
            }
        }
        i = i + 1;
    }
    proof {
        let o = views_of(r@);
        assert(v.subrange(0, n) =~= v);
        assert forall|i2: int, j2: int| 0 <= i2 < j2 < o.len() implies o[i2] != o[j2] by {
            assert(o[i2] == r@[i2]@);
            assert(o[j2] == r@[j2]@);
        }
        assert forall|x: <T as View>::V| #[trigger] o.contains(x) <==> v.contains(x) by {
            if o.contains(x) {
                let k = choose|k: int| 0 <= k < o.len() && o[k] == x;
                assert(r@[k]@ == x);
                assert(v.subrange(0, n).contains(r@[k]@));
            }
            if v.contains(x) {
                let j = choose|j: int| 0 <= j < v.len() && v[j] == x;
                assert(holds_view(r@, v[j]));
                let k = choose|k: int| 0 <= k < r@.len() && r@[k]@ == x;
                assert(o[k] == x);
            }
        }
        assert forall|i2: int, j2: int| 0 <= i2 < j2 < o.len() implies first_pos(v, o[i2])
            < first_pos(v, o[j2]) by {
            assert(o[i2] == r@[i2]@);
            assert(o[j2] == r@[j2]@);
        }
    }
    r
}

/// Index of the last occurrence of `x` in `entries`; `x` must occur.
fn last_occurrence<T: Rankable>(entries: &Vec<T>, x: &T) -> (p: usize)
    requires
        holds_view(entries@, x@),
    ensures
        p < entries@.len(),
        p as int == last_pos(views_of(entries@), x@),
{
    let ghost v = views_of(entries@);
    let mut i: usize = entries.len();
    proof {
        let k = choose|k: int| 0 <= k < entries@.len() && entries@[k]@ == x@;
        assert(v[k] == x@);
    }
    while i > 0
        invariant
            0 <= i <= entries@.len(),
            v == views_of(entries@),
            exists|k: int| 0 <= k < i && v[k] == x@,
            forall|j: int| i <= j < v.len() ==> v[j] != x@,
        decreases i,
    {
        i = i - 1;
        assert(v[i as int] == entries@[i as int]@);
        if entries[i].same_as(x) {
            proof {
                lemma_last_pos(v, x@);
                assert(v.contains(x@));
                if last_pos(v, x@) > i {
                    assert(v[last_pos(v, x@)] == x@);
                }
            }
            return i;
        }
    }
    proof {
        assert(false);
    }
    0
}

/// For each position of `entries`, how often the entry there occurs in the
/// whole of `entries`.
pub fn frequency_map<T: Rankable>(entries: &Vec<T>) -> (r: Vec<usize>)
    ensures
        r@.len() == entries@.len(),
        forall|i: int|
            0 <= i < r@.len() ==> r@[i] == count_of(views_of(entries@), entries@[i]@),
{
    let mut r: Vec<usize> = Vec::new();
    let mut i: usize = 0;
    while i < entries.len()
        invariant
            0 <= i <= entries@.len(),
            r@.len() == i,
            forall|k: int|
                0 <= k < i ==> r@[k] == count_of(views_of(entries@), entries@[k]@),
        decreases entries@.len() - i,
    {
        let c = count_occurrences(entries, &entries[i]);
        r.push(c);
        i = i + 1;
    }
    r
}

/// For each position of `entries`, the index of the last occurrence of the
/// entry there.
pub fn position_map<T: Rankable>(entries: &Vec<T>) -> (r: Vec<usize>)
    ensures
        r@.len() == entries@.len(),
        forall|i: int|
            0 <= i < r@.len() ==> r@[i] as int == last_pos(views_of(entries@), entries@[i]@),
{
    let mut r: Vec<usize> = Vec::new();
    let mut i: usize = 0;
    while i < entries.len()
        invariant
            0 <= i <= entries@.len(),
            r@.len() == i,
            forall|k: int|
                0 <= k < i ==> r@[k] as int == last_pos(views_of(entries@), entries@[k]@),
        decreases entries@.len() - i,
    {
        assert(entries@[i as int]@ == entries@[i as int]@);
        let p = last_occurrence(entries, &entries[i]);
        r.push(p);
        i = i + 1;
    }
    r
}

} // verus!
