//! What inserting and merging slices keeps: the order by time point, the
//! slices already there, and the slice inserted; and where a keysound number
//! leads back to.
use vstd::prelude::*;

use crate::project::{
    at_time, autos, closest_index, is_auto, keysound_index, nth_auto, SliceKeysound, distance, find_time, has_time, insert_in_order, inserted, lemma_find_time,
    lemma_insert_in_order_at_pub, sort_by_time,
    strictly_ordered, union_of, Slice,
};
use crate::ratio::{abs_int, lemma_difference_den_positive, lemma_difference_value};
use crate::time_point::{value_eq, value_le, value_lt, TimePoint};

verus! {

broadcast use TimePoint::lemma_den_positive;

/// The order of fractions with positive denominators is transitive.
pub proof fn lemma_value_order_transitive(a: (int, int), b: (int, int), c: (int, int))
    requires
        a.1 > 0,
        b.1 > 0,
        c.1 > 0,
    ensures
        value_le(a, b) && value_le(b, c) ==> value_le(a, c),
        value_lt(a, b) && value_le(b, c) ==> value_lt(a, c),
        value_le(a, b) && value_lt(b, c) ==> value_lt(a, c),
{
    assert(value_le(a, b) && value_le(b, c) ==> value_le(a, c)) by (nonlinear_arith)
        requires
            a.1 > 0,
            b.1 > 0,
            c.1 > 0,
    ;
    assert(value_lt(a, b) && value_le(b, c) ==> value_lt(a, c)) by (nonlinear_arith)
        requires
            a.1 > 0,
            b.1 > 0,
            c.1 > 0,
    ;
    assert(value_le(a, b) && value_lt(b, c) ==> value_lt(a, c)) by (nonlinear_arith)
        requires
            a.1 > 0,
            b.1 > 0,
            c.1 > 0,
    ;
}

/// Inserting a slice at a new time point into ordered slices keeps them ordered,
/// and places it somewhere among them.
proof fn lemma_insert_in_order_ordered(s: Seq<Slice>, x: Slice)
    requires
        strictly_ordered(s),
        !has_time(s, x.time_point),
    ensures
        strictly_ordered(insert_in_order(s, x)),
        exists|p: int| 0 <= p <= s.len() && insert_in_order(s, x) == s.insert(p, x),
    decreases s.len(),
{
    if s.len() == 0 {
        assert(insert_in_order(s, x) == s.insert(0, x));
    } else {
        let last = s.last();
        let t = s.drop_last();
        assert(!at_time(s[s.len() - 1], x.time_point));
        if value_lt(x.time_point@, last.time_point@) {
            assert forall|i: int| 0 <= i < t.len() implies !at_time(#[trigger] t[i], x.time_point) by {
                assert(t[i] == s[i]);
            }
            lemma_insert_in_order_ordered(t, x);
            let p = choose|p: int| 0 <= p <= t.len() && insert_in_order(t, x) == t.insert(p, x);
            let r = insert_in_order(t, x);
            assert(r.push(last) =~= s.insert(p, x));
            assert forall|i: int, j: int| 0 <= i < j < r.push(last).len() implies value_lt(
                #[trigger] r.push(last)[i].time_point@,
                #[trigger] r.push(last)[j].time_point@,
            ) by {
                if j < r.len() {
                    assert(r.push(last)[i] == r[i]);
                    assert(r.push(last)[j] == r[j]);
                } else {
                    if i < p {
                        assert(r.push(last)[i] == s[i]);
                    } else if i > p {
                        assert(r.push(last)[i] == s[i - 1]);
                    }
                }
            }
        } else {
            assert(value_le(last.time_point@, x.time_point@));
            assert(value_lt(last.time_point@, x.time_point@));
            assert(insert_in_order(s, x) =~= s.insert(s.len() as int, x));
            assert forall|i: int, j: int|
                0 <= i < j < s.push(x).len() implies value_lt(
                #[trigger] s.push(x)[i].time_point@,
                #[trigger] s.push(x)[j].time_point@,
            ) by {
                if j == s.len() {
                    if i < s.len() - 1 {
                        lemma_value_order_transitive(
                            s[i].time_point@,
                            last.time_point@,
                            x.time_point@,
                        );
                    }
                } else {
                    assert(s.push(x)[i] == s[i]);
                    assert(s.push(x)[j] == s[j]);
                }
            }
        }
    }
}

/// Sorting slices that are already ordered changes nothing.
proof fn lemma_sort_ordered(s: Seq<Slice>)
    requires
        strictly_ordered(s),
    ensures
        sort_by_time(s) == s,
    decreases s.len(),
{
    if s.len() > 0 {
        let t = s.drop_last();
        assert(strictly_ordered(t)) by {
            assert forall|i: int, j: int| 0 <= i < j < t.len() implies value_lt(
                #[trigger] t[i].time_point@,
                #[trigger] t[j].time_point@,
            ) by {
                assert(t[i] == s[i] && t[j] == s[j]);
            }
        }
        lemma_sort_ordered(t);
        if t.len() > 0 {
            assert(t.last() == s[s.len() - 2]);
        }
        assert(t.push(s.last()) =~= s);
    }
}

/// Inserting a slice into slices ordered by time point keeps them ordered,
/// keeps every slice that was there, and leaves a slice at the inserted time
/// point; the slice is added exactly when no slice was at its time point.
pub proof fn lemma_insert_keeps_order(s: Seq<Slice>, x: Slice)
    requires
        strictly_ordered(s),
    ensures
        strictly_ordered(inserted(s, x)),
        has_time(inserted(s, x), x.time_point),
        forall|i: int| 0 <= i < s.len() ==> inserted(s, x).contains(#[trigger] s[i]),
        has_time(s, x.time_point) ==> inserted(s, x) == s,
        !has_time(s, x.time_point) ==> inserted(s, x).contains(x) && inserted(s, x).len() == s.len()
            + 1,
{
    if !has_time(s, x.time_point) {
        lemma_sort_ordered(s);
        assert(s.push(x).drop_last() =~= s);
        lemma_insert_in_order_ordered(s, x);
        let p = choose|p: int| 0 <= p <= s.len() && insert_in_order(s, x) == s.insert(p, x);
        let r = s.insert(p, x);
        assert(r[p] == x);
        assert(at_time(r[p], x.time_point));
        assert forall|i: int| 0 <= i < s.len() implies r.contains(#[trigger] s[i]) by {
            if i < p {
                assert(r[i] == s[i]);
            } else {
                assert(r[i + 1] == s[i]);
            }
        }
        assert(r.contains(x));
    }
}

/// Merging slices into slices ordered by time point keeps them ordered, keeps
/// every slice that was there, and leaves a slice at every time point of the
/// merged slices.
pub proof fn lemma_union_keeps_order(s: Seq<Slice>, o: Seq<Slice>)
    requires
        strictly_ordered(s),
    ensures
        strictly_ordered(union_of(s, o)),
        forall|i: int| 0 <= i < s.len() ==> union_of(s, o).contains(#[trigger] s[i]),
        forall|j: int| 0 <= j < o.len() ==> has_time(union_of(s, o), (#[trigger] o[j]).time_point),
    decreases o.len(),
{
    if o.len() > 0 {
        let o0 = o.drop_last();
        lemma_union_keeps_order(s, o0);
        let u = union_of(s, o0);
        lemma_insert_keeps_order(u, o.last());
        assert forall|i: int| 0 <= i < s.len() implies union_of(s, o).contains(#[trigger] s[i]) by {
            let k = choose|k: int| 0 <= k < u.len() && u[k] == s[i];
            assert(inserted(u, o.last()).contains(u[k]));
        }
        assert forall|j: int| 0 <= j < o.len() implies has_time(
            union_of(s, o),
            (#[trigger] o[j]).time_point,
        ) by {
            if j < o0.len() {
                assert(o0[j] == o[j]);
                let k = choose|k: int| 0 <= k < u.len() && at_time(#[trigger] u[k], o[j].time_point);
                assert(inserted(u, o.last()).contains(u[k]));
                let m = choose|m: int|
                    0 <= m < inserted(u, o.last()).len() && inserted(u, o.last())[m] == u[k];
                assert(at_time(inserted(u, o.last())[m], o[j].time_point));
            }
        }
    }
}

/// After inserting a slice, querying its time point finds a slice there.
pub proof fn lemma_query_after_insert(s: Seq<Slice>, x: Slice)
    ensures
        find_time(inserted(s, x), x.time_point) is Some,
{
    let r = inserted(s, x);
    if !has_time(s, x.time_point) {
        lemma_sort_contains(s.push(x));
        assert(s.push(x)[s.len() as int] == x);
        assert(s.push(x).contains(x));
        let k = choose|k: int| 0 <= k < r.len() && r[k] == x;
        assert(at_time(r[k], x.time_point));
    }
    lemma_find_time(r, x.time_point);
}

/// Sorting keeps every slice.
proof fn lemma_sort_contains(s: Seq<Slice>)
    ensures
        forall|y: Slice| s.contains(y) ==> sort_by_time(s).contains(y),
    decreases s.len(),
{
    if s.len() > 0 {
        let t = s.drop_last();
        lemma_sort_contains(t);
        lemma_insert_in_order_contains(sort_by_time(t), s.last());
        assert forall|y: Slice| s.contains(y) implies sort_by_time(s).contains(y) by {
            let k = choose|k: int| 0 <= k < s.len() && s[k] == y;
            if k < t.len() {
                assert(t[k] == y);
                assert(t.contains(y));
                assert(sort_by_time(t).contains(y));
            }
        }
    }
}

/// Inserting in order keeps every slice and adds the new one.
proof fn lemma_insert_in_order_contains(s: Seq<Slice>, x: Slice)
    ensures
        insert_in_order(s, x).contains(x),
        forall|y: Slice| s.contains(y) ==> insert_in_order(s, x).contains(y),
    decreases s.len(),
{
    if s.len() == 0 {
        assert(insert_in_order(s, x)[0] == x);
    } else {
        let t = s.drop_last();
        if value_lt(x.time_point@, s.last().time_point@) {
            lemma_insert_in_order_contains(t, x);
            let r = insert_in_order(t, x);
            let k = choose|k: int| 0 <= k < r.len() && r[k] == x;
            assert(r.push(s.last())[k] == x);
            assert forall|y: Slice| s.contains(y) implies r.push(s.last()).contains(y) by {
                let k = choose|k: int| 0 <= k < s.len() && s[k] == y;
                if k < t.len() {
                    assert(t[k] == y);
                    assert(t.contains(y));
                    assert(r.contains(y));
                    let m = choose|m: int| 0 <= m < r.len() && r[m] == y;
                    assert(r.push(s.last())[m] == y);
                } else {
                    assert(r.push(s.last())[r.len() as int] == y);
                }
            }
        } else {
            assert(s.push(x)[s.len() as int] == x);
            assert forall|y: Slice| s.contains(y) implies s.push(x).contains(y) by {
                let k = choose|k: int| 0 <= k < s.len() && s[k] == y;
                assert(s.push(x)[k] == y);
            }
        }
    }
}


/// Distances to a time point have positive denominators.
proof fn lemma_distance_den_positive(x: Slice, t: TimePoint)
    ensures
        distance(x, t).1 > 0,
{
    lemma_difference_den_positive(x.time_point@, t@);
}

/// The slice that `closest` picks is nearest to the time point, and every slice
/// before it is strictly farther away.
pub proof fn lemma_closest_is_nearest(s: Seq<Slice>, t: TimePoint)
    ensures
        s.len() > 0 <==> closest_index(s, t) is Some,
        closest_index(s, t) matches Some(i) ==> {
            &&& 0 <= i < s.len()
            &&& forall|j: int|
                0 <= j < s.len() ==> value_le(distance(s[i], t), distance(#[trigger] s[j], t))
            &&& forall|j: int|
                0 <= j < i ==> value_lt(distance(s[i], t), distance(#[trigger] s[j], t))
        },
    decreases s.len(),
{
    if s.len() > 0 {
        let s0 = s.drop_last();
        lemma_closest_is_nearest(s0, t);
        let last = s.last();
        lemma_distance_den_positive(last, t);
        match closest_index(s0, t) {
            None => {},
            Some(j) => {
                assert(s0[j] == s[j]);
                lemma_distance_den_positive(s[j], t);
                if value_lt(distance(last, t), distance(s[j], t)) {
                    assert forall|k: int| 0 <= k < s.len() implies value_le(
                        distance(last, t),
                        distance(#[trigger] s[k], t),
                    ) by {
                        if k < s0.len() {
                            assert(s0[k] == s[k]);
                            lemma_distance_den_positive(s[k], t);
                            lemma_value_order_transitive(
                                distance(last, t),
                                distance(s[j], t),
                                distance(s[k], t),
                            );
                        }
                    }
                    assert forall|k: int| 0 <= k < s.len() - 1 implies value_lt(
                        distance(last, t),
                        distance(#[trigger] s[k], t),
                    ) by {
                        assert(s0[k] == s[k]);
                        lemma_distance_den_positive(s[k], t);
                        lemma_value_order_transitive(
                            distance(last, t),
                            distance(s[j], t),
                            distance(s[k], t),
                        );
                    }
                } else {
                    assert forall|k: int| 0 <= k < s.len() implies value_le(
                        distance(s[j], t),
                        distance(#[trigger] s[k], t),
                    ) by {
                        if k < s0.len() {
                            assert(s0[k] == s[k]);
                        }
                    }
                    assert forall|k: int| 0 <= k < j implies value_lt(
                        distance(s[j], t),
                        distance(#[trigger] s[k], t),
                    ) by {
                        assert(s0[k] == s[k]);
                    }
                }
            },
        }
    }
}

/// The number of slices of `s` earlier than `t`.
pub open spec fn count_earlier(s: Seq<Slice>, t: TimePoint) -> nat
    decreases s.len(),
{
    if s.len() == 0 {
        0
    } else {
        count_earlier(s.drop_last(), t) + if value_lt(s.last().time_point@, t@) {
            1nat
        } else {
            0nat
        }
    }
}

/// In slices ordered by time point, the slices earlier than `t` come first.
proof fn lemma_earlier_first(s: Seq<Slice>, t: TimePoint)
    requires
        strictly_ordered(s),
    ensures
        count_earlier(s, t) <= s.len(),
        forall|j: int|
            0 <= j < s.len() ==> (j < count_earlier(s, t) <==> value_lt((#[trigger] s[j]).time_point@, t@)),
    decreases s.len(),
{
    if s.len() > 0 {
        let d = s.drop_last();
        assert(strictly_ordered(d)) by {
            assert forall|i: int, j: int| 0 <= i < j < d.len() implies value_lt(
                #[trigger] d[i].time_point@,
                #[trigger] d[j].time_point@,
            ) by {
                assert(d[i] == s[i] && d[j] == s[j]);
            }
        }
        lemma_earlier_first(d, t);
        let last = s.last();
        if value_lt(last.time_point@, t@) {
            assert forall|j: int| 0 <= j < d.len() implies value_lt((#[trigger] d[j]).time_point@, t@) by {
                assert(s[j] == d[j]);
                assert(value_lt(s[j].time_point@, s[s.len() - 1].time_point@));
                lemma_value_order_transitive(s[j].time_point@, last.time_point@, t@);
            }
            if d.len() > 0 {
                assert(value_lt(d[d.len() - 1].time_point@, t@));
            }
            assert(count_earlier(d, t) == d.len());
        }
        assert forall|j: int| 0 <= j < s.len() implies (j < count_earlier(s, t) <==> value_lt(
            (#[trigger] s[j]).time_point@,
            t@,
        )) by {
            if j < d.len() {
                assert(s[j] == d[j]);
            }
        }
    }
}

/// Sorting slices already ordered by time point leaves them as they are.
proof fn lemma_sort_ordered_unchanged(s: Seq<Slice>)
    requires
        strictly_ordered(s),
    ensures
        sort_by_time(s) == s,
    decreases s.len(),
{
    if s.len() > 0 {
        let d = s.drop_last();
        assert(strictly_ordered(d)) by {
            assert forall|i: int, j: int| 0 <= i < j < d.len() implies value_lt(
                #[trigger] d[i].time_point@,
                #[trigger] d[j].time_point@,
            ) by {
                assert(d[i] == s[i] && d[j] == s[j]);
            }
        }
        lemma_sort_ordered_unchanged(d);
        if d.len() > 0 {
            assert(value_lt(d.last().time_point@, s.last().time_point@));
        }
        assert(d.push(s.last()) =~= s);
    }
}

/// Inserting a slice at a new time point into slices ordered by time point
/// places it right after the slices earlier than it, and leaves every other
/// slice where it was.
pub proof fn lemma_insert_position(s: Seq<Slice>, x: Slice)
    requires
        strictly_ordered(s),
        !has_time(s, x.time_point),
    ensures
        inserted(s, x) == s.insert(count_earlier(s, x.time_point) as int, x),
{
    let t = x.time_point;
    let p = count_earlier(s, t) as int;
    lemma_earlier_first(s, t);
    lemma_sort_ordered_unchanged(s);
    assert(s.push(x).drop_last() =~= s);
    assert(sort_by_time(s.push(x)) == insert_in_order(s, x));
    assert forall|j: int| p <= j < s.len() implies value_lt(x.time_point@, #[trigger] s[j].time_point@) by {
        assert(!value_lt(s[j].time_point@, t@));
        assert(!at_time(s[j], t));
    }
    if p > 0 {
        assert(value_lt(s[p - 1].time_point@, t@));
    }
    lemma_insert_in_order_at_pub(s, x, p);
}

/// No slice is the `k`-th with a keysound of its own unless `k` of them come
/// before the end.
proof fn lemma_nth_auto_bound(s: Seq<Slice>, k: int)
    requires
        nth_auto(s, k) is Some,
    ensures
        0 <= nth_auto(s, k)->0 < s.len(),
        k < autos(s).len(),
    decreases s.len(),
{
    let t = s.drop_last();
    if nth_auto(t, k) is Some {
        lemma_nth_auto_bound(t, k);
    }
}

/// The `k`-th slice with a keysound of its own is the `k`-th of `autos`.
proof fn lemma_nth_auto_of_autos(s: Seq<Slice>, k: int)
    requires
        0 <= k < autos(s).len(),
    ensures
        nth_auto(s, k) matches Some(j) && 0 <= j < s.len() && s[j] == autos(s)[k] && is_auto(s[j]),
    decreases s.len(),
{
    let t = s.drop_last();
    if s.len() > 0 {
        if k < autos(t).len() {
            lemma_nth_auto_of_autos(t, k);
            let j = nth_auto(t, k)->0;
            assert(s[j] == t[j]);
        } else {
            if nth_auto(t, k) is Some {
                lemma_nth_auto_bound(t, k);
            }
        }
    }
}

/// A slice with a keysound of its own is the `k`-th such slice, `k` being the
/// number of them before it.
proof fn lemma_nth_auto_at(s: Seq<Slice>, j: int)
    requires
        0 <= j < s.len(),
        is_auto(s[j]),
    ensures
        nth_auto(s, autos(s.take(j)).len() as int) == Some(j),
    decreases s.len(),
{
    let t = s.drop_last();
    let k = autos(s.take(j)).len() as int;
    if j == s.len() - 1 {
        assert(t =~= s.take(j));
        if nth_auto(t, k) is Some {
            lemma_nth_auto_bound(t, k);
        }
    } else {
        assert(t.take(j) =~= s.take(j));
        assert(t[j] == s[j]);
        lemma_nth_auto_at(t, j);
    }
}

/// The keysound number that the slice at `i` plays leads back, through
/// `query_referenced`, to the slice that owns that keysound: the slice itself
/// when it has a keysound of its own, else a slice with a keysound of its own
/// at the time point it refers to.
pub proof fn lemma_keysound_owner(s: Seq<Slice>, i: int)
    requires
        keysound_index(s, i) is Some,
    ensures
        nth_auto(s, keysound_index(s, i)->0) matches Some(j) && 0 <= j < s.len() && is_auto(s[j]),
        s[i].keysound_id is Auto ==> nth_auto(s, keysound_index(s, i)->0) == Some(i),
        s[i].keysound_id matches SliceKeysound::Reference(r) ==> at_time(
            s[nth_auto(s, keysound_index(s, i)->0)->0],
            r,
        ),
{
    match s[i].keysound_id {
        SliceKeysound::Auto => {
            lemma_nth_auto_at(s, i);
        },
        SliceKeysound::Reference(r) => {
            lemma_find_time(autos(s), r);
            lemma_nth_auto_of_autos(s, keysound_index(s, i)->0);
        },
    }
}

/// `|x - t|` for fractions with positive denominators, written over the
/// product of their denominators.
pub open spec fn gap(x: (int, int), t: (int, int)) -> (int, int) {
    (abs_int(x.0 * t.1 - t.0 * x.1) as int, x.1 * t.1)
}

/// The distance reported for a slice is exactly how far its time point lies
/// from `t`: the magnitude of their difference, not rounded in any way.
pub proof fn lemma_distance_exact(x: Slice, t: TimePoint)
    ensures
        distance(x, t).1 > 0,
        value_eq(distance(x, t), gap(x.time_point@, t@)),
{
    let a = x.time_point@;
    let b = t@;
    lemma_difference_value(a, b);
    let r = crate::ratio::ratio_difference(a, b);
    let d = a.0 * b.1 - b.0 * a.1;
    let den = a.1 * b.1;
    vstd::arithmetic::mul::lemma_mul_strictly_positive(a.1, b.1);
    if r.0 < 0 {
        assert(d < 0) by (nonlinear_arith)
            requires
                r.0 * den == d * r.1,
                r.0 < 0,
                r.1 > 0,
                den > 0,
        ;
        assert((-r.0) * den == (-d) * r.1) by (nonlinear_arith)
            requires
                r.0 * den == d * r.1,
        ;
    } else {
        assert(d >= 0) by (nonlinear_arith)
            requires
                r.0 * den == d * r.1,
                r.0 >= 0,
                r.1 > 0,
                den > 0,
        ;
    }
}

/// Comparing fractions with positive denominators does not depend on how
/// they are written.
proof fn lemma_value_le_transfer(a: (int, int), b: (int, int), c: (int, int), e: (int, int))
    requires
        a.1 > 0,
        b.1 > 0,
        c.1 > 0,
        e.1 > 0,
        value_le(a, b),
        value_eq(a, c),
        value_eq(b, e),
    ensures
        value_le(c, e),
{
    lemma_cross_le(a.0, a.1, b.0, b.1, c.0, c.1, e.0, e.1);
}

/// `a0/a1 <= b0/b1`, `c0/c1 == a0/a1` and `e0/e1 == b0/b1` give
/// `c0/c1 <= e0/e1`, all denominators positive.
proof fn lemma_cross_le(a0: int, a1: int, b0: int, b1: int, c0: int, c1: int, e0: int, e1: int)
    requires
        a1 > 0,
        b1 > 0,
        c1 > 0,
        e1 > 0,
        a0 * b1 <= b0 * a1,
        a0 * c1 == c0 * a1,
        b0 * e1 == e0 * b1,
    ensures
        c0 * e1 <= e0 * c1,
{
    let k = c1 * e1;
    vstd::arithmetic::mul::lemma_mul_strictly_positive(c1, e1);
    vstd::arithmetic::mul::lemma_mul_inequality(a0 * b1, b0 * a1, k);
    assert((a0 * b1) * k == (a0 * c1) * (b1 * e1)) by (nonlinear_arith)
        requires
            k == c1 * e1,
    ;
    assert((b0 * a1) * k == (b0 * e1) * (a1 * c1)) by (nonlinear_arith)
        requires
            k == c1 * e1,
    ;
    assert((a0 * c1) * (b1 * e1) == (c0 * e1) * (a1 * b1)) by (nonlinear_arith)
        requires
            a0 * c1 == c0 * a1,
    ;
    assert((b0 * e1) * (a1 * c1) == (e0 * c1) * (a1 * b1)) by (nonlinear_arith)
        requires
            b0 * e1 == e0 * b1,
    ;
    vstd::arithmetic::mul::lemma_mul_strictly_positive(a1, b1);
    if c0 * e1 > e0 * c1 {
        vstd::arithmetic::mul::lemma_mul_strict_inequality(e0 * c1, c0 * e1, a1 * b1);
        assert((e0 * c1) * (a1 * b1) == (a1 * b1) * (e0 * c1)) by (nonlinear_arith);
        assert((c0 * e1) * (a1 * b1) == (a1 * b1) * (c0 * e1)) by (nonlinear_arith);
    }
}

/// The slice that `closest` picks lies nearest to the time point, measured
/// exactly: no slice of `s` lies closer to `t`.
pub proof fn lemma_closest_exactly_nearest(s: Seq<Slice>, t: TimePoint)
    ensures
        closest_index(s, t) matches Some(i) ==> 0 <= i < s.len() && forall|j: int|
            0 <= j < s.len() ==> value_le(gap(s[i].time_point@, t@), gap(#[trigger] s[j].time_point@, t@)),
{
    lemma_closest_is_nearest(s, t);
    if let Some(i) = closest_index(s, t) {
        assert forall|j: int| 0 <= j < s.len() implies value_le(
            gap(s[i].time_point@, t@),
            gap(#[trigger] s[j].time_point@, t@),
        ) by {
            lemma_distance_exact(s[i], t);
            lemma_distance_exact(s[j], t);
            assert(gap(s[i].time_point@, t@).1 > 0) by (nonlinear_arith)
                requires
                    s[i].time_point@.1 > 0,
                    t@.1 > 0,
            ;
            assert(gap(s[j].time_point@, t@).1 > 0) by (nonlinear_arith)
                requires
                    s[j].time_point@.1 > 0,
                    t@.1 > 0,
            ;
            lemma_value_le_transfer(
                distance(s[i], t),
                distance(s[j], t),
                gap(s[i].time_point@, t@),
                gap(s[j].time_point@, t@),
            );
        }
    }
}

} // verus!
