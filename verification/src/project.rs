//! Slices, stems and projects.
use vstd::prelude::*;

use crate::ratio::{ratio_difference, sub_fits};
use crate::paths::{file_stem, path_file_stem};
use crate::time_point::{abs_pair, value_eq, value_le, value_lt, zero_pair, TimePoint};
use crate::timing::{default_bpm_bits, Timing};
use vstd::std_specs::convert::FromSpecImpl;

verus! {

broadcast use TimePoint::lemma_den_positive;

/// Which keysound a slice plays.
#[derive(Debug, Clone, Copy)]
pub enum SliceKeysound {
    /// A keysound of its own.
    Auto,
    /// The keysound of the slice at the given time point.
    Reference(TimePoint),
}

impl Default for SliceKeysound {
    fn default() -> (r: SliceKeysound)
        ensures
            r == SliceKeysound::Auto,
    {
        SliceKeysound::Auto
    }
}

/// A cut point in a stem.
#[derive(Debug, Clone, Copy)]
pub struct Slice {
    pub time_point: TimePoint,
    pub keysound_id: SliceKeysound,
}

impl Slice {
    /// A slice at `time_point` with a keysound of its own.
    pub fn new(time_point: TimePoint) -> (r: Slice)
        ensures
            r.time_point == time_point,
            r.keysound_id == SliceKeysound::Auto,
    {
        Slice { time_point, keysound_id: SliceKeysound::Auto }
    }
}

/// The slices of a stem.
#[derive(Debug)]
pub struct Slices(pub Vec<Slice>);

impl View for Slices {
    type V = Seq<Slice>;

    open spec fn view(&self) -> Seq<Slice> {
        self.0@
    }
}

/// The slice lies at time point `t`.
pub open spec fn at_time(x: Slice, t: TimePoint) -> bool {
    value_eq(x.time_point@, t@)
}

/// Some slice of `s` lies at time point `t`.
pub open spec fn has_time(s: Seq<Slice>, t: TimePoint) -> bool {
    exists|i: int| 0 <= i < s.len() && at_time(#[trigger] s[i], t)
}

/// The index of the first slice of `s` at time point `t`.
pub open spec fn find_time(s: Seq<Slice>, t: TimePoint) -> Option<int>
    decreases s.len(),
{
    if s.len() == 0 {
        None
    } else {
        match find_time(s.drop_last(), t) {
            Some(i) => Some(i),
            None => if at_time(s.last(), t) {
                Some(s.len() - 1)
            } else {
                None
            },
        }
    }
}

/// `s` with `x` placed after every slice that is not later than `x`,
/// counting from the end.
pub open spec fn insert_in_order(s: Seq<Slice>, x: Slice) -> Seq<Slice>
    decreases s.len(),
{
    if s.len() == 0 {
        seq![x]
    } else if value_lt(x.time_point@, s.last().time_point@) {
        insert_in_order(s.drop_last(), x).push(s.last())
    } else {
        s.push(x)
    }
}

/// `s` sorted by time point; slices at the same time keep their order.
pub open spec fn sort_by_time(s: Seq<Slice>) -> Seq<Slice>
    decreases s.len(),
{
    if s.len() == 0 {
        s
    } else {
        insert_in_order(sort_by_time(s.drop_last()), s.last())
    }
}

/// `s` after inserting `x`: unchanged when a slice already lies at `x`'s time
/// point, otherwise `x` added and everything sorted by time point.
pub open spec fn inserted(s: Seq<Slice>, x: Slice) -> Seq<Slice> {
    if has_time(s, x.time_point) {
        s
    } else {
        sort_by_time(s.push(x))
    }
}

/// `s` after inserting every slice of `o`, in order.
pub open spec fn union_of(s: Seq<Slice>, o: Seq<Slice>) -> Seq<Slice>
    decreases o.len(),
{
    if o.len() == 0 {
        s
    } else {
        inserted(union_of(s, o.drop_last()), o.last())
    }
}

/// Every slice of `s` is strictly earlier than the next.
pub open spec fn strictly_ordered(s: Seq<Slice>) -> bool {
    forall|i: int, j: int|
        0 <= i < j < s.len() ==> value_lt(#[trigger] s[i].time_point@, #[trigger] s[j].time_point@)
}

/// Inserting `x` at `p` when every slice from `p` on is later than `x` and the
/// slice before `p` is not.
proof fn lemma_insert_in_order_at(s: Seq<Slice>, x: Slice, p: int)
    requires
        0 <= p <= s.len(),
        forall|j: int| p <= j < s.len() ==> value_lt(x.time_point@, #[trigger] s[j].time_point@),
        p == 0 || !value_lt(x.time_point@, s[p - 1].time_point@),
    ensures
        insert_in_order(s, x) == s.insert(p, x),
    decreases s.len(),
{
    if s.len() == 0 {
        assert(s.insert(p, x) =~= seq![x]);
    } else if value_lt(x.time_point@, s.last().time_point@) {
        assert(p < s.len());
        lemma_insert_in_order_at(s.drop_last(), x, p);
        assert(s.drop_last().insert(p, x).push(s.last()) =~= s.insert(p, x));
    } else {
        assert(p == s.len());
        assert(s.push(x) =~= s.insert(p, x));
    }
}

/// `insert_in_order` places `x` at `p` when every slice from `p` on is later
/// than `x` and the slice before `p` is not.
pub proof fn lemma_insert_in_order_at_pub(s: Seq<Slice>, x: Slice, p: int)
    requires
        0 <= p <= s.len(),
        forall|j: int| p <= j < s.len() ==> value_lt(x.time_point@, #[trigger] s[j].time_point@),
        p == 0 || !value_lt(x.time_point@, s[p - 1].time_point@),
    ensures
        insert_in_order(s, x) == s.insert(p, x),
{
    lemma_insert_in_order_at(s, x, p);
}

/// Inserts `x` into `v` as `insert_in_order` describes.
fn insert_ordered(v: &mut Vec<Slice>, x: Slice)
    ensures
        final(v)@ == insert_in_order(old(v)@, x),
{
    let mut p = v.len();
    while p > 0 && x.time_point.lt(&v[p - 1].time_point)
        invariant
            0 <= p <= v.len(),
            forall|j: int| p <= j < v.len() ==> value_lt(x.time_point@, #[trigger] v@[j].time_point@),
        decreases p,
    {
        p = p - 1;
    }
    proof {
        lemma_insert_in_order_at(v@, x, p as int);
    }
    v.insert(p, x);
}

/// A copy of `v` sorted by time point (stable).
fn sort_slices(v: &Vec<Slice>) -> (r: Vec<Slice>)
    ensures
        r@ == sort_by_time(v@),
{
    let mut r: Vec<Slice> = Vec::new();
    let n = v.len();
    for i in 0..n
        invariant
            n == v.len(),
            r@ == sort_by_time(v@.take(i as int)),
    {
        insert_ordered(&mut r, v[i]);
        proof {
            assert(v@.take(i + 1).drop_last() =~= v@.take(i as int));
        }
    }
    assert(v@.take(n as int) =~= v@);
    r
}

/// The first index of a slice at `t` in `v`, if any.
fn position_of_time(v: &Vec<Slice>, t: &TimePoint) -> (r: Option<usize>)
    ensures
        r matches Some(i) ==> find_time(v@, *t) == Some(i as int),
        r is None ==> find_time(v@, *t) is None,
{
    let n = v.len();
    for i in 0..n
        invariant
            n == v.len(),
            find_time(v@.take(i as int), *t) is None,
    {
        proof {
            assert(v@.take(i + 1).drop_last() =~= v@.take(i as int));
        }
        if v[i].time_point.same_value(t) {
            proof {
                lemma_find_time_prefix(v@, *t, i as int + 1);
            }
            return Some(i);
        }
    }
    assert(v@.take(n as int) =~= v@);
    None
}

/// A first match in a prefix is a first match in the whole sequence.
proof fn lemma_find_time_prefix(s: Seq<Slice>, t: TimePoint, k: int)
    requires
        0 <= k <= s.len(),
        find_time(s.take(k), t) is Some,
    ensures
        find_time(s, t) == find_time(s.take(k), t),
    decreases s.len() - k,
{
    if k < s.len() {
        assert(s.take(k + 1).drop_last() =~= s.take(k));
        lemma_find_time_prefix(s, t, k + 1);
    } else {
        assert(s.take(k) =~= s);
    }
}

/// `find_time` finds exactly the first slice at `t`.
pub proof fn lemma_find_time(s: Seq<Slice>, t: TimePoint)
    ensures
        find_time(s, t) is Some <==> has_time(s, t),
        find_time(s, t) matches Some(i) ==> 0 <= i < s.len() && at_time(s[i], t) && forall|j: int|
            0 <= j < i ==> !at_time(#[trigger] s[j], t),
    decreases s.len(),
{
    if s.len() > 0 {
        let s0 = s.drop_last();
        lemma_find_time(s0, t);
        if has_time(s0, t) {
            let i = choose|i: int| 0 <= i < s0.len() && at_time(#[trigger] s0[i], t);
            assert(s[i] == s0[i]);
        }
        if has_time(s, t) && !has_time(s0, t) {
            let i = choose|i: int| 0 <= i < s.len() && at_time(#[trigger] s[i], t);
            if i < s0.len() {
                assert(s0[i] == s[i]);
            }
        }
        if find_time(s0, t) is Some {
            let i = find_time(s0, t)->0;
            assert forall|j: int| 0 <= j < i implies !at_time(#[trigger] s[j], t) by {
                assert(s[j] == s0[j]);
            }
        } else {
            assert forall|j: int| 0 <= j < s.len() - 1 implies !at_time(#[trigger] s[j], t) by {
                assert(s[j] == s0[j]);
            }
        }
    }
}

/// The slice has a keysound of its own.
pub open spec fn is_auto(x: Slice) -> bool {
    x.keysound_id is Auto
}

/// The slices of `s` that have a keysound of their own, in order.
pub open spec fn autos(s: Seq<Slice>) -> Seq<Slice>
    decreases s.len(),
{
    if s.len() == 0 {
        s
    } else if is_auto(s.last()) {
        autos(s.drop_last()).push(s.last())
    } else {
        autos(s.drop_last())
    }
}

/// The index, in `s`, of the `k`-th slice with a keysound of its own.
pub open spec fn nth_auto(s: Seq<Slice>, k: int) -> Option<int>
    decreases s.len(),
{
    if s.len() == 0 {
        None
    } else {
        match nth_auto(s.drop_last(), k) {
            Some(i) => Some(i),
            None => if is_auto(s.last()) && autos(s.drop_last()).len() == k {
                Some(s.len() - 1)
            } else {
                None
            },
        }
    }
}

/// The keysound number (counting from zero) that the slice at `index` plays:
/// its own, counted among the slices with keysounds of their own, or that of
/// the first such slice at the referenced time point.
pub open spec fn keysound_index(s: Seq<Slice>, index: int) -> Option<int> {
    if 0 <= index < s.len() {
        match s[index].keysound_id {
            SliceKeysound::Auto => Some(autos(s.take(index)).len() as int),
            SliceKeysound::Reference(r) => find_time(autos(s), r),
        }
    } else {
        None
    }
}

/// How many slices are not marked as seen.
pub open spec fn unseen(seen: Seq<bool>) -> nat
    decreases seen.len(),
{
    if seen.len() == 0 {
        0
    } else {
        unseen(seen.drop_last()) + if seen.last() {
            0nat
        } else {
            1nat
        }
    }
}

/// Marking an unseen slice as seen leaves one fewer unseen.
pub proof fn lemma_mark_seen(seen: Seq<bool>, i: int)
    requires
        0 <= i < seen.len(),
        !seen[i],
    ensures
        unseen(seen) > 0,
        unseen(seen.update(i, true)) == unseen(seen) - 1,
    decreases seen.len(),
{
    let t = seen.update(i, true);
    if i == seen.len() - 1 {
        assert(t.drop_last() =~= seen.drop_last());
    } else {
        lemma_mark_seen(seen.drop_last(), i);
        assert(t.drop_last() =~= seen.drop_last().update(i, true));
    }
}

/// Follows references from the slice at `i` to a slice with a keysound of its
/// own; the slices already passed are marked in `seen`. `None` when a
/// referenced time point has no slice, or when the references lead back to a
/// slice already passed (a cycle, which never reaches a keysound).
pub open spec fn follow_references(s: Seq<Slice>, i: int, seen: Seq<bool>) -> Option<int>
    decreases unseen(seen),
{
    if !(0 <= i < s.len()) || seen.len() != s.len() || seen[i] {
        None
    } else {
        match s[i].keysound_id {
            SliceKeysound::Auto => Some(i),
            SliceKeysound::Reference(r) => match find_time(s, r) {
                Some(j) => {
                    proof {
                        lemma_mark_seen(seen, i);
                    }
                    follow_references(s, j, seen.update(i, true))
                },
                None => None,
            },
        }
    }
}

/// No slice passed yet.
pub open spec fn none_seen(n: nat) -> Seq<bool> {
    Seq::new(n, |k: int| false)
}

/// The slice whose keysound the slice at `t` plays in the end.
pub open spec fn dereferenced(s: Seq<Slice>, t: TimePoint) -> Option<int> {
    match find_time(s, t) {
        Some(i) => follow_references(s, i, none_seen(s.len())),
        None => None,
    }
}

/// The slices of `s` from `start` to `end` inclusive, in order.
pub open spec fn in_range(s: Seq<Slice>, start: TimePoint, end: TimePoint) -> Seq<Slice>
    decreases s.len(),
{
    if s.len() == 0 {
        s
    } else if value_le(start@, s.last().time_point@) && value_le(s.last().time_point@, end@) {
        in_range(s.drop_last(), start, end).push(s.last())
    } else {
        in_range(s.drop_last(), start, end)
    }
}

/// The distance between a slice and `t`.
pub open spec fn distance(x: Slice, t: TimePoint) -> (int, int) {
    abs_pair(ratio_difference(x.time_point@, t@))
}

/// The distance of every slice of `s` to `t` can be computed.
pub open spec fn distances_fit(s: Seq<Slice>, t: TimePoint) -> bool {
    forall|i: int|
        0 <= i < s.len() ==> sub_fits((#[trigger] s[i]).time_point@, t@) && ratio_difference(
            s[i].time_point@,
            t@,
        ).0 != i64::MIN
}

/// The index of the first slice of `s` nearest to `t`.
pub open spec fn closest_index(s: Seq<Slice>, t: TimePoint) -> Option<int>
    decreases s.len(),
{
    if s.len() == 0 {
        None
    } else {
        match closest_index(s.drop_last(), t) {
            None => Some(s.len() - 1),
            Some(j) => if value_lt(distance(s.last(), t), distance(s[j], t)) {
                Some(s.len() - 1)
            } else {
                Some(j)
            },
        }
    }
}

impl Slices {
    /// All slices.
    pub fn slices(&self) -> (r: &[Slice])
        ensures
            r@ == self@,
    {
        self.0.as_slice()
    }

    /// An iterator over the slices, in order.
    pub fn iter(&self) -> (r: std::slice::Iter<'_, Slice>)
        ensures
            vstd::std_specs::slice::into_iter_elts(r) == self@,
    {
        broadcast use vstd::std_specs::slice::axiom_spec_slice_iter;
        let r = self.0.as_slice().iter();
        proof {
            assert(self@.as_ref().unref() =~= self@);
        }
        r
    }

    /// Adds `new_slice` unless a slice already lies at its time point, keeping
    /// the slices sorted by time point.
    pub fn insert(&mut self, new_slice: Slice)
        ensures
            final(self)@ == inserted(old(self)@, new_slice),
    {
        match position_of_time(&self.0, &new_slice.time_point) {
            Some(_) => {
                proof {
                    lemma_find_time(old(self)@, new_slice.time_point);
                }
                return ;
            },
            None => {
                proof {
                    lemma_find_time(old(self)@, new_slice.time_point);
                }
            },
        }
        self.0.push(new_slice);
        let sorted = sort_slices(&self.0);
        self.0 = sorted;
    }

    /// Inserts every slice of `other`, in order.
    pub fn union(&mut self, other: &Slices)
        ensures
            final(self)@ == union_of(old(self)@, other@),
    {
        let n = other.0.len();
        for i in 0..n
            invariant
                n == other@.len(),
                self@ == union_of(old(self)@, other@.take(i as int)),
        {
            self.insert(other.0[i]);
            proof {
                assert(other@.take(i + 1).drop_last() =~= other@.take(i as int));
            }
        }
        assert(other@.take(n as int) =~= other@);
    }

    /// The first slice at `time`, with its index.
    pub fn query(&self, time: TimePoint) -> (r: Option<(usize, &Slice)>)
        ensures
            r is None <==> find_time(self@, time) is None,
            r matches Some(p) ==> find_time(self@, time) == Some(p.0 as int) && *p.1
                == self@[p.0 as int],
    {
        match position_of_time(&self.0, &time) {
            Some(i) => {
                proof {
                    lemma_find_time(self@, time);
                }
                Some((i, &self.0[i]))
            },
            None => None,
        }
    }

    /// Follows all references from the slice at `ref_tp` back to the slice
    /// whose keysound it plays; `None` when a referenced time point has no
    /// slice, or when the references form a cycle.
    pub fn query_dereferenced(&self, ref_tp: TimePoint) -> (r: Option<&Slice>)
        ensures
            r is Some <==> dereferenced(self@, ref_tp) is Some,
            r matches Some(x) ==> *x == self@[dereferenced(self@, ref_tp)->0],
    {
        let mut i = match position_of_time(&self.0, &ref_tp) {
            Some(i) => i,
            None => return None,
        };
        proof {
            lemma_find_time(self@, ref_tp);
        }
        let n = self.0.len();
        let mut seen: Vec<bool> = Vec::new();
        for k in 0..n
            invariant
                seen@.len() == k,
                forall|m: int| 0 <= m < k ==> !(#[trigger] seen@[m]),
        {
            seen.push(false);
        }
        proof {
            assert(seen@ =~= none_seen(self@.len()));
        }
        loop
            invariant
                n == self@.len(),
                seen@.len() == n,
                0 <= i < n,
                dereferenced(self@, ref_tp) == follow_references(self@, i as int, seen@),
            decreases unseen(seen@),
        {
            if seen[i] {
                return None;
            }
            match self.0[i].keysound_id {
                SliceKeysound::Auto => {
                    return Some(&self.0[i]);
                },
                SliceKeysound::Reference(r) => {
                    match position_of_time(&self.0, &r) {
                        Some(j) => {
                            proof {
                                lemma_find_time(self@, r);
                                lemma_mark_seen(seen@, i as int);
                            }
                            seen.set(i, true);
                            i = j;
                        },
                        None => return None,
                    }
                },
            }
        }
    }

    /// The slices that have a keysound of their own, in order.
    pub fn keysounds(&self) -> (r: Vec<Slice>)
        ensures
            r@ == autos(self@),
    {
        let mut r: Vec<Slice> = Vec::new();
        let n = self.0.len();
        for i in 0..n
            invariant
                n == self@.len(),
                r@ == autos(self@.take(i as int)),
        {
            proof {
                assert(self@.take(i + 1).drop_last() =~= self@.take(i as int));
            }
            match self.0[i].keysound_id {
                SliceKeysound::Auto => r.push(self.0[i]),
                SliceKeysound::Reference(_) => {},
            }
        }
        assert(self@.take(n as int) =~= self@);
        r
    }

    /// The number of keysounds the slices need.
    pub fn keysounds_required(&self) -> (r: usize)
        ensures
            r as int == autos(self@).len(),
    {
        self.keysounds().len()
    }

    /// The keysound number (from zero) that the slice at `index` plays.
    pub fn keysound_index_of(&self, index: usize) -> (r: Option<usize>)
        ensures
            r matches Some(k) ==> keysound_index(self@, index as int) == Some(k as int),
            r is None ==> keysound_index(self@, index as int) is None,
    {
        if index >= self.0.len() {
            return None;
        }
        match self.0[index].keysound_id {
            SliceKeysound::Auto => {
                let mut count: usize = 0;
                for i in 0..index
                    invariant
                        index < self@.len(),
                        count as int == autos(self@.take(i as int)).len(),
                        count <= i,
                {
                    proof {
                        assert(self@.take(i + 1).drop_last() =~= self@.take(i as int));
                    }
                    match self.0[i].keysound_id {
                        SliceKeysound::Auto => count = count + 1,
                        SliceKeysound::Reference(_) => {},
                    }
                }
                Some(count)
            },
            SliceKeysound::Reference(r) => {
                let keysounds = self.keysounds();
                position_of_time(&keysounds, &r)
            },
        }
    }

    /// The `ref_index`-th slice (from zero) with a keysound of its own, with its index.
    pub fn query_referenced(&self, ref_index: usize) -> (r: Option<(usize, &Slice)>)
        ensures
            r is None <==> nth_auto(self@, ref_index as int) is None,
            r matches Some(p) ==> nth_auto(self@, ref_index as int) == Some(p.0 as int) && *p.1
                == self@[p.0 as int],
    {
        let mut count: usize = 0;
        let n = self.0.len();
        for i in 0..n
            invariant
                n == self@.len(),
                count as int == autos(self@.take(i as int)).len(),
                count <= ref_index,
                nth_auto(self@.take(i as int), ref_index as int) is None,
        {
            proof {
                assert(self@.take(i + 1).drop_last() =~= self@.take(i as int));
            }
            match self.0[i].keysound_id {
                SliceKeysound::Auto => {
                    if count == ref_index {
                        proof {
                            lemma_nth_auto_prefix(self@, ref_index as int, i + 1);
                        }
                        return Some((i, &self.0[i]));
                    }
                    count = count + 1;
                },
                SliceKeysound::Reference(_) => {},
            }
        }
        assert(self@.take(n as int) =~= self@);
        None
    }

    /// The slices from `start` to `end` inclusive.
    pub fn query_range(&self, start: TimePoint, end: TimePoint) -> (r: Vec<Slice>)
        ensures
            r@ == in_range(self@, start, end),
    {
        let mut r: Vec<Slice> = Vec::new();
        let n = self.0.len();
        for i in 0..n
            invariant
                n == self@.len(),
                r@ == in_range(self@.take(i as int), start, end),
        {
            proof {
                assert(self@.take(i + 1).drop_last() =~= self@.take(i as int));
            }
            let tp = self.0[i].time_point;
            if start.le(&tp) && tp.le(&end) {
                r.push(self.0[i]);
            }
        }
        assert(self@.take(n as int) =~= self@);
        r
    }

    /// The index of the first slice nearest to `time_point`, with its distance.
    fn closest_position(&self, time_point: TimePoint) -> (r: Option<(usize, TimePoint)>)
        requires
            distances_fit(self@, time_point),
        ensures
            r is None <==> self@.len() == 0,
            r matches Some(p) ==> p.0 < self@.len() && closest_index(self@, time_point) == Some(p.0 as int) && p.1@
                == distance(self@[p.0 as int], time_point),
    {
        let n = self.0.len();
        if n == 0 {
            return None;
        }
        assert(self@.take(1).drop_last() =~= Seq::<Slice>::empty());
        assert(closest_index(Seq::<Slice>::empty(), time_point) is None);
        let mut best: usize = 0;
        let mut best_distance = self.0[0].time_point.sub(time_point).abs();
        for i in 1..n
            invariant
                n == self@.len(),
                distances_fit(self@, time_point),
                0 <= best < i,
                closest_index(self@.take(i as int), time_point) == Some(best as int),
                best_distance@ == distance(self@[best as int], time_point),
        {
            proof {
                assert(self@.take(i + 1).drop_last() =~= self@.take(i as int));
                assert(self@.take(i as int)[best as int] == self@[best as int]);
            }
            let d = self.0[i].time_point.sub(time_point).abs();
            if d.lt(&best_distance) {
                best = i;
                best_distance = d;
            }
        }
        assert(self@.take(n as int) =~= self@);
        Some((best, best_distance))
    }

    /// The first slice nearest to `time_point`, with its distance.
    pub fn closest(&self, time_point: TimePoint) -> (r: Option<(&Slice, TimePoint)>)
        requires
            distances_fit(self@, time_point),
        ensures
            r is None <==> self@.len() == 0,
            r matches Some(p) ==> *p.0 == self@[closest_index(self@, time_point)->0] && p.1@
                == distance(*p.0, time_point),
    {
        match self.closest_position(time_point) {
            Some((i, d)) => Some((&self.0[i], d)),
            None => None,
        }
    }

    /// `closest`, with the slice handed out to change.
    pub fn closest_mut(&mut self, time_point: TimePoint) -> (r: Option<(&mut Slice, TimePoint)>)
        requires
            distances_fit(old(self)@, time_point),
        ensures
            r is None <==> old(self)@.len() == 0,
            r is None ==> final(self)@ == old(self)@,
            r matches Some(p) ==> {
                let i = closest_index(old(self)@, time_point)->0;
                &&& 0 <= i < old(self)@.len()
                &&& *p.0 == old(self)@[i]
                &&& p.1@ == distance(old(self)@[i], time_point)
                &&& final(self)@ == old(self)@.update(i, *final(p.0))
            },
    {
        match self.closest_position(time_point) {
            Some((i, d)) => Some((&mut self.0[i], d)),
            None => None,
        }
    }

    /// `closest`, when the nearest slice is at most `bound` away.
    pub fn closest_bound(&self, time_point: TimePoint, bound: TimePoint) -> (r: Option<
        (&Slice, TimePoint),
    >)
        requires
            distances_fit(self@, time_point),
        ensures
            r is Some <==> self@.len() > 0 && value_le(
                distance(self@[closest_index(self@, time_point)->0], time_point),
                bound@,
            ),
            r matches Some(p) ==> *p.0 == self@[closest_index(self@, time_point)->0] && p.1@
                == distance(*p.0, time_point),
    {
        match self.closest_position(time_point) {
            Some((i, d)) => if d.le(&bound) {
                Some((&self.0[i], d))
            } else {
                None
            },
            None => None,
        }
    }
    /// `closest_mut`, when the nearest slice is at most `bound` away.
    pub fn closest_bound_mut(&mut self, time_point: TimePoint, bound: TimePoint) -> (r: Option<
        (&mut Slice, TimePoint),
    >)
        requires
            distances_fit(old(self)@, time_point),
        ensures
            r is Some <==> old(self)@.len() > 0 && value_le(
                distance(old(self)@[closest_index(old(self)@, time_point)->0], time_point),
                bound@,
            ),
            r is None ==> final(self)@ == old(self)@,
            r matches Some(p) ==> {
                let i = closest_index(old(self)@, time_point)->0;
                &&& 0 <= i < old(self)@.len()
                &&& *p.0 == old(self)@[i]
                &&& p.1@ == distance(old(self)@[i], time_point)
                &&& final(self)@ == old(self)@.update(i, *final(p.0))
            },
    {
        match self.closest_position(time_point) {
            Some((i, d)) => if d.le(&bound) {
                Some((&mut self.0[i], d))
            } else {
                None
            },
            None => None,
        }
    }
}


/// A first `k`-th match in a prefix is the first one in the whole sequence.
proof fn lemma_nth_auto_prefix(s: Seq<Slice>, k: int, m: int)
    requires
        0 <= m <= s.len(),
        nth_auto(s.take(m), k) is Some,
    ensures
        nth_auto(s, k) == nth_auto(s.take(m), k),
    decreases s.len() - m,
{
    if m < s.len() {
        assert(s.take(m + 1).drop_last() =~= s.take(m));
        lemma_nth_auto_prefix(s, k, m + 1);
    } else {
        assert(s.take(m) =~= s);
    }
}

/// Whether a stem's slices are played as notes or as background music.
#[derive(Debug, Clone, Copy, PartialEq, Eq, Structural)]
pub enum StemType {
    Note,
    BGM,
}

impl Default for StemType {
    fn default() -> (r: StemType)
        ensures
            r == StemType::BGM,
    {
        StemType::BGM
    }
}

/// An audio file of the project with its slices.
#[derive(Debug)]
pub struct Stem {
    pub audio_path: String,
    pub slices: Slices,
    pub starting_keysound: Option<u64>,
    pub ty: StemType,
    pub group: Option<String>,
}

impl Stem {
    /// A stem for the audio file at `audio_path`, with no slices, no fixed
    /// starting keysound and no group, played as background music.
    pub fn from_audio_path(audio_path: String) -> (r: Stem)
        ensures
            r.audio_path == audio_path,
            r.slices@ == Seq::<Slice>::empty(),
            r.starting_keysound is None,
            r.ty == StemType::BGM,
            r.group is None,
    {
        Stem {
            audio_path,
            slices: Slices(Vec::new()),
            starting_keysound: None,
            ty: StemType::default(),
            group: None,
        }
    }

    /// The stem's slices.
    pub fn slices(&self) -> (r: &Slices)
        ensures
            *r == self.slices,
    {
        &self.slices
    }

    /// The stem's slices, to change.
    pub fn slices_mut(&mut self) -> (r: &mut Slices)
        ensures
            *r == old(self).slices,
            *final(self) == (Stem { slices: *final(r), ..*old(self) }),
    {
        &mut self.slices
    }

    /// The prefix of the stem's exported files: its group, or else the file
    /// stem of its audio path.
    pub fn export_prefix(&self) -> (r: Option<&str>)
        ensures
            self.group matches Some(g) ==> r matches Some(p) && p@ == g@,
            self.group is None ==> (r is Some <==> path_file_stem(self.audio_path@) is Some),
            self.group is None ==> (r matches Some(p) ==> p@ == path_file_stem(
                self.audio_path@,
            )->0),
    {
        match &self.group {
            Some(g) => Some(g.as_str()),
            None => file_stem(self.audio_path.as_str()),
        }
    }
}

/// The number of audio samples per second.
#[derive(Debug, Clone, Copy, PartialEq, Eq, Structural, PartialOrd, Ord)]
pub struct SampleRate(pub i32);

impl From<i32> for SampleRate {
    fn from(value: i32) -> (r: SampleRate) {
        SampleRate(value)
    }
}

impl FromSpecImpl<i32> for SampleRate {
    open spec fn obeys_from_spec() -> bool {
        true
    }

    open spec fn from_spec(v: i32) -> SampleRate {
        SampleRate(v)
    }
}

impl Default for SampleRate {
    fn default() -> (r: SampleRate)
        ensures
            r == SampleRate(44100),
    {
        SampleRate(44100)
    }
}

/// A project: its stems, their timing, and export settings.
#[derive(Debug, Clone)]
pub struct Project {
    pub sample_rate: SampleRate,
    pub stems: Vec<Stem>,
    pub timing: Timing,
    pub samples_fadeout: u64,
}

impl Default for Project {
    fn default() -> (r: Project)
        ensures
            r.sample_rate == SampleRate(44100),
            r.stems@ == Seq::<Stem>::empty(),
            r.timing@.len() == 1,
            r.timing@[0].time_point@ == zero_pair(),
            r.timing@[0].bpm_bits == default_bpm_bits(),
            r.samples_fadeout == 0,
    {
        Project {
            sample_rate: SampleRate::default(),
            stems: Vec::new(),
            timing: Timing::default(),
            samples_fadeout: 0,
        }
    }
}

impl Default for Slices {
    fn default() -> (r: Slices)
        ensures
            r@ == Seq::<Slice>::empty(),
    {
        Slices(Vec::new())
    }
}

impl Clone for Slices {
    fn clone(&self) -> (r: Slices)
        ensures
            r@ == self@,
    {
        let v = self.0.clone();
        proof {
            assert(v@ =~= self.0@);
        }
        Slices(v)
    }
}

/// Two stems hold the same data.
pub open spec fn same_stem(a: Stem, b: Stem) -> bool {
    &&& a.audio_path == b.audio_path
    &&& a.slices@ == b.slices@
    &&& a.starting_keysound == b.starting_keysound
    &&& a.ty == b.ty
    &&& a.group == b.group
}

impl Clone for Stem {
    fn clone(&self) -> (r: Stem)
        ensures
            same_stem(r, *self),
    {
        Stem {
            audio_path: self.audio_path.clone(),
            slices: self.slices.clone(),
            starting_keysound: self.starting_keysound,
            ty: self.ty,
            group: match &self.group {
                Some(g) => Some(g.clone()),
                None => None,
            },
        }
    }
}

} // verus!
