//! The editor's state: the project being edited and the current selection.
use vstd::prelude::*;

use crate::grouping::{group_by_key, is_grouping, lemma_lex_asymmetric, lex_greater, str_greater};
use crate::project::{same_stem, Project, SampleRate, Stem};
use crate::time_point::TimePoint;
use crate::timing::Timing;

verus! {

/// A range of time points on one stem, chosen by two selections.
pub struct Selection {
    from: Option<(usize, TimePoint)>,
    to: Option<TimePoint>,
}

/// The state of a selection: where it starts and where it ends.
pub struct SelectionState {
    pub from: Option<(usize, TimePoint)>,
    pub to: Option<TimePoint>,
}

/// The selection after selecting `point` on stem `index`: a first selection
/// starts a range, a second ends it, and a third starts a new one.
pub open spec fn selected(s: SelectionState, index: usize, point: TimePoint) -> SelectionState {
    match (s.from, s.to) {
        (None, _) => SelectionState { from: Some((index, point)), to: None },
        (Some(f), None) => SelectionState { from: Some(f), to: Some(point) },
        (Some(_), Some(_)) => SelectionState { from: Some((index, point)), to: None },
    }
}

/// The empty selection.
pub open spec fn cleared() -> SelectionState {
    SelectionState { from: None, to: None }
}

/// The stem and range of a complete selection.
pub open spec fn selection_range(s: SelectionState) -> Option<(usize, TimePoint, TimePoint)> {
    match (s.from, s.to) {
        (Some((i, f)), Some(t)) => Some((i, f, t)),
        _ => None,
    }
}

impl View for Selection {
    type V = SelectionState;

    closed spec fn view(&self) -> SelectionState {
        SelectionState { from: self.from, to: self.to }
    }
}

impl Default for Selection {
    fn default() -> (r: Selection)
        ensures
            r@ == cleared(),
    {
        Selection { from: None, to: None }
    }
}

impl Selection {
    /// Selects `point` on stem `index`.
    pub fn select(&mut self, index: usize, point: TimePoint)
        ensures
            final(self)@ == selected(old(self)@, index, point),
    {
        match (self.from, self.to) {
            (None, _) => {
                self.from = Some((index, point));
                self.to = None;
            },
            (Some(_), None) => {
                self.to = Some(point);
            },
            (Some(_), Some(_)) => {
                self.from = Some((index, point));
                self.to = None;
            },
        }
    }

    /// The stem and the range of a complete selection.
    pub fn get(&self) -> (r: Option<(usize, core::ops::Range<TimePoint>)>)
        ensures
            r is Some <==> selection_range(self@) is Some,
            r matches Some(p) ==> selection_range(self@) == Some((p.0, p.1.start, p.1.end)),
    {
        match (self.from, self.to) {
            (Some((index, from)), Some(to)) => Some((index, from..to)),
            _ => None,
        }
    }

    /// Forgets the selection.
    pub fn clear(&mut self)
        ensures
            final(self)@ == cleared(),
    {
        self.from = None;
        self.to = None;
    }
}

/// Two selections from an empty selection choose the range between them on
/// the first stem; a third selection starts over.
pub proof fn lemma_select_twice(i: usize, a: TimePoint, j: usize, b: TimePoint, k: usize, c: TimePoint)
    ensures
        selection_range(selected(cleared(), i, a)) is None,
        selection_range(selected(selected(cleared(), i, a), j, b)) == Some((i, a, b)),
        selected(selected(selected(cleared(), i, a), j, b), k, c) == selected(cleared(), k, c),
{
}

/// The selection after selecting each of `calls` in turn, starting from
/// an empty selection.
pub open spec fn selected_all(calls: Seq<(usize, TimePoint)>) -> SelectionState
    decreases calls.len(),
{
    if calls.len() == 0 {
        cleared()
    } else {
        selected(selected_all(calls.drop_last()), calls.last().0, calls.last().1)
    }
}

/// Selections alternate between starting a range and closing it: after an odd
/// number of them there is no complete selection; after an even number the
/// range runs from the next-to-last point (on its stem) to the last point.
pub proof fn lemma_select_alternates(calls: Seq<(usize, TimePoint)>)
    ensures
        calls.len() % 2 == 1 ==> selected_all(calls) == (SelectionState {
            from: Some(calls.last()),
            to: None,
        }),
        calls.len() % 2 == 1 ==> selection_range(selected_all(calls)) is None,
        calls.len() % 2 == 0 && calls.len() > 0 ==> selection_range(selected_all(calls)) == Some(
            (calls[calls.len() - 2].0, calls[calls.len() - 2].1, calls.last().1),
        ),
        calls.len() == 0 ==> selection_range(selected_all(calls)) is None,
    decreases calls.len(),
{
    if calls.len() > 0 {
        let prev = calls.drop_last();
        lemma_select_alternates(prev);
        if calls.len() % 2 == 0 {
            assert(prev.last() == calls[calls.len() - 2]);
        } else if prev.len() > 0 {
            assert(selected_all(prev).from is Some && selected_all(prev).to is Some);
        }
    }
}

/// A stem being edited, with its audio once loaded.
pub struct LiveStem<A> {
    pub stem: Stem,
    pub audio: Option<A>,
    pub locked: bool,
    pub best_channel: u16,
}

impl<A> LiveStem<A> {
    /// An unlocked stem without audio.
    pub fn from_stem(stem: Stem) -> (r: LiveStem<A>)
        ensures
            r.stem == stem,
            r.audio is None,
            !r.locked,
            r.best_channel == 0,
    {
        LiveStem { stem, audio: None, locked: false, best_channel: 0 }
    }
}

/// The project being edited.
pub struct LiveProject<A> {
    pub sample_rate: SampleRate,
    pub stems: Vec<LiveStem<A>>,
    pub timing: Timing,
    pub samples_fadeout: u64,
}

/// The group names of `stems`.
pub open spec fn group_keys<A>(stems: Seq<LiveStem<A>>) -> Seq<Option<String>> {
    Seq::new(stems.len(), |i: int| stems[i].stem.group)
}

/// Stem `a` is listed before stem `b`: grouped stems first, groups in
/// reverse alphabetical order.
pub open spec fn listed_before<A>(a: LiveStem<A>, b: LiveStem<A>) -> bool {
    match (a.stem.group, b.stem.group) {
        (Some(_), None) => true,
        (Some(x), Some(y)) => lex_greater(x@, y@),
        _ => false,
    }
}

/// `s` with `x` placed after every stem it is not listed before, counting from the end.
pub open spec fn insert_listed<A>(s: Seq<LiveStem<A>>, x: LiveStem<A>) -> Seq<LiveStem<A>>
    decreases s.len(),
{
    if s.len() == 0 {
        seq![x]
    } else if listed_before(x, s.last()) {
        insert_listed(s.drop_last(), x).push(s.last())
    } else {
        s.push(x)
    }
}

/// `s` sorted into listing order; stems that tie keep their order.
pub open spec fn sort_listed<A>(s: Seq<LiveStem<A>>) -> Seq<LiveStem<A>>
    decreases s.len(),
{
    if s.len() == 0 {
        s
    } else {
        insert_listed(sort_listed(s.drop_last()), s.last())
    }
}

proof fn lemma_insert_listed_at<A>(s: Seq<LiveStem<A>>, x: LiveStem<A>, p: int)
    requires
        0 <= p <= s.len(),
        forall|j: int| p <= j < s.len() ==> listed_before(x, #[trigger] s[j]),
        p == 0 || !listed_before(x, s[p - 1]),
    ensures
        insert_listed(s, x) == s.insert(p, x),
    decreases s.len(),
{
    if s.len() == 0 {
        assert(s.insert(p, x) =~= seq![x]);
    } else if listed_before(x, s.last()) {
        assert(p < s.len());
        lemma_insert_listed_at(s.drop_last(), x, p);
        assert(s.drop_last().insert(p, x).push(s.last()) =~= s.insert(p, x));
    } else {
        assert(p == s.len());
        assert(s.push(x) =~= s.insert(p, x));
    }
}

/// Whether stem `a` is listed before stem `b`.
fn is_listed_before<A>(a: &LiveStem<A>, b: &LiveStem<A>) -> (r: bool)
    ensures
        r == listed_before(*a, *b),
{
    match (&a.stem.group, &b.stem.group) {
        (Some(_), None) => true,
        (Some(x), Some(y)) => str_greater(x.as_str(), y.as_str()),
        _ => false,
    }
}

impl<A> LiveProject<A> {
    /// The project loaded for editing: no stem locked or with audio yet.
    pub fn from_project(project: Project) -> (r: LiveProject<A>)
        ensures
            r.sample_rate == project.sample_rate,
            r.timing == project.timing,
            r.samples_fadeout == project.samples_fadeout,
            r.stems@.len() == project.stems@.len(),
            forall|i: int|
                0 <= i < r.stems@.len() ==> (#[trigger] r.stems@[i]).stem == project.stems@[i]
                    && r.stems@[i].audio is None && !r.stems@[i].locked && r.stems@[i].best_channel
                    == 0,
    {
        let Project { sample_rate, stems, timing, samples_fadeout } = project;
        let mut live: Vec<LiveStem<A>> = Vec::new();
        let mut rest = stems;
        let ghost all = rest@;
        while rest.len() > 0
            invariant
                live@.len() + rest@.len() == all.len(),
                forall|i: int| 0 <= i < live@.len() ==> (#[trigger] live@[i]).stem == all[all.len() - 1 - i]
                    && live@[i].audio is None && !live@[i].locked && live@[i].best_channel == 0,
                rest@ == all.take(all.len() - live@.len()),
            decreases rest.len(),
        {
            let st = rest.pop().unwrap();
            live.push(LiveStem::from_stem(st));
            proof {
                assert(rest@ =~= all.take(all.len() - live@.len()));
            }
        }
        let mut stems: Vec<LiveStem<A>> = Vec::new();
        while live.len() > 0
            invariant
                stems@.len() + live@.len() == all.len(),
                forall|i: int| 0 <= i < stems@.len() ==> (#[trigger] stems@[i]).stem == all[i]
                    && stems@[i].audio is None && !stems@[i].locked && stems@[i].best_channel == 0,
                forall|i: int| 0 <= i < live@.len() ==> (#[trigger] live@[i]).stem == all[all.len() - 1 - i]
                    && live@[i].audio is None && !live@[i].locked && live@[i].best_channel == 0,
            decreases live.len(),
        {
            let ls = live.pop().unwrap();
            stems.push(ls);
        }
        LiveProject { sample_rate, stems, timing, samples_fadeout }
    }

    /// The project as saved: the stems without their editing state.
    pub fn as_project(&self) -> (r: Project)
        ensures
            r.sample_rate == self.sample_rate,
            r.timing@ == self.timing@,
            r.samples_fadeout == self.samples_fadeout,
            r.stems@.len() == self.stems@.len(),
            forall|i: int|
                0 <= i < r.stems@.len() ==> same_stem(#[trigger] r.stems@[i], self.stems@[i].stem),
    {
        let mut stems: Vec<Stem> = Vec::new();
        let n = self.stems.len();
        for i in 0..n
            invariant
                n == self.stems@.len(),
                stems@.len() == i,
                forall|j: int| 0 <= j < i ==> same_stem(#[trigger] stems@[j], self.stems@[j].stem),
        {
            stems.push(self.stems[i].stem.clone());
        }
        Project {
            sample_rate: self.sample_rate,
            stems,
            timing: self.timing.clone(),
            samples_fadeout: self.samples_fadeout,
        }
    }

    /// The stems grouped by group name: the names in order of first appearance,
    /// the indices of each group's stems, and the indices of the stems without a group.
    pub fn groups(&self) -> (r: (Vec<String>, Vec<Vec<usize>>, Vec<usize>))
        ensures
            is_grouping(group_keys(self.stems@), r.0@, r.1@, r.2@),
    {
        let n = self.stems.len();
        let mut keys: Vec<Option<String>> = Vec::new();
        for i in 0..n
            invariant
                n == self.stems@.len(),
                keys@.len() == i,
                forall|j: int| 0 <= j < i ==> keys@[j] == (#[trigger] self.stems@[j]).stem.group,
        {
            let key = match &self.stems[i].stem.group {
                Some(g) => Some(g.clone()),
                None => None,
            };
            keys.push(key);
        }
        proof {
            assert(keys@ =~= group_keys(self.stems@));
        }
        group_by_key(&keys)
    }

    /// Orders the stems: grouped stems first, groups in reverse alphabetical
    /// order; stems that tie keep their order.
    pub fn refresh(&mut self)
        ensures
            final(self).stems@ == sort_listed(old(self).stems@),
            final(self).sample_rate == old(self).sample_rate,
            final(self).timing == old(self).timing,
            final(self).samples_fadeout == old(self).samples_fadeout,
    {
        let ghost orig = self.stems@;
        let n = self.stems.len();
        if n == 0 {
            return ;
        }
        proof {
            assert(orig.take(1).drop_last() =~= Seq::<LiveStem<A>>::empty());
            assert(orig.take(1) =~= seq![orig[0]]);
            assert(sort_listed(Seq::<LiveStem<A>>::empty()) == Seq::<LiveStem<A>>::empty());
            assert(sort_listed(orig.take(1)) == insert_listed(Seq::<LiveStem<A>>::empty(), orig[0]));
            assert(insert_listed(Seq::<LiveStem<A>>::empty(), orig[0]) == seq![orig[0]]);
            assert(self.stems@.take(1) =~= seq![orig[0]]);
            assert(self.stems@.skip(1) =~= orig.skip(1));
        }
        for i in 1..n
            invariant
                n == orig.len(),
                self.stems@.len() == n,
                self.stems@.take(i as int) == sort_listed(orig.take(i as int)),
                self.stems@.skip(i as int) == orig.skip(i as int),
                self.sample_rate == old(self).sample_rate,
                self.timing == old(self).timing,
                self.samples_fadeout == old(self).samples_fadeout,
                orig == old(self).stems@,
        {
            let ghost before = self.stems@;
            let x = self.stems.remove(i);
            proof {
                assert(x == orig[i as int]) by {
                    assert(before.skip(i as int)[0] == orig.skip(i as int)[0]);
                }
            }
            let mut p = i;
            while p > 0 && is_listed_before(&x, &self.stems[p - 1])
                invariant
                    0 <= p <= i,
                    i < n,
                    self.stems@ == before.remove(i as int),
                    before.len() == n,
                    forall|j: int| p <= j < i ==> listed_before(x, #[trigger] self.stems@[j]),
                decreases p,
            {
                p = p - 1;
            }
            let ghost removed = self.stems@;
            self.stems.insert(p, x);
            proof {
                let sorted_prefix = before.take(i as int);
                assert(removed.take(i as int) =~= sorted_prefix);
                assert forall|j: int| p <= j < sorted_prefix.len() implies listed_before(
                    x,
                    #[trigger] sorted_prefix[j],
                ) by {
                    assert(sorted_prefix[j] == removed[j]);
                }
                if p > 0 {
                    assert(sorted_prefix[p - 1] == removed[p - 1]);
                }
                lemma_insert_listed_at(sorted_prefix, x, p as int);
                assert(orig.take(i + 1).drop_last() =~= orig.take(i as int));
                assert(orig.take(i + 1).last() == orig[i as int]);
                assert(self.stems@.take(i + 1) =~= sorted_prefix.insert(p as int, x));
                assert(self.stems@.skip(i + 1) =~= orig.skip(i + 1)) by {
                    assert forall|k: int| 0 <= k < self.stems@.skip(i + 1).len() implies #[trigger] self.stems@.skip(
                        i + 1,
                    )[k] == orig.skip(i + 1)[k] by {
                        assert(self.stems@[i + 1 + k] == removed[i + k]);
                        assert(removed[i + k] == before[i + 1 + k]);
                        assert(before.skip(i as int)[1 + k] == orig.skip(i as int)[1 + k]);
                    }
                }
            }
        }
        proof {
            assert(self.stems@.take(n as int) =~= self.stems@);
            assert(orig.take(n as int) =~= orig);
        }
    }
}

/// No stem follows the one after it in listing order.
pub open spec fn in_listing_order<A>(s: Seq<LiveStem<A>>) -> bool {
    forall|i: int| 0 <= i < s.len() - 1 ==> !listed_before(#[trigger] s[i + 1], s[i])
}

/// No two stems are each listed before the other.
proof fn lemma_listed_asymmetric<A>(a: LiveStem<A>, b: LiveStem<A>)
    ensures
        listed_before(a, b) ==> !listed_before(b, a),
{
    match (a.stem.group, b.stem.group) {
        (Some(x), Some(y)) => lemma_lex_asymmetric(x@, y@),
        _ => {},
    }
}

/// Placing a stem keeps a list in listing order, and keeps its stems.
proof fn lemma_insert_listed_ordered<A>(s: Seq<LiveStem<A>>, x: LiveStem<A>)
    requires
        in_listing_order(s),
    ensures
        in_listing_order(insert_listed(s, x)),
        insert_listed(s, x).len() == s.len() + 1,
        insert_listed(s, x).last() == x || (s.len() > 0 && insert_listed(s, x).last() == s.last()),
        insert_listed(s, x).to_multiset() == s.to_multiset().insert(x),
    decreases s.len(),
{
    broadcast use vstd::seq_lib::group_to_multiset_ensures;
    if s.len() == 0 {
        assert(seq![x] =~= s.push(x));
    } else {
        let t = s.drop_last();
        assert(in_listing_order(t)) by {
            assert forall|i: int| 0 <= i < t.len() - 1 implies !listed_before(#[trigger] t[i + 1], t[i]) by {
                assert(t[i + 1] == s[i + 1] && t[i] == s[i]);
            }
        }
        assert(s =~= t.push(s.last()));
        if listed_before(x, s.last()) {
            lemma_insert_listed_ordered(t, x);
            let u = insert_listed(t, x);
            let r = u.push(s.last());
            lemma_listed_asymmetric(x, s.last());
            assert forall|i: int| 0 <= i < r.len() - 1 implies !listed_before(#[trigger] r[i + 1], r[i]) by {
                if i < u.len() - 1 {
                    assert(r[i + 1] == u[i + 1] && r[i] == u[i]);
                } else {
                    assert(r[i] == u.last());
                    assert(r[i + 1] == s.last());
                    if u.last() != x {
                        let k = s.len() - 2;
                        assert(u.last() == s[k]);
                        assert(s[k + 1] == s.last());
                        assert(!listed_before(s[k + 1], s[k]));
                    }
                }
            }
            assert(r.to_multiset() =~= s.to_multiset().insert(x));
        } else {
            let r = s.push(x);
            assert forall|i: int| 0 <= i < r.len() - 1 implies !listed_before(#[trigger] r[i + 1], r[i]) by {
                if i < s.len() - 1 {
                    assert(r[i + 1] == s[i + 1] && r[i] == s[i]);
                }
            }
        }
    }
}

/// Refreshing lists the stems in listing order (grouped stems first, groups
/// in reverse alphabetical order) and keeps every stem.
pub proof fn lemma_sort_listed_ordered<A>(s: Seq<LiveStem<A>>)
    ensures
        in_listing_order(sort_listed(s)),
        sort_listed(s).to_multiset() == s.to_multiset(),
    decreases s.len(),
{
    if s.len() > 0 {
        lemma_sort_listed_ordered(s.drop_last());
        lemma_insert_listed_ordered(sort_listed(s.drop_last()), s.last());
        broadcast use vstd::seq_lib::group_to_multiset_ensures;
        assert(s =~= s.drop_last().push(s.last()));
    } else {
        assert(sort_listed(s) =~= s);
    }
}

} // verus!
