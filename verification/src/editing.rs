//! Edits of a stem's slices made from the editor: pasting a selection and
//! painting a keysound reference.
use vstd::prelude::*;

use crate::project::{
    closest_index, distance, distances_fit, in_range, is_auto, union_of, Slice, SliceKeysound,
    Slices,
};
use crate::ratio::{add_fits, ratio_difference, ratio_sum, sub_fits};
use crate::time_point::{value_le, value_lt, TimePoint};

verus! {

broadcast use TimePoint::lemma_den_positive;

/// `y` is `x` moved by `offset`; when `as_reference`, a slice with a keysound
/// of its own instead plays the keysound at its old time point.
pub open spec fn pasted(y: Slice, x: Slice, offset: (int, int), as_reference: bool) -> bool {
    &&& y.time_point@ == ratio_sum(x.time_point@, offset)
    &&& y.keysound_id == (if as_reference && is_auto(x) {
        SliceKeysound::Reference(x.time_point)
    } else {
        x.keysound_id
    })
}

/// `p` is `sel` slice by slice, moved by `offset`.
pub open spec fn pasted_all(p: Seq<Slice>, sel: Seq<Slice>, offset: (int, int), as_reference: bool) -> bool {
    &&& p.len() == sel.len()
    &&& forall|i: int| 0 <= i < p.len() ==> pasted(#[trigger] p[i], sel[i], offset, as_reference)
}

/// Moving the slices of `source` from `from` to `to` so that `from` lands on
/// `at` can be computed without overflow.
pub open spec fn paste_fits(source: Seq<Slice>, from: TimePoint, to: TimePoint, at: TimePoint) -> bool {
    &&& sub_fits(at@, from@)
    &&& forall|i: int|
        0 <= i < in_range(source, from, to).len() ==> add_fits(
            (#[trigger] in_range(source, from, to)[i]).time_point@,
            ratio_difference(at@, from@),
        )
}

/// The slices of `source` from `from` to `to` inclusive, moved so that `from`
/// lands on `at`. With `as_reference`, each slice with a keysound of its own
/// becomes a reference to that keysound, at its old time point.
pub fn pasted_slices(source: &Slices, from: TimePoint, to: TimePoint, at: TimePoint, as_reference: bool) -> (r: Slices)
    requires
        paste_fits(source@, from, to, at),
    ensures
        pasted_all(r@, in_range(source@, from, to), ratio_difference(at@, from@), as_reference),
{
    let selected = source.query_range(from, to);
    let offset = at.sub(from);
    let ghost sel = selected@;
    let mut out: Vec<Slice> = Vec::new();
    let n = selected.len();
    for i in 0..n
        invariant
            n == sel.len(),
            sel == selected@,
            sel == in_range(source@, from, to),
            offset@ == ratio_difference(at@, from@),
            paste_fits(source@, from, to, at),
            pasted_all(out@, sel.take(i as int), offset@, as_reference),
    {
        let x = selected[i];
        let keysound_id = match x.keysound_id {
            SliceKeysound::Auto => if as_reference {
                SliceKeysound::Reference(x.time_point)
            } else {
                SliceKeysound::Auto
            },
            SliceKeysound::Reference(t) => SliceKeysound::Reference(t),
        };
        let y = Slice { time_point: x.time_point.add(offset), keysound_id };
        out.push(y);
        proof {
            assert forall|j: int| 0 <= j < out@.len() implies pasted(
                #[trigger] out@[j],
                sel.take(i + 1)[j],
                offset@,
                as_reference,
            ) by {
                if j < i {
                    assert(sel.take(i + 1)[j] == sel.take(i as int)[j]);
                }
            }
        }
    }
    proof {
        assert(sel.take(n as int) =~= sel);
    }
    Slices(out)
}

/// Pasting keeps what each slice plays: a slice that refers to a keysound
/// still refers to the same time point, pasted as copies or as references;
/// a slice with a keysound of its own keeps it when pasted as a copy and
/// refers to its old time point when pasted as a reference. Every pasted
/// slice lies `offset` after the slice it was pasted from.
pub proof fn lemma_paste_keeps_keysounds(p: Seq<Slice>, sel: Seq<Slice>, offset: (int, int), as_reference: bool)
    requires
        pasted_all(p, sel, offset, as_reference),
        offset.1 > 0,
    ensures
        p.len() == sel.len(),
        forall|i: int|
            0 <= i < sel.len() ==> match (#[trigger] sel[i]).keysound_id {
                SliceKeysound::Reference(t) => p[i].keysound_id == SliceKeysound::Reference(t),
                SliceKeysound::Auto => p[i].keysound_id == (if as_reference {
                    SliceKeysound::Reference(sel[i].time_point)
                } else {
                    SliceKeysound::Auto
                }),
            },
        forall|i: int|
            0 <= i < sel.len() ==> crate::time_point::value_eq(
                (#[trigger] p[i]).time_point@,
                (sel[i].time_point@.0 * offset.1 + offset.0 * sel[i].time_point@.1, sel[i].time_point@.1 * offset.1),
            ),
{
    assert forall|i: int| 0 <= i < sel.len() implies crate::time_point::value_eq(
        (#[trigger] p[i]).time_point@,
        (sel[i].time_point@.0 * offset.1 + offset.0 * sel[i].time_point@.1, sel[i].time_point@.1 * offset.1),
    ) by {
        assert(pasted(p[i], sel[i], offset, as_reference));
        let a = sel[i].time_point@;
        crate::ratio::lemma_sum_value(a, offset);
        let r = ratio_sum(a, offset);
        assert(r.0 * (a.1 * offset.1) == (a.0 * offset.1 + offset.0 * a.1) * r.1);
    }
}

/// Pastes the slices of `source` from `from` to `to` into `target` so that
/// `from` lands on `at` (as references to their keysounds when
/// `as_reference`), and returns how many slices were pasted. Slices that land
/// on a time point `target` already has are left out.
pub fn paste_selection(
    target: &mut Slices,
    source: &Slices,
    from: TimePoint,
    to: TimePoint,
    at: TimePoint,
    as_reference: bool,
) -> (r: usize)
    requires
        paste_fits(source@, from, to, at),
    ensures
        exists|p: Seq<Slice>|
            pasted_all(p, in_range(source@, from, to), ratio_difference(at@, from@), as_reference)
                && final(target)@ == union_of(old(target)@, p) && r == p.len(),
{
    let moved = pasted_slices(source, from, to, at, as_reference);
    target.union(&moved);
    moved.0.len()
}

/// What came of painting a keysound onto a slice.
#[derive(Debug, Clone, Copy, PartialEq, Eq, Structural)]
pub enum PaintOutcome {
    /// There is no keysound to paint with.
    NoSource,
    /// No slice lies close enough to the click.
    NoTarget,
    /// The slice lies before the slice it would refer to.
    BeforeSource,
    /// The slice now plays the painted keysound.
    Painted,
}

/// Paints a keysound onto the slice of `target` nearest to `click`, if it lies
/// at most `bound` away: that slice then refers to the keysound at `source`.
/// `from` is the time point the painting started at; a slice before it is
/// left alone. Without a `source` nothing is painted.
pub fn paint_keysound(
    target: &mut Slices,
    source: Option<TimePoint>,
    from: TimePoint,
    click: TimePoint,
    bound: TimePoint,
) -> (r: PaintOutcome)
    requires
        distances_fit(old(target)@, click),
    ensures
        ({
            let s = old(target)@;
            let c = closest_index(s, click)->0;
            if source is None {
                r == PaintOutcome::NoSource && final(target)@ == s
            } else if s.len() == 0 || !value_le(distance(s[c], click), bound@) {
                r == PaintOutcome::NoTarget && final(target)@ == s
            } else if value_lt(s[c].time_point@, from@) {
                r == PaintOutcome::BeforeSource && final(target)@ == s
            } else {
                &&& r == PaintOutcome::Painted
                &&& final(target)@ == s.update(
                    c,
                    Slice {
                        time_point: s[c].time_point,
                        keysound_id: SliceKeysound::Reference(source->0),
                    },
                )
            }
        }),
{
    let source_tp = match source {
        None => {
            return PaintOutcome::NoSource;
        },
        Some(t) => t,
    };
    match target.closest_bound_mut(click, bound) {
        None => PaintOutcome::NoTarget,
        Some((slice, _)) => {
            if slice.time_point.lt(&from) {
                PaintOutcome::BeforeSource
            } else {
                slice.keysound_id = SliceKeysound::Reference(source_tp);
                PaintOutcome::Painted
            }
        },
    }
}

/// What the pointer did on a stem, at a sample of its audio.
#[derive(Debug, Clone, Copy, PartialEq, Eq, Structural)]
pub enum StemEvent {
    /// The pointer rests over the stem.
    Hovering(usize),
    /// The primary button is down.
    LeftClick(usize),
    /// The secondary button is down.
    RightClick(usize),
    /// Playback of the slice under the pointer was asked for.
    PlayAudio(usize),
}

/// The event a stem reports with the pointer over it at `sample`: pressing a
/// button wins over asking for playback, which wins over hovering; the
/// primary button wins over the secondary one.
pub fn stem_event(sample: usize, play: bool, primary_down: bool, secondary_down: bool) -> (r: StemEvent)
    ensures
        r == (if primary_down {
            StemEvent::LeftClick(sample)
        } else if secondary_down {
            StemEvent::RightClick(sample)
        } else if play {
            StemEvent::PlayAudio(sample)
        } else {
            StemEvent::Hovering(sample)
        }),
{
    let mut event = StemEvent::Hovering(sample);
    if play {
        event = StemEvent::PlayAudio(sample);
    }
    if primary_down {
        event = StemEvent::LeftClick(sample);
    } else if secondary_down {
        event = StemEvent::RightClick(sample);
    }
    event
}

/// A locked stem only reports hovering; an unlocked one reports every event.
pub fn event_allowed(locked: bool, event: StemEvent) -> (r: bool)
    ensures
        r == (!locked || event is Hovering),
{
    !locked || matches!(event, StemEvent::Hovering(_))
}

/// The stems chosen for copying all slices of one stem onto another: the
/// stem copied from, and the stem pasted onto.
#[derive(Debug, Clone, Copy, PartialEq, Eq, Structural)]
pub struct CopyState {
    pub from: Option<usize>,
    pub to: Option<usize>,
}

/// The copy state after the copy button of stem `index` is pressed: it
/// starts a copy from that stem, cancels the copy from it, or pastes the
/// copy onto it.
pub fn press_copy(state: CopyState, index: usize) -> (r: CopyState)
    ensures
        r == (match state.from {
            None => CopyState { from: Some(index), to: state.to },
            Some(f) => if f == index {
                CopyState { from: None, to: state.to }
            } else {
                CopyState { from: state.from, to: Some(index) }
            },
        }),
{
    match state.from {
        None => CopyState { from: Some(index), to: state.to },
        Some(f) => if f == index {
            CopyState { from: None, to: state.to }
        } else {
            CopyState { from: state.from, to: Some(index) }
        },
    }
}

/// The modifier keys and shortcuts held while a stem reports an event.
#[derive(Debug, Clone, Copy, PartialEq, Eq, Structural)]
pub struct Keys {
    pub command: bool,
    pub shift: bool,
    pub paste: bool,
    pub reference_paste: bool,
    pub space: bool,
}

/// What the editor does with a stem event.
#[derive(Debug, Clone, Copy, PartialEq, Eq, Structural)]
pub enum StemAction {
    /// Paste the selection at the pointer, as references or as copies.
    Paste { as_reference: bool },
    /// Select the point under the pointer.
    Select,
    /// Play the slice under the pointer.
    PlayAudio,
    /// Paint the chosen keysound onto the nearest slice.
    Paint,
    /// Add a slice at the pointer.
    InsertSlice,
    /// Choose the nearest slice's keysound for painting.
    BeginPaint,
    /// Delete the slices near the pointer.
    DeleteNear,
    /// Nothing.
    Nothing,
}

/// The action for `event` with `keys` held: hovering pastes (on a paste
/// shortcut) or selects (on space); the primary button paints with the
/// command key, and otherwise adds a slice unless shift is held; the
/// secondary button chooses a keysound for painting with the command key,
/// and otherwise deletes.
pub fn stem_action(event: StemEvent, keys: Keys) -> (r: StemAction)
    ensures
        r == (match event {
            StemEvent::Hovering(_) => if keys.paste || keys.reference_paste {
                StemAction::Paste { as_reference: keys.reference_paste }
            } else if keys.space {
                StemAction::Select
            } else {
                StemAction::Nothing
            },
            StemEvent::PlayAudio(_) => StemAction::PlayAudio,
            StemEvent::LeftClick(_) => if keys.command {
                StemAction::Paint
            } else if !keys.shift {
                StemAction::InsertSlice
            } else {
                StemAction::Nothing
            },
            StemEvent::RightClick(_) => if keys.command {
                StemAction::BeginPaint
            } else {
                StemAction::DeleteNear
            },
        }),
{
    match event {
        StemEvent::Hovering(_) => if keys.paste || keys.reference_paste {
            StemAction::Paste { as_reference: keys.reference_paste }
        } else if keys.space {
            StemAction::Select
        } else {
            StemAction::Nothing
        },
        StemEvent::PlayAudio(_) => StemAction::PlayAudio,
        StemEvent::LeftClick(_) => if keys.command {
            StemAction::Paint
        } else if !keys.shift {
            StemAction::InsertSlice
        } else {
            StemAction::Nothing
        },
        StemEvent::RightClick(_) => if keys.command {
            StemAction::BeginPaint
        } else {
            StemAction::DeleteNear
        },
    }
}

} // verus!
