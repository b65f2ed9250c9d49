//! Snapping of time points, and the sample arithmetic behind cutting audio
//! into slices.
use vstd::prelude::*;

use crate::error::Error;

verus! {

/// How finely time points snap: to a fraction of a measure or of a beat.
#[derive(Debug, Clone, Copy)]
pub enum Snapping {
    /// `1 / n` of a measure.
    Measure(u16),
    /// `1 / n` of a beat.
    Beat(u16),
}

impl Snapping {
    /// The snapping as a beat snapping: `1 / m` of a measure becomes
    /// `1 / (m * BEATS_PER_MEASURE)` of a beat, a step `BEATS_PER_MEASURE`
    /// squared times finer; a beat snapping is kept.
    pub fn simplify(self) -> (r: Snapping)
        requires
            self matches Snapping::Measure(m) ==> m * crate::BEATS_PER_MEASURE <= u16::MAX,
        ensures
            r == (match self {
                Snapping::Measure(m) => Snapping::Beat((m * crate::BEATS_PER_MEASURE) as u16),
                Snapping::Beat(b) => Snapping::Beat(b),
            }),
    {
        match self {
            Snapping::Measure(m) => Snapping::Beat(m * (crate::BEATS_PER_MEASURE as u16)),
            Snapping::Beat(b) => Snapping::Beat(b),
        }
    }

    /// The number of steps in one measure.
    pub fn as_measure_denom(self) -> (r: u16)
        requires
            self matches Snapping::Beat(b) ==> b * crate::BEATS_PER_MEASURE <= u16::MAX,
        ensures
            r as int == crate::time_point::snapping_denominator(self),
    {
        match self {
            Snapping::Measure(m) => m,
            Snapping::Beat(b) => b * (crate::BEATS_PER_MEASURE as u16),
        }
    }
}

impl Default for Snapping {
    fn default() -> (r: Snapping)
        ensures
            r == Snapping::Measure(16),
    {
        Snapping::Measure(16)
    }
}

/// The snapping steps offered in the editor, as fractions of a measure.
pub open spec fn snapping_steps() -> Seq<u16> {
    seq![1u16, 2, 3, 4, 6, 8, 12, 16, 24, 32, 48, 64, 96, 128]
}

/// The snapping chosen with number key `key`: keys 1 to 9 pick the first nine
/// steps, key 0 the tenth.
pub fn snapping_of_number_key(key: u8) -> (r: Snapping)
    requires
        key < 10,
    ensures
        r == Snapping::Measure(snapping_steps()[(key as int + 9) % 10]),
{
    let steps: [u16; 14] = [1, 2, 3, 4, 6, 8, 12, 16, 24, 32, 48, 64, 96, 128];
    let index: usize = ((key as usize) + 9) % 10;
    proof {
        assert(steps@ == snapping_steps());
    }
    Snapping::Measure(steps[index])
}

/// The sample offsets `starts` followed by the end of the audio.
pub open spec fn with_end(starts: Seq<usize>, end: usize) -> Seq<usize> {
    starts.push(end)
}

/// Some offset is smaller than the one before it.
pub open spec fn has_decrease(s: Seq<usize>) -> bool {
    exists|i: int| 0 <= i < s.len() - 1 && #[trigger] s[i + 1] < s[i]
}

/// The lengths of the slices that start at the sample offsets `starts`, the
/// last one running to `end`. Fails without slices, and when an offset is
/// smaller than the one before it.
pub fn sample_counts_between(starts: &Vec<usize>, end: usize) -> (r: Result<Vec<usize>, Error>)
    ensures
        starts@.len() == 0 ==> r == Err::<Vec<usize>, Error>(Error::NoSlices),
        starts@.len() > 0 && has_decrease(with_end(starts@, end)) ==> r == Err::<Vec<usize>, Error>(
            Error::BadSampleCountSub,
        ),
        r matches Ok(v) ==> starts@.len() > 0 && !has_decrease(with_end(starts@, end)) && v@.len()
            == starts@.len() && forall|i: int|
            0 <= i < v@.len() ==> #[trigger] v@[i] == with_end(starts@, end)[i + 1] - with_end(
                starts@,
                end,
            )[i],
        starts@.len() > 0 && !has_decrease(with_end(starts@, end)) ==> r is Ok,
{
    let n = starts.len();
    if n == 0 {
        return Err(Error::NoSlices);
    }
    let ghost all = with_end(starts@, end);
    let mut counts: Vec<usize> = Vec::new();
    for i in 0..n
        invariant
            n == starts@.len(),
            all == with_end(starts@, end),
            counts@.len() == i,
            forall|j: int| 0 <= j < i ==> #[trigger] counts@[j] == all[j + 1] - all[j],
            forall|j: int| 0 <= j < i ==> all[j] <= #[trigger] all[j + 1],
    {
        let l = starts[i];
        let r = if i + 1 < n {
            starts[i + 1]
        } else {
            end
        };
        proof {
            assert(all[i as int] == l);
            assert(all[i + 1] == r);
        }
        match r.checked_sub(l) {
            Some(d) => counts.push(d),
            None => {
                proof {
                    assert(all[i + 1] < all[i as int]);
                }
                return Err(Error::BadSampleCountSub);
            },
        }
    }
    proof {
        assert(!has_decrease(all)) by {
            if has_decrease(all) {
                let i = choose|i: int| 0 <= i < all.len() - 1 && #[trigger] all[i + 1] < all[i];
                assert(all[i] <= all[i + 1]);
            }
        }
    }
    Ok(counts)
}

/// The cuts that `frame_counts` make, after `used` samples, in `available`
/// samples of `channels` interleaved channels: consecutive ranges of
/// `frames * channels` samples, stopping before the first one that does not
/// fit; fails (with the samples got and the frames expected) on a cut shorter
/// than its frame count.
pub open spec fn cut_plan(available: int, channels: int, counts: Seq<usize>, used: int) -> Result<
    Seq<(int, int)>,
    (int, int),
>
    decreases counts.len(),
{
    if counts.len() == 0 {
        Ok(Seq::empty())
    } else {
        let need = counts[0] * channels;
        if used + need > available {
            Ok(Seq::empty())
        } else if need < counts[0] {
            Err((need, counts[0] as int))
        } else {
            match cut_plan(available, channels, counts.drop_first(), used + need) {
                Ok(rest) => Ok(seq![(used, used + need)] + rest),
                Err(e) => Err(e),
            }
        }
    }
}

/// The samples that the first `i` cuts take: `counts[j] * channels` each.
pub open spec fn samples_before(counts: Seq<usize>, channels: int, i: int) -> int
    decreases i,
{
    if i <= 0 {
        0
    } else {
        samples_before(counts, channels, i - 1) + counts[i - 1] * channels
    }
}

/// Counting the samples after the first cut.
proof fn lemma_samples_before_shift(counts: Seq<usize>, channels: int, i: int)
    requires
        counts.len() > 0,
        0 <= i < counts.len(),
    ensures
        samples_before(counts, channels, i + 1) == counts[0] * channels + samples_before(
            counts.drop_first(),
            channels,
            i,
        ),
    decreases i,
{
    assert(samples_before(counts, channels, 0) == 0);
    assert(samples_before(counts.drop_first(), channels, 0) == 0);
    if i > 0 {
        lemma_samples_before_shift(counts, channels, i - 1);
        assert(counts.drop_first()[i - 1] == counts[i]);
        assert(samples_before(counts, channels, i + 1) == samples_before(counts, channels, i) + counts[i]
            * channels);
        assert(samples_before(counts.drop_first(), channels, i) == samples_before(counts.drop_first(), channels, i - 1)
            + counts.drop_first()[i - 1] * channels);
    }
}

/// Cuts are made back to back from `used`, each taking its frame count in
/// every channel, for as long as they fit: every cut made ends within
/// `available`, and the first cut left out (if any) would end past it. A cut
/// that ends exactly at the last available sample is made.
pub proof fn lemma_cuts_back_to_back(available: int, channels: int, counts: Seq<usize>, used: int)
    requires
        cut_plan(available, channels, counts, used) is Ok,
    ensures
        ({
            let cuts = cut_plan(available, channels, counts, used)->Ok_0;
            &&& cuts.len() <= counts.len()
            &&& forall|i: int|
                0 <= i < cuts.len() ==> #[trigger] cuts[i] == (
                    used + samples_before(counts, channels, i),
                    used + samples_before(counts, channels, i + 1),
                ) && used + samples_before(counts, channels, i + 1) <= available
            &&& cuts.len() < counts.len() ==> used + samples_before(counts, channels, cuts.len() + 1int)
                > available
        }),
    decreases counts.len(),
{
    if counts.len() > 0 {
        let need = counts[0] * channels;
        let cuts = cut_plan(available, channels, counts, used)->Ok_0;
        lemma_samples_before_shift(counts, channels, 0);
        if used + need <= available {
            let rest_counts = counts.drop_first();
            lemma_cuts_back_to_back(available, channels, rest_counts, used + need);
            let rest = cut_plan(available, channels, rest_counts, used + need)->Ok_0;
            assert(cuts == seq![(used, used + need)] + rest);
            assert forall|i: int| 0 <= i < cuts.len() implies #[trigger] cuts[i] == (
                used + samples_before(counts, channels, i),
                used + samples_before(counts, channels, i + 1),
            ) && used + samples_before(counts, channels, i + 1) <= available by {
                if i > 0 {
                    lemma_samples_before_shift(counts, channels, i - 1);
                    lemma_samples_before_shift(counts, channels, i);
                    assert(cuts[i] == rest[i - 1]);
                }
            }
            if cuts.len() < counts.len() {
                lemma_samples_before_shift(counts, channels, rest.len() as int);
            }
        }
    }
}

/// The cuts (as absolute sample ranges) that `counts` make in `total`
/// samples of `channels` interleaved channels from frame `starting`, or why
/// they cannot be made.
pub open spec fn planned_cuts(total: int, channels: int, starting: int, counts: Seq<usize>) -> Result<
    Seq<(int, int)>,
    Error,
> {
    let start = starting * channels;
    if start >= total {
        Err(Error::StartingSampleOutOfRange { starting_sample: start as usize, available: total as usize })
    } else {
        match cut_plan(total - start, channels, counts, 0) {
            Ok(c) => Ok(c.map_values(|p: (int, int)| (p.0 + start, p.1 + start))),
            Err(e) => Err(
                Error::FewerFramesThanExpected {
                    got: e.0 as usize,
                    expected: e.1 as usize,
                    available: (total - start) as usize,
                },
            ),
        }
    }
}

/// The cuts of a stem's audio, as absolute sample ranges: back to back from
/// the starting frame, each `counts[i] * channels` samples long, every one
/// ending within the `total` samples, and the first one left out (if any)
/// would end past them.
pub proof fn lemma_planned_cuts_back_to_back(total: int, channels: int, starting: int, counts: Seq<usize>)
    requires
        planned_cuts(total, channels, starting, counts) is Ok,
    ensures
        ({
            let cuts = planned_cuts(total, channels, starting, counts)->Ok_0;
            let start = starting * channels;
            &&& start < total
            &&& cuts.len() <= counts.len()
            &&& forall|i: int|
                0 <= i < cuts.len() ==> #[trigger] cuts[i] == (
                    start + samples_before(counts, channels, i),
                    start + samples_before(counts, channels, i + 1),
                ) && start + samples_before(counts, channels, i + 1) <= total
            &&& cuts.len() < counts.len() ==> start + samples_before(counts, channels, cuts.len() + 1int) > total
        }),
{
    let start = starting * channels;
    lemma_cuts_back_to_back(total - start, channels, counts, 0);
}

/// Cut ranges made relative to `start`.
pub open spec fn shifted_back(cuts: Seq<(usize, usize)>, start: int) -> Seq<(int, int)> {
    cuts.map_values(|c: (usize, usize)| (c.0 - start, c.1 - start))
}

/// Planning the cuts stays within the range of `usize`.
pub open spec fn cut_plan_fits(available: int, channels: int, counts: Seq<usize>, used: int) -> bool
    decreases counts.len(),
{
    if counts.len() == 0 {
        true
    } else {
        let need = counts[0] * channels;
        &&& need <= usize::MAX
        &&& used + need <= usize::MAX
        &&& (used + need <= available && need >= counts[0] ==> cut_plan_fits(
            available,
            channels,
            counts.drop_first(),
            used + need,
        ))
    }
}

/// The sample ranges of the cuts that `frame_counts` make in `total` samples
/// of `num_channels` interleaved channels, starting at frame `starting_sample`.
/// Fails when the start lies past the samples and on a cut shorter than its
/// frame count; cuts that no longer fit are left out.
pub fn cut_ranges(total: usize, num_channels: u16, starting_sample: usize, frame_counts: &Vec<usize>) -> (r:
    Result<Vec<(usize, usize)>, Error>)
    requires
        starting_sample * num_channels <= usize::MAX,
        starting_sample * num_channels < total ==> cut_plan_fits(
            total - starting_sample * num_channels,
            num_channels as int,
            frame_counts@,
            0,
        ),
    ensures
        match planned_cuts(total as int, num_channels as int, starting_sample as int, frame_counts@) {
            Ok(cuts) => r matches Ok(v) && v@.len() == cuts.len() && forall|i: int|
                0 <= i < cuts.len() ==> (#[trigger] v@[i]).0 == cuts[i].0 && v@[i].1 == cuts[i].1,
            Err(e) => r == Err::<Vec<(usize, usize)>, Error>(e),
        },
{
    let channels = num_channels as usize;
    let start = starting_sample * channels;
    if start >= total {
        return Err(Error::StartingSampleOutOfRange { starting_sample: start, available: total });
    }
    let available = total - start;
    let ghost plan = cut_plan(available as int, channels as int, frame_counts@, 0);
    let mut cuts: Vec<(usize, usize)> = Vec::new();
    let mut used: usize = 0;
    let n = frame_counts.len();
    let mut i: usize = 0;
    proof {
        assert(frame_counts@.skip(0) =~= frame_counts@);
        match plan {
            Ok(rest) => {
                assert(shifted_back(cuts@, start as int) + rest =~= rest);
            },
            Err(e) => {},
        }
    }
    let mut stopped = false;
    while i < n && !stopped
        invariant
            stopped ==> cut_plan(available as int, channels as int, frame_counts@.skip(i as int), used as int)
                == Ok::<Seq<(int, int)>, (int, int)>(Seq::empty()),
            n == frame_counts@.len(),
            0 <= i <= n,
            used <= available,
            start + available == total,
            start < total,
            channels == num_channels as usize,
            start == starting_sample * num_channels,
            plan == cut_plan(available as int, channels as int, frame_counts@, 0),
            cut_plan_fits(available as int, channels as int, frame_counts@.skip(i as int), used as int),
            plan == match cut_plan(available as int, channels as int, frame_counts@.skip(i as int), used as int) {
                Ok(rest) => Ok(shifted_back(cuts@, start as int) + rest),
                Err(e) => Err(e),
            },
            forall|j: int| 0 <= j < cuts@.len() ==> start <= (#[trigger] cuts@[j]).0 <= cuts@[j].1 <= total,
        decreases n - i + (if stopped {
            0int
        } else {
            1int
        }),
    {
        let frames = frame_counts[i];
        proof {
            assert(frame_counts@.skip(i as int)[0] == frames);
            assert(frame_counts@.skip(i as int).drop_first() =~= frame_counts@.skip(i + 1));
        }
        let to_read = frames * channels;
        if used + to_read > available {
            proof {
                assert(cut_plan(available as int, channels as int, frame_counts@.skip(i as int), used as int)
                    == Ok::<Seq<(int, int)>, (int, int)>(Seq::empty()));
            }
            stopped = true;
        } else {
        if to_read < frames {
            proof {
                assert(plan == Err::<Seq<(int, int)>, (int, int)>((to_read as int, frames as int)));
                assert((starting_sample as int) * (num_channels as int) == start as int);
                assert(cut_plan((total as int) - (start as int), num_channels as int, frame_counts@, 0) == plan);
                assert((to_read as int) as usize == to_read);
                assert((frames as int) as usize == frames);
                assert(((total as int) - (start as int)) as usize == available);
                let e = (to_read as int, frames as int);
                assert(cut_plan((total as int) - (start as int), num_channels as int, frame_counts@, 0) == Err::<Seq<(int, int)>, (int, int)>(e));
                assert(!(starting_sample as int * num_channels as int >= total as int));
            }
            return Err(Error::FewerFramesThanExpected { got: to_read, expected: frames, available });
        }
        let ghost old_cuts = cuts@;
        cuts.push((start + used, start + used + to_read));
        proof {
                assert(shifted_back(cuts@, start as int) =~= shifted_back(old_cuts, start as int).push((used as int, used + to_read)));
            match cut_plan(available as int, channels as int, frame_counts@.skip(i + 1), used + to_read) {
                Ok(rest) => {
                    assert(shifted_back(old_cuts, start as int) + (seq![(used as int, used + to_read)] + rest) =~= shifted_back(cuts@, start as int) + rest);
                },
                Err(e) => {},
            }
        }
        used = used + to_read;
        i = i + 1;
        }
    }
    proof {
        if !stopped {
            assert(frame_counts@.skip(n as int) =~= Seq::<usize>::empty());
        }
        assert(shifted_back(cuts@, start as int) + Seq::<(int, int)>::empty() =~= shifted_back(cuts@, start as int));
        assert(plan == Ok::<Seq<(int, int)>, (int, int)>(shifted_back(cuts@, start as int)));
        let sb = shifted_back(cuts@, start as int);
        assert forall|j: int| 0 <= j < cuts@.len() implies (#[trigger] cuts@[j]).0 == sb[j].0 + start
            && cuts@[j].1 == sb[j].1 + start by {}
    }
    Ok(cuts)
}

/// Channel `c` of `samples` interleaved over `n` channels: every `n`-th
/// sample from the `c`-th on.
pub open spec fn channel_of<T>(samples: Seq<T>, n: int, c: int) -> Seq<T> {
    Seq::new(
        (if c < samples.len() { (samples.len() - c + n - 1) / n } else { 0 }) as nat,
        |k: int| samples[c + k * n],
    )
}

/// Splits samples interleaved over `num_channels` channels into one list per
/// channel.
pub fn deinterleave<T: Copy>(samples: &[T], num_channels: u16) -> (r: Vec<Vec<T>>)
    requires
        num_channels > 0 || samples@.len() == 0,
    ensures
        r@.len() == num_channels,
        forall|c: int| 0 <= c < num_channels ==> (#[trigger] r@[c])@ == channel_of(samples@, num_channels as int, c),
{
    let n = num_channels as usize;
    let len = samples.len();
    let mut out: Vec<Vec<T>> = Vec::new();
    for c in 0..n
        invariant
            n == num_channels,
            len == samples@.len(),
            out@.len() == c,
            forall|j: int| 0 <= j < c ==> (#[trigger] out@[j])@ == channel_of(samples@, n as int, j),
    {
        let mut column: Vec<T> = Vec::new();
        let mut i: usize = c;
        while i < len
            invariant_except_break
                i as int == c + column@.len() * n,
            invariant
                c < n,
                len == samples@.len(),
                column@.len() > 0 ==> c + (column@.len() - 1) * n < len,
                forall|k: int| 0 <= k < column@.len() ==> #[trigger] column@[k] == samples@[c + k * n],
            ensures
                c + column@.len() * n >= len || (column@.len() > 0 && len - (c + (column@.len() - 1) * n) <= n),
            decreases len - i,
        {
            proof {
                assert((column@.len() + 1) * n == column@.len() * n + n) by (nonlinear_arith);
            }
            column.push(samples[i]);
            if len - i > n {
                i = i + n;
            } else {
                break;
            }
        }
        proof {
            lemma_channel_length(len as int, n as int, c as int, column@.len() as int);
            assert(column@ =~= channel_of(samples@, n as int, c as int));
        }
        out.push(column);
    }
    out
}

/// `m` steps of `n` from `c` cover every index below `len` and no more.
proof fn lemma_channel_length(len: int, n: int, c: int, m: int)
    requires
        0 <= c < n,
        m >= 0,
        len >= 0,
        m > 0 ==> c + (m - 1) * n < len,
        c + m * n >= len || (m > 0 && len - (c + (m - 1) * n) <= n),
    ensures
        m == (if c < len { (len - c + n - 1) / n } else { 0 }),
{
    if m == 0 {
        assert(c >= len);
    } else {
        assert(c < len) by (nonlinear_arith)
            requires c + (m - 1) * n < len, m > 0, n > 0;
        let x = len - c + n - 1;
        assert(m * n == (m - 1) * n + n) by (nonlinear_arith);
        assert(m * n <= x);
        assert(x < m * n + n);
        vstd::arithmetic::div_mod::lemma_fundamental_div_mod_converse(x, n, m, x - m * n);
    }
}

} // verus!
