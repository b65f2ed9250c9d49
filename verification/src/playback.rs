//! Where playback of a piece of audio stands: the part of its channels that
//! is still to be played.
use vstd::prelude::*;

use crate::error::Error;

verus! {

/// The largest of the channel lengths, or `None` without channels.
pub open spec fn longest(lengths: Seq<usize>) -> Option<usize>
    decreases lengths.len(),
{
    if lengths.len() == 0 {
        None
    } else {
        match longest(lengths.drop_last()) {
            None => Some(lengths.last()),
            Some(m) => Some(if m < lengths.last() { lengths.last() } else { m }),
        }
    }
}

/// The playing position within audio of `length` samples per channel.
pub struct PlaybackCursor {
    length: usize,
    cursor: usize,
}

impl PlaybackCursor {
    #[verifier::type_invariant]
    spec fn within_length(self) -> bool {
        self.cursor <= self.length
    }

    /// Samples per channel of the audio.
    pub closed spec fn length_spec(self) -> usize {
        self.length
    }

    /// Samples per channel already played.
    pub closed spec fn cursor_spec(self) -> usize {
        self.cursor
    }

    /// Playback of channels with the given lengths (samples per channel: the
    /// longest of them), from `cursor_start` or else from the beginning.
    /// Fails without channels, and when the start lies past the end.
    pub fn new(channel_lengths: &[usize], cursor_start: Option<usize>) -> (r: Result<PlaybackCursor, Error>)
        ensures
            longest(channel_lengths@) is None ==> r == Err::<PlaybackCursor, Error>(Error::NoChannels),
            longest(channel_lengths@) matches Some(length) ==> {
                let cursor = match cursor_start {
                    Some(c) => c,
                    None => 0usize,
                };
                if cursor > length {
                    r == Err::<PlaybackCursor, Error>(Error::CursorPastEnd { cursor, length })
                } else {
                    r matches Ok(p) && p.length_spec() == length && p.cursor_spec() == cursor
                }
            },
    {
        let mut longest_so_far: Option<usize> = None;
        let n = channel_lengths.len();
        for i in 0..n
            invariant
                n == channel_lengths@.len(),
                longest_so_far == longest(channel_lengths@.take(i as int)),
        {
            proof {
                assert(channel_lengths@.take(i + 1).drop_last() =~= channel_lengths@.take(i as int));
            }
            let len = channel_lengths[i];
            longest_so_far = match longest_so_far {
                None => Some(len),
                Some(m) => Some(if m < len { len } else { m }),
            };
        }
        proof {
            assert(channel_lengths@.take(n as int) =~= channel_lengths@);
        }
        let length = match longest_so_far {
            None => {
                return Err(Error::NoChannels);
            },
            Some(m) => m,
        };
        let cursor = match cursor_start {
            Some(c) => c,
            None => 0,
        };
        if cursor > length {
            return Err(Error::CursorPastEnd { cursor, length });
        }
        Ok(PlaybackCursor { length, cursor })
    }

    /// Samples per channel of the audio.
    pub fn length(&self) -> (r: usize)
        ensures
            r == self.length_spec(),
    {
        self.length
    }

    /// Samples per channel already played.
    pub fn cursor(&self) -> (r: usize)
        ensures
            r == self.cursor_spec(),
    {
        self.cursor
    }

    /// Samples per channel still to be played.
    pub fn samples_remaining_per_channel(&self) -> (r: usize)
        ensures
            r == self.length_spec() - self.cursor_spec(),
    {
        proof {
            use_type_invariant(self);
        }
        self.length - self.cursor
    }

    /// Samples still to be played over `num_channels` channels.
    pub fn total_samples_remaining(&self, num_channels: usize) -> (r: usize)
        requires
            num_channels * (self.length_spec() - self.cursor_spec()) <= usize::MAX,
        ensures
            r == num_channels * (self.length_spec() - self.cursor_spec()),
    {
        num_channels * self.samples_remaining_per_channel()
    }

    /// Plays up to `num_samples` more samples per channel: the range of
    /// sample indices to play, or `None` once nothing is left.
    pub fn read(&mut self, num_samples: usize) -> (r: Option<(usize, usize)>)
        ensures
            ({
                let remaining = old(self).length_spec() - old(self).cursor_spec();
                let size = if num_samples < remaining { num_samples as int } else { remaining };
                if size == 0 {
                    r is None && final(self).cursor_spec() == old(self).cursor_spec()
                } else {
                    &&& r == Some((old(self).cursor_spec(), (old(self).cursor_spec() + size) as usize))
                    &&& final(self).cursor_spec() == old(self).cursor_spec() + size
                }
            }),
            final(self).length_spec() == old(self).length_spec(),
    {
        proof {
            use_type_invariant(&*self);
        }
        let remaining = self.length - self.cursor;
        let size = if num_samples < remaining {
            num_samples
        } else {
            remaining
        };
        if size == 0 {
            return None;
        }
        let start = self.cursor;
        let end = self.cursor + size;
        self.cursor = end;
        Some((start, end))
    }
}

} // verus!
