//! Sliding-time-window buffer: one ordered series of samples per channel,
//! bounded to the most recent `look_behind` ticks, with stream-restart
//! detection on timestamp regression.

use vstd::prelude::*;
use vstd::string::StringExecFns;
use std::collections::VecDeque;
use crate::convert::Frequency;

verus! {

/// One retained measurement: a timestamp in the caller's tick unit, and the
/// sample value.
#[derive(Clone, Copy, PartialEq, Eq, Debug)]
pub struct Sample {
    pub t: u64,
    pub v: Frequency,
}

impl Sample {
    pub fn new(t: u64, v: Frequency) -> (r: Sample)
        ensures
            r.t == t,
            r.v == v,
    {
        Sample { t, v }
    }
}

/// Timestamps are non-decreasing from front (oldest) to back (newest).
pub open spec fn times_sorted(s: Seq<Sample>) -> bool {
    forall|j: int, k: int| 0 <= j <= k < s.len() ==> s[j].t <= s[k].t
}

/// No retained timestamp exceeds the newest accepted one.
pub open spec fn at_most(s: Seq<Sample>, last: u64) -> bool {
    forall|j: int| 0 <= j < s.len() ==> s[j].t <= last
}

/// The window bound: every retained sample is at most `look` ticks older
/// than the newest accepted timestamp.
pub open spec fn within_window(s: Seq<Sample>, last: u64, look: u64) -> bool {
    forall|j: int| 0 <= j < s.len() ==> s[j].t as int >= last as int - look as int
}

/// The eviction cutoff for newest timestamp `x`: samples strictly older than
/// `x - look` leave the window.
pub open spec fn cutoff(x: u64, look: u64) -> u64 {
    if x >= look {
        (x - look) as u64
    } else {
        0
    }
}

/// What popping stale samples from the front leaves behind.
pub open spec fn evict_older(s: Seq<Sample>, limit: u64) -> Seq<Sample>
    decreases s.len(),
{
    if s.len() > 0 && s[0].t < limit {
        evict_older(s.drop_first(), limit)
    } else {
        s
    }
}

/// A channel's contents after one accepted row: cleared first when the
/// timestamp regressed, then the new sample appended, then samples older
/// than the window evicted from the front.
pub open spec fn row_result(prev: Seq<Sample>, reset: bool, x: u64, v: Frequency, look: u64) -> Seq<
    Sample,
> {
    evict_older((if reset { Seq::empty() } else { prev }).push(Sample { t: x, v }), cutoff(x, look))
}

/// Multi-channel buffer over the most recent `look_behind` ticks.
#[derive(Debug)]
pub struct MeasurementWindow {
    pub channel_names: Vec<String>,
    pub values: Vec<VecDeque<Sample>>,
    pub look_behind: u64,
    pub last_x: Option<u64>,
}

/// How one accepted row transforms the whole buffer: every channel is
/// cleared, appended to and evicted together, driven by the one new
/// timestamp.
pub open spec fn row_applied(
    pre: MeasurementWindow,
    post: MeasurementWindow,
    x: u64,
    samples: Seq<Frequency>,
) -> bool {
    &&& post.channel_names@ == pre.channel_names@
    &&& post.look_behind == pre.look_behind
    &&& post.values@.len() == pre.values@.len()
    &&& post.last_x == Some(x)
    &&& forall|i: int|
        0 <= i < pre.values@.len() ==> post.channel(i) == row_result(
            pre.channel(i),
            pre.resets_at(x),
            x,
            samples[i],
            pre.look_behind,
        )
}

impl MeasurementWindow {
    /// Number of channels, fixed at construction.
    pub open spec fn channel_count(self) -> nat {
        self.values@.len()
    }

    /// Contents of channel `i`, oldest sample first.
    pub open spec fn channel(self, i: int) -> Seq<Sample> {
        self.values@[i]@
    }

    /// Whether accepting timestamp `x` clears the buffer first: a timestamp
    /// below the most recently accepted one means the stream restarted.
    pub open spec fn resets_at(self, x: u64) -> bool {
        match self.last_x {
            Some(l) => x < l,
            None => false,
        }
    }

    /// Well-formedness: one series per channel name, and, once a timestamp
    /// has been accepted, every channel ordered, nothing newer than the last
    /// accepted timestamp, and everything within the window bound.
    pub open spec fn inv(self) -> bool {
        &&& self.channel_names@.len() == self.values@.len()
        &&& self.values@.len() >= 1
        &&& match self.last_x {
            None => forall|i: int| 0 <= i < self.values@.len() ==> self.channel(i).len() == 0,
            Some(l) => forall|i: int|
                0 <= i < self.values@.len() ==> {
                    &&& times_sorted(#[trigger] self.channel(i))
                    &&& at_most(self.channel(i), l)
                    &&& within_window(self.channel(i), l, self.look_behind)
                },
        }
    }

    /// Builds an empty buffer over `look_behind` ticks with the given
    /// channels; with no names given, a single channel named "signal".
    pub fn new_with_channels(look_behind: u64, channel_names: Vec<String>) -> (r: MeasurementWindow)
        ensures
            r.inv(),
            r.look_behind == look_behind,
            r.last_x is None,
            channel_names@.len() > 0 ==> r.channel_names@ == channel_names@,
            channel_names@.len() == 0 ==> r.channel_names@.len() == 1 && r.channel_names@[0]@
                == "signal"@,
            r.channel_count() == if channel_names@.len() == 0 {
                1nat
            } else {
                channel_names@.len()
            },
            forall|i: int| 0 <= i < r.channel_count() ==> r.channel(i).len() == 0,
    {
        let mut names = channel_names;
        if names.len() == 0 {
            names.push(String::from_str("signal"));
        }
        let count = names.len();
        let mut values: Vec<VecDeque<Sample>> = Vec::new();
        while values.len() < count
            invariant
                values@.len() <= count,
                forall|i: int| 0 <= i < values@.len() ==> (#[trigger] values@[i])@.len() == 0,
            decreases count - values.len(),
        {
            values.push(VecDeque::new());
        }
        MeasurementWindow { channel_names: names, values, look_behind, last_x: None }
    }

    /// Accepts one row of values, one per channel, at timestamp `x`; a row
    /// of the wrong width is rejected wholesale and changes nothing.
    pub fn add_row(&mut self, x: u64, samples: &[Frequency])
        requires
            old(self).inv(),
        ensures
            final(self).inv(),
            samples@.len() != old(self).channel_count() ==> *final(self) == *old(self),
            samples@.len() == old(self).channel_count() ==> row_applied(
                *old(self),
                *final(self),
                x,
                samples@,
            ),
    {
        if samples.len() != self.values.len() {
            return;
        }
        let mut reset = false;
        match self.last_x {
            Some(l) => if x < l {
                reset = true;
            },
            None => {},
        }
        proof {
            assert(reset == old(self).resets_at(x));
        }
        if reset {
            self.clear_all();
        }
        let ghost base = self.values@;
        proof {
            if old(self).resets_at(x) {
                assert forall|j: int| 0 <= j < base.len() implies (#[trigger] base[j])@.len()
                    == 0 by {
                    assert(self.channel(j).len() == 0);
                }
            }
        }
        self.last_x = Some(x);
        let n = self.values.len();
        let mut i: usize = 0;
        while i < n
            invariant
                i <= n,
                n == base.len(),
                samples@.len() == n,
                self.values@.len() == n,
                self.channel_names == old(self).channel_names,
                self.look_behind == old(self).look_behind,
                self.last_x == Some(x),
                forall|j: int|
                    0 <= j < i ==> #[trigger] self.values@[j]@ == base[j]@.push(
                        Sample { t: x, v: samples@[j] },
                    ),
                forall|j: int| i <= j < n ==> self.values@[j] == base[j],
            decreases n - i,
        {
            let d = channel_mut(&mut self.values, i);
            d.push_back(Sample { t: x, v: samples[i] });
            i = i + 1;
        }
        self.trim_old_points(x);
        proof {
            let pre = *old(self);
            let post = *self;
            let limit = cutoff(x, pre.look_behind);
            assert forall|i: int| 0 <= i < pre.values@.len() implies post.channel(i) == row_result(
                pre.channel(i),
                pre.resets_at(x),
                x,
                samples@[i],
                pre.look_behind,
            ) by {
                let b = if pre.resets_at(x) {
                    Seq::<Sample>::empty()
                } else {
                    pre.channel(i)
                };
                if pre.resets_at(x) {
                    assert(base[i]@ =~= b);
                } else {
                    assert(base[i]@ == b);
                }
                assert(post.channel(i) == evict_older(
                    b.push(Sample { t: x, v: samples@[i] }),
                    limit,
                ));
            }
            assert(row_applied(pre, post, x, samples@));
            assert forall|i: int| 0 <= i < post.values@.len() implies {
                &&& times_sorted(#[trigger] post.channel(i))
                &&& at_most(post.channel(i), x)
                &&& within_window(post.channel(i), x, post.look_behind)
            } by {
                let b = if pre.resets_at(x) {
                    Seq::<Sample>::empty()
                } else {
                    pre.channel(i)
                };
                let pushed = b.push(Sample { t: x, v: samples@[i] });
                assert(times_sorted(pushed) && at_most(pushed, x)) by {
                    match pre.last_x {
                        None => {
                            assert(b.len() == 0);
                        },
                        Some(l) => {
                            if x < l {
                                assert(b.len() == 0);
                            } else {
                                assert(times_sorted(b) && at_most(b, l));
                            }
                        },
                    }
                }
                lemma_evict_props(pushed, limit, x);
                assert(within_window(post.channel(i), x, post.look_behind)) by {
                    assert(limit as int >= x as int - post.look_behind as int);
                }
            }
            assert(post.inv());
        }
    }

    /// Empties every channel; names, window length and the last accepted
    /// timestamp stay.
    fn clear_all(&mut self)
        ensures
            final(self).channel_names == old(self).channel_names,
            final(self).look_behind == old(self).look_behind,
            final(self).last_x == old(self).last_x,
            final(self).values@.len() == old(self).values@.len(),
            forall|i: int| 0 <= i < final(self).values@.len() ==> final(self).channel(i).len() == 0,
    {
        let n = self.values.len();
        let mut i: usize = 0;
        while i < n
            invariant
                i <= n,
                self.values@.len() == n,
                self.channel_names == old(self).channel_names,
                self.look_behind == old(self).look_behind,
                self.last_x == old(self).last_x,
                forall|j: int| 0 <= j < i ==> (#[trigger] self.values@[j])@.len() == 0,
            decreases n - i,
        {
            let d = channel_mut(&mut self.values, i);
            d.clear();
            i = i + 1;
        }
    }

    /// Evicts, from the front of every channel, the samples that fell out of
    /// the window ending at `newest_x`.
    fn trim_old_points(&mut self, newest_x: u64)
        ensures
            final(self).channel_names == old(self).channel_names,
            final(self).look_behind == old(self).look_behind,
            final(self).last_x == old(self).last_x,
            final(self).values@.len() == old(self).values@.len(),
            forall|i: int|
                0 <= i < old(self).values@.len() ==> final(self).channel(i) == evict_older(
                    old(self).channel(i),
                    cutoff(newest_x, old(self).look_behind),
                ),
    {
        let limit: u64 = if newest_x >= self.look_behind {
            newest_x - self.look_behind
        } else {
            0
        };
        let n = self.values.len();
        let ghost base = self.values@;
        let mut i: usize = 0;
        while i < n
            invariant
                i <= n,
                n == base.len(),
                self.values@.len() == n,
                limit == cutoff(newest_x, old(self).look_behind),
                self.channel_names == old(self).channel_names,
                self.look_behind == old(self).look_behind,
                self.last_x == old(self).last_x,
                forall|j: int|
                    0 <= j < i ==> #[trigger] self.values@[j]@ == evict_older(base[j]@, limit),
                forall|j: int| i <= j < n ==> self.values@[j] == base[j],
            decreases n - i,
        {
            let d = channel_mut(&mut self.values, i);
            trim_one(d, limit);
            i = i + 1;
        }
    }

    /// The current contents of every channel, in channel order: each name
    /// with its ordered samples, oldest first.
    pub fn plot_series(&self) -> (r: Vec<(String, Vec<Sample>)>)
        requires
            self.inv(),
        ensures
            r@.len() == self.channel_count(),
            forall|i: int|
                0 <= i < r@.len() ==> (#[trigger] r@[i]).0@ == self.channel_names@[i]@ && r@[i].1@
                    == self.channel(i),
    {
        let mut r: Vec<(String, Vec<Sample>)> = Vec::new();
        let n = self.values.len();
        while r.len() < n
            invariant
                self.inv(),
                r@.len() <= n,
                n == self.values@.len(),
                forall|i: int|
                    0 <= i < r@.len() ==> (#[trigger] r@[i]).0@ == self.channel_names@[i]@
                        && r@[i].1@ == self.channel(i),
            decreases n - r.len(),
        {
            let i = r.len();
            let name = self.channel_names[i].clone();
            let d = &self.values[i];
            let mut samples: Vec<Sample> = Vec::new();
            let m = d.len();
            while samples.len() < m
                invariant
                    samples@.len() <= m,
                    m == d@.len(),
                    forall|k: int| 0 <= k < samples@.len() ==> samples@[k] == d@[k],
                decreases m - samples.len(),
            {
                samples.push(d[samples.len()]);
            }
            proof {
                assert(samples@ =~= d@);
            }
            r.push((name, samples));
        }
        r
    }

    /// Each channel's most recent sample, in channel order, or nothing for a
    /// channel that is empty.
    pub fn latest_points(&self) -> (r: Vec<Option<Sample>>)
        ensures
            r@.len() == self.channel_count(),
            forall|i: int|
                0 <= i < r@.len() ==> #[trigger] r@[i] == if self.channel(i).len() == 0 {
                    None::<Sample>
                } else {
                    Some(self.channel(i).last())
                },
    {
        let mut r: Vec<Option<Sample>> = Vec::new();
        let n = self.values.len();
        while r.len() < n
            invariant
                r@.len() <= n,
                n == self.values@.len(),
                forall|i: int|
                    0 <= i < r@.len() ==> #[trigger] r@[i] == if self.channel(i).len() == 0 {
                        None::<Sample>
                    } else {
                        Some(self.channel(i).last())
                    },
            decreases n - r.len(),
        {
            let i = r.len();
            let d = &self.values[i];
            if d.len() == 0 {
                r.push(None);
            } else {
                r.push(Some(d[d.len() - 1]));
            }
        }
        r
    }
}

/// Mutable access to one channel's deque.
fn channel_mut(v: &mut Vec<VecDeque<Sample>>, i: usize) -> (d: &mut VecDeque<Sample>)
    requires
        i < old(v).len(),
    ensures
        *d == old(v)@[i as int],
        final(v)@ == old(v)@.update(i as int, *final(d)),
{
    &mut v[i]
}

/// Pops samples older than `limit` from the front of one channel.
fn trim_one(d: &mut VecDeque<Sample>, limit: u64)
    ensures
        final(d)@ == evict_older(old(d)@, limit),
{
    while d.len() > 0 && d[0].t < limit
        invariant
            evict_older(old(d)@, limit) == evict_older(d@, limit),
        decreases d@.len(),
    {
        let ghost pre = d@;
        d.pop_front();
        proof {
            assert(pre.drop_first() =~= d@);
        }
    }
}

/// Eviction preserves order and the upper timestamp bound, and leaves only
/// samples at or past the cutoff.
proof fn lemma_evict_props(s: Seq<Sample>, limit: u64, last: u64)
    requires
        times_sorted(s),
        at_most(s, last),
    ensures
        times_sorted(evict_older(s, limit)),
        at_most(evict_older(s, limit), last),
        forall|j: int| 0 <= j < evict_older(s, limit).len() ==> evict_older(s, limit)[j].t >= limit,
    decreases s.len(),
{
    if s.len() > 0 && s[0].t < limit {
        let t = s.drop_first();
        assert(forall|j: int| 0 <= j < t.len() ==> t[j] == s[j + 1]);
        lemma_evict_props(t, limit, last);
    } else {
        if s.len() > 0 {
            assert(forall|j: int| 0 <= j < s.len() ==> (#[trigger] s[j]).t >= s[0].t);
        }
    }
}

} // verus!
