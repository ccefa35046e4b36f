//! A profiler that adds up, per function name, how long timed sections took and how often they
//! ran, and counts frames; a report hands the figures out and starts the next interval.

use vstd::prelude::*;

use crate::clock::{elapsed_nanos, instant_now};
use crate::text::{owned, str_eq};
use crate::types::{key_less, key_lt};

verus! {

broadcast use vstd::std_specs::vec::group_vec_axioms;

/// The time spent in a function and the number of its timed calls.
#[derive(Debug, Clone, Copy, PartialEq, Eq, Structural)]
pub struct FunctionTiming {
    pub total_duration_nanos: u128,
    pub call_count: u64,
}

/// The timing of a section that is running.
pub struct TimingGuard {
    fn_name: &'static str,
    start_time: Option<std::time::Instant>,
}

/// The figures of the current interval: timings by function name and a frame count.
pub struct Profiler {
    timings: Vec<(String, FunctionTiming)>,
    frame_count: u32,
}

/// Position of the entry with the name.
pub open spec fn timing_index(t: Seq<(Seq<char>, FunctionTiming)>, name: Seq<char>) -> Option<int>
    decreases t.len(),
{
    if t.len() == 0 {
        None
    } else {
        match timing_index(t.drop_last(), name) {
            Some(k) => Some(k),
            None => if t.last().0 == name { Some(t.len() - 1) } else { None },
        }
    }
}

/// `a + b`, or the largest value when that does not fit.
pub open spec fn add_capped_u128(a: u128, b: u128) -> u128 {
    if a + b <= u128::MAX { (a + b) as u128 } else { u128::MAX }
}

/// The timings with one more call of `name` that took `d` nanoseconds.
pub open spec fn timings_after_call(t: Seq<(Seq<char>, FunctionTiming)>, name: Seq<char>, d: u128) -> Seq<(Seq<char>, FunctionTiming)> {
    match timing_index(t, name) {
        Some(k) => t.update(k, (name, FunctionTiming {
            total_duration_nanos: add_capped_u128(t[k].1.total_duration_nanos, d),
            call_count: if t[k].1.call_count < u64::MAX { (t[k].1.call_count + 1) as u64 } else { u64::MAX },
        })),
        None => t.push((name, FunctionTiming { total_duration_nanos: d, call_count: 1 })),
    }
}

/// The timings by name, viewed.
pub open spec fn timings_view(t: Seq<(String, FunctionTiming)>) -> Seq<(Seq<char>, FunctionTiming)> {
    t.map_values(|e: (String, FunctionTiming)| (e.0@, e.1))
}

/// Number of entries whose name comes before `name`.
pub open spec fn names_below(t: Seq<(Seq<char>, FunctionTiming)>, name: Seq<char>) -> nat
    decreases t.len(),
{
    if t.len() == 0 {
        0
    } else {
        names_below(t.drop_last(), name) + if key_lt(t.last().0, name) { 1nat } else { 0nat }
    }
}

/// The entries ordered by name, each inserted after the entries whose names come before it.
pub open spec fn sorted_by_name(t: Seq<(Seq<char>, FunctionTiming)>) -> Seq<(Seq<char>, FunctionTiming)>
    decreases t.len(),
{
    if t.len() == 0 {
        t
    } else {
        let s = sorted_by_name(t.drop_last());
        s.insert(names_below(s, t.last().0) as int, t.last())
    }
}

/// The entries with their figures set back to zero.
pub open spec fn reset_timings(t: Seq<(Seq<char>, FunctionTiming)>) -> Seq<(Seq<char>, FunctionTiming)> {
    t.map_values(|e: (Seq<char>, FunctionTiming)| (e.0, FunctionTiming { total_duration_nanos: 0, call_count: 0 }))
}

proof fn lemma_names_below_le(t: Seq<(Seq<char>, FunctionTiming)>, name: Seq<char>)
    ensures
        names_below(t, name) <= t.len(),
    decreases t.len(),
{
    if t.len() > 0 {
        lemma_names_below_le(t.drop_last(), name);
    }
}

impl Profiler {
    pub closed spec fn timings(&self) -> Seq<(Seq<char>, FunctionTiming)> {
        timings_view(self.timings@)
    }

    pub closed spec fn frames(&self) -> u32 {
        self.frame_count
    }

    /// A profiler with no timings and no frames.
    pub fn new() -> (r: Profiler)
        ensures
            r.timings().len() == 0,
            r.frames() == 0,
    {
        Profiler { timings: Vec::new(), frame_count: 0 }
    }

    /// Starts timing a section of the named function.
    pub fn start_timing(&self, fn_name: &'static str) -> (r: TimingGuard)
        ensures
            r.name() == fn_name@,
            r.running(),
    {
        TimingGuard { fn_name, start_time: Some(instant_now()) }
    }

    /// Records one call of the named function that took `duration_nanos`.
    pub fn record_timing(&mut self, fn_name: &str, duration_nanos: u128)
        ensures
            final(self).timings() == timings_after_call(old(self).timings(), fn_name@, duration_nanos),
            final(self).frames() == old(self).frames(),
    {
        let ghost raw = self.timings@;
        let ghost before = self.timings();
        let mut found: Option<usize> = None;
        for k in 0..self.timings.len()
            invariant
                self.timings@ == raw,
                before == timings_view(raw),
                found is None ==> timing_index(before.take(k as int), fn_name@) is None,
                found matches Some(q) ==> timing_index(before, fn_name@) == Some(q as int) && q < before.len(),
        {
            assert(before.take(k + 1).drop_last() =~= before.take(k as int));
            if found.is_none() && str_eq(self.timings[k].0.as_str(), fn_name) {
                proof {
                    lemma_timing_index_prefix(before, fn_name@, k + 1);
                }
                found = Some(k);
            }
        }
        assert(before.take(before.len() as int) =~= before);
        match found {
            Some(q) => {
                let (name, t) = self.timings.remove(q);
                let total = if t.total_duration_nanos <= u128::MAX - duration_nanos {
                    t.total_duration_nanos + duration_nanos
                } else {
                    u128::MAX
                };
                let count = if t.call_count < u64::MAX { t.call_count + 1 } else { u64::MAX };
                self.timings.insert(q, (name, FunctionTiming { total_duration_nanos: total, call_count: count }));
                proof {
                    lemma_timing_index(before, fn_name@);
                    assert(before[q as int] == (raw[q as int].0@, raw[q as int].1));
                    assert(timings_view(self.timings@) =~= timings_after_call(before, fn_name@, duration_nanos));
                }
            },
            None => {
                self.timings.push((owned(fn_name), FunctionTiming { total_duration_nanos: duration_nanos, call_count: 1 }));
                proof {
                    assert(timings_view(self.timings@) =~= timings_after_call(before, fn_name@, duration_nanos));
                }
            },
        }
    }

    /// Ends a timed section: its function gets one more call, taking the time the clock shows
    /// elapsed since the section started; a guard that is not running records nothing.
    pub fn finish_timing(&mut self, guard: TimingGuard)
        ensures
            !guard.running() ==> final(self).timings() == old(self).timings(),
            guard.running() ==> exists|d: u128| final(self).timings() == timings_after_call(old(self).timings(), guard.name(), d),
            final(self).frames() == old(self).frames(),
    {
        match &guard.start_time {
            Some(start) => {
                let d = elapsed_nanos(start);
                self.record_timing(guard.fn_name, d);
                assert(self.timings() == timings_after_call(old(self).timings(), guard.name(), d));
            },
            None => {},
        }
    }

    /// Counts one more frame; the count wraps around.
    pub fn increment_frame_count(&mut self)
        ensures
            final(self).frames() == (if old(self).frames() == u32::MAX { 0 } else { (old(self).frames() + 1) as u32 }),
            final(self).timings() == old(self).timings(),
    {
        self.frame_count = self.frame_count.wrapping_add(1);
    }

    /// Hands out the frame count and the timings of the interval, ordered by name, and starts the
    /// next interval: the frame count and every function's figures back at zero.
    pub fn take_report(&mut self) -> (r: (u32, Vec<(String, FunctionTiming)>))
        ensures
            r.0 == old(self).frames(),
            timings_view(r.1@) == sorted_by_name(old(self).timings()),
            final(self).frames() == 0,
            final(self).timings() == reset_timings(old(self).timings()),
    {
        let frames = self.frame_count;
        self.frame_count = 0;
        let ghost t = self.timings();
        let mut sorted: Vec<(String, FunctionTiming)> = Vec::new();
        for i in 0..self.timings.len()
            invariant
                t == timings_view(self.timings@),
                timings_view(sorted@) == sorted_by_name(t.take(i as int)),
        {
            assert(t.take(i + 1).drop_last() =~= t.take(i as int));
            let ghost sv = timings_view(sorted@);
            let mut p: usize = 0;
            for j in 0..sorted.len()
                invariant
                    i < self.timings@.len(),
                    sv == timings_view(sorted@),
                    p == names_below(sv.take(j as int), self.timings@[i as int].0@),
                    p <= j,
            {
                assert(sv.take(j + 1).drop_last() =~= sv.take(j as int));
                if key_less(sorted[j].0.as_str(), self.timings[i].0.as_str()) {
                    p = p + 1;
                }
            }
            assert(sv.take(sv.len() as int) =~= sv);
            let entry = (self.timings[i].0.clone(), self.timings[i].1);
            sorted.insert(p, entry);
            assert(timings_view(sorted@) =~= sv.insert(p as int, t[i as int]));
        }
        assert(t.take(t.len() as int) =~= t);
        let mut reset: Vec<(String, FunctionTiming)> = Vec::new();
        for i in 0..self.timings.len()
            invariant
                t == timings_view(self.timings@),
                timings_view(reset@) == reset_timings(t.take(i as int)),
        {
            let ghost before = reset@;
            reset.push((self.timings[i].0.clone(), FunctionTiming { total_duration_nanos: 0, call_count: 0 }));
            assert(t.take(i + 1) =~= t.take(i as int).push(t[i as int]));
            assert(t[i as int].0 == self.timings@[i as int].0@);
            assert(timings_view(reset@) =~= timings_view(before).push((t[i as int].0, FunctionTiming { total_duration_nanos: 0, call_count: 0 })));
            assert(timings_view(reset@) =~= reset_timings(t.take(i + 1)));
        }
        assert(t.take(t.len() as int) =~= t);
        self.timings = reset;
        (frames, sorted)
    }
}

proof fn lemma_timing_index(t: Seq<(Seq<char>, FunctionTiming)>, name: Seq<char>)
    ensures
        timing_index(t, name) matches Some(k) ==> 0 <= k < t.len() && t[k].0 == name,
    decreases t.len(),
{
    if t.len() > 0 {
        lemma_timing_index(t.drop_last(), name);
    }
}

proof fn lemma_timing_index_prefix(t: Seq<(Seq<char>, FunctionTiming)>, name: Seq<char>, n: int)
    requires
        0 <= n <= t.len(),
        timing_index(t.take(n), name) is Some,
    ensures
        timing_index(t, name) == timing_index(t.take(n), name),
    decreases t.len() - n,
{
    if n < t.len() {
        assert(t.take(n + 1).drop_last() =~= t.take(n));
        lemma_timing_index_prefix(t, name, n + 1);
    } else {
        assert(t.take(n) =~= t);
    }
}

impl TimingGuard {
    pub closed spec fn name(&self) -> Seq<char> {
        self.fn_name@
    }

    pub closed spec fn running(&self) -> bool {
        self.start_time is Some
    }
}

} // verus!
