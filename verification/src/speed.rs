use vstd::prelude::*;
use std::sync::atomic::Ordering;
use std::time::Instant;

use crate::clock::{elapsed_since, instant_now, whole_seconds};

use crate::params::Params;

verus! {

/// The byte count after counting `num_bytes` more, `elapsed_secs` whole
/// seconds into the period: it starts again from zero once a second has
/// passed.
pub open spec fn tick_count(read_count: usize, num_bytes: usize, elapsed_secs: u64) -> usize {
    if elapsed_secs >= 1 { 0 } else { (read_count + num_bytes) as usize }
}

/// The sample rate reported after counting `num_bytes` more, `elapsed_secs`
/// whole seconds into the period: the period's bytes times `num / den`, once
/// a second has passed; nothing before.
pub open spec fn tick_report(read_count: usize, num_bytes: usize, num: usize, den: usize, elapsed_secs: u64) -> Option<usize> {
    if elapsed_secs >= 1 {
        Some(((read_count + num_bytes) * num / (den as int)) as usize)
    } else {
        None
    }
}

/// Counts received bytes and, about once a second, publishes the sample
/// rate they amount to: bytes times `sample_per_byte_num / sample_per_byte_den`.
pub struct SpeedMeter {
    time: Instant,
    read_count: usize,
    sample_per_byte_num: usize,
    sample_per_byte_den: usize,
}

impl SpeedMeter {
    pub closed spec fn spec_read_count(&self) -> usize {
        self.read_count
    }

    pub closed spec fn spec_num(&self) -> usize {
        self.sample_per_byte_num
    }

    pub closed spec fn spec_den(&self) -> usize {
        self.sample_per_byte_den
    }

    /// Whether `num_bytes` more bytes can be counted, and the rate computed,
    /// without overflow or a zero denominator.
    pub open spec fn can_count(&self, num_bytes: usize) -> bool {
        &&& self.spec_read_count() + num_bytes <= usize::MAX
        &&& (self.spec_read_count() + num_bytes) * self.spec_num() <= usize::MAX
        &&& self.spec_den() > 0
    }

    pub fn new(sample_per_byte_num: usize, sample_per_byte_den: usize) -> (r: Self)
        ensures
            r.spec_read_count() == 0,
            r.spec_num() == sample_per_byte_num,
            r.spec_den() == sample_per_byte_den,
    {
        let time = instant_now();
        Self { time, read_count: 0, sample_per_byte_num, sample_per_byte_den }
    }

    /// Tests [`Self::can_count`].
    pub fn fits(&self, num_bytes: usize) -> (r: bool)
        ensures
            r == self.can_count(num_bytes),
    {
        if self.sample_per_byte_den == 0 {
            return false;
        }
        match self.read_count.checked_add(num_bytes) {
            Some(total) => total.checked_mul(self.sample_per_byte_num).is_some(),
            None => false,
        }
    }

    /// Counts `num_bytes`, `elapsed_secs` whole seconds after the period
    /// began. Once a second has passed, returns the sample rate of the bytes
    /// counted in the period and starts a new one.
    pub fn tick(&mut self, num_bytes: usize, elapsed_secs: u64) -> (r: Option<usize>)
        requires
            old(self).can_count(num_bytes),
        ensures
            final(self).spec_num() == old(self).spec_num(),
            final(self).spec_den() == old(self).spec_den(),
            final(self).spec_read_count() == tick_count(old(self).spec_read_count(), num_bytes, elapsed_secs),
            r == tick_report(old(self).spec_read_count(), num_bytes, old(self).spec_num(),
                old(self).spec_den(), elapsed_secs),
    {
        self.read_count = self.read_count + num_bytes;
        if elapsed_secs >= 1 {
            let speed = self.read_count * self.sample_per_byte_num / self.sample_per_byte_den;
            self.read_count = 0;
            self.time = instant_now();
            Some(speed)
        } else {
            None
        }
    }

    /// Counts `num_bytes` and, once a second has passed since the last
    /// report, stores the sample rate in `params.speed` and starts counting
    /// again. The seconds passed are read from the clock; the rest is
    /// [`Self::tick`].
    pub fn run(&mut self, num_bytes: usize, params: &Params)
        requires
            old(self).can_count(num_bytes),
        ensures
            final(self).spec_num() == old(self).spec_num(),
            final(self).spec_den() == old(self).spec_den(),
            exists|elapsed_secs: u64|
                final(self).spec_read_count() == #[trigger] tick_count(old(self).spec_read_count(), num_bytes, elapsed_secs),
    {
        let elapsed = elapsed_since(&self.time);
        let secs = whole_seconds(&elapsed);
        let report = self.tick(num_bytes, secs);
        proof {
            assert(self.spec_read_count() == tick_count(old(self).spec_read_count(), num_bytes, secs));
        }
        if let Some(speed) = report {
            params.speed.store(speed, Ordering::Relaxed);
        }
    }
}


/// The bytes of a run of ticks, each given as (bytes, elapsed seconds).
pub open spec fn ticks_bytes(ticks: Seq<(usize, u64)>) -> int
    decreases ticks.len(),
{
    if ticks.len() == 0 { 0 } else { ticks_bytes(ticks.drop_last()) + ticks.last().0 }
}

/// The byte count and the reports after a run of ticks, each given as
/// (bytes, elapsed seconds), on a meter that had counted `count` bytes.
pub open spec fn tick_run(count: usize, num: usize, den: usize, ticks: Seq<(usize, u64)>) -> (usize, Seq<Option<usize>>)
    decreases ticks.len(),
{
    if ticks.len() == 0 {
        (count, Seq::empty())
    } else {
        let p = tick_run(count, num, den, ticks.drop_last());
        let (b, e) = ticks.last();
        (tick_count(p.0, b, e), p.1.push(tick_report(p.0, b, num, den, e)))
    }
}

proof fn lemma_tick_run_quiet(count: usize, num: usize, den: usize, ticks: Seq<(usize, u64)>)
    requires
        forall|i: int| 0 <= i < ticks.len() ==> #[trigger] ticks[i].1 == 0,
        count + ticks_bytes(ticks) <= usize::MAX,
    ensures
        tick_run(count, num, den, ticks).0 == count + ticks_bytes(ticks),
        tick_run(count, num, den, ticks).1 == Seq::new(ticks.len(), |i: int| None::<usize>),
        ticks_bytes(ticks) >= 0,
    decreases ticks.len(),
{
    if ticks.len() > 0 {
        let t0 = ticks.drop_last();
        assert forall|i: int| 0 <= i < t0.len() implies #[trigger] t0[i].1 == 0 by {
            assert(t0[i] == ticks[i]);
        }
        lemma_tick_run_quiet(count, num, den, t0);
        assert(ticks.last().1 == ticks[ticks.len() - 1].1);
        assert(Seq::new(t0.len(), |i: int| None::<usize>).push(None) =~= Seq::new(ticks.len(), |i: int| None::<usize>));
    }
}

/// Once a second: over a period of ticks in which the clock shows no whole
/// second until the last one, nothing is reported before the last tick, the
/// last reports every byte of the period (those counted before it
/// included) times `num / den`, and the count starts again from zero.
pub proof fn lemma_speed_period(count: usize, num: usize, den: usize, ticks: Seq<(usize, u64)>)
    requires
        ticks.len() >= 1,
        forall|i: int| 0 <= i < ticks.len() - 1 ==> #[trigger] ticks[i].1 == 0,
        ticks.last().1 >= 1,
        count + ticks_bytes(ticks) <= usize::MAX,
        den > 0,
    ensures
        tick_run(count, num, den, ticks).0 == 0,
        tick_run(count, num, den, ticks).1 == Seq::new((ticks.len() - 1) as nat, |i: int| None::<usize>)
            .push(Some(((count + ticks_bytes(ticks)) * num / (den as int)) as usize)),
{
    let t0 = ticks.drop_last();
    assert forall|i: int| 0 <= i < t0.len() implies #[trigger] t0[i].1 == 0 by {
        assert(t0[i] == ticks[i]);
    }
    lemma_tick_run_quiet(count, num, den, ticks.drop_last());
    assert(ticks.last().0 >= 0);
}

} // verus!
