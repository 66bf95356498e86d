use vstd::prelude::*;
use std::collections::VecDeque;
use std::sync::atomic::Ordering;
use std::time::Instant;

use crate::clock::{elapsed_since, instant_now, whole_millis};
use crate::params::Params;
use crate::viewer::{push_all_evicting, recent, WINDOW_SIZE};

verus! {

#[derive(Clone, Copy, Debug, PartialEq, Eq, Structural)]
pub enum TriggerMode {
    Auto,
    Normal,
    Single,
}

#[derive(Clone, Copy, Debug, PartialEq, Eq, Structural)]
pub enum TriggerEdge {
    Rising,
    Falling,
}

/// The integer part of the trigger settings (the pre-trigger ratio is kept
/// by the viewer, which turns it into a sample count).
#[derive(Clone, Copy, Debug)]
pub struct Trigger {
    pub mode: TriggerMode,
    pub edge: TriggerEdge,
    pub level: u16,
    pub hysteresis: u16,
    pub holdoff_ms: u64,
}

/// How many recent samples the scope keeps.
pub open spec fn scope_keep() -> int {
    if WINDOW_SIZE * 8 >= 32_768 { WINDOW_SIZE * 8 } else { 32_768 }
}

/// Whether sample `a` arms the trigger: below the lower threshold for a
/// rising edge, above the upper one for a falling edge.
pub open spec fn arms(edge: TriggerEdge, lo: int, hi: int, a: int) -> bool {
    match edge {
        TriggerEdge::Rising => a <= lo,
        TriggerEdge::Falling => a >= hi,
    }
}

/// Whether the step from `a` to `b` fires an armed trigger: crossing the
/// upper threshold upwards (rising), or the lower one downwards (falling).
pub open spec fn fires(edge: TriggerEdge, lo: int, hi: int, a: int, b: int) -> bool {
    match edge {
        TriggerEdge::Rising => a <= hi && b >= hi,
        TriggerEdge::Falling => a >= lo && b <= lo,
    }
}

/// Where the trigger search starts: it looks at most `2 * WINDOW_SIZE`
/// steps back from the newest sample.
pub open spec fn scan_start(n: int) -> int {
    let scan_len = if 2 * WINDOW_SIZE <= n - 1 { 2 * WINDOW_SIZE as int } else { n - 1 };
    n - 1 - scan_len
}

/// `ia` is the first sample of the scanned range that arms the trigger, and
/// `j` the first step after it that fires.
pub open spec fn trigger_pair(s: Seq<u16>, edge: TriggerEdge, lo: int, hi: int, ia: int, j: int) -> bool {
    let start = scan_start(s.len() as int);
    &&& start <= ia < j < s.len() - 1
    &&& arms(edge, lo, hi, s[ia] as int)
    &&& forall|k: int| start <= k < ia ==> !arms(edge, lo, hi, #[trigger] s[k] as int)
    &&& fires(edge, lo, hi, s[j] as int, s[j + 1] as int)
    &&& forall|k: int| ia < k < j ==> !fires(edge, lo, hi, #[trigger] s[k] as int, s[k + 1] as int)
}

/// The index of the sample just after the first firing step of the armed
/// trigger (hysteresis around `level`), searching the recent samples from
/// the oldest; `None` if it never fires there or fewer than two samples
/// are held.
pub open spec fn spec_find_trigger(s: Seq<u16>, edge: TriggerEdge, level: u16, hysteresis: u16) -> Option<int> {
    let lo = level - hysteresis;
    let hi = level + hysteresis;
    if s.len() >= 2 && exists|p: (int, int)| trigger_pair(s, edge, lo, hi, p.0, p.1) {
        let p = choose|p: (int, int)| trigger_pair(s, edge, lo, hi, p.0, p.1);
        Some(p.1 + 1)
    } else {
        None
    }
}

proof fn lemma_trigger_pair_unique(s: Seq<u16>, edge: TriggerEdge, lo: int, hi: int, ia: int, j: int, ia2: int, j2: int)
    requires
        trigger_pair(s, edge, lo, hi, ia, j),
        trigger_pair(s, edge, lo, hi, ia2, j2),
    ensures
        ia == ia2 && j == j2,
{
    if ia < ia2 {
        assert(!arms(edge, lo, hi, s[ia] as int));
    } else if ia2 < ia {
        assert(!arms(edge, lo, hi, s[ia2] as int));
    }
    if j < j2 {
        assert(!fires(edge, lo, hi, s[j] as int, s[j + 1] as int));
    } else if j2 < j {
        assert(!fires(edge, lo, hi, s[j2] as int, s[j2 + 1] as int));
    }
}

/// A rising trigger: after the first scanned sample at or below
/// `level - hysteresis`, it fires at the first step from a sample at or
/// below `level + hysteresis` to one at or above it, whatever lies between,
/// and gives the index just after that step. The scan covers the last
/// `2 * WINDOW_SIZE` steps.
pub proof fn lemma_rising_trigger(s: Seq<u16>, level: u16, hysteresis: u16, start: int, ia: int, j: int)
    requires
        s.len() >= 2,
        start == if s.len() - 1 > 2 * WINDOW_SIZE { s.len() - 1 - 2 * WINDOW_SIZE } else { 0 },
        start <= ia < j < s.len() - 1,
        s[ia] <= level - hysteresis,
        forall|k: int| start <= k < ia ==> #[trigger] s[k] > level - hysteresis,
        s[j] <= level + hysteresis <= s[j + 1],
        forall|k: int| ia < k < j ==> !(#[trigger] s[k] <= level + hysteresis && s[k + 1] >= level + hysteresis),
    ensures
        spec_find_trigger(s, TriggerEdge::Rising, level, hysteresis) == Some(j + 1),
{
    lemma_trigger_at(s, TriggerEdge::Rising, level, hysteresis, ia, j);
}

/// A falling trigger: after the first scanned sample at or above
/// `level + hysteresis`, it fires at the first step from a sample at or
/// above `level - hysteresis` to one at or below it, and gives the index
/// just after that step.
pub proof fn lemma_falling_trigger(s: Seq<u16>, level: u16, hysteresis: u16, start: int, ia: int, j: int)
    requires
        s.len() >= 2,
        start == if s.len() - 1 > 2 * WINDOW_SIZE { s.len() - 1 - 2 * WINDOW_SIZE } else { 0 },
        start <= ia < j < s.len() - 1,
        s[ia] >= level + hysteresis,
        forall|k: int| start <= k < ia ==> #[trigger] s[k] < level + hysteresis,
        s[j] >= level - hysteresis >= s[j + 1],
        forall|k: int| ia < k < j ==> !(#[trigger] s[k] >= level - hysteresis && s[k + 1] <= level - hysteresis),
    ensures
        spec_find_trigger(s, TriggerEdge::Falling, level, hysteresis) == Some(j + 1),
{
    lemma_trigger_at(s, TriggerEdge::Falling, level, hysteresis, ia, j);
}

/// Without a scanned sample that arms it (at or below `level - hysteresis`
/// for a rising edge, at or above `level + hysteresis` for a falling one),
/// the trigger never fires; and where it fires, the step before the index
/// it gives crosses the threshold in the edge's direction.
pub proof fn lemma_trigger_needs_arming(s: Seq<u16>, edge: TriggerEdge, level: u16, hysteresis: u16, start: int)
    requires
        start == if s.len() - 1 > 2 * WINDOW_SIZE { s.len() - 1 - 2 * WINDOW_SIZE } else { 0 },
    ensures
        (forall|k: int| start <= k < s.len() ==> match edge {
            TriggerEdge::Rising => #[trigger] s[k] > level - hysteresis,
            TriggerEdge::Falling => s[k] < level + hysteresis,
        }) ==> spec_find_trigger(s, edge, level, hysteresis) is None,
        spec_find_trigger(s, edge, level, hysteresis) matches Some(t) ==> {
            &&& start + 2 <= t < s.len()
            &&& match edge {
                TriggerEdge::Rising => s[t - 1] <= level + hysteresis <= s[t],
                TriggerEdge::Falling => s[t - 1] >= level - hysteresis >= s[t],
            }
        },
{
    let lo = level - hysteresis;
    let hi = level + hysteresis;
    if s.len() >= 2 && exists|p: (int, int)| trigger_pair(s, edge, lo, hi, p.0, p.1) {
        let p = choose|p: (int, int)| trigger_pair(s, edge, lo, hi, p.0, p.1);
        assert(arms(edge, lo, hi, s[p.0] as int));
    }
}

proof fn lemma_trigger_at(s: Seq<u16>, edge: TriggerEdge, level: u16, hysteresis: u16, ia: int, j: int)
    requires
        trigger_pair(s, edge, level - hysteresis, level + hysteresis, ia, j),
        s.len() >= 2,
    ensures
        spec_find_trigger(s, edge, level, hysteresis) == Some(j + 1),
{
    let lo = level - hysteresis;
    let hi = level + hysteresis;
    let w: (int, int) = (ia, j);
    assert(trigger_pair(s, edge, lo, hi, w.0, w.1));
    let p = choose|p: (int, int)| trigger_pair(s, edge, lo, hi, p.0, p.1);
    lemma_trigger_pair_unique(s, edge, lo, hi, ia, j, p.0, p.1);
}

fn arms_exec(edge: TriggerEdge, lo: i32, hi: i32, a: i32) -> (r: bool)
    ensures
        r == arms(edge, lo as int, hi as int, a as int),
{
    match edge {
        TriggerEdge::Rising => a <= lo,
        TriggerEdge::Falling => a >= hi,
    }
}

fn fires_exec(edge: TriggerEdge, lo: i32, hi: i32, a: i32, b: i32) -> (r: bool)
    ensures
        r == fires(edge, lo as int, hi as int, a as int, b as int),
{
    match edge {
        TriggerEdge::Rising => a <= hi && b >= hi,
        TriggerEdge::Falling => a >= lo && b <= lo,
    }
}

/// Searches the recent samples for a trigger (see [`spec_find_trigger`]).
pub fn find_trigger(samples: &VecDeque<u16>, edge: TriggerEdge, level: u16, hysteresis: u16) -> (r: Option<usize>)
    ensures
        r matches Some(t) ==> spec_find_trigger(samples@, edge, level, hysteresis) == Some(t as int),
        r is None ==> spec_find_trigger(samples@, edge, level, hysteresis) is None,
{
    let n = samples.len();
    if n < 2 {
        return None;
    }
    let lo = level as i32 - hysteresis as i32;
    let hi = level as i32 + hysteresis as i32;
    let ghost s = samples@;
    let ghost lo_i = level - hysteresis;
    let ghost hi_i = level + hysteresis;
    let scan_len = if WINDOW_SIZE * 2 <= n - 1 { WINDOW_SIZE * 2 } else { n - 1 };
    let start = n - 1 - scan_len;
    let mut armed = false;
    let ghost mut ia: int = 0;
    let mut i = start;
    while i < n - 1
        invariant
            n == s.len(),
            n >= 2,
            s == samples@,
            lo == lo_i,
            hi == hi_i,
            lo_i == level - hysteresis,
            hi_i == level + hysteresis,
            start == scan_start(n as int),
            start <= i <= n - 1,
            !armed ==> forall|k: int| start <= k < i ==> !arms(edge, lo_i, hi_i, #[trigger] s[k] as int),
            armed ==> {
                &&& start <= ia < i
                &&& arms(edge, lo_i, hi_i, s[ia] as int)
                &&& forall|k: int| start <= k < ia ==> !arms(edge, lo_i, hi_i, #[trigger] s[k] as int)
                &&& forall|k: int| ia < k < i ==> !fires(edge, lo_i, hi_i, #[trigger] s[k] as int, s[k + 1] as int)
            },
        decreases n - 1 - i,
    {
        let a = samples[i] as i32;
        let b = samples[i + 1] as i32;
        if !armed {
            if arms_exec(edge, lo, hi, a) {
                armed = true;
                proof {
                    ia = i as int;
                }
            }
            i = i + 1;
            continue;
        }
        if fires_exec(edge, lo, hi, a, b) {
            proof {
                assert(trigger_pair(s, edge, lo_i, hi_i, ia, i as int));
                let w: (int, int) = (ia, i as int);
                assert(trigger_pair(s, edge, lo_i, hi_i, w.0, w.1));
                let p = choose|p: (int, int)| trigger_pair(s, edge, lo_i, hi_i, p.0, p.1);
                lemma_trigger_pair_unique(s, edge, lo_i, hi_i, ia, i as int, p.0, p.1);
                assert(spec_find_trigger(s, edge, level, hysteresis) == Some(i + 1));
            }
            return Some(i + 1);
        }
        i = i + 1;
    }
    proof {
        assert forall|p: (int, int)| !trigger_pair(s, edge, lo_i, hi_i, p.0, p.1) by {
            let ia2 = p.0;
            let j2 = p.1;
            if trigger_pair(s, edge, lo_i, hi_i, ia2, j2) {
                if armed {
                    if ia2 < ia {
                        assert(!arms(edge, lo_i, hi_i, s[ia2] as int));
                    } else if ia < ia2 {
                        assert(!arms(edge, lo_i, hi_i, s[ia] as int));
                    }
                    assert(!fires(edge, lo_i, hi_i, s[j2] as int, s[j2 + 1] as int));
                } else {
                    assert(!arms(edge, lo_i, hi_i, s[ia2] as int));
                }
            }
        }
    }
    None
}

/// The frames as sample sequences.
pub open spec fn frames_view(frames: Seq<Vec<u16>>) -> Seq<Seq<u16>> {
    Seq::new(frames.len(), |i: int| frames[i]@)
}

/// How many frames are kept: the persistence, at least one.
pub open spec fn frames_kept(persistence: usize) -> int {
    if persistence >= 1 { persistence as int } else { 1 }
}

/// One acquisition decision on the samples `s` and the frames `frames`:
/// whether a frame is taken, the frames afterwards, whether a single shot
/// stays armed, and whether the frame was taken at a trigger (whose time is
/// then recorded). `blocked` means that the trigger search was skipped
/// because the hold-off was running. Nothing happens once a single shot has
/// fired; a trigger found takes the window in which it lands `pre` samples
/// after the start, if that window is held; with no trigger, automatic mode
/// takes the newest window.
pub open spec fn capture_outcome(
    s: Seq<u16>,
    frames: Seq<Seq<u16>>,
    persistence: usize,
    trig: Trigger,
    single_armed: bool,
    pre: int,
    blocked: bool,
) -> (bool, Seq<Seq<u16>>, bool, bool) {
    let keep = frames_kept(persistence);
    if trig.mode == TriggerMode::Single && !single_armed {
        (false, frames, single_armed, false)
    } else {
        let found = if blocked {
            None
        } else {
            spec_find_trigger(s, trig.edge, trig.level, trig.hysteresis)
        };
        match found {
            Some(t) => if s.len() >= WINDOW_SIZE && t >= pre && t - pre + WINDOW_SIZE <= s.len() {
                (
                    true,
                    recent(frames.push(s.subrange(t - pre, t - pre + WINDOW_SIZE)), keep),
                    single_armed && trig.mode != TriggerMode::Single,
                    true,
                )
            } else {
                (false, frames, single_armed, false)
            },
            None => if trig.mode == TriggerMode::Auto && s.len() >= WINDOW_SIZE {
                (true, recent(frames.push(s.skip(s.len() - WINDOW_SIZE)), keep), single_armed, false)
            } else {
                (false, frames, single_armed, false)
            },
        }
    }
}

/// How many samples one drawn segment of a frame of `n` samples spans on a
/// plot `width_px` pixels wide: one per pixel, at least one sample.
pub fn segment_step(n: usize, width_px: usize) -> (r: usize)
    requires
        n >= 1,
        width_px >= 1,
    ensures
        r == if (n - 1) / (width_px as int) >= 1 { (n - 1) / (width_px as int) } else { 1 },
{
    let step = (n - 1) / width_px;
    if step >= 1 { step } else { 1 }
}

/// Whether a hold-off of `holdoff_ms` milliseconds is still running
/// `elapsed_ms` milliseconds after the last trigger.
pub open spec fn spec_holdoff_running(elapsed_ms: u128, holdoff_ms: u64) -> bool {
    holdoff_ms > 0 && elapsed_ms < holdoff_ms
}

/// Tests [`spec_holdoff_running`].
pub fn holdoff_running(elapsed_ms: u128, holdoff_ms: u64) -> (r: bool)
    ensures
        r == spec_holdoff_running(elapsed_ms, holdoff_ms),
{
    holdoff_ms > 0 && elapsed_ms < holdoff_ms as u128
}

/// An optional index as an optional integer.
pub open spec fn index_opt(r: Option<usize>) -> Option<int> {
    match r {
        Some(t) => Some(t as int),
        None => None,
    }
}

/// How one acquisition decision `elapsed_ms` milliseconds after the last
/// trigger takes the scope from `before` to `after`, returning `r` (see
/// [`capture_outcome`]).
pub open spec fn capture_matches(before: ScopeState, after: ScopeState, r: bool, pre: int, elapsed_ms: u128) -> bool {
    let o = capture_outcome(
        before.samples@, frames_view(before.frames@), before.persistence, before.trig,
        before.single_armed, pre, before.holdoff_blocks(elapsed_ms));
    &&& r == o.0
    &&& frames_view(after.frames@) == o.1
    &&& after.single_armed == o.2
    &&& o.3 ==> after.last_triggered_at is Some
    &&& !o.3 ==> after.last_triggered_at == before.last_triggered_at
}

/// What one acquisition decision does, for every state and every time since
/// the last trigger:
/// - a single shot that has fired takes nothing and keeps its time;
/// - when the search finds nothing outside automatic mode, nothing is taken
///   and the frames stay as they were: a frame without a trigger is taken
///   only in automatic mode;
/// - a trigger found at `t` whose window (`pre` samples before it) is held
///   is taken as the newest frame and its time recorded, the oldest frames
///   dropped beyond the persistence;
/// - in automatic mode with no trigger, the newest window is taken if held.
pub proof fn lemma_capture_rules(before: ScopeState, after: ScopeState, r: bool, pre: int, elapsed_ms: u128)
    requires
        capture_matches(before, after, r, pre, elapsed_ms),
    ensures
        before.trig.mode == TriggerMode::Single && !before.single_armed ==> !r
            && frames_view(after.frames@) == frames_view(before.frames@)
            && after.last_triggered_at == before.last_triggered_at,
        before.trig.mode != TriggerMode::Auto && before.search_after(elapsed_ms) is None ==> !r
            && frames_view(after.frames@) == frames_view(before.frames@)
            && after.last_triggered_at == before.last_triggered_at,
        r && before.trig.mode != TriggerMode::Auto ==> before.search_after(elapsed_ms) is Some
            && after.last_triggered_at is Some,
        !r ==> frames_view(after.frames@) == frames_view(before.frames@),
        ({
            let s = before.samples@;
            let w = WINDOW_SIZE as int;
            &&& !(before.trig.mode == TriggerMode::Single && !before.single_armed)
            &&& before.search_after(elapsed_ms) matches Some(t)
            &&& s.len() >= w && t >= pre && t - pre + w <= s.len()
        }) ==> ({
            let s = before.samples@;
            let t = before.search_after(elapsed_ms).unwrap();
            &&& r
            &&& after.last_triggered_at is Some
            &&& frames_view(after.frames@) == recent(
                frames_view(before.frames@).push(s.subrange(t - pre, t - pre + WINDOW_SIZE)),
                if before.persistence >= 1 { before.persistence as int } else { 1 })
        }),
        before.trig.mode == TriggerMode::Auto && before.search_after(elapsed_ms) is None
            && before.samples@.len() >= WINDOW_SIZE ==> r
            && after.last_triggered_at == before.last_triggered_at
            && frames_view(after.frames@) == recent(
                frames_view(before.frames@).push(before.samples@.skip(before.samples@.len() - WINDOW_SIZE)),
                if before.persistence >= 1 { before.persistence as int } else { 1 }),
{
}

/// The oscilloscope view's acquisition state: recent samples, captured
/// frames and trigger settings.
pub struct ScopeState {
    pub samples: VecDeque<u16>,
    pub frames: VecDeque<Vec<u16>>,
    pub persistence: usize,
    pub trig: Trigger,
    pub last_triggered_at: Option<Instant>,
    pub single_armed: bool,
}

/// Copies `samples[start..start + WINDOW_SIZE]`.
fn copy_window(samples: &VecDeque<u16>, start: usize) -> (r: Vec<u16>)
    requires
        start + WINDOW_SIZE <= samples@.len(),
    ensures
        r@ == samples@.subrange(start as int, start + WINDOW_SIZE),
{
    let mut raw: Vec<u16> = Vec::with_capacity(WINDOW_SIZE);
    assert(samples.len() == samples@.len());
    let mut i = start;
    while i < start + WINDOW_SIZE
        invariant
            start <= i <= start + WINDOW_SIZE,
            start + WINDOW_SIZE <= samples@.len(),
            samples@.len() <= usize::MAX,
            raw@ == samples@.subrange(start as int, i as int),
        decreases start + WINDOW_SIZE - i,
    {
        raw.push(samples[i]);
        proof {
            assert(raw@ =~= samples@.subrange(start as int, i + 1));
        }
        i = i + 1;
    }
    raw
}

impl ScopeState {
    /// An empty scope: three frames of persistence, automatic trigger on a
    /// rising edge at 2048 with hysteresis 8, no hold-off, single shot armed.
    pub fn new() -> (r: Self)
        ensures
            r.samples@ == Seq::<u16>::empty(),
            r.frames@ == Seq::<Vec<u16>>::empty(),
            r.persistence == 3,
            r.trig.mode == TriggerMode::Auto,
            r.trig.edge == TriggerEdge::Rising,
            r.trig.level == 2048,
            r.trig.hysteresis == 8,
            r.trig.holdoff_ms == 0,
            r.last_triggered_at is None,
            r.single_armed,
    {
        Self {
            samples: VecDeque::with_capacity(WINDOW_SIZE * 10),
            frames: VecDeque::new(),
            persistence: 3,
            trig: Trigger {
                mode: TriggerMode::Auto,
                edge: TriggerEdge::Rising,
                level: 2048,
                hysteresis: 8,
                holdoff_ms: 0,
            },
            last_triggered_at: None,
            single_armed: true,
        }
    }

    /// Appends received samples, dropping the oldest beyond the kept count.
    pub fn push_samples(&mut self, chunk: &[u16])
        ensures
            final(self).samples@ == push_all_evicting(old(self).samples@, chunk@, scope_keep()),
            final(self).frames == old(self).frames,
            final(self).persistence == old(self).persistence,
            final(self).trig == old(self).trig,
            final(self).single_armed == old(self).single_armed,
            final(self).last_triggered_at == old(self).last_triggered_at,
    {
        let keep = if WINDOW_SIZE * 8 >= 32_768 { WINDOW_SIZE * 8 } else { 32_768 };
        crate::viewer::push_with_eviction(&mut self.samples, chunk, keep);
    }

    /// Whether the trigger search is skipped `elapsed_ms` milliseconds after
    /// the last trigger: a trigger was recorded and its hold-off still runs.
    pub open spec fn holdoff_blocks(&self, elapsed_ms: u128) -> bool {
        self.last_triggered_at is Some && spec_holdoff_running(elapsed_ms, self.trig.holdoff_ms)
    }

    /// The trigger search `elapsed_ms` milliseconds after the last trigger.
    pub open spec fn search_after(&self, elapsed_ms: u128) -> Option<int> {
        if self.holdoff_blocks(elapsed_ms) {
            None
        } else {
            spec_find_trigger(self.samples@, self.trig.edge, self.trig.level, self.trig.hysteresis)
        }
    }

    /// The milliseconds since the last trigger, read from the clock only
    /// when a hold-off is set and a trigger was recorded; 0 otherwise.
    fn holdoff_elapsed_ms(&self) -> (r: u128)
        ensures
            !(self.trig.holdoff_ms > 0 && self.last_triggered_at is Some) ==> r == 0,
    {
        match &self.last_triggered_at {
            Some(last) => {
                if self.trig.holdoff_ms > 0 {
                    whole_millis(&elapsed_since(last))
                } else {
                    0
                }
            },
            None => 0,
        }
    }

    /// Whether the hold-off after the last trigger is still running. The
    /// time since that trigger is read from the clock; never running
    /// without a hold-off or before the first trigger.
    pub fn within_holdoff(&self) -> (r: bool)
        ensures
            exists|elapsed_ms: u128| r == #[trigger] self.holdoff_blocks(elapsed_ms),
            r ==> self.trig.holdoff_ms > 0 && self.last_triggered_at is Some,
    {
        let elapsed = self.holdoff_elapsed_ms();
        let r = self.last_triggered_at.is_some() && holdoff_running(elapsed, self.trig.holdoff_ms);
        assert(r == self.holdoff_blocks(elapsed));
        r
    }

    /// Searches for a trigger `elapsed_ms` milliseconds after the last one:
    /// nothing while the hold-off runs, otherwise [`find_trigger`].
    pub fn find_trigger_after(&self, elapsed_ms: u128) -> (r: Option<usize>)
        ensures
            index_opt(r) == self.search_after(elapsed_ms),
    {
        if self.samples.len() < 2
            || (self.last_triggered_at.is_some() && holdoff_running(elapsed_ms, self.trig.holdoff_ms)) {
            return None;
        }
        find_trigger(&self.samples, self.trig.edge, self.trig.level, self.trig.hysteresis)
    }

    /// Searches for a trigger unless the hold-off is running; the time since
    /// the last trigger is read from the clock.
    pub fn find_trigger_index(&self) -> (r: Option<usize>)
        ensures
            exists|elapsed_ms: u128| index_opt(r) == #[trigger] self.search_after(elapsed_ms),
    {
        let elapsed = self.holdoff_elapsed_ms();
        self.find_trigger_after(elapsed)
    }

    /// Keeps `raw` as the newest frame, dropping the oldest beyond the
    /// persistence.
    fn store_frame(&mut self, raw: Vec<u16>)
        ensures
            frames_view(final(self).frames@) == recent(frames_view(old(self).frames@).push(raw@), frames_kept(old(self).persistence)),
            final(self).samples == old(self).samples,
            final(self).persistence == old(self).persistence,
            final(self).trig == old(self).trig,
            final(self).single_armed == old(self).single_armed,
            final(self).last_triggered_at == old(self).last_triggered_at,
    {
        let ghost all = frames_view(self.frames@).push(raw@);
        self.frames.push_back(raw);
        proof {
            assert(frames_view(self.frames@) =~= all);
        }
        let keep = if self.persistence >= 1 { self.persistence } else { 1 };
        while self.frames.len() > keep
            invariant
                keep == frames_kept(self.persistence),
                frames_view(self.frames@) == all.skip(all.len() - self.frames@.len()),
                self.frames@.len() <= all.len(),
                all.len() > keep ==> self.frames@.len() >= keep,
                all.len() <= keep ==> self.frames@.len() == all.len(),
                self.samples == old(self).samples,
                self.persistence == old(self).persistence,
                self.trig == old(self).trig,
                self.single_armed == old(self).single_armed,
                self.last_triggered_at == old(self).last_triggered_at,
            decreases self.frames@.len(),
        {
            let ghost before = self.frames@;
            let _ = self.frames.pop_front();
            proof {
                assert(frames_view(self.frames@) =~= frames_view(before).skip(1));
                assert(frames_view(self.frames@) =~= all.skip(all.len() - self.frames@.len()));
            }
        }
        proof {
            if all.len() <= keep {
                assert(all.skip(0) =~= all);
            }
        }
    }

    /// Captures the window in which the trigger at `trig_idx` lands `pre`
    /// samples after the frame's start. Fails when fewer than a window of
    /// samples is held or the window would not fit. On success the trigger
    /// time is recorded, and in single-shot mode the trigger is disarmed
    /// and acquisition paused.
    pub fn capture_frame_at(&mut self, trig_idx: usize, pre: usize, params: &Params) -> (r: bool)
        ensures
            r <==> (old(self).samples@.len() >= WINDOW_SIZE && trig_idx >= pre
                && trig_idx - pre + WINDOW_SIZE <= old(self).samples@.len()),
            r ==> frames_view(final(self).frames@) == recent(
                frames_view(old(self).frames@).push(
                    old(self).samples@.subrange(trig_idx - pre, trig_idx - pre + WINDOW_SIZE)),
                frames_kept(old(self).persistence)),
            r ==> final(self).last_triggered_at is Some,
            r ==> final(self).single_armed == (old(self).single_armed && old(self).trig.mode != TriggerMode::Single),
            !r ==> final(self).frames == old(self).frames && final(self).single_armed == old(self).single_armed
                && final(self).last_triggered_at == old(self).last_triggered_at,
            final(self).samples == old(self).samples,
            final(self).persistence == old(self).persistence,
            final(self).trig == old(self).trig,
    {
        let n = self.samples.len();
        if n < WINDOW_SIZE {
            return false;
        }
        if trig_idx < pre {
            return false;
        }
        let start = trig_idx - pre;
        if start > n - WINDOW_SIZE {
            return false;
        }
        let raw = copy_window(&self.samples, start);
        self.store_frame(raw);
        self.last_triggered_at = Some(instant_now());
        if self.trig.mode == TriggerMode::Single {
            self.single_armed = false;
            params.paused.store(true, Ordering::Relaxed);
        }
        true
    }

    /// Captures the newest window of samples, if a whole window is held.
    pub fn capture_latest_window(&mut self) -> (r: bool)
        ensures
            r <==> old(self).samples@.len() >= WINDOW_SIZE,
            r ==> frames_view(final(self).frames@) == recent(
                frames_view(old(self).frames@).push(
                    old(self).samples@.skip(old(self).samples@.len() - WINDOW_SIZE)),
                frames_kept(old(self).persistence)),
            !r ==> final(self).frames == old(self).frames,
            final(self).samples == old(self).samples,
            final(self).persistence == old(self).persistence,
            final(self).trig == old(self).trig,
            final(self).single_armed == old(self).single_armed,
            final(self).last_triggered_at == old(self).last_triggered_at,
    {
        let n = self.samples.len();
        if n < WINDOW_SIZE {
            return false;
        }
        let raw = copy_window(&self.samples, n - WINDOW_SIZE);
        proof {
            assert(raw@ =~= self.samples@.skip(n - WINDOW_SIZE));
        }
        self.store_frame(raw);
        true
    }

    /// One acquisition decision `elapsed_ms` milliseconds after the last
    /// trigger: nothing while a single shot has fired; otherwise the window
    /// at the trigger if one is found; otherwise, in automatic mode, the
    /// newest window. Returns whether a frame was taken. `pre` is the number
    /// of samples shown before the trigger.
    pub fn capture_after(&mut self, elapsed_ms: u128, pre: usize, params: &Params) -> (r: bool)
        ensures
            capture_matches(*old(self), *final(self), r, pre as int, elapsed_ms),
            !r ==> final(self).frames == old(self).frames,
            final(self).samples == old(self).samples,
            final(self).persistence == old(self).persistence,
            final(self).trig == old(self).trig,
    {
        if self.trig.mode == TriggerMode::Single && !self.single_armed {
            return false;
        }
        if let Some(ti) = self.find_trigger_after(elapsed_ms) {
            return self.capture_frame_at(ti, pre, params);
        }
        if self.trig.mode == TriggerMode::Auto {
            return self.capture_latest_window();
        }
        false
    }

    /// One acquisition decision (see [`Self::capture_after`]), the time
    /// since the last trigger read from the clock.
    pub fn maybe_capture(&mut self, pre: usize, params: &Params) -> (r: bool)
        ensures
            exists|elapsed_ms: u128| #[trigger] capture_matches(*old(self), *final(self), r, pre as int, elapsed_ms),
            !r ==> final(self).frames == old(self).frames,
            final(self).samples == old(self).samples,
            final(self).persistence == old(self).persistence,
            final(self).trig == old(self).trig,
    {
        let elapsed = self.holdoff_elapsed_ms();
        self.capture_after(elapsed, pre, params)
    }
}

} // verus!
