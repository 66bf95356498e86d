use vstd::prelude::*;
use std::collections::VecDeque;
use std::sync::atomic::Ordering;

use crate::data::Data;
use crate::params::Params;

verus! {

/// The parameters a filter reads: `param0` (decimation) and `param1`
/// (window length), as loaded from [`Params`] at one moment.
#[derive(Clone, Copy)]
pub struct FilterSettings {
    pub decimation: isize,
    pub window: isize,
}

impl FilterSettings {
    /// Reads the filter parameters from the shared state. Another thread may
    /// store new values at any time, so nothing is known of what comes back.
    pub fn load(params: &Params) -> (r: FilterSettings) {
        let decimation = params.param0.load(Ordering::Relaxed);
        let window = params.param1.load(Ordering::Relaxed);
        FilterSettings { decimation, window }
    }
}

/// A parameter read as an unsigned count: a negative value wraps around to
/// a large one, as a cast to `usize` does.
pub open spec fn param_count(p: isize) -> int {
    if p >= 0 { p as int } else { p + usize::MAX + 1 }
}

/// Converts a parameter to an unsigned count (see [`param_count`]).
pub fn param_to_count(p: isize) -> (r: usize)
    ensures
        r == param_count(p),
{
    if p >= 0 {
        p as usize
    } else {
        usize::MAX - ((-(p + 1)) as usize)
    }
}

/// One step of a decimator that drops `decimation` values and then lets one
/// through: the new counter and what is let through.
pub open spec fn decimate<T>(count: usize, value: T, decimation: int) -> (usize, Option<T>) {
    if count >= decimation {
        (0usize, Some(value))
    } else {
        ((count + 1) as usize, None)
    }
}

/// A stage that turns a stream of input samples into a (shorter) stream of
/// output samples.
pub trait Filter<TI: Data, TO: Data>: Sized {
    /// What the filter remembers between samples.
    type State;

    spec fn state(&self) -> Self::State;

    /// The filter's internal consistency.
    spec fn inv(&self) -> bool;

    /// The settings under which `run` is defined.
    spec fn accepts(settings: FilterSettings) -> bool;

    /// The state after one sample, and what the filter emits for it.
    spec fn next(st: Self::State, value: TI, settings: FilterSettings) -> (Self::State, Option<TO>);

    /// Tests [`Self::accepts`].
    fn accepts_settings(settings: &FilterSettings) -> (r: bool)
        ensures
            r == Self::accepts(*settings),
    ;

    /// Feeds one sample; returns the output sample, if one is due.
    fn run(&mut self, value: TI, settings: &FilterSettings) -> (r: Option<TO>)
        requires
            old(self).inv(),
            Self::accepts(*settings),
        ensures
            final(self).inv(),
            (final(self).state(), r) == Self::next(old(self).state(), value, *settings),
    ;
}

/// Drops `decimation` samples (parameter 0), then keeps one, and so on.
pub struct DecimationFilter {
    count: usize,
}

impl DecimationFilter {
    pub closed spec fn spec_count(&self) -> usize {
        self.count
    }

    pub fn new() -> (r: Self)
        ensures
            r.spec_count() == 0,
    {
        Self { count: 0 }
    }

    /// One decimation step with the decimation given as a count.
    pub fn step<T: Copy>(&mut self, value: T, decimation: usize) -> (r: Option<T>)
        ensures
            (final(self).spec_count(), r) == decimate(old(self).spec_count(), value, decimation as int),
    {
        if self.count >= decimation {
            self.count = 0;
            Some(value)
        } else {
            self.count = self.count + 1;
            None
        }
    }
}

impl<T: Data> Filter<T, T> for DecimationFilter {
    type State = usize;

    open spec fn state(&self) -> usize {
        self.spec_count()
    }

    open spec fn inv(&self) -> bool {
        true
    }

    open spec fn accepts(settings: FilterSettings) -> bool {
        true
    }

    open spec fn next(st: usize, value: T, settings: FilterSettings) -> (usize, Option<T>) {
        decimate(st, value, param_count(settings.decimation))
    }

    fn accepts_settings(settings: &FilterSettings) -> (r: bool) {
        true
    }

    fn run(&mut self, value: T, settings: &FilterSettings) -> (r: Option<T>) {
        let decimation = param_to_count(settings.decimation);
        self.step(value, decimation)
    }
}

/// The sum of the values of a sequence of samples.
pub open spec fn seq_sum<T: Data>(q: Seq<T>) -> int
    decreases q.len(),
{
    if q.len() == 0 {
        0
    } else {
        seq_sum(q.drop_last()) + q.last().as_int()
    }
}

proof fn lemma_seq_sum_push<T: Data>(q: Seq<T>, v: T)
    ensures
        seq_sum(q.push(v)) == seq_sum(q) + v.as_int(),
{
    assert(q.push(v).drop_last() =~= q);
}

proof fn lemma_seq_sum_skip1<T: Data>(q: Seq<T>)
    requires
        q.len() > 0,
    ensures
        seq_sum(q) == q[0].as_int() + seq_sum(q.skip(1)),
    decreases q.len(),
{
    if q.len() == 1 {
        assert(q.skip(1) =~= Seq::<T>::empty());
        assert(q.drop_last() =~= Seq::<T>::empty());
    } else {
        lemma_seq_sum_skip1(q.drop_last());
        assert(q.drop_last().skip(1) =~= q.skip(1).drop_last());
    }
}

proof fn lemma_seq_sum_bound<T: Data>(q: Seq<T>)
    ensures
        0 <= seq_sum(q) <= q.len() * T::max_int(),
    decreases q.len(),
{
    if q.len() > 0 {
        lemma_seq_sum_bound(q.drop_last());
        q.last().lemma_range();
        assert((q.len() - 1) * T::max_int() + T::max_int() == q.len() * T::max_int()) by (nonlinear_arith);
    }
}

/// The window after one sample arrives: the oldest samples leave so that at
/// most `window` remain, the newest included.
pub open spec fn slide<T>(q: Seq<T>, value: T, window: int) -> Seq<T> {
    let kept = if q.len() >= window { q.skip(q.len() - window + 1) } else { q };
    kept.push(value)
}

/// Moving average over the last `window` samples (parameter 1), rounded
/// down, followed by decimation (parameter 0).
pub struct MovAveFilter<T> {
    decimation_filter: DecimationFilter,
    queue: VecDeque<T>,
    sum: u128,
}

impl<T: Data> MovAveFilter<T> {
    pub closed spec fn spec_queue(&self) -> Seq<T> {
        self.queue@
    }

    pub closed spec fn spec_count(&self) -> usize {
        self.decimation_filter.spec_count()
    }

    pub closed spec fn wf(&self) -> bool {
        self.sum == seq_sum(self.queue@)
    }

    /// An empty window; the current window length (parameter 1) only sizes
    /// the first allocation.
    pub fn new(params: &Params) -> (r: Self)
        ensures
            r.wf(),
            r.spec_queue() == Seq::<T>::empty(),
            r.spec_count() == 0,
    {
        let decimation_filter = DecimationFilter::new();
        let window = params.param1.load(Ordering::Relaxed);
        let queue = VecDeque::with_capacity(param_to_count(window));
        Self { decimation_filter, queue, sum: 0 }
    }

    /// Takes `value` into a window of at most `window` samples and returns
    /// the window's average, rounded down.
    fn slide_average(&mut self, value: T, window: usize) -> (ave: u64)
        requires
            old(self).wf(),
            window > 0,
        ensures
            final(self).wf(),
            final(self).spec_queue() == slide(old(self).spec_queue(), value, window as int),
            final(self).decimation_filter == old(self).decimation_filter,
            ave == seq_sum(final(self).spec_queue()) / (window as int),
            ave <= T::max_int(),
    {
        let ghost q0 = self.queue@;
        while self.queue.len() >= window
            invariant
                window > 0,
                self.sum == seq_sum(self.queue@),
                q0.len() >= self.queue@.len(),
                self.queue@ == q0.skip(q0.len() - self.queue@.len()),
                q0.len() >= window ==> self.queue@.len() >= window - 1,
                q0.len() < window ==> self.queue@ == q0,
                q0 == old(self).queue@,
                self.decimation_filter == old(self).decimation_filter,
            decreases self.queue@.len(),
        {
            let ghost before = self.queue@;
            let x = self.queue.pop_front().unwrap();
            proof {
                assert(before.skip(1) =~= self.queue@);
                lemma_seq_sum_skip1(before);
                lemma_seq_sum_bound(self.queue@);
                x.lemma_range();
                assert(self.queue@ =~= q0.skip(q0.len() - self.queue@.len()));
            }
            self.sum = self.sum - x.to_u64() as u128;
        }
        proof {
            if q0.len() >= window {
                assert(self.queue@.len() == window - 1);
                assert(self.queue@ =~= q0.skip(q0.len() - window + 1));
            }
            lemma_seq_sum_push(self.queue@, value);
            value.lemma_range();
            lemma_seq_sum_bound(self.queue@);
            assert(self.queue@.len() * T::max_int() <= usize::MAX * u64::MAX) by (nonlinear_arith)
                requires self.queue@.len() <= usize::MAX, T::max_int() <= u64::MAX, 0 <= T::max_int();
        }
        self.queue.push_back(value);
        self.sum = self.sum + value.to_u64() as u128;
        proof {
            let q = self.queue@;
            lemma_seq_sum_bound(q);
            assert(q.len() <= window);
            assert(seq_sum(q) / (window as int) <= T::max_int()) by (nonlinear_arith)
                requires 0 <= seq_sum(q) <= q.len() * T::max_int(), q.len() <= window, window > 0, T::max_int() >= 0;
            assert(seq_sum(q) / (window as int) >= 0) by (nonlinear_arith)
                requires 0 <= seq_sum(q), window > 0;
        }
        let ave = (self.sum / (window as u128)) as u64;
        assert(self.queue@ == slide(q0, value, window as int));
        ave
    }
}

impl<T: Data> Filter<T, T> for MovAveFilter<T> {
    type State = (Seq<T>, usize);

    open spec fn state(&self) -> (Seq<T>, usize) {
        (self.spec_queue(), self.spec_count())
    }

    open spec fn inv(&self) -> bool {
        self.wf()
    }

    open spec fn accepts(settings: FilterSettings) -> bool {
        param_count(settings.window) > 0
    }

    open spec fn next(st: (Seq<T>, usize), value: T, settings: FilterSettings) -> ((Seq<T>, usize), Option<T>) {
        let w = param_count(settings.window);
        let q = slide(st.0, value, w);
        let ave = T::from_int(seq_sum(q) / w);
        let (count, out) = decimate(st.1, ave, param_count(settings.decimation));
        ((q, count), out)
    }

    fn accepts_settings(settings: &FilterSettings) -> (r: bool) {
        settings.window != 0
    }

    fn run(&mut self, value: T, settings: &FilterSettings) -> (r: Option<T>) {
        let window = param_to_count(settings.window);
        let ave = self.slide_average(value, window);
        let ave = T::from_u64(ave);
        let decimation = param_to_count(settings.decimation);
        self.decimation_filter.step(ave, decimation)
    }
}

/// The moving average of bytes, emitted as 16-bit samples.
impl Filter<u8, u16> for MovAveFilter<u8> {
    type State = (Seq<u8>, usize);

    open spec fn state(&self) -> (Seq<u8>, usize) {
        (self.spec_queue(), self.spec_count())
    }

    open spec fn inv(&self) -> bool {
        self.wf()
    }

    open spec fn accepts(settings: FilterSettings) -> bool {
        param_count(settings.window) > 0
    }

    open spec fn next(st: (Seq<u8>, usize), value: u8, settings: FilterSettings) -> ((Seq<u8>, usize), Option<u16>) {
        let w = param_count(settings.window);
        let q = slide(st.0, value, w);
        let ave = u16::from_int(seq_sum(q) / w);
        let (count, out) = decimate(st.1, ave, param_count(settings.decimation));
        ((q, count), out)
    }

    fn accepts_settings(settings: &FilterSettings) -> (r: bool) {
        settings.window != 0
    }

    fn run(&mut self, value: u8, settings: &FilterSettings) -> (r: Option<u16>) {
        let window = param_to_count(settings.window);
        let ave = self.slide_average(value, window);
        let ave = u16::from_u64(ave);
        let decimation = param_to_count(settings.decimation);
        self.decimation_filter.step(ave, decimation)
    }
}

/// One step of the moving average, for every window held and every sample:
/// the window keeps raw inputs whether or not an output is due. It becomes
/// the newest at most `w` samples of the old window followed by the new
/// sample; an output, when one is due, is the floor of the window's sum
/// over `w`; and one is due exactly when `decimation` samples have been
/// dropped since the last.
pub proof fn lemma_moving_average_step<T: Data>(st: (Seq<T>, usize), value: T, settings: FilterSettings)
    requires
        param_count(settings.window) > 0,
    ensures
        ({
            let w = param_count(settings.window);
            let d = param_count(settings.decimation);
            let (st2, out) = <MovAveFilter<T> as Filter<T, T>>::next(st, value, settings);
            let all = st.0.push(value);
            &&& st2.0.len() == (if all.len() <= w { all.len() as int } else { w })
            &&& st2.0 == all.skip(all.len() - st2.0.len())
            &&& (out is Some <==> st.1 >= d)
            &&& (out is Some ==> st2.1 == 0)
            &&& (out is None ==> st2.1 == st.1 + 1)
            &&& (out matches Some(y) ==> y.as_int() == seq_sum(st2.0) / w)
        }),
{
    let w = param_count(settings.window);
    let q = slide(st.0, value, w);
    let all = st.0.push(value);
    if st.0.len() >= w {
        assert(q =~= all.skip(all.len() - w));
    } else {
        assert(q =~= all.skip(0));
    }
    lemma_seq_sum_bound(q);
    value.lemma_range();
    assert(seq_sum(q) / w <= T::max_int()) by (nonlinear_arith)
        requires 0 <= seq_sum(q) <= q.len() * T::max_int(), q.len() <= w, w > 0, T::max_int() >= 0;
    assert(seq_sum(q) / w >= 0) by (nonlinear_arith)
        requires 0 <= seq_sum(q), w > 0;
    T::lemma_from_int(seq_sum(q) / w);
}

/// After the moving average has taken at least `w` samples, its window is
/// exactly the last `w` samples taken, whatever was held before and
/// whichever outputs were due.
pub proof fn lemma_moving_average_window<T: Data>(st: (Seq<T>, usize), xs: Seq<T>, settings: FilterSettings)
    requires
        param_count(settings.window) > 0,
        xs.len() >= param_count(settings.window),
    ensures
        feed::<T, T, MovAveFilter<T>>(st, xs, settings).0.0 == xs.skip(xs.len() - param_count(settings.window)),
    decreases xs.len(),
{
    let w = param_count(settings.window);
    let xs0 = xs.drop_last();
    let prev = feed::<T, T, MovAveFilter<T>>(st, xs0, settings);
    lemma_moving_average_step(prev.0, xs.last(), settings);
    if xs0.len() >= w {
        lemma_moving_average_window(st, xs0, settings);
        assert(xs0.skip(xs0.len() - w).push(xs.last()).skip(1) =~= xs.skip(xs.len() - w));
    } else {
        lemma_moving_average_short(st, xs0, settings);
        let all = prev.0.0.push(xs.last());
        assert(all.skip(all.len() - w) =~= xs.skip(xs.len() - w));
    }
}

/// While fewer than `w` samples have been taken, the window ends with all
/// of them.
proof fn lemma_moving_average_short<T: Data>(st: (Seq<T>, usize), xs: Seq<T>, settings: FilterSettings)
    requires
        param_count(settings.window) > 0,
        xs.len() < param_count(settings.window),
    ensures
        ({
            let q = feed::<T, T, MovAveFilter<T>>(st, xs, settings).0.0;
            &&& q.len() >= xs.len()
            &&& q.skip(q.len() - xs.len()) == xs
        }),
    decreases xs.len(),
{
    let q = feed::<T, T, MovAveFilter<T>>(st, xs, settings).0.0;
    if xs.len() == 0 {
        assert(q.skip(q.len() as int) =~= xs);
    } else {
        let xs0 = xs.drop_last();
        let prev = feed::<T, T, MovAveFilter<T>>(st, xs0, settings);
        lemma_moving_average_short(st, xs0, settings);
        lemma_moving_average_step(prev.0, xs.last(), settings);
        let all = prev.0.0.push(xs.last());
        let p0 = prev.0.0;
        assert(all.skip(all.len() - xs.len()) =~= p0.skip(p0.len() - xs0.len()).push(xs.last()));
        assert(q.skip(q.len() - xs.len()) =~= all.skip(all.len() - xs.len()));
        assert(xs0.push(xs.last()) =~= xs);
    }
}

/// The same step law for the moving average of bytes emitted as 16-bit
/// samples.
pub proof fn lemma_moving_average_wide_step(st: (Seq<u8>, usize), value: u8, settings: FilterSettings)
    requires
        param_count(settings.window) > 0,
    ensures
        ({
            let w = param_count(settings.window);
            let d = param_count(settings.decimation);
            let (st2, out) = <MovAveFilter<u8> as Filter<u8, u16>>::next(st, value, settings);
            let all = st.0.push(value);
            &&& st2.0.len() == (if all.len() <= w { all.len() as int } else { w })
            &&& st2.0 == all.skip(all.len() - st2.0.len())
            &&& (out is Some <==> st.1 >= d)
            &&& (out matches Some(y) ==> y as int == seq_sum(st2.0) / w)
        }),
{
    let w = param_count(settings.window);
    let q = slide(st.0, value, w);
    let all = st.0.push(value);
    if st.0.len() >= w {
        assert(q =~= all.skip(all.len() - w));
    } else {
        assert(q =~= all.skip(0));
    }
    lemma_seq_sum_bound(q);
    assert(seq_sum(q) / w <= 255) by (nonlinear_arith)
        requires 0 <= seq_sum(q) <= q.len() * 255, q.len() <= w, w > 0;
    assert(seq_sum(q) / w >= 0) by (nonlinear_arith)
        requires 0 <= seq_sum(q), w > 0;
    u16::lemma_from_int(seq_sum(q) / w);
}

/// Runs a filter over a sequence of samples: the filter's final state and
/// every sample it emits, in order.
pub open spec fn feed<TI: Data, TO: Data, F: Filter<TI, TO>>(
    st: F::State,
    xs: Seq<TI>,
    settings: FilterSettings,
) -> (F::State, Seq<TO>)
    decreases xs.len(),
{
    if xs.len() == 0 {
        (st, Seq::empty())
    } else {
        let prev = feed::<TI, TO, F>(st, xs.drop_last(), settings);
        let (st2, o) = F::next(prev.0, xs.last(), settings);
        (st2, match o {
            Some(y) => prev.1.push(y),
            None => prev.1,
        })
    }
}

/// One more sample fed to the filter extends what it emitted so far.
pub proof fn lemma_feed_push<TI: Data, TO: Data, F: Filter<TI, TO>>(
    st: F::State,
    xs: Seq<TI>,
    x: TI,
    settings: FilterSettings,
)
    ensures
        feed::<TI, TO, F>(st, xs.push(x), settings) == ({
            let prev = feed::<TI, TO, F>(st, xs, settings);
            let (st2, o) = F::next(prev.0, x, settings);
            (st2, match o {
                Some(y) => prev.1.push(y),
                None => prev.1,
            })
        }),
{
    assert(xs.push(x).drop_last() =~= xs);
}

/// Feeding a filter two sequences one after the other is feeding it their
/// concatenation: the final state is the same, and the outputs are those of
/// the first run followed by those of the second.
pub proof fn lemma_feed_append<TI: Data, TO: Data, F: Filter<TI, TO>>(
    st: F::State,
    xs: Seq<TI>,
    ys: Seq<TI>,
    settings: FilterSettings,
)
    ensures
        feed::<TI, TO, F>(st, xs + ys, settings) == ({
            let a = feed::<TI, TO, F>(st, xs, settings);
            let b = feed::<TI, TO, F>(a.0, ys, settings);
            (b.0, a.1 + b.1)
        }),
    decreases ys.len(),
{
    let a = feed::<TI, TO, F>(st, xs, settings);
    if ys.len() == 0 {
        assert(xs + ys =~= xs);
        assert(a.1 + Seq::<TO>::empty() =~= a.1);
    } else {
        let y = ys.last();
        let ys0 = ys.drop_last();
        lemma_feed_append::<TI, TO, F>(st, xs, ys0, settings);
        assert((xs + ys0).push(y) =~= xs + ys);
        lemma_feed_push::<TI, TO, F>(st, xs + ys0, y, settings);
        lemma_feed_push::<TI, TO, F>(a.0, ys0, y, settings);
        assert(ys0.push(y) =~= ys);
        let b0 = feed::<TI, TO, F>(a.0, ys0, settings);
        let (st2, o) = F::next(b0.0, y, settings);
        match o {
            Some(v) => {
                assert((a.1 + b0.1).push(v) =~= a.1 + b0.1.push(v));
            },
            None => {},
        }
    }
}

/// Dividing `k + 1` by `r`: the quotient grows by one exactly when the
/// remainder of `k` is the last one.
pub proof fn lemma_div_mod_step(k: int, r: int)
    requires
        k >= 0,
        r >= 1,
    ensures
        (k % r + 1 == r) ==> ((k + 1) / r == k / r + 1 && (k + 1) % r == 0),
        (k % r + 1 != r) ==> ((k + 1) / r == k / r && (k + 1) % r == k % r + 1),
{
    vstd::arithmetic::div_mod::lemma_fundamental_div_mod(k, r);
    vstd::arithmetic::div_mod::lemma_fundamental_div_mod(k + 1, r);
    let q = k / r;
    let m = k % r;
    assert(k == q * r + m) by (nonlinear_arith)
        requires k == r * (k / r) + k % r, q == k / r, m == k % r;
    assert((q + 1) * r == q * r + r) by (nonlinear_arith);
    if m + 1 == r {
        vstd::arithmetic::div_mod::lemma_fundamental_div_mod_converse(k + 1, r, q + 1, 0);
    } else {
        vstd::arithmetic::div_mod::lemma_fundamental_div_mod_converse(k + 1, r, q, m + 1);
    }
}


/// A decimator started afresh keeps exactly the inputs at positions
/// `d, 2d + 1, 3d + 2, ...` (one in every `d + 1`, `d` the decimation): fed
/// `n` samples it emits `n / (d + 1)` of them, the `i`-th being input
/// `i * (d + 1) + d`, and its counter ends at `n % (d + 1)`.
pub proof fn lemma_decimation_keeps_every_nth<T: Data>(xs: Seq<T>, settings: FilterSettings)
    ensures
        ({
            let d = param_count(settings.decimation);
            let f = feed::<T, T, DecimationFilter>(0usize, xs, settings);
            &&& f.1.len() == (xs.len() as int) / (d + 1)
            &&& forall|i: int| 0 <= i < f.1.len() ==> #[trigger] f.1[i] == xs[i * (d + 1) + d]
            &&& f.0 == (xs.len() as int) % (d + 1)
        }),
    decreases xs.len(),
{
    let d = param_count(settings.decimation);
    if xs.len() == 0 {
        vstd::arithmetic::div_mod::lemma_small_mod(0, (d + 1) as nat);
        vstd::arithmetic::div_mod::lemma_basic_div(0, d + 1);
    } else {
        let ys = xs.drop_last();
        lemma_decimation_keeps_every_nth(ys, settings);
        let p = feed::<T, T, DecimationFilter>(0usize, ys, settings);
        let k = ys.len() as int;
        lemma_div_mod_step(k, d + 1);
        assert(ys.len() + 1 == xs.len());
        if k % (d + 1) + 1 == d + 1 {
            vstd::arithmetic::div_mod::lemma_fundamental_div_mod(k, d + 1);
            let q = k / (d + 1);
            assert(k == (d + 1) * q + d);
            assert(q * (d + 1) + d == (d + 1) * q + d) by (nonlinear_arith);
            let f = feed::<T, T, DecimationFilter>(0usize, xs, settings);
            assert forall|i: int| 0 <= i < f.1.len() implies #[trigger] f.1[i] == xs[i * (d + 1) + d] by {
                if i < p.1.len() {
                    assert(f.1[i] == p.1[i]);
                    assert(i * (d + 1) + d < k) by (nonlinear_arith)
                        requires i < q, k == q * (d + 1) + d, d >= 0;
                    assert(ys[i * (d + 1) + d] == xs[i * (d + 1) + d]);
                } else {
                    assert(i == q);
                }
            }
        } else {
            let f = feed::<T, T, DecimationFilter>(0usize, xs, settings);
            assert forall|i: int| 0 <= i < f.1.len() implies #[trigger] f.1[i] == xs[i * (d + 1) + d] by {
                assert(f.1[i] == p.1[i]);
                vstd::arithmetic::div_mod::lemma_fundamental_div_mod(k, d + 1);
                assert(i * (d + 1) + d < k) by (nonlinear_arith)
                    requires i < k / (d + 1), k == (d + 1) * (k / (d + 1)) + k % (d + 1), d >= 0, k % (d + 1) >= 0;
                assert(ys[i * (d + 1) + d] == xs[i * (d + 1) + d]);
            }
        }
    }
}

} // verus!
