use vstd::prelude::*;
use std::collections::VecDeque;

verus! {

/// The integrator cascade after one input sample: stage `s` adds the
/// output of stage `s - 1` (the input `x` for the first stage) to its
/// accumulator, with two's-complement wrap-around. Covers the first `k`
/// stages.
pub open spec fn integrate(integ: Seq<i64>, x: i64, k: nat) -> Seq<i64>
    decreases k,
{
    if k == 0 {
        Seq::empty()
    } else {
        let p = integrate(integ, x, (k - 1) as nat);
        let input = if k == 1 { x } else { p.last() };
        p.push(vstd::wrapping::i64_specs::wrapping_add(integ[k - 1], input))
    }
}

/// The comb cascade for one decimated sample `y`: stage `s` outputs its
/// input minus the input it saw `M` decimated samples ago (the front of its
/// delay line), with wrap-around, and remembers the new input. Covers the
/// first `k` stages: the new delay lines and the cascade's output.
pub open spec fn comb(delays: Seq<Seq<i64>>, y: i64, k: nat) -> (Seq<Seq<i64>>, i64)
    decreases k,
{
    if k == 0 {
        (Seq::empty(), y)
    } else {
        let p = comb(delays, y, (k - 1) as nat);
        let d = delays[k - 1];
        (p.0.push(d.drop_first().push(p.1)), vstd::wrapping::i64_specs::wrapping_sub(p.1, d[0]))
    }
}

/// Cascaded integrator-comb decimator: `n` integrator stages at the input
/// rate, decimation by `r`, then `n` comb stages with differential delay `m`.
pub struct CicDecimator {
    r: u32,
    n: usize,
    integ: Vec<i64>,
    comb_delay: Vec<VecDeque<i64>>,
    sample_count: u32,
}

/// Abstract state of a [`CicDecimator`].
pub struct CicState {
    pub r: u32,
    pub n: usize,
    pub integ: Seq<i64>,
    pub delays: Seq<Seq<i64>>,
    pub sample_count: u32,
}

/// The state after one input sample, and the output sample if one is due.
pub open spec fn cic_next(st: CicState, x: i64) -> (CicState, Option<i64>) {
    let integ = integrate(st.integ, x, st.n as nat);
    let v = integ.last();
    let c = st.sample_count + 1;
    if c < st.r {
        (CicState { integ, sample_count: c as u32, ..st }, None)
    } else {
        let (delays, y) = comb(st.delays, v, st.n as nat);
        (CicState { integ, delays, sample_count: 0, ..st }, Some(y))
    }
}

/// Well-formedness of an abstract state: as many integrators as stages,
/// as many delay lines as stages or none at all (a decimator made with no
/// stages), no empty delay line, and a sample counter below `r`.
pub open spec fn cic_wf(st: CicState) -> bool {
    &&& st.r >= 1
    &&& st.n >= 1
    &&& st.integ.len() == st.n
    &&& (st.delays.len() == st.n || st.delays.len() == 0)
    &&& forall|s: int| 0 <= s < st.delays.len() ==> #[trigger] st.delays[s].len() >= 1
    &&& st.sample_count < st.r
}

/// Whether the comb cascade has a delay line for each stage, so that an
/// output can be computed.
pub open spec fn cic_combs_ok(st: CicState) -> bool {
    st.delays.len() == st.n
}

proof fn lemma_integrate_len(integ: Seq<i64>, x: i64, k: nat)
    ensures
        integrate(integ, x, k).len() == k,
    decreases k,
{
    if k > 0 {
        lemma_integrate_len(integ, x, (k - 1) as nat);
    }
}

proof fn lemma_comb_shape(delays: Seq<Seq<i64>>, y: i64, k: nat)
    requires
        k <= delays.len(),
        forall|s: int| 0 <= s < k ==> #[trigger] delays[s].len() >= 1,
    ensures
        comb(delays, y, k).0.len() == k,
        forall|s: int| 0 <= s < k ==> #[trigger] comb(delays, y, k).0[s].len() == delays[s].len(),
    decreases k,
{
    if k > 0 {
        lemma_comb_shape(delays, y, (k - 1) as nat);
    }
}

impl CicDecimator {
    pub closed spec fn state(&self) -> CicState {
        CicState {
            r: self.r,
            n: self.n,
            integ: self.integ@,
            delays: Seq::new(self.comb_delay@.len(), |s: int| self.comb_delay@[s]@),
            sample_count: self.sample_count,
        }
    }

    /// A decimator with all accumulators and delay lines at zero. `r` and
    /// `n` below 1 count as 1; `m` below 1 counts as 1. Exactly `n` delay
    /// lines are made, so with `n == 0` it takes samples only until the
    /// first output is due.
    pub fn new(r: u32, n: usize, m: usize) -> (res: Self)
        ensures
            res.state().r == if r >= 1 { r } else { 1 },
            res.state().n == if n >= 1 { n } else { 1 },
            res.state().integ == Seq::new(res.state().n as nat, |i: int| 0i64),
            res.state().delays == Seq::new(n as nat, |s: int| Seq::new(if m >= 1 { m as nat } else { 1 }, |i: int| 0i64)),
            res.state().sample_count == 0,
            cic_wf(res.state()),
            cic_combs_ok(res.state()) <==> n >= 1,
    {
        let depth = if m >= 1 { m } else { 1 };
        let stages = if n >= 1 { n } else { 1 };
        let mut comb_delay: Vec<VecDeque<i64>> = Vec::with_capacity(n);
        let mut s: usize = 0;
        while s < n
            invariant
                s <= n,
                comb_delay@.len() == s,
                forall|t: int| 0 <= t < s ==> #[trigger] comb_delay@[t]@ == Seq::new(depth as nat, |i: int| 0i64),
            decreases n - s,
        {
            let mut d: VecDeque<i64> = VecDeque::new();
            let mut i: usize = 0;
            while i < depth
                invariant
                    i <= depth,
                    d@ == Seq::new(i as nat, |k: int| 0i64),
                decreases depth - i,
            {
                d.push_back(0);
                proof {
                    assert(d@ =~= Seq::new((i + 1) as nat, |k: int| 0i64));
                }
                i = i + 1;
            }
            comb_delay.push(d);
            s = s + 1;
        }
        let mut integ: Vec<i64> = Vec::with_capacity(stages);
        let mut i: usize = 0;
        while i < stages
            invariant
                i <= stages,
                integ@ == Seq::new(i as nat, |k: int| 0i64),
            decreases stages - i,
        {
            integ.push(0);
            proof {
                assert(integ@ =~= Seq::new((i + 1) as nat, |k: int| 0i64));
            }
            i = i + 1;
        }
        let r1 = if r >= 1 { r } else { 1 };
        let res = Self { r: r1, n: stages, integ, comb_delay, sample_count: 0 };
        proof {
            assert(res.state().delays =~= Seq::new(n as nat, |s: int| Seq::new(depth as nat, |i: int| 0i64)));
        }
        res
    }

    /// Whether the comb cascade is complete (see [`cic_combs_ok`]).
    pub fn has_combs(&self) -> (r: bool)
        ensures
            r == cic_combs_ok(self.state()),
    {
        self.comb_delay.len() == self.n
    }

    /// Whether the eight samples of a pulse-density byte can be pushed: the
    /// comb cascade is complete, or no output falls due among them.
    pub fn can_push_pdm_byte(&self) -> (r: bool)
        requires
            cic_wf(self.state()),
        ensures
            r == (cic_combs_ok(self.state()) || self.state().sample_count + 8 < self.state().r),
    {
        self.comb_delay.len() == self.n || (self.sample_count < self.r && self.r - self.sample_count > 8)
    }

    /// Pushes one input sample (normally ±1); returns the decimated output
    /// every `r`-th call. An output needs the whole comb cascade.
    pub fn push(&mut self, x: i32) -> (res: Option<i64>)
        requires
            cic_wf(old(self).state()),
            old(self).state().sample_count + 1 >= old(self).state().r ==> cic_combs_ok(old(self).state()),
        ensures
            cic_wf(final(self).state()),
            final(self).state().delays.len() == old(self).state().delays.len(),
            (final(self).state(), res) == cic_next(old(self).state(), x as i64),
    {
        let ghost st = self.state();
        let mut v = x as i64;
        let mut s: usize = 0;
        while s < self.n
            invariant
                cic_wf(st),
                st.integ == old(self).integ@,
                self.n == st.n,
                self.r == st.r,
                self.sample_count == st.sample_count,
                self.comb_delay == old(self).comb_delay,
                s <= self.n,
                self.integ@.len() == st.n,
                self.integ@.take(s as int) == integrate(st.integ, x as i64, s as nat),
                self.integ@.skip(s as int) == st.integ.skip(s as int),
                s == 0 ==> v == x as i64,
                s > 0 ==> v == integrate(st.integ, x as i64, s as nat).last(),
            decreases self.n - s,
        {
            let ghost before = self.integ@;
            proof {
                lemma_integrate_len(st.integ, x as i64, s as nat);
                assert(before.skip(s as int)[0] == st.integ.skip(s as int)[0]);
                assert(before[s as int] == st.integ[s as int]);
            }
            let acc = self.integ[s].wrapping_add(v);
            self.integ.set(s, acc);
            v = acc;
            proof {
                lemma_integrate_len(st.integ, x as i64, (s + 1) as nat);
                assert(self.integ@.take(s as int) =~= before.take(s as int));
                assert(integrate(st.integ, x as i64, (s + 1) as nat)
                    == integrate(st.integ, x as i64, s as nat).push(acc));
                assert(self.integ@.take(s + 1) =~= integrate(st.integ, x as i64, (s + 1) as nat));
                assert forall|i: int| 0 <= i < st.n - (s + 1) implies
                    #[trigger] self.integ@.skip(s + 1)[i] == st.integ.skip(s + 1)[i] by {
                    assert(before.skip(s as int)[i + 1] == st.integ.skip(s as int)[i + 1]);
                }
                assert(self.integ@.skip(s + 1) =~= st.integ.skip(s + 1));
            }
            s = s + 1;
        }
        proof {
            lemma_integrate_len(st.integ, x as i64, st.n as nat);
            assert(self.integ@ =~= self.integ@.take(st.n as int));
        }
        self.sample_count = self.sample_count + 1;
        if self.sample_count < self.r {
            return None;
        }
        self.sample_count = 0;

        let mut y = v;
        let mut s: usize = 0;
        while s < self.n
            invariant
                cic_wf(st),
                cic_combs_ok(st),
                self.n == st.n,
                self.r == st.r,
                self.sample_count == 0,
                self.integ@ == integrate(st.integ, x as i64, st.n as nat),
                v == integrate(st.integ, x as i64, st.n as nat).last(),
                s <= self.n,
                self.comb_delay@.len() == st.n,
                forall|t: int| 0 <= t < s ==> #[trigger] self.comb_delay@[t]@ == comb(st.delays, v, s as nat).0[t],
                forall|t: int| s <= t < st.n ==> #[trigger] self.comb_delay@[t]@ == st.delays[t],
                y == comb(st.delays, v, s as nat).1,
            decreases self.n - s,
        {
            proof {
                lemma_comb_shape(st.delays, v, s as nat);
            }
            let d = self.comb_delay[s].pop_front().unwrap();
            let out = y.wrapping_sub(d);
            self.comb_delay[s].push_back(y);
            y = out;
            proof {
                lemma_comb_shape(st.delays, v, (s + 1) as nat);
                assert(self.comb_delay@[s as int]@ =~= st.delays[s as int].drop_first().push(comb(st.delays, v, s as nat).1));
            }
            s = s + 1;
        }
        proof {
            lemma_comb_shape(st.delays, v, st.n as nat);
            let (d2, y2) = comb(st.delays, v, st.n as nat);
            assert(self.state().delays =~= d2);
        }
        Some(y)
    }
}


proof fn lemma_integrate_prefix(integ: Seq<i64>, x: i64, k: nat, s: int)
    requires
        0 <= s < k,
    ensures
        integrate(integ, x, k)[s] == integrate(integ, x, (s + 1) as nat)[s],
    decreases k,
{
    lemma_integrate_len(integ, x, k);
    if s + 1 < k {
        lemma_integrate_len(integ, x, (k - 1) as nat);
        lemma_integrate_prefix(integ, x, (k - 1) as nat, s);
    }
}

proof fn lemma_comb_prefix(delays: Seq<Seq<i64>>, y: i64, k: nat, s: int)
    requires
        0 <= s < k,
        k <= delays.len(),
        forall|t: int| 0 <= t < delays.len() ==> #[trigger] delays[t].len() >= 1,
    ensures
        comb(delays, y, k).0[s] == comb(delays, y, (s + 1) as nat).0[s],
    decreases k,
{
    lemma_comb_shape(delays, y, (k - 1) as nat);
    if s + 1 < k {
        lemma_comb_prefix(delays, y, (k - 1) as nat, s);
    }
}

/// Each integrator stage adds to its sum the value its predecessor holds
/// after this sample (the input itself for the first stage), wrapping at 64
/// bits, so the cascade integrates the input `n` times over.
pub proof fn lemma_cic_integrators(st: CicState, x: i64)
    requires
        cic_wf(st),
    ensures
        cic_next(st, x).0.integ.len() == st.n,
        cic_next(st, x).0.integ[0] == vstd::wrapping::i64_specs::wrapping_add(st.integ[0], x),
        forall|s: int| 1 <= s < st.n ==> #[trigger] cic_next(st, x).0.integ[s]
            == vstd::wrapping::i64_specs::wrapping_add(st.integ[s], cic_next(st, x).0.integ[s - 1]),
{
    let n = st.n as nat;
    lemma_integrate_len(st.integ, x, n);
    lemma_integrate_prefix(st.integ, x, n, 0);
    lemma_integrate_len(st.integ, x, 0);
    assert(integrate(st.integ, x, 1)[0] == vstd::wrapping::i64_specs::wrapping_add(st.integ[0], x));
    assert forall|s: int| 1 <= s < st.n implies #[trigger] cic_next(st, x).0.integ[s]
        == vstd::wrapping::i64_specs::wrapping_add(st.integ[s], cic_next(st, x).0.integ[s - 1]) by {
        lemma_integrate_prefix(st.integ, x, n, s);
        lemma_integrate_prefix(st.integ, x, n, s - 1);
        lemma_integrate_len(st.integ, x, s as nat);
        lemma_integrate_prefix(st.integ, x, s as nat, s - 1);
    }
}

/// When an output is due, the comb stages run on the last integrator's
/// value: stage `s` outputs its input minus the oldest value in its delay
/// line (wrapping), and its delay line drops that value and takes the
/// input. The decimator emits the last stage's output; nothing else is
/// emitted, and the sample counter starts again.
pub proof fn lemma_cic_combs(st: CicState, x: i64)
    requires
        cic_wf(st),
        cic_combs_ok(st),
    ensures
        cic_next(st, x).1 is Some <==> st.sample_count + 1 >= st.r,
        cic_next(st, x).1 is None ==> cic_next(st, x).0.delays == st.delays
            && cic_next(st, x).0.sample_count == st.sample_count + 1,
        cic_next(st, x).1 matches Some(y) ==> exists|ys: Seq<i64>| {
            &&& ys.len() == st.n + 1
            &&& ys[0] == cic_next(st, x).0.integ[st.n - 1]
            &&& (forall|s: int| 0 <= s < st.n ==> #[trigger] ys[s + 1]
                == vstd::wrapping::i64_specs::wrapping_sub(ys[s], st.delays[s][0]))
            &&& (forall|s: int| 0 <= s < st.n ==> #[trigger] cic_next(st, x).0.delays[s]
                == st.delays[s].drop_first().push(ys[s]))
            &&& y == ys[st.n as int]
            &&& cic_next(st, x).0.sample_count == 0
        },
{
    let n = st.n as nat;
    lemma_integrate_len(st.integ, x, n);
    let v = integrate(st.integ, x, n).last();
    if st.sample_count + 1 >= st.r {
        lemma_comb_shape(st.delays, v, n);
        let ys = Seq::new(n + 1, |s: int| comb(st.delays, v, s as nat).1);
        assert forall|s: int| 0 <= s < st.n implies #[trigger] ys[s + 1]
            == vstd::wrapping::i64_specs::wrapping_sub(ys[s], st.delays[s][0]) by {
        }
        assert forall|s: int| 0 <= s < st.n implies #[trigger] cic_next(st, x).0.delays[s]
            == st.delays[s].drop_first().push(ys[s]) by {
            lemma_comb_prefix(st.delays, v, n, s);
            lemma_comb_shape(st.delays, v, s as nat);
        }
        assert(ys[0] == v);
        let y = cic_next(st, x).1.unwrap();
        assert({
            &&& ys.len() == st.n + 1
            &&& ys[0] == cic_next(st, x).0.integ[st.n - 1]
            &&& (forall|s: int| 0 <= s < st.n ==> #[trigger] ys[s + 1]
                == vstd::wrapping::i64_specs::wrapping_sub(ys[s], st.delays[s][0]))
            &&& (forall|s: int| 0 <= s < st.n ==> #[trigger] cic_next(st, x).0.delays[s]
                == st.delays[s].drop_first().push(ys[s]))
            &&& y == ys[st.n as int]
            &&& cic_next(st, x).0.sample_count == 0
        });
    }
}

/// Runs the decimator over a sequence of input samples: the final state and
/// the outputs, in order.
pub open spec fn cic_run(st: CicState, xs: Seq<i64>) -> (CicState, Seq<i64>)
    decreases xs.len(),
{
    if xs.len() == 0 {
        (st, Seq::empty())
    } else {
        let p = cic_run(st, xs.drop_last());
        let (st2, o) = cic_next(p.0, xs.last());
        (st2, match o {
            Some(y) => p.1.push(y),
            None => p.1,
        })
    }
}

/// One step keeps the state well formed and leaves `r` and `n` alone.
pub proof fn lemma_cic_next_wf(st: CicState, x: i64)
    requires
        cic_wf(st),
        st.sample_count + 1 >= st.r ==> cic_combs_ok(st),
    ensures
        cic_wf(cic_next(st, x).0),
        cic_next(st, x).0.delays.len() == st.delays.len(),
        cic_next(st, x).0.r == st.r,
        cic_next(st, x).0.n == st.n,
        cic_next(st, x).0.sample_count == if st.sample_count + 1 == st.r { 0 } else { st.sample_count + 1 },
        cic_next(st, x).1 is Some <==> st.sample_count + 1 == st.r,
{
    lemma_integrate_len(st.integ, x, st.n as nat);
    let v = integrate(st.integ, x, st.n as nat).last();
    if cic_combs_ok(st) {
        lemma_comb_shape(st.delays, v, st.n as nat);
    }
    let st2 = cic_next(st, x).0;
    assert forall|s: int| 0 <= s < st2.delays.len() implies #[trigger] st2.delays[s].len() >= 1 by {
        if st.sample_count + 1 >= st.r {
            assert(st2.delays[s].len() == st.delays[s].len());
        }
    }
}

/// The decimator emits one output for every `r` inputs: after a run, the
/// number of outputs is the number of times the sample counter wrapped
/// around, and the counter holds the inputs left over. A decimator without
/// its comb cascade is covered while no output falls due.
pub proof fn lemma_cic_output_rate(st: CicState, xs: Seq<i64>)
    requires
        cic_wf(st),
        cic_combs_ok(st) || st.sample_count + xs.len() < st.r,
    ensures
        cic_wf(cic_run(st, xs).0),
        cic_run(st, xs).0.delays.len() == st.delays.len(),
        cic_run(st, xs).0.r == st.r,
        cic_run(st, xs).0.n == st.n,
        cic_run(st, xs).1.len() == (st.sample_count + xs.len()) / (st.r as int),
        cic_run(st, xs).0.sample_count == (st.sample_count + xs.len()) % (st.r as int),
    decreases xs.len(),
{
    if xs.len() > 0 {
        lemma_cic_output_rate(st, xs.drop_last());
        let p = cic_run(st, xs.drop_last());
        if !cic_combs_ok(st) {
            vstd::arithmetic::div_mod::lemma_small_mod((st.sample_count + xs.len() - 1) as nat, st.r as nat);
        }
        lemma_cic_next_wf(p.0, xs.last());
        let k = st.sample_count + xs.len() - 1;
        crate::filter::lemma_div_mod_step(k, st.r as int);
    } else {
        vstd::arithmetic::div_mod::lemma_small_mod(st.sample_count as nat, st.r as nat);
        vstd::arithmetic::div_mod::lemma_basic_div(st.sample_count as int, st.r as int);
    }
}

/// Running the decimator over two input sequences one after the other is
/// running it over their concatenation.
pub proof fn lemma_cic_run_append(st: CicState, xs: Seq<i64>, ys: Seq<i64>)
    ensures
        cic_run(st, xs + ys) == ({
            let a = cic_run(st, xs);
            let b = cic_run(a.0, ys);
            (b.0, a.1 + b.1)
        }),
    decreases ys.len(),
{
    let a = cic_run(st, xs);
    if ys.len() == 0 {
        assert(xs + ys =~= xs);
        assert(a.1 + Seq::<i64>::empty() =~= a.1);
    } else {
        let y = ys.last();
        let ys0 = ys.drop_last();
        lemma_cic_run_append(st, xs, ys0);
        assert((xs + ys0).push(y) =~= xs + ys);
        assert((xs + ys).drop_last() =~= xs + ys0);
        assert(ys0 =~= ys.drop_last());
        let b0 = cic_run(a.0, ys0);
        let (st2, o) = cic_next(b0.0, y);
        match o {
            Some(v) => {
                assert((a.1 + b0.1).push(v) =~= a.1 + b0.1.push(v));
            },
            None => {},
        }
    }
}

/// The input samples carried by one byte of the pulse-density stream: its
/// bits from the most significant down, each 1 as +1 and each 0 as -1.
pub open spec fn pdm_samples(byte: u8) -> Seq<i64> {
    Seq::new(8, |k: int| (2 * ((byte >> ((7 - k) as u8)) & 1u8) as int - 1) as i64)
}

/// Pushes the eight samples of one pulse-density byte through the
/// decimator, appending its outputs to `out`.
pub fn push_pdm_byte(cic: &mut CicDecimator, byte: u8, out: &mut Vec<i64>)
    requires
        cic_wf(old(cic).state()),
        cic_combs_ok(old(cic).state()) || old(cic).state().sample_count + 8 < old(cic).state().r,
    ensures
        cic_wf(final(cic).state()),
        final(cic).state().delays.len() == old(cic).state().delays.len(),
        final(cic).state() == cic_run(old(cic).state(), pdm_samples(byte)).0,
        final(out)@ == old(out)@ + cic_run(old(cic).state(), pdm_samples(byte)).1,
{
    let ghost st0 = cic.state();
    let ghost base = out@;
    let ghost xs = pdm_samples(byte);
    proof {
        assert(xs.take(0) =~= Seq::<i64>::empty());
        assert(base + Seq::<i64>::empty() =~= base);
    }
    let mut k: u8 = 0;
    while k < 8
        invariant
            k <= 8,
            xs == pdm_samples(byte),
            cic_wf(cic.state()),
            cic_combs_ok(st0) || st0.sample_count + 8 < st0.r,
            cic.state().delays.len() == st0.delays.len(),
            cic.state().r == st0.r,
            cic.state().n == st0.n,
            cic_combs_ok(st0) || cic.state().sample_count == st0.sample_count + k,
            cic.state() == cic_run(st0, xs.take(k as int)).0,
            out@ == base + cic_run(st0, xs.take(k as int)).1,
        decreases 8 - k,
    {
        let bi = 7 - k;
        let b = ((byte >> bi) & 1) as i32;
        let x = 2 * b - 1;
        proof {
            assert(xs.take(k + 1).drop_last() =~= xs.take(k as int));
            assert(xs.take(k + 1).last() == x as i64);
        }
        let y = cic.push(x);
        if let Some(v) = y {
            out.push(v);
            proof {
                let p = cic_run(st0, xs.take(k as int));
                assert(base + p.1.push(v) =~= (base + p.1).push(v));
            }
        }
        k = k + 1;
    }
    proof {
        assert(xs.take(8) =~= xs);
    }
}


} // verus!
