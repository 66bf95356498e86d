use vstd::prelude::*;
use std::collections::VecDeque;

use crate::data::Data;
use crate::filter::{feed, lemma_feed_append, lemma_feed_push, Filter, FilterSettings};
use crate::params::Params;
use crate::speed::{tick_count, SpeedMeter};

verus! {

/// The first 12-bit sample packed in three bytes: all of `b0` and the low
/// nibble of `b1` above it.
pub open spec fn spec_unpack_first(b0: u8, b1: u8) -> int {
    b0 as int + (b1 as int % 16) * 256
}

/// The second 12-bit sample packed in three bytes: the high nibble of `b1`
/// and all of `b2` above it.
pub open spec fn spec_unpack_second(b1: u8, b2: u8) -> int {
    b1 as int / 16 + b2 as int * 16
}

/// Splits three bytes into two 12-bit samples, little-endian nibble order.
pub fn unpack_3bytes_to_2x12bits(b0: u8, b1: u8, b2: u8) -> (r: (u16, u16))
    ensures
        r.0 == spec_unpack_first(b0, b1),
        r.1 == spec_unpack_second(b1, b2),
        r.0 < 4096,
        r.1 < 4096,
{
    let s0 = (b0 as u16) | (((b1 as u16) & 0x0F) << 8);
    let s1 = (((b1 as u16) >> 4) & 0x0F) | ((b2 as u16) << 4);
    assert(s0 == b0 as int + (b1 as int % 16) * 256 && s0 < 4096) by (bit_vector)
        requires s0 == (b0 as u16) | (((b1 as u16) & 0x0F) << 8);
    assert(s1 == b1 as int / 16 + b2 as int * 16 && s1 < 4096) by (bit_vector)
        requires s1 == (((b1 as u16) >> 4) & 0x0F) | ((b2 as u16) << 4);
    (s0, s1)
}


/// The packing loses nothing: two byte triples that decode to the same
/// pair of samples are the same triple.
pub proof fn lemma_unpack_injective(b0: u8, b1: u8, b2: u8, c0: u8, c1: u8, c2: u8)
    requires
        spec_unpack_first(b0, b1) == spec_unpack_first(c0, c1),
        spec_unpack_second(b1, b2) == spec_unpack_second(c1, c2),
    ensures
        b0 == c0 && b1 == c1 && b2 == c2,
{
    assert(b0 == c0 && b1 % 16 == c1 % 16) by (nonlinear_arith)
        requires
            b0 + (b1 % 16) * 256 == c0 + (c1 % 16) * 256,
            b0 < 256, c0 < 256, 0 <= b1 % 16 < 16, 0 <= c1 % 16 < 16;
    assert(b2 == c2 && b1 / 16 == c1 / 16) by (nonlinear_arith)
        requires
            b1 / 16 + b2 * 16 == c1 / 16 + c2 * 16,
            0 <= b1 / 16 < 16, 0 <= c1 / 16 < 16, b2 < 256, c2 < 256;
    assert(b1 == c1) by (nonlinear_arith)
        requires b1 % 16 == c1 % 16, b1 / 16 == c1 / 16;
}

/// Size of the buffer a reader fills from the serial port.
pub const READ_BUF_SIZE: usize = 32768;

/// Decoded samples are handed to the viewer once this many are buffered.
pub const FLUSH_SAMPLES: usize = 8192;

/// Decoded samples are handed to the viewer at least this often, in
/// milliseconds.
pub const FLUSH_INTERVAL_MS: u128 = 8;

/// Whether the reader hands its buffered samples to the viewer now: when
/// enough are buffered or enough time has passed since the last hand-over.
pub fn flush_due(buffered: usize, since_flush_ms: u128) -> (r: bool)
    ensures
        r == (buffered >= FLUSH_SAMPLES || since_flush_ms >= FLUSH_INTERVAL_MS),
{
    buffered >= FLUSH_SAMPLES || since_flush_ms >= FLUSH_INTERVAL_MS
}

/// Number of sample pairs whose smoothness decides the framing phase.
pub const PHASE_PAIRS: usize = 512;

/// Bytes needed before the framing phase can be estimated.
pub const PHASE_MIN_BYTES: usize = 1538;

pub open spec fn abs_diff(a: int, b: int) -> int {
    if a >= b { a - b } else { b - a }
}

/// First sample of the `t`-th three-byte group when framing starts at `phase`.
pub open spec fn framed_first(buf: Seq<u8>, phase: int, t: int) -> int {
    spec_unpack_first(buf[phase + 3 * t], buf[phase + 3 * t + 1])
}

/// Second sample of the `t`-th three-byte group when framing starts at `phase`.
pub open spec fn framed_second(buf: Seq<u8>, phase: int, t: int) -> int {
    spec_unpack_second(buf[phase + 3 * t + 1], buf[phase + 3 * t + 2])
}

/// Total variation of the first `k` groups framed at `phase`: the sum of
/// the absolute steps between consecutive decoded samples.
pub open spec fn phase_score(buf: Seq<u8>, phase: int, k: nat) -> int
    decreases k,
{
    if k == 0 {
        0
    } else {
        let t = k - 1;
        phase_score(buf, phase, (k - 1) as nat)
            + abs_diff(framed_second(buf, phase, t), framed_first(buf, phase, t))
            + if k > 1 { abs_diff(framed_first(buf, phase, t), framed_second(buf, phase, t - 1)) } else { 0 }
    }
}

/// The framing phase whose decoded signal is smoothest; ties go to the
/// smaller phase. `None` until enough bytes are buffered.
pub open spec fn spec_estimate_phase(buf: Seq<u8>) -> Option<usize> {
    if buf.len() < PHASE_MIN_BYTES {
        None
    } else {
        let s0 = phase_score(buf, 0, PHASE_PAIRS as nat);
        let s1 = phase_score(buf, 1, PHASE_PAIRS as nat);
        let s2 = phase_score(buf, 2, PHASE_PAIRS as nat);
        Some(
            if s1 < s0 {
                if s2 < s1 { 2usize } else { 1usize }
            } else if s2 < s0 {
                2usize
            } else {
                0usize
            },
        )
    }
}

fn abs_diff_u16(a: u16, b: u16) -> (r: u64)
    ensures
        r == abs_diff(a as int, b as int),
{
    if a >= b { (a - b) as u64 } else { (b - a) as u64 }
}

/// Smoothness score of the framing that starts at `phase`.
fn score_phase(buf: &VecDeque<u8>, phase: usize) -> (r: u64)
    requires
        phase < 3,
        buf@.len() >= PHASE_MIN_BYTES,
    ensures
        r == phase_score(buf@, phase as int, PHASE_PAIRS as nat),
{
    let mut i: usize = phase;
    let mut prev: Option<u16> = None;
    let mut score: u64 = 0;
    let mut t: usize = 0;
    while t < PHASE_PAIRS
        invariant
            phase < 3,
            buf@.len() >= PHASE_MIN_BYTES,
            t <= PHASE_PAIRS,
            i == phase + 3 * t,
            score == phase_score(buf@, phase as int, t as nat),
            score <= 8192 * t,
            t == 0 ==> prev is None,
            t > 0 ==> prev == Some(framed_second(buf@, phase as int, t - 1) as u16),
        decreases PHASE_PAIRS - t,
    {
        let b0 = buf[i];
        let b1 = buf[i + 1];
        let b2 = buf[i + 2];
        let (s0, s1) = unpack_3bytes_to_2x12bits(b0, b1, b2);
        if let Some(p) = prev {
            score = score + abs_diff_u16(s0, p);
        }
        score = score + abs_diff_u16(s1, s0);
        prev = Some(s1);
        i = i + 3;
        t = t + 1;
    }
    score
}

/// Estimates the phase (0, 1 or 2) of the three-byte framing from the
/// smoothness of the decoded signal. Works well for non-white signals;
/// for pure noise the choice may be arbitrary.
pub fn estimate_phase(buf: &VecDeque<u8>) -> (r: Option<usize>)
    ensures
        r == spec_estimate_phase(buf@),
        r matches Some(p) ==> p < 3,
{
    if buf.len() < PHASE_MIN_BYTES {
        return None;
    }
    let mut best_phase: usize = 0;
    let mut best_score: u64 = u64::MAX;
    let mut phase: usize = 0;
    while phase < 3
        invariant
            buf@.len() >= PHASE_MIN_BYTES,
            phase <= 3,
            best_phase < 3,
            phase == 0 ==> best_score == u64::MAX && best_phase == 0,
            phase >= 1 ==> best_score == phase_score(buf@, best_phase as int, PHASE_PAIRS as nat),
            phase == 1 ==> best_phase == 0,
            phase == 2 ==> best_phase == (if phase_score(buf@, 1, PHASE_PAIRS as nat) < phase_score(buf@, 0, PHASE_PAIRS as nat) { 1usize } else { 0usize }),
            phase == 3 ==> Some(best_phase) == spec_estimate_phase(buf@),
        decreases 3 - phase,
    {
        let score = score_phase(buf, phase);
        if score < best_score {
            best_score = score;
            best_phase = phase;
        }
        phase = phase + 1;
    }
    Some(best_phase)
}


/// Feeds one sample through `filter`, appending its output to `write_buf`.
fn feed_one<TI: Data, TO: Data, F: Filter<TI, TO>>(
    filter: &mut F,
    value: TI,
    write_buf: &mut Vec<TO>,
    settings: &FilterSettings,
    Ghost(st0): Ghost<F::State>,
    Ghost(xs): Ghost<Seq<TI>>,
    Ghost(base): Ghost<Seq<TO>>,
)
    requires
        old(filter).inv(),
        F::accepts(*settings),
        (old(filter).state(), old(write_buf)@) == ({
            let f = feed::<TI, TO, F>(st0, xs, *settings);
            (f.0, base + f.1)
        }),
    ensures
        final(filter).inv(),
        (final(filter).state(), final(write_buf)@) == ({
            let f = feed::<TI, TO, F>(st0, xs.push(value), *settings);
            (f.0, base + f.1)
        }),
{
    proof {
        lemma_feed_push::<TI, TO, F>(st0, xs, value, *settings);
    }
    let out = filter.run(value, settings);
    if let Some(y) = out {
        write_buf.push(y);
        proof {
            let f = feed::<TI, TO, F>(st0, xs, *settings);
            assert(base + f.1.push(y) =~= (base + f.1).push(y));
        }
    }
}

/// The bits of a byte stream, least significant bit of each byte first,
/// each as a sample of value 0 or 1.
pub open spec fn lsb_bits(bytes: Seq<u8>) -> Seq<u8> {
    Seq::new(8 * bytes.len(), |k: int| (bytes[k / 8] >> ((k % 8) as u8)) & 1u8)
}

/// The bits of two byte streams in a row are the bits of the first followed
/// by those of the second.
pub proof fn lemma_lsb_bits_append(a: Seq<u8>, b: Seq<u8>)
    ensures
        lsb_bits(a + b) == lsb_bits(a) + lsb_bits(b),
{
    assert forall|k: int| 0 <= k < 8 * (a.len() + b.len()) implies #[trigger] lsb_bits(a + b)[k] == (lsb_bits(a) + lsb_bits(b))[k] by {
        if k >= 8 * a.len() {
            let k2 = k - 8 * a.len();
            assert(k / 8 == k2 / 8 + a.len());
            assert(k % 8 == k2 % 8);
        }
    }
    assert(lsb_bits(a + b) =~= lsb_bits(a) + lsb_bits(b));
}

/// Decoding single bits does not depend on how the byte stream is cut into
/// chunks: reading `a` and then `b` leaves the filter in the state, and
/// produces the samples, that reading `a + b` at once does.
pub proof fn lemma_lsb_chunking<TO: Data, F: Filter<u8, TO>>(
    st: F::State,
    a: Seq<u8>,
    b: Seq<u8>,
    settings: FilterSettings,
)
    ensures
        feed::<u8, TO, F>(st, lsb_bits(a + b), settings) == ({
            let first = feed::<u8, TO, F>(st, lsb_bits(a), settings);
            let second = feed::<u8, TO, F>(first.0, lsb_bits(b), settings);
            (second.0, first.1 + second.1)
        }),
{
    lemma_lsb_bits_append(a, b);
    lemma_feed_append::<u8, TO, F>(st, lsb_bits(a), lsb_bits(b), settings);
}

/// The samples of the first `groups` three-byte groups of `q`.
pub open spec fn unpack_groups(q: Seq<u8>, groups: nat) -> Seq<u16> {
    Seq::new(
        2 * groups,
        |k: int|
            if k % 2 == 0 {
                framed_first(q, 0, k / 2) as u16
            } else {
                framed_second(q, 0, k / 2) as u16
            },
    )
}

/// Turns chunks of received bytes into samples, pushing them through a
/// filter.
pub trait Decoder<F, TO: Data>: Sized {
    /// The decoder's internal consistency, which every decoder keeps.
    spec fn wf(&self) -> bool;

    /// Whether the decoder can take `num_bytes` more bytes under `settings`:
    /// the filter accepts the settings if it is to run on them, and the byte
    /// counter cannot overflow if it is to count them.
    spec fn takes(&self, num_bytes: usize, settings: FilterSettings) -> bool;

    /// Tests [`Self::takes`].
    fn can_read(&self, num_bytes: usize, settings: &FilterSettings) -> (r: bool)
        ensures
            r == self.takes(num_bytes, *settings),
    ;

    /// Decodes `read_buf`, appending the filter's output to `write_buf`, and
    /// reports the byte rate through `params.speed`.
    fn reader(
        &mut self,
        read_buf: &[u8],
        write_buf: &mut Vec<TO>,
        params: &Params,
        settings: &FilterSettings,
    )
        requires
            old(self).wf(),
            old(self).takes(read_buf@.len() as usize, *settings),
        ensures
            final(self).wf(),
    ;
}

/// Decodes a stream in which every bit is one sample, least significant bit
/// of each byte first.
pub struct LsbBitsDecoder<F> {
    filter: F,
    speed_meter: SpeedMeter,
}

impl<F> LsbBitsDecoder<F> {
    pub closed spec fn spec_filter(&self) -> F {
        self.filter
    }

    pub closed spec fn spec_meter(&self) -> SpeedMeter {
        self.speed_meter
    }

    /// A decoder whose speed meter counts eight samples per byte.
    pub fn new(filter: F) -> (r: Self)
        ensures
            r.spec_filter() == filter,
            r.spec_meter().spec_read_count() == 0,
            r.spec_meter().spec_num() == 8,
            r.spec_meter().spec_den() == 1,
    {
        let speed_meter = SpeedMeter::new(8, 1);
        Self { filter, speed_meter }
    }

    /// Tests the byte-count part of [`Decoder::takes`].
    pub fn can_accept(&self, num_bytes: usize) -> (r: bool)
        ensures
            r == self.spec_meter().can_count(num_bytes),
    {
        self.speed_meter.fits(num_bytes)
    }
}

impl<F: Filter<u8, TO>, TO: Data> Decoder<F, TO> for LsbBitsDecoder<F> {
    open spec fn wf(&self) -> bool {
        self.spec_filter().inv()
    }

    open spec fn takes(&self, num_bytes: usize, settings: FilterSettings) -> bool {
        &&& num_bytes > 0 ==> F::accepts(settings)
        &&& self.spec_meter().can_count(num_bytes)
    }

    fn can_read(&self, num_bytes: usize, settings: &FilterSettings) -> (r: bool) {
        (num_bytes == 0 || F::accepts_settings(settings)) && self.can_accept(num_bytes)
    }

    fn reader(
        &mut self,
        read_buf: &[u8],
        write_buf: &mut Vec<TO>,
        params: &Params,
        settings: &FilterSettings,
    )
        ensures
            final(self).spec_filter().inv(),
            (final(self).spec_filter().state(), final(write_buf)@) == ({
                let f = feed::<u8, TO, F>(old(self).spec_filter().state(), lsb_bits(read_buf@), *settings);
                (f.0, old(write_buf)@ + f.1)
            }),
            final(self).spec_meter().spec_num() == old(self).spec_meter().spec_num(),
            final(self).spec_meter().spec_den() == old(self).spec_meter().spec_den(),
            exists|elapsed_secs: u64|
                final(self).spec_meter().spec_read_count()
                == #[trigger] tick_count(old(self).spec_meter().spec_read_count(), read_buf@.len() as usize, elapsed_secs),
    {
        self.speed_meter.run(read_buf.len(), params);
        let ghost st0 = self.filter.state();
        let ghost base = write_buf@;
        let ghost bits = lsb_bits(read_buf@);
        let ghost meter = self.speed_meter;
        proof {
            assert(bits.take(0) =~= Seq::<u8>::empty());
            assert(base + Seq::<TO>::empty() =~= base);
        }
        let mut j: usize = 0;
        while j < read_buf.len()
            invariant
                j <= read_buf@.len(),
                bits == lsb_bits(read_buf@),
                self.speed_meter == meter,
                self.filter.inv(),
                read_buf@.len() > 0 ==> F::accepts(*settings),
                (self.filter.state(), write_buf@) == ({
                    let f = feed::<u8, TO, F>(st0, bits.take(8 * j as int), *settings);
                    (f.0, base + f.1)
                }),
            decreases read_buf@.len() - j,
        {
            let b = read_buf[j];
            let mut i: u8 = 0;
            while i < 8
                invariant
                    j < read_buf@.len(),
                    b == read_buf@[j as int],
                    i <= 8,
                    bits == lsb_bits(read_buf@),
                    self.speed_meter == meter,
                    self.filter.inv(),
                    F::accepts(*settings),
                    (self.filter.state(), write_buf@) == ({
                        let f = feed::<u8, TO, F>(st0, bits.take(8 * j + i as int), *settings);
                        (f.0, base + f.1)
                    }),
                decreases 8 - i,
            {
                let bit = (b >> i) & 1;
                proof {
                    let k = 8 * j + i as int;
                    assert(bits.take(k + 1) =~= bits.take(k).push(bit));
                }
                feed_one(&mut self.filter, bit, write_buf, settings, Ghost(st0),
                    Ghost(bits.take(8 * j + i as int)), Ghost(base));
                i = i + 1;
            }
            j = j + 1;
        }
        proof {
            assert(bits.take(8 * read_buf@.len() as int) =~= bits);
        }
    }
}


/// Decodes a stream in which every three bytes carry two 12-bit samples.
/// The framing phase is not known in advance: the first bytes are kept
/// until it can be estimated, and the bytes before the first whole group
/// are then dropped.
pub struct Pack2In3BitsDecoder<F> {
    filter: F,
    speed_meter: SpeedMeter,
    phase: Option<usize>,
    keep_queue: VecDeque<u8>,
}

/// What a [`Pack2In3BitsDecoder`] does with its buffered bytes `q` once the
/// phase is settled: the phase it then holds, and the bytes that start at
/// the first whole group. `None` while the phase cannot yet be estimated.
pub open spec fn settle_phase(phase: Option<usize>, q: Seq<u8>) -> Option<(usize, Seq<u8>)> {
    match phase {
        Some(p) => Some((p, q)),
        None => match spec_estimate_phase(q) {
            Some(p) => Some((p, q.skip(p as int))),
            None => None,
        },
    }
}

/// What a [`Pack2In3BitsDecoder`] makes of newly received `bytes`, given
/// its phase and buffered bytes: the new phase, the bytes it keeps (an
/// incomplete group, or everything while the phase is unknown), and the
/// decoded samples in order.
pub open spec fn pack_step(phase: Option<usize>, q: Seq<u8>, bytes: Seq<u8>) -> (Option<usize>, Seq<u8>, Seq<u16>) {
    let all = q + bytes;
    match settle_phase(phase, all) {
        None => (None, all, Seq::empty()),
        Some((p, q2)) => {
            let groups = q2.len() / 3;
            (Some(p), q2.skip(3 * groups as int), unpack_groups(q2, groups as nat))
        },
    }
}

proof fn lemma_phase_score_prefix(x: Seq<u8>, y: Seq<u8>, phase: int, k: nat)
    requires
        0 <= phase,
        x.len() >= phase + 3 * k,
    ensures
        phase_score(x + y, phase, k) == phase_score(x, phase, k),
    decreases k,
{
    if k > 0 {
        lemma_phase_score_prefix(x, y, phase, (k - 1) as nat);
        let t = k - 1;
        assert((x + y)[phase + 3 * t] == x[phase + 3 * t]);
        assert((x + y)[phase + 3 * t + 1] == x[phase + 3 * t + 1]);
        assert((x + y)[phase + 3 * t + 2] == x[phase + 3 * t + 2]);
        if k > 1 {
            assert((x + y)[phase + 3 * (t - 1) + 1] == x[phase + 3 * (t - 1) + 1]);
            assert((x + y)[phase + 3 * (t - 1) + 2] == x[phase + 3 * (t - 1) + 2]);
        }
    }
}

/// The phase estimate looks at the first [`PHASE_MIN_BYTES`] bytes only.
proof fn lemma_estimate_prefix(x: Seq<u8>, y: Seq<u8>)
    requires
        x.len() >= PHASE_MIN_BYTES,
    ensures
        spec_estimate_phase(x + y) == spec_estimate_phase(x),
{
    lemma_phase_score_prefix(x, y, 0, PHASE_PAIRS as nat);
    lemma_phase_score_prefix(x, y, 1, PHASE_PAIRS as nat);
    lemma_phase_score_prefix(x, y, 2, PHASE_PAIRS as nat);
}

/// Decoding the groups of `x + b` at once is decoding the whole groups of
/// `x`, then the groups of what was left of `x` followed by `b`.
proof fn lemma_groups_append(x: Seq<u8>, b: Seq<u8>)
    ensures
        ({
            let g1 = x.len() / 3;
            let y = x.skip(3 * g1 as int) + b;
            let g2 = y.len() / 3;
            let gc = (x + b).len() / 3;
            &&& gc == g1 + g2
            &&& unpack_groups(x + b, gc as nat) == unpack_groups(x, g1 as nat) + unpack_groups(y, g2 as nat)
            &&& (x + b).skip(3 * gc as int) == y.skip(3 * g2 as int)
        }),
{
    let g1 = x.len() / 3;
    let r = x.skip(3 * g1 as int);
    let y = r + b;
    let g2 = y.len() / 3;
    let xb = x + b;
    let gc = xb.len() / 3;
    assert(xb.len() == 3 * g1 + y.len());
    assert(gc == g1 + g2);
    assert forall|i: int| 3 * g1 <= i < xb.len() implies #[trigger] xb[i] == y[i - 3 * g1] by {
        if i < x.len() {
            assert(r[i - 3 * g1] == x[i]);
        }
    }
    let u = unpack_groups(xb, gc as nat);
    let u1 = unpack_groups(x, g1 as nat);
    let u2 = unpack_groups(y, g2 as nat);
    assert forall|k: int| 0 <= k < u.len() implies #[trigger] u[k] == (u1 + u2)[k] by {
        let t = k / 2;
        if k < 2 * g1 {
            assert(3 * t + 1 < x.len());
            assert(xb[3 * t] == x[3 * t]);
            assert(xb[3 * t + 1] == x[3 * t + 1]);
            if k % 2 == 1 {
                assert(3 * t + 2 < x.len());
                assert(xb[3 * t + 2] == x[3 * t + 2]);
            }
        } else {
            let k2 = k - 2 * g1;
            assert(k2 / 2 == t - g1);
            assert(k2 % 2 == k % 2);
            assert(xb[3 * t] == y[3 * (t - g1)]);
            assert(xb[3 * t + 1] == y[3 * (t - g1) + 1]);
            assert(xb[3 * t + 2] == y[3 * (t - g1) + 2]);
        }
    }
    assert(u =~= u1 + u2);
    assert forall|i: int| 0 <= i < xb.len() - 3 * gc implies #[trigger] xb.skip(3 * gc as int)[i] == y.skip(3 * g2 as int)[i] by {
        assert(xb[3 * gc + i] == y[3 * gc + i - 3 * g1]);
    }
    assert(xb.skip(3 * gc as int) =~= y.skip(3 * g2 as int));
}

/// Decoding packed samples does not depend on how the byte stream is cut
/// into chunks: receiving `a` and then `b` ends in the phase and buffer,
/// and yields the samples, that receiving `a + b` at once does.
pub proof fn lemma_pack_chunking(phase: Option<usize>, q: Seq<u8>, a: Seq<u8>, b: Seq<u8>)
    ensures
        ({
            let first = pack_step(phase, q, a);
            let second = pack_step(first.0, first.1, b);
            let whole = pack_step(phase, q, a + b);
            &&& second.0 == whole.0
            &&& second.1 == whole.1
            &&& first.2 + second.2 == whole.2
        }),
{
    let x = q + a;
    assert(q + (a + b) =~= x + b);
    match phase {
        Some(p) => {
            lemma_groups_append(x, b);
        },
        None => {
            match spec_estimate_phase(x) {
                None => {
                    assert(Seq::<u16>::empty() + pack_step(None, x, b).2 =~= pack_step(None, x, b).2);
                },
                Some(p) => {
                    lemma_estimate_prefix(x, b);
                    let x2 = x.skip(p as int);
                    assert((x + b).skip(p as int) =~= x2 + b);
                    lemma_groups_append(x2, b);
                },
            }
        },
    }
}

/// The framing phase is settled once: while fewer than [`PHASE_MIN_BYTES`]
/// bytes are buffered everything is kept and nothing decoded; once that
/// many are, the phase is the estimated one, the bytes before the first
/// whole group are dropped and the rest decoded, leaving fewer than three
/// bytes; a settled phase never changes.
pub proof fn lemma_phase_settles_once(phase: Option<usize>, q: Seq<u8>, bytes: Seq<u8>)
    ensures
        phase matches Some(p) ==> pack_step(phase, q, bytes).0 == Some(p),
        phase is None && (q + bytes).len() < PHASE_MIN_BYTES ==> pack_step(phase, q, bytes) == (
            None::<usize>, q + bytes, Seq::<u16>::empty()),
        phase is None && (q + bytes).len() >= PHASE_MIN_BYTES ==> ({
            let all = q + bytes;
            let p = spec_estimate_phase(all).unwrap();
            let rest = all.skip(p as int);
            &&& spec_estimate_phase(all) is Some
            &&& p < 3
            &&& pack_step(phase, q, bytes) == (Some(p), rest.skip(3 * (rest.len() / 3) as int),
                    unpack_groups(rest, rest.len() / 3))
        }),
        pack_step(phase, q, bytes).0 is Some ==> pack_step(phase, q, bytes).1.len() < 3,
{
}

impl<F> Pack2In3BitsDecoder<F> {
    pub closed spec fn spec_filter(&self) -> F {
        self.filter
    }

    pub closed spec fn spec_meter(&self) -> SpeedMeter {
        self.speed_meter
    }

    pub closed spec fn spec_phase(&self) -> Option<usize> {
        self.phase
    }

    pub closed spec fn spec_queue(&self) -> Seq<u8> {
        self.keep_queue@
    }

    /// A decoder with no phase yet and nothing buffered, whose speed meter
    /// counts two samples per three bytes.
    pub fn new(filter: F) -> (r: Self)
        ensures
            r.spec_filter() == filter,
            r.spec_phase() is None,
            r.spec_queue() == Seq::<u8>::empty(),
            r.spec_meter().spec_read_count() == 0,
            r.spec_meter().spec_num() == 2,
            r.spec_meter().spec_den() == 3,
    {
        let speed_meter = SpeedMeter::new(2, 3);
        let keep_queue = VecDeque::with_capacity(32_768);
        Self { filter, speed_meter, phase: None, keep_queue }
    }

    /// Tests the byte-count part of [`Decoder::takes`].
    pub fn can_accept(&self, num_bytes: usize) -> (r: bool)
        ensures
            r == self.spec_meter().can_count(num_bytes),
    {
        self.speed_meter.fits(num_bytes)
    }

    /// Whether the framing phase is known once `num_bytes` more bytes are
    /// queued: from then on the bytes are counted.
    pub open spec fn settles(&self, num_bytes: usize) -> bool {
        self.spec_phase() is Some || self.spec_queue().len() + num_bytes >= PHASE_MIN_BYTES
    }

    /// Whether `num_bytes` more bytes complete at least one group, so that
    /// the filter runs.
    pub open spec fn decodes(&self, num_bytes: usize) -> bool {
        if self.spec_phase() is Some {
            self.spec_queue().len() + num_bytes >= 3
        } else {
            self.spec_queue().len() + num_bytes >= PHASE_MIN_BYTES
        }
    }
}

impl<F: Filter<u16, TO>, TO: Data> Decoder<F, TO> for Pack2In3BitsDecoder<F> {
    open spec fn wf(&self) -> bool {
        self.spec_filter().inv()
    }

    open spec fn takes(&self, num_bytes: usize, settings: FilterSettings) -> bool {
        &&& self.decodes(num_bytes) ==> F::accepts(settings)
        &&& self.settles(num_bytes) ==> self.spec_meter().can_count(num_bytes)
    }

    fn can_read(&self, num_bytes: usize, settings: &FilterSettings) -> (r: bool) {
        let have = self.keep_queue.len();
        let settled = self.phase.is_some();
        let need = if settled { 3 } else { PHASE_MIN_BYTES };
        let decodes = have >= need || num_bytes >= need - have;
        let settles = settled || have >= PHASE_MIN_BYTES || num_bytes >= PHASE_MIN_BYTES - have;
        (!decodes || F::accepts_settings(settings)) && (!settles || self.can_accept(num_bytes))
    }

    #[verifier::rlimit(40)]
    fn reader(
        &mut self,
        read_buf: &[u8],
        write_buf: &mut Vec<TO>,
        params: &Params,
        settings: &FilterSettings,
    )
        ensures
            final(self).spec_filter().inv(),
            final(self).spec_meter().spec_num() == old(self).spec_meter().spec_num(),
            final(self).spec_meter().spec_den() == old(self).spec_meter().spec_den(),
            ({
                let (ph, rest, samples) = pack_step(old(self).spec_phase(), old(self).spec_queue(), read_buf@);
                let f = feed::<u16, TO, F>(old(self).spec_filter().state(), samples, *settings);
                &&& final(self).spec_phase() == ph
                &&& final(self).spec_queue() == rest
                &&& final(self).spec_filter().state() == f.0
                &&& final(write_buf)@ == old(write_buf)@ + f.1
            }),
            settle_phase(old(self).spec_phase(), old(self).spec_queue() + read_buf@) is None ==> {
                &&& final(self).spec_filter() == old(self).spec_filter()
                &&& final(self).spec_meter() == old(self).spec_meter()
            },
            settle_phase(old(self).spec_phase(), old(self).spec_queue() + read_buf@) is Some ==> exists|elapsed_secs: u64|
                final(self).spec_meter().spec_read_count()
                == #[trigger] tick_count(old(self).spec_meter().spec_read_count(), read_buf@.len() as usize, elapsed_secs),
    {
        let ghost q = self.keep_queue@ + read_buf@;
        let mut j: usize = 0;
        while j < read_buf.len()
            invariant
                j <= read_buf@.len(),
                self.keep_queue@ == old(self).keep_queue@ + read_buf@.take(j as int),
                self.filter == old(self).filter,
                self.speed_meter == old(self).speed_meter,
                self.phase == old(self).phase,
                q == old(self).keep_queue@ + read_buf@,
            decreases read_buf@.len() - j,
        {
            self.keep_queue.push_back(read_buf[j]);
            proof {
                assert(read_buf@.take(j + 1) =~= read_buf@.take(j as int).push(read_buf@[j as int]));
                assert(self.keep_queue@ =~= old(self).keep_queue@ + read_buf@.take(j + 1));
            }
            j = j + 1;
        }
        proof {
            assert(read_buf@.take(read_buf@.len() as int) =~= read_buf@);
        }
        if self.phase.is_none() {
            match estimate_phase(&self.keep_queue) {
                Some(p) => {
                    self.phase = Some(p);
                    let mut k: usize = 0;
                    while k < p
                        invariant
                            p < 3,
                            k <= p,
                            q.len() >= PHASE_MIN_BYTES,
                            self.keep_queue@ == q.skip(k as int),
                            self.filter == old(self).filter,
                            self.speed_meter == old(self).speed_meter,
                            self.phase == Some(p),
                        decreases p - k,
                    {
                        let _ = self.keep_queue.pop_front();
                        proof {
                            assert(self.keep_queue@ =~= q.skip(k + 1));
                        }
                        k = k + 1;
                    }
                },
                None => {
                    proof {
                        assert(write_buf@ =~= write_buf@ + Seq::<TO>::empty());
                    }
                    return;
                },
            }
        }
        self.speed_meter.run(read_buf.len(), params);

        let ghost q2 = self.keep_queue@;
        assert(self.keep_queue.len() == q2.len());
        let ghost st0 = self.filter.state();
        let ghost base = write_buf@;
        let ghost meter = self.speed_meter;
        let ghost ph = self.phase;
        proof {
            assert(unpack_groups(q2, 0) =~= Seq::<u16>::empty());
            assert(base + Seq::<TO>::empty() =~= base);
            assert(q2.skip(0) =~= q2);
        }
        let mut t: usize = 0;
        while self.keep_queue.len() >= 3
            invariant
                3 * t <= q2.len(),
                q2.len() <= usize::MAX,
                self.keep_queue@ == q2.skip(3 * t as int),
                self.speed_meter == meter,
                self.phase == ph,
                self.filter.inv(),
                q2.len() >= 3 ==> F::accepts(*settings),
                (self.filter.state(), write_buf@) == ({
                    let f = feed::<u16, TO, F>(st0, unpack_groups(q2, t as nat), *settings);
                    (f.0, base + f.1)
                }),
            decreases self.keep_queue@.len(),
        {
            let b0 = self.keep_queue.pop_front().unwrap();
            let b1 = self.keep_queue.pop_front().unwrap();
            let b2 = self.keep_queue.pop_front().unwrap();
            let (s0, s1) = unpack_3bytes_to_2x12bits(b0, b1, b2);
            proof {
                assert(b0 == q2[3 * t as int]);
                assert(b1 == q2[3 * t + 1]);
                assert(b2 == q2[3 * t + 2]);
                assert(self.keep_queue@ =~= q2.skip(3 * (t + 1)));
                assert(unpack_groups(q2, (t + 1) as nat) =~= unpack_groups(q2, t as nat).push(s0).push(s1));
            }
            feed_one(&mut self.filter, s0, write_buf, settings, Ghost(st0),
                Ghost(unpack_groups(q2, t as nat)), Ghost(base));
            feed_one(&mut self.filter, s1, write_buf, settings, Ghost(st0),
                Ghost(unpack_groups(q2, t as nat).push(s0)), Ghost(base));
            t = t + 1;
        }
    }
}

} // verus!
