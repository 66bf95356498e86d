use vstd::prelude::*;
use std::sync::atomic::Ordering;

use crate::params::Params;

verus! {

/// The integer settings of the spectrum reader, derived from the raw
/// parameters: the FFT length (`param0`, at least 256), the number of
/// spectra averaged (`param1`, at least 1) and the FIR length (`param4`, at
/// least 7 and odd). Each parameter is first cut to 32 bits.
#[derive(Clone, Copy, Debug)]
pub struct SpectrumSettings {
    pub fft_n: usize,
    pub avg_frames: u32,
    pub fir_taps: usize,
}

pub open spec fn at_least(v: u32, lo: u32) -> u32 {
    if v >= lo { v } else { lo }
}

impl SpectrumSettings {
    pub fn from_params(param0: isize, param1: isize, param4: isize) -> (r: Self)
        ensures
            r.fft_n == at_least(param0 as u32, 256),
            r.avg_frames == at_least(param1 as u32, 1),
            r.fir_taps == (at_least(param4 as u32, 7) as usize) | 1usize,
            r.fft_n >= 256,
            r.avg_frames >= 1,
            r.fir_taps >= 7,
    {
        let n = param0 as u32;
        let n = if n >= 256 { n } else { 256 };
        let avg = param1 as u32;
        let avg = if avg >= 1 { avg } else { 1 };
        let taps = param4 as u32;
        let taps = if taps >= 7 { taps } else { 7 };
        let t = taps as usize;
        assert(t | 1usize >= t) by (bit_vector);
        SpectrumSettings { fft_n: n as usize, avg_frames: avg, fir_taps: t | 1 }
    }
}

impl SpectrumSettings {
    /// Reads the settings from the shared state. Another thread may store
    /// new values at any time, so nothing is known of what comes back
    /// beyond the bounds every setting meets.
    pub fn load(params: &Params) -> (r: Self)
        ensures
            r.fft_n >= 256,
            r.avg_frames >= 1,
            r.fir_taps >= 7,
    {
        let p0 = params.param0.load(Ordering::Relaxed);
        let p1 = params.param1.load(Ordering::Relaxed);
        let p4 = params.param4.load(Ordering::Relaxed);
        Self::from_params(p0, p1, p4)
    }
}

/// The smallest power of two that is at least `x` (1 for 0).
pub open spec fn is_next_power_of_two(x: int, p: int) -> bool {
    &&& exists|k: nat| p == vstd::arithmetic::power2::pow2(k)
    &&& p >= x
    &&& (p == 1 || p / 2 < x)
}

/// `u32::next_power_of_two` for values up to 2^31, where it cannot overflow.
fn next_power_of_two(x: u32) -> (r: u32)
    requires
        x <= 0x8000_0000,
    ensures
        is_next_power_of_two(x as int, r as int),
{
    let mut p: u32 = 1;
    let ghost mut k: nat = 0;
    proof {
        vstd::arithmetic::power2::lemma2_to64();
    }
    while p < x
        invariant
            x <= 0x8000_0000,
            p as int == vstd::arithmetic::power2::pow2(k),
            k <= 31,
            p == 1 || p / 2 < x,
        decreases 31 - k,
    {
        proof {
            vstd::arithmetic::power2::lemma_pow2_adds(k, 1);
            vstd::arithmetic::power2::lemma2_to64();
            if k >= 31 {
                if k > 31 {
                    vstd::arithmetic::power2::lemma_pow2_strictly_increases(31, k);
                }
                assert(false);
            }
            if k + 1 < 31 {
                vstd::arithmetic::power2::lemma_pow2_strictly_increases(k + 1, 31);
            }
        }
        p = p * 2;
        proof {
            k = k + 1;
        }
    }
    p
}

/// The FFT length chosen in the viewer, rounded up to a power of two and
/// kept within 256..=32768.
pub fn snap_fft_size(v: isize) -> (r: isize)
    requires
        (v as u32) <= 0x8000_0000,
    ensures
        exists|p: int| #[trigger] is_next_power_of_two((v as u32) as int, p)
            && r == if p < 256 { 256 } else if p > 32768 { 32768 } else { p },
{
    let p = next_power_of_two(v as u32);
    let c = if p < 256 { 256 } else if p > 32768 { 32768 } else { p };
    c as isize
}

/// The stop frequency chosen in the viewer, kept at least 1000 Hz above the
/// pass frequency.
pub fn adjust_stop_freq(f_stop: isize, f_pass: isize) -> (r: isize)
    requires
        f_pass + 1000 <= isize::MAX,
    ensures
        r == if f_stop <= f_pass + 1000 { f_pass + 1000 } else { f_stop as int },
{
    if f_stop <= f_pass + 1000 { f_pass + 1000 } else { f_stop }
}

/// The FIR length chosen in the viewer, forced odd.
pub fn adjust_fir_taps(taps: isize) -> (r: isize)
    ensures
        r == taps | 1isize,
{
    taps | 1
}

} // verus!
