use wave_viewer::dsp::cic::{push_pdm_byte, CicDecimator};
use wave_viewer::dsp::spectrum::{adjust_fir_taps, adjust_stop_freq, snap_fft_size, SpectrumSettings};
use wave_viewer::params::ParamsBuilder;

#[test]
fn cic_emits_every_r_inputs() {
    let mut cic = CicDecimator::new(5, 3, 1);
    let mut outs = Vec::new();
    for i in 0..50 {
        let y = cic.push(1);
        assert_eq!(y.is_some(), i % 5 == 4);
        if let Some(v) = y {
            outs.push(v);
        }
    }
    assert_eq!(outs.len(), 10);
    assert_eq!(*outs.last().unwrap(), 125);
}

#[test]
fn cic_first_outputs() {
    let mut cic = CicDecimator::new(2, 1, 1);
    let outs: Vec<i64> = [1, 1, 1, -1, -1, -1].iter().filter_map(|&x| cic.push(x)).collect();
    assert_eq!(outs, vec![2, 0, -2]);
}

#[test]
fn cic_parameters_below_one_count_as_one() {
    let mut cic = CicDecimator::new(0, 1, 0);
    assert_eq!(cic.push(1), Some(1));
    assert_eq!(cic.push(1), Some(1));
    assert_eq!(cic.push(-1), Some(-1));
}

#[test]
fn pdm_byte_msb_first() {
    let mut cic = CicDecimator::new(1, 1, 1);
    let mut out = Vec::new();
    push_pdm_byte(&mut cic, 0b1000_0001, &mut out);
    assert_eq!(out, vec![1, -1, -1, -1, -1, -1, -1, 1]);
    let mut cic5 = CicDecimator::new(5, 3, 1);
    let mut out5 = Vec::new();
    for _ in 0..20 {
        push_pdm_byte(&mut cic5, 0xFF, &mut out5);
    }
    assert_eq!(out5.len(), 32);
    assert_eq!(*out5.last().unwrap(), 125);
}

#[test]
fn spectrum_settings_from_params() {
    let s = SpectrumSettings::from_params(8192, 8, 63);
    assert_eq!((s.fft_n, s.avg_frames, s.fir_taps), (8192, 8, 63));
    let s = SpectrumSettings::from_params(100, 0, 8);
    assert_eq!((s.fft_n, s.avg_frames, s.fir_taps), (256, 1, 9));
    let s = SpectrumSettings::from_params(-1, -1, 2);
    assert_eq!((s.fft_n, s.avg_frames, s.fir_taps), (u32::MAX as usize, u32::MAX, 7));
    let mut b = ParamsBuilder::new();
    b.param0.set_value_range(1024, 256, 32768);
    b.param1.set_value_range(4, 1, 64);
    b.param4.set_value_range(10, 7, 255);
    let l = SpectrumSettings::load(&b.build());
    assert_eq!((l.fft_n, l.avg_frames, l.fir_taps), (1024, 4, 11));
}

#[test]
fn viewer_spectrum_rules() {
    assert_eq!(snap_fft_size(300), 512);
    assert_eq!(snap_fft_size(256), 256);
    assert_eq!(snap_fft_size(257), 512);
    assert_eq!(snap_fft_size(20000), 32768);
    assert_eq!(snap_fft_size(100), 256);
    assert_eq!(snap_fft_size(0), 256);
    assert_eq!(adjust_stop_freq(200_500, 200_000), 201_000);
    assert_eq!(adjust_stop_freq(260_000, 200_000), 260_000);
    assert_eq!(adjust_fir_taps(8), 9);
    assert_eq!(adjust_fir_taps(63), 63);
}

#[test]
fn cic_run_ignores_chunking() {
    let bytes: Vec<u8> = (0..40u8).map(|b| b.wrapping_mul(73)).collect();
    let mut a = CicDecimator::new(5, 3, 2);
    let mut out_a = Vec::new();
    for &b in &bytes {
        push_pdm_byte(&mut a, b, &mut out_a);
    }
    let mut b = CicDecimator::new(5, 3, 2);
    let mut out_b = Vec::new();
    for &byte in &bytes {
        for bi in (0..8).rev() {
            if let Some(y) = b.push(2 * ((byte >> bi) & 1) as i32 - 1) {
                out_b.push(y);
            }
        }
    }
    assert_eq!(out_a, out_b);
    assert_eq!(out_a.len(), 40 * 8 / 5);
}

#[test]
fn cic_without_stages_takes_samples_until_output_due() {
    let mut cic = CicDecimator::new(4, 0, 1);
    assert!(!cic.has_combs());
    assert_eq!(cic.push(1), None);
    assert_eq!(cic.push(1), None);
    assert_eq!(cic.push(-1), None);
    let mut wide = CicDecimator::new(20, 0, 1);
    assert!(wide.can_push_pdm_byte());
    let mut out = Vec::new();
    push_pdm_byte(&mut wide, 0xAA, &mut out);
    assert!(out.is_empty());
    assert!(wide.can_push_pdm_byte());
    push_pdm_byte(&mut wide, 0xAA, &mut out);
    assert!(!wide.can_push_pdm_byte());
    assert!(CicDecimator::new(4, 1, 1).has_combs());
}
