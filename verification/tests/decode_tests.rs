use std::collections::VecDeque;
use std::sync::atomic::Ordering;

use wave_viewer::decode::{
    estimate_phase, flush_due, unpack_3bytes_to_2x12bits, Decoder, LsbBitsDecoder,
    Pack2In3BitsDecoder, PHASE_MIN_BYTES,
};
use wave_viewer::filter::{DecimationFilter, FilterSettings, MovAveFilter};
use wave_viewer::params::ParamsBuilder;

fn settings(decimation: isize, window: isize) -> FilterSettings {
    FilterSettings { decimation, window }
}

fn pack(s0: u16, s1: u16) -> [u8; 3] {
    [(s0 & 0xff) as u8, ((s0 >> 8) as u8 & 0x0f) | (((s1 & 0x0f) as u8) << 4), (s1 >> 4) as u8]
}

fn smooth_stream(pairs: usize) -> Vec<u8> {
    let mut bytes = Vec::new();
    for t in 0..pairs {
        let s0 = (1000 + (t * 2) % 2000) as u16;
        let s1 = s0 + 1;
        bytes.extend_from_slice(&pack(s0, s1));
    }
    bytes
}

#[test]
fn unpack_splits_nibbles() {
    assert_eq!(unpack_3bytes_to_2x12bits(0xAB, 0xCD, 0xEF), (0xDAB, 0xEFC));
    assert_eq!(unpack_3bytes_to_2x12bits(0xFF, 0xFF, 0xFF), (0xFFF, 0xFFF));
    assert_eq!(unpack_3bytes_to_2x12bits(0, 0, 0), (0, 0));
}

#[test]
fn unpack_inverts_packing() {
    for &(s0, s1) in &[(0u16, 4095u16), (1234, 567), (4095, 0), (2048, 2049)] {
        let b = pack(s0, s1);
        assert_eq!(unpack_3bytes_to_2x12bits(b[0], b[1], b[2]), (s0, s1));
    }
}

#[test]
fn estimate_phase_needs_enough_bytes() {
    let buf: VecDeque<u8> = smooth_stream(400).into_iter().collect();
    assert!(buf.len() < PHASE_MIN_BYTES);
    assert_eq!(estimate_phase(&buf), None);
}

#[test]
fn estimate_phase_finds_offset() {
    for offset in 0..3usize {
        let mut bytes = vec![0x5Au8; offset];
        bytes.extend(smooth_stream(600));
        let buf: VecDeque<u8> = bytes.into_iter().collect();
        assert_eq!(estimate_phase(&buf), Some(offset));
    }
}

#[test]
fn estimate_phase_constant_signal_prefers_zero() {
    let buf: VecDeque<u8> = vec![0u8; PHASE_MIN_BYTES].into_iter().collect();
    assert_eq!(estimate_phase(&buf), Some(0));
}

#[test]
fn lsb_decoder_emits_bits_lsb_first() {
    let params = ParamsBuilder::new().build();
    let mut dec = LsbBitsDecoder::new(DecimationFilter::new());
    let mut out: Vec<u8> = Vec::new();
    assert!(dec.can_accept(2));
    dec.reader(&[0b1000_0101, 0x01], &mut out, &params, &settings(0, 1));
    assert_eq!(out, vec![1, 0, 1, 0, 0, 0, 0, 1, 1, 0, 0, 0, 0, 0, 0, 0]);
}

#[test]
fn lsb_decoder_with_decimation() {
    let params = ParamsBuilder::new().build();
    let mut dec = LsbBitsDecoder::new(DecimationFilter::new());
    let mut out: Vec<u8> = vec![9];
    dec.reader(&[0b0101_0101], &mut out, &params, &settings(1, 1));
    assert_eq!(out, vec![9, 0, 0, 0, 0]);
    dec.reader(&[0b1010_1010], &mut out, &params, &settings(1, 1));
    assert_eq!(out, vec![9, 0, 0, 0, 0, 1, 1, 1, 1]);
}

#[test]
fn pack_decoder_waits_for_phase_then_decodes() {
    let params = ParamsBuilder::new().build();
    let mut dec = Pack2In3BitsDecoder::new(DecimationFilter::new());
    let mut out: Vec<u16> = Vec::new();
    let mut bytes = vec![0x33u8];
    bytes.extend(smooth_stream(600));
    dec.reader(&bytes[..100], &mut out, &params, &settings(0, 1));
    assert!(out.is_empty());
    dec.reader(&bytes[100..], &mut out, &params, &settings(0, 1));
    assert_eq!(out.len(), 1200);
    assert_eq!(out[0], 1000);
    assert_eq!(out[1], 1001);
    assert_eq!(out[2], 1002);
    let more = pack(7, 8);
    dec.reader(&more[..2], &mut out, &params, &settings(0, 1));
    assert_eq!(out.len(), 1200);
    dec.reader(&more[2..], &mut out, &params, &settings(0, 1));
    assert_eq!(&out[1200..], &[7, 8]);
    assert!(!params.stop.load(Ordering::Relaxed));
}

#[test]
fn flush_rule() {
    assert!(!flush_due(0, 0));
    assert!(!flush_due(8191, 7));
    assert!(flush_due(8192, 0));
    assert!(flush_due(1, 8));
}

#[test]
fn lsb_decoding_ignores_chunking() {
    let params = ParamsBuilder::new().build();
    let bytes: Vec<u8> = (0..50u8).map(|b| b.wrapping_mul(37)).collect();
    let mut whole = LsbBitsDecoder::new(DecimationFilter::new());
    let mut out_whole: Vec<u8> = Vec::new();
    whole.reader(&bytes, &mut out_whole, &params, &settings(2, 1));
    let mut parts = LsbBitsDecoder::new(DecimationFilter::new());
    let mut out_parts: Vec<u8> = Vec::new();
    for chunk in bytes.chunks(7) {
        parts.reader(chunk, &mut out_parts, &params, &settings(2, 1));
    }
    assert_eq!(out_whole, out_parts);
    assert_eq!(out_whole.len(), 50 * 8 / 3);
}

#[test]
fn pack_decoding_ignores_chunking() {
    let params = ParamsBuilder::new().build();
    let mut bytes = vec![0x11u8, 0x22];
    bytes.extend(smooth_stream(700));
    let mut whole = Pack2In3BitsDecoder::new(DecimationFilter::new());
    let mut out_whole: Vec<u16> = Vec::new();
    whole.reader(&bytes, &mut out_whole, &params, &settings(0, 1));
    let mut parts = Pack2In3BitsDecoder::new(DecimationFilter::new());
    let mut out_parts: Vec<u16> = Vec::new();
    for chunk in bytes.chunks(100) {
        parts.reader(chunk, &mut out_parts, &params, &settings(0, 1));
    }
    assert_eq!(out_whole, out_parts);
    assert_eq!(out_whole.len(), 1400);
}

#[test]
fn pack_decoder_queues_without_running_filter() {
    let params = ParamsBuilder::new().build();
    let mut dec = Pack2In3BitsDecoder::new(MovAveFilter::<u16>::new(&params));
    let mut out: Vec<u16> = Vec::new();
    let zero_window = settings(0, 0);
    assert!(dec.can_read(100, &zero_window));
    dec.reader(&smooth_stream(40)[..100], &mut out, &params, &zero_window);
    assert!(out.is_empty());
    assert!(!dec.can_read(PHASE_MIN_BYTES, &zero_window));
    assert!(dec.can_read(PHASE_MIN_BYTES, &settings(0, 1)));
}

#[test]
fn lsb_decoder_empty_read_without_filter() {
    let params = ParamsBuilder::new().build();
    let mut dec = LsbBitsDecoder::new(MovAveFilter::<u8>::new(&params));
    let mut out: Vec<u8> = Vec::new();
    let zero_window = settings(0, 0);
    assert!(Decoder::<MovAveFilter<u8>, u8>::can_read(&dec, 0, &zero_window));
    dec.reader(&[], &mut out, &params, &zero_window);
    assert!(out.is_empty());
    assert!(!Decoder::<MovAveFilter<u8>, u8>::can_read(&dec, 1, &zero_window));
}
