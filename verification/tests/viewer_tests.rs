use std::collections::VecDeque;

use wave_viewer::params::ParamsBuilder;
use wave_viewer::viewer::scope::{find_trigger, holdoff_running, segment_step, ScopeState, TriggerEdge, TriggerMode};
use wave_viewer::viewer::{push_plot_samples, WINDOW_SIZE};

#[test]
fn plot_window_keeps_most_recent() {
    let mut samples: VecDeque<u16> = VecDeque::new();
    let chunk: Vec<u16> = (0..6000u16).collect();
    push_plot_samples(&mut samples, &chunk);
    assert_eq!(samples.len(), WINDOW_SIZE);
    assert_eq!(samples[0], 1000);
    assert_eq!(*samples.back().unwrap(), 5999);
    push_plot_samples(&mut samples, &[7, 8]);
    assert_eq!(samples.len(), WINDOW_SIZE);
    assert_eq!(samples[0], 1002);
    assert_eq!(*samples.back().unwrap(), 8);
}

#[test]
fn plot_window_trims_oversized_buffer() {
    let mut samples: VecDeque<u16> = (0..7000u16).collect();
    push_plot_samples(&mut samples, &[]);
    assert_eq!(samples.len(), WINDOW_SIZE);
    assert_eq!(samples[0], 2000);
}

#[test]
fn rising_trigger_needs_arming() {
    let s: VecDeque<u16> = vec![3000, 3000, 100, 1000, 2100, 2200, 100, 3000].into_iter().collect();
    assert_eq!(find_trigger(&s, TriggerEdge::Rising, 2048, 8), Some(4));
    let late: VecDeque<u16> = vec![2100, 1000, 1500, 3000].into_iter().collect();
    assert_eq!(find_trigger(&late, TriggerEdge::Rising, 2048, 8), Some(3));
    let armed_at_end: VecDeque<u16> = vec![2100, 1000, 3000].into_iter().collect();
    assert_eq!(find_trigger(&armed_at_end, TriggerEdge::Rising, 2048, 8), None);
    let high: VecDeque<u16> = vec![3000, 2500, 3000].into_iter().collect();
    assert_eq!(find_trigger(&high, TriggerEdge::Rising, 2048, 8), None);
}

#[test]
fn falling_trigger() {
    let s: VecDeque<u16> = vec![100, 3000, 2500, 2000, 100].into_iter().collect();
    assert_eq!(find_trigger(&s, TriggerEdge::Falling, 2048, 8), Some(3));
    let one: VecDeque<u16> = vec![3000].into_iter().collect();
    assert_eq!(find_trigger(&one, TriggerEdge::Falling, 2048, 8), None);
}

#[test]
fn trigger_arming_sample_does_not_fire() {
    let s: VecDeque<u16> = vec![0, 4000].into_iter().collect();
    assert_eq!(find_trigger(&s, TriggerEdge::Rising, 2048, 8), None);
}

fn square_wave(n: usize) -> Vec<u16> {
    (0..n).map(|i| if (i / 500) % 2 == 0 { 100 } else { 4000 }).collect()
}

#[test]
fn scope_captures_frame_at_trigger() {
    let params = ParamsBuilder::new().build();
    let mut scope = ScopeState::new();
    scope.push_samples(&square_wave(12_000));
    let t = scope.find_trigger_index().unwrap();
    assert_eq!(t, 2500);
    assert!(scope.capture_frame_at(t, 1000, &params));
    assert_eq!(scope.frames.len(), 1);
    assert_eq!(scope.frames[0].len(), WINDOW_SIZE);
    assert_eq!(scope.frames[0][999], 100);
    assert_eq!(scope.frames[0][1000], 4000);
    assert!(scope.last_triggered_at.is_some());
    assert!(!scope.capture_frame_at(10, 1000, &params));
    assert!(!scope.capture_frame_at(11_000, 1000, &params));
}

#[test]
fn scope_persistence_limits_frames() {
    let params = ParamsBuilder::new().build();
    let mut scope = ScopeState::new();
    scope.push_samples(&square_wave(12_000));
    for _ in 0..5 {
        assert!(scope.maybe_capture(1000, &params));
    }
    assert_eq!(scope.frames.len(), 3);
    scope.persistence = 0;
    assert!(scope.capture_latest_window());
    assert_eq!(scope.frames.len(), 1);
}

#[test]
fn scope_auto_mode_takes_latest_window() {
    let params = ParamsBuilder::new().build();
    let mut scope = ScopeState::new();
    let flat = vec![3000u16; 6000];
    scope.push_samples(&flat);
    assert_eq!(scope.find_trigger_index(), None);
    assert!(scope.maybe_capture(1000, &params));
    assert_eq!(scope.frames[0].len(), WINDOW_SIZE);
    scope.trig.mode = TriggerMode::Normal;
    assert!(!scope.maybe_capture(1000, &params));
    assert_eq!(scope.frames.len(), 1);
}

#[test]
fn scope_single_shot_pauses() {
    let params = ParamsBuilder::new().build();
    params.paused.store(false, std::sync::atomic::Ordering::Relaxed);
    let mut scope = ScopeState::new();
    scope.trig.mode = TriggerMode::Single;
    scope.push_samples(&square_wave(12_000));
    assert!(scope.maybe_capture(1000, &params));
    assert!(!scope.single_armed);
    assert!(params.paused.load(std::sync::atomic::Ordering::Relaxed));
    assert!(!scope.maybe_capture(1000, &params));
    assert_eq!(scope.frames.len(), 1);
}

#[test]
fn scope_holdoff_blocks_retrigger() {
    let params = ParamsBuilder::new().build();
    let mut scope = ScopeState::new();
    scope.trig.holdoff_ms = 10_000;
    scope.push_samples(&square_wave(12_000));
    assert!(!scope.within_holdoff());
    assert!(scope.maybe_capture(1000, &params));
    assert!(scope.within_holdoff());
    assert_eq!(scope.find_trigger_index(), None);
}

#[test]
fn scope_sample_buffer_is_bounded() {
    let mut scope = ScopeState::new();
    let big: Vec<u16> = (0..45_000u32).map(|i| (i % 4096) as u16).collect();
    scope.push_samples(&big);
    assert_eq!(scope.samples.len(), 40_000);
    assert_eq!(scope.samples[0], (5_000 % 4096) as u16);
}

#[test]
fn holdoff_runs_until_its_length_has_passed() {
    assert!(holdoff_running(5, 10));
    assert!(!holdoff_running(10, 10));
    assert!(!holdoff_running(5_000, 10));
    assert!(!holdoff_running(0, 0));
}

#[test]
fn trigger_search_after_holdoff() {
    let params = ParamsBuilder::new().build();
    let mut scope = ScopeState::new();
    scope.trig.mode = TriggerMode::Normal;
    scope.trig.holdoff_ms = 10_000;
    scope.push_samples(&square_wave(12_000));
    assert_eq!(scope.find_trigger_after(0), Some(2500));
    assert!(scope.capture_after(0, 1000, &params));
    assert!(scope.last_triggered_at.is_some());
    assert_eq!(scope.find_trigger_after(50), None);
    assert!(!scope.capture_after(50, 1000, &params));
    assert_eq!(scope.frames.len(), 1);
    assert_eq!(scope.find_trigger_after(10_000), Some(2500));
    assert!(scope.capture_after(20_000, 1000, &params));
    assert_eq!(scope.frames.len(), 2);
}

#[test]
fn segment_step_one_per_pixel() {
    assert_eq!(segment_step(5000, 800), 6);
    assert_eq!(segment_step(5000, 5000), 1);
    assert_eq!(segment_step(2, 800), 1);
}

#[test]
fn pushing_samples_keeps_trigger_time() {
    let params = ParamsBuilder::new().build();
    let mut scope = ScopeState::new();
    scope.push_samples(&square_wave(12_000));
    assert!(scope.maybe_capture(1000, &params));
    assert!(scope.last_triggered_at.is_some());
    scope.push_samples(&square_wave(100));
    assert!(scope.last_triggered_at.is_some());
}
