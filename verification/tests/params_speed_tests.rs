use std::sync::atomic::Ordering;

use wave_viewer::filter::FilterSettings;
use wave_viewer::params::ParamsBuilder;
use wave_viewer::speed::SpeedMeter;

#[test]
fn builder_defaults() {
    let params = ParamsBuilder::new().build();
    assert_eq!(params.param0.load(Ordering::Relaxed), 1);
    assert_eq!(params.param4.load_min(Ordering::Relaxed), 1);
    assert_eq!(params.param4.load_max(Ordering::Relaxed), 1);
    assert!(params.paused.load(Ordering::Relaxed));
    assert!(!params.stop.load(Ordering::Relaxed));
    assert_eq!(params.speed.load(Ordering::Relaxed), 0);
    assert!(params.param2.edit_name.is_none());
}

#[test]
fn set_value_range_widens_to_value() {
    let mut builder = ParamsBuilder::new();
    builder.param0.set_value_range(1000, 0, 4095);
    builder.param1.set_value_range(5, 10, 3);
    builder.param2.set_value_range(-7, -3, 9);
    let params = builder.build();
    assert_eq!(params.param0.load(Ordering::Relaxed), 1000);
    assert_eq!(params.param0.load_min(Ordering::Relaxed), 0);
    assert_eq!(params.param0.load_max(Ordering::Relaxed), 4095);
    assert_eq!(params.param1.load_min(Ordering::Relaxed), 5);
    assert_eq!(params.param1.load_max(Ordering::Relaxed), 5);
    assert_eq!(params.param2.load_min(Ordering::Relaxed), -7);
    assert_eq!(params.param2.load_max(Ordering::Relaxed), 9);
}

#[test]
fn filter_settings_follow_params() {
    let mut builder = ParamsBuilder::new();
    builder.param0.set_value_range(12, 0, 100);
    builder.param1.set_value_range(3, 1, 100);
    let params = builder.build();
    let s = FilterSettings::load(&params);
    assert_eq!(s.decimation, 12);
    assert_eq!(s.window, 3);
    params.param0.value.store(4, Ordering::Relaxed);
    assert_eq!(FilterSettings::load(&params).decimation, 4);
}

#[test]
fn speed_meter_tick_reports_rate() {
    let mut m = SpeedMeter::new(2, 3);
    assert_eq!(m.tick(100, 0), None);
    assert_eq!(m.tick(200, 1), Some(200));
    assert_eq!(m.tick(10, 5), Some(6));
}

#[test]
fn speed_meter_fits() {
    let m = SpeedMeter::new(8, 1);
    assert!(m.fits(1000));
    assert!(!m.fits(usize::MAX));
    let z = SpeedMeter::new(1, 0);
    assert!(!z.fits(1));
}

#[test]
fn speed_meter_run_waits_for_a_second() {
    let params = ParamsBuilder::new().build();
    let mut m = SpeedMeter::new(8, 1);
    m.run(10, &params);
    m.run(15, &params);
    assert_eq!(params.speed.load(Ordering::Relaxed), 0);
    assert!(m.fits(usize::MAX / 8 - 25));
    assert!(!m.fits(usize::MAX / 8 - 24));
}

#[test]
fn speed_meter_reports_once_a_second() {
    let mut m = SpeedMeter::new(8, 1);
    assert_eq!(m.tick(10, 0), None);
    assert_eq!(m.tick(20, 0), None);
    assert_eq!(m.tick(5, 1), Some(280));
    assert_eq!(m.tick(3, 0), None);
    assert_eq!(m.tick(0, 2), Some(24));
}
