use wave_viewer::filter::{param_to_count, DecimationFilter, Filter, FilterSettings, MovAveFilter};
use wave_viewer::params::ParamsBuilder;

fn settings(decimation: isize, window: isize) -> FilterSettings {
    FilterSettings { decimation, window }
}

#[test]
fn decimation_keeps_every_third() {
    let mut f = DecimationFilter::new();
    let s = settings(2, 1);
    let out: Vec<u16> = (0u16..10).filter_map(|v| f.run(v, &s)).collect();
    assert_eq!(out, vec![2, 5, 8]);
}

#[test]
fn decimation_zero_keeps_all() {
    let mut f = DecimationFilter::new();
    let s = settings(0, 1);
    let out: Vec<u8> = (0u8..5).filter_map(|v| f.run(v, &s)).collect();
    assert_eq!(out, vec![0, 1, 2, 3, 4]);
}

#[test]
fn decimation_step_counts() {
    let mut f = DecimationFilter::new();
    assert_eq!(f.step(7u8, 1), None);
    assert_eq!(f.step(8u8, 1), Some(8));
    assert_eq!(f.step(9u8, 1), None);
}

#[test]
fn negative_parameter_wraps() {
    assert_eq!(param_to_count(5), 5);
    assert_eq!(param_to_count(-1), usize::MAX);
    assert_eq!(param_to_count(isize::MIN), (isize::MAX as usize) + 1);
}

#[test]
fn moving_average_over_window() {
    let params = ParamsBuilder::new().build();
    let mut f: MovAveFilter<u16> = MovAveFilter::new(&params);
    let s = settings(0, 2);
    let out: Vec<u16> = [2u16, 4, 6, 9].iter().filter_map(|&v| f.run(v, &s)).collect();
    assert_eq!(out, vec![1, 3, 5, 7]);
}

#[test]
fn moving_average_window_shrinks() {
    let params = ParamsBuilder::new().build();
    let mut f: MovAveFilter<u8> = MovAveFilter::new(&params);
    let wide = settings(0, 4);
    let out: Vec<u8> = [4u8, 4, 4, 4].iter().filter_map(|&v| f.run(v, &wide)).collect();
    assert_eq!(out, vec![1, 2, 3, 4]);
    assert_eq!(f.run(0u8, &settings(0, 1)), Some(0u8));
    assert_eq!(f.run(8u8, &settings(0, 2)), Some(4u8));
}

#[test]
fn moving_average_then_decimation() {
    let params = ParamsBuilder::new().build();
    let mut f: MovAveFilter<u16> = MovAveFilter::new(&params);
    let s = settings(1, 1);
    let out: Vec<u16> = [10u16, 20, 30, 40].iter().filter_map(|&v| f.run(v, &s)).collect();
    assert_eq!(out, vec![20, 40]);
}

#[test]
fn moving_average_of_bytes_as_wide_samples() {
    let params = ParamsBuilder::new().build();
    let mut f: MovAveFilter<u8> = MovAveFilter::new(&params);
    let s = settings(0, 2);
    let out: Vec<u16> = [200u8, 255, 255, 1].iter().filter_map(|&v| f.run(v, &s)).collect();
    assert_eq!(out, vec![100u16, 227, 255, 128]);
    assert!(<MovAveFilter<u8> as Filter<u8, u16>>::accepts_settings(&settings(0, 1)));
    assert!(!<MovAveFilter<u8> as Filter<u8, u16>>::accepts_settings(&settings(0, 0)));
}
