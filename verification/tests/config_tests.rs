use argos_runner::config::{RangeU32, RunnerConfig};

#[test]
fn range_iter_steps_up_to_max() {
    let r = RangeU32 { min: 5, max: 20, step: 5 };
    assert_eq!(r.iter(), vec![5, 10, 15, 20]);
}

#[test]
fn range_iter_stops_before_passing_max() {
    let r = RangeU32 { min: 1, max: 10, step: 4 };
    assert_eq!(r.iter(), vec![1, 5, 9]);
}

#[test]
fn range_iter_single_value() {
    let r = RangeU32 { min: 7, max: 7, step: 3 };
    assert_eq!(r.iter(), vec![7]);
}

#[test]
fn range_iter_empty_when_min_above_max() {
    let r = RangeU32 { min: 8, max: 3, step: 1 };
    assert!(r.iter().is_empty());
}

#[test]
fn range_iter_near_u32_max_does_not_wrap() {
    let r = RangeU32 { min: u32::MAX - 3, max: u32::MAX, step: 2 };
    assert_eq!(r.iter(), vec![u32::MAX - 3, u32::MAX - 1]);
    let r = RangeU32 { min: 0, max: u32::MAX, step: 1 << 31 };
    assert_eq!(r.iter(), vec![0, 1 << 31]);
}

#[test]
fn range_iter_matches_std_step_by() {
    for min in 0..12u32 {
        for max in 0..12u32 {
            for step in 1..5u32 {
                let r = RangeU32 { min, max, step };
                let expected: Vec<u32> = (min..=max).step_by(step as usize).collect();
                assert_eq!(r.iter(), expected);
            }
        }
    }
}

#[test]
fn runner_config_holds_its_fields() {
    let c = RunnerConfig { runs_per_config: 3, parallel_jobs: 4, output_dir: String::from("out") };
    assert_eq!(c.runs_per_config, 3);
    assert_eq!(c.parallel_jobs, 4);
    assert_eq!(c.output_dir, "out");
}
