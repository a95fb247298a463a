use argos_runner::arena::{arena_kind, ArenaKind};
use argos_runner::config::{RangeU32, RunnerConfig};
use argos_runner::plan::{ordered_run_slots, plan_runs, RunSlot};

fn runner(runs: usize) -> RunnerConfig {
    RunnerConfig { runs_per_config: runs, parallel_jobs: 1, output_dir: String::from("out") }
}

#[test]
fn ordered_slots_follow_loop_order() {
    let robots = RangeU32 { min: 2, max: 4, step: 2 };
    let slots = ordered_run_slots(2, 1, &robots, 2);
    let s = |a, r| RunSlot { algorithm: a, arena_type: 0, robots: r };
    assert_eq!(slots, vec![s(0, 2), s(0, 2), s(0, 4), s(0, 4), s(1, 2), s(1, 2), s(1, 4), s(1, 4)]);
}

#[test]
fn ordered_slots_cover_arena_types() {
    let robots = RangeU32 { min: 1, max: 1, step: 1 };
    let slots = ordered_run_slots(1, 3, &robots, 1);
    let got: Vec<usize> = slots.iter().map(|s| s.arena_type).collect();
    assert_eq!(got, vec![0, 1, 2]);
}

#[test]
fn empty_lists_give_no_runs_even_with_zero_step() {
    let robots = RangeU32 { min: 1, max: 5, step: 0 };
    assert!(ordered_run_slots(0, 3, &robots, 2).is_empty());
    assert!(ordered_run_slots(3, 0, &robots, 2).is_empty());
    let plan = plan_runs(&runner(2), 0, 3, &robots, u32::MAX, u32::MAX);
    assert!(plan.slots.is_empty());
    assert_eq!(plan.total_ticks, 0);
    assert_eq!(plan.total_global_ticks, 0);
}

#[test]
fn plan_is_a_permutation_with_totals() {
    let robots = RangeU32 { min: 5, max: 25, step: 10 };
    let plan = plan_runs(&runner(3), 2, 2, &robots, 600, 10);
    let mut got = plan.slots.clone();
    let mut want = ordered_run_slots(2, 2, &robots, 3);
    assert_eq!(got.len(), 2 * 2 * 3 * 3);
    let key = |s: &RunSlot| (s.algorithm, s.arena_type, s.robots);
    got.sort_by_key(key);
    want.sort_by_key(key);
    assert_eq!(got, want);
    assert_eq!(plan.total_ticks, 6000);
    assert_eq!(plan.total_global_ticks, 36 * 6000);
}

#[test]
fn plan_order_is_shuffled() {
    let robots = RangeU32 { min: 1, max: 6, step: 1 };
    let ordered = ordered_run_slots(1, 1, &robots, 1);
    let shuffled = (0..50).any(|_| plan_runs(&runner(1), 1, 1, &robots, 1, 1).slots != ordered);
    assert!(shuffled);
}

#[test]
fn arena_kind_by_name() {
    assert_eq!(arena_kind("maze"), ArenaKind::Maze);
    assert_eq!(arena_kind("scatter"), ArenaKind::Scatter);
    assert_eq!(arena_kind("Maze"), ArenaKind::Scatter);
    assert_eq!(arena_kind(""), ArenaKind::Scatter);
}

#[test]
fn every_configuration_gets_its_runs() {
    let robots = RangeU32 { min: 3, max: 9, step: 3 };
    let plan = plan_runs(&runner(4), 3, 2, &robots, 10, 10);
    for a in 0..3 {
        for t in 0..2 {
            for r in [3, 6, 9] {
                let slot = RunSlot { algorithm: a, arena_type: t, robots: r };
                assert_eq!(plan.slots.iter().filter(|s| **s == slot).count(), 4);
            }
        }
    }
    assert!(plan.slots.iter().all(|s| s.robots % 3 == 0 && s.algorithm < 3 && s.arena_type < 2));
}
