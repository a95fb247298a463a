use argos_runner::monitor::{LineAction, Progress, RunMonitor, PROGRESS_BATCH};

const ANSI: &str = r"\x1b\[[0-9;]*m";

fn monitor(total: u32) -> RunMonitor {
    RunMonitor::new(ANSI, total).expect("the colour-code pattern compiles")
}

fn data(act: &LineAction) -> Option<(String, u64)> {
    match act {
        LineAction::DataRecord { record, advance } => Some((record.clone(), *advance)),
        _ => None,
    }
}

#[test]
fn bad_pattern_is_refused() {
    assert!(RunMonitor::new("(", 10).is_none());
}

#[test]
fn fresh_monitor_has_no_progress() {
    let m = monitor(600);
    assert_eq!(m.progress(), Progress { last_tick: 0, pending: 0, total_ticks: 600 });
}

#[test]
fn lines_without_marker_are_skipped() {
    let mut m = monitor(600);
    assert!(matches!(m.process_line("[INFO] loading robots"), LineAction::Skip));
    assert_eq!(m.progress().last_tick, 0);
}

#[test]
fn map_records_lose_white_space() {
    let mut m = monitor(600);
    match m.process_line("robot7: BUZZ: MAP, 3, 4 ,1") {
        LineAction::MapRecord { record } => assert_eq!(record, "MAP,3,4,1"),
        _ => panic!("expected a map record"),
    }
    assert_eq!(m.progress().last_tick, 0);
}

#[test]
fn colour_codes_are_stripped() {
    let mut m = monitor(600);
    let act = m.process_line("\x1b[1;32mBUZZ:\x1b[0m kiv3, 20, 1.5\x1b[0m");
    assert_eq!(data(&act), Some((String::from("kiv3,20,1.5"), 0)));
    assert_eq!(m.progress(), Progress { last_tick: 20, pending: 20, total_ticks: 600 });
}

#[test]
fn marker_split_by_colour_code_is_skipped() {
    let mut m = monitor(600);
    assert!(matches!(m.process_line("BU\x1b[0mZZ: a,1"), LineAction::Skip));
}

#[test]
fn empty_records_are_skipped() {
    let mut m = monitor(600);
    assert!(matches!(m.process_line("BUZZ:   \t "), LineAction::Skip));
}

#[test]
fn ticks_are_handed_out_in_batches() {
    let mut m = monitor(600);
    assert_eq!(data(&m.process_line("BUZZ: r,30")).unwrap().1, 0);
    assert_eq!(data(&m.process_line("BUZZ: r,45")).unwrap().1, 0);
    assert_eq!(data(&m.process_line("BUZZ: r,60,x")).unwrap().1, 60);
    assert_eq!(m.progress(), Progress { last_tick: 60, pending: 0, total_ticks: 600 });
    assert_eq!(data(&m.process_line("BUZZ: r,200")).unwrap().1, 140);
    assert!(PROGRESS_BATCH == 50);
}

#[test]
fn stale_late_and_unreadable_ticks_change_nothing() {
    let mut m = monitor(100);
    m.process_line("BUZZ: r,40");
    let before = m.progress();
    for line in ["BUZZ: r,40", "BUZZ: r,10", "BUZZ: r,101", "BUZZ: r,abc", "BUZZ: r", "BUZZ: r,-5"] {
        let act = m.process_line(line);
        assert_eq!(data(&act).unwrap().1, 0, "{}", line);
        assert_eq!(m.progress(), before, "{}", line);
    }
}

#[test]
fn finish_flushes_and_fills_up_to_length() {
    let mut m = monitor(6000);
    m.process_line("BUZZ: r,30");
    assert_eq!(m.finish(600), (30, 570));
    assert_eq!(m.finish(20), (30, 0));
}

#[test]
fn handed_out_ticks_add_up_to_larger_of_last_tick_and_length() {
    let lines = [
        "BUZZ: r,12",
        "noise",
        "BUZZ: MAP,1,1",
        "BUZZ: r,70",
        "BUZZ: r,71",
        "BUZZ: r,130",
        "BUZZ: r,bad",
        "BUZZ: r,170",
    ];
    for length in [0u32, 100, 170, 500] {
        let mut m = monitor(1000);
        let mut handed = 0u64;
        for line in lines {
            if let Some((_, adv)) = data(&m.process_line(line)) {
                handed += adv;
            }
        }
        let (flush, tail) = m.finish(length);
        assert_eq!(handed + flush + tail, std::cmp::max(170, length as u64));
    }
}
