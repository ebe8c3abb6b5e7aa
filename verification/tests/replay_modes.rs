use firestorm::log::{Event, EventData, EventLog, Start};
use firestorm::replay::{lines, replay_lines, Mode};
use firestorm::time::TimeSample;

fn enter(log: &mut EventLog, t: u64, tag: &'static str) {
    log.record(Event {
        time: TimeSample::from_ticks(t),
        data: EventData::Start(Start::Func { signature: tag }),
    });
}

fn leave(log: &mut EventLog, t: u64) {
    log.record(Event { time: TimeSample::from_ticks(t), data: EventData::End });
}

#[test]
fn chronological_flat_round_trip() {
    let mut log = EventLog::new();
    enter(&mut log, 10, "A");
    leave(&mut log, 15);
    enter(&mut log, 20, "B");
    leave(&mut log, 27);
    let out = lines(&log, Mode::TimeAxis).unwrap();
    assert_eq!(out, vec!["A 5".to_string(), "B 7".to_string()]);
}

#[test]
fn chronological_nested_parent_advance() {
    // The parent's open time advances to each child's leave, so the parent's
    // own line carries only the tail not already attributed to the child.
    let mut log = EventLog::new();
    enter(&mut log, 0, "A");
    enter(&mut log, 10, "B");
    leave(&mut log, 25);
    leave(&mut log, 30);
    let out = lines(&log, Mode::TimeAxis).unwrap();
    assert_eq!(out, vec!["A;B 15".to_string(), "A 5".to_string()]);
}

#[test]
fn chronological_adjacent_merge() {
    // A tight loop of same-named spans melts into one line.
    let mut log = EventLog::new();
    enter(&mut log, 0, "A");
    leave(&mut log, 5);
    enter(&mut log, 5, "A");
    leave(&mut log, 9);
    let out = lines(&log, Mode::TimeAxis).unwrap();
    assert_eq!(out, vec!["A 9".to_string()]);
}

#[test]
fn chronological_nonadjacent_not_merged() {
    let mut log = EventLog::new();
    enter(&mut log, 0, "A");
    leave(&mut log, 5);
    enter(&mut log, 5, "B");
    leave(&mut log, 8);
    enter(&mut log, 8, "A");
    leave(&mut log, 9);
    let out = lines(&log, Mode::TimeAxis).unwrap();
    assert_eq!(
        out,
        vec!["A 5".to_string(), "B 3".to_string(), "A 1".to_string()]
    );
}

#[test]
fn merged_self_time_conservation() {
    // A { B, B }: the child path gets b1 + b2, the root path a - b1 - b2.
    let mut log = EventLog::new();
    enter(&mut log, 0, "A");
    enter(&mut log, 10, "B");
    leave(&mut log, 25);
    enter(&mut log, 30, "B");
    leave(&mut log, 50);
    leave(&mut log, 100);
    let out = lines(&log, Mode::Merged).unwrap();
    assert_eq!(out, vec!["A;B 35".to_string(), "A 65".to_string()]);
}

#[test]
fn merged_weights_are_structured_too() {
    let mut log = EventLog::new();
    enter(&mut log, 0, "A");
    enter(&mut log, 10, "B");
    leave(&mut log, 25);
    enter(&mut log, 30, "B");
    leave(&mut log, 50);
    leave(&mut log, 100);
    let out = replay_lines(&log, Mode::Merged).unwrap();
    assert_eq!(out.len(), 2);
    assert_eq!(out[0].name, "A;B");
    assert_eq!(out[0].duration, 35);
    assert_eq!(out[1].name, "A");
    assert_eq!(out[1].duration, 65);
}

#[test]
fn merged_zero_self_time_suppressed() {
    // The child fills the root completely: the root's self time is zero and
    // its line is dropped.
    let mut log = EventLog::new();
    enter(&mut log, 0, "A");
    enter(&mut log, 0, "B");
    leave(&mut log, 10);
    leave(&mut log, 10);
    let out = lines(&log, Mode::Merged).unwrap();
    assert_eq!(out, vec!["A;B 10".to_string()]);
}

#[test]
fn owntime_stacking_law() {
    // Self times {X:10, Y:6, Z:6, W:2}; ties keep first-seen order. The
    // ranked output carries marginal weights under running paths, zero
    // margins suppressed.
    let mut log = EventLog::new();
    enter(&mut log, 0, "X");
    leave(&mut log, 10);
    enter(&mut log, 10, "Y");
    leave(&mut log, 16);
    enter(&mut log, 16, "Z");
    leave(&mut log, 22);
    enter(&mut log, 22, "W");
    leave(&mut log, 24);
    let out = replay_lines(&log, Mode::OwnTime).unwrap();
    let pairs: Vec<(String, u64)> = out.iter().map(|l| (l.name.clone(), l.duration)).collect();
    assert_eq!(
        pairs,
        vec![
            ("X".to_string(), 4),
            ("X;Y;Z".to_string(), 4),
            ("X;Y;Z;W".to_string(), 2),
        ]
    );
    // The weights add up to the largest self time...
    let total: u64 = out.iter().map(|l| l.duration).sum();
    assert_eq!(total, 10);
    // ...and the stacked prefix through each rank reaches the largest self
    // time minus the next kept rank's self time.
    assert_eq!(out[0].duration, 10 - 6);
    assert_eq!(out[0].duration + out[1].duration, 10 - 2);
}

#[test]
fn owntime_single_span() {
    let mut log = EventLog::new();
    enter(&mut log, 3, "only");
    leave(&mut log, 11);
    let out = lines(&log, Mode::OwnTime).unwrap();
    assert_eq!(out, vec!["only 8".to_string()]);
}

#[test]
fn owntime_ranks_descending() {
    let mut log = EventLog::new();
    enter(&mut log, 0, "small");
    leave(&mut log, 2);
    enter(&mut log, 2, "big");
    leave(&mut log, 12);
    let out = replay_lines(&log, Mode::OwnTime).unwrap();
    let pairs: Vec<(String, u64)> = out.iter().map(|l| (l.name.clone(), l.duration)).collect();
    assert_eq!(pairs, vec![("big".to_string(), 8), ("big;small".to_string(), 2)]);
}

#[test]
fn zero_weight_suppressed_in_all_modes() {
    let mut log = EventLog::new();
    enter(&mut log, 0, "A");
    leave(&mut log, 10);
    enter(&mut log, 10, "Z");
    leave(&mut log, 10);
    for mode in [Mode::TimeAxis, Mode::Merged, Mode::OwnTime] {
        let out = lines(&log, mode).unwrap();
        assert_eq!(out, vec!["A 10".to_string()], "mode {:?}", mode);
    }
}

#[test]
fn empty_log_is_balanced_and_silent() {
    let log = EventLog::new();
    for mode in [Mode::TimeAxis, Mode::Merged, Mode::OwnTime] {
        let out = lines(&log, mode).unwrap();
        assert!(out.is_empty(), "mode {:?}", mode);
    }
}

#[test]
fn method_and_section_tags_format() {
    let mut log = EventLog::new();
    log.record(Event {
        time: TimeSample::from_ticks(0),
        data: EventData::Start(Start::Method { typ: "Widget", signature: "draw()" }),
    });
    leave(&mut log, 4);
    log.record(Event {
        time: TimeSample::from_ticks(4),
        data: EventData::Start(Start::Section { name: "setup" }),
    });
    leave(&mut log, 9);
    let out = lines(&log, Mode::TimeAxis).unwrap();
    assert_eq!(out, vec!["Widget::draw() 4".to_string(), "setup 5".to_string()]);
}

#[test]
fn deep_nesting_chronological() {
    let mut log = EventLog::new();
    enter(&mut log, 0, "a");
    enter(&mut log, 1, "b");
    enter(&mut log, 2, "c");
    leave(&mut log, 5);
    leave(&mut log, 7);
    leave(&mut log, 11);
    let out = lines(&log, Mode::TimeAxis).unwrap();
    assert_eq!(
        out,
        vec![
            "a;b;c 3".to_string(),
            "a;b 2".to_string(),
            "a 4".to_string(),
        ]
    );
}

#[test]
fn wrapping_clock_does_not_panic() {
    // A non-monotonic sample wraps silently rather than failing.
    let mut log = EventLog::new();
    enter(&mut log, 10, "back");
    leave(&mut log, 6);
    let out = replay_lines(&log, Mode::TimeAxis).unwrap();
    assert_eq!(out.len(), 1);
    assert_eq!(out[0].duration, u64::MAX - 3);
}
