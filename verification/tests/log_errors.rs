use firestorm::log::{clear, end, start, start_guard, Event, EventData, EventLog, SpanGuard, Start};
use firestorm::replay::{lines, replay_lines, Mode, ReplayError};
use firestorm::time::TimeSample;
use firestorm::enabled;

fn enter(log: &mut EventLog, t: u64, tag: &'static str) {
    log.record(Event {
        time: TimeSample::from_ticks(t),
        data: EventData::Start(Start::Func { signature: tag }),
    });
}

fn leave(log: &mut EventLog, t: u64) {
    log.record(Event { time: TimeSample::from_ticks(t), data: EventData::End });
}

#[test]
fn extra_leave_fails_every_mode() {
    let mut log = EventLog::new();
    leave(&mut log, 5);
    for mode in [Mode::TimeAxis, Mode::Merged, Mode::OwnTime] {
        assert_eq!(lines(&log, mode).unwrap_err(), ReplayError::ExtraLeave);
        assert_eq!(replay_lines(&log, mode).unwrap_err(), ReplayError::ExtraLeave);
    }
}

#[test]
fn late_extra_leave_fails() {
    let mut log = EventLog::new();
    enter(&mut log, 0, "A");
    leave(&mut log, 5);
    leave(&mut log, 6);
    assert_eq!(lines(&log, Mode::TimeAxis).unwrap_err(), ReplayError::ExtraLeave);
}

#[test]
fn trailing_open_enter_fails_every_mode() {
    let mut log = EventLog::new();
    enter(&mut log, 5, "A");
    for mode in [Mode::TimeAxis, Mode::Merged, Mode::OwnTime] {
        assert_eq!(lines(&log, mode).unwrap_err(), ReplayError::UnclosedSpan);
        assert_eq!(replay_lines(&log, mode).unwrap_err(), ReplayError::UnclosedSpan);
    }
}

#[test]
fn partially_closed_tree_fails() {
    let mut log = EventLog::new();
    enter(&mut log, 0, "A");
    enter(&mut log, 1, "B");
    leave(&mut log, 2);
    assert_eq!(lines(&log, Mode::Merged).unwrap_err(), ReplayError::UnclosedSpan);
}

#[test]
fn context_isolation() {
    // Two independent logs with colliding tags never influence each other's
    // reconstruction.
    let mut one = EventLog::new();
    enter(&mut one, 0, "shared");
    leave(&mut one, 10);
    let first = lines(&one, Mode::Merged).unwrap();

    let mut other = EventLog::new();
    enter(&mut other, 0, "shared");
    leave(&mut other, 99);
    enter(&mut other, 99, "extra");
    leave(&mut other, 100);

    let again = lines(&one, Mode::Merged).unwrap();
    assert_eq!(first, again);
    assert_eq!(first, vec!["shared 10".to_string()]);
    let others = lines(&other, Mode::Merged).unwrap();
    assert_eq!(
        others,
        vec!["shared 99".to_string(), "extra 1".to_string()]
    );
}

#[test]
fn clear_empties_the_log() {
    let mut log = EventLog::new();
    enter(&mut log, 0, "A");
    leave(&mut log, 1);
    assert_eq!(log.events().len(), 2);
    clear(&mut log);
    assert_eq!(log.events().len(), 0);
    assert!(lines(&log, Mode::TimeAxis).unwrap().is_empty());
}

#[test]
fn start_and_end_record_paired_events() {
    let mut log = EventLog::new();
    start(&mut log, EventData::Start(Start::Section { name: "work" }));
    end(&mut log);
    assert_eq!(log.events().len(), 2);
    assert!(matches!(log.events()[0].data, EventData::Start(_)));
    assert!(matches!(log.events()[1].data, EventData::End));
    // The recorded log is balanced, so every mode replays it.
    assert!(lines(&log, Mode::TimeAxis).is_ok());
    assert!(lines(&log, Mode::Merged).is_ok());
    assert!(lines(&log, Mode::OwnTime).is_ok());
}

#[test]
fn start_guard_records_one_enter() {
    let mut log = EventLog::new();
    let _guard: SpanGuard = start_guard(&mut log, EventData::Start(Start::Func {
        signature: "guarded",
    }));
    assert_eq!(log.events().len(), 1);
    end(&mut log);
    assert!(lines(&log, Mode::TimeAxis).is_ok());
}

#[test]
fn span_guard_token_constructs() {
    let _token = SpanGuard::new();
}

#[test]
fn profiling_is_enabled() {
    assert!(enabled());
}

#[test]
fn time_sample_subtraction() {
    assert_eq!(TimeSample::from_ticks(10).sub(TimeSample::from_ticks(4)), 6);
    // A non-monotonic pair wraps silently.
    assert_eq!(
        TimeSample::from_ticks(4).sub(TimeSample::from_ticks(10)),
        u64::MAX - 5
    );
    let now = TimeSample::now();
    let later = TimeSample::now();
    let _elapsed = later.sub(now);
}
