use firestorm::log::{Event, EventData, EventLog, Start};
use firestorm::replay::{format_start, inferno_valid_chars, lines, Mode};
use firestorm::tag::FmtStr;
use firestorm::text::format_line;
use firestorm::time::TimeSample;

#[test]
fn sanitize_strips_reserved_characters() {
    assert_eq!(inferno_valid_chars("a;b c"), "abc");
    assert_eq!(inferno_valid_chars(";; leading"), "leading");
    assert_eq!(inferno_valid_chars("plain"), "plain");
    assert_eq!(inferno_valid_chars(""), "");
    assert_eq!(inferno_valid_chars(" ; ; "), "");
}

#[test]
fn sanitize_is_idempotent() {
    for raw in ["a;b c", "fn main ()", "x", "", "; ;"] {
        let once = inferno_valid_chars(raw);
        let twice = inferno_valid_chars(&once);
        assert_eq!(once, twice);
    }
}

#[test]
fn sanitized_tags_flow_into_paths() {
    let mut log = EventLog::new();
    log.record(Event {
        time: TimeSample::from_ticks(0),
        data: EventData::Start(Start::Func { signature: "fn main ()" }),
    });
    log.record(Event {
        time: TimeSample::from_ticks(2),
        data: EventData::Start(Start::Func { signature: "inner; call" }),
    });
    log.record(Event { time: TimeSample::from_ticks(5), data: EventData::End });
    log.record(Event { time: TimeSample::from_ticks(9), data: EventData::End });
    let out = lines(&log, Mode::TimeAxis).unwrap();
    assert_eq!(
        out,
        vec!["fnmain();innercall 3".to_string(), "fnmain() 4".to_string()]
    );
}

#[test]
fn format_start_variants() {
    assert_eq!(
        format_start(&Start::Method { typ: "Widget", signature: "draw(&self)" }),
        "Widget::draw(&self)"
    );
    assert_eq!(format_start(&Start::Func { signature: "run()" }), "run()");
    assert_eq!(format_start(&Start::Section { name: "phase_one" }), "phase_one");
}

#[test]
fn format_line_joins_path_and_weight() {
    assert_eq!(format_line("abc", 120), Some("abc 120".to_string()));
    assert_eq!(format_line("a;b", 1), Some("a;b 1".to_string()));
    assert_eq!(format_line("abc", 0), None);
}

#[test]
fn format_line_large_weights() {
    assert_eq!(
        format_line("m", u64::MAX),
        Some("m 18446744073709551615".to_string())
    );
    assert_eq!(format_line("m", 1000000007), Some("m 1000000007".to_string()));
}

#[test]
fn fmt_str_renders_pieces() {
    assert_eq!(FmtStr::Str1("alpha").to_text(), "alpha");
    assert_eq!(FmtStr::Str2("alpha", "beta").to_text(), "alphabeta");
    assert_eq!(FmtStr::Str3("a", "b", "c").to_text(), "abc");
    assert_eq!(FmtStr::StrNum("row", 42).to_text(), "row42");
    assert_eq!(FmtStr::StrNum("zero", 0).to_text(), "zero0");
}

#[test]
fn fmt_str_from_str() {
    let f: FmtStr = "hello".into();
    assert_eq!(f.to_text(), "hello");
    let g = FmtStr::from("world");
    assert_eq!(g.to_text(), "world");
}
