//! Replaying an event log: the tree reconstructor and the three aggregation
//! strategies that turn a flat event stream into weighted path lines.
//!
//! Replay walks the log once with an explicit stack of open spans. Each mode
//! is specified by a fold over the event sequence, and each executable pass
//! is proved to compute exactly that fold.

use vstd::prelude::*;

use crate::log::{EventLog, EventView, EventDataView, Start, StartView};
use crate::text::{push_char, spec_line_text, format_line};
use vstd::wrapping::u64_specs;

verus! {

/// Characters reserved by the downstream line format: the path separator and
/// the space that separates a path from its weight.
pub open spec fn keeps_char(c: char) -> bool {
    c != ';' && c != ' '
}

/// A tag with the reserved characters stripped; there is no escape mechanism
/// in the line format, so they are removed rather than escaped.
pub open spec fn spec_sanitize(s: Seq<char>) -> Seq<char> {
    s.filter(|c: char| keeps_char(c))
}

/// Strips the characters that the line format reserves from a tag.
pub fn inferno_valid_chars(s: &str) -> (r: String)
    ensures
        r@ == spec_sanitize(s@),
{
    let len = s.unicode_len();
    let mut out = String::new();
    let mut i: usize = 0;
    while i < len
        invariant
            i <= len,
            len == s@.len(),
            out@ == spec_sanitize(s@.take(i as int)),
        decreases len - i,
    {
        let c = s.get_char(i);
        if !(c == ';' || c == ' ') {
            push_char(&mut out, c);
        }
        proof {
            reveal(Seq::filter);
            assert(s@.take(i + 1).drop_last() =~= s@.take(i as int));
            assert(s@.take(i + 1).last() == s@[i as int]);
        }
        i = i + 1;
    }
    proof {
        assert(s@.take(len as int) =~= s@);
    }
    out
}

/// The label of a span before sanitization: a method is its type and its
/// signature joined by a double colon; functions and sections are their own
/// text.
pub open spec fn spec_format_start(tag: StartView) -> Seq<char> {
    match tag {
        StartView::Method { typ, signature } => typ + seq![':', ':'] + signature,
        StartView::Func { signature } => signature,
        StartView::Section { name } => name,
    }
}

/// Renders a recorded label as text.
pub fn format_start(tag: &Start) -> (r: String)
    ensures
        r@ == spec_format_start(tag@),
{
    let mut s = String::new();
    match *tag {
        Start::Method { typ, signature } => {
            s.append(typ);
            s.append("::");
            s.append(signature);
            proof {
                reveal_strlit("::");
                assert("::"@ =~= seq![':', ':']);
                assert(s@ =~= spec_format_start(tag@));
            }
        },
        Start::Func { signature } => {
            s.append(signature);
            proof {
                assert(s@ =~= spec_format_start(tag@));
            }
        },
        Start::Section { name } => {
            s.append(name);
            proof {
                assert(s@ =~= spec_format_start(tag@));
            }
        },
    }
    s
}

/// How the lines of one replay are laid out.
#[derive(Copy, Clone, PartialEq, Eq, Structural, Debug)]
pub enum Mode {
    /// One bar per completed span in temporal order; consecutive lines with
    /// an identical path are merged.
    TimeAxis,
    /// All occurrences of an identical path collapse into one bar holding
    /// the path's self time.
    Merged,
    /// A ranked bar chart of self times, encoded purely through synthetic
    /// paths and marginal weights.
    OwnTime,
}

/// Why a replay was refused: the log broke the well-nestedness invariant, so
/// no well-defined call tree exists and no output is emitted.
#[derive(Copy, Clone, PartialEq, Eq, Structural, Debug)]
pub enum ReplayError {
    /// A leave event arrived while no span was open.
    ExtraLeave,
    /// The log ended while spans were still open.
    UnclosedSpan,
}

/// One weighted output line: a separator-joined path and its duration.
#[derive(Debug)]
pub struct Line {
    pub name: String,
    pub duration: u64,
}

/// The mathematical shape of a [`Line`].
pub ghost struct LineView {
    pub name: Seq<char>,
    pub duration: u64,
}

impl View for Line {
    type V = LineView;

    open spec fn view(&self) -> LineView {
        LineView { name: self.name@, duration: self.duration }
    }
}

impl Clone for Line {
    fn clone(&self) -> (r: Self)
        ensures
            r@ == self@,
    {
        Line { name: self.name.clone(), duration: self.duration }
    }
}

/// One open span on the reconstruction stack: its fully qualified path and
/// the sample at which it is considered to have opened.
struct Frame {
    name: String,
    start: crate::time::TimeSample,
}

/// The mathematical shape of a [`Frame`].
pub ghost struct FrameView {
    pub name: Seq<char>,
    pub start: u64,
}

impl View for Frame {
    type V = FrameView;

    closed spec fn view(&self) -> FrameView {
        FrameView { name: self.name@, start: self.start@ }
    }
}

/// The views of a sequence of output lines.
pub open spec fn lines_view(v: Seq<Line>) -> Seq<LineView> {
    v.map_values(|l: Line| l@)
}

/// The views of the reconstruction stack.
spec fn frames_view(v: Seq<Frame>) -> Seq<FrameView> {
    v.map_values(|f: Frame| f@)
}

/// How many spans are open after these events: enters minus leaves.
pub open spec fn spec_depth(events: Seq<EventView>) -> int
    decreases events.len(),
{
    if events.len() == 0 {
        0
    } else {
        spec_depth(events.drop_last()) + match events.last().data {
            EventDataView::Start(_) => 1int,
            EventDataView::End => -1int,
        }
    }
}

/// No prefix of the log closes more spans than it has opened.
pub open spec fn spec_closes_ok(events: Seq<EventView>) -> bool {
    forall|i: int| 0 <= i <= events.len() ==> spec_depth(#[trigger] events.take(i)) >= 0
}

/// The enter/leave events are well nested, like balanced brackets: every
/// leave closes the most recently opened, still-open enter, and nothing is
/// left open at the end.
pub open spec fn spec_well_nested(events: Seq<EventView>) -> bool {
    spec_closes_ok(events) && spec_depth(events) == 0
}

/// The qualified path of a span entered above the given stack: the parent's
/// path, the separator, and the sanitized tag; or just the sanitized tag at
/// the root.
pub open spec fn spec_enter_name(stack: Seq<FrameView>, tag: StartView) -> Seq<char> {
    if stack.len() > 0 {
        stack.last().name + seq![';'] + spec_sanitize(spec_format_start(tag))
    } else {
        spec_sanitize(spec_format_start(tag))
    }
}

/// Appends one weighted line, except that a line whose path equals the last
/// line's path is merged into it by adding the weights.
pub open spec fn spec_push_line(lines: Seq<LineView>, name: Seq<char>, duration: u64) -> Seq<
    LineView,
> {
    if lines.len() > 0 && lines.last().name == name {
        lines.update(
            lines.len() - 1,
            LineView { name, duration: u64_specs::wrapping_add(lines.last().duration, duration) },
        )
    } else {
        lines.push(LineView { name, duration })
    }
}

/// The working state of a chronological replay: the open spans and the lines
/// emitted so far.
pub ghost struct ChronoState {
    pub stack: Seq<FrameView>,
    pub lines: Seq<LineView>,
}

/// One event applied to a chronological replay. An enter pushes the span's
/// frame. A leave pops the top frame, emits its line, and advances the
/// parent's open time to the leave time, so that the parent's own elapsed
/// time excludes time already attributed to the closed child; a leave with
/// no open span has no meaning.
pub open spec fn spec_chrono_step(st: ChronoState, ev: EventView) -> Option<ChronoState> {
    match ev.data {
        EventDataView::Start(tag) => Some(
            ChronoState {
                stack: st.stack.push(
                    FrameView { name: spec_enter_name(st.stack, tag), start: ev.time },
                ),
                lines: st.lines,
            },
        ),
        EventDataView::End => {
            if st.stack.len() == 0 {
                None
            } else {
                let frame = st.stack.last();
                let elapsed = u64_specs::wrapping_sub(ev.time, frame.start);
                let popped = st.stack.drop_last();
                let stack = if popped.len() > 0 {
                    popped.update(
                        popped.len() - 1,
                        FrameView { name: popped.last().name, start: ev.time },
                    )
                } else {
                    popped
                };
                Some(ChronoState { stack, lines: spec_push_line(st.lines, frame.name, elapsed) })
            }
        },
    }
}

/// The chronological replay of a whole log, or nothing if some leave had no
/// open span.
pub open spec fn spec_chrono_replay(events: Seq<EventView>) -> Option<ChronoState>
    decreases events.len(),
{
    if events.len() == 0 {
        Some(ChronoState { stack: Seq::empty(), lines: Seq::empty() })
    } else {
        match spec_chrono_replay(events.drop_last()) {
            None => None,
            Some(st) => spec_chrono_step(st, events.last()),
        }
    }
}

/// Lines with zero weight carry no visual information and are dropped.
pub open spec fn nonzero_lines(lines: Seq<LineView>) -> Seq<LineView> {
    lines.filter(|l: LineView| l.duration != 0)
}

/// The chronological output of a log: the emitted lines with zero weights
/// suppressed, defined exactly when the log is well nested.
pub open spec fn spec_chrono_lines(events: Seq<EventView>) -> Option<Seq<LineView>> {
    match spec_chrono_replay(events) {
        None => None,
        Some(st) => if st.stack.len() == 0 {
            Some(nonzero_lines(st.lines))
        } else {
            None
        },
    }
}

/// A replay reaches the end of the log exactly when no prefix over-closes,
/// and the stack then holds one frame per span still open.
pub proof fn lemma_chrono_replay_depth(events: Seq<EventView>)
    ensures
        spec_chrono_replay(events) is Some <==> spec_closes_ok(events),
        spec_chrono_replay(events) matches Some(st) ==> st.stack.len() == spec_depth(events),
    decreases events.len(),
{
    if events.len() == 0 {
        assert(events.take(0) =~= events);
        assert(spec_closes_ok(events)) by {
            assert forall|i: int| 0 <= i <= events.len() implies spec_depth(
                #[trigger] events.take(i),
            ) >= 0 by {
                assert(events.take(i) =~= events);
            }
        }
    } else {
        let pre = events.drop_last();
        lemma_chrono_replay_depth(pre);
        assert forall|i: int| 0 <= i <= pre.len() implies events.take(i) =~= pre.take(i) by {
            assert(events.take(i) =~= pre.take(i));
        }
        assert(events.take(events.len() as int) =~= events);
        assert(events.take(pre.len() as int) =~= pre);
        if spec_closes_ok(events) {
            assert(spec_closes_ok(pre)) by {
                assert forall|i: int| 0 <= i <= pre.len() implies spec_depth(
                    #[trigger] pre.take(i),
                ) >= 0 by {
                    assert(pre.take(i) == events.take(i));
                    assert(spec_depth(events.take(i)) >= 0);
                }
            }
            assert(spec_depth(events) >= 0);
            assert(spec_depth(pre) >= 0);
            let st = spec_chrono_replay(pre)->Some_0;
            assert(st.stack.len() == spec_depth(pre));
            match events.last().data {
                EventDataView::Start(_) => {
                    assert(spec_chrono_replay(events) is Some);
                },
                EventDataView::End => {
                    assert(spec_depth(events) == spec_depth(pre) - 1);
                    assert(st.stack.len() > 0);
                    assert(spec_chrono_replay(events) is Some);
                },
            }
        } else {
            if spec_closes_ok(pre) {
                // The failing prefix must be the whole log: a leave at depth
                // zero.
                let i = choose|i: int|
                    0 <= i <= events.len() && spec_depth(events.take(i)) < 0;
                if i <= pre.len() {
                    assert(spec_depth(pre.take(i)) < 0);
                    assert(false);
                }
                assert(i == events.len());
                assert(spec_depth(events) < 0);
                assert(spec_depth(pre) >= 0);
                let st = spec_chrono_replay(pre)->Some_0;
                assert(st.stack.len() == spec_depth(pre));
                match events.last().data {
                    EventDataView::Start(_) => {
                        assert(spec_depth(events) == spec_depth(pre) + 1);
                        assert(false);
                    },
                    EventDataView::End => {
                        assert(spec_depth(pre) == 0);
                        assert(st.stack.len() == 0);
                        assert(spec_chrono_replay(events) is None);
                    },
                }
            } else {
                assert(spec_chrono_replay(pre) is None);
            }
        }
    }
}

/// Once a prefix is well behaved, so is every shorter prefix.
pub proof fn lemma_closes_ok_prefix(events: Seq<EventView>, j: int)
    requires
        0 <= j <= events.len(),
        spec_closes_ok(events),
    ensures
        spec_closes_ok(events.take(j)),
{
    assert forall|i: int| 0 <= i <= events.take(j).len() implies spec_depth(
        #[trigger] events.take(j).take(i),
    ) >= 0 by {
        assert(events.take(j).take(i) =~= events.take(i));
    }
}

/// Appends one line, merging it into the previous line when the paths are
/// identical.
fn push_line(lines: &mut Vec<Line>, name: String, duration: u64)
    ensures
        lines_view(final(lines)@) == spec_push_line(lines_view(old(lines)@), name@, duration),
{
    let ghost pre = lines_view(old(lines)@);
    if lines.len() > 0 {
        let j = lines.len() - 1;
        if lines[j].name == name {
            let prev = lines.pop().unwrap();
            let merged = Line { name, duration: prev.duration.wrapping_add(duration) };
            lines.push(merged);
            proof {
                assert(lines_view(lines@) =~= pre.update(
                    pre.len() - 1,
                    LineView {
                        name: name@,
                        duration: u64_specs::wrapping_add(pre.last().duration, duration),
                    },
                ));
            }
            return ;
        }
    }
    lines.push(Line { name, duration });
    proof {
        assert(lines_view(lines@) =~= pre.push(LineView { name: name@, duration }));
    }
}

/// The qualified path of a span entered above the current stack.
fn qualified_name(stack: &Vec<Frame>, tag: &Start) -> (r: String)
    ensures
        r@ == spec_enter_name(frames_view(stack@), tag@),
{
    let text = format_start(tag);
    let sanitized = inferno_valid_chars(text.as_str());
    if stack.len() > 0 {
        let parent = &stack[stack.len() - 1];
        let mut name = parent.name.clone();
        push_char(&mut name, ';');
        name.append(sanitized.as_str());
        proof {
            assert(frames_view(stack@).last() == stack@.last()@);
            assert(name@ =~= spec_enter_name(frames_view(stack@), tag@));
        }
        name
    } else {
        sanitized
    }
}

/// Keeps only the lines with a non-zero weight.
fn filter_nonzero(v: &Vec<Line>) -> (r: Vec<Line>)
    ensures
        lines_view(r@) == nonzero_lines(lines_view(v@)),
{
    let ghost lv = lines_view(v@);
    let mut out: Vec<Line> = Vec::new();
    let mut i: usize = 0;
    proof {
        assert(lines_view(out@) =~= Seq::<LineView>::empty());
        assert(lv.take(0) =~= Seq::<LineView>::empty());
        reveal(Seq::filter);
    }
    while i < v.len()
        invariant
            i <= v@.len(),
            lv == lines_view(v@),
            lines_view(out@) == nonzero_lines(lv.take(i as int)),
        decreases v@.len() - i,
    {
        let ghost pre_out = lines_view(out@);
        if v[i].duration != 0 {
            let copied = v[i].clone();
            out.push(copied);
            proof {
                assert(lines_view(out@) =~= pre_out.push(lv[i as int]));
            }
        }
        proof {
            reveal(Seq::filter);
            assert(lv.take(i + 1).drop_last() =~= lv.take(i as int));
            assert(lv.take(i + 1).last() == lv[i as int]);
        }
        i = i + 1;
    }
    proof {
        assert(lv.take(v@.len() as int) =~= lv);
    }
    out
}

/// Replays the log chronologically: one line per completed span in temporal
/// order, adjacent identical paths merged, zero weights suppressed. Fails,
/// emitting nothing, exactly when the log is not well nested.
fn chrono_pass(log: &EventLog) -> (r: Result<Vec<Line>, ReplayError>)
    ensures
        r matches Ok(v) ==> spec_chrono_lines(log@) == Some(lines_view(v@)),
        r is Ok <==> spec_well_nested(log@),
        r == Err::<Vec<Line>, ReplayError>(ReplayError::ExtraLeave) <==> !spec_closes_ok(log@),
        r == Err::<Vec<Line>, ReplayError>(ReplayError::UnclosedSpan) <==> (spec_closes_ok(log@)
            && spec_depth(log@) != 0),
{
    let ghost evs = log@;
    let events = log.events();
    let n = events.len();
    let mut stack: Vec<Frame> = Vec::new();
    let mut lines: Vec<Line> = Vec::new();
    let mut i: usize = 0;
    proof {
        assert(evs.take(0) =~= Seq::<EventView>::empty());
        assert(frames_view(stack@) =~= Seq::<FrameView>::empty());
        assert(lines_view(lines@) =~= Seq::<LineView>::empty());
    }
    while i < n
        invariant
            i <= n,
            n == evs.len(),
            evs == log@,
            evs == events@.map_values(|e: crate::log::Event| e@),
            spec_chrono_replay(evs.take(i as int)) == Some(
                ChronoState { stack: frames_view(stack@), lines: lines_view(lines@) },
            ),
        decreases n - i,
    {
        let ghost st = ChronoState { stack: frames_view(stack@), lines: lines_view(lines@) };
        proof {
            assert(evs.take(i + 1).drop_last() =~= evs.take(i as int));
            assert(evs.take(i + 1).last() == evs[i as int]);
            assert(evs[i as int] == events@[i as int]@);
        }
        let time = events[i].time;
        match events[i].data {
            crate::log::EventData::Start(tag) => {
                let name = qualified_name(&stack, &tag);
                stack.push(Frame { name, start: time });
                proof {
                    assert(frames_view(stack@) =~= st.stack.push(
                        FrameView { name: spec_enter_name(st.stack, tag@), start: time@ },
                    ));
                }
            },
            crate::log::EventData::End => {
                if stack.len() == 0 {
                    proof {
                        assert(spec_chrono_replay(evs.take(i + 1)) is None);
                        lemma_chrono_replay_depth(evs.take(i + 1));
                        if spec_closes_ok(evs) {
                            lemma_closes_ok_prefix(evs, i + 1);
                        }
                    }
                    return Err(ReplayError::ExtraLeave);
                }
                let frame = stack.pop().unwrap();
                proof {
                    assert(frame@ == st.stack.last());
                    assert(frames_view(stack@) =~= st.stack.drop_last());
                }
                let elapsed = time.sub(frame.start);
                push_line(&mut lines, frame.name, elapsed);
                if stack.len() > 0 {
                    let ghost popped = frames_view(stack@);
                    let mut parent = stack.pop().unwrap();
                    parent.start = time;
                    stack.push(parent);
                    proof {
                        assert(frames_view(stack@) =~= popped.update(
                            popped.len() - 1,
                            FrameView { name: popped.last().name, start: time@ },
                        ));
                    }
                }
            },
        }
        i = i + 1;
    }
    proof {
        assert(evs.take(n as int) =~= evs);
        lemma_chrono_replay_depth(evs);
    }
    if stack.len() > 0 {
        return Err(ReplayError::UnclosedSpan);
    }
    let out = filter_nonzero(&lines);
    Ok(out)
}

/// A signed running total kept in an unsigned accumulator: additions and
/// subtractions wrap.
pub open spec fn bump_value(v: u64, delta: u64, add: bool) -> u64 {
    if add {
        u64_specs::wrapping_add(v, delta)
    } else {
        u64_specs::wrapping_sub(v, delta)
    }
}

/// Adds to (or subtracts from) the accumulator of the first entry with this
/// path, creating the entry from zero if the path is new. Entries keep their
/// first-seen order.
pub open spec fn spec_table_bump(
    table: Seq<LineView>,
    name: Seq<char>,
    delta: u64,
    add: bool,
) -> Seq<LineView>
    decreases table.len(),
{
    if table.len() == 0 {
        seq![LineView { name, duration: bump_value(0, delta, add) }]
    } else if table[0].name == name {
        seq![LineView { name, duration: bump_value(table[0].duration, delta, add) }]
            + table.drop_first()
    } else {
        seq![table[0]] + spec_table_bump(table.drop_first(), name, delta, add)
    }
}

/// Bumping a path that sits at index `j`, with no earlier entry of that
/// path, updates exactly that entry.
proof fn lemma_table_bump_found(t: Seq<LineView>, name: Seq<char>, delta: u64, add: bool, j: int)
    requires
        0 <= j < t.len(),
        t[j].name == name,
        forall|k: int| 0 <= k < j ==> t[k].name != name,
    ensures
        spec_table_bump(t, name, delta, add) == t.update(
            j,
            LineView { name, duration: bump_value(t[j].duration, delta, add) },
        ),
    decreases j,
{
    if j == 0 {
        assert(spec_table_bump(t, name, delta, add) =~= t.update(
            0,
            LineView { name, duration: bump_value(t[0].duration, delta, add) },
        ));
    } else {
        let rest = t.drop_first();
        assert(forall|k: int| 0 <= k < j - 1 ==> rest[k].name != name);
        lemma_table_bump_found(rest, name, delta, add, j - 1);
        assert(spec_table_bump(t, name, delta, add) =~= t.update(
            j,
            LineView { name, duration: bump_value(t[j].duration, delta, add) },
        ));
    }
}

/// Bumping a path that is absent appends a fresh entry at the end.
proof fn lemma_table_bump_absent(t: Seq<LineView>, name: Seq<char>, delta: u64, add: bool)
    requires
        forall|k: int| 0 <= k < t.len() ==> t[k].name != name,
    ensures
        spec_table_bump(t, name, delta, add) == t.push(
            LineView { name, duration: bump_value(0, delta, add) },
        ),
    decreases t.len(),
{
    if t.len() == 0 {
        assert(spec_table_bump(t, name, delta, add) =~= t.push(
            LineView { name, duration: bump_value(0, delta, add) },
        ));
    } else {
        lemma_table_bump_absent(t.drop_first(), name, delta, add);
        assert(spec_table_bump(t, name, delta, add) =~= t.push(
            LineView { name, duration: bump_value(0, delta, add) },
        ));
    }
}

/// Adds to (or subtracts from) the running accumulator for a path.
fn table_bump(table: &mut Vec<Line>, name: String, delta: u64, add: bool)
    ensures
        lines_view(final(table)@) == spec_table_bump(lines_view(old(table)@), name@, delta, add),
{
    let ghost t = lines_view(old(table)@);
    let mut j: usize = 0;
    while j < table.len()
        invariant
            j <= table@.len(),
            t == lines_view(old(table)@),
            lines_view(table@) == t,
            forall|k: int| 0 <= k < j ==> t[k].name != name@,
        decreases table@.len() - j,
    {
        if table[j].name == name {
            let old_line = table.remove(j);
            let new_duration = if add {
                old_line.duration.wrapping_add(delta)
            } else {
                old_line.duration.wrapping_sub(delta)
            };
            table.insert(j, Line { name, duration: new_duration });
            proof {
                lemma_table_bump_found(t, name@, delta, add, j as int);
                assert(lines_view(table@) =~= t.update(
                    j as int,
                    LineView { name: name@, duration: bump_value(t[j as int].duration, delta, add) },
                ));
            }
            return ;
        }
        j = j + 1;
    }
    let new_duration = if add {
        delta
    } else {
        0u64.wrapping_sub(delta)
    };
    table.push(Line { name, duration: new_duration });
    proof {
        lemma_table_bump_absent(t, name@, delta, add);
        assert(lines_view(table@) =~= t.push(
            LineView { name: name@, duration: bump_value(0, delta, add) },
        ));
    }
}

/// The working state of a merged replay: the open spans and the running
/// accumulator per path.
pub ghost struct MergedState {
    pub stack: Seq<FrameView>,
    pub table: Seq<LineView>,
}

/// One event applied to a merged replay. An enter pushes the span's frame.
/// A leave pops the top frame, adds the elapsed time to the span's own
/// accumulator, and subtracts it from the parent's, so that each accumulator
/// ends up holding exclusive (self) time only.
pub open spec fn spec_merged_step(st: MergedState, ev: EventView) -> Option<MergedState> {
    match ev.data {
        EventDataView::Start(tag) => Some(
            MergedState {
                stack: st.stack.push(
                    FrameView { name: spec_enter_name(st.stack, tag), start: ev.time },
                ),
                table: st.table,
            },
        ),
        EventDataView::End => {
            if st.stack.len() == 0 {
                None
            } else {
                let frame = st.stack.last();
                let elapsed = u64_specs::wrapping_sub(ev.time, frame.start);
                let popped = st.stack.drop_last();
                let credited = spec_table_bump(st.table, frame.name, elapsed, true);
                let table = if popped.len() > 0 {
                    spec_table_bump(credited, popped.last().name, elapsed, false)
                } else {
                    credited
                };
                Some(MergedState { stack: popped, table })
            }
        },
    }
}

/// The merged replay of a whole log, or nothing if some leave had no open
/// span.
pub open spec fn spec_merged_replay(events: Seq<EventView>) -> Option<MergedState>
    decreases events.len(),
{
    if events.len() == 0 {
        Some(MergedState { stack: Seq::empty(), table: Seq::empty() })
    } else {
        match spec_merged_replay(events.drop_last()) {
            None => None,
            Some(st) => spec_merged_step(st, events.last()),
        }
    }
}

/// The merged output of a log: one line per path with non-zero self time, in
/// first-seen order, defined exactly when the log is well nested.
pub open spec fn spec_merged_lines(events: Seq<EventView>) -> Option<Seq<LineView>> {
    match spec_merged_replay(events) {
        None => None,
        Some(st) => if st.stack.len() == 0 {
            Some(nonzero_lines(st.table))
        } else {
            None
        },
    }
}

/// The merged twin of [`lemma_chrono_replay_depth`].
pub proof fn lemma_merged_replay_depth(events: Seq<EventView>)
    ensures
        spec_merged_replay(events) is Some <==> spec_closes_ok(events),
        spec_merged_replay(events) matches Some(st) ==> st.stack.len() == spec_depth(events),
    decreases events.len(),
{
    if events.len() == 0 {
        assert(events.take(0) =~= events);
        assert(spec_closes_ok(events)) by {
            assert forall|i: int| 0 <= i <= events.len() implies spec_depth(
                #[trigger] events.take(i),
            ) >= 0 by {
                assert(events.take(i) =~= events);
            }
        }
    } else {
        let pre = events.drop_last();
        lemma_merged_replay_depth(pre);
        assert(events.take(events.len() as int) =~= events);
        assert(events.take(pre.len() as int) =~= pre);
        if spec_closes_ok(events) {
            assert(spec_closes_ok(pre)) by {
                assert forall|i: int| 0 <= i <= pre.len() implies spec_depth(
                    #[trigger] pre.take(i),
                ) >= 0 by {
                    assert(pre.take(i) =~= events.take(i));
                    assert(spec_depth(events.take(i)) >= 0);
                }
            }
            let st = spec_merged_replay(pre)->Some_0;
            assert(st.stack.len() == spec_depth(pre));
            assert(spec_depth(pre) >= 0);
            match events.last().data {
                EventDataView::Start(_) => {
                    assert(spec_merged_replay(events) is Some);
                },
                EventDataView::End => {
                    assert(spec_depth(events) == spec_depth(pre) - 1);
                    assert(st.stack.len() > 0);
                    assert(spec_merged_replay(events) is Some);
                },
            }
        } else {
            if spec_closes_ok(pre) {
                let i = choose|i: int|
                    0 <= i <= events.len() && spec_depth(events.take(i)) < 0;
                if i <= pre.len() {
                    assert(pre.take(i) =~= events.take(i));
                    assert(spec_depth(pre.take(i)) < 0);
                    assert(false);
                }
                assert(i == events.len());
                assert(spec_depth(events) < 0);
                let st = spec_merged_replay(pre)->Some_0;
                assert(st.stack.len() == spec_depth(pre));
                match events.last().data {
                    EventDataView::Start(_) => {
                        assert(spec_depth(events) == spec_depth(pre) + 1);
                        assert(false);
                    },
                    EventDataView::End => {
                        assert(spec_depth(pre) == 0);
                        assert(st.stack.len() == 0);
                        assert(spec_merged_replay(events) is None);
                    },
                }
            } else {
                assert(spec_merged_replay(pre) is None);
            }
        }
    }
}

/// Replays the log and returns the full accumulator table, in first-seen
/// order, before zero suppression.
fn merged_core(log: &EventLog) -> (r: Result<Vec<Line>, ReplayError>)
    ensures
        r matches Ok(v) ==> (spec_merged_replay(log@) matches Some(st) && st.stack.len() == 0
            && lines_view(v@) == st.table),
        r is Ok <==> spec_well_nested(log@),
        r == Err::<Vec<Line>, ReplayError>(ReplayError::ExtraLeave) <==> !spec_closes_ok(log@),
        r == Err::<Vec<Line>, ReplayError>(ReplayError::UnclosedSpan) <==> (spec_closes_ok(log@)
            && spec_depth(log@) != 0),
{
    let ghost evs = log@;
    let events = log.events();
    let n = events.len();
    let mut stack: Vec<Frame> = Vec::new();
    let mut table: Vec<Line> = Vec::new();
    let mut i: usize = 0;
    proof {
        assert(evs.take(0) =~= Seq::<EventView>::empty());
        assert(frames_view(stack@) =~= Seq::<FrameView>::empty());
        assert(lines_view(table@) =~= Seq::<LineView>::empty());
    }
    while i < n
        invariant
            i <= n,
            n == evs.len(),
            evs == log@,
            evs == events@.map_values(|e: crate::log::Event| e@),
            spec_merged_replay(evs.take(i as int)) == Some(
                MergedState { stack: frames_view(stack@), table: lines_view(table@) },
            ),
        decreases n - i,
    {
        let ghost st = MergedState { stack: frames_view(stack@), table: lines_view(table@) };
        proof {
            assert(evs.take(i + 1).drop_last() =~= evs.take(i as int));
            assert(evs.take(i + 1).last() == evs[i as int]);
            assert(evs[i as int] == events@[i as int]@);
        }
        let time = events[i].time;
        match events[i].data {
            crate::log::EventData::Start(tag) => {
                let name = qualified_name(&stack, &tag);
                stack.push(Frame { name, start: time });
                proof {
                    assert(frames_view(stack@) =~= st.stack.push(
                        FrameView { name: spec_enter_name(st.stack, tag@), start: time@ },
                    ));
                }
            },
            crate::log::EventData::End => {
                if stack.len() == 0 {
                    proof {
                        assert(spec_merged_replay(evs.take(i + 1)) is None);
                        lemma_merged_replay_depth(evs.take(i + 1));
                        if spec_closes_ok(evs) {
                            lemma_closes_ok_prefix(evs, i + 1);
                        }
                    }
                    return Err(ReplayError::ExtraLeave);
                }
                let frame = stack.pop().unwrap();
                proof {
                    assert(frame@ == st.stack.last());
                    assert(frames_view(stack@) =~= st.stack.drop_last());
                }
                let elapsed = time.sub(frame.start);
                table_bump(&mut table, frame.name, elapsed, true);
                if stack.len() > 0 {
                    let parent_name = stack[stack.len() - 1].name.clone();
                    proof {
                        assert(parent_name@ == frames_view(stack@).last().name);
                    }
                    table_bump(&mut table, parent_name, elapsed, false);
                }
            },
        }
        i = i + 1;
    }
    proof {
        assert(evs.take(n as int) =~= evs);
        lemma_merged_replay_depth(evs);
    }
    if stack.len() > 0 {
        return Err(ReplayError::UnclosedSpan);
    }
    Ok(table)
}

/// Weights never increase along the sequence.
pub open spec fn sorted_desc(s: Seq<LineView>) -> bool {
    forall|a: int, b: int| 0 <= a <= b < s.len() ==> s[a].duration >= s[b].duration
}

/// Inserts a line after every line with an equal or larger weight, so that
/// an element entering later never overtakes an equal one: ties keep their
/// first-seen order.
pub open spec fn spec_insert_desc(s: Seq<LineView>, x: LineView) -> Seq<LineView>
    decreases s.len(),
{
    if s.len() == 0 {
        seq![x]
    } else if s[0].duration >= x.duration {
        seq![s[0]] + spec_insert_desc(s.drop_first(), x)
    } else {
        seq![x] + s
    }
}

/// Sorts lines by weight, largest first; ties keep their first-seen order.
pub open spec fn spec_sort_desc(s: Seq<LineView>) -> Seq<LineView>
    decreases s.len(),
{
    if s.len() == 0 {
        Seq::empty()
    } else {
        spec_insert_desc(spec_sort_desc(s.drop_last()), s.last())
    }
}

/// Inserting keeps the sequence sorted.
proof fn lemma_insert_desc_sorted(s: Seq<LineView>, x: LineView)
    requires
        sorted_desc(s),
    ensures
        sorted_desc(spec_insert_desc(s, x)),
    decreases s.len(),
{
    if s.len() == 0 {
    } else if s[0].duration >= x.duration {
        assert(sorted_desc(s.drop_first()));
        lemma_insert_desc_sorted(s.drop_first(), x);
        let r = spec_insert_desc(s, x);
        let rest = spec_insert_desc(s.drop_first(), x);
        lemma_insert_desc_head(s.drop_first(), x);
        assert forall|a: int, b: int| 0 <= a <= b < r.len() implies r[a].duration
            >= r[b].duration by {
            if a == 0 && b > 0 {
                // The tail element is the inserted line or one of the old
                // tail; the old head dominates both.
                assert(r[b] == rest[b - 1]);
            } else if a > 0 {
                assert(r[a] == rest[a - 1]);
                assert(r[b] == rest[b - 1]);
            }
        }
    } else {
    }
}

/// Every element of an insertion's result is either the inserted line or an
/// element of the original sequence.
proof fn lemma_insert_desc_head(s: Seq<LineView>, x: LineView)
    ensures
        spec_insert_desc(s, x).len() == s.len() + 1,
        forall|i: int|
            0 <= i < s.len() + 1 ==> (spec_insert_desc(s, x)[i] == x || exists|k: int|
                0 <= k < s.len() && spec_insert_desc(s, x)[i] == s[k]),
    decreases s.len(),
{
    if s.len() == 0 {
    } else if s[0].duration >= x.duration {
        lemma_insert_desc_head(s.drop_first(), x);
        let r = spec_insert_desc(s, x);
        let rest = spec_insert_desc(s.drop_first(), x);
        assert forall|i: int|
            0 <= i < s.len() + 1 implies (r[i] == x || exists|k: int|
            0 <= k < s.len() && r[i] == s[k]) by {
            if i == 0 {
                assert(r[0] == s[0]);
            } else {
                assert(r[i] == rest[i - 1]);
                if rest[i - 1] == x {
                } else {
                    let k = choose|k: int|
                        0 <= k < s.drop_first().len() && rest[i - 1] == s.drop_first()[k];
                    assert(r[i] == s[k + 1]);
                }
            }
        }
    } else {
    }
}

/// Sorting sorts.
pub proof fn lemma_sort_desc_sorted(s: Seq<LineView>)
    ensures
        sorted_desc(spec_sort_desc(s)),
    decreases s.len(),
{
    if s.len() == 0 {
    } else {
        lemma_sort_desc_sorted(s.drop_last());
        lemma_insert_desc_sorted(spec_sort_desc(s.drop_last()), s.last());
    }
}

/// Inserting at the first index whose weight is smaller is the same as the
/// recursive insertion.
proof fn lemma_insert_desc_at(s: Seq<LineView>, x: LineView, j: int)
    requires
        0 <= j <= s.len(),
        forall|k: int| 0 <= k < j ==> s[k].duration >= x.duration,
        j < s.len() ==> s[j].duration < x.duration,
    ensures
        spec_insert_desc(s, x) == s.insert(j, x),
    decreases j,
{
    if s.len() == 0 {
        assert(spec_insert_desc(s, x) =~= s.insert(0, x));
    } else if j == 0 {
        assert(s[0].duration < x.duration || s.len() == 0);
        assert(spec_insert_desc(s, x) =~= s.insert(0, x));
    } else {
        lemma_insert_desc_at(s.drop_first(), x, j - 1);
        assert(spec_insert_desc(s, x) =~= s.insert(j, x));
    }
}

/// Sorts the lines by weight, largest first, keeping ties in their
/// first-seen order.
fn sort_lines_desc(v: &Vec<Line>) -> (r: Vec<Line>)
    ensures
        lines_view(r@) == spec_sort_desc(lines_view(v@)),
        sorted_desc(lines_view(r@)),
{
    let ghost lv = lines_view(v@);
    let mut out: Vec<Line> = Vec::new();
    let mut i: usize = 0;
    proof {
        assert(lv.take(0) =~= Seq::<LineView>::empty());
        assert(lines_view(out@) =~= Seq::<LineView>::empty());
    }
    while i < v.len()
        invariant
            i <= v@.len(),
            lv == lines_view(v@),
            lines_view(out@) == spec_sort_desc(lv.take(i as int)),
        decreases v@.len() - i,
    {
        let ghost pre_out = lines_view(out@);
        let x = v[i].clone();
        let mut j: usize = 0;
        while j < out.len()
            invariant
                j <= out@.len(),
                lines_view(out@) == pre_out,
                forall|k: int| 0 <= k < j ==> pre_out[k].duration >= x@.duration,
            ensures
                j <= out@.len(),
                forall|k: int| 0 <= k < j ==> pre_out[k].duration >= x@.duration,
                j < out@.len() ==> pre_out[j as int].duration < x@.duration,
            decreases out@.len() - j,
        {
            if out[j].duration < x.duration {
                break ;
            }
            j = j + 1;
        }
        out.insert(j, x);
        proof {
            lemma_insert_desc_at(pre_out, lv[i as int], j as int);
            assert(lines_view(out@) =~= pre_out.insert(j as int, lv[i as int]));
            assert(lv.take(i + 1).drop_last() =~= lv.take(i as int));
            assert(lv.take(i + 1).last() == lv[i as int]);
        }
        i = i + 1;
    }
    proof {
        assert(lv.take(v@.len() as int) =~= lv);
        lemma_sort_desc_sorted(lv);
    }
    out
}

/// Replaces each weight with the margin to the next-ranked weight; the last
/// weight is kept. On a sorted sequence the margins are exact differences.
pub open spec fn spec_rank_diff(s: Seq<LineView>) -> Seq<LineView> {
    Seq::new(
        s.len(),
        |i: int|
            if i + 1 < s.len() {
                LineView {
                    name: s[i].name,
                    duration: u64_specs::wrapping_sub(s[i].duration, s[i + 1].duration),
                }
            } else {
                s[i]
            },
    )
}

/// The margins of a sorted sequence, computed with ordinary subtraction.
fn rank_diff_lines(v: &Vec<Line>) -> (r: Vec<Line>)
    requires
        sorted_desc(lines_view(v@)),
    ensures
        lines_view(r@) == spec_rank_diff(lines_view(v@)),
{
    let ghost lv = lines_view(v@);
    let mut out: Vec<Line> = Vec::new();
    let mut i: usize = 0;
    proof {
        assert(lines_view(out@) =~= spec_rank_diff(lv).take(0));
    }
    while i < v.len()
        invariant
            i <= v@.len(),
            lv == lines_view(v@),
            sorted_desc(lv),
            lines_view(out@) == spec_rank_diff(lv).take(i as int),
        decreases v@.len() - i,
    {
        let ghost pre_out = lines_view(out@);
        if i + 1 < v.len() {
            assert(lv[i as int].duration >= lv[i + 1].duration);
            let diffed = Line {
                name: v[i].name.clone(),
                duration: v[i].duration - v[i + 1].duration,
            };
            out.push(diffed);
        } else {
            let copied = v[i].clone();
            out.push(copied);
        }
        proof {
            assert(lines_view(out@) =~= pre_out.push(spec_rank_diff(lv)[i as int]));
            assert(spec_rank_diff(lv).take(i + 1) =~= pre_out.push(spec_rank_diff(lv)[i as int]));
        }
        i = i + 1;
    }
    proof {
        assert(spec_rank_diff(lv).take(v@.len() as int) =~= spec_rank_diff(lv));
    }
    out
}

/// The synthetic path of rank `i`: the names of ranks zero through `i`
/// joined by the separator.
pub open spec fn spec_joined_name(s: Seq<LineView>, i: int) -> Seq<char>
    decreases i,
{
    if i <= 0 {
        s[0].name
    } else {
        spec_joined_name(s, i - 1) + seq![';'] + s[i].name
    }
}

/// Each ranked line under its synthetic cumulative path.
pub open spec fn spec_rank_paths(s: Seq<LineView>) -> Seq<LineView> {
    Seq::new(s.len(), |i: int| LineView { name: spec_joined_name(s, i), duration: s[i].duration })
}

/// Builds the running concatenation of ranked names, keeping each rank's
/// weight.
fn rank_paths_lines(v: &Vec<Line>) -> (r: Vec<Line>)
    ensures
        lines_view(r@) == spec_rank_paths(lines_view(v@)),
{
    let ghost lv = lines_view(v@);
    let mut out: Vec<Line> = Vec::new();
    proof {
        assert(lines_view(out@) =~= spec_rank_paths(lv).take(0));
    }
    if v.len() == 0 {
        proof {
            assert(spec_rank_paths(lv).take(0) =~= spec_rank_paths(lv));
        }
        return out;
    }
    let mut path: String = v[0].name.clone();
    let mut i: usize = 0;
    while i < v.len()
        invariant
            i <= v@.len(),
            v@.len() > 0,
            lv == lines_view(v@),
            path@ == spec_joined_name(lv, if i == 0 { 0 } else { i - 1 as int }),
            lines_view(out@) == spec_rank_paths(lv).take(i as int),
        decreases v@.len() - i,
    {
        let ghost pre_out = lines_view(out@);
        if i > 0 {
            push_char(&mut path, ';');
            path.append(v[i].name.as_str());
            proof {
                assert(path@ =~= spec_joined_name(lv, i as int));
            }
        }
        out.push(Line { name: path.clone(), duration: v[i].duration });
        proof {
            assert(lines_view(out@) =~= pre_out.push(spec_rank_paths(lv)[i as int]));
            assert(spec_rank_paths(lv).take(i + 1) =~= pre_out.push(spec_rank_paths(lv)[i as int]));
        }
        i = i + 1;
    }
    proof {
        assert(spec_rank_paths(lv).take(v@.len() as int) =~= spec_rank_paths(lv));
    }
    out
}

/// The ranked output of a log: merged self times sorted largest first,
/// diff-encoded and stacked under running paths, zero margins suppressed,
/// defined exactly when the log is well nested.
pub open spec fn spec_owntime_lines(events: Seq<EventView>) -> Option<Seq<LineView>> {
    match spec_merged_lines(events) {
        None => None,
        Some(entries) => Some(
            nonzero_lines(spec_rank_paths(spec_rank_diff(spec_sort_desc(entries)))),
        ),
    }
}

/// What one replay of a log produces in the chosen mode, or nothing if the
/// log is not well nested.
pub open spec fn spec_mode_lines(events: Seq<EventView>, mode: Mode) -> Option<Seq<LineView>> {
    match mode {
        Mode::TimeAxis => spec_chrono_lines(events),
        Mode::Merged => spec_merged_lines(events),
        Mode::OwnTime => spec_owntime_lines(events),
    }
}

/// No filtered line has zero weight.
proof fn lemma_nonzero_lines_nonzero(s: Seq<LineView>)
    ensures
        forall|i: int|
            0 <= i < nonzero_lines(s).len() ==> (#[trigger] nonzero_lines(s)[i]).duration != 0,
{
    assert forall|i: int|
        0 <= i < nonzero_lines(s).len() implies (#[trigger] nonzero_lines(s)[i]).duration
        != 0 by {
        s.lemma_filter_pred(|l: LineView| l.duration != 0, i);
    }
}

/// Replays the log in the chosen mode and returns the weighted lines, every
/// one with a non-zero weight. Fails, emitting nothing, exactly when the
/// log is not well nested: with the extra-leave error when some leave had
/// no open span, and with the unclosed-span error when spans were left open
/// at the end.
pub fn replay_lines(log: &EventLog, mode: Mode) -> (r: Result<Vec<Line>, ReplayError>)
    ensures
        r matches Ok(v) ==> spec_mode_lines(log@, mode) == Some(lines_view(v@)),
        r is Ok <==> spec_well_nested(log@),
        r == Err::<Vec<Line>, ReplayError>(ReplayError::ExtraLeave) <==> !spec_closes_ok(log@),
        r == Err::<Vec<Line>, ReplayError>(ReplayError::UnclosedSpan) <==> (spec_closes_ok(log@)
            && spec_depth(log@) != 0),
        r matches Ok(v) ==> forall|k: int|
            0 <= k < v@.len() ==> (#[trigger] lines_view(v@)[k]).duration != 0,
{
    match mode {
        Mode::TimeAxis => {
            let r = chrono_pass(log);
            proof {
                if r is Ok {
                    lemma_nonzero_lines_nonzero(spec_chrono_replay(log@)->Some_0.lines);
                }
            }
            r
        },
        Mode::Merged => {
            match merged_core(log) {
                Ok(t) => {
                    let out = filter_nonzero(&t);
                    proof {
                        lemma_nonzero_lines_nonzero(lines_view(t@));
                    }
                    Ok(out)
                },
                Err(e) => Err(e),
            }
        },
        Mode::OwnTime => {
            match merged_core(log) {
                Ok(t) => {
                    let entries = filter_nonzero(&t);
                    let sorted = sort_lines_desc(&entries);
                    let diffed = rank_diff_lines(&sorted);
                    let paths = rank_paths_lines(&diffed);
                    let out = filter_nonzero(&paths);
                    proof {
                        lemma_nonzero_lines_nonzero(lines_view(paths@));
                    }
                    Ok(out)
                },
                Err(e) => Err(e),
            }
        },
    }
}

/// Replays the log in the chosen mode and renders each weighted line as
/// text, in the order the mode defines.
pub fn lines(log: &EventLog, mode: Mode) -> (r: Result<Vec<String>, ReplayError>)
    ensures
        r is Ok <==> spec_well_nested(log@),
        r matches Ok(v) ==> (spec_mode_lines(log@, mode) matches Some(ls) && v@.len() == ls.len()
            && forall|k: int|
            0 <= k < ls.len() ==> (#[trigger] v@[k])@ == spec_line_text(
                ls[k].name,
                ls[k].duration,
            )),
        r == Err::<Vec<String>, ReplayError>(ReplayError::ExtraLeave) <==> !spec_closes_ok(log@),
        r == Err::<Vec<String>, ReplayError>(ReplayError::UnclosedSpan) <==> (spec_closes_ok(log@)
            && spec_depth(log@) != 0),
{
    match replay_lines(log, mode) {
        Err(e) => Err(e),
        Ok(weighted) => {
            let ghost lsv = lines_view(weighted@);
            let mut out: Vec<String> = Vec::new();
            let mut i: usize = 0;
            while i < weighted.len()
                invariant
                    i <= weighted@.len(),
                    lsv == lines_view(weighted@),
                    forall|k: int| 0 <= k < lsv.len() ==> (#[trigger] lsv[k]).duration != 0,
                    out@.len() == i,
                    forall|k: int|
                        0 <= k < i ==> (#[trigger] out@[k])@ == spec_line_text(
                            lsv[k].name,
                            lsv[k].duration,
                        ),
                decreases weighted@.len() - i,
            {
                proof {
                    assert(lsv[i as int] == weighted@[i as int]@);
                }
                match format_line(weighted[i].name.as_str(), weighted[i].duration) {
                    Some(s) => {
                        out.push(s);
                    },
                    None => {
                        proof {
                            assert(false);
                        }
                    },
                }
                i = i + 1;
            }
            Ok(out)
        },
    }
}

} // verus!
