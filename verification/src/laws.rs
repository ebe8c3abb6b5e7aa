//! Laws of the replay engine, stated once and proved for every input: what
//! sanitization, replay definedness, and the ranked encoding guarantee.

use vstd::prelude::*;

use crate::log::{EventLog, EventView, EventDataView, StartView};
use crate::replay::{
    spec_sanitize, keeps_char, spec_mode_lines, spec_well_nested, spec_chrono_lines,
    spec_merged_lines, spec_owntime_lines, spec_chrono_replay, spec_merged_replay, spec_depth,
    lemma_chrono_replay_depth, lemma_merged_replay_depth, Mode, LineView, sorted_desc,
    spec_rank_diff, nonzero_lines, spec_push_line, spec_enter_name, spec_format_start, FrameView,
    ChronoState, MergedState, spec_table_bump, spec_sort_desc, spec_insert_desc, spec_rank_paths,
    lemma_sort_desc_sorted, spec_merged_step,
};
use vstd::wrapping::u64_specs;

verus! {

/// Filtering a sequence every element of which already satisfies the
/// predicate keeps it unchanged.
proof fn lemma_filter_all<A>(s: Seq<A>, pred: spec_fn(A) -> bool)
    requires
        forall|i: int| 0 <= i < s.len() ==> pred(#[trigger] s[i]),
    ensures
        s.filter(pred) == s,
    decreases s.len(),
{
    reveal(Seq::filter);
    if s.len() == 0 {
        assert(s.filter(pred) =~= s);
    } else {
        assert(forall|i: int| 0 <= i < s.drop_last().len() ==> pred(#[trigger] s.drop_last()[i]));
        lemma_filter_all(s.drop_last(), pred);
        assert(s.filter(pred) =~= s);
    }
}

/// A sanitized tag holds none of the reserved characters.
pub proof fn lemma_sanitize_clean(s: Seq<char>)
    ensures
        forall|i: int| 0 <= i < spec_sanitize(s).len() ==> keeps_char(#[trigger] spec_sanitize(s)[i]),
{
    assert forall|i: int| 0 <= i < spec_sanitize(s).len() implies keeps_char(
        #[trigger] spec_sanitize(s)[i],
    ) by {
        s.lemma_filter_pred(|c: char| keeps_char(c), i);
    }
}

/// Sanitizing is idempotent: a tag already stripped of the reserved
/// characters passes through unchanged, so re-sanitizing a built path is a
/// no-op.
pub proof fn lemma_sanitize_idempotent(s: Seq<char>)
    ensures
        spec_sanitize(spec_sanitize(s)) == spec_sanitize(s),
{
    lemma_sanitize_clean(s);
    lemma_filter_all(spec_sanitize(s), |c: char| keeps_char(c));
}

/// Replay produces output exactly for the well-nested logs, in every mode: a
/// log with a stray leave or a trailing open enter yields nothing at all.
pub proof fn lemma_balanced_replay_defined(events: Seq<EventView>, mode: Mode)
    ensures
        spec_well_nested(events) <==> spec_mode_lines(events, mode) is Some,
{
    lemma_chrono_replay_depth(events);
    lemma_merged_replay_depth(events);
}

/// Events recorded by two independent logs never influence each other's
/// reconstruction: what a replay yields is a function of that log's own
/// events alone, so logs with the same events agree in every mode, and no
/// other log enters into it.
pub proof fn lemma_context_isolation(a: &EventLog, b: &EventLog, mode: Mode)
    requires
        a@ == b@,
    ensures
        spec_mode_lines(a@, mode) == spec_mode_lines(b@, mode),
{
}

/// The path a span at even index `k` of a flat log renders under: its own
/// sanitized tag.
pub open spec fn flat_name(events: Seq<EventView>, k: int) -> Seq<char> {
    spec_sanitize(spec_format_start(events[k].data->Start_0))
}

/// The line one enter/leave pair of a flat log yields: the sanitized tag and
/// the elapsed time between the two samples.
pub open spec fn flat_span(enter: EventView, leave: EventView) -> LineView {
    LineView {
        name: spec_sanitize(spec_format_start(enter.data->Start_0)),
        duration: u64_specs::wrapping_sub(leave.time, enter.time),
    }
}

/// A flat log: enters and leaves strictly alternate, so every span closes
/// before the next opens and no span has children.
pub open spec fn flat_log(events: Seq<EventView>) -> bool {
    &&& events.len() % 2 == 0
    &&& forall|k: int|
        0 <= k < events.len() ==> (if k % 2 == 0 {
            (#[trigger] events[k]).data is Start
        } else {
            events[k].data is End
        })
}

/// No two consecutive spans of a flat log sanitize to the same tag, so no
/// adjacent merging occurs.
pub open spec fn distinct_adjacent_tags(events: Seq<EventView>) -> bool {
    forall|k: int|
        0 <= k && k + 2 < events.len() && k % 2 == 0 ==> #[trigger] flat_name(events, k)
            != flat_name(events, k + 2)
}

/// Replaying a flat log leaves an empty stack and one emitted line per
/// enter/leave pair, in order.
proof fn lemma_chrono_flat_state(events: Seq<EventView>)
    requires
        flat_log(events),
        distinct_adjacent_tags(events),
    ensures
        spec_chrono_replay(events) matches Some(st) && st.stack.len() == 0 && st.lines.len()
            == events.len() / 2 && forall|k: int|
            0 <= k < events.len() / 2 ==> #[trigger] st.lines[k] == flat_span(
                events[2 * k],
                events[2 * k + 1],
            ),
    decreases events.len(),
{
    if events.len() == 0 {
    } else {
        let n = events.len() as int;
        assert(events[n - 1].data is End);
        assert(events[n - 2].data is Start);
        let pre = events.take(n - 2);
        assert(flat_log(pre)) by {
            assert forall|k: int|
                0 <= k < pre.len() implies (if k % 2 == 0 {
                (#[trigger] pre[k]).data is Start
            } else {
                pre[k].data is End
            }) by {
                assert(pre[k] == events[k]);
            }
        }
        assert(distinct_adjacent_tags(pre)) by {
            assert forall|k: int|
                0 <= k && k + 2 < pre.len() && k % 2 == 0 implies #[trigger] flat_name(pre, k)
                != flat_name(pre, k + 2) by {
                assert(pre[k] == events[k]);
                assert(pre[k + 2] == events[k + 2]);
                assert(flat_name(pre, k) == flat_name(events, k));
                assert(flat_name(pre, k + 2) == flat_name(events, k + 2));
            }
        }
        lemma_chrono_flat_state(pre);
        let st_pre = spec_chrono_replay(pre)->Some_0;
        let e_enter = events[n - 2];
        let e_leave = events[n - 1];
        assert(events.drop_last() =~= events.take(n - 1));
        assert(events.take(n - 1).drop_last() =~= pre);
        assert(events.take(n - 1).last() == e_enter);
        assert(events.last() == e_leave);
        let frame = FrameView {
            name: spec_enter_name(st_pre.stack, e_enter.data->Start_0),
            start: e_enter.time,
        };
        let st1 = ChronoState { stack: st_pre.stack.push(frame), lines: st_pre.lines };
        assert(spec_chrono_replay(events.take(n - 1)) == Some(st1));
        assert(frame.name == flat_name(events, n - 2));
        assert(st1.stack.len() == 1);
        assert(st1.stack.last() == frame);
        assert(st1.stack.drop_last() =~= Seq::<FrameView>::empty());
        let emitted = flat_span(e_enter, e_leave);
        let new_lines = spec_push_line(st_pre.lines, frame.name, emitted.duration);
        assert(spec_chrono_replay(events) == Some(
            ChronoState { stack: st1.stack.drop_last(), lines: new_lines },
        ));
        if st_pre.lines.len() > 0 {
            let m = (n - 2) / 2;
            assert(st_pre.lines[m - 1] == flat_span(events.take(n - 2)[2 * (m - 1)], events.take(n - 2)[2 * (m - 1) + 1]));
            assert(pre[2 * (m - 1)] == events[n - 4]);
            assert(st_pre.lines.last().name == flat_name(events, n - 4));
            assert(flat_name(events, n - 4) != flat_name(events, n - 2));
            assert(new_lines == st_pre.lines.push(emitted));
        } else {
            assert(new_lines == st_pre.lines.push(emitted));
        }
        let st = spec_chrono_replay(events)->Some_0;
        assert forall|k: int|
            0 <= k < events.len() / 2 implies #[trigger] st.lines[k] == flat_span(
            events[2 * k],
            events[2 * k + 1],
        ) by {
            if k < events.len() / 2 - 1 {
                assert(st.lines[k] == st_pre.lines[k]);
                assert(st_pre.lines[k] == flat_span(pre[2 * k], pre[2 * k + 1]));
                assert(pre[2 * k] == events[2 * k]);
                assert(pre[2 * k + 1] == events[2 * k + 1]);
            } else {
                assert(2 * k == n - 2);
                assert(st.lines[k] == emitted);
            }
        }
    }
}

/// The balanced-log round trip: replaying a flat, well-nested log with
/// distinct adjacent tags and no zero-length span terminates with an empty
/// stack and yields, in chronological mode, exactly one line per leave,
/// weighted by the leave sample minus the matching enter sample.
pub proof fn lemma_balanced_round_trip(events: Seq<EventView>)
    requires
        flat_log(events),
        distinct_adjacent_tags(events),
        forall|k: int|
            0 <= k < events.len() / 2 ==> #[trigger] flat_span(
                events[2 * k],
                events[2 * k + 1],
            ).duration != 0,
    ensures
        spec_well_nested(events),
        spec_chrono_lines(events) matches Some(ls) && ls.len() == events.len() / 2 && forall|
            k: int,
        |
            0 <= k < events.len() / 2 ==> #[trigger] ls[k] == flat_span(
                events[2 * k],
                events[2 * k + 1],
            ),
{
    lemma_chrono_flat_state(events);
    lemma_chrono_replay_depth(events);
    let st = spec_chrono_replay(events)->Some_0;
    assert(spec_depth(events) == 0);
    assert forall|i: int| 0 <= i < st.lines.len() implies (#[trigger] st.lines[i]).duration
        != 0 by {
        assert(st.lines[i] == flat_span(events[2 * i], events[2 * i + 1]));
    }
    lemma_filter_all(st.lines, |l: LineView| l.duration != 0);
    assert(spec_chrono_lines(events) == Some(st.lines));
}

/// A two-level tree: one root span holding two consecutive child spans with
/// the same tag, as a recorded event sequence.
pub open spec fn two_level_log(
    a: StartView,
    b: StartView,
    t0: u64,
    t1: u64,
    t2: u64,
    t3: u64,
    t4: u64,
    t5: u64,
) -> Seq<EventView> {
    seq![
        EventView { time: t0, data: EventDataView::Start(a) },
        EventView { time: t1, data: EventDataView::Start(b) },
        EventView { time: t2, data: EventDataView::End },
        EventView { time: t3, data: EventDataView::Start(b) },
        EventView { time: t4, data: EventDataView::End },
        EventView { time: t5, data: EventDataView::End },
    ]
}

/// Merged self-time conservation: for a root span holding two child spans,
/// the child path accumulates the children's total elapsed time, and the
/// root path accumulates its own wall time minus the children's — the
/// children's time is never counted twice. When both self times are
/// non-zero the merged output is exactly these two lines, child first.
#[verifier::rlimit(60)]
pub proof fn lemma_merged_self_time_conservation(
    a: StartView,
    b: StartView,
    t0: u64,
    t1: u64,
    t2: u64,
    t3: u64,
    t4: u64,
    t5: u64,
)
    requires
        t0 <= t1 <= t2 <= t3 <= t4 <= t5,
    ensures
        ({
            let log = two_level_log(a, b, t0, t1, t2, t3, t4, t5);
            let name_a = spec_sanitize(spec_format_start(a));
            let name_b = name_a + seq![';'] + spec_sanitize(spec_format_start(b));
            let b_total = ((t2 - t1) + (t4 - t3)) as u64;
            let a_self = ((t5 - t0) - (t2 - t1) - (t4 - t3)) as u64;
            &&& spec_merged_replay(log) matches Some(st) && st.stack.len() == 0 && st.table
                == seq![
                LineView { name: name_b, duration: b_total },
                LineView { name: name_a, duration: a_self },
            ]
            &&& (b_total != 0 && a_self != 0) ==> spec_merged_lines(log) == Some(
                seq![
                    LineView { name: name_b, duration: b_total },
                    LineView { name: name_a, duration: a_self },
                ],
            )
        }),
{
    let log = two_level_log(a, b, t0, t1, t2, t3, t4, t5);
    let name_a = spec_sanitize(spec_format_start(a));
    let name_b = name_a + seq![';'] + spec_sanitize(spec_format_start(b));
    let e1 = u64_specs::wrapping_sub(t2, t1);
    let e2 = u64_specs::wrapping_sub(t4, t3);
    let ea = u64_specs::wrapping_sub(t5, t0);
    assert(e1 == t2 - t1);
    assert(e2 == t4 - t3);
    assert(ea == t5 - t0);
    assert(e1 + e2 <= ea);
    assert(name_b.len() == name_a.len() + 1 + spec_sanitize(spec_format_start(b)).len());
    assert(name_a != name_b);
    let f_a = FrameView { name: name_a, start: t0 };
    let f_b1 = FrameView { name: name_b, start: t1 };
    let f_b2 = FrameView { name: name_b, start: t3 };
    let empty_t = Seq::<LineView>::empty();
    let st0 = MergedState { stack: Seq::<FrameView>::empty(), table: empty_t };
    let st1 = MergedState { stack: seq![f_a], table: empty_t };
    let st2 = MergedState { stack: seq![f_a, f_b1], table: empty_t };
    let t_after_b1 = seq![
        LineView { name: name_b, duration: e1 },
        LineView { name: name_a, duration: u64_specs::wrapping_sub(0u64, e1) },
    ];
    let st3 = MergedState { stack: seq![f_a], table: t_after_b1 };
    let st4 = MergedState { stack: seq![f_a, f_b2], table: t_after_b1 };
    let a_acc = u64_specs::wrapping_sub(u64_specs::wrapping_sub(0u64, e1), e2);
    let t_after_b2 = seq![
        LineView { name: name_b, duration: u64_specs::wrapping_add(e1, e2) },
        LineView { name: name_a, duration: a_acc },
    ];
    let st5 = MergedState { stack: seq![f_a], table: t_after_b2 };
    let final_table = seq![
        LineView { name: name_b, duration: u64_specs::wrapping_add(e1, e2) },
        LineView { name: name_a, duration: u64_specs::wrapping_add(a_acc, ea) },
    ];
    let st6 = MergedState { stack: Seq::<FrameView>::empty(), table: final_table };
    // Step 1: the root opens.
    let p0 = log.take(0);
    let p1 = log.take(1);
    let p2 = log.take(2);
    let p3 = log.take(3);
    let p4 = log.take(4);
    let p5 = log.take(5);
    assert(p0 =~= Seq::<EventView>::empty());
    assert(spec_merged_replay(p0) == Some(st0));
    assert(p1.drop_last() =~= p0);
    assert(p1.last() == log[0]);
    assert(spec_merged_replay(p1) == spec_merged_step(st0, log[0]));
    assert(st0.stack.push(f_a) =~= st1.stack);
    assert(spec_merged_replay(p1) == Some(st1));
    // Step 2: the first child opens under the root.
    assert(p2.drop_last() =~= p1);
    assert(p2.last() == log[1]);
    assert(st1.stack.last() == f_a);
    assert(spec_enter_name(st1.stack, b) == name_b);
    assert(st1.stack.push(f_b1) =~= st2.stack);
    assert(spec_merged_replay(p2) == Some(st2));
    // Step 3: the first child closes; it is credited, the root debited.
    assert(p3.drop_last() =~= p2);
    assert(p3.last() == log[2]);
    assert(st2.stack.last() == f_b1);
    assert(st2.stack.drop_last() =~= seq![f_a]);
    let credited1 = spec_table_bump(empty_t, name_b, e1, true);
    assert(credited1 =~= seq![LineView { name: name_b, duration: e1 }]);
    assert(credited1.drop_first() =~= empty_t);
    let debited1 = spec_table_bump(credited1, name_a, e1, false);
    assert(spec_table_bump(empty_t, name_a, e1, false) =~= seq![
        LineView { name: name_a, duration: u64_specs::wrapping_sub(0u64, e1) },
    ]);
    assert(debited1 =~= t_after_b1);
    assert(spec_merged_replay(p3) == Some(st3));
    // Step 4: the second child opens under the root.
    assert(p4.drop_last() =~= p3);
    assert(p4.last() == log[3]);
    assert(st3.stack.last() == f_a);
    assert(spec_enter_name(st3.stack, b) == name_b);
    assert(st3.stack.push(f_b2) =~= st4.stack);
    assert(spec_merged_replay(p4) == Some(st4));
    // Step 5: the second child closes.
    assert(p5.drop_last() =~= p4);
    assert(p5.last() == log[4]);
    assert(st4.stack.last() == f_b2);
    assert(st4.stack.drop_last() =~= seq![f_a]);
    let credited2 = spec_table_bump(t_after_b1, name_b, e2, true);
    assert(credited2 =~= seq![
        LineView { name: name_b, duration: u64_specs::wrapping_add(e1, e2) },
        LineView { name: name_a, duration: u64_specs::wrapping_sub(0u64, e1) },
    ]);
    let debited2 = spec_table_bump(credited2, name_a, e2, false);
    assert(credited2.drop_first() =~= seq![
        LineView { name: name_a, duration: u64_specs::wrapping_sub(0u64, e1) },
    ]);
    assert(spec_table_bump(credited2.drop_first(), name_a, e2, false) =~= seq![
        LineView { name: name_a, duration: a_acc },
    ]);
    assert(debited2 =~= t_after_b2);
    assert(spec_merged_replay(p5) == Some(st5));
    // Step 6: the root closes; no parent remains to debit.
    assert(log.drop_last() =~= p5);
    assert(log.last() == log[5]);
    assert(st5.stack.last() == f_a);
    assert(st5.stack.drop_last() =~= Seq::<FrameView>::empty());
    let credited3 = spec_table_bump(t_after_b2, name_a, ea, true);
    assert(t_after_b2.drop_first() =~= seq![LineView { name: name_a, duration: a_acc }]);
    assert(spec_table_bump(t_after_b2.drop_first(), name_a, ea, true) =~= seq![
        LineView { name: name_a, duration: u64_specs::wrapping_add(a_acc, ea) },
    ]);
    assert(credited3 =~= final_table);
    assert(spec_merged_replay(log) == Some(st6));
    // The wrapped running totals equal the honest self times.
    assert(u64_specs::wrapping_add(e1, e2) == ((t2 - t1) + (t4 - t3)) as u64);
    assert(u64_specs::wrapping_add(a_acc, ea) == ((t5 - t0) - (t2 - t1) - (t4 - t3)) as u64);
    let b_total = ((t2 - t1) + (t4 - t3)) as u64;
    let a_self = ((t5 - t0) - (t2 - t1) - (t4 - t3)) as u64;
    assert(st6.table =~= seq![
        LineView { name: name_b, duration: b_total },
        LineView { name: name_a, duration: a_self },
    ]);
    if b_total != 0 && a_self != 0 {
        assert forall|i: int| 0 <= i < st6.table.len() implies (#[trigger] st6.table[i]).duration
            != 0 by {}
        lemma_filter_all(st6.table, |l: LineView| l.duration != 0);
    }
}

/// The weights of a sequence of lines, added up.
pub open spec fn sum_weights(s: Seq<LineView>) -> int
    decreases s.len(),
{
    if s.len() == 0 {
        0
    } else {
        sum_weights(s.drop_last()) + s.last().duration
    }
}

/// One more line adds one more weight.
proof fn lemma_sum_take_step(s: Seq<LineView>, k: int)
    requires
        0 <= k < s.len(),
    ensures
        sum_weights(s.take(k + 1)) == sum_weights(s.take(k)) + s[k].duration,
{
    assert(s.take(k + 1).drop_last() =~= s.take(k));
    assert(s.take(k + 1).last() == s[k]);
}

/// The first `k` margins of a sorted ranking telescope: they add up to the
/// gap between the largest weight and the weight of rank `k`.
proof fn lemma_rank_prefix_sum_k(s: Seq<LineView>, k: int)
    requires
        sorted_desc(s),
        1 <= k < s.len(),
    ensures
        sum_weights(spec_rank_diff(s).take(k)) == s[0].duration - s[k].duration,
    decreases k,
{
    let d = spec_rank_diff(s);
    assert(d[k - 1].duration == u64_specs::wrapping_sub(s[k - 1].duration, s[k].duration));
    assert(s[k - 1].duration >= s[k].duration);
    if k == 1 {
        assert(d.take(0) =~= Seq::<LineView>::empty());
        lemma_sum_take_step(d, 0);
    } else {
        lemma_rank_prefix_sum_k(s, k - 1);
        lemma_sum_take_step(d, k - 1);
    }
}

/// Two line sequences with the same weights in the same places have the
/// same total, whatever their paths.
proof fn lemma_sum_same_weights(s: Seq<LineView>, t: Seq<LineView>)
    requires
        s.len() == t.len(),
        forall|i: int| 0 <= i < s.len() ==> (#[trigger] s[i]).duration == t[i].duration,
    ensures
        sum_weights(s) == sum_weights(t),
    decreases s.len(),
{
    if s.len() > 0 {
        assert(forall|i: int|
            0 <= i < s.drop_last().len() ==> (#[trigger] s.drop_last()[i]).duration
                == t.drop_last()[i].duration);
        lemma_sum_same_weights(s.drop_last(), t.drop_last());
    }
}

/// Dropping zero-weight lines does not change the total weight.
proof fn lemma_sum_nonzero(s: Seq<LineView>)
    ensures
        sum_weights(nonzero_lines(s)) == sum_weights(s),
    decreases s.len(),
{
    reveal(Seq::filter);
    if s.len() > 0 {
        lemma_sum_nonzero(s.drop_last());
        let f = nonzero_lines(s);
        let fd = nonzero_lines(s.drop_last());
        if s.last().duration != 0 {
            assert(f == fd.push(s.last()));
            assert(f.drop_last() =~= fd);
            assert(f.last() == s.last());
        } else {
            assert(f == fd);
        }
    }
}

/// The head of a stable descending sort carries the largest weight.
proof fn lemma_sort_desc_head_max(s: Seq<LineView>)
    requires
        s.len() > 0,
    ensures
        spec_sort_desc(s).len() == s.len(),
        forall|k: int|
            0 <= k < s.len() ==> (#[trigger] s[k]).duration <= spec_sort_desc(s)[0].duration,
    decreases s.len(),
{
    lemma_sort_desc_len(s);
    let rest = spec_sort_desc(s.drop_last());
    let r = spec_insert_desc(rest, s.last());
    lemma_insert_desc_head_max(rest, s.last());
    if s.len() == 1 {
    } else {
        lemma_sort_desc_head_max(s.drop_last());
        assert forall|k: int| 0 <= k < s.len() implies (#[trigger] s[k]).duration <= r[0].duration by {
            if k < s.len() - 1 {
                assert(s.drop_last()[k] == s[k]);
                assert(s[k].duration <= rest[0].duration);
            }
        }
    }
}

/// Sorting keeps the length.
proof fn lemma_sort_desc_len(s: Seq<LineView>)
    ensures
        spec_sort_desc(s).len() == s.len(),
    decreases s.len(),
{
    if s.len() > 0 {
        lemma_sort_desc_len(s.drop_last());
        lemma_insert_desc_len(spec_sort_desc(s.drop_last()), s.last());
    }
}

/// Inserting adds one element.
proof fn lemma_insert_desc_len(s: Seq<LineView>, x: LineView)
    ensures
        spec_insert_desc(s, x).len() == s.len() + 1,
    decreases s.len(),
{
    if s.len() > 0 && s[0].duration >= x.duration {
        lemma_insert_desc_len(s.drop_first(), x);
    }
}

/// The head after an insertion is the heavier of the old head and the new
/// line.
proof fn lemma_insert_desc_head_max(s: Seq<LineView>, x: LineView)
    ensures
        spec_insert_desc(s, x).len() == s.len() + 1,
        x.duration <= spec_insert_desc(s, x)[0].duration,
        s.len() > 0 ==> s[0].duration <= spec_insert_desc(s, x)[0].duration,
{
    lemma_insert_desc_len(s, x);
}

/// The stacking law of the ranked encoding: over a sorted sequence of self
/// times, the diffed weights add up to the largest self time, and the first
/// `k` of them add up to the largest self time minus the self time of rank
/// `k` — so bars stacked in rank order reach exactly each self time in
/// turn.
pub proof fn lemma_rank_stacking(s: Seq<LineView>)
    requires
        sorted_desc(s),
        s.len() > 0,
    ensures
        sum_weights(spec_rank_diff(s)) == s[0].duration,
        forall|k: int|
            1 <= k < s.len() ==> sum_weights(spec_rank_diff(s).take(k)) == s[0].duration - s[
                k
            ].duration,
{
    let d = spec_rank_diff(s);
    assert forall|k: int| 1 <= k < s.len() implies sum_weights(d.take(k)) == s[0].duration - s[
        k
    ].duration by {
        lemma_rank_prefix_sum_k(s, k);
    }
    if s.len() == 1 {
        assert(d.take(0) =~= Seq::<LineView>::empty());
        lemma_sum_take_step(d, 0);
        assert(d.take(1) =~= d);
    } else {
        let n = s.len() as int;
        lemma_rank_prefix_sum_k(s, n - 1);
        lemma_sum_take_step(d, n - 1);
        assert(d[n - 1] == s[n - 1]);
        assert(d.take(n) =~= d);
    }
}

/// The ranked output conserves the largest self time: over a well-nested
/// log with at least one kept merged entry, the own-time lines' weights add
/// up exactly to the largest merged self time, and every merged self time
/// is at most that maximum.
pub proof fn lemma_owntime_total(events: Seq<EventView>)
    requires
        spec_merged_lines(events) matches Some(entries) && entries.len() > 0,
    ensures
        ({
            let entries = spec_merged_lines(events)->Some_0;
            let top = spec_sort_desc(entries)[0].duration;
            &&& spec_owntime_lines(events) matches Some(out) && sum_weights(out) == top
            &&& forall|k: int| 0 <= k < entries.len() ==> (#[trigger] entries[k]).duration <= top
        }),
{
    let entries = spec_merged_lines(events)->Some_0;
    let sorted = spec_sort_desc(entries);
    lemma_sort_desc_head_max(entries);
    lemma_sort_desc_sorted(entries);
    let diffed = spec_rank_diff(sorted);
    lemma_rank_stacking(sorted);
    let paths = spec_rank_paths(diffed);
    assert(forall|i: int| 0 <= i < paths.len() ==> (#[trigger] paths[i]).duration == diffed[i].duration);
    lemma_sum_same_weights(paths, diffed);
    lemma_sum_nonzero(paths);
}

} // verus!
