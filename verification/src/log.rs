//! The event log: an append-only, per-context ordered sequence of
//! enter/leave events, owned exclusively by its execution context.
//!
//! Across the recorded lifetime of a context the enter/leave events must be
//! well nested, like balanced brackets; replay checks this and refuses a log
//! that breaks it.

use vstd::prelude::*;

use crate::time::TimeSample;

verus! {

/// The label recorded when a span is entered: the signature of a function or
/// method, or the name of a section, chosen at the instrumentation site.
#[derive(Copy, Clone)]
pub enum Start {
    Method { typ: &'static str, signature: &'static str },
    Func { signature: &'static str },
    Section { name: &'static str },
}

/// The mathematical shape of a [`Start`]: each label as a sequence of
/// characters.
pub ghost enum StartView {
    Method { typ: Seq<char>, signature: Seq<char> },
    Func { signature: Seq<char> },
    Section { name: Seq<char> },
}

impl View for Start {
    type V = StartView;

    open spec fn view(&self) -> StartView {
        match *self {
            Start::Method { typ, signature } => StartView::Method {
                typ: typ@,
                signature: signature@,
            },
            Start::Func { signature } => StartView::Func { signature: signature@ },
            Start::Section { name } => StartView::Section { name: name@ },
        }
    }
}

/// What one event records: entering a span, with its label, or leaving the
/// most recently entered, still-open span.
#[derive(Copy, Clone)]
pub enum EventData {
    Start(Start),
    End,
}

/// The mathematical shape of an [`EventData`].
pub ghost enum EventDataView {
    Start(StartView),
    End,
}

impl View for EventData {
    type V = EventDataView;

    open spec fn view(&self) -> EventDataView {
        match *self {
            EventData::Start(ref s) => EventDataView::Start(s@),
            EventData::End => EventDataView::End,
        }
    }
}

/// A tiny record of a method call which, when played back, reconstructs a
/// profiling state.
pub struct Event {
    pub time: TimeSample,
    pub data: EventData,
}

/// The mathematical shape of an [`Event`]: its clock sample as a plain
/// number, and what it records.
pub ghost struct EventView {
    pub time: u64,
    pub data: EventDataView,
}

impl View for Event {
    type V = EventView;

    open spec fn view(&self) -> EventView {
        EventView { time: self.time@, data: self.data@ }
    }
}

/// An append-only sequence of events, scoped to exactly one execution
/// context. Its view is the sequence of recorded events.
pub struct EventLog {
    events: Vec<Event>,
}

impl View for EventLog {
    type V = Seq<EventView>;

    closed spec fn view(&self) -> Seq<EventView> {
        self.events@.map_values(|e: Event| e@)
    }
}

impl EventLog {
    /// An empty log, with room reserved so that early recording does not pay
    /// for growth.
    pub fn new() -> (r: EventLog)
        ensures
            r@ == Seq::<EventView>::empty(),
    {
        let events = Vec::with_capacity(2048);
        assert(events@.map_values(|e: Event| e@) =~= Seq::<EventView>::empty());
        EventLog { events }
    }

    /// The recorded events, in order, for replay.
    pub fn events(&self) -> (r: &Vec<Event>)
        ensures
            r@.map_values(|e: Event| e@) == self@,
    {
        &self.events
    }

    /// Appends one event as given, so that a log can also be rebuilt from
    /// plain recorded values.
    pub fn record(&mut self, event: Event)
        ensures
            final(self)@ == old(self)@.push(event@),
    {
        let ghost prior = self.events@;
        self.events.push(event);
        assert(self.events@.map_values(|e: Event| e@) =~= prior.map_values(|e: Event| e@).push(
            self.events@.last()@,
        ));
    }
}

/// A scoped token handed out when a span is entered. It is bound to the
/// context that created it; the surrounding program arranges that each token
/// leads to exactly one matching leave, even on early exit.
pub struct SpanGuard {
    _private: (),
}

impl SpanGuard {
    pub fn new() -> SpanGuard {
        SpanGuard { _private: () }
    }
}

/// Appends an enter or leave event stamped with the clock's current sample.
/// The sample itself is whatever the clock returned; everything else about
/// the log is pinned down.
pub fn start(log: &mut EventLog, data: EventData)
    ensures
        final(log)@.len() == old(log)@.len() + 1,
        final(log)@ == old(log)@.push(final(log)@.last()),
        final(log)@.last().data == data@,
{
    let time = TimeSample::now();
    log.record(Event { time, data });
    assert(final(log)@ =~= old(log)@.push(final(log)@.last()));
}

/// Finishes the most recently started span by appending a leave event.
pub fn end(log: &mut EventLog)
    ensures
        final(log)@.len() == old(log)@.len() + 1,
        final(log)@ == old(log)@.push(final(log)@.last()),
        final(log)@.last().data == EventDataView::End,
{
    start(log, EventData::End);
}

/// Starts a span and hands back the scoped token for it.
pub fn start_guard(log: &mut EventLog, data: EventData) -> (guard: SpanGuard)
    ensures
        final(log)@.len() == old(log)@.len() + 1,
        final(log)@ == old(log)@.push(final(log)@.last()),
        final(log)@.last().data == data@,
{
    start(log, data);
    SpanGuard::new()
}

/// Truncates the log to empty between recording sessions; reserved storage
/// is kept to amortize growth across repeated runs.
pub fn clear(log: &mut EventLog)
    ensures
        final(log)@ == Seq::<EventView>::empty(),
{
    log.clear_events();
}

impl EventLog {
    /// Empties the log without giving up its reserved storage.
    pub fn clear_events(&mut self)
        ensures
            final(self)@ == Seq::<EventView>::empty(),
    {
        self.events.clear();
        assert(self.events@.map_values(|e: Event| e@) =~= Seq::<EventView>::empty());
    }
}

} // verus!
