//! The background flusher: when it drains the queue, when it stops, and what it has written by then.
use crate::entry::WalEntry;
use crate::error::WalError;
use crate::failure::OutsideStep;
use vstd::prelude::*;

verus! {

/// Where the flusher stands.
#[derive(Debug, Clone, Copy, PartialEq, Eq, Structural)]
pub enum FlusherState {
    /// It waits for the next tick or for a request to flush
    Waiting,
    /// It drains the queue
    Draining,
    /// It drains the queue for the last time
    FinalDraining,
    /// It has terminated; `flushed` says whether its last write succeeded
    Stopped { flushed: bool },
}

/// What happens to the flusher.
#[derive(Debug, Clone, Copy, PartialEq, Eq, Structural)]
pub enum FlusherEvent {
    /// The interval has passed, or a flush was requested
    Woken,
    /// The write of what was drained has ended; `succeeded` says how, and `shutdown` whether the
    /// flusher has been told to terminate by then
    Flushed { shutdown: bool, succeeded: bool },
}

/// How the flusher was found when the database was shut down.
#[derive(Debug)]
pub enum FlusherEnd {
    /// It was not running
    NotRunning,
    /// It has terminated, with the outcome of its last write
    Finished(Result<(), WalError>),
    /// It could not be waited for, for the given reason
    Lost(String),
}

impl FlusherState {
    /// The state after an event: each wake-up drains the queue; when the flusher has been told to
    /// terminate, it drains the queue once more and stops.
    pub open spec fn after(self, event: FlusherEvent) -> FlusherState {
        match (self, event) {
            (FlusherState::Waiting, FlusherEvent::Woken) => FlusherState::Draining,
            (FlusherState::Draining, FlusherEvent::Flushed { shutdown, .. }) => if shutdown {
                FlusherState::FinalDraining
            } else {
                FlusherState::Waiting
            },
            (
                FlusherState::FinalDraining,
                FlusherEvent::Flushed { succeeded, .. },
            ) => FlusherState::Stopped { flushed: succeeded },
            _ => self,
        }
    }

    /// The state after an event.
    pub fn next(self, event: FlusherEvent) -> (state: FlusherState)
        ensures
            state == self.after(event),
    {
        match self {
            FlusherState::Waiting => match event {
                FlusherEvent::Woken => FlusherState::Draining,
                FlusherEvent::Flushed { .. } => self,
            },
            FlusherState::Draining => match event {
                FlusherEvent::Woken => self,
                FlusherEvent::Flushed { shutdown, .. } => if shutdown {
                    FlusherState::FinalDraining
                } else {
                    FlusherState::Waiting
                },
            },
            FlusherState::FinalDraining => match event {
                FlusherEvent::Woken => self,
                FlusherEvent::Flushed { succeeded, .. } => FlusherState::Stopped {
                    flushed: succeeded,
                },
            },
            FlusherState::Stopped { .. } => self,
        }
    }

    /// Whether the flusher is to drain the queue in this state.
    pub open spec fn drains(self) -> bool {
        self is Draining || self is FinalDraining
    }
}

impl FlusherEnd {
    /// What a shutdown returns: an error where the last write failed, or where the flusher could not
    /// be waited for.
    pub fn result(self) -> (r: Result<(), WalError>)
        ensures
            match self {
                FlusherEnd::NotRunning => r is Ok,
                FlusherEnd::Finished(outcome) => r == outcome,
                FlusherEnd::Lost(reason) => r matches Err(e) && OutsideStep::JoinFlusher.is_failure(
                    e,
                    reason@,
                ),
            },
    {
        match self {
            FlusherEnd::NotRunning => Ok(()),
            FlusherEnd::Finished(outcome) => outcome,
            FlusherEnd::Lost(reason) => Err(OutsideStep::JoinFlusher.failure(reason.as_str())),
        }
    }
}

/// What happens to a log with a flusher: writers append to it, and the flusher goes on.
pub enum LogEvent {
    Appended(WalEntry),
    Flusher(FlusherEvent),
}

/// A log with a flusher: the entries that wait, those that are being written, and those that have
/// been.
pub struct FlusherRun {
    pub state: FlusherState,
    pub queue: Seq<WalEntry>,
    pub flying: Seq<WalEntry>,
    pub written: Seq<WalEntry>,
}

impl FlusherRun {
    /// A log that nothing was appended to, with a flusher that waits.
    pub open spec fn start() -> FlusherRun {
        FlusherRun {
            state: FlusherState::Waiting,
            queue: Seq::empty(),
            flying: Seq::empty(),
            written: Seq::empty(),
        }
    }

    /// The end of a write: what was being written has been, or waits again at the head of the
    /// queue.
    pub open spec fn ended(self, succeeded: bool) -> FlusherRun {
        if succeeded {
            FlusherRun {
                written: self.written + self.flying,
                flying: Seq::empty(),
                ..self
            }
        } else {
            FlusherRun { queue: self.flying + self.queue, flying: Seq::empty(), ..self }
        }
    }

    /// The flusher goes to another state, and takes the queue where it is to drain it there.
    pub open spec fn enters(self, state: FlusherState) -> FlusherRun {
        if state.drains() {
            FlusherRun {
                state,
                queue: Seq::empty(),
                flying: self.flying + self.queue,
                ..self
            }
        } else {
            FlusherRun { state, ..self }
        }
    }

    /// What becomes of the log with an event.
    pub open spec fn step(self, event: LogEvent) -> FlusherRun {
        match event {
            LogEvent::Appended(entry) => FlusherRun { queue: self.queue.push(entry), ..self },
            LogEvent::Flusher(e) => {
                let settled = match e {
                    FlusherEvent::Flushed { succeeded, .. } if self.state.drains() => self.ended(
                        succeeded,
                    ),
                    _ => self,
                };
                if self.state.after(e) == self.state {
                    settled
                } else {
                    settled.enters(self.state.after(e))
                }
            },
        }
    }
}

/// A log after several events.
pub open spec fn run(start: FlusherRun, events: Seq<LogEvent>) -> FlusherRun
    decreases events.len(),
{
    if events.len() == 0 {
        start
    } else {
        run(start, events.drop_last()).step(events.last())
    }
}

/// The entries that were appended in several events, in their order.
pub open spec fn appended_in(events: Seq<LogEvent>) -> Seq<WalEntry>
    decreases events.len(),
{
    if events.len() == 0 {
        Seq::empty()
    } else {
        match events.last() {
            LogEvent::Appended(entry) => appended_in(events.drop_last()).push(entry),
            _ => appended_in(events.drop_last()),
        }
    }
}

/// At every moment, each entry that was appended has been written, is being written, or waits, in
/// the order of the appends; and nothing is being written unless the flusher drains.
pub proof fn law_flusher_loses_nothing(events: Seq<LogEvent>)
    ensures
        ({
            let now = run(FlusherRun::start(), events);
            &&& now.written + now.flying + now.queue == appended_in(events)
            &&& !now.state.drains() ==> now.flying.len() == 0
        }),
    decreases events.len(),
{
    if events.len() > 0 {
        law_flusher_loses_nothing(events.drop_last());
        let now = run(FlusherRun::start(), events);
        assert(now.written + now.flying + now.queue =~= appended_in(events));
    }
}

proof fn lemma_after_final_drain(last: FlusherRun, after: Seq<LogEvent>)
    requires
        last.state is FinalDraining,
    ensures
        ({
            let now = run(last, after);
            &&& now.state is FinalDraining || now.state is Stopped
            &&& now.state is FinalDraining ==> now.written == last.written && now.flying
                == last.flying
            &&& now.state == (FlusherState::Stopped { flushed: true }) ==> now.written
                == last.written + last.flying && now.flying.len() == 0
            &&& now.state is FinalDraining || now.state == (FlusherState::Stopped { flushed: true })
                ==> now.queue == last.queue + appended_in(after)
        }),
    decreases after.len(),
{
    if after.len() == 0 {
        assert(last.queue + appended_in(after) =~= last.queue);
    } else {
        lemma_after_final_drain(last, after.drop_last());
        let now = run(last, after);
        if now.state is FinalDraining || now.state == (FlusherState::Stopped { flushed: true }) {
            assert(now.queue =~= last.queue + appended_in(after));
        }
    }
}

/// When a flusher that was told to terminate has stopped, and its last write succeeded, every entry
/// that was appended before it began its last drain has been written; and where nothing was
/// appended after that, nothing is left.
pub proof fn law_stopped_flusher_has_written_everything(
    before: Seq<LogEvent>,
    succeeded: bool,
    after: Seq<LogEvent>,
)
    requires
        run(FlusherRun::start(), before).state is Draining,
        run(
            FlusherRun::start(),
            before.push(LogEvent::Flusher(FlusherEvent::Flushed { shutdown: true, succeeded }))
                + after,
        ).state == (FlusherState::Stopped { flushed: true }),
    ensures
        ({
            let told = before.push(
                LogEvent::Flusher(FlusherEvent::Flushed { shutdown: true, succeeded }),
            );
            let now = run(FlusherRun::start(), told + after);
            &&& now.written == appended_in(before)
            &&& now.flying.len() == 0
            &&& now.queue == appended_in(after)
        }),
{
    let told = before.push(LogEvent::Flusher(FlusherEvent::Flushed { shutdown: true, succeeded }));
    assert(told.drop_last() =~= before);
    let last = run(FlusherRun::start(), told);
    law_flusher_loses_nothing(before);
    law_flusher_loses_nothing(told);
    lemma_run_splits(FlusherRun::start(), told, after);
    lemma_after_final_drain(last, after);
    assert(last.queue =~= Seq::<WalEntry>::empty());
    assert(last.written + last.flying + last.queue =~= last.written + last.flying);
    assert(last.queue + appended_in(after) =~= appended_in(after));
}

pub proof fn lemma_run_splits(start: FlusherRun, first: Seq<LogEvent>, second: Seq<LogEvent>)
    ensures
        run(start, first + second) == run(run(start, first), second),
    decreases second.len(),
{
    if second.len() == 0 {
        assert(first + second =~= first);
    } else {
        lemma_run_splits(start, first, second.drop_last());
        assert((first + second).drop_last() =~= first + second.drop_last());
    }
}

/// What happens in a wake-up with a successful write: the flusher is woken, writers go on meanwhile,
/// and the write ends.
pub open spec fn wake_up(during: Seq<LogEvent>) -> Seq<LogEvent> {
    seq![LogEvent::Flusher(FlusherEvent::Woken)] + during + seq![
        LogEvent::Flusher(FlusherEvent::Flushed { shutdown: false, succeeded: true }),
    ]
}

/// Each wake-up with a successful write writes everything that was appended before it, in the order
/// of the appends and each entry once; only what was appended meanwhile waits. Where nothing was,
/// nothing is left.
pub proof fn law_wake_up_writes_everything(before: Seq<LogEvent>, during: Seq<LogEvent>)
    requires
        run(FlusherRun::start(), before).state is Waiting,
        forall|i: int| 0 <= i < during.len() ==> (#[trigger] during[i]) is Appended,
    ensures
        ({
            let now = run(FlusherRun::start(), before + wake_up(during));
            &&& now.state is Waiting
            &&& now.written == appended_in(before)
            &&& now.flying.len() == 0
            &&& now.queue == appended_in(during)
        }),
{
    let start = run(FlusherRun::start(), before);
    let woken = seq![LogEvent::Flusher(FlusherEvent::Woken)];
    let events = wake_up(during);
    law_flusher_loses_nothing(before);
    lemma_run_splits(FlusherRun::start(), before, events);
    let draining = start.step(woken[0]);
    assert(woken.drop_last() =~= Seq::<LogEvent>::empty());
    assert(run(start, woken) == draining) by {
        reveal_with_fuel(run, 2);
    }
    lemma_run_splits(start, woken, during);
    lemma_appends(draining, during);
    assert(events.drop_last() =~= woken + during);
    assert(draining.queue + appended_in(during) =~= appended_in(during));
    assert(start.written + start.flying + start.queue =~= start.written + (start.flying
        + start.queue));
}

pub proof fn lemma_appends(start: FlusherRun, events: Seq<LogEvent>)
    requires
        forall|i: int| 0 <= i < events.len() ==> (#[trigger] events[i]) is Appended,
    ensures
        run(start, events) == (FlusherRun { queue: start.queue + appended_in(events), ..start }),
    decreases events.len(),
{
    if events.len() == 0 {
        assert(start.queue + appended_in(events) =~= start.queue);
    } else {
        assert(events[events.len() - 1] is Appended);
        lemma_appends(start, events.drop_last());
        assert(run(start, events).queue =~= start.queue + appended_in(events));
    }
}

/// Whether an event is the end of a write.
pub open spec fn is_flushed(event: LogEvent) -> bool {
    event matches LogEvent::Flusher(FlusherEvent::Flushed { .. })
}

/// A flusher that has stopped was told to terminate by the end of some write, and has drained the
/// queue once more after that; how that last write ended is what the state says.
pub proof fn law_stop_follows_a_final_flush(events: Seq<LogEvent>) -> (writes: (int, int))
    requires
        run(FlusherRun::start(), events).state is Stopped,
    ensures
        0 <= writes.0 < writes.1 < events.len(),
        is_flushed(events[writes.0]) && events[writes.0]->Flusher_0->shutdown,
        is_flushed(events[writes.1]),
        run(FlusherRun::start(), events.take(writes.1)).state is FinalDraining,
        run(FlusherRun::start(), events).state == (FlusherState::Stopped {
            flushed: events[writes.1]->Flusher_0->succeeded,
        }),
    decreases events.len(),
{
    let fewer = events.drop_last();
    let last = events.len() - 1;
    if run(FlusherRun::start(), fewer).state is Stopped {
        let writes = law_stop_follows_a_final_flush(fewer);
        assert(fewer.take(writes.1) =~= events.take(writes.1));
        assert(events[writes.0] == fewer[writes.0] && events[writes.1] == fewer[writes.1]);
        writes
    } else {
        let i = lemma_final_drain_was_asked_for(fewer);
        assert(events.take(last) =~= fewer);
        assert(events[i] == fewer[i]);
        (i, last)
    }
}

proof fn lemma_final_drain_was_asked_for(events: Seq<LogEvent>) -> (i: int)
    requires
        run(FlusherRun::start(), events).state is FinalDraining,
    ensures
        0 <= i < events.len(),
        is_flushed(events[i]) && events[i]->Flusher_0->shutdown,
    decreases events.len(),
{
    if run(FlusherRun::start(), events.drop_last()).state is FinalDraining {
        lemma_final_drain_was_asked_for(events.drop_last())
    } else {
        events.len() - 1
    }
}

} // verus!
