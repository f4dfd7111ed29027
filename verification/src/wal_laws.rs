//! What the calls of the log, of its flusher and of the store do, one after the other.
use crate::checkpoint::{
    decimal, is_digit, law_checkpoint_reads_back, lemma_decimal, trim, trimmed, trimmed_end,
    trimmed_start,
};
use crate::database::{checkpoint_report, CheckpointReport, Database, DatabaseConfig};
use crate::entry::{views, WalEntry};
use crate::error::{IoError, WalError};
use crate::failure::OutsideStep;
use crate::flusher::{
    appended_in, law_flusher_loses_nothing, lemma_appends, lemma_run_splits, run, FlusherEnd,
    FlusherEvent, FlusherRun, FlusherState, LogEvent,
};
use crate::log::{read_log, LogScan};
use crate::log_laws::law_log_reads_back;
use crate::store::{key_views, Store};
use crate::wal_storage::{CheckpointFile, Flush, FlushStep, LogPosition, WalStorage};
use vstd::prelude::*;

verus! {

/// An entry that is appended waits behind all others, while a place is free; else it is given back,
/// and nothing changes.
pub proof fn law_appended_entry_waits_behind_the_others(
    wal: &mut WalStorage,
    entry: WalEntry,
    r: Result<(), WalEntry>,
)
    requires
        old(wal).wf(),
        call_ensures(WalStorage::append, (wal, entry), r),
    ensures
        r is Ok <==> old(wal).taken() < old(wal).capacity(),
        r is Ok ==> {
            &&& final(wal).queue().len() == old(wal).queue().len() + 1
            &&& final(wal).queue().last() == entry
            &&& final(wal).queue().drop_last() == old(wal).queue()
            &&& final(wal).appended().last() == entry
            &&& final(wal).appended().drop_last() == old(wal).appended()
            &&& final(wal).taken() == old(wal).taken() + 1
        },
        r matches Err(back) ==> back == entry && *final(wal) == *old(wal),
        final(wal).written() == old(wal).written(),
        final(wal).capacity() == old(wal).capacity(),
{
    if r is Ok {
        assert(final(wal).queue().drop_last() =~= old(wal).queue());
        assert(final(wal).appended().drop_last() =~= old(wal).appended());
    }
}

/// A drain takes everything that waits, and gives the bytes for it: when they are read, the entries
/// are found in the order in which they were appended, and a clean end. Nothing is given where nothing
/// waits. The entries keep their places.
pub proof fn law_drained_bytes_hold_the_queue(
    wal: &mut WalStorage,
    r: Result<Option<Flush>, WalError>,
    bytes: &[u8],
    found: LogScan,
)
    requires
        call_ensures(WalStorage::drain_and_flush, (wal,), r),
        r matches Ok(Some(flush)) ==> bytes@ == flush.bytes@,
        call_ensures(read_log, (bytes,), found),
    ensures
        r is Ok,
        r->Ok_0 is None <==> old(wal).queue().len() == 0,
        r matches Ok(Some(flush)) ==> {
            &&& flush.batch@ == old(wal).queue()
            &&& found.end is Clean
            &&& found.entries@.len() == old(wal).queue().len()
            &&& forall|i: int|
                0 <= i < found.entries@.len() ==> (#[trigger] found.entries@[i])@ == old(
                    wal,
                ).queue()[i]@
        },
        final(wal).queue().len() == 0,
        final(wal).taken() == old(wal).taken(),
        final(wal).written() == old(wal).written(),
        final(wal).appended() == old(wal).appended(),
{
    if r->Ok_0 is Some {
        let queue = old(wal).queue();
        law_log_reads_back(views(queue));
        assert(views(found.entries@).len() == found.entries@.len());
        assert forall|i: int| 0 <= i < found.entries@.len() implies (
        #[trigger] found.entries@[i])@ == queue[i]@ by {
            assert(views(found.entries@)[i] == found.entries@[i]@);
            assert(views(queue)[i] == queue[i]@);
        }
    }
}

/// A write that ends well makes everything that was drained count as written, and frees its places.
/// One that fails loses nothing: all of it waits again, in the same order and in front of what came
/// later, and every place stays taken.
pub proof fn law_ended_write_loses_nothing(
    drained: &mut WalStorage,
    r: Result<Option<Flush>, WalError>,
    ended: &mut WalStorage,
    flush: Flush,
    written: bool,
)
    requires
        old(drained).wf(),
        old(drained).in_flight() == 0,
        call_ensures(WalStorage::drain_and_flush, (drained,), r),
        r == Ok::<Option<Flush>, WalError>(Some(flush)),
        *old(ended) == *final(drained),
        call_ensures(WalStorage::end_flush, (ended, flush, written), ()),
    ensures
        written ==> {
            &&& final(ended).written() == old(drained).written() + old(drained).queue()
            &&& final(ended).queue().len() == 0
            &&& final(ended).taken() == 0
        },
        !written ==> {
            &&& final(ended).written() == old(drained).written()
            &&& final(ended).queue() == old(drained).queue()
            &&& final(ended).taken() == old(drained).taken()
        },
        final(ended).appended() == old(drained).appended(),
        final(ended).in_flight() == 0,
{
    assert(flush.batch@ + Seq::<WalEntry>::empty() =~= flush.batch@);
}

/// An explicit flush is done exactly when nothing is pending, and then everything that was ever
/// appended has been written. Until then it waits, and at last it writes by itself.
pub proof fn law_flush_is_done_when_all_is_written(
    wal: &WalStorage,
    retries: u32,
    step: FlushStep,
    later: u32,
    later_step: FlushStep,
)
    requires
        wal.wf(),
        call_ensures(WalStorage::flush, (wal, retries), step),
        call_ensures(WalStorage::flush, (wal, later), later_step),
        retries <= later,
    ensures
        step == FlushStep::Done <==> wal.written().len() == wal.appended().len(),
        step == FlushStep::Done ==> wal.written() == wal.appended(),
        step == FlushStep::Done <==> later_step == FlushStep::Done,
        step == FlushStep::Force ==> later_step == FlushStep::Force,
{
    assert(wal.appended().len() == wal.written().len() + wal.flying().len() + wal.queue().len());
}

/// A new log that takes the place of another is empty, has the given path and as many places; all
/// that the other had been given has been written by then.
pub proof fn law_new_log_is_empty(wal: &mut WalStorage, path: &str)
    requires
        old(wal).wf(),
        old(wal).taken() == 0,
        call_ensures(WalStorage::truncate_wal, (wal, path), ()),
    ensures
        old(wal).written() == old(wal).appended(),
        final(wal).wf(),
        final(wal).appended().len() == 0,
        final(wal).taken() == 0,
        final(wal).capacity() == old(wal).capacity(),
        final(wal).path_view() == path@,
        !final(wal).stopping(),
{
}

/// The checkpoint that was written is the one that is read, from the file that it was written to;
/// without a file it is 0.
pub proof fn law_written_checkpoint_is_read(
    wal: &WalStorage,
    tx_id: u64,
    file: CheckpointFile,
    path: String,
    contents: Option<&str>,
    r: Result<u64, WalError>,
)
    requires
        call_ensures(WalStorage::set_checkpoint, (wal, tx_id), file),
        call_ensures(WalStorage::checkpoint_path, (wal,), path),
        contents matches Some(text) ==> text@ == file.contents@,
        call_ensures(WalStorage::get_last_checkpoint, (wal, contents), r),
    ensures
        file.path@ == path@,
        contents is Some ==> r == Ok::<u64, WalError>(tx_id),
        contents is None ==> r == Ok::<u64, WalError>(0),
{
    law_checkpoint_reads_back(tx_id);
}

/// The checkpoint file holds the number in decimal: its last character is the last digit, in front of
/// it stands what the file holds for the number without that digit, and one digit stands alone.
pub proof fn law_checkpoint_file_is_decimal(
    wal: &WalStorage,
    tx_id: u64,
    file: CheckpointFile,
    shorter: CheckpointFile,
)
    requires
        call_ensures(WalStorage::set_checkpoint, (wal, tx_id), file),
        call_ensures(WalStorage::set_checkpoint, (wal, tx_id / 10), shorter),
    ensures
        file.contents@.len() > 0,
        file.contents@.last() as u32 == 0x30 + tx_id % 10,
        tx_id < 10 ==> file.contents@.len() == 1,
        tx_id >= 10 ==> file.contents@.drop_last() == shorter.contents@,
{
    if tx_id >= 10 {
        assert(decimal(tx_id as nat).drop_last() =~= decimal((tx_id / 10) as nat));
    }
}

/// Whether a character is white space: a tab, a line feed, a vertical tab, a form feed, a carriage
/// return, a space, a next line, or one of the spaces and separators behind them.
pub open spec fn is_blank(c: char) -> bool {
    let code = c as u32;
    ||| code == 0x09
    ||| code == 0x0a
    ||| code == 0x0b
    ||| code == 0x0c
    ||| code == 0x0d
    ||| code == 0x20
    ||| code == 0x85
    ||| code == 0xa0
    ||| code == 0x1680
    ||| 0x2000 <= code <= 0x200a
    ||| code == 0x2028
    ||| code == 0x2029
    ||| code == 0x202f
    ||| code == 0x205f
    ||| code == 0x3000
}

proof fn lemma_trimmed_start(text: Seq<char>) -> (a: int)
    ensures
        0 <= a <= text.len(),
        trimmed_start(text) == text.skip(a),
        forall|i: int| 0 <= i < a ==> is_blank(#[trigger] text[i]),
        a < text.len() ==> !is_blank(text[a]),
    decreases text.len(),
{
    if text.len() > 0 && is_blank(text[0]) {
        let rest = text.skip(1);
        let a = lemma_trimmed_start(rest);
        assert(rest.skip(a) =~= text.skip(a + 1));
        assert forall|i: int| 0 <= i < a + 1 implies is_blank(#[trigger] text[i]) by {
            if i > 0 {
                assert(rest[i - 1] == text[i]);
            }
        }
        a + 1
    } else {
        assert(text.skip(0) =~= text);
        0
    }
}

proof fn lemma_trimmed_end(text: Seq<char>) -> (b: int)
    ensures
        0 <= b <= text.len(),
        trimmed_end(text) == text.take(b),
        forall|i: int| b <= i < text.len() ==> is_blank(#[trigger] text[i]),
        b > 0 ==> !is_blank(text[b - 1]),
    decreases text.len(),
{
    if text.len() > 0 && is_blank(text.last()) {
        let rest = text.drop_last();
        let b = lemma_trimmed_end(rest);
        assert(rest.take(b) =~= text.take(b));
        assert forall|i: int| b <= i < text.len() implies is_blank(#[trigger] text[i]) by {
            if i < rest.len() {
                assert(rest[i] == text[i]);
            }
        }
        b
    } else {
        assert(text.take(text.len() as int) =~= text);
        text.len() as int
    }
}

/// A trimmed text is the text without white space at either end, and nothing else is taken away.
pub proof fn law_trim_takes_white_space_at_the_ends(text: &str, r: &str)
    requires
        call_ensures(trim, (text,), r),
    ensures
        exists|a: int, b: int|
            0 <= a <= b <= text@.len() && r@ == #[trigger] text@.subrange(a, b) && (forall|i: int|
                (0 <= i < a || b <= i < text@.len()) ==> is_blank(#[trigger] text@[i])),
        r@.len() > 0 ==> !is_blank(r@[0]) && !is_blank(r@.last()),
{
    let a = lemma_trimmed_start(text@);
    let front = text@.skip(a);
    let n = lemma_trimmed_end(front);
    assert(front.take(n) =~= text@.subrange(a, a + n));
    assert forall|i: int| (0 <= i < a || a + n <= i < text@.len()) implies is_blank(
        #[trigger] text@[i],
    ) by {
        if i >= a + n {
            assert(front[i - a] == text@[i]);
        }
    }
    if r@.len() > 0 {
        assert(r@[0] == text@[a]);
        assert(r@.last() == front[n - 1]);
    }
}

/// White space around the number in the checkpoint file does not matter.
pub proof fn law_checkpoint_is_read_through_white_space(
    wal: &WalStorage,
    tx_id: u64,
    file: CheckpointFile,
    before: Seq<char>,
    after: Seq<char>,
    text: &str,
    r: Result<u64, WalError>,
)
    requires
        call_ensures(WalStorage::set_checkpoint, (wal, tx_id), file),
        forall|i: int| 0 <= i < before.len() ==> is_blank(#[trigger] before[i]),
        forall|i: int| 0 <= i < after.len() ==> is_blank(#[trigger] after[i]),
        text@ == before + file.contents@ + after,
        call_ensures(WalStorage::get_last_checkpoint, (wal, Some(text)), r),
    ensures
        r == Ok::<u64, WalError>(tx_id),
{
    let digits = file.contents@;
    lemma_decimal(tx_id as nat);
    assert(is_digit(digits[0]) && is_digit(digits[digits.len() - 1]));
    let a = lemma_trimmed_start(text@);
    let n = before.len() as int;
    assert(text@[n] == digits[0]);
    assert(a == n) by {
        if a < n {
            assert(text@[a] == before[a]);
        }
    }
    let front = text@.skip(a);
    assert(front =~= digits + after);
    let b = lemma_trimmed_end(front);
    assert(b == digits.len()) by {
        if b < digits.len() {
            assert(front[digits.len() - 1] == digits[digits.len() - 1]);
        }
        if b > digits.len() {
            assert(front[b - 1] == after[b - 1 - digits.len()]);
        }
    }
    assert(front.take(b) =~= digits);
    law_checkpoint_reads_back(tx_id);
    assert(trimmed(digits) == digits);
}

/// A checkpoint file with nothing but white space in it is refused, and every refusal is a checkpoint
/// error that says first what is wrong.
pub proof fn law_empty_checkpoint_file_is_refused(
    wal: &WalStorage,
    text: &str,
    r: Result<u64, WalError>,
)
    requires
        call_ensures(WalStorage::get_last_checkpoint, (wal, Some(text)), r),
    ensures
        (forall|i: int| 0 <= i < text@.len() ==> is_blank(#[trigger] text@[i])) ==> r is Err,
        r is Err ==> r->Err_0 is Checkpoint && "Invalid checkpoint TxID: "@.is_prefix_of(
            r->Err_0->Checkpoint_0@,
        ),
{
    let a = lemma_trimmed_start(text@);
    let b = lemma_trimmed_end(text@.skip(a));
}

/// A place that was taken in a log counts as written, when the log has gone on, only where everything
/// in front of it has been written; and it does then, unless more was appended since than can be
/// counted.
pub proof fn law_written_place_has_everything_before_it_written(
    wal: &WalStorage,
    place: LogPosition,
    later: &WalStorage,
    written: bool,
)
    requires
        wal.wf(),
        later.wf(),
        call_ensures(WalStorage::position, (wal,), place),
        wal.appended().is_prefix_of(later.appended()),
        call_ensures(WalStorage::is_written, (later, &place), written),
    ensures
        written ==> wal.appended().is_prefix_of(later.written()),
        wal.appended().is_prefix_of(later.written()) && later.appended().len()
            - wal.appended().len() < 0x1_0000_0000_0000_0000 ==> written,
{
    let all = later.appended();
    assert(later.written() =~= all.take(later.written().len() as int));
}

/// The keys of a store are those that have a value, each once, and as many as it says.
pub proof fn law_keys_are_those_with_a_value(
    store: &Store,
    keys: Vec<String>,
    len: usize,
    asked: &str,
    value: Option<&Vec<u8>>,
    found: bool,
)
    requires
        call_ensures(Store::keys, (store,), keys),
        call_ensures(Store::len, (store,), len),
        call_ensures(Store::get, (store, asked), value),
        call_ensures(Store::contains_key, (store, asked), found),
    ensures
        keys@.len() == len,
        forall|i: int, j: int| 0 <= i < j < keys@.len() ==> keys@[i]@ != keys@[j]@,
        value is Some <==> exists|i: int| 0 <= i < keys@.len() && (#[trigger] keys@[i])@ == asked@,
        found <==> value is Some,
{
    let views = key_views(keys@);
    views.unique_seq_to_set();
    assert forall|i: int, j: int| 0 <= i < j < keys@.len() implies keys@[i]@ != keys@[j]@ by {
        assert(views[i] == keys@[i]@ && views[j] == keys@[j]@);
    }
    assert(views.to_set().contains(asked@) == views.contains(asked@));
    if views.contains(asked@) {
        let i = views.index_of(asked@);
        assert(keys@[i]@ == asked@);
    }
    if exists|i: int| 0 <= i < keys@.len() && (#[trigger] keys@[i])@ == asked@ {
        let i = choose|i: int| 0 <= i < keys@.len() && (#[trigger] keys@[i])@ == asked@;
        assert(views[i] == asked@);
    }
}

/// A new database is empty: no key has a value, and its log was given nothing, has written nothing
/// and is not told to stop. It has the given path and ten thousand places, where no other number is
/// asked for.
pub proof fn law_new_database_is_empty(
    path: &str,
    db: Database,
    config: DatabaseConfig,
    max_queue_size: usize,
    other: DatabaseConfig,
    built: Database,
)
    requires
        call_ensures(Database::new, (path,), db),
        call_ensures(DatabaseConfig::new, (path,), config),
        call_ensures(DatabaseConfig::with_max_queue_size, (config, max_queue_size), other),
        call_ensures(DatabaseConfig::build, (&other,), built),
    ensures
        forall|key: Seq<char>| !#[trigger] db.store@.contains_key(key),
        forall|key: Seq<char>| !#[trigger] built.store@.contains_key(key),
        db.wal.appended().len() == 0 && built.wal.appended().len() == 0,
        db.wal.taken() == 0 && built.wal.taken() == 0,
        db.wal.written().len() == 0 && built.wal.written().len() == 0,
        !db.wal.stopping() && !built.wal.stopping(),
        db.wal.wf() && built.wal.wf(),
        db.wal.path_view() == path@ && built.wal.path_view() == path@,
        db.wal.capacity() == 10_000,
        built.wal.capacity() == max_queue_size,
        config.flush_interval_ms == 10 && other.flush_interval_ms == 10,
{
}

/// The flusher drains when it is woken, and waits again after each write, whether or not it succeeded,
/// until it has been told to terminate; then it drains once more, and stops with the outcome of that
/// last write. Once it has stopped, nothing moves it.
pub proof fn law_flusher_goes_on_until_it_is_told(
    state: FlusherState,
    event: FlusherEvent,
    next: FlusherState,
)
    requires
        call_ensures(FlusherState::next, (state, event), next),
    ensures
        state == FlusherState::Waiting && event == FlusherEvent::Woken ==> next
            == FlusherState::Draining,
        state == FlusherState::Draining ==> (event matches FlusherEvent::Flushed { shutdown, .. }
            ==> next == if shutdown {
            FlusherState::FinalDraining
        } else {
            FlusherState::Waiting
        }),
        state == FlusherState::FinalDraining ==> (event matches FlusherEvent::Flushed {
            succeeded,
            ..
        } ==> next == (FlusherState::Stopped { flushed: succeeded })),
        state is Stopped ==> next == state,
        event == FlusherEvent::Woken && !(state is Waiting) ==> next == state,
        state is Waiting && !(event is Woken) ==> next == state,
{
}

/// A wake-up whose write fails loses nothing: the flusher waits again, nothing more counts as written,
/// and everything that was not written waits, in the order of the appends.
pub proof fn law_failed_wake_up_keeps_everything(before: Seq<LogEvent>, during: Seq<LogEvent>)
    requires
        run(FlusherRun::start(), before).state is Waiting,
        forall|i: int| 0 <= i < during.len() ==> (#[trigger] during[i]) is Appended,
    ensures
        ({
            let start = run(FlusherRun::start(), before);
            let woken = seq![LogEvent::Flusher(FlusherEvent::Woken)];
            let failed = seq![
                LogEvent::Flusher(FlusherEvent::Flushed { shutdown: false, succeeded: false }),
            ];
            let now = run(FlusherRun::start(), before + (woken + during + failed));
            &&& now.state is Waiting
            &&& now.written == start.written
            &&& now.flying.len() == 0
            &&& now.written + now.queue == appended_in(before) + appended_in(during)
        }),
{
    let start = run(FlusherRun::start(), before);
    let woken = seq![LogEvent::Flusher(FlusherEvent::Woken)];
    let failed = seq![
        LogEvent::Flusher(FlusherEvent::Flushed { shutdown: false, succeeded: false }),
    ];
    let events = woken + during + failed;
    law_flusher_loses_nothing(before);
    lemma_run_splits(FlusherRun::start(), before, events);
    let draining = start.step(woken[0]);
    assert(woken.drop_last() =~= Seq::<LogEvent>::empty());
    assert(run(start, woken) == draining) by {
        reveal_with_fuel(run, 2);
    }
    lemma_run_splits(start, woken, during);
    lemma_appends(draining, during);
    assert(events.drop_last() =~= woken + during);
    let now = run(FlusherRun::start(), before + events);
    assert(draining.queue + appended_in(during) =~= appended_in(during));
    assert(start.written + start.flying + start.queue =~= start.written + (start.flying
        + start.queue));
    assert(now.written + now.queue =~= appended_in(before) + appended_in(during));
}

/// A shutdown tells the flusher to terminate, and returns the outcome of its last write; a flusher
/// that could not be waited for is an error that says so. The store and the log stay as they are.
pub proof fn law_shutdown_reports_the_last_write(
    db: &mut Database,
    end: FlusherEnd,
    r: Result<(), WalError>,
)
    requires
        call_ensures(Database::shutdown, (db, end), r),
    ensures
        match end {
            FlusherEnd::NotRunning => r is Ok,
            FlusherEnd::Finished(outcome) => r == outcome,
            FlusherEnd::Lost(reason) => r matches Err(WalError::Io(IoError::Other(text))) && text@
                == "Flusher join error: "@ + reason@,
        },
        final(db).wal.stopping(),
        final(db).wal.appended() == old(db).wal.appended(),
        final(db).wal.written() == old(db).wal.written(),
        final(db).wal.queue() == old(db).wal.queue(),
        final(db).store == old(db).store,
{
}

/// A failure outside of the library is reported with what failed in front of its description, as a
/// checkpoint error for the steps of a checkpoint, and as one of input or output for all others.
pub proof fn law_failure_names_its_step(step: OutsideStep, detail: &str, error: WalError)
    requires
        call_ensures(OutsideStep::failure, (step, detail), error),
    ensures
        match step {
            OutsideStep::WriteCheckpoint => error matches WalError::Checkpoint(text) && text@
                == "Failed to write checkpoint: "@ + detail@,
            OutsideStep::ReadCheckpoint => error matches WalError::Checkpoint(text) && text@
                == "Failed to read checkpoint: "@ + detail@,
            OutsideStep::RenameWal => error matches WalError::Checkpoint(text) && text@
                == "Failed to rename WAL: "@ + detail@,
            OutsideStep::JoinFlusher => error matches WalError::Io(IoError::Other(text)) && text@
                == "Flusher join error: "@ + detail@,
            OutsideStep::OpenLmdb => error matches WalError::Io(IoError::Other(text)) && text@
                == "Failed to open LMDB: "@ + detail@,
            OutsideStep::BeginRead => error matches WalError::Io(IoError::Other(text)) && text@
                == "Failed to create read transaction: "@ + detail@,
            OutsideStep::BeginWrite => error matches WalError::Io(IoError::Other(text)) && text@
                == "Failed to create write transaction: "@ + detail@,
            OutsideStep::CreateDatabase => error matches WalError::Io(IoError::Other(text)) && text@
                == "Failed to create database: "@ + detail@,
            OutsideStep::CommitInitial => error matches WalError::Io(IoError::Other(text)) && text@
                == "Failed to commit initial transaction: "@ + detail@,
            OutsideStep::Get => error matches WalError::Io(IoError::Other(text)) && text@
                == "Failed to get value: "@ + detail@,
            OutsideStep::Put => error matches WalError::Io(IoError::Other(text)) && text@
                == "Failed to put value: "@ + detail@,
            OutsideStep::Delete => error matches WalError::Io(IoError::Other(text)) && text@
                == "Failed to delete key: "@ + detail@,
            OutsideStep::Commit => error matches WalError::Io(IoError::Other(text)) && text@
                == "Failed to commit transaction: "@ + detail@,
            OutsideStep::CommitBatch => error matches WalError::Io(IoError::Other(text)) && text@
                == "Failed to commit batch transaction: "@ + detail@,
        },
{
}

/// The scheduler reports a checkpoint that was made, is silent where nothing was new, and reports any
/// other error as it is.
pub proof fn law_only_old_news_are_silent(result: Result<u64, WalError>, report: CheckpointReport)
    requires
        call_ensures(checkpoint_report, (result,), report),
    ensures
        report is NothingNew <==> result == Err::<u64, WalError>(WalError::NoNewCheckpoints),
        report matches CheckpointReport::Completed(id) ==> result == Ok::<u64, WalError>(id),
        result matches Ok(id) ==> report == CheckpointReport::Completed(id),
        report matches CheckpointReport::Failed(e) ==> result == Err::<u64, WalError>(e),
{
}

/// A value that was inserted is found under its key, until it is removed, and no other key is
/// touched.
pub proof fn law_store_gives_back_what_it_was_given(
    store: &mut Store,
    key: String,
    value: Vec<u8>,
    asked: &str,
    before: Option<&Vec<u8>>,
    after: Option<&Vec<u8>>,
    removed: &mut Store,
    gone: &str,
    left: Option<&Vec<u8>>,
)
    requires
        call_ensures(Store::get, (old(store), asked), before),
        call_ensures(Store::insert, (store, key, value), ()),
        call_ensures(Store::get, (final(store), asked), after),
        *old(removed) == *final(store),
        call_ensures(Store::remove, (removed, gone), ()),
        call_ensures(Store::get, (final(removed), asked), left),
    ensures
        asked@ == key@ ==> after is Some && after->0@ == value@,
        asked@ != key@ ==> (after is Some <==> before is Some),
        asked@ != key@ && after is Some ==> after->0@ == before->0@,
        asked@ == gone@ ==> left is None,
        asked@ != gone@ ==> (left is Some <==> after is Some),
        asked@ != gone@ && left is Some ==> left->0@ == after->0@,
{
}

/// A timestamp is the whole seconds of the time; a time before the epoch has none.
pub proof fn law_timestamp_is_whole_seconds(
    seconds: u64,
    nanos: u32,
    r: Option<u64>,
    none: Option<u64>,
)
    requires
        call_ensures(WalEntry::timestamp_at, (Some((seconds, nanos)),), r),
        call_ensures(WalEntry::timestamp_at, (None,), none),
    ensures
        r == Some(seconds),
        none is None,
{
}

} // verus!
