//! The write-ahead log in memory: the entries that wait to be written, and the bytes to write.
use crate::checkpoint::{
    checkpoint_text, decimal, parse_error_text, parse_u64, parsed, parsed_checkpoint, trim, trimmed,
};
use crate::entry::{views, WalEntry};
use crate::error::WalError;
use crate::flusher::{FlusherRun, FlusherState, LogEvent};
use crate::log::{all_encodable, encode_batch, log_of};
use crate::log_laws::law_batches_do_not_matter;
use crate::queue::{new_queue, pop_all, push, push_all, queued};
use crossbeam::queue::SegQueue;
use vstd::arithmetic::div_mod::{lemma_mod_decreases, lemma_small_mod, lemma_sub_mod_noop};
use vstd::prelude::*;
use vstd::string::StringExecFns;

verus! {

/// How many entries wait at most where nothing else is asked for.
pub const DEFAULT_MAX_QUEUE_SIZE: usize = 10_000;

/// How often a flush looks whether the flusher has written everything before it writes itself.
pub const MAX_FLUSH_RETRIES: u32 = 100;

/// How long a flush waits before it looks again, in microseconds.
pub const FLUSH_RETRY_MICROS: u64 = 100;

/// Write-Ahead Log (WAL) storage: a bounded queue of entries in front of a file.
///
/// An entry takes up a place from the moment it is appended until it has been written; when all
/// places are taken, writers wait.
pub struct WalStorage {
    path: String,
    /// Entries that were appended and not drained yet
    pending: SegQueue<WalEntry>,
    /// Maximum number of places
    max_queue_size: usize,
    /// Places that are taken
    pending_count: usize,
    /// Places taken by entries that were drained and not reported as written yet
    drained: usize,
    /// Whether the flusher is to terminate
    shutdown: bool,
    /// How many entries were ever appended, starting over behind the largest number
    appended_count: u64,
    /// All entries that were ever appended
    appended: Ghost<Seq<WalEntry>>,
    /// Those of them that were reported as written
    written: Ghost<Seq<WalEntry>>,
    /// Those of them that were drained and not reported as written
    flying: Ghost<Seq<WalEntry>>,
}

/// A place in the log: behind the entries that were appended by some moment.
pub struct LogPosition {
    count: u64,
    at: Ghost<nat>,
}

impl LogPosition {
    /// How many entries are in front of it.
    pub closed spec fn at(&self) -> nat {
        self.at@
    }

    /// The number that is kept is that of the entries, as far as it goes.
    pub closed spec fn wf(&self) -> bool {
        self.count == self.at() % COUNTS as nat
    }
}

/// How many numbers there are to count entries with.
pub const COUNTS: u128 = 0x1_0000_0000_0000_0000;

/// A batch of entries on its way to the file.
#[derive(Debug)]
pub struct Flush {
    /// The bytes to append to the file
    pub bytes: Vec<u8>,
    /// The entries that they hold
    pub batch: Vec<WalEntry>,
}

/// What to write to the checkpoint file.
#[derive(Debug)]
pub struct CheckpointFile {
    pub path: String,
    pub contents: String,
}

/// What a flush has to do next.
#[derive(Debug, Clone, Copy, PartialEq, Eq, Structural)]
pub enum FlushStep {
    /// Nothing is pending
    Done,
    /// Give the flusher more time
    Wait,
    /// Write what is left
    Force,
}

impl WalStorage {
    /// The path of the log file.
    pub closed spec fn path_view(&self) -> Seq<char> {
        self.path@
    }

    /// The entries that wait to be drained, the oldest first.
    pub closed spec fn queue(&self) -> Seq<WalEntry> {
        queued(self.pending)
    }

    /// The number of places that are taken.
    pub closed spec fn taken(&self) -> nat {
        self.pending_count as nat
    }

    /// The number of entries that were drained and not reported as written.
    pub closed spec fn in_flight(&self) -> nat {
        self.drained as nat
    }

    /// The number of places.
    pub closed spec fn capacity(&self) -> nat {
        self.max_queue_size as nat
    }

    /// Whether the flusher was told to terminate.
    pub closed spec fn stopping(&self) -> bool {
        self.shutdown
    }

    /// All entries that were ever appended to the log, in their order.
    pub closed spec fn appended(&self) -> Seq<WalEntry> {
        self.appended@
    }

    /// The entries that were reported as written, in their order.
    pub closed spec fn written(&self) -> Seq<WalEntry> {
        self.written@
    }

    /// The entries that were drained and not reported as written, in their order.
    pub closed spec fn flying(&self) -> Seq<WalEntry> {
        self.flying@
    }

    /// Each place that is taken is taken by an entry that is queued or being written, and no more
    /// are taken than there are. What was appended has been written, is being written, or waits, in
    /// this order.
    pub open spec fn wf(&self) -> bool {
        &&& self.taken() == self.queue().len() + self.in_flight()
        &&& self.taken() <= self.capacity() <= usize::MAX
        &&& self.in_flight() == self.flying().len()
        &&& self.appended() == self.written() + self.flying() + self.queue()
        &&& self.counted()
    }

    /// The number of appended entries is kept, as far as it goes.
    pub closed spec fn counted(&self) -> bool {
        self.appended_count == self.appended@.len() % COUNTS as nat
    }

    /// The log with a flusher in the given state.
    pub open spec fn run(&self, state: FlusherState) -> FlusherRun {
        FlusherRun {
            state,
            queue: self.queue(),
            flying: self.flying(),
            written: self.written(),
        }
    }

    /// Whether the log is as it is made: nothing was ever appended.
    pub open spec fn is_new(&self) -> bool {
        &&& self.wf()
        &&& self.queue() == Seq::<WalEntry>::empty()
        &&& self.taken() == 0
        &&& self.in_flight() == 0
        &&& self.appended() == Seq::<WalEntry>::empty()
        &&& self.written() == Seq::<WalEntry>::empty()
        &&& !self.stopping()
    }

    /// Creates a new WAL storage instance for the file at the specified path.
    pub fn new(path: &str) -> (wal: Self)
        ensures
            wal.is_new(),
            wal.path_view() == path@,
            wal.capacity() == DEFAULT_MAX_QUEUE_SIZE,
    {
        Self::with_config(path, DEFAULT_MAX_QUEUE_SIZE)
    }

    /// Creates a new WAL storage instance with custom configuration.
    pub fn with_config(path: &str, max_queue_size: usize) -> (wal: Self)
        ensures
            wal.is_new(),
            wal.path_view() == path@,
            wal.capacity() == max_queue_size,
    {
        let wal = WalStorage {
            path: path.to_string(),
            pending: new_queue(),
            max_queue_size,
            pending_count: 0,
            drained: 0,
            shutdown: false,
            appended_count: 0,
            appended: Ghost(Seq::empty()),
            written: Ghost(Seq::empty()),
            flying: Ghost(Seq::empty()),
        };
        assert(wal.appended() =~= wal.written() + wal.flying() + wal.queue());
        wal
    }

    /// Whether nothing but the queue and the number of taken places differs.
    pub open spec fn same_but_queue(&self, other: &Self) -> bool {
        &&& self.path_view() == other.path_view()
        &&& self.capacity() == other.capacity()
        &&& self.stopping() == other.stopping()
    }

    /// Whether the entries are the same, and stand where they stood.
    pub open spec fn same_entries(&self, other: &Self) -> bool {
        &&& self.queue() == other.queue()
        &&& self.taken() == other.taken()
        &&& self.in_flight() == other.in_flight()
        &&& self.flying() == other.flying()
        &&& self.written() == other.written()
        &&& self.appended() == other.appended()
    }

    /// Appends a WAL entry to the queue, or gives it back where every place is taken: the writer
    /// then waits until there is space, and tries again.
    pub fn append(&mut self, entry: WalEntry) -> (r: Result<(), WalEntry>)
        requires
            old(self).wf(),
        ensures
            final(self).wf(),
            final(self).same_but_queue(old(self)),
            final(self).flying() == old(self).flying(),
            final(self).written() == old(self).written(),
            match r {
                Ok(_) => {
                    &&& old(self).taken() < old(self).capacity()
                    &&& final(self).queue() == old(self).queue().push(entry)
                    &&& final(self).taken() == old(self).taken() + 1
                    &&& final(self).appended() == old(self).appended().push(entry)
                    &&& forall|s: FlusherState|
                        #![trigger final(self).run(s)]
                        final(self).run(s) == old(self).run(s).step(LogEvent::Appended(entry))
                },
                Err(e) => {
                    &&& old(self).taken() == old(self).capacity()
                    &&& e == entry
                    &&& *final(self) == *old(self)
                },
            },
    {
        if self.pending_count >= self.max_queue_size {
            return Err(entry);
        }
        self.pending_count = self.pending_count + 1;
        self.appended_count = self.appended_count.wrapping_add(1);
        proof {
            self.appended@ = self.appended@.push(entry);
        }
        push(&mut self.pending, entry);
        assert(self.appended() =~= self.written() + self.flying() + self.queue());
        Ok(())
    }

    /// Takes all entries off the queue and encodes them, in the order in which they were appended,
    /// for one write to the file; returns `None` where there are none. The entries keep their
    /// places until `finish_flush` reports them as written, or `fail_flush` puts them back.
    pub fn drain_and_flush(&mut self) -> (r: Result<Option<Flush>, WalError>)
        requires
            old(self).wf(),
        ensures
            final(self).wf(),
            final(self).same_but_queue(old(self)),
            final(self).queue() == Seq::<WalEntry>::empty(),
            final(self).taken() == old(self).taken(),
            final(self).flying() == old(self).flying() + old(self).queue(),
            final(self).written() == old(self).written(),
            final(self).appended() == old(self).appended(),
            forall|s: FlusherState, t: FlusherState|
                #![trigger old(self).run(s).enters(t)]
                t.drains() ==> final(self).run(t) == old(self).run(s).enters(t),
            all_encodable(views(old(self).queue())),
            r is Ok,
            r->Ok_0 is None <==> old(self).queue().len() == 0,
            r->Ok_0 is Some ==> {
                &&& r->Ok_0->0.bytes@ == log_of(views(old(self).queue()))
                &&& r->Ok_0->0.batch@ == old(self).queue()
            },
    {
        let batch = pop_all(&mut self.pending);
        self.drained = self.drained + batch.len();
        proof {
            self.flying@ = self.flying@ + batch@;
            assert(self.written() + self.flying() + self.queue() =~= self.appended());
        }
        if batch.len() == 0 {
            assert(self.flying() =~= old(self).flying() + old(self).queue());
            return Ok(None);
        }
        match encode_batch(&batch) {
            Ok(bytes) => Ok(Some(Flush { bytes, batch })),
            Err(e) => Err(e),
        }
    }

    /// Frees the places of the `batch_size` entries that were drained first, once they have been
    /// written.
    pub fn finish_flush(&mut self, batch_size: usize)
        requires
            old(self).wf(),
            batch_size <= old(self).in_flight(),
        ensures
            final(self).wf(),
            final(self).same_but_queue(old(self)),
            final(self).queue() == old(self).queue(),
            final(self).taken() == old(self).taken() - batch_size,
            final(self).flying() == old(self).flying().skip(batch_size as int),
            final(self).written() == old(self).written() + old(self).flying().take(
                batch_size as int,
            ),
            final(self).appended() == old(self).appended(),
    {
        self.pending_count = self.pending_count - batch_size;
        self.drained = self.drained - batch_size;
        proof {
            let n = batch_size as int;
            self.written@ = self.written@ + self.flying@.take(n);
            self.flying@ = self.flying@.skip(n);
            assert(self.written() + self.flying() + self.queue() =~= self.appended());
        }
    }

    /// Puts the entries of a batch that could not be written back to the head of the queue, where
    /// they wait for the next write. Where no other batch is on its way, the queue then holds every
    /// entry that takes up a place.
    pub fn fail_flush(&mut self, flush: Flush)
        requires
            old(self).wf(),
            flush.batch@.is_suffix_of(old(self).flying()),
        ensures
            final(self).wf(),
            final(self).same_but_queue(old(self)),
            final(self).queue() == flush.batch@ + old(self).queue(),
            final(self).taken() == old(self).taken(),
            final(self).flying() == old(self).flying().take(
                old(self).flying().len() - flush.batch@.len(),
            ),
            final(self).written() == old(self).written(),
            final(self).appended() == old(self).appended(),
            flush.batch@.len() == old(self).in_flight() ==> final(self).queue().len()
                == final(self).taken(),
    {
        let ghost left = self.flying@.len() - flush.batch@.len();
        self.drained = self.drained - flush.batch.len();
        let later = pop_all(&mut self.pending);
        push_all(&mut self.pending, flush.batch);
        push_all(&mut self.pending, later);
        proof {
            self.flying@ = self.flying@.take(left);
            assert(self.queue() =~= flush.batch@ + old(self).queue());
            assert(self.written() + self.flying() + self.queue() =~= self.appended());
        }
    }

    /// Ends the write of a batch when no other is on its way: frees its places where it has been
    /// written, and puts its entries back to the head of the queue where the write failed. Either
    /// way the number of taken places is the length of the queue again.
    pub fn end_flush(&mut self, flush: Flush, written: bool)
        requires
            old(self).wf(),
            flush.batch@ == old(self).flying(),
        ensures
            final(self).wf(),
            final(self).same_but_queue(old(self)),
            final(self).in_flight() == 0,
            final(self).taken() == final(self).queue().len(),
            final(self).queue() == if written {
                old(self).queue()
            } else {
                flush.batch@ + old(self).queue()
            },
            final(self).written() == if written {
                old(self).written() + flush.batch@
            } else {
                old(self).written()
            },
            final(self).appended() == old(self).appended(),
            forall|s: FlusherState|
                #![trigger final(self).run(s)]
                final(self).run(s) == old(self).run(s).ended(written),
    {
        proof {
            let all = self.flying();
            assert(all.take(all.len() as int) =~= all);
            assert(all.skip(0) =~= all);
        }
        if written {
            self.finish_flush(flush.batch.len());
        } else {
            self.fail_flush(flush);
        }
        assert(self.flying() =~= Seq::<WalEntry>::empty());
    }

    /// What an explicit flush does next, after it has looked `retries` times: it waits while
    /// entries are pending, and writes them itself when it has waited long enough.
    /// Where nothing is pending, all that was ever appended has been reported as written.
    pub fn flush(&self, retries: u32) -> (step: FlushStep)
        requires
            self.wf(),
        ensures
            step == if self.taken() == 0 {
                FlushStep::Done
            } else if retries < MAX_FLUSH_RETRIES {
                FlushStep::Wait
            } else {
                FlushStep::Force
            },
            step == FlushStep::Done ==> self.queue().len() == 0 && self.in_flight() == 0
                && self.written() == self.appended(),
    {
        if self.pending_count == 0 {
            assert(self.written() =~= self.appended());
            FlushStep::Done
        } else if retries < MAX_FLUSH_RETRIES {
            FlushStep::Wait
        } else {
            FlushStep::Force
        }
    }

    /// The place behind all entries that were appended so far.
    pub fn position(&self) -> (position: LogPosition)
        requires
            self.wf(),
        ensures
            position.wf(),
            position.at() == self.appended().len(),
    {
        LogPosition { count: self.appended_count, at: Ghost(self.appended@.len()) }
    }

    /// Whether all entries in front of a place in this log have been reported as written. Where more
    /// entries than can be counted were appended behind the place, the answer may be no all the same.
    pub fn is_written(&self, position: &LogPosition) -> (written: bool)
        requires
            self.wf(),
            position.wf(),
            position.at() <= self.appended().len(),
        ensures
            written ==> position.at() <= self.written().len(),
            self.appended().len() - position.at() < COUNTS ==> written == (position.at()
                <= self.written().len()),
    {
        let behind: u64 = self.appended_count.wrapping_sub(position.count);
        proof {
            let all = self.appended().len() as int;
            let at = position.at() as int;
            lemma_sub_mod_noop(all, at, COUNTS as int);
            assert(behind == (all - at) % (COUNTS as int));
            if all - at < COUNTS {
                lemma_small_mod((all - at) as nat, COUNTS as nat);
            }
            lemma_mod_decreases((all - at) as nat, COUNTS as nat);
        }
        self.pending_count as u64 <= behind
    }

    /// Tells the flusher to terminate.
    pub fn stop_flusher(&mut self)
        ensures
            final(self).stopping(),
            final(self).path_view() == old(self).path_view(),
            final(self).capacity() == old(self).capacity(),
            final(self).same_entries(old(self)),
            old(self).stopping() ==> *final(self) == *old(self),
    {
        self.shutdown = true;
    }

    /// Whether the flusher was told to terminate.
    pub fn is_stopping(&self) -> (stopping: bool)
        ensures
            stopping == self.stopping(),
    {
        self.shutdown
    }

    /// The number of entries that were appended and not written yet.
    pub fn pending_count(&self) -> (count: usize)
        ensures
            count == self.taken(),
    {
        self.pending_count
    }

    /// The number of entries that were drained and not reported as written.
    pub fn drained_count(&self) -> (count: usize)
        ensures
            count == self.in_flight(),
    {
        self.drained
    }

    /// The number of places.
    pub fn max_queue_size(&self) -> (size: usize)
        ensures
            size == self.capacity(),
    {
        self.max_queue_size
    }

    /// The path of the log file.
    pub fn path(&self) -> (path: &str)
        ensures
            path@ == self.path_view(),
    {
        self.path.as_str()
    }

    /// The path of the file that holds the checkpoint.
    pub fn checkpoint_path(&self) -> (path: String)
        ensures
            path@ == self.path_view() + ".checkpoint"@,
    {
        let mut path = self.path.clone();
        path.append(".checkpoint");
        path
    }

    /// The checkpoint marker for `tx_id`: the path of its file, and what the file is to hold.
    pub fn set_checkpoint(&self, tx_id: u64) -> (file: CheckpointFile)
        ensures
            file.path@ == self.path_view() + ".checkpoint"@,
            file.contents@ == decimal(tx_id as nat),
    {
        CheckpointFile { path: self.checkpoint_path(), contents: checkpoint_text(tx_id) }
    }

    /// The transaction id of the last checkpoint, for what the file at `checkpoint_path` holds; 0
    /// where there is no such file.
    pub fn get_last_checkpoint(&self, contents: Option<&str>) -> (r: Result<u64, WalError>)
        ensures
            match contents {
                None => r == Ok::<u64, WalError>(0),
                Some(text) => match parsed(trimmed(text@)) {
                    Some(tx_id) => r == Ok::<u64, WalError>(tx_id),
                    None => r matches Err(WalError::Checkpoint(error)) && error@
                        == "Invalid checkpoint TxID: "@ + parse_error_text(trimmed(text@)),
                },
            },
    {
        match contents {
            None => Ok(0),
            Some(text) => parsed_checkpoint(parse_u64(trim(text))),
        }
    }

    /// The path that the log file gets when a new one takes its place.
    pub fn old_path(&self) -> (path: String)
        ensures
            path@ == self.path_view() + ".old"@,
    {
        let mut path = self.path.clone();
        path.append(".old");
        path
    }

    /// Starts a new log at `path` with the same number of places. Everything that was appended to
    /// the old one has to be written, and its file renamed, by then.
    pub fn truncate_wal(&mut self, path: &str)
        requires
            old(self).wf(),
            old(self).taken() == 0,
        ensures
            old(self).written() == old(self).appended(),
            final(self).is_new(),
            final(self).path_view() == path@,
            final(self).capacity() == old(self).capacity(),
    {
        assert(self.written() =~= self.appended());
        let max_queue_size: usize = self.max_queue_size;
        *self = Self::with_config(path, max_queue_size);
    }
}

/// Where no batch is on its way, the number of taken places is the length of the queue, and all
/// that was appended has been written or waits in the queue.
pub proof fn law_count_is_queue_length(wal: &WalStorage)
    requires
        wal.wf(),
        wal.in_flight() == 0,
    ensures
        wal.taken() == wal.queue().len(),
        wal.appended() == wal.written() + wal.queue(),
{
    assert(wal.written() + wal.flying() =~= wal.written());
}

/// A log that writers wait for has room again once everything in it has been written: the next append
/// succeeds.
pub proof fn law_write_makes_room(wal: &WalStorage)
    requires
        wal.wf(),
        wal.written() == wal.appended(),
        wal.capacity() > 0,
    ensures
        wal.taken() == 0,
        wal.taken() < wal.capacity(),
{
    assert(wal.appended().len() == wal.written().len() + wal.flying().len() + wal.queue().len());
}

/// A file that holds the log of what was written holds it again when the bytes of the next batch
/// have been appended: its bytes are those of all written entries in their order.
pub proof fn law_file_holds_what_was_written(
    file: Seq<u8>,
    written: Seq<WalEntry>,
    batch: Seq<WalEntry>,
)
    requires
        file == log_of(views(written)),
    ensures
        file + log_of(views(batch)) == log_of(views(written + batch)),
{
    law_batches_do_not_matter(views(written), views(batch));
    assert(views(written + batch) =~= views(written) + views(batch));
}

} // verus!
