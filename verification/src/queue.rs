//! The queue of entries that wait to be written: `crossbeam::queue::SegQueue`, used through an
//! exclusive reference.
use crate::entry::WalEntry;
use crossbeam::queue::SegQueue;
use vstd::prelude::*;

verus! {

/// The unbounded queue of `crossbeam`.
#[verifier::external_type_specification]
#[verifier::external_body]
#[verifier::reject_recursive_types(T)]
pub struct ExSegQueue<T>(crossbeam::queue::SegQueue<T>);

/// The entries in a queue, the one at the head first.
pub uninterp spec fn queued(queue: SegQueue<WalEntry>) -> Seq<WalEntry>;

/// `SegQueue::new`: a queue with nothing in it.
#[verifier::external_body]
pub(crate) fn new_queue() -> (queue: SegQueue<WalEntry>)
    ensures
        queued(queue) == Seq::<WalEntry>::empty(),
{
    SegQueue::new()
}

/// `SegQueue::push`: adds an entry at the tail, and leaves the others as they are.
#[verifier::external_body]
pub(crate) fn push(queue: &mut SegQueue<WalEntry>, entry: WalEntry)
    ensures
        queued(*final(queue)) == queued(*old(queue)).push(entry),
{
    queue.push(entry);
}

/// `SegQueue::pop`: takes the entry at the head away and returns it, or returns `None` where the
/// queue is empty.
#[verifier::external_body]
pub(crate) fn pop(queue: &mut SegQueue<WalEntry>) -> (entry: Option<WalEntry>)
    ensures
        match entry {
            Some(e) => {
                &&& queued(*old(queue)).len() > 0
                &&& e == queued(*old(queue))[0]
                &&& queued(*final(queue)) == queued(*old(queue)).skip(1)
            },
            None => {
                &&& queued(*old(queue)).len() == 0
                &&& queued(*final(queue)) == queued(*old(queue))
            },
        },
{
    queue.pop()
}

/// Takes all entries off the queue, the one at the head first.
pub(crate) fn pop_all(queue: &mut SegQueue<WalEntry>) -> (entries: Vec<WalEntry>)
    ensures
        entries@ == queued(*old(queue)),
        queued(*final(queue)) == Seq::<WalEntry>::empty(),
{
    let mut entries: Vec<WalEntry> = Vec::new();
    proof {
        assert(entries@ + queued(*queue) =~= queued(*old(queue)));
    }
    loop
        invariant
            entries@ + queued(*queue) == queued(*old(queue)),
        ensures
            queued(*queue).len() == 0,
        decreases queued(*queue).len(),
    {
        match pop(queue) {
            Some(entry) => {
                entries.push(entry);
                proof {
                    assert(entries@ + queued(*queue) =~= queued(*old(queue)));
                }
            },
            None => {
                break;
            },
        }
    }
    proof {
        assert(entries@ =~= queued(*old(queue)));
        assert(queued(*queue) =~= Seq::<WalEntry>::empty());
    }
    entries
}

/// Adds entries at the tail, the first one first.
pub(crate) fn push_all(queue: &mut SegQueue<WalEntry>, entries: Vec<WalEntry>)
    ensures
        queued(*final(queue)) == queued(*old(queue)) + entries@,
{
    let ghost all = entries@;
    for entry in it: entries
        invariant
            it.seq() == all,
            queued(*queue) == queued(*old(queue)) + all.take(it.index() as int),
    {
        let ghost before = queued(*queue);
        push(queue, entry);
        proof {
            let i = it.index() as int;
            assert(all.take(i + 1) =~= all.take(i).push(all[i]));
            assert(queued(*queue) =~= queued(*old(queue)) + all.take(i + 1));
        }
    }
    proof {
        assert(all.take(all.len() as int) =~= all);
    }
}

} // verus!
