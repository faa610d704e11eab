//! One selector's backlog: a bounded FIFO of pending payloads plus the
//! wakeup handle shared with every consumer currently waiting on it.

use std::collections::VecDeque;
use std::sync::Arc;
use tokio::sync::Notify;
use vstd::prelude::*;

use crate::signal::clone_signal;

verus! {

/// Upper bound on the pending items of one selector; a submission that would
/// exceed it is silently dropped.
pub const MAX_ITEMS: usize = 1024;

/// The capability a payload type offers so that the sweep can discard stale
/// items: a stateless query, with `valid` as its specification-level meaning.
/// Implementors outside the crate are trusted to answer `is_valid`
/// truthfully; payload types that never meet the sweep need not implement it.
pub trait IsValid {
    spec fn valid(&self) -> bool;

    fn is_valid(&self) -> (r: bool)
        ensures
            r == self.valid(),
    ;
}

/// What one submission does to one selector's backlog: append below capacity,
/// drop silently at capacity.
pub open spec fn submit_step<R>(q: Seq<R>, item: R) -> Seq<R> {
    if q.len() < MAX_ITEMS {
        q.push(item)
    } else {
        q
    }
}

/// A minimal payload carrying a value and an explicit liveness flag: the
/// simplest type that can opt into the sweep.
#[derive(Clone, Copy, Debug, PartialEq, Eq, Structural)]
pub struct Job {
    pub value: u64,
    pub alive: bool,
}

impl IsValid for Job {
    open spec fn valid(&self) -> bool {
        self.alive
    }

    fn is_valid(&self) -> (r: bool) {
        self.alive
    }
}

/// The backlog that results from submitting `items` in order to a queue that
/// starts as `q`: each submission is one `submit_step`, exactly what one
/// `submit` call does to its selector's backlog.
pub open spec fn submit_all<R>(q: Seq<R>, items: Seq<R>) -> Seq<R>
    decreases items.len(),
{
    if items.len() == 0 {
        q
    } else {
        submit_step(submit_all(q, items.drop_last()), items.last())
    }
}

/// FIFO without premature drops: submitting up to `MAX_ITEMS` items to a
/// fresh queue buffers every one of them, in submission order — so the
/// successive acquires return exactly the submitted items, oldest first.
pub proof fn lemma_fifo_below_capacity<R>(items: Seq<R>)
    requires
        items.len() <= MAX_ITEMS,
    ensures
        submit_all(Seq::<R>::empty(), items) == items,
    decreases items.len(),
{
    if items.len() > 0 {
        lemma_fifo_below_capacity(items.drop_last());
        assert(items.drop_last().push(items.last()) =~= items);
    }
}

/// Backpressure by silent drop: submitting `MAX_ITEMS` or more items to a
/// fresh queue buffers exactly the first `MAX_ITEMS` of them, in submission
/// order; every later item is dropped.
pub proof fn lemma_capacity_cap<R>(items: Seq<R>)
    requires
        items.len() >= MAX_ITEMS,
    ensures
        submit_all(Seq::<R>::empty(), items) == items.take(MAX_ITEMS as int),
    decreases items.len(),
{
    if items.len() == MAX_ITEMS {
        lemma_fifo_below_capacity(items);
        assert(items.take(MAX_ITEMS as int) =~= items);
    } else {
        lemma_capacity_cap(items.drop_last());
        assert(items.drop_last().take(MAX_ITEMS as int) =~= items.take(MAX_ITEMS as int));
    }
}

/// What one sweep pass leaves of a backlog: the still-valid items, in their
/// original order.
pub open spec fn swept<R: IsValid>(q: Seq<R>) -> Seq<R>
    decreases q.len(),
{
    if q.len() == 0 {
        Seq::<R>::empty()
    } else if q[0].valid() {
        seq![q[0]] + swept(q.subrange(1, q.len() as int))
    } else {
        swept(q.subrange(1, q.len() as int))
    }
}

/// The sweep never grows a backlog.
pub proof fn lemma_swept_len<R: IsValid>(q: Seq<R>)
    ensures
        swept(q).len() <= q.len(),
    decreases q.len(),
{
    if q.len() > 0 {
        lemma_swept_len(q.subrange(1, q.len() as int));
    }
}

/// Everything the sweep leaves behind satisfies the validity predicate.
pub proof fn lemma_swept_valid<R: IsValid>(q: Seq<R>)
    ensures
        forall|i: int| 0 <= i < swept(q).len() ==> (#[trigger] swept(q)[i]).valid(),
    decreases q.len(),
{
    if q.len() > 0 {
        let rest = q.subrange(1, q.len() as int);
        lemma_swept_valid(rest);
        if q[0].valid() {
            assert(swept(q) == seq![q[0]] + swept(rest));
            assert forall|i: int| 0 <= i < swept(q).len() implies (#[trigger] swept(q)[i]).valid()
            by {
                if i == 0 {
                    assert(swept(q)[0] == q[0]);
                } else {
                    assert(swept(q)[i] == swept(rest)[i - 1]);
                }
            }
        } else {
            assert(swept(q) == swept(rest));
        }
    }
}

/// A backlog of valid items passes the sweep untouched.
pub proof fn lemma_swept_all_valid<R: IsValid>(q: Seq<R>)
    requires
        forall|i: int| 0 <= i < q.len() ==> (#[trigger] q[i]).valid(),
    ensures
        swept(q) == q,
    decreases q.len(),
{
    if q.len() > 0 {
        let rest = q.subrange(1, q.len() as int);
        lemma_swept_all_valid(rest);
        assert(seq![q[0]] + rest =~= q);
    }
}

/// Per-selector state: the pending payloads in arrival order, and the wakeup
/// handle shared with every consumer currently waiting on this selector.
pub struct Queue<R> {
    items: VecDeque<R>,
    signal: Arc<Notify>,
}

impl<R> View for Queue<R> {
    type V = Seq<R>;

    closed spec fn view(&self) -> Seq<R> {
        self.items@
    }
}

impl<R> Queue<R> {
    /// The identity of the queue's wakeup handle.
    pub closed spec fn handle(self) -> Arc<Notify> {
        self.signal
    }

    /// The backlog never exceeds the capacity.
    pub open spec fn wf(self) -> bool {
        self@.len() <= MAX_ITEMS
    }

    /// An empty queue with a fresh wakeup handle.
    pub fn new() -> (q: Queue<R>)
        ensures
            q@ == Seq::<R>::empty(),
            q.wf(),
    {
        Queue { items: VecDeque::new(), signal: Arc::new(Notify::new()) }
    }

    /// How many items are pending.
    pub fn len(&self) -> (n: usize)
        ensures
            n == self@.len(),
    {
        self.items.len()
    }

    /// A clone of the wakeup handle, for a consumer to wait on after the
    /// shard lock is released.
    pub fn clone_handle(&self) -> (h: Arc<Notify>)
        ensures
            h == self.handle(),
    {
        clone_signal(&self.signal)
    }

    /// Append `data` if the backlog is below capacity and signal the wakeup
    /// handle (waking one waiting consumer, or storing the permit for the
    /// next one); at capacity, drop `data` silently and signal nothing.
    pub fn submit(&mut self, data: R)
        ensures
            final(self)@ == submit_step(old(self)@, data),
            final(self).handle() == old(self).handle(),
            old(self).wf() ==> final(self).wf(),
    {
        if self.items.len() < MAX_ITEMS {
            self.items.push_back(data);
            self.signal.notify_one();
        }
    }

    /// Pop the oldest pending item, if any.
    pub fn pop_item(&mut self) -> (r: Option<R>)
        ensures
            final(self).handle() == old(self).handle(),
            old(self)@.len() > 0 ==> (r matches Some(item) && item == old(self)@[0] && final(self)@
                == old(self)@.subrange(1, old(self)@.len() as int)),
            old(self)@.len() == 0 ==> (r is None && final(self)@ == old(self)@),
            old(self).wf() ==> final(self).wf(),
    {
        self.items.pop_front()
    }
}

impl<R: IsValid> Queue<R> {
    /// Drop every stale item, keeping the valid ones in order. The wakeup
    /// handle is not disturbed.
    pub(crate) fn retain_valid(&mut self)
        ensures
            final(self)@ == swept(old(self)@),
            final(self).handle() == old(self).handle(),
    {
        let ghost s = self.items@;
        let mut out: VecDeque<R> = VecDeque::new();
        while self.items.len() > 0
            invariant
                swept(s) == out@ + swept(self.items@),
                self.signal == old(self).signal,
            decreases self.items.len(),
        {
            let ghost rest = self.items@.subrange(1, self.items@.len() as int);
            let ghost pre_out = out@;
            match self.items.pop_front() {
                Some(item) => {
                    if item.is_valid() {
                        out.push_back(item);
                        proof {
                            assert(pre_out + (seq![item] + swept(rest)) =~= out@ + swept(rest));
                        }
                    }
                },
                None => {},
            }
        }
        proof {
            assert(self.items@.len() == 0);
            assert(swept(s) =~= out@);
        }
        self.items = out;
    }
}

impl<R> Default for Queue<R> {
    fn default() -> (q: Queue<R>)
        ensures
            q@ == Seq::<R>::empty(),
            q.wf(),
    {
        Queue::new()
    }
}

} // verus!
