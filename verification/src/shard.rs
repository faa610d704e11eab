//! One partition of the selector keyspace: a selector-to-queue table that
//! the embedding program guards with a single lock, held only for the
//! duration of one call — never across a suspension point.

use std::sync::Arc;
use tokio::sync::Notify;
use vstd::prelude::*;

use crate::queue::{swept, lemma_swept_len, lemma_swept_valid, submit_step, IsValid, Queue};

verus! {

/// One partition of the selector keyspace: a selector-to-queue table touched
/// by at most one operation at a time.
pub struct Shard<R> {
    entries: Vec<(String, Queue<R>)>,
}

impl<R> Shard<R> {
    /// The table as a sequence of (selector, queue) entries.
    pub closed spec fn entries_seq(self) -> Seq<(String, Queue<R>)> {
        self.entries@
    }

    /// Selectors are unique and every queue is within capacity.
    pub open spec fn wf(self) -> bool {
        &&& (forall|i: int, j: int|
            0 <= i < j < self.entries_seq().len() ==> (#[trigger] self.entries_seq()[i]).0@ != (
            #[trigger] self.entries_seq()[j]).0@)
        &&& (forall|i: int|
            0 <= i < self.entries_seq().len() ==> (#[trigger] self.entries_seq()[i]).1.wf())
    }

    /// Whether a queue exists for selector `k`.
    pub open spec fn has_key(self, k: Seq<char>) -> bool {
        exists|i: int|
            0 <= i < self.entries_seq().len() && (#[trigger] self.entries_seq()[i]).0@ == k
    }

    /// The index of selector `k`'s entry (meaningful only when `has_key`).
    pub open spec fn idx_of(self, k: Seq<char>) -> int {
        choose|i: int|
            0 <= i < self.entries_seq().len() && (#[trigger] self.entries_seq()[i]).0@ == k
    }

    /// The pending items of selector `k`, oldest first; empty if no queue
    /// exists.
    pub open spec fn backlog(self, k: Seq<char>) -> Seq<R> {
        if self.has_key(k) {
            self.entries_seq()[self.idx_of(k)].1@
        } else {
            Seq::<R>::empty()
        }
    }

    /// The wakeup handle of selector `k`'s queue (meaningful only when
    /// `has_key`).
    pub open spec fn handle_of(self, k: Seq<char>) -> Arc<Notify> {
        self.entries_seq()[self.idx_of(k)].1.handle()
    }

    /// In a well-formed shard the entry at `j` is the one `idx_of` finds for
    /// its selector.
    proof fn lemma_entry_at(self, j: int)
        requires
            self.wf(),
            0 <= j < self.entries_seq().len(),
        ensures
            self.has_key(self.entries_seq()[j].0@),
            self.idx_of(self.entries_seq()[j].0@) == j,
    {
        let k = self.entries_seq()[j].0@;
        assert(self.has_key(k));
        let i = self.idx_of(k);
        if i != j {
            if i < j {
                assert(self.entries_seq()[i].0@ != self.entries_seq()[j].0@);
            } else {
                assert(self.entries_seq()[j].0@ != self.entries_seq()[i].0@);
            }
        }
    }

    /// An empty shard.
    pub fn new() -> (s: Shard<R>)
        ensures
            s.wf(),
            forall|k: Seq<char>| !(#[trigger] s.has_key(k)),
            forall|k: Seq<char>| #[trigger] s.backlog(k) == Seq::<R>::empty(),
    {
        let s = Shard { entries: Vec::new() };
        s
    }

    /// The position of selector `selector`'s entry, if one exists.
    fn find_idx(&self, selector: &String) -> (r: Option<usize>)
        ensures
            match r {
                Some(i) => i < self.entries_seq().len() && self.entries_seq()[i as int].0@
                    == selector@,
                None => !self.has_key(selector@),
            },
    {
        let mut i: usize = 0;
        while i < self.entries.len()
            invariant
                i <= self.entries.len(),
                forall|j: int| 0 <= j < i ==> (#[trigger] self.entries@[j]).0@ != selector@,
            decreases self.entries.len() - i,
        {
            if self.entries[i].0 == *selector {
                return Some(i);
            }
            i += 1;
        }
        None
    }

    /// Whether a queue currently exists for `selector`.
    pub fn contains(&self, selector: &String) -> (b: bool)
        ensures
            b == self.has_key(selector@),
    {
        match self.find_idx(selector) {
            Some(_) => true,
            None => false,
        }
    }

    /// How many items are pending for `selector`.
    pub fn backlog_len(&self, selector: &String) -> (n: usize)
        requires
            self.wf(),
        ensures
            n == self.backlog(selector@).len(),
    {
        match self.find_idx(selector) {
            Some(i) => {
                proof {
                    self.lemma_entry_at(i as int);
                }
                self.entries[i].1.len()
            },
            None => 0,
        }
    }

    /// Append `data` to `selector`'s queue if it is below capacity, creating
    /// the queue first if none exists, and signal the queue's wakeup handle;
    /// at capacity the item is dropped and nothing is signalled. No other
    /// selector's state is touched.
    pub fn submit(&mut self, selector: String, data: R)
        requires
            old(self).wf(),
        ensures
            final(self).wf(),
            final(self).has_key(selector@),
            final(self).backlog(selector@) == submit_step(old(self).backlog(selector@), data),
            old(self).has_key(selector@) ==> final(self).handle_of(selector@) == old(
                self,
            ).handle_of(selector@),
            forall|k: Seq<char>|
                k != selector@ ==> #[trigger] final(self).has_key(k) == old(self).has_key(k),
            forall|k: Seq<char>|
                k != selector@ ==> #[trigger] final(self).backlog(k) == old(self).backlog(k),
            forall|k: Seq<char>|
                k != selector@ && old(self).has_key(k) ==> #[trigger] final(self).handle_of(k)
                    == old(self).handle_of(k),
    {
        let ghost pre = *old(self);
        match self.find_idx(&selector) {
            Some(i) => {
                proof {
                    pre.lemma_entry_at(i as int);
                }
                let (sel, mut q) = self.entries.remove(i);
                q.submit(data);
                self.entries.insert(i, (sel, q));
                proof {
                    assert(self.entries@ =~= pre.entries@.update(i as int, self.entries@[i as int]));
                    self.lemma_frame_update(pre, i as int, selector@);
                }
            },
            None => {
                let mut q = Queue::new();
                q.submit(data);
                self.entries.push((selector, q));
                proof {
                    self.lemma_frame_push(pre);
                }
            },
        }
    }

    /// Pop the oldest pending item for `selector`, or hand out the queue's
    /// wakeup handle to wait on if the queue is empty — creating an empty
    /// queue first if none exists, so that a consumer waiting before any
    /// submission still holds the handle the first submission will signal.
    /// No other selector's state is touched.
    pub fn try_acquire(&mut self, selector: String) -> (r: Result<R, Arc<Notify>>)
        requires
            old(self).wf(),
        ensures
            final(self).wf(),
            final(self).has_key(selector@),
            ({
                let q0 = old(self).backlog(selector@);
                q0.len() > 0 ==> (r matches Ok(item) && item == q0[0] && final(self).backlog(
                    selector@,
                ) == q0.subrange(1, q0.len() as int))
            }),
            old(self).backlog(selector@).len() == 0 ==> (r matches Err(h) && h == final(self).handle_of(
                selector@,
            ) && final(self).backlog(selector@) == Seq::<R>::empty()),
            old(self).has_key(selector@) ==> final(self).handle_of(selector@) == old(self).handle_of(
                selector@,
            ),
            forall|k: Seq<char>|
                k != selector@ ==> #[trigger] final(self).has_key(k) == old(self).has_key(k),
            forall|k: Seq<char>|
                k != selector@ ==> #[trigger] final(self).backlog(k) == old(self).backlog(k),
            forall|k: Seq<char>|
                k != selector@ && old(self).has_key(k) ==> #[trigger] final(self).handle_of(k)
                    == old(self).handle_of(k),
    {
        let ghost pre = *old(self);
        match self.find_idx(&selector) {
            Some(i) => {
                proof {
                    pre.lemma_entry_at(i as int);
                }
                let (sel, mut q) = self.entries.remove(i);
                let r = match q.pop_item() {
                    Some(item) => Ok(item),
                    None => Err(q.clone_handle()),
                };
                self.entries.insert(i, (sel, q));
                proof {
                    assert(self.entries@ =~= pre.entries@.update(i as int, self.entries@[i as int]));
                    self.lemma_frame_update(pre, i as int, selector@);
                }
                r
            },
            None => {
                let q = Queue::new();
                let h = q.clone_handle();
                self.entries.push((selector, q));
                proof {
                    self.lemma_frame_push(pre);
                }
                Err(h)
            },
        }
    }

    /// After replacing the entry at `i` with one of the same selector, every
    /// other selector's view of the shard is unchanged.
    proof fn lemma_frame_update(self, pre: Shard<R>, i: int, k0: Seq<char>)
        requires
            pre.wf(),
            0 <= i < pre.entries_seq().len(),
            pre.entries_seq()[i].0@ == k0,
            self.entries_seq().len() == pre.entries_seq().len(),
            self.entries_seq()[i].0@ == k0,
            self.entries_seq()[i].1.wf(),
            forall|j: int|
                0 <= j < pre.entries_seq().len() && j != i ==> self.entries_seq()[j]
                    == pre.entries_seq()[j],
        ensures
            self.wf(),
            self.has_key(k0),
            self.idx_of(k0) == i,
            self.backlog(k0) == self.entries_seq()[i].1@,
            self.handle_of(k0) == self.entries_seq()[i].1.handle(),
            forall|k: Seq<char>| k != k0 ==> #[trigger] self.has_key(k) == pre.has_key(k),
            forall|k: Seq<char>| k != k0 ==> #[trigger] self.backlog(k) == pre.backlog(k),
            forall|k: Seq<char>|
                k != k0 && pre.has_key(k) ==> #[trigger] self.handle_of(k) == pre.handle_of(k),
    {
        assert forall|a: int, b: int| 0 <= a < b < self.entries_seq().len() implies (
        #[trigger] self.entries_seq()[a]).0@ != (#[trigger] self.entries_seq()[b]).0@ by {
            assert(pre.entries_seq()[a].0@ != pre.entries_seq()[b].0@);
        }
        assert forall|j: int| 0 <= j < self.entries_seq().len() implies (
        #[trigger] self.entries_seq()[j]).1.wf() by {
            if j != i {
                assert(pre.entries_seq()[j].1.wf());
            }
        }
        self.lemma_entry_at(i);
        assert forall|k: Seq<char>| k != k0 implies #[trigger] self.has_key(k) == pre.has_key(
            k,
        ) by {
            if pre.has_key(k) {
                let j = pre.idx_of(k);
                assert(self.entries_seq()[j].0@ == k);
            }
            if self.has_key(k) {
                let j = self.idx_of(k);
                assert(pre.entries_seq()[j].0@ == k);
            }
        }
        assert forall|k: Seq<char>| k != k0 && pre.has_key(k) implies #[trigger] self.backlog(k)
            == pre.backlog(k) && self.handle_of(k) == pre.handle_of(k) by {
            let j = pre.idx_of(k);
            pre.lemma_entry_at(j);
            assert(self.entries_seq()[j].0@ == k);
            self.lemma_entry_at(j);
        }
    }

    /// After appending an entry with a selector the shard did not hold, every
    /// other selector's view of the shard is unchanged.
    proof fn lemma_frame_push(self, pre: Shard<R>)
        requires
            pre.wf(),
            self.entries_seq().len() == pre.entries_seq().len() + 1,
            forall|j: int|
                0 <= j < pre.entries_seq().len() ==> self.entries_seq()[j] == pre.entries_seq()[j],
            !pre.has_key(self.entries_seq()[pre.entries_seq().len() as int].0@),
            self.entries_seq()[pre.entries_seq().len() as int].1.wf(),
        ensures
            self.wf(),
            self.has_key(self.entries_seq()[pre.entries_seq().len() as int].0@),
            self.idx_of(self.entries_seq()[pre.entries_seq().len() as int].0@)
                == pre.entries_seq().len(),
            forall|k: Seq<char>|
                k != self.entries_seq()[pre.entries_seq().len() as int].0@ ==> #[trigger] self.has_key(
                    k,
                ) == pre.has_key(k),
            forall|k: Seq<char>|
                k != self.entries_seq()[pre.entries_seq().len() as int].0@ ==> #[trigger] self.backlog(
                    k,
                ) == pre.backlog(k),
            forall|k: Seq<char>|
                k != self.entries_seq()[pre.entries_seq().len() as int].0@ && pre.has_key(k)
                    ==> #[trigger] self.handle_of(k) == pre.handle_of(k),
    {
        let n = pre.entries_seq().len() as int;
        let k0 = self.entries_seq()[n].0@;
        assert forall|a: int, b: int| 0 <= a < b < self.entries_seq().len() implies (
        #[trigger] self.entries_seq()[a]).0@ != (#[trigger] self.entries_seq()[b]).0@ by {
            if b < n {
                assert(pre.entries_seq()[a].0@ != pre.entries_seq()[b].0@);
            } else {
                assert(pre.entries_seq()[a].0@ == self.entries_seq()[a].0@);
                if self.entries_seq()[a].0@ == k0 {
                    assert(pre.has_key(k0));
                }
            }
        }
        assert forall|j: int| 0 <= j < self.entries_seq().len() implies (
        #[trigger] self.entries_seq()[j]).1.wf() by {
            if j < n {
                assert(pre.entries_seq()[j].1.wf());
            }
        }
        self.lemma_entry_at(n);
        assert forall|k: Seq<char>| k != k0 implies #[trigger] self.has_key(k) == pre.has_key(
            k,
        ) by {
            if pre.has_key(k) {
                let j = pre.idx_of(k);
                assert(self.entries_seq()[j].0@ == k);
            }
            if self.has_key(k) {
                let j = self.idx_of(k);
                assert(j != n);
                assert(pre.entries_seq()[j].0@ == k);
            }
        }
        assert forall|k: Seq<char>| k != k0 && pre.has_key(k) implies #[trigger] self.backlog(k)
            == pre.backlog(k) && self.handle_of(k) == pre.handle_of(k) by {
            let j = pre.idx_of(k);
            pre.lemma_entry_at(j);
            assert(self.entries_seq()[j].0@ == k);
            self.lemma_entry_at(j);
        }
    }
}


/// The kept entry `e` is what the sweep makes of the original entry `o`:
/// same selector, same wakeup handle, the swept backlog — and that backlog is
/// not empty, else the entry would have been dropped.
spec fn entry_swept_from<R: IsValid>(e: (String, Queue<R>), o: (String, Queue<R>)) -> bool {
    &&& e.0@ == o.0@
    &&& e.1@ == swept(o.1@)
    &&& e.1.handle() == o.1.handle()
    &&& e.1@.len() > 0
}

/// The sweep loop's bookkeeping: `kept` holds, in order, exactly the swept
/// survivors of the first `done` entries of `orig`, with distinct selectors.
spec fn sweep_inv<R: IsValid>(
    orig: Seq<(String, Queue<R>)>,
    kept: Seq<(String, Queue<R>)>,
    done: int,
) -> bool {
    &&& 0 <= done <= orig.len()
    &&& (forall|m: int|
        0 <= m < kept.len() ==> exists|n: int|
            0 <= n < done && entry_swept_from(#[trigger] kept[m], orig[n]))
    &&& (forall|n: int|
        0 <= n < done && swept((#[trigger] orig[n]).1@).len() > 0 ==> exists|m: int|
            0 <= m < kept.len() && entry_swept_from(kept[m], orig[n]))
    &&& (forall|m1: int, m2: int|
        0 <= m1 < m2 < kept.len() ==> (#[trigger] kept[m1]).0@ != (#[trigger] kept[m2]).0@)
}

/// Keeping the swept entry `e` of `orig[done]` preserves the bookkeeping.
proof fn lemma_sweep_keep<R: IsValid>(
    orig: Seq<(String, Queue<R>)>,
    kept: Seq<(String, Queue<R>)>,
    done: int,
    e: (String, Queue<R>),
)
    requires
        sweep_inv(orig, kept, done),
        done < orig.len(),
        forall|i: int, j: int|
            0 <= i < j < orig.len() ==> (#[trigger] orig[i]).0@ != (#[trigger] orig[j]).0@,
        entry_swept_from(e, orig[done]),
    ensures
        sweep_inv(orig, kept.push(e), done + 1),
{
    let kept2 = kept.push(e);
    assert forall|m: int| 0 <= m < kept2.len() implies exists|n: int|
        0 <= n < done + 1 && entry_swept_from(#[trigger] kept2[m], orig[n]) by {
        if m < kept.len() {
            assert(kept2[m] == kept[m]);
            let n = choose|n: int| 0 <= n < done && entry_swept_from(kept[m], orig[n]);
            assert(entry_swept_from(kept2[m], orig[n]));
        } else {
            assert(kept2[m] == e);
            assert(entry_swept_from(kept2[m], orig[done]));
        }
    }
    assert forall|n: int|
        0 <= n < done + 1 && swept((#[trigger] orig[n]).1@).len() > 0 implies exists|m: int|
        0 <= m < kept2.len() && entry_swept_from(kept2[m], orig[n]) by {
        if n < done {
            let m = choose|m: int| 0 <= m < kept.len() && entry_swept_from(kept[m], orig[n]);
            assert(kept2[m] == kept[m]);
            assert(entry_swept_from(kept2[m], orig[n]));
        } else {
            assert(kept2[kept.len() as int] == e);
            assert(entry_swept_from(kept2[kept.len() as int], orig[done]));
        }
    }
    assert forall|m1: int, m2: int| 0 <= m1 < m2 < kept2.len() implies (#[trigger] kept2[m1]).0@
        != (#[trigger] kept2[m2]).0@ by {
        if m2 < kept.len() {
            assert(kept[m1].0@ != kept[m2].0@);
        } else {
            assert(kept2[m1] == kept[m1]);
            assert(kept2[m2] == e);
            let n = choose|n: int| 0 <= n < done && entry_swept_from(kept[m1], orig[n]);
            assert(orig[n].0@ != orig[done].0@);
        }
    }
}

/// Dropping `orig[done]`, whose swept backlog is empty, preserves the
/// bookkeeping.
proof fn lemma_sweep_skip<R: IsValid>(
    orig: Seq<(String, Queue<R>)>,
    kept: Seq<(String, Queue<R>)>,
    done: int,
)
    requires
        sweep_inv(orig, kept, done),
        done < orig.len(),
        swept(orig[done].1@).len() == 0,
    ensures
        sweep_inv(orig, kept, done + 1),
{
    assert forall|n: int|
        0 <= n < done + 1 && swept((#[trigger] orig[n]).1@).len() > 0 implies exists|m: int|
        0 <= m < kept.len() && entry_swept_from(kept[m], orig[n]) by {
        assert(n < done);
        let m = choose|m: int| 0 <= m < kept.len() && entry_swept_from(kept[m], orig[n]);
        assert(entry_swept_from(kept[m], orig[n]));
    }
}

/// Once every original entry was processed, the bookkeeping yields the
/// sweep's per-selector contract.
proof fn lemma_sweep_end<R: IsValid>(pre: Shard<R>, fin: Shard<R>)
    requires
        pre.wf(),
        sweep_inv(pre.entries_seq(), fin.entries_seq(), pre.entries_seq().len() as int),
    ensures
        fin.wf(),
        forall|k: Seq<char>|
            #[trigger] fin.has_key(k) == (pre.has_key(k) && swept(pre.backlog(k)).len() > 0),
        forall|k: Seq<char>| #[trigger] fin.backlog(k) == swept(pre.backlog(k)),
        forall|k: Seq<char>|
            fin.has_key(k) ==> #[trigger] fin.handle_of(k) == pre.handle_of(k),
{
    let orig = pre.entries_seq();
    let done = orig.len() as int;
    assert forall|m: int| 0 <= m < fin.entries_seq().len() implies (
    #[trigger] fin.entries_seq()[m]).1.wf() by {
        let n = choose|n: int| 0 <= n < done && entry_swept_from(fin.entries_seq()[m], orig[n]);
        lemma_swept_len(orig[n].1@);
        assert(orig[n].1.wf());
    }
    assert(fin.wf());
    assert forall|k: Seq<char>|
        #![trigger fin.has_key(k)]
        #![trigger fin.backlog(k)]
        #![trigger fin.handle_of(k)]
        fin.has_key(k) == (pre.has_key(k) && swept(pre.backlog(k)).len() > 0) && fin.backlog(k)
            == swept(pre.backlog(k)) && (fin.has_key(k) ==> fin.handle_of(k) == pre.handle_of(
            k,
        )) by {
        if pre.has_key(k) {
            let n = pre.idx_of(k);
            pre.lemma_entry_at(n);
            if swept(orig[n].1@).len() > 0 {
                let m = choose|m: int|
                    0 <= m < fin.entries_seq().len() && entry_swept_from(
                        fin.entries_seq()[m],
                        orig[n],
                    );
                fin.lemma_entry_at(m);
                assert(fin.has_key(k));
                assert(fin.backlog(k) == swept(pre.backlog(k)));
                assert(fin.handle_of(k) == pre.handle_of(k));
            } else {
                if fin.has_key(k) {
                    let m = fin.idx_of(k);
                    fin.lemma_entry_at(m);
                    let n2 = choose|n2: int|
                        0 <= n2 < done && entry_swept_from(fin.entries_seq()[m], orig[n2]);
                    pre.lemma_entry_at(n2);
                    assert(n2 == n);
                    assert(false);
                }
                assert(fin.backlog(k) =~= swept(pre.backlog(k)));
            }
        } else {
            if fin.has_key(k) {
                let m = fin.idx_of(k);
                fin.lemma_entry_at(m);
                let n2 = choose|n2: int|
                    0 <= n2 < done && entry_swept_from(fin.entries_seq()[m], orig[n2]);
                pre.lemma_entry_at(n2);
                assert(false);
            }
            assert(fin.backlog(k) =~= swept(pre.backlog(k)));
        }
    }
}

impl<R: IsValid> Shard<R> {
    /// Discard every stale item of every queue, and drop a queue entirely
    /// when nothing valid is left in it, so that the selector no longer
    /// appears in the table at all. Handles of surviving queues are not
    /// disturbed.
    #[verifier::spinoff_prover]
    pub fn sweep(&mut self)
        requires
            old(self).wf(),
        ensures
            final(self).wf(),
            forall|k: Seq<char>|
                #[trigger] final(self).has_key(k) == (old(self).has_key(k) && swept(
                    old(self).backlog(k),
                ).len() > 0),
            forall|k: Seq<char>| #[trigger] final(self).backlog(k) == swept(old(self).backlog(k)),
            forall|k: Seq<char>|
                final(self).has_key(k) ==> #[trigger] final(self).handle_of(k) == old(
                    self,
                ).handle_of(k),
            forall|k: Seq<char>, i: int|
                0 <= i < final(self).backlog(k).len() ==> (#[trigger] final(self).backlog(
                    k,
                )[i]).valid(),
    {
        let ghost orig = self.entries@;
        let mut kept: Vec<(String, Queue<R>)> = Vec::new();
        let ghost mut done: int = 0;
        while self.entries.len() > 0
            invariant
                old(self).wf(),
                orig == old(self).entries_seq(),
                0 <= done <= orig.len(),
                self.entries@ == orig.subrange(done, orig.len() as int),
                sweep_inv(orig, kept@, done),
            decreases self.entries.len(),
        {
            let ghost pre_entries = self.entries@;
            let (sel, mut q) = self.entries.remove(0);
            proof {
                assert(pre_entries[0] == orig[done]);
                assert(self.entries@ =~= orig.subrange(done + 1, orig.len() as int));
            }
            q.retain_valid();
            if q.len() > 0 {
                let ghost pre_kept = kept@;
                kept.push((sel, q));
                proof {
                    assert(entry_swept_from((sel, q), orig[done]));
                    lemma_sweep_keep(orig, pre_kept, done, (sel, q));
                    done = done + 1;
                }
            } else {
                proof {
                    assert(swept(orig[done].1@).len() == 0);
                    lemma_sweep_skip(orig, kept@, done);
                    done = done + 1;
                }
            }
        }
        proof {
            assert(done == orig.len());
        }
        self.entries = kept;
        proof {
            lemma_sweep_end(*old(self), *self);
            assert forall|k: Seq<char>, i: int|
                0 <= i < self.backlog(k).len() implies (#[trigger] self.backlog(k)[i]).valid() by {
                lemma_swept_valid(old(self).backlog(k));
            }
        }
    }
}

} // verus!
