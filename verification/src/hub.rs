//! The broker facade: a fixed array of shards and an immutable routing seed.
//!
//! Every operation resolves its selector to exactly one shard, so producers
//! and consumers of one selector always meet in the same queue, and distinct
//! selectors in distinct shards never disturb one another. The embedding
//! program supplies the concurrency: one lock per hub (or per shard), the
//! suspension of a consumer on the wakeup handle `try_acquire` hands out,
//! and the paced background loop that drives `sweep_shard`.

use std::sync::Arc;
use tokio::sync::Notify;
use vstd::prelude::*;

use crate::queue::{swept, submit_step, IsValid};
use crate::shard::Shard;

verus! {

/// Number of independently lockable partitions of the selector keyspace.
pub const NUM_SHARDS: usize = 64;

/// The multiplier of the routing hash (the FNV-1a prime).
pub const ROUTE_PRIME: u64 = 0x100000001b3;

/// One step of the routing hash: fold one byte into the accumulator.
pub open spec fn route_mix(h: u64, b: u8) -> u64 {
    (h ^ (b as u64)).wrapping_mul(ROUTE_PRIME)
}

/// The routing hash of a byte string, folded left to right from the seed.
pub open spec fn route_hash(seed: u64, bs: Seq<u8>) -> u64
    decreases bs.len(),
{
    if bs.len() == 0 {
        seed
    } else {
        route_mix(route_hash(seed, bs.drop_last()), bs.last())
    }
}

/// Which shard a selector belongs to: a pure function of the seed and the
/// selector's text, so a selector routes identically for the hub's lifetime.
pub open spec fn route_spec(seed: u64, k: Seq<char>) -> int {
    route_hash(seed, vstd::utf8::encode_utf8(k)) as int % (NUM_SHARDS as int)
}

/// The broker: routes submit, acquire attempts and sweeps to one shard each.
pub struct Hub<R> {
    seed: u64,
    shards: Vec<Shard<R>>,
}

impl<R> Hub<R> {
    /// The seed the routing hash was fixed with at construction.
    pub closed spec fn routing_seed(self) -> u64 {
        self.seed
    }

    /// The shard table.
    pub closed spec fn shards_seq(self) -> Seq<Shard<R>> {
        self.shards@
    }

    /// The full complement of shards, each well-formed.
    pub open spec fn wf(self) -> bool {
        &&& self.shards_seq().len() == NUM_SHARDS
        &&& (forall|i: int| 0 <= i < NUM_SHARDS ==> (#[trigger] self.shards_seq()[i]).wf())
    }

    /// The shard index this hub routes selector `k` to.
    pub open spec fn route_of(self, k: Seq<char>) -> int {
        route_spec(self.routing_seed(), k)
    }

    /// Whether a queue currently exists for selector `k`.
    pub open spec fn has_key(self, k: Seq<char>) -> bool {
        self.shards_seq()[self.route_of(k)].has_key(k)
    }

    /// The pending items of selector `k`, oldest first.
    pub open spec fn backlog(self, k: Seq<char>) -> Seq<R> {
        self.shards_seq()[self.route_of(k)].backlog(k)
    }

    /// The wakeup handle of selector `k`'s queue (meaningful only when
    /// `has_key`).
    pub open spec fn handle_of(self, k: Seq<char>) -> Arc<Notify> {
        self.shards_seq()[self.route_of(k)].handle_of(k)
    }

    /// A hub of `NUM_SHARDS` empty shards routing by `seed`. The seed should
    /// be drawn at random per hub by the embedding program, so that an
    /// adversary cannot aim selectors at one shard; any seed is correct.
    pub fn new(seed: u64) -> (h: Hub<R>)
        ensures
            h.wf(),
            h.routing_seed() == seed,
            forall|k: Seq<char>| !(#[trigger] h.has_key(k)),
            forall|k: Seq<char>| #[trigger] h.backlog(k) == Seq::<R>::empty(),
    {
        let mut shards: Vec<Shard<R>> = Vec::new();
        while shards.len() < NUM_SHARDS
            invariant
                shards@.len() <= NUM_SHARDS,
                forall|i: int| 0 <= i < shards@.len() ==> (#[trigger] shards@[i]).wf(),
                forall|i: int, k: Seq<char>|
                    0 <= i < shards@.len() ==> !(#[trigger] shards@[i].has_key(k)),
            decreases NUM_SHARDS - shards.len(),
        {
            shards.push(Shard::new());
        }
        let h = Hub { seed, shards };
        proof {
            assert forall|k: Seq<char>| !(#[trigger] h.has_key(k)) && h.backlog(k) == Seq::<
                R,
            >::empty() by {
                assert(0 <= h.route_of(k) < NUM_SHARDS);
            }
        }
        h
    }

    /// The shard index for `selector`, computed by the seeded hash.
    fn route(&self, selector: &String) -> (i: usize)
        ensures
            i < NUM_SHARDS,
            i as int == self.route_of(selector@),
    {
        let bytes = selector.as_str().as_bytes();
        let ghost bs = bytes@;
        let mut h: u64 = self.seed;
        let mut idx: usize = 0;
        while idx < bytes.len()
            invariant
                idx <= bs.len(),
                bytes@ == bs,
                h == route_hash(self.seed, bs.subrange(0, idx as int)),
            decreases bs.len() - idx,
        {
            h = (h ^ (bytes[idx] as u64)).wrapping_mul(ROUTE_PRIME);
            proof {
                let taken = bs.subrange(0, idx as int + 1);
                assert(taken.drop_last() =~= bs.subrange(0, idx as int));
                assert(taken.last() == bs[idx as int]);
            }
            idx += 1;
        }
        proof {
            assert(bs.subrange(0, bs.len() as int) =~= bs);
            assert(bs == vstd::utf8::encode_utf8(selector@));
        }
        (h % (NUM_SHARDS as u64)) as usize
    }

    /// Route `selector`, then append `data` to its queue if the queue is
    /// below capacity (creating it first if absent) and signal the queue's
    /// wakeup handle; at capacity the item is silently dropped. The call
    /// always "succeeds": there is no result and no error. No other
    /// selector's state is touched.
    pub fn submit(&mut self, selector: String, data: R)
        requires
            old(self).wf(),
        ensures
            final(self).wf(),
            final(self).routing_seed() == old(self).routing_seed(),
            final(self).has_key(selector@),
            final(self).backlog(selector@) == submit_step(old(self).backlog(selector@), data),
            old(self).has_key(selector@) ==> final(self).handle_of(selector@) == old(self).handle_of(
                selector@,
            ),
            forall|k: Seq<char>|
                k != selector@ ==> #[trigger] final(self).has_key(k) == old(self).has_key(k),
            forall|k: Seq<char>|
                k != selector@ ==> #[trigger] final(self).backlog(k) == old(self).backlog(k),
            forall|k: Seq<char>|
                k != selector@ && old(self).has_key(k) ==> #[trigger] final(self).handle_of(k)
                    == old(self).handle_of(k),
    {
        let ghost pre = *old(self);
        let i = self.route(&selector);
        let ghost sel = selector@;
        let mut sh = self.shards.remove(i);
        sh.submit(selector, data);
        self.shards.insert(i, sh);
        proof {
            self.lemma_shard_frame(pre, i as int, sel);
        }
    }

    /// Route `selector`, then pop its oldest pending item; if none is
    /// pending, create the queue if absent and hand back a clone of its
    /// wakeup handle, for the caller to wait on outside the shard lock. The
    /// handle returned is the very handle the next submission for `selector`
    /// signals, as long as no sweep removes the queue in between. No other
    /// selector's state is touched.
    pub fn try_acquire(&mut self, selector: String) -> (r: Result<R, Arc<Notify>>)
        requires
            old(self).wf(),
        ensures
            final(self).wf(),
            final(self).routing_seed() == old(self).routing_seed(),
            final(self).has_key(selector@),
            ({
                let q0 = old(self).backlog(selector@);
                q0.len() > 0 ==> (r matches Ok(item) && item == q0[0] && final(self).backlog(
                    selector@,
                ) == q0.subrange(1, q0.len() as int))
            }),
            old(self).backlog(selector@).len() == 0 ==> (r matches Err(h) && h == final(self).handle_of(
                selector@,
            ) && final(self).backlog(selector@) == Seq::<R>::empty()),
            old(self).has_key(selector@) ==> final(self).handle_of(selector@) == old(self).handle_of(
                selector@,
            ),
            forall|k: Seq<char>|
                k != selector@ ==> #[trigger] final(self).has_key(k) == old(self).has_key(k),
            forall|k: Seq<char>|
                k != selector@ ==> #[trigger] final(self).backlog(k) == old(self).backlog(k),
            forall|k: Seq<char>|
                k != selector@ && old(self).has_key(k) ==> #[trigger] final(self).handle_of(k)
                    == old(self).handle_of(k),
    {
        let ghost pre = *old(self);
        let i = self.route(&selector);
        let ghost sel = selector@;
        let mut sh = self.shards.remove(i);
        let r = sh.try_acquire(selector);
        self.shards.insert(i, sh);
        proof {
            self.lemma_shard_frame(pre, i as int, sel);
        }
        r
    }

    /// Whether a queue currently exists for `selector` — exposed so that the
    /// reclamation of fully swept queues is observable.
    pub fn contains_selector(&self, selector: &String) -> (b: bool)
        requires
            self.wf(),
        ensures
            b == self.has_key(selector@),
    {
        let i = self.route(selector);
        self.shards[i].contains(selector)
    }

    /// How many items are pending for `selector`.
    pub fn pending(&self, selector: &String) -> (n: usize)
        requires
            self.wf(),
        ensures
            n == self.backlog(selector@).len(),
    {
        let i = self.route(selector);
        self.shards[i].backlog_len(selector)
    }

    /// After one shard was replaced by a well-formed successor, the hub's
    /// per-selector state is the successor's for selectors routed to it and
    /// untouched for all others.
    proof fn lemma_shard_frame(self, pre: Hub<R>, i: int, sel: Seq<char>)
        requires
            pre.wf(),
            0 <= i < NUM_SHARDS,
            self.routing_seed() == pre.routing_seed(),
            self.shards_seq().len() == NUM_SHARDS,
            self.shards_seq()[i].wf(),
            forall|j: int|
                0 <= j < NUM_SHARDS && j != i ==> #[trigger] self.shards_seq()[j]
                    == pre.shards_seq()[j],
        ensures
            self.wf(),
            forall|k: Seq<char>|
                self.route_of(k) != i ==> #[trigger] self.has_key(k) == pre.has_key(k)
                    && self.backlog(k) == pre.backlog(k) && self.handle_of(k) == pre.handle_of(k),
            forall|k: Seq<char>| 0 <= #[trigger] self.route_of(k) < NUM_SHARDS,
            forall|k: Seq<char>| #[trigger] self.route_of(k) == pre.route_of(k),
    {
        assert forall|j: int| 0 <= j < NUM_SHARDS implies (#[trigger] self.shards_seq()[j]).wf() by {
            if j != i {
                assert(self.shards_seq()[j] == pre.shards_seq()[j]);
            }
        }
    }
}

impl<R: IsValid> Hub<R> {
    /// Sweep shard `i`: for every selector routed to it, discard the stale
    /// items and drop the queue entirely when nothing valid is left, so that
    /// the selector no longer appears at all. Selectors routed to other
    /// shards are untouched. The background loop calls this for each shard
    /// in turn, pausing between shards.
    pub fn sweep_shard(&mut self, i: usize)
        requires
            old(self).wf(),
            i < NUM_SHARDS,
        ensures
            final(self).wf(),
            final(self).routing_seed() == old(self).routing_seed(),
            forall|k: Seq<char>|
                #[trigger] old(self).route_of(k) == i ==> final(self).has_key(k) == (old(
                    self,
                ).has_key(k) && swept(old(self).backlog(k)).len() > 0),
            forall|k: Seq<char>|
                #[trigger] old(self).route_of(k) == i ==> final(self).backlog(k) == swept(
                    old(self).backlog(k),
                ),
            forall|k: Seq<char>|
                old(self).route_of(k) == i && final(self).has_key(k)
                    ==> #[trigger] final(self).handle_of(k) == old(self).handle_of(k),
            forall|k: Seq<char>, j: int|
                old(self).route_of(k) == i && 0 <= j < final(self).backlog(k).len() ==> (
                #[trigger] final(self).backlog(k)[j]).valid(),
            forall|k: Seq<char>|
                old(self).route_of(k) != i ==> #[trigger] final(self).has_key(k) == old(
                    self,
                ).has_key(k) && final(self).backlog(k) == old(self).backlog(k),
            forall|k: Seq<char>|
                old(self).route_of(k) != i && old(self).has_key(k)
                    ==> #[trigger] final(self).handle_of(k) == old(self).handle_of(k),
    {
        let ghost pre = *old(self);
        let mut sh = self.shards.remove(i);
        sh.sweep();
        self.shards.insert(i, sh);
        proof {
            self.lemma_shard_frame(pre, i as int, Seq::<char>::empty());
        }
    }
}

} // verus!
