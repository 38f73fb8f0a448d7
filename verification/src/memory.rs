//! In-process outbox store.
use crate::backoff::NEVER;
use crate::error::StoreError;
use crate::event::{Envelope, OutboxEvent};
use crate::event_id::EventId;
use crate::store::{truncate_error, Outbox, OutboxStore, Slot};
use std::collections::{BTreeSet, HashMap, HashSet};
use vstd::prelude::*;

verus! {

broadcast use {
    vstd::std_specs::hash::group_hash_axioms,
    vstd::std_specs::btree::group_btree_axioms,
    vstd::laws_cmp::group_laws_cmp,
};

/// Process-local [`OutboxStore`].
///
/// Events are indexed by id and mirrored into a [`BTreeSet`] ordered by
/// `(next_attempt_at, id)`: the deterministic `fetch_due` order, with no
/// ambiguity between simultaneous retries. Dispatched events keep only their
/// id, so memory stays bounded by the backlog, not by history.
#[derive(Debug)]
pub struct MemoryStore {
    inner: Inner,
}

#[derive(Debug)]
struct Inner {
    /// `id -> (next_attempt_at, event)` for every live event.
    events: HashMap<u128, (u64, OutboxEvent)>,
    /// Ordering index over `events`: `(next_attempt_at, id)`.
    queue: BTreeSet<(u64, u128)>,
    /// Ids handed to their consumer. Terminal.
    dispatched: HashSet<u128>,
}

/// What an entry of the event index holds.
spec fn slot_of(entry: (u64, OutboxEvent)) -> Slot {
    Slot { next_attempt_at: entry.0, event: entry.1@ }
}

impl Inner {
    spec fn outbox(self) -> Outbox {
        Outbox {
            live: self.events@.map_values(|entry: (u64, OutboxEvent)| slot_of(entry)),
            dispatched: self.dispatched@,
        }
    }

    spec fn wf(self) -> bool {
        &&& self.outbox().wf()
        &&& forall|at: u64, id: u128| #[trigger]
            self.queue@.contains((at, id)) <==> self.events@.contains_key(id) && self.events@[id].0
                == at
    }

    fn new() -> (r: Inner)
        ensures
            r.wf(),
            r.outbox() == Outbox::empty(),
    {
        let r = Inner { events: HashMap::new(), queue: BTreeSet::new(), dispatched: HashSet::new() };
        assert(r.outbox().live =~= Map::<u128, Slot>::empty());
        r
    }

    fn append(&mut self, event: &OutboxEvent)
        requires
            old(self).wf(),
        ensures
            final(self).wf(),
            final(self).outbox() == old(self).outbox().append(event@),
    {
        let id: u128 = event.id.as_uuid();
        // Idempotent on the id.
        if self.events.contains_key(&id) || self.dispatched.contains(&id) {
            return;
        }
        self.events.insert(id, (event.created_at, event.clone()));
        self.queue.insert((event.created_at, id));
        assert(self.outbox().live =~= old(self).outbox().append(event@).live);
    }

    fn mark_dispatched(&mut self, id: u128)
        requires
            old(self).wf(),
        ensures
            final(self).wf(),
            final(self).outbox() == old(self).outbox().mark_dispatched(id),
    {
        if let Some(entry) = self.events.remove(&id) {
            self.queue.remove(&(entry.0, id));
        }
        self.dispatched.insert(id);
        assert(self.outbox().live =~= old(self).outbox().live.remove(id));
    }

    fn mark_failed(&mut self, id: u128, error: &str, retry_at_ms: u64)
        requires
            old(self).wf(),
        ensures
            final(self).wf(),
            final(self).outbox() == old(self).outbox().mark_failed(id, error@, retry_at_ms),
    {
        if let Some(entry) = self.events.remove(&id) {
            let (at, mut event) = entry;
            self.queue.remove(&(at, id));
            event.attempts = event.attempts.saturating_add(1);
            event.last_error = Some(truncate_error(error));
            self.events.insert(id, (retry_at_ms, event));
            self.queue.insert((retry_at_ms, id));
            assert(self.outbox().live =~= old(self).outbox().mark_failed(
                id,
                error@,
                retry_at_ms,
            ).live);
        } else {
            assert(self.events@ =~= old(self).events@);
        }
    }

    /// The dispatch order of the index.
    proof fn lemma_queue_order(keys: Seq<&(u64, u128)>)
        requires
            vstd::std_specs::btree::increasing_seq(keys),
        ensures
            forall|i: int, j: int|
                #![trigger keys[i], keys[j]]
                0 <= i < j < keys.len() ==> keys[i].0 < keys[j].0 || (keys[i].0 == keys[j].0
                    && keys[i].1 < keys[j].1),
    {
        assert forall|i: int, j: int|
            #![trigger keys[i], keys[j]]
            0 <= i < j < keys.len() implies keys[i].0 < keys[j].0 || (keys[i].0 == keys[j].0
            && keys[i].1 < keys[j].1) by {
            assert(vstd::std_specs::cmp::OrdSpec::cmp_spec(&keys[i], &keys[j]) is Less);
        }
    }

    /// The first due keys of the index make up the due batch.
    proof fn lemma_due_batch(
        self,
        keys: Seq<&(u64, u128)>,
        batch: Seq<Envelope>,
        limit: nat,
        now_ms: u64,
    )
        requires
            self.wf(),
            keys.unref().to_set() == self.queue@,
            vstd::std_specs::btree::increasing_seq(keys),
            batch.len() <= keys.len(),
            batch.len() <= limit,
            forall|i: int|
                #![trigger keys[i]]
                #![trigger batch[i]]
                0 <= i < batch.len() ==> keys[i].0 <= now_ms && keys[i].0 != NEVER && batch[i]
                    == self.events@[keys[i].1].1@,
            batch.len() == limit || batch.len() == keys.len() || keys[batch.len() as int].0 > now_ms
                || keys[batch.len() as int].0 == NEVER,
        ensures
            self.outbox().is_due_batch(batch, limit, now_ms),
    {
        let outbox = self.outbox();
        let count = batch.len();
        Self::lemma_queue_order(keys);
        assert forall|i: int| 0 <= i < keys.len() implies outbox.live.contains_key(
            (#[trigger] keys[i]).1,
        ) && outbox.live[keys[i].1].next_attempt_at == keys[i].0
            && outbox.live[keys[i].1].event == self.events@[keys[i].1].1@ by {
            assert(keys.unref()[i] == *keys[i]);
            assert(keys.unref().to_set().contains((keys[i].0, keys[i].1)));
        }
        assert forall|i: int| 0 <= i < count implies (#[trigger] batch[i]).id == keys[i].1 by {
            assert(outbox.live[keys[i].1].event.id == keys[i].1);
        }
        assert forall|i: int, j: int|
            #![trigger batch[i], batch[j]]
            0 <= i < j < count implies outbox.before(batch[i].id, batch[j].id) by {
            assert(keys[i].0 <= keys[j].0);
        }
        assert forall|id: u128| #[trigger] outbox.due(id, now_ms) implies (exists|i: int|
            0 <= i < count && #[trigger] batch[i].id == id) || (count == limit && forall|i: int|
            0 <= i < count ==> outbox.before(#[trigger] batch[i].id, id)) by {
            let at = outbox.live[id].next_attempt_at;
            assert(self.queue@.contains((at, id)));
            let k = choose|k: int| 0 <= k < keys.unref().len() && keys.unref()[k] == (at, id);
            assert(*keys[k] == (at, id));
            if k < count {
                assert(batch[k].id == id);
            } else {
                if k > count {
                    assert(keys[count as int].0 <= keys[k].0);
                }
                assert(count == limit);
                assert forall|i: int| 0 <= i < count implies outbox.before(
                    #[trigger] batch[i].id,
                    id,
                ) by {
                    assert(keys[i].0 <= keys[k].0);
                }
            }
        }
    }

    fn fetch_due(&self, limit: usize, now_ms: u64) -> (r: Vec<OutboxEvent>)
        requires
            self.wf(),
        ensures
            self.outbox().is_due_batch(crate::store::envelopes(r@), limit as nat, now_ms),
    {
        let mut batch: Vec<OutboxEvent> = Vec::new();
        let ghost keys = vstd::std_specs::iter::IteratorSpec::remaining(
            &vstd::std_specs::btree::spec_btree_keys_iter(&self.queue),
        );
        for key in it: self.queue.iter()
            invariant
                self.wf(),
                it.seq() == keys,
                keys.unref().to_set() == self.queue@,
                vstd::std_specs::btree::increasing_seq(keys),
                batch@.len() == it.index(),
                batch@.len() <= limit,
                forall|i: int|
                    #![trigger keys[i]]
                    #![trigger batch@[i]]
                    0 <= i < batch@.len() ==> keys[i].0 <= now_ms && keys[i].0 != NEVER
                        && batch@[i]@ == self.events@[keys[i].1].1@,
        {
            let (at, id) = *key;
            proof {
                let i = it.index();
                assert(keys.unref()[i] == (at, id));
                assert(keys.unref().to_set().contains((at, id)));
            }
            if batch.len() == limit || at > now_ms || at == NEVER {
                proof {
                    self.lemma_due_batch(
                        keys,
                        crate::store::envelopes(batch@),
                        limit as nat,
                        now_ms,
                    );
                }
                return batch;
            }
            if let Some(entry) = self.events.get(&id) {
                batch.push(entry.1.clone());
            }
        }
        proof {
            self.lemma_due_batch(keys, crate::store::envelopes(batch@), limit as nat, now_ms);
        }
        batch
    }

    /// The number of live events that are parked, or that are not.
    fn count(&self, parked: bool) -> (r: u64)
        requires
            self.wf(),
        ensures
            r == if parked {
                self.outbox().parked().len()
            } else {
                self.outbox().pending().len()
            },
    {
        let total: usize = self.queue.len();
        let mut count: u64 = 0;
        let ghost mut seen: Set<u128> = Set::empty();
        let ghost keys = vstd::std_specs::iter::IteratorSpec::remaining(
            &vstd::std_specs::btree::spec_btree_keys_iter(&self.queue),
        );
        for key in it: self.queue.iter()
            invariant
                self.wf(),
                it.seq() == keys,
                keys.len() == total,
                keys.no_duplicates(),
                keys.unref().to_set() == self.queue@,
                count <= it.index() <= total,
                seen.finite(),
                seen.len() == count,
                forall|id: u128| #[trigger]
                    seen.contains(id) <==> exists|k: int|
                        0 <= k < it.index() && (#[trigger] keys[k]).1 == id && (keys[k].0 == NEVER)
                            == parked,
        {
            let (at, id) = *key;
            proof {
                let i = it.index();
                assert(keys[i].0 == at && keys[i].1 == id);
                assert forall|k: int| 0 <= k < keys.len() implies self.events@.contains_key(
                    (#[trigger] keys[k]).1,
                ) && self.events@[keys[k].1].0 == keys[k].0 by {
                    assert(keys.unref()[k] == *keys[k]);
                    assert(keys.unref().to_set().contains((keys[k].0, keys[k].1)));
                }
                if seen.contains(id) {
                    let k = choose|k: int|
                        0 <= k < i && (#[trigger] keys[k]).1 == id && (keys[k].0 == NEVER)
                            == parked;
                    assert(*keys[k] == *keys[i]);
                    assert(keys[k] == keys[i]);
                    assert(false);
                }
                let grown = seen.insert(id);
                if (at == NEVER) == parked {
                    assert forall|other: u128| #[trigger] grown.contains(other) implies exists|
                        k: int,
                    |
                        0 <= k < i + 1 && (#[trigger] keys[k]).1 == other && (keys[k].0 == NEVER)
                            == parked by {
                        if other == id {
                            assert(keys[i].1 == other);
                        } else {
                            assert(seen.contains(other));
                        }
                    }
                    seen = grown;
                }
            }
            if (at == NEVER) == parked {
                count = count + 1;
            }
        }
        proof {
            let wanted = if parked {
                self.outbox().parked()
            } else {
                self.outbox().pending()
            };
            assert forall|id: u128| seen.contains(id) implies wanted.contains(id) by {
                let k = choose|k: int|
                    0 <= k < keys.len() && (#[trigger] keys[k]).1 == id && (keys[k].0 == NEVER)
                        == parked;
                assert(keys.unref()[k] == *keys[k]);
                assert(keys.unref().to_set().contains((keys[k].0, keys[k].1)));
            }
            assert forall|id: u128| wanted.contains(id) implies seen.contains(id) by {
                let at = self.events@[id].0;
                assert(self.queue@.contains((at, id)));
                let k = choose|k: int| 0 <= k < keys.unref().len() && keys.unref()[k] == (at, id);
                assert(*keys[k] == (at, id));
                assert(keys[k].1 == id);
            }
            assert(seen =~= wanted);
        }
        count
    }
}

impl MemoryStore {
    #[verifier::type_invariant]
    spec fn consistent(self) -> bool {
        self.inner.wf()
    }

    /// Create an empty store.
    #[must_use]
    pub fn new() -> (r: MemoryStore)
        ensures
            r.outbox() == Outbox::empty(),
    {
        MemoryStore { inner: Inner::new() }
    }

    /// Total events tracked: the live ones, parked events included, and the
    /// dispatched ids.
    #[must_use]
    pub fn len(&self) -> (r: usize)
        requires
            self.outbox().id_count() <= usize::MAX,
        ensures
            r == self.outbox().id_count(),
            r == self.outbox().live.dom().len() + self.outbox().dispatched.len(),
    {
        assert(self.outbox().live.dom() =~= self.inner.events@.dom());
        self.inner.events.len() + self.inner.dispatched.len()
    }

    /// The live event under an id, pending or parked.
    #[must_use]
    pub fn get(&self, id: &EventId) -> (r: Option<&OutboxEvent>)
        ensures
            match r {
                Some(event) => self.outbox().live.contains_key(id@) && event@
                    == self.outbox().live[id@].event,
                None => !self.outbox().live.contains_key(id@),
            },
    {
        match self.inner.events.get(&id.as_uuid()) {
            Some(entry) => Some(&entry.1),
            None => None,
        }
    }

    /// Whether nothing is tracked.
    #[must_use]
    pub fn is_empty(&self) -> (r: bool)
        ensures
            r == (self.outbox() == Outbox::empty()),
            r == (self.outbox().id_count() == 0),
    {
        proof {
            use_type_invariant(self);
            assert(self.outbox().live.dom() =~= self.inner.events@.dom());
            if self.inner.events@.dom().len() == 0 {
                assert(self.outbox().live =~= Map::<u128, Slot>::empty());
            }
            if self.inner.dispatched@.len() == 0 {
                assert(self.outbox().dispatched =~= Set::<u128>::empty());
            }
        }
        self.inner.events.len() == 0 && self.inner.dispatched.len() == 0
    }
}

impl Default for MemoryStore {
    fn default() -> (r: MemoryStore)
        ensures
            r.outbox() == Outbox::empty(),
    {
        MemoryStore::new()
    }
}

impl OutboxStore for MemoryStore {
    closed spec fn outbox(&self) -> Outbox {
        self.inner.outbox()
    }

    fn append(&mut self, event: &OutboxEvent) -> (r: Result<(), StoreError>)
        ensures
            r is Ok <==> crate::event::topic_ok(event@.topic),
    {
        proof {
            use_type_invariant(&*self);
        }
        match event.validate() {
            Ok(()) => {},
            Err(_) => {
                return Err(StoreError::InvalidTopic { topic: event.topic.clone() });
            },
        }
        let mut inner: Inner = Inner::new();
        std::mem::swap(&mut inner, &mut self.inner);
        inner.append(event);
        self.inner = inner;
        Ok(())
    }

    fn fetch_due(&self, limit: usize, now_ms: u64) -> (r: Result<Vec<OutboxEvent>, StoreError>)
        ensures
            r is Ok,
    {
        proof {
            use_type_invariant(self);
        }
        Ok(self.inner.fetch_due(limit, now_ms))
    }

    fn mark_dispatched(&mut self, id: &EventId) -> (r: Result<(), StoreError>)
        ensures
            r is Ok,
            final(self).outbox() == old(self).outbox().mark_dispatched(id@),
    {
        proof {
            use_type_invariant(&*self);
        }
        let mut inner: Inner = Inner::new();
        std::mem::swap(&mut inner, &mut self.inner);
        inner.mark_dispatched(id.as_uuid());
        self.inner = inner;
        Ok(())
    }

    fn mark_failed(&mut self, id: &EventId, error: &str, retry_at_ms: u64) -> (r: Result<
        (),
        StoreError,
    >)
        ensures
            r is Ok,
    {
        proof {
            use_type_invariant(&*self);
        }
        let mut inner: Inner = Inner::new();
        std::mem::swap(&mut inner, &mut self.inner);
        inner.mark_failed(id.as_uuid(), error, retry_at_ms);
        self.inner = inner;
        Ok(())
    }

    fn pending_count(&self) -> (r: Result<u64, StoreError>)
        ensures
            r is Ok,
    {
        proof {
            use_type_invariant(self);
        }
        Ok(self.inner.count(false))
    }

    fn parked_count(&self) -> (r: Result<u64, StoreError>)
        ensures
            r is Ok,
    {
        proof {
            use_type_invariant(self);
        }
        Ok(self.inner.count(true))
    }
}

} // verus!
