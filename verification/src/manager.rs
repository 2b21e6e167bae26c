//! The connection registry: one outbound queue per live connection, keyed by
//! player identity. Handler code broadcasts through it without knowing about
//! sockets; a message counts as sent once it sits in the recipient's queue,
//! and the transport drains each queue in order with [`Manager::take_outbound`].

use vstd::prelude::*;

use crate::kv::{assoc_map, has_key, lemma_assoc_absent, lemma_assoc_at, lemma_assoc_push,
    lemma_assoc_remove, lemma_assoc_transform, lemma_assoc_update, unique_keys};
use crate::messages::{MessageModel, SystemMessages};
use crate::types::PlayerId;

verus! {

/// One live connection: its identity and its outbound queue.
pub struct Entry {
    pub id: PlayerId,
    pub queue: Vec<SystemMessages>,
}

/// The registry of live connections.
pub struct Manager {
    pub entries: Vec<Entry>,
}

/// The queued messages, as their models, in send order.
pub open spec fn queue_models(s: Seq<SystemMessages>) -> Seq<MessageModel> {
    s.map_values(|m: SystemMessages| m@)
}

impl Manager {
    /// The registry as key-value pairs.
    pub open spec fn pairs(self) -> Seq<(u32, Seq<MessageModel>)> {
        self.entries@.map_values(|e: Entry| (e.id.0, queue_models(e.queue@)))
    }

    /// Well-formedness: each identity has at most one entry.
    pub open spec fn wf(self) -> bool {
        unique_keys(self.pairs())
    }

    /// An empty registry.
    pub fn new() -> (r: Manager)
        ensures
            r.wf(),
            r@ == Map::<u32, Seq<MessageModel>>::empty(),
    {
        let r = Manager { entries: Vec::new() };
        proof {
            assert(r@ =~= Map::<u32, Seq<MessageModel>>::empty());
        }
        r
    }

    /// The number of live entries.
    pub fn len(&self) -> (r: usize)
        ensures
            r == self.entries@.len(),
    {
        self.entries.len()
    }

    /// The index of the entry with the given identity, if any.
    fn find_entry(&self, id: PlayerId) -> (r: Option<usize>)
        ensures
            match r {
                Some(i) => i < self.entries@.len() && self.pairs()[i as int].0 == id.0,
                None => !has_key(self.pairs(), id.0),
            },
    {
        let mut i: usize = 0;
        while i < self.entries.len()
            invariant
                i <= self.entries@.len(),
                forall|j: int| 0 <= j < i ==> (#[trigger] self.pairs()[j]).0 != id.0,
            decreases self.entries@.len() - i,
        {
            if self.entries[i].id.0 == id.0 {
                return Some(i);
            }
            i = i + 1;
        }
        None
    }

    /// Appends a message to the queue at one index, leaving every other
    /// entry as it was.
    fn push_queued(&mut self, i: usize, message: SystemMessages)
        requires
            i < old(self).entries@.len(),
        ensures
            final(self).entries@.len() == old(self).entries@.len(),
            final(self).pairs() == old(self).pairs().update(
                i as int,
                (old(self).pairs()[i as int].0, old(self).pairs()[i as int].1.push(message@)),
            ),
    {
        let ghost pre_entries = self.entries@;
        let ghost pre_pairs = self.pairs();
        let ghost model = message@;
        let mut e = self.entries.remove(i);
        e.queue.push(message);
        let ghost e2 = e;
        self.entries.insert(i, e);
        proof {
            assert(self.entries@ =~= pre_entries.update(i as int, e2));
            assert(e2.id == pre_entries[i as int].id);
            assert(e2.queue@ == pre_entries[i as int].queue@.push(
                e2.queue@[e2.queue@.len() - 1],
            ));
            assert(queue_models(e2.queue@) =~= pre_pairs[i as int].1.push(model));
            assert(self.pairs() =~= pre_pairs.update(
                i as int,
                (pre_pairs[i as int].0, pre_pairs[i as int].1.push(model)),
            ));
        }
    }

    /// Registers a connection, giving it a fresh, empty outbound queue; a
    /// colliding identity's queue is replaced.
    pub fn add(&mut self, id: PlayerId)
        requires
            old(self).wf(),
        ensures
            final(self).wf(),
            final(self)@ == old(self)@.insert(id.0, Seq::<MessageModel>::empty()),
    {
        let e = Entry { id, queue: Vec::new() };
        match self.find_entry(id) {
            Some(i) => {
                proof {
                    lemma_assoc_update(self.pairs(), i as int, queue_models(e.queue@));
                    assert(queue_models(e.queue@) =~= Seq::<MessageModel>::empty());
                }
                let ghost pre = self.pairs();
                self.entries.set(i, e);
                proof {
                    assert(self.pairs() =~= pre.update(
                        i as int,
                        (pre[i as int].0, Seq::<MessageModel>::empty()),
                    ));
                }
            },
            None => {
                proof {
                    lemma_assoc_absent(self.pairs(), id.0);
                    lemma_assoc_push(self.pairs(), id.0, Seq::<MessageModel>::empty());
                    assert(queue_models(e.queue@) =~= Seq::<MessageModel>::empty());
                }
                let ghost pre = self.pairs();
                self.entries.push(e);
                proof {
                    assert(self.pairs() =~= pre.push((id.0, Seq::<MessageModel>::empty())));
                }
            },
        }
    }

    /// Deregisters a connection; an unknown identity is a benign no-op.
    pub fn remove(&mut self, id: PlayerId)
        requires
            old(self).wf(),
        ensures
            final(self).wf(),
            final(self)@ == old(self)@.remove(id.0),
    {
        match self.find_entry(id) {
            Some(i) => {
                proof {
                    lemma_assoc_remove(self.pairs(), i as int);
                }
                let ghost pre = self.pairs();
                self.entries.remove(i);
                proof {
                    assert(self.pairs() =~= pre.remove(i as int));
                }
            },
            None => {
                proof {
                    lemma_assoc_absent(self.pairs(), id.0);
                    assert(self@ =~= self@.remove(id.0));
                }
            },
        }
    }

    /// Queues a message for one connection; a connection that no longer
    /// exists silently drops it.
    pub fn broadcast_to(&mut self, id: PlayerId, message: SystemMessages)
        requires
            old(self).wf(),
        ensures
            final(self).wf(),
            final(self)@ == (if old(self)@.dom().contains(id.0) {
                old(self)@.insert(id.0, old(self)@[id.0].push(message@))
            } else {
                old(self)@
            }),
    {
        match self.find_entry(id) {
            Some(i) => {
                proof {
                    lemma_assoc_at(self.pairs(), i as int);
                    lemma_assoc_update(
                        self.pairs(),
                        i as int,
                        self.pairs()[i as int].1.push(message@),
                    );
                }
                self.push_queued(i, message);
            },
            None => {
                proof {
                    lemma_assoc_absent(self.pairs(), id.0);
                }
            },
        }
    }

    /// Queues a message for every connection.
    pub fn broadcast(&mut self, message: SystemMessages)
        requires
            old(self).wf(),
        ensures
            final(self).wf(),
            final(self)@.dom() == old(self)@.dom(),
            forall|k: u32|
                old(self)@.dom().contains(k) ==> #[trigger] final(self)@[k] == old(self)@[
                    k
                ].push(message@),
    {
        let ghost pre = self.pairs();
        let ghost model = message@;
        let mut i: usize = 0;
        while i < self.entries.len()
            invariant
                i <= self.entries@.len(),
                self.pairs().len() == pre.len(),
                forall|j: int|
                    0 <= j < i ==> #[trigger] self.pairs()[j] == (pre[j].0, pre[j].1.push(model)),
                forall|j: int| i <= j < pre.len() ==> #[trigger] self.pairs()[j] == pre[j],
                model == message@,
            decreases self.entries@.len() - i,
        {
            let m = message.clone();
            self.push_queued(i, m);
            i = i + 1;
        }
        proof {
            lemma_assoc_transform(
                pre,
                self.pairs(),
                (|k: u32, q: Seq<MessageModel>| q.push(model)),
            );
        }
    }

    /// Queues a message for every connection other than the given one: the
    /// excluded identity's queue is left exactly as it was, every other
    /// queue receives the message.
    pub fn broadcast_except(&mut self, id: PlayerId, message: SystemMessages)
        requires
            old(self).wf(),
        ensures
            final(self).wf(),
            final(self)@.dom() == old(self)@.dom(),
            forall|k: u32|
                old(self)@.dom().contains(k) && k != id.0 ==> #[trigger] final(self)@[k] == old(self)@[k].push(message@),
            old(self)@.dom().contains(id.0) ==> final(self)@[id.0] == old(self)@[id.0],
    {
        let ghost pre = self.pairs();
        let ghost model = message@;
        let mut i: usize = 0;
        while i < self.entries.len()
            invariant
                i <= self.entries@.len(),
                self.pairs().len() == pre.len(),
                forall|j: int|
                    0 <= j < i ==> #[trigger] self.pairs()[j] == (
                        pre[j].0,
                        if pre[j].0 == id.0 {
                            pre[j].1
                        } else {
                            pre[j].1.push(model)
                        },
                    ),
                forall|j: int| i <= j < pre.len() ==> #[trigger] self.pairs()[j] == pre[j],
                model == message@,
            decreases self.entries@.len() - i,
        {
            if self.entries[i].id.0 != id.0 {
                let m = message.clone();
                self.push_queued(i, m);
            }
            i = i + 1;
        }
        proof {
            lemma_assoc_transform(
                pre,
                self.pairs(),
                (|k: u32, q: Seq<MessageModel>| if k == id.0 {
                    q
                } else {
                    q.push(model)
                }),
            );
        }
    }

    /// Hands out everything queued for one connection, in send order,
    /// leaving its queue empty; an unknown identity yields nothing. The
    /// transport calls this to drain a connection's queue to its socket.
    pub fn take_outbound(&mut self, id: PlayerId) -> (r: Vec<SystemMessages>)
        requires
            old(self).wf(),
        ensures
            final(self).wf(),
            old(self)@.dom().contains(id.0) ==> queue_models(r@) == old(self)@[id.0] && final(self)@
                == old(self)@.insert(id.0, Seq::<MessageModel>::empty()),
            !old(self)@.dom().contains(id.0) ==> r@.len() == 0 && final(self)@ == old(self)@,
    {
        match self.find_entry(id) {
            Some(i) => {
                proof {
                    lemma_assoc_at(self.pairs(), i as int);
                    lemma_assoc_update(self.pairs(), i as int, Seq::<MessageModel>::empty());
                }
                let ghost pre_entries = self.entries@;
                let ghost pre = self.pairs();
                let mut e = self.entries.remove(i);
                let taken = e.queue;
                e.queue = Vec::new();
                let ghost e2 = e;
                self.entries.insert(i, e);
                proof {
                    assert(self.entries@ =~= pre_entries.update(i as int, e2));
                    assert(queue_models(e2.queue@) =~= Seq::<MessageModel>::empty());
                    assert(self.pairs() =~= pre.update(
                        i as int,
                        (pre[i as int].0, Seq::<MessageModel>::empty()),
                    ));
                }
                taken
            },
            None => {
                proof {
                    lemma_assoc_absent(self.pairs(), id.0);
                }
                Vec::new()
            },
        }
    }
}

impl View for Manager {
    type V = Map<u32, Seq<MessageModel>>;

    /// The registry as a map from identity to its pending messages.
    open spec fn view(&self) -> Map<u32, Seq<MessageModel>> {
        assoc_map(self.pairs())
    }
}

/// The registry seen from one session: it binds that session's identity so
/// handler code can reply to itself or address everyone else without
/// re-threading the identity through every call.
pub struct ScopedManager {
    pub id: PlayerId,
}

impl ScopedManager {
    /// Binds an identity.
    pub fn new(id: PlayerId) -> (r: ScopedManager)
        ensures
            r.id == id,
    {
        ScopedManager { id }
    }

    /// Queues a message for this session only.
    pub fn broadcast_to_self(&self, manager: &mut Manager, message: SystemMessages)
        requires
            old(manager).wf(),
        ensures
            final(manager).wf(),
            final(manager)@ == (if old(manager)@.dom().contains(self.id.0) {
                old(manager)@.insert(
                    self.id.0,
                    old(manager)@[self.id.0].push(message@),
                )
            } else {
                old(manager)@
            }),
    {
        manager.broadcast_to(self.id, message)
    }

    /// Queues a message for every other session.
    pub fn broadcast_except_self(&self, manager: &mut Manager, message: SystemMessages)
        requires
            old(manager).wf(),
        ensures
            final(manager).wf(),
            final(manager)@.dom() == old(manager)@.dom(),
            forall|k: u32|
                old(manager)@.dom().contains(k) && k != self.id.0 ==> #[trigger] final(manager)@[k]
                    == old(manager)@[k].push(message@),
            old(manager)@.dom().contains(self.id.0) ==> final(manager)@[self.id.0] == old(manager)@[self.id.0],
    {
        manager.broadcast_except(self.id, message)
    }

    /// Queues a message for every session, this one included.
    pub fn broadcast_to_all(&self, manager: &mut Manager, message: SystemMessages)
        requires
            old(manager).wf(),
        ensures
            final(manager).wf(),
            final(manager)@.dom() == old(manager)@.dom(),
            forall|k: u32|
                old(manager)@.dom().contains(k) ==> #[trigger] final(manager)@[k] == old(manager)@[k].push(message@),
    {
        manager.broadcast(message)
    }

    /// Deregisters a connection.
    pub fn remove(&self, manager: &mut Manager, id: PlayerId)
        requires
            old(manager).wf(),
        ensures
            final(manager).wf(),
            final(manager)@ == old(manager)@.remove(id.0),
    {
        manager.remove(id)
    }
}

} // verus!
