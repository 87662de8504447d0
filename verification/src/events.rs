//! The event bus: per-key queues of events, written during a phase and
//! read until the bus is cleared for the next host-loop iteration.

use crate::capability::TypeKey;
use crate::state::State;
use vstd::prelude::*;

verus! {

/// An event type: a value that knows the key its queue runs under.
/// Implementations are the host application's own code; nothing is
/// assumed of them.
pub trait Event {
    /// The key of this event's queue.
    fn key(&self) -> TypeKey;
}

/// Per-key event queues: writing appends to a key's queue, reading takes
/// a key's whole queue out, clearing empties every queue.
pub struct EventBus<E> {
    queues: State<Vec<E>>,
}

impl<E> EventBus<E> {
    /// Well-formed: the underlying store is.
    pub open spec fn wf(&self) -> bool {
        self.inner().wf()
    }

    /// The store of queues behind the bus.
    pub closed spec fn inner(&self) -> State<Vec<E>> {
        self.queues
    }

    /// Creates an empty bus.
    pub fn new() -> (b: EventBus<E>)
        ensures
            b.wf(),
            b@ == Map::<TypeKey, Seq<E>>::empty(),
    {
        let b = EventBus { queues: State::new() };
        proof {
            assert(b@ =~= Map::<TypeKey, Seq<E>>::empty());
        }
        b
    }

    /// Appends an event to the queue under `key`, creating the queue when
    /// the key has none yet.
    pub fn write(&mut self, key: TypeKey, event: E)
        requires
            old(self).wf(),
        ensures
            final(self).wf(),
            final(self)@ == old(self)@.insert(
                key,
                (if old(self)@.dom().contains(key) {
                    old(self)@[key]
                } else {
                    Seq::<E>::empty()
                }).push(event),
            ),
    {
        let mut queue = match self.queues.remove(key) {
            Some(q) => q,
            None => Vec::new(),
        };
        queue.push(event);
        self.queues.add(key, queue);
        proof {
            assert(self@ =~= old(self)@.insert(
                key,
                (if old(self)@.dom().contains(key) {
                    old(self)@[key]
                } else {
                    Seq::<E>::empty()
                }).push(event),
            ));
        }
    }

    /// Takes the whole queue under `key` out of the bus; a key without a
    /// queue yields no events.
    pub fn read(&mut self, key: TypeKey) -> (r: Vec<E>)
        requires
            old(self).wf(),
        ensures
            final(self).wf(),
            final(self)@ == old(self)@.remove(key),
            r@ == (if old(self)@.dom().contains(key) {
                old(self)@[key]
            } else {
                Seq::<E>::empty()
            }),
    {
        let r = match self.queues.remove(key) {
            Some(q) => q,
            None => Vec::new(),
        };
        proof {
            assert(self@ =~= old(self)@.remove(key));
        }
        r
    }

    /// Drops every queue of the bus.
    pub fn clear(&mut self)
        requires
            old(self).wf(),
        ensures
            final(self).wf(),
            final(self)@ == Map::<TypeKey, Seq<E>>::empty(),
    {
        let _ = self.queues.drain();
        proof {
            assert(self@ =~= Map::<TypeKey, Seq<E>>::empty());
        }
    }
}

impl<E> View for EventBus<E> {
    type V = Map<TypeKey, Seq<E>>;

    /// The queued events, by key, oldest first.
    open spec fn view(&self) -> Map<TypeKey, Seq<E>> {
        self.inner()@.map_values(|q: Vec<E>| q@)
    }
}

impl<E> Default for EventBus<E> {
    /// The empty bus.
    fn default() -> (b: Self)
        ensures
            b.wf(),
            b@ == Map::<TypeKey, Seq<E>>::empty(),
    {
        let b = EventBus { queues: State::new() };
        proof {
            assert(b@ =~= Map::<TypeKey, Seq<E>>::empty());
        }
        b
    }
}

} // verus!
