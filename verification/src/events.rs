//! Typed event channels: a first-in, first-out queue per event type.

use vstd::prelude::*;
use std::collections::VecDeque;
use crate::archetype::EntityId;

verus! {

/// A value that can travel through an event channel.
pub trait Event: Send + Sync + Clone + 'static {}

/// Queue of events of one type, oldest first.
pub struct EventChannel<E: Event> {
    buffer: VecDeque<E>,
}

impl<E: Event> EventChannel<E> {
    /// The queued events, oldest first.
    pub closed spec fn view(&self) -> Seq<E> {
        self.buffer@
    }

    pub fn new() -> (c: Self)
        ensures
            c.view() == Seq::<E>::empty(),
    {
        EventChannel { buffer: VecDeque::new() }
    }

    /// Appends `event` at the back.
    pub fn emit(&mut self, event: E)
        ensures
            final(self).view() == old(self).view().push(event),
    {
        self.buffer.push_back(event);
    }

    /// Takes every queued event out, oldest first.
    pub fn drain(&mut self) -> (events: Vec<E>)
        ensures
            events@ == old(self).view(),
            final(self).view() == Seq::<E>::empty(),
    {
        let mut out: Vec<E> = Vec::new();
        let ghost all = self.buffer@;
        while self.buffer.len() > 0
            invariant
                out@ + self.buffer@ == all,
            decreases self.buffer@.len(),
        {
            let ghost before = self.buffer@;
            match self.buffer.pop_front() {
                Some(e) => {
                    out.push(e);
                    proof {
                        assert(before =~= seq![e] + self.buffer@);
                        assert(out@ + self.buffer@ =~= all);
                    }
                },
                None => {},
            }
        }
        proof {
            assert(out@ =~= all);
        }
        out
    }

    pub fn is_empty(&self) -> (b: bool)
        ensures
            b == (self.view().len() == 0),
    {
        self.buffer.len() == 0
    }

    pub fn len(&self) -> (n: usize)
        ensures
            n == self.view().len(),
    {
        self.buffer.len()
    }

    /// The queued events, oldest first, left in place.
    pub fn iter(&self) -> (events: Vec<&E>)
        ensures
            events@.len() == self.view().len(),
            forall|i: int| 0 <= i < events@.len() ==> *(#[trigger] events@[i]) == self.view()[i],
    {
        let mut out: Vec<&E> = Vec::new();
        let n = self.buffer.len();
        let mut i: usize = 0;
        while i < n
            invariant
                n == self.buffer@.len(),
                i <= n,
                out@.len() == i,
                forall|j: int| 0 <= j < i ==> *(#[trigger] out@[j]) == self.buffer@[j],
            decreases n - i,
        {
            out.push(&self.buffer[i]);
            i = i + 1;
        }
        out
    }

    pub fn clear(&mut self)
        ensures
            final(self).view() == Seq::<E>::empty(),
    {
        self.buffer.clear();
    }
}

/// An entity was removed.
#[derive(Debug, Clone, Copy)]
pub struct DespawnEvent {
    pub entity_id: EntityId,
}

impl Event for DespawnEvent {}

/// An entity was created.
#[derive(Debug, Clone, Copy)]
pub struct SpawnEvent {
    pub entity_id: EntityId,
}

impl Event for SpawnEvent {}

} // verus!
