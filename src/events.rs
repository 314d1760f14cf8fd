//! Population requests buffered during a step and handed out once at its end.
use vstd::prelude::*;

verus! {

/// A request to change the particle population.
#[derive(Debug, PartialEq, Eq)]
pub enum Event<P> {
    /// Add this many particles near a position.
    Spawn(usize, P),
    /// Remove this many particles, those with the highest kinetic energy.
    Despawn(usize),
}

/// The requests queued since the last drain, oldest first.
pub struct EventQueue<P> {
    events: Vec<Event<P>>,
}

impl<P> View for EventQueue<P> {
    type V = Seq<Event<P>>;

    closed spec fn view(&self) -> Seq<Event<P>> {
        self.events@
    }
}

impl<P> EventQueue<P> {
    pub fn new() -> (q: EventQueue<P>)
        ensures
            q@ == Seq::<Event<P>>::empty(),
    {
        EventQueue { events: Vec::new() }
    }

    /// Queues a request to add `count` particles near `pos`.
    pub fn queue_spawn(&mut self, count: usize, pos: P)
        ensures
            final(self)@ == old(self)@.push(Event::Spawn(count, pos)),
    {
        self.events.push(Event::Spawn(count, pos));
    }

    /// Queues a request to remove `count` particles.
    pub fn queue_despawn(&mut self, count: usize)
        ensures
            final(self)@ == old(self)@.push(Event::Despawn(count)),
    {
        self.events.push(Event::Despawn(count));
    }

    /// How many requests are waiting.
    pub fn len(&self) -> (n: usize)
        ensures
            n == self@.len(),
    {
        self.events.len()
    }

    /// Hands out every waiting request, oldest first, and leaves the queue
    /// empty.
    pub fn drain(&mut self) -> (events: Vec<Event<P>>)
        ensures
            events@ == old(self)@,
            final(self)@ == Seq::<Event<P>>::empty(),
    {
        let mut events: Vec<Event<P>> = Vec::new();
        std::mem::swap(&mut events, &mut self.events);
        events
    }
}

} // verus!
