//! Generic event bus for decoupling game logic.

use vstd::prelude::*;

verus! {

/// A queue of pending events, handed out in the order they were pushed.
pub struct EventBus<T> {
    events: Vec<T>,
}

impl<T> View for EventBus<T> {
    type V = Seq<T>;

    /// The pending events, oldest first.
    closed spec fn view(&self) -> Seq<T> {
        self.events@
    }
}

impl<T> EventBus<T> {
    /// Create an empty event bus.
    pub fn new() -> (res: Self)
        ensures
            res@ == Seq::<T>::empty(),
    {
        EventBus { events: Vec::new() }
    }

    /// Add an event after the pending ones.
    pub fn push(&mut self, event: T)
        ensures
            final(self)@ == old(self)@.push(event),
    {
        self.events.push(event);
    }

    /// Take every pending event, oldest first, leaving the bus empty.
    pub fn drain(&mut self) -> (res: Vec<T>)
        ensures
            res@ == old(self)@,
            final(self)@ == Seq::<T>::empty(),
    {
        let mut taken: Vec<T> = Vec::new();
        std::mem::swap(&mut taken, &mut self.events);
        taken
    }

    /// Discard every pending event.
    pub fn clear(&mut self)
        ensures
            final(self)@ == Seq::<T>::empty(),
    {
        self.events.clear();
    }

    /// Whether no event is pending.
    pub fn is_empty(&self) -> (res: bool)
        ensures
            res == (self@.len() == 0),
    {
        self.events.len() == 0
    }

    /// The number of pending events.
    pub fn len(&self) -> (res: usize)
        ensures
            res == self@.len(),
    {
        self.events.len()
    }
}

impl<T> Default for EventBus<T> {
    fn default() -> (res: Self)
        ensures
            res@ == Seq::<T>::empty(),
    {
        Self::new()
    }
}

/// The pending events after pushing each of `events`, in order, onto a bus
/// holding `pending`.
pub open spec fn pushed_all<T>(pending: Seq<T>, events: Seq<T>) -> Seq<T>
    decreases events.len(),
{
    if events.len() == 0 {
        pending
    } else {
        pushed_all(pending, events.drop_last()).push(events.last())
    }
}

/// Events come out of `drain` in the order they went in: pushing `events`
/// one by one onto a bus holding `pending` leaves it holding `pending`
/// followed by `events`, which `drain` hands out as they stand.
pub proof fn law_drain_is_fifo<T>(pending: Seq<T>, events: Seq<T>)
    ensures
        pushed_all(pending, events) == pending + events,
    decreases events.len(),
{
    if events.len() > 0 {
        law_drain_is_fifo(pending, events.drop_last());
        assert(pending + events.drop_last() + seq![events.last()] =~= pending + events);
        assert((pending + events.drop_last()).push(events.last()) =~= pending + events);
    } else {
        assert(pending + events =~= pending);
    }
}

} // verus!
