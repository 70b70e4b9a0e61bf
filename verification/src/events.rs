//! Double-buffered event queues: events sent during a frame are read during
//! the next one and dropped at the end of it.
use vstd::prelude::*;

verus! {

/// A type that can be sent as an event.
pub trait Event {}

/// The event types the engine swaps and clears at the end of every frame.
#[derive(Clone, Copy, Debug, PartialEq, Eq, Structural)]
pub struct TrackedEventsMeta {
    /// The event type.
    pub comp_id: u64,
    /// The resource holding its buffer.
    pub event_id: u64,
}

/// The registered event types, in registration order.
pub struct TrackedEvents {
    events: Vec<TrackedEventsMeta>,
}

/// Whether some registered event type has id `comp_id`.
pub open spec fn event_registered(events: Seq<TrackedEventsMeta>, comp_id: u64) -> bool {
    exists|i: int| 0 <= i < events.len() && #[trigger] events[i].comp_id == comp_id
}

/// No event type is registered twice.
pub open spec fn events_distinct(events: Seq<TrackedEventsMeta>) -> bool {
    forall|i: int, j: int| 0 <= i < j < events.len() ==> #[trigger] events[i].comp_id != #[trigger] events[j].comp_id
}

impl View for TrackedEvents {
    type V = Seq<TrackedEventsMeta>;

    closed spec fn view(&self) -> Seq<TrackedEventsMeta> {
        self.events@
    }
}

impl TrackedEvents {
    pub fn new() -> (t: Self)
        ensures
            t@ == Seq::<TrackedEventsMeta>::empty(),
    {
        TrackedEvents { events: Vec::new() }
    }

    pub fn len(&self) -> (n: usize)
        ensures
            n == self@.len(),
    {
        self.events.len()
    }

    pub fn get(&self, i: usize) -> (m: TrackedEventsMeta)
        requires
            (i as int) < self@.len(),
        ensures
            m == self@[i as int],
    {
        self.events[i]
    }

    /// Registers event type `comp_id`, whose buffer is resource `event_id`;
    /// a type already registered is left as it is.
    pub fn register_event(&mut self, comp_id: u64, event_id: u64)
        ensures
            event_registered(old(self)@, comp_id) ==> final(self)@ == old(self)@,
            !event_registered(old(self)@, comp_id) ==> final(self)@ == old(self)@.push(
                TrackedEventsMeta { comp_id, event_id },
            ),
            events_distinct(old(self)@) ==> events_distinct(final(self)@),
    {
        let mut i: usize = 0;
        while i < self.events.len()
            invariant
                i <= self.events@.len(),
                forall|j: int| 0 <= j < i ==> #[trigger] self.events@[j].comp_id != comp_id,
            decreases self.events@.len() - i,
        {
            if self.events[i].comp_id == comp_id {
                return;
            }
            i += 1;
        }
        self.events.push(TrackedEventsMeta { comp_id, event_id });
        proof {
            if events_distinct(old(self)@) {
                assert forall|i: int, j: int| 0 <= i < j < self.events@.len() implies #[trigger] self.events@[i].comp_id
                    != #[trigger] self.events@[j].comp_id by {
                    if j == self.events@.len() - 1 {
                        assert(old(self).events@[i].comp_id != comp_id);
                    } else {
                        assert(old(self).events@[i] == self.events@[i] && old(self).events@[j] == self.events@[j]);
                    }
                }
            }
        }
    }
}

/// The two queues of one event type.
pub struct EventBuffer<T> {
    read_queue: Vec<T>,
    write_queue: Vec<T>,
}

impl<T> EventBuffer<T> {
    /// The events readers see this frame.
    pub closed spec fn readable(&self) -> Seq<T> {
        self.read_queue@
    }

    /// The events sent this frame.
    pub closed spec fn pending(&self) -> Seq<T> {
        self.write_queue@
    }

    pub fn new() -> (b: Self)
        ensures
            b.readable() == Seq::<T>::empty(),
            b.pending() == Seq::<T>::empty(),
    {
        EventBuffer { read_queue: Vec::new(), write_queue: Vec::new() }
    }

    /// Queues an event; readers see it during the next frame.
    pub fn send(&mut self, event: T)
        ensures
            final(self).pending() == old(self).pending().push(event),
            final(self).readable() == old(self).readable(),
    {
        self.write_queue.push(event);
    }

    /// Queues several events in order.
    pub fn send_batch(&mut self, events: Vec<T>)
        ensures
            final(self).pending() == old(self).pending() + events@,
            final(self).readable() == old(self).readable(),
    {
        let mut events = events;
        self.write_queue.append(&mut events);
    }

    /// The events sent during the previous frame.
    pub fn read(&self) -> (s: &[T])
        ensures
            s@ == self.readable(),
    {
        self.read_queue.as_slice()
    }

    /// Ends a frame: the events read this frame are dropped and the events
    /// sent this frame become readable.
    pub fn clear_events(&mut self)
        ensures
            final(self).readable() == old(self).pending(),
            final(self).pending() == Seq::<T>::empty(),
    {
        self.read_queue.clear();
        std::mem::swap(&mut self.read_queue, &mut self.write_queue);
    }
}

/// The queues of an event type after a frame ends.
pub open spec fn queues_after_frame<T>(readable: Seq<T>, pending: Seq<T>) -> (Seq<T>, Seq<T>) {
    (pending, Seq::empty())
}

/// An event sent during a frame is hidden from that frame's readers, read
/// during the next frame, and gone the frame after unless sent again.
pub proof fn lemma_event_visible_for_one_frame<T>(readable: Seq<T>, pending: Seq<T>, event: T)
    ensures
        ({
            let sent = pending.push(event);
            let next = queues_after_frame(readable, sent);
            let after = queues_after_frame(next.0, next.1);
            &&& next.0.contains(event)
            &&& next.0.last() == event
            &&& after.0 == Seq::<T>::empty()
        }),
{
    let sent = pending.push(event);
    assert(sent[sent.len() - 1] == event);
}

} // verus!
