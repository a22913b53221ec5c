use vstd::prelude::*;
use crate::component::TypeKey;
use crate::registry::TypeMap;

verus! {

/// The event bus's registry: at most one handler per event type, a later subscription
/// replacing an earlier one.
pub struct EventManager<H> {
    pub events: TypeMap<H>,
}

impl<H> EventManager<H> {
    /// The handler registered for each event type.
    pub open spec fn handlers(&self) -> Map<TypeKey, H> {
        self.events@
    }

    pub open spec fn wf(&self) -> bool {
        self.events.wf()
    }

    pub fn new() -> (r: Self)
        ensures
            r.wf(),
            r.handlers() == Map::<TypeKey, H>::empty(),
    {
        EventManager { events: TypeMap::new() }
    }

    /// Registers `handler` for events of type `event_type`, replacing any earlier handler.
    pub fn subscribe(&mut self, event_type: TypeKey, handler: H)
        requires
            old(self).wf(),
        ensures
            final(self).wf(),
            final(self).handlers() == old(self).handlers().insert(event_type, handler),
    {
        self.events.insert(event_type, handler);
    }

    /// The handler that a published event of type `event_type` goes to; none means the event
    /// is dropped.
    pub fn publish(&self, event_type: TypeKey) -> (r: Option<&H>)
        requires
            self.wf(),
        ensures
            r.is_some() == self.handlers().contains_key(event_type),
            r matches Some(h) ==> *h == self.handlers()[event_type],
    {
        self.events.get(event_type)
    }
}

} // verus!
