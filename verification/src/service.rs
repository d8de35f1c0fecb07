//! What listening ports do with their connections: the `Service` trait and
//! the echo service.
use vstd::prelude::*;
use vstd::slice::slice_to_vec;

verus! {

/// What a service does when it is handed data: the bytes it sends back,
/// whether it wants the connection closed after them, and what it remembers
/// from then on.
pub struct Answer {
    pub reply: Seq<u8>,
    pub close: bool,
    pub memory: Seq<u8>,
}

/// What a service does when the peer closes its side: its final bytes, and
/// what it remembers from then on.
pub struct Farewell {
    pub bytes: Seq<u8>,
    pub memory: Seq<u8>,
}

/// How a service behaves, whatever it remembers at the moment.
pub struct Behaviour {
    /// Whether a service with this memory may answer these data so.
    pub on_data: spec_fn(Seq<u8>, Seq<u8>, Answer) -> bool,
    /// Whether a service with this memory may take leave so. Taking leave
    /// without a byte and without a trace is always allowed.
    pub on_peer_close: spec_fn(Seq<u8>, Farewell) -> bool,
}

/// The behaviour that rules out no answer and no farewell.
pub open spec fn any_behaviour() -> Behaviour {
    Behaviour {
        on_data: |memory: Seq<u8>, data: Seq<u8>, answer: Answer| true,
        on_peer_close: |memory: Seq<u8>, farewell: Farewell| true,
    }
}

/// A service seen from outside.
pub struct ServiceView {
    pub behaviour: Behaviour,
    pub memory: Seq<u8>,
}

impl ServiceView {
    /// Whether the service may answer `data` by `answer`.
    pub open spec fn may_answer(self, data: Seq<u8>, answer: Answer) -> bool {
        (self.behaviour.on_data)(self.memory, data, answer)
    }

    /// Whether the service may take leave by `farewell`.
    pub open spec fn may_leave(self, farewell: Farewell) -> bool {
        ||| farewell.bytes.len() == 0 && farewell.memory == self.memory
        ||| (self.behaviour.on_peer_close)(self.memory, farewell)
    }
}

/// What a listening port does with a connection.
///
/// A service may say of itself how it behaves and what it remembers. One that
/// says nothing promises nothing.
pub trait Service {
    /// How the service behaves.
    open spec fn behaviour(&self) -> Behaviour {
        any_behaviour()
    }

    /// What the service remembers.
    open spec fn memory(&self) -> Seq<u8> {
        Seq::empty()
    }

    /// Called with bytes received in order. Returns bytes to send back and
    /// whether the connection should be closed after they are sent.
    fn on_data(&mut self, data: &[u8]) -> (r: (Vec<u8>, bool))
        ensures
            final(self).behaviour() == old(self).behaviour(),
            (ServiceView {
                behaviour: old(self).behaviour(),
                memory: old(self).memory(),
            }).may_answer(
                data@,
                Answer { reply: r.0@, close: r.1, memory: final(self).memory() },
            ),
    ;

    /// Called when the peer closes its side. Returns final bytes to send.
    ///
    /// A service that does not say otherwise has none, and stays as it is.
    fn on_peer_close(&mut self) -> (r: Vec<u8>)
        ensures
            final(self).behaviour() == old(self).behaviour(),
            (ServiceView {
                behaviour: old(self).behaviour(),
                memory: old(self).memory(),
            }).may_leave(Farewell { bytes: r@, memory: final(self).memory() }),
        default_ensures
            r@ == Seq::<u8>::empty(),
            &*final(self) == &*old(self),
    {
        let r: Vec<u8> = Vec::new();
        r
    }
}

/// Whether `r` is what a call of `on_data` with `data` can give on the service
/// behind `m`, and leave there.
pub open spec fn is_answer<S: Service + ?Sized>(
    m: &mut S,
    data: &[u8],
    r: (Vec<u8>, bool),
) -> bool {
    call_ensures(S::on_data, (m, data), r)
}

/// Whether `r` is what a call of `on_peer_close` can give on the service
/// behind `m`, and leave there.
pub open spec fn is_farewell<S: Service + ?Sized>(m: &mut S, r: Vec<u8>) -> bool {
    call_ensures(S::on_peer_close, (m,), r)
}

/// A place for one value. A trait object that moves in through this generic
/// constructor stays the same value to the verifier, which loses sight of it
/// where it meets a field of its own type.
pub struct Slot<T> {
    pub item: T,
}

impl<T> Slot<T> {
    pub fn new(item: T) -> (slot: Self)
        ensures
            slot.item == item,
    {
        Slot { item }
    }
}

/// Hands data to the service in a slot.
pub(crate) fn ask<S: Service + ?Sized>(slot: &mut Slot<Box<S>>, data: &[u8]) -> (r: (Vec<u8>, bool))
    ensures
        final(slot).item.behaviour() == old(slot).item.behaviour(),
        (ServiceView {
            behaviour: old(slot).item.behaviour(),
            memory: old(slot).item.memory(),
        }).may_answer(
            data@,
            Answer { reply: r.0@, close: r.1, memory: final(slot).item.memory() },
        ),
        exists|m: &mut S|
            {
                &&& #[trigger] is_answer(m, data, r)
                &&& &*m == &*old(slot).item
                &&& &*final(m) == &*final(slot).item
            },
{
    answer_of(&mut *slot.item, data)
}

/// Tells the service in a slot that the peer has closed its side.
pub(crate) fn tell<S: Service + ?Sized>(slot: &mut Slot<Box<S>>) -> (r: Vec<u8>)
    ensures
        final(slot).item.behaviour() == old(slot).item.behaviour(),
        (ServiceView {
            behaviour: old(slot).item.behaviour(),
            memory: old(slot).item.memory(),
        }).may_leave(Farewell { bytes: r@, memory: final(slot).item.memory() }),
        exists|m: &mut S|
            {
                &&& #[trigger] is_farewell(m, r)
                &&& &*m == &*old(slot).item
                &&& &*final(m) == &*final(slot).item
            },
{
    farewell_of(&mut *slot.item)
}

/// Hands data to a service.
fn answer_of<S: Service + ?Sized>(service: &mut S, data: &[u8]) -> (r: (Vec<u8>, bool))
    ensures
        final(service).behaviour() == old(service).behaviour(),
        (ServiceView {
            behaviour: old(service).behaviour(),
            memory: old(service).memory(),
        }).may_answer(
            data@,
            Answer { reply: r.0@, close: r.1, memory: final(service).memory() },
        ),
        exists|m: &mut S|
            {
                &&& #[trigger] call_ensures(S::on_data, (m, data), r)
                &&& is_answer(m, data, r)
                &&& &*m == &*old(service)
                &&& &*final(m) == &*final(service)
            },
{
    service.on_data(data)
}

/// Tells a service that the peer has closed its side.
fn farewell_of<S: Service + ?Sized>(service: &mut S) -> (r: Vec<u8>)
    ensures
        final(service).behaviour() == old(service).behaviour(),
        (ServiceView {
            behaviour: old(service).behaviour(),
            memory: old(service).memory(),
        }).may_leave(Farewell { bytes: r@, memory: final(service).memory() }),
        exists|m: &mut S|
            {
                &&& #[trigger] call_ensures(S::on_peer_close, (m,), r)
                &&& is_farewell(m, r)
                &&& &*m == &*old(service)
                &&& &*final(m) == &*final(service)
            },
{
    service.on_peer_close()
}

/// What the echo service answers.
pub open spec fn echo_answer(memory: Seq<u8>, data: Seq<u8>) -> Answer {
    Answer { reply: data, close: false, memory }
}

/// How the echo service behaves.
pub open spec fn echo_behaviour() -> Behaviour {
    Behaviour {
        on_data: |memory: Seq<u8>, data: Seq<u8>, answer: Answer|
            answer == echo_answer(memory, data),
        on_peer_close: |memory: Seq<u8>, farewell: Farewell| false,
    }
}

/// Echoes everything back.
pub struct Echo;

impl Service for Echo {
    open spec fn behaviour(&self) -> Behaviour {
        echo_behaviour()
    }

    open spec fn memory(&self) -> Seq<u8> {
        Seq::empty()
    }

    fn on_data(&mut self, data: &[u8]) -> (r: (Vec<u8>, bool))
        ensures
            r.0@ == data@,
            !r.1,
    {
        (slice_to_vec(data), false)
    }
}

} // verus!
