//! Draining the output channel of a process that ended.

use tokio::sync::broadcast::error::TryRecvError;
use tokio::sync::broadcast::Receiver;
use vstd::prelude::*;

use crate::clock::Clock;
use crate::delivery;
use crate::delivery::{DeliveryLoop, Effect, Event};

verus! {

/// `tokio::sync::broadcast::Receiver`: one end of the output channel. Nothing
/// inside it is visible here.
#[verifier::external_type_specification]
#[verifier::external_body]
#[verifier::reject_recursive_types(T)]
pub struct ExReceiver<T>(tokio::sync::broadcast::Receiver<T>);

/// What an attempt to receive from the output channel gives.
pub enum Received {
    Chunk(Vec<u8>),
    /// The receiver was too slow, and this many chunks are gone.
    Lagged(u64),
    /// Nothing is there now.
    Empty,
    /// Nothing will ever be there.
    Closed,
}

pub open spec fn received_event(received: Received) -> Event<Seq<u8>> {
    match received {
        Received::Chunk(chunk) => Event::Chunk(chunk@),
        Received::Lagged(skipped) => Event::Lagged(skipped),
        Received::Empty => Event::Closed,
        Received::Closed => Event::Closed,
    }
}

/// The event that `received` is to a loop that drains its channel. An empty
/// channel ends the drain just as a closed one does.
pub fn drained(received: Received) -> (event: Event<Vec<u8>>)
    ensures
        delivery::event_view(event) == received_event(received),
{
    match received {
        Received::Chunk(chunk) => Event::Chunk(chunk),
        Received::Lagged(skipped) => Event::Lagged(skipped),
        Received::Empty => Event::Closed,
        Received::Closed => Event::Closed,
    }
}

/// `tokio::sync::broadcast::Receiver::try_recv`: takes the next chunk, if there
/// is one, without waiting. What comes back depends on the senders. A lag is
/// only reported where chunks were missed, so their number is not 0.
#[verifier::external_body]
fn try_receive(rx: &mut Receiver<Vec<u8>>) -> (received: Received)
    ensures
        received matches Received::Lagged(skipped) ==> skipped > 0,
{
    match rx.try_recv() {
        Ok(chunk) => Received::Chunk(chunk),
        Err(TryRecvError::Lagged(skipped)) => Received::Lagged(skipped),
        Err(TryRecvError::Empty) => Received::Empty,
        Err(TryRecvError::Closed) => Received::Closed,
    }
}

impl DeliveryLoop {
    /// Takes in what the output channel gives next, without waiting for it. The
    /// effects are to be carried out in order. `None`, with the loop left as it
    /// was, if counting it would exceed the machine's integers.
    pub fn drain_next(&mut self, rx: &mut Receiver<Vec<u8>>, clock: &Clock) -> (effects: Option<
        Vec<Effect<String>>,
    >)
        requires
            clock.in_range(),
        ensures
            exists|received: Received, now: u128|
                {
                    &&& clock.reads(now)
                    &&& received matches Received::Lagged(skipped) ==> skipped > 0
                    &&& match effects {
                        Some(effects) => {
                            &&& delivery::countable(old(self)@, received_event(received))
                            &&& delivery::faithful(old(self)@, received_event(received))
                            &&& (final(self)@, delivery::effect_views(effects@))
                                == #[trigger] delivery::step(
                                old(self)@,
                                received_event(received),
                                now,
                            )
                        },
                        None => {
                            &&& !delivery::countable(old(self)@, received_event(received))
                            &&& final(self)@ == old(self)@
                        },
                    }
                },
    {
        let received = try_receive(rx);
        proof {
            assert(clock.reads(clock.some_reading()));
            let witness = delivery::step(self@, received_event(received), clock.some_reading());
        }
        self.take_in(received, clock)
    }

    /// Takes in what the output channel gave. The effects are to be carried out
    /// in order. `None`, with the loop left as it was, if counting it would
    /// exceed the machine's integers.
    pub fn take_in(&mut self, received: Received, clock: &Clock) -> (effects: Option<
        Vec<Effect<String>>,
    >)
        requires
            clock.in_range(),
        ensures
            match effects {
                Some(effects) => {
                    &&& delivery::countable(old(self)@, received_event(received))
                    &&& delivery::faithful(old(self)@, received_event(received))
                    &&& exists|now: u128| #[trigger]
                        clock.reads(now) && (final(self)@, delivery::effect_views(effects@))
                            == delivery::step(old(self)@, received_event(received), now)
                },
                None => {
                    &&& !delivery::countable(old(self)@, received_event(received))
                    &&& final(self)@ == old(self)@
                },
            },
    {
        let event = drained(received);
        if !self.can_count(&event) {
            return None;
        }
        Some(self.advance(event, clock))
    }
}

} // verus!
