//! The two actors of the example application: a proxy that, every hundred
//! ticks, takes a message from the pool, writes `1` into it and sends it,
//! and an adder that sums the payloads it receives.
use vstd::prelude::*;

use crate::queue::Envelope;

verus! {

/// Ticks the proxy sleeps between two messages.
pub const PROXY_DELAY: u32 = 100;

/// What the proxy waits for next.
#[derive(PartialEq, Eq, Structural, Clone, Copy, Debug)]
pub enum ProxyStep {
    /// Sleep for [`PROXY_DELAY`] ticks.
    Sleep,
    /// Get a message from the pool.
    Alloc,
    /// Fill the message and send it.
    Send,
}

/// The step that follows `s` in the proxy's loop.
pub open spec fn proxy_next(s: ProxyStep) -> ProxyStep {
    match s {
        ProxyStep::Sleep => ProxyStep::Alloc,
        ProxyStep::Alloc => ProxyStep::Send,
        ProxyStep::Send => ProxyStep::Sleep,
    }
}

pub struct Proxy {
    step: ProxyStep,
}

impl Proxy {
    /// Where the proxy stands in its loop.
    pub closed spec fn step(&self) -> ProxyStep {
        self.step
    }

    /// A proxy about to go to sleep.
    pub fn new() -> (p: Self)
        ensures
            p.step() == ProxyStep::Sleep,
    {
        Proxy { step: ProxyStep::Sleep }
    }

    /// The step to take now; the proxy then moves on to the following one.
    pub fn next(&mut self) -> (s: ProxyStep)
        ensures
            s == old(self).step(),
            final(self).step() == proxy_next(s),
    {
        let s = self.step;
        self.step = match s {
            ProxyStep::Sleep => ProxyStep::Alloc,
            ProxyStep::Alloc => ProxyStep::Send,
            ProxyStep::Send => ProxyStep::Sleep,
        };
        s
    }

    /// Writes the proxy's payload into a message before it is sent.
    pub fn fill(msg: &mut Envelope<u32>)
        ensures
            final(msg).msg().id == old(msg).msg().id,
            final(msg).msg().obj.parent == old(msg).msg().obj.parent,
            final(msg).msg().obj.payload == 1,
    {
        msg.set(1);
    }
}

/// Three steps bring the proxy back to where it was.
pub proof fn lemma_proxy_cycle(s: ProxyStep)
    ensures
        proxy_next(proxy_next(proxy_next(s))) == s,
{
}

pub struct Adder {
    sum: u32,
}

impl Adder {
    /// The sum of the payloads received so far.
    pub closed spec fn sum(&self) -> u32 {
        self.sum
    }

    /// An adder that has received nothing.
    pub fn new() -> (a: Self)
        ensures
            a.sum() == 0,
    {
        Adder { sum: 0 }
    }

    /// Adds the payload of a received message and returns the new sum.
    pub fn add(&mut self, msg: &Envelope<u32>) -> (sum: u32)
        requires
            old(self).sum() + msg.msg().obj.payload <= u32::MAX,
        ensures
            sum == old(self).sum() + msg.msg().obj.payload,
            final(self).sum() == sum,
    {
        self.sum = self.sum + *msg.get();
        self.sum
    }
}

} // verus!
