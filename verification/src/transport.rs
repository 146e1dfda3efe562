//! What the transport carries, and the order in which a listener tries the
//! ports of its range.
use vstd::prelude::*;
use crate::addr::PeerAddr;

verus! {

/// A message with the address it came from or goes to.
#[derive(Debug, Clone)]
pub struct TransportMessage {
    pub msg: String,
    pub addr: PeerAddr,
}

/// `t` carries the text `text` to or from `addr`.
pub open spec fn carries(t: TransportMessage, addr: PeerAddr, text: Seq<char>) -> bool {
    t.addr == addr && t.msg@ == text
}

/// The ports `start..=end` that a listener tries, in order.
#[derive(Debug, Clone, Copy, PartialEq, Eq, Structural)]
pub struct BindingPortRange {
    pub start: u16,
    pub end: u16,
}

/// The next step of trying the ports of a range.
#[derive(Debug, Clone, Copy, PartialEq, Eq, Structural)]
pub enum BindStep {
    /// Try to bind this port.
    Try(u16),
    /// No port of the range is left.
    Exhausted,
}

impl BindingPortRange {
    /// The first port to try: `start`, unless the range is empty.
    pub open spec fn first(&self) -> BindStep {
        if self.start <= self.end {
            BindStep::Try(self.start)
        } else {
            BindStep::Exhausted
        }
    }

    /// The port to try after `port`: the next one, unless `port` is the last.
    pub open spec fn after(&self, port: u16) -> BindStep {
        if port < self.end {
            BindStep::Try((port + 1) as u16)
        } else {
            BindStep::Exhausted
        }
    }

    /// The ports of the range, in increasing order.
    pub open spec fn ports(&self) -> Seq<u16> {
        Seq::new(
            if self.start <= self.end {
                (self.end - self.start + 1) as nat
            } else {
                0
            },
            |i: int| (self.start + i) as u16,
        )
    }

    /// The first port to try.
    pub fn first_step(&self) -> (r: BindStep)
        ensures
            r == self.first(),
    {
        if self.start <= self.end {
            BindStep::Try(self.start)
        } else {
            BindStep::Exhausted
        }
    }

    /// What follows a failed attempt to bind `port`: the next port when the port
    /// was in use, or `None` when the failure is to be given up with.
    pub fn after_bind_error(&self, port: u16, in_use: bool) -> (r: Option<BindStep>)
        ensures
            r == (if in_use {
                Some(self.after(port))
            } else {
                None
            }),
    {
        if in_use {
            Some(self.next_step(port))
        } else {
            None
        }
    }

    /// The port to try after `port` was found taken.
    pub fn next_step(&self, port: u16) -> (r: BindStep)
        ensures
            r == self.after(port),
    {
        if port < self.end {
            BindStep::Try(port + 1)
        } else {
            BindStep::Exhausted
        }
    }
}

/// Starting at `first` and following `after` visits exactly the ports of the
/// range, each once and in increasing order, then stops.
pub proof fn lemma_steps_visit_range(r: BindingPortRange)
    ensures
        r.ports().len() == 0 <==> r.first() == BindStep::Exhausted,
        r.ports().len() > 0 ==> r.first() == BindStep::Try(r.ports()[0]),
        forall|i: int|
            0 <= i < r.ports().len() - 1 ==> #[trigger] r.after(r.ports()[i]) == BindStep::Try(
                r.ports()[i + 1],
            ),
        r.ports().len() > 0 ==> r.after(r.ports().last()) == BindStep::Exhausted,
{
}

} // verus!
