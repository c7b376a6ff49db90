//! The exchange of one phase of the two-phase commit between the leader
//! and the agents: what is sent to each agent, and the replies as they
//! come in.

use vstd::prelude::*;
use crate::communication::{encode, DataMsg, DataMsgBytes, FINISH, PAYMENT_ERR};
use crate::payments::PaymentEvent;

verus! {


/// What is sent to one agent.
#[derive(Clone, Copy, Debug)]
pub struct AgentRequest {
    /// The port that the agent listens on.
    pub port: u16,
    /// The message, ready for the wire.
    pub bytes: DataMsgBytes,
}

/// How the exchange with one agent went.
#[derive(Clone, Copy, Debug, PartialEq, Eq, Structural)]
pub enum Exchange {
    /// No connection could be opened.
    Unreachable,
    /// A connection was opened. `sent` says whether the request went out,
    /// and `received` holds the reply byte if one came back.
    Connected { sent: bool, received: Option<u8> },
}

/// The reply that an exchange counts as: an agent that cannot be reached
/// votes against the payment, and so does one that sent no reply.
pub open spec fn reply_of(exchange: Exchange) -> u8 {
    match exchange {
        Exchange::Unreachable => PAYMENT_ERR,
        Exchange::Connected { received: Some(reply), .. } => reply,
        Exchange::Connected { received: None, .. } => 0,
    }
}

/// Whether an exchange broke after its connection was opened.
pub open spec fn broke(exchange: Exchange) -> bool {
    match exchange {
        Exchange::Unreachable => false,
        Exchange::Connected { sent, received } => !sent || received is None,
    }
}

/// The request for agent `i`.
pub open spec fn request_for(
    transaction_id: usize,
    transaction_prices: Seq<u32>,
    operation: u8,
    i: int,
) -> DataMsg {
    DataMsg { transaction_id: transaction_id as u32, data: transaction_prices[i], opcode: operation }
}

/// `request` carries `msg` to the agent that listens on `port`.
pub open spec fn is_request(request: AgentRequest, port: u16, msg: DataMsg) -> bool {
    request.port == port && request.bytes@ == encode(msg)
}

/// The request that tells an agent to stop listening.
pub open spec fn finish_request() -> DataMsg {
    DataMsg { transaction_id: 0, data: 0, opcode: FINISH }
}

/// The replies of one phase while they come in: at most one for each agent
/// that was asked.
#[derive(Debug)]
pub struct Responses {
    /// The replies so far, in the order in which they arrived.
    pub replies: Vec<u8>,
    /// How many agents were asked.
    pub expected: usize,
    /// Whether every exchange so far that opened a connection also finished.
    pub im_alive: bool,
}

impl Responses {
    /// No more replies are held than agents were asked.
    pub open spec fn wf(&self) -> bool {
        self.replies@.len() <= self.expected
    }

    /// No reply yet from `expected` agents, and no exchange broken.
    pub fn new(expected: usize) -> (responses: Responses)
        ensures
            responses.wf(),
            responses.replies@ == Seq::<u8>::empty(),
            responses.expected == expected,
            responses.im_alive,
    {
        Responses { replies: Vec::new(), expected, im_alive: true }
    }

    /// Takes in the outcome of the exchange with one agent that has not
    /// been heard of yet: its reply joins the others, and an exchange that
    /// broke marks the phase.
    pub fn record(&mut self, exchange: Exchange)
        requires
            old(self).replies@.len() < old(self).expected,
        ensures
            final(self).wf(),
            final(self).replies@ == old(self).replies@.push(reply_of(exchange)),
            final(self).expected == old(self).expected,
            final(self).im_alive == (old(self).im_alive && !broke(exchange)),
    {
        match exchange {
            Exchange::Unreachable => {
                self.replies.push(PAYMENT_ERR);
            },
            Exchange::Connected { sent, received } => {
                if !sent {
                    self.im_alive = false;
                }
                match received {
                    Some(reply) => {
                        self.replies.push(reply);
                    },
                    None => {
                        self.im_alive = false;
                        self.replies.push(0);
                    },
                }
            },
        }
    }

    /// Whether the leader still waits: some agent has not replied.
    pub fn waiting(&self) -> (waits: bool)
        ensures
            waits == (self.replies@.len() != self.expected),
    {
        self.replies.len() != self.expected
    }

    /// What the leader learns from a `PREPARE` when it stops waiting, be it
    /// because every agent has replied or because the time is up: the
    /// replies that have arrived, and that the wait ran out exactly if some
    /// agent has not replied.
    pub fn prepared(self) -> (event: PaymentEvent)
        requires
            self.wf(),
        ensures
            event matches PaymentEvent::Prepared { replies, timed_out, im_alive } && replies@
                == self.replies@ && replies@.len() <= self.expected && timed_out == (
            self.replies@.len() < self.expected) && im_alive == self.im_alive,
    {
        let timed_out: bool = self.waiting();
        PaymentEvent::Prepared { replies: self.replies, timed_out, im_alive: self.im_alive }
    }
}

/// An agent that cannot be reached counts as one that refuses the payment,
/// and does not count as a broken exchange.
pub proof fn lemma_unreachable_agent_refuses()
    ensures
        reply_of(Exchange::Unreachable) == PAYMENT_ERR,
        !broke(Exchange::Unreachable),
{
}

} // verus!
