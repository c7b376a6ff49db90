//! One agent: the phase that it has recorded for each transaction, and its
//! answer to each request.

use vstd::prelude::*;
use std::collections::HashMap;
use crate::communication::{
    decode, DataMsg, DataMsgBytes, ABORT, ACK, COMMIT, FINISH, PAYMENT_ERR, PAYMENT_OK, PREPARE,
};
use crate::logger::{log_path, Logger};

verus! {

broadcast use vstd::std_specs::hash::group_hash_axioms;

/// An agent of the payment system.
pub struct Agent {
    /// The name of the agent, for the log.
    pub name: String,
    /// The port that the agent listens on.
    pub port: u16,
    /// The logger of the agent.
    pub logger: Logger,
    /// The phase recorded for each transaction.
    pub transactions_state: HashMap<u32, u8>,
}

/// What reaches the listener of an agent.
#[derive(Clone, Copy, Debug)]
pub enum ListenerEvent {
    /// A request arrived. `success` is the outcome drawn for the payment
    /// where the request is a `PREPARE`; for any other request it says
    /// nothing.
    Request { bytes: DataMsgBytes, success: bool },
    /// No connection is waiting. `alive` says whether the agent is still
    /// meant to run.
    Idle { alive: bool },
}

/// What the listener of an agent does next.
#[derive(Clone, Copy, Debug, PartialEq, Eq, Structural)]
pub enum ListenerStep {
    /// Write `reply` and close the connection; where `stop` is set, stop
    /// listening afterwards.
    Reply { reply: u8, stop: bool },
    /// The request names no known operation: write nothing, close this
    /// connection, and go on listening.
    UnknownOpcode,
    /// The agent was killed: stop listening.
    Exit,
    /// Look again after a pause.
    Wait,
}

/// The phases that an agent holds after a request.
pub open spec fn phases_after(phases: Map<u32, u8>, msg: DataMsg) -> Map<u32, u8> {
    if msg.opcode == PREPARE || msg.opcode == COMMIT || msg.opcode == ABORT {
        phases.insert(msg.transaction_id, msg.opcode)
    } else {
        phases
    }
}

/// What the listener does after an event.
pub open spec fn listener_choice(event: ListenerEvent) -> ListenerStep {
    match event {
        ListenerEvent::Request { bytes, success } => {
            let msg = decode(bytes@);
            if msg.opcode == PREPARE {
                ListenerStep::Reply {
                    reply: if success {
                        PAYMENT_OK
                    } else {
                        PAYMENT_ERR
                    },
                    stop: false,
                }
            } else if msg.opcode == COMMIT || msg.opcode == ABORT {
                ListenerStep::Reply { reply: ACK, stop: false }
            } else if msg.opcode == FINISH {
                ListenerStep::Reply { reply: ACK, stop: true }
            } else {
                ListenerStep::UnknownOpcode
            }
        },
        ListenerEvent::Idle { alive } => if alive {
            ListenerStep::Wait
        } else {
            ListenerStep::Exit
        },
    }
}

/// The phases that an agent holds after an event.
pub open spec fn listener_phases(phases: Map<u32, u8>, event: ListenerEvent) -> Map<u32, u8> {
    match event {
        ListenerEvent::Request { bytes, .. } => phases_after(phases, decode(bytes@)),
        ListenerEvent::Idle { .. } => phases,
    }
}

impl Agent {
    /// The phase recorded for each transaction.
    pub open spec fn phases(&self) -> Map<u32, u8> {
        self.transactions_state@
    }

    /// An agent that has seen no transaction.
    pub fn new(name: String, port: u16) -> (agent: Agent)
        ensures
            agent.name@ == name@,
            agent.port == port,
            agent.logger.name@ == name@,
            agent.logger.filename@ == log_path(name@),
            agent.phases() == Map::<u32, u8>::empty(),
    {
        Agent {
            name: name.clone(),
            port,
            logger: Logger::new(name),
            transactions_state: HashMap::new(),
        }
    }

    /// The phase recorded for a transaction, if any.
    pub fn phase_of(&self, transaction_id: u32) -> (phase: Option<u8>)
        ensures
            phase == (if self.phases().contains_key(transaction_id) {
                Some(self.phases()[transaction_id])
            } else {
                None
            }),
    {
        match self.transactions_state.get(&transaction_id) {
            Some(phase) => Some(*phase),
            None => None,
        }
    }

    /// The first phase: records `PREPARE` for the transaction and votes.
    /// `success` is the outcome drawn for the payment of `data`: the agent
    /// accepts the payment if it is set and refuses it otherwise.
    pub fn prepare(&mut self, transaction_id: u32, data: u32, success: bool) -> (reply: u8)
        ensures
            final(self).phases() == old(self).phases().insert(transaction_id, PREPARE),
            final(self).name == old(self).name,
            final(self).port == old(self).port,
            final(self).logger == old(self).logger,
            reply == (if success {
                PAYMENT_OK
            } else {
                PAYMENT_ERR
            }),
    {
        self.transactions_state.insert(transaction_id, PREPARE);
        if success {
            PAYMENT_OK
        } else {
            PAYMENT_ERR
        }
    }

    /// The second phase, committing: records `COMMIT` for the transaction
    /// and acknowledges.
    pub fn commit(&mut self, transaction_id: u32) -> (reply: u8)
        ensures
            final(self).phases() == old(self).phases().insert(transaction_id, COMMIT),
            final(self).name == old(self).name,
            final(self).port == old(self).port,
            final(self).logger == old(self).logger,
            reply == ACK,
    {
        self.transactions_state.insert(transaction_id, COMMIT);
        ACK
    }

    /// The second phase, aborting: records `ABORT` for the transaction and
    /// acknowledges.
    pub fn abort(&mut self, transaction_id: u32) -> (reply: u8)
        ensures
            final(self).phases() == old(self).phases().insert(transaction_id, ABORT),
            final(self).name == old(self).name,
            final(self).port == old(self).port,
            final(self).logger == old(self).logger,
            reply == ACK,
    {
        self.transactions_state.insert(transaction_id, ABORT);
        ACK
    }

    /// The end of the run: acknowledges, and records nothing.
    pub fn finish(&mut self) -> (reply: u8)
        ensures
            *final(self) == *old(self),
            reply == ACK,
    {
        ACK
    }

    /// Whether a request asks for a vote, so that an outcome must be drawn
    /// for its payment: it does if it is a `PREPARE`.
    pub fn asks_for_vote(bytes: &DataMsgBytes) -> (asks: bool)
        ensures
            asks == (decode(bytes@).opcode == PREPARE),
    {
        bytes[8] == PREPARE
    }

    /// One turn of the listener. A request is carried out by the operation
    /// that it names, and answered with that operation's reply; `FINISH`
    /// also ends the listener. Without a request the listener goes on
    /// waiting, unless the agent was killed.
    pub fn listen(&mut self, event: ListenerEvent) -> (step: ListenerStep)
        ensures
            step == listener_choice(event),
            final(self).phases() == listener_phases(old(self).phases(), event),
            final(self).name == old(self).name,
            final(self).port == old(self).port,
            final(self).logger == old(self).logger,
    {
        match event {
            ListenerEvent::Request { bytes, success } => {
                let data_msg = DataMsg::from_bytes(bytes);
                if data_msg.opcode == PREPARE {
                    let reply: u8 = self.prepare(data_msg.transaction_id, data_msg.data, success);
                    ListenerStep::Reply { reply, stop: false }
                } else if data_msg.opcode == COMMIT {
                    let reply: u8 = self.commit(data_msg.transaction_id);
                    ListenerStep::Reply { reply, stop: false }
                } else if data_msg.opcode == ABORT {
                    let reply: u8 = self.abort(data_msg.transaction_id);
                    ListenerStep::Reply { reply, stop: false }
                } else if data_msg.opcode == FINISH {
                    let reply: u8 = self.finish();
                    ListenerStep::Reply { reply, stop: true }
                } else {
                    ListenerStep::UnknownOpcode
                }
            },
            ListenerEvent::Idle { alive } => {
                if alive {
                    ListenerStep::Wait
                } else {
                    ListenerStep::Exit
                }
            },
        }
    }
}

} // verus!
