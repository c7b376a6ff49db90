//! The requests of one phase of the two-phase commit: one for each agent.

use vstd::prelude::*;
use crate::alglobo_node::AlgloboNode;
use crate::communication::{DataMsg, FINISH};
use crate::exchange::{finish_request, is_request, request_for, AgentRequest};

verus! {

impl AlgloboNode {
    /// The requests of one phase: agent `i`, which listens on
    /// `agents_ports[i]`, is asked to perform `operation` on the transaction
    /// with the `i`-th amount of the record.
    pub fn broadcast(
        &self,
        transaction_id: usize,
        transaction_prices: &[u32],
        operation: u8,
        agents_ports: &[u16],
    ) -> (requests: Vec<AgentRequest>)
        requires
            transaction_id <= u32::MAX,
            agents_ports@.len() <= transaction_prices@.len(),
        ensures
            requests@.len() == agents_ports@.len(),
            forall|i: int|
                0 <= i < requests@.len() ==> is_request(
                    #[trigger] requests@[i],
                    agents_ports@[i],
                    request_for(transaction_id, transaction_prices@, operation, i),
                ),
    {
        let mut requests: Vec<AgentRequest> = Vec::new();
        let mut i: usize = 0;
        while i < agents_ports.len()
            invariant
                i <= agents_ports@.len(),
                agents_ports@.len() <= transaction_prices@.len(),
                transaction_id <= u32::MAX,
                requests@.len() == i,
                forall|k: int|
                    0 <= k < i ==> is_request(
                        #[trigger] requests@[k],
                        agents_ports@[k],
                        request_for(transaction_id, transaction_prices@, operation, k),
                    ),
            decreases agents_ports@.len() - i,
        {
            let msg = DataMsg {
                transaction_id: transaction_id as u32,
                data: transaction_prices[i],
                opcode: operation,
            };
            requests.push(AgentRequest { port: agents_ports[i], bytes: DataMsg::to_bytes(&msg) });
            i = i + 1;
        }
        requests
    }

    /// The requests that tell the agents to stop listening: `FINISH` for
    /// transaction 0 with an amount of 0, one for each agent.
    pub fn finish_requests(&self, agents_ports: &[u16]) -> (requests: Vec<AgentRequest>)
        ensures
            requests@.len() == agents_ports@.len(),
            forall|i: int|
                0 <= i < requests@.len() ==> is_request(
                    #[trigger] requests@[i],
                    agents_ports@[i],
                    finish_request(),
                ),
    {
        let mut dummy_data: Vec<u32> = Vec::new();
        let mut i: usize = 0;
        while i < agents_ports.len()
            invariant
                i <= agents_ports@.len(),
                dummy_data@.len() == i,
                forall|k: int| 0 <= k < i ==> dummy_data@[k] == 0,
            decreases agents_ports@.len() - i,
        {
            dummy_data.push(0);
            i = i + 1;
        }
        let requests = self.broadcast(0, dummy_data.as_slice(), FINISH, agents_ports);
        proof {
            assert forall|i: int| 0 <= i < requests@.len() implies is_request(
                #[trigger] requests@[i],
                agents_ports@[i],
                finish_request(),
            ) by {
                assert(dummy_data@[i] == 0);
                assert(request_for(0, dummy_data@, FINISH, i) == finish_request());
            }
        }
        requests
    }
}

} // verus!
