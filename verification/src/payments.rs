//! The leader's side of the two-phase commit: which record comes next, how a
//! vote ends, and how a new leader takes over what the last one left.
//!
//! The caller does the sending and the waiting. It reports each outcome as a
//! `PaymentEvent` and carries out the `PaymentAction` that comes back.

use vstd::prelude::*;
use crate::alglobo_node::{
    loop_step, takes_entry, AlgloboNode, Awaited, LogBroadcast, LoopEvent,
};
use crate::agent::phases_after;
use crate::communication::{DataMsg, ABORT, COMMIT, PAYMENT_OK, PREPARE};
use crate::csv::{csv_line, write_to_csv};
use crate::exchange::{finish_request, is_request, request_for, AgentRequest};
use crate::logger::{
    payment_message, payment_text, transaction_message, transaction_text, LogLevel, LogLine,
};
use crate::replication::{encode_log, everyone_but, is_everyone_but};

verus! {

/// What the leader learns while it processes payments.
#[derive(Debug)]
pub enum PaymentEvent {
    /// The replica has just become the leader.
    Start,
    /// The `PREPARE` of the record in hand was sent to the agents and entered
    /// in the replicas' logs. `replies` are the votes that arrived,
    /// `timed_out` says whether the wait for them ran out, and `im_alive`
    /// whether every connection that opened for this record also carried its
    /// exchange.
    Prepared { replies: Vec<u8>, timed_out: bool, im_alive: bool },
    /// The decision on a record was sent to the agents and entered in the
    /// replicas' logs.
    Finished,
}

/// What the leader does next.
#[derive(Clone, Copy, Debug, PartialEq, Eq, Structural)]
pub enum PaymentAction {
    /// Send `PREPARE` for record `id` to the agents, enter `(PREPARE, id)` in
    /// the replicas' logs, and report `Prepared`.
    Prepare { id: usize },
    /// Where `retry` is set, append record `id` to the retry output; send
    /// `operation` for it to the agents, enter `(operation, id)` in the
    /// replicas' logs, and report `Finished`.
    Conclude { id: usize, operation: u8, retry: bool },
    /// No record is left: send `FINISH` to the agents and `KILL` to the
    /// other replicas.
    Shutdown,
    /// The replica is stopping: do nothing more.
    Halt,
}

/// Every vote accepts the payment.
pub open spec fn all_ok(replies: Seq<u8>) -> bool {
    forall|i: int| 0 <= i < replies.len() ==> replies[i] == PAYMENT_OK
}

/// How a vote ends: with `COMMIT` if and only if the wait did not run out,
/// every vote accepts, and no exchange broke; otherwise with `ABORT`. A
/// broken exchange counts against the record in hand only.
pub open spec fn decision(replies: Seq<u8>, timed_out: bool, im_alive: bool) -> u8 {
    if all_ok(replies) && !timed_out && im_alive {
        COMMIT
    } else {
        ABORT
    }
}

/// What the processing waits for after an action.
pub open spec fn awaited_after(action: PaymentAction) -> Awaited {
    match action {
        PaymentAction::Prepare { .. } => Awaited::Vote,
        PaymentAction::Conclude { .. } => Awaited::Conclusion,
        PaymentAction::Shutdown => Awaited::Nothing,
        PaymentAction::Halt => Awaited::Nothing,
    }
}

/// The replica after it has chosen an action.
pub open spec fn acting(node: AlgloboNode, action: PaymentAction) -> (AlgloboNode, PaymentAction) {
    (AlgloboNode { awaits: awaited_after(action), ..node }, action)
}

/// The record in hand is concluded with `operation`, and the next one is in
/// hand.
pub open spec fn concluded(node: AlgloboNode, operation: u8) -> (AlgloboNode, PaymentAction) {
    acting(
        AlgloboNode { last_id: (node.last_id + 1) as usize, last_status: operation, ..node },
        PaymentAction::Conclude { id: node.last_id, operation, retry: operation == ABORT },
    )
}

/// What the leader turns to between two records: the next record while
/// there is one, unless the replica is stopping.
pub open spec fn next_payment(node: AlgloboNode, n_records: usize) -> PaymentAction {
    if node.last_id < n_records {
        if node.stop {
            PaymentAction::Halt
        } else {
            PaymentAction::Prepare { id: node.last_id }
        }
    } else {
        PaymentAction::Shutdown
    }
}

/// What `process_payments` leaves of the replica and what it does next.
///
/// A new leader looks at the last log entry it saw. `PREPARE` means that the
/// last leader died before it decided: the record is aborted. `COMMIT` or
/// `ABORT` means that the record is done: the next one is taken up. No entry
/// means a fresh start at the record in hand.
pub open spec fn payment_step(node: AlgloboNode, n_records: usize, event: PaymentEvent) -> (
    AlgloboNode,
    PaymentAction,
) {
    match event {
        PaymentEvent::Start => if node.last_status == PREPARE {
            concluded(node, ABORT)
        } else if node.last_status == COMMIT || node.last_status == ABORT {
            let moved = AlgloboNode { last_id: (node.last_id + 1) as usize, ..node };
            acting(moved, next_payment(moved, n_records))
        } else {
            acting(node, next_payment(node, n_records))
        },
        PaymentEvent::Prepared { replies, timed_out, im_alive } => if node.stop {
            acting(node, PaymentAction::Halt)
        } else {
            concluded(node, decision(replies@, timed_out, im_alive))
        },
        PaymentEvent::Finished => acting(node, next_payment(node, n_records)),
    }
}

/// The events that `process_payments` takes from a replica in this state.
/// The event must be the one that the processing waits for: the start for
/// a replica that has not led yet, the votes after a `PREPARE`, the end
/// after a decision, and nothing when the processing is over. A record that
/// is aborted or voted on must exist, and the count of transactions must not
/// overflow.
pub open spec fn payment_allowed(node: AlgloboNode, n_records: usize, event: PaymentEvent) -> bool {
    match event {
        PaymentEvent::Start => {
            &&& node.awaits == Awaited::Start
            &&& node.last_status == PREPARE ==> node.last_id < n_records
            &&& node.last_status == COMMIT || node.last_status == ABORT ==> node.last_id
                < usize::MAX
        },
        PaymentEvent::Prepared { .. } => node.awaits == Awaited::Vote && node.last_id < n_records,
        PaymentEvent::Finished => node.awaits == Awaited::Conclusion,
    }
}

/// The record of an action exists, its id fits the 32 bits that it has on
/// the wire, and it holds an amount for each of `n_agents` agents.
pub open spec fn action_fits(action: PaymentAction, prices: Seq<Vec<u32>>, n_agents: nat) -> bool {
    match action {
        PaymentAction::Prepare { id } => id < prices.len() && id <= u32::MAX && n_agents
            <= prices[id as int]@.len(),
        PaymentAction::Conclude { id, .. } => id < prices.len() && id <= u32::MAX && n_agents
            <= prices[id as int]@.len(),
        PaymentAction::Shutdown => true,
        PaymentAction::Halt => true,
    }
}

/// What an action sends to agent `i`.
pub open spec fn message_of(action: PaymentAction, prices: Seq<Vec<u32>>, i: int) -> DataMsg {
    match action {
        PaymentAction::Prepare { id } => request_for(id, prices[id as int]@, PREPARE, i),
        PaymentAction::Conclude { id, operation, .. } => request_for(
            id,
            prices[id as int]@,
            operation,
            i,
        ),
        PaymentAction::Shutdown => finish_request(),
        PaymentAction::Halt => finish_request(),
    }
}

/// What an action adds to the retry output: the line of its record where
/// it marks the record for retry, and nothing otherwise.
pub open spec fn retry_of(action: PaymentAction, prices: Seq<Vec<u32>>) -> Seq<u8> {
    match action {
        PaymentAction::Conclude { id, retry, .. } => if retry {
            csv_line(prices[id as int]@)
        } else {
            Seq::empty()
        },
        _ => Seq::empty(),
    }
}

/// The bytes that an action adds to the retry output.
pub fn retry_line(action: PaymentAction, prices: &Vec<Vec<u32>>) -> (line: Vec<u8>)
    requires
        action matches PaymentAction::Conclude { id, .. } ==> id < prices@.len(),
    ensures
        line@ == retry_of(action, prices@),
{
    match action {
        PaymentAction::Conclude { id, retry, .. } => {
            if retry {
                write_to_csv(prices[id].as_slice())
            } else {
                Vec::new()
            }
        },
        _ => Vec::new(),
    }
}

/// What the leader logs for an action. For a `PREPARE`: a trace of the
/// transaction. For a decision: the payment and how it went, for the
/// console too, and a trace of the transaction. For the end and for a halt:
/// nothing.
pub open spec fn log_texts_of(action: PaymentAction, prices: Seq<Vec<u32>>) -> Seq<
    (LogLevel, Seq<char>),
> {
    match action {
        PaymentAction::Prepare { id } => seq![
            (LogLevel::TRACE, transaction_text(id, PREPARE, prices[id as int]@)),
        ],
        PaymentAction::Conclude { id, operation, .. } => seq![
            (LogLevel::INFO, payment_text(prices[id as int]@, operation)),
            (LogLevel::TRACE, transaction_text(id, operation, prices[id as int]@)),
        ],
        PaymentAction::Shutdown => Seq::empty(),
        PaymentAction::Halt => Seq::empty(),
    }
}

/// The lines that the leader logs for an action, in their order.
pub fn log_lines_of(action: PaymentAction, prices: &Vec<Vec<u32>>) -> (lines: Vec<LogLine>)
    requires
        action matches PaymentAction::Prepare { id } ==> id < prices@.len(),
        action matches PaymentAction::Conclude { id, .. } ==> id < prices@.len(),
    ensures
        lines@.len() == log_texts_of(action, prices@).len(),
        forall|i: int|
            0 <= i < lines@.len() ==> (#[trigger] lines@[i]).level == log_texts_of(
                action,
                prices@,
            )[i].0 && lines@[i].text@ == log_texts_of(action, prices@)[i].1,
{
    let mut lines: Vec<LogLine> = Vec::new();
    match action {
        PaymentAction::Prepare { id } => {
            lines.push(
                LogLine {
                    level: LogLevel::TRACE,
                    text: transaction_message(id, PREPARE, prices[id].as_slice()),
                },
            );
        },
        PaymentAction::Conclude { id, operation, .. } => {
            lines.push(
                LogLine {
                    level: LogLevel::INFO,
                    text: payment_message(prices[id].as_slice(), operation),
                },
            );
            lines.push(
                LogLine {
                    level: LogLevel::TRACE,
                    text: transaction_message(id, operation, prices[id].as_slice()),
                },
            );
        },
        PaymentAction::Shutdown => {},
        PaymentAction::Halt => {},
    }
    lines
}

/// Decides a vote.
pub fn decide(replies: &[u8], timed_out: bool, im_alive: bool) -> (operation: u8)
    ensures
        operation == decision(replies@, timed_out, im_alive),
{
    let mut k: usize = 0;
    let mut oks: bool = true;
    while k < replies.len()
        invariant
            k <= replies@.len(),
            oks == all_ok(replies@.take(k as int)),
        decreases replies@.len() - k,
    {
        let ghost seen = replies@.take(k as int);
        let ghost more = replies@.take(k + 1);
        if replies[k] != PAYMENT_OK {
            oks = false;
        }
        proof {
            assert(more[k as int] == replies@[k as int]);
            assert forall|i: int| 0 <= i < seen.len() implies seen[i] == more[i] by {}
            if all_ok(more) {
                assert forall|i: int| 0 <= i < seen.len() implies seen[i] == PAYMENT_OK by {
                    assert(more[i] == PAYMENT_OK);
                }
            }
        }
        k = k + 1;
    }
    proof {
        assert(replies@.take(replies@.len() as int) =~= replies@);
    }
    if oks && !timed_out && im_alive {
        COMMIT
    } else {
        ABORT
    }
}

impl AlgloboNode {
    /// Concludes transaction `transaction_id` with `operation`: an aborted
    /// record goes to the retry output, the operation goes to the agents and
    /// into the replicas' logs, and the replica counts one more transaction
    /// and remembers the operation as the last phase seen.
    pub fn finish_transaction(&mut self, operation: u8, transaction_id: usize) -> (action:
        PaymentAction)
        requires
            old(self).last_id < usize::MAX,
        ensures
            action == (PaymentAction::Conclude {
                id: transaction_id,
                operation,
                retry: operation == ABORT,
            }),
            *final(self) == (AlgloboNode {
                last_id: (old(self).last_id + 1) as usize,
                last_status: operation,
                awaits: Awaited::Conclusion,
                ..*old(self)
            }),
    {
        self.last_id = self.last_id + 1;
        self.last_status = operation;
        self.awaits = Awaited::Conclusion;
        PaymentAction::Conclude { id: transaction_id, operation, retry: operation == ABORT }
    }

    /// The leader's next move on `n_records` payment records, after `event`.
    pub fn process_payments(&mut self, n_records: usize, event: PaymentEvent) -> (action:
        PaymentAction)
        requires
            payment_allowed(*old(self), n_records, event),
        ensures
            (*final(self), action) == payment_step(*old(self), n_records, event),
    {
        match event {
            PaymentEvent::Start => {
                if self.last_status == PREPARE {
                    let transaction_id: usize = self.last_id;
                    return self.finish_transaction(ABORT, transaction_id);
                } else if self.last_status == COMMIT || self.last_status == ABORT {
                    self.last_id = self.last_id + 1;
                }
            },
            PaymentEvent::Prepared { replies, timed_out, im_alive } => {
                if self.stop {
                    self.awaits = Awaited::Nothing;
                    return PaymentAction::Halt;
                }
                let operation: u8 = decide(replies.as_slice(), timed_out, im_alive);
                let transaction_id: usize = self.last_id;
                return self.finish_transaction(operation, transaction_id);
            },
            PaymentEvent::Finished => {},
        }
        if self.last_id < n_records {
            if self.stop {
                self.awaits = Awaited::Nothing;
                PaymentAction::Halt
            } else {
                self.awaits = Awaited::Vote;
                PaymentAction::Prepare { id: self.last_id }
            }
        } else {
            self.awaits = Awaited::Nothing;
            PaymentAction::Shutdown
        }
    }

    /// What an action sends to the agents: for a record, the operation on
    /// it with each agent's amount; at the end, `FINISH`; nothing where the
    /// leader halts. Agent `i` listens on `agents_ports[i]`.
    pub fn requests_of(
        &self,
        action: PaymentAction,
        prices: &Vec<Vec<u32>>,
        agents_ports: &[u16],
    ) -> (requests: Vec<AgentRequest>)
        requires
            action_fits(action, prices@, agents_ports@.len()),
        ensures
            action is Halt ==> requests@.len() == 0,
            !(action is Halt) ==> requests@.len() == agents_ports@.len(),
            forall|i: int|
                0 <= i < requests@.len() ==> is_request(
                    #[trigger] requests@[i],
                    agents_ports@[i],
                    message_of(action, prices@, i),
                ),
    {
        match action {
            PaymentAction::Prepare { id } => self.broadcast(
                id,
                prices[id].as_slice(),
                PREPARE,
                agents_ports,
            ),
            PaymentAction::Conclude { id, operation, .. } => self.broadcast(
                id,
                prices[id].as_slice(),
                operation,
                agents_ports,
            ),
            PaymentAction::Shutdown => self.finish_requests(agents_ports),
            PaymentAction::Halt => Vec::new(),
        }
    }

    /// What an action enters in the replicas' logs, and the replicas that
    /// it goes to: the phase of its record, to all but the leader; nothing
    /// where the action is on no record.
    pub fn log_of(&self, action: PaymentAction) -> (log: Option<LogBroadcast>)
        requires
            self.leader_id is Some,
        ensures
            log is Some <==> log_entry_of(action) is Some,
            log matches Some(entry) ==> entry.bytes@ == encode_log(
                logged_status(action)->0,
                logged_record(action)->0,
            ) && is_everyone_but(entry.targets@, self.leader_id->0),
    {
        match action {
            PaymentAction::Prepare { id } => Some(self.broadcast_last_log(PREPARE, id)),
            PaymentAction::Conclude { id, operation, .. } => Some(
                self.broadcast_last_log(operation, id),
            ),
            PaymentAction::Shutdown => None,
            PaymentAction::Halt => None,
        }
    }

    /// The replicas that the leader stops when it is done: all but itself.
    pub fn kill_targets(&self) -> (targets: Vec<usize>)
        ensures
            is_everyone_but(targets@, self.id),
    {
        everyone_but(self.id)
    }
}

/// The actions of a leader that takes the events one after the other.
pub open spec fn run_actions(node: AlgloboNode, n_records: usize, events: Seq<PaymentEvent>) -> Seq<
    PaymentAction,
>
    decreases events.len(),
{
    if events.len() == 0 {
        Seq::empty()
    } else {
        let (next, action) = payment_step(node, n_records, events[0]);
        seq![action] + run_actions(next, n_records, events.skip(1))
    }
}

/// Each event of the run is one that `process_payments` takes.
pub open spec fn run_allowed(node: AlgloboNode, n_records: usize, events: Seq<PaymentEvent>) -> bool
    decreases events.len(),
{
    if events.len() == 0 {
        true
    } else {
        payment_allowed(node, n_records, events[0]) && run_allowed(
            payment_step(node, n_records, events[0]).0,
            n_records,
            events.skip(1),
        )
    }
}

/// A step concludes the record in hand or none, marks it for retry exactly
/// when it aborts it, and never goes back to an earlier record.
pub proof fn lemma_step_moves_on(node: AlgloboNode, n_records: usize, event: PaymentEvent)
    requires
        payment_allowed(node, n_records, event),
    ensures
        payment_step(node, n_records, event).0.last_id >= node.last_id,
        payment_step(node, n_records, event).1 matches PaymentAction::Conclude {
            id,
            operation,
            retry,
        } ==> id == node.last_id && payment_step(node, n_records, event).0.last_id == id + 1
            && retry == (operation == ABORT) && (operation == COMMIT || operation == ABORT),
{
}

/// A run has one action for each event.
pub proof fn lemma_run_len(node: AlgloboNode, n_records: usize, events: Seq<PaymentEvent>)
    ensures
        run_actions(node, n_records, events).len() == events.len(),
    decreases events.len(),
{
    if events.len() > 0 {
        lemma_run_len(payment_step(node, n_records, events[0]).0, n_records, events.skip(1));
    }
}

/// A run concludes no record before the one in hand at its start.
pub proof fn lemma_run_starts_in_hand(
    node: AlgloboNode,
    n_records: usize,
    events: Seq<PaymentEvent>,
    i: int,
)
    requires
        run_allowed(node, n_records, events),
        0 <= i < events.len(),
    ensures
        run_actions(node, n_records, events).len() == events.len(),
        run_actions(node, n_records, events)[i] matches PaymentAction::Conclude { id, .. } ==> id
            >= node.last_id,
    decreases events.len(),
{
    lemma_run_len(node, n_records, events);
    lemma_step_moves_on(node, n_records, events[0]);
    let next = payment_step(node, n_records, events[0]).0;
    lemma_run_len(next, n_records, events.skip(1));
    let all = run_actions(node, n_records, events);
    let rest = run_actions(next, n_records, events.skip(1));
    if i > 0 {
        assert(all[i] == rest[i - 1]);
        lemma_run_starts_in_hand(next, n_records, events.skip(1), i - 1);
    } else {
        assert(all[0] == payment_step(node, n_records, events[0]).1);
    }
}

/// Within one leadership a record is concluded at most once, later records
/// after earlier ones, and a record goes to the retry output exactly when it
/// is concluded with `ABORT`: so each aborted record is there once.
pub proof fn lemma_retry_once(
    node: AlgloboNode,
    n_records: usize,
    events: Seq<PaymentEvent>,
    i: int,
    j: int,
)
    requires
        run_allowed(node, n_records, events),
        0 <= i < j < events.len(),
    ensures
        run_actions(node, n_records, events).len() == events.len(),
        run_actions(node, n_records, events)[i] matches PaymentAction::Conclude {
            operation,
            retry,
            ..
        } ==> retry == (operation == ABORT),
        run_actions(node, n_records, events)[i] is Conclude && run_actions(
            node,
            n_records,
            events,
        )[j] is Conclude ==> run_actions(node, n_records, events)[i]->Conclude_id < run_actions(
            node,
            n_records,
            events,
        )[j]->Conclude_id,
    decreases events.len(),
{
    lemma_run_len(node, n_records, events);
    lemma_step_moves_on(node, n_records, events[0]);
    let next = payment_step(node, n_records, events[0]).0;
    lemma_run_len(next, n_records, events.skip(1));
    let all = run_actions(node, n_records, events);
    let rest = run_actions(next, n_records, events.skip(1));
    assert(all[j] == rest[j - 1]);
    if i > 0 {
        assert(all[i] == rest[i - 1]);
        lemma_retry_once(next, n_records, events.skip(1), i - 1, j - 1);
    } else {
        assert(all[0] == payment_step(node, n_records, events[0]).1);
        lemma_run_starts_in_hand(next, n_records, events.skip(1), j - 1);
    }
}

/// The log entry that an action puts into the replicas' logs, if any: the
/// phase and the record.
pub open spec fn log_entry_of(action: PaymentAction) -> Option<(u8, usize)> {
    match action {
        PaymentAction::Prepare { id } => Some((PREPARE, id)),
        PaymentAction::Conclude { id, operation, .. } => Some((operation, id)),
        PaymentAction::Shutdown => None,
        PaymentAction::Halt => None,
    }
}

/// The phase that an action puts into the replicas' logs, if any.
pub open spec fn logged_status(action: PaymentAction) -> Option<u8> {
    match log_entry_of(action) {
        Some((status, _)) => Some(status),
        None => None,
    }
}

/// The record that an action puts into the replicas' logs, if any.
pub open spec fn logged_record(action: PaymentAction) -> Option<usize> {
    match log_entry_of(action) {
        Some((_, id)) => Some(id),
        None => None,
    }
}

/// A run logs no record before the one in hand at its start.
pub proof fn lemma_run_logs_from_hand(
    node: AlgloboNode,
    n_records: usize,
    events: Seq<PaymentEvent>,
    i: int,
)
    requires
        run_allowed(node, n_records, events),
        0 <= i < events.len(),
    ensures
        run_actions(node, n_records, events).len() == events.len(),
        logged_record(run_actions(node, n_records, events)[i]) matches Some(id) ==> id
            >= node.last_id,
    decreases events.len(),
{
    lemma_run_len(node, n_records, events);
    lemma_step_moves_on(node, n_records, events[0]);
    let next = payment_step(node, n_records, events[0]).0;
    lemma_run_len(next, n_records, events.skip(1));
    let all = run_actions(node, n_records, events);
    let rest = run_actions(next, n_records, events.skip(1));
    if i > 0 {
        assert(all[i] == rest[i - 1]);
        lemma_run_logs_from_hand(next, n_records, events.skip(1), i - 1);
    } else {
        assert(all[0] == payment_step(node, n_records, events[0]).1);
    }
}

/// Within one leadership the log never goes back to an earlier record: a
/// replica that takes the entries in their order sees the record in hand
/// stay or advance.
pub proof fn lemma_log_never_goes_back(
    node: AlgloboNode,
    n_records: usize,
    events: Seq<PaymentEvent>,
    i: int,
    j: int,
)
    requires
        run_allowed(node, n_records, events),
        0 <= i < j < events.len(),
    ensures
        run_actions(node, n_records, events).len() == events.len(),
        logged_record(run_actions(node, n_records, events)[i]) is Some && logged_record(
            run_actions(node, n_records, events)[j],
        ) is Some ==> logged_record(run_actions(node, n_records, events)[i])->0 <= logged_record(
            run_actions(node, n_records, events)[j],
        )->0,
    decreases events.len(),
{
    lemma_run_len(node, n_records, events);
    lemma_step_moves_on(node, n_records, events[0]);
    let next = payment_step(node, n_records, events[0]).0;
    lemma_run_len(next, n_records, events.skip(1));
    let all = run_actions(node, n_records, events);
    let rest = run_actions(next, n_records, events.skip(1));
    assert(all[j] == rest[j - 1]);
    if i > 0 {
        assert(all[i] == rest[i - 1]);
        lemma_log_never_goes_back(next, n_records, events.skip(1), i - 1, j - 1);
    } else {
        assert(all[0] == payment_step(node, n_records, events[0]).1);
        lemma_run_logs_from_hand(next, n_records, events.skip(1), j - 1);
    }
}

/// The first event of a run is one that `process_payments` takes.
pub proof fn lemma_run_first_allowed(node: AlgloboNode, n_records: usize, events: Seq<PaymentEvent>)
    requires
        run_allowed(node, n_records, events),
        events.len() > 0,
    ensures
        payment_allowed(node, n_records, events[0]),
        run_allowed(payment_step(node, n_records, events[0]).0, n_records, events.skip(1)),
{
}

/// A run prepares no record before the one in hand at its start, and none
/// again whose votes it waits for.
pub proof fn lemma_run_prepares_from_hand(
    node: AlgloboNode,
    n_records: usize,
    events: Seq<PaymentEvent>,
    i: int,
)
    requires
        run_allowed(node, n_records, events),
        0 <= i < events.len(),
        run_actions(node, n_records, events)[i] is Prepare,
    ensures
        run_actions(node, n_records, events)[i]->Prepare_id >= node.last_id,
        node.awaits == Awaited::Vote ==> run_actions(node, n_records, events)[i]->Prepare_id
            > node.last_id,
    decreases events.len(),
{
    lemma_run_len(node, n_records, events);
    lemma_step_moves_on(node, n_records, events[0]);
    let next = payment_step(node, n_records, events[0]).0;
    lemma_run_len(next, n_records, events.skip(1));
    let all = run_actions(node, n_records, events);
    let rest = run_actions(next, n_records, events.skip(1));
    if i > 0 {
        assert(all[i] == rest[i - 1]);
        lemma_run_first_allowed(node, n_records, events);
        lemma_run_first_allowed(next, n_records, events.skip(1));
        lemma_run_prepares_from_hand(next, n_records, events.skip(1), i - 1);
    } else {
        assert(all[0] == payment_step(node, n_records, events[0]).1);
    }
}

/// Within one leadership no record is prepared twice: of two `PREPARE`s the
/// later is for a later record.
pub proof fn lemma_no_record_is_prepared_twice(
    node: AlgloboNode,
    n_records: usize,
    events: Seq<PaymentEvent>,
    i: int,
    j: int,
)
    requires
        run_allowed(node, n_records, events),
        0 <= i < j < events.len(),
        run_actions(node, n_records, events)[i] is Prepare,
        run_actions(node, n_records, events)[j] is Prepare,
    ensures
        run_actions(node, n_records, events)[i]->Prepare_id < run_actions(
            node,
            n_records,
            events,
        )[j]->Prepare_id,
    decreases events.len(),
{
    lemma_run_len(node, n_records, events);
    let next = payment_step(node, n_records, events[0]).0;
    lemma_run_len(next, n_records, events.skip(1));
    let all = run_actions(node, n_records, events);
    let rest = run_actions(next, n_records, events.skip(1));
    assert(all[j] == rest[j - 1]);
    if i > 0 {
        assert(all[i] == rest[i - 1]);
        lemma_no_record_is_prepared_twice(next, n_records, events.skip(1), i - 1, j - 1);
    } else {
        assert(all[0] == payment_step(node, n_records, events[0]).1);
        lemma_run_prepares_from_hand(next, n_records, events.skip(1), j - 1);
    }
}

/// The agents that take their requests of one decision record the same
/// phase for the transaction, which is the decision: none holds `COMMIT`
/// where another holds `ABORT`.
pub proof fn lemma_agents_record_one_decision(
    action: PaymentAction,
    prices: Seq<Vec<u32>>,
    i: int,
    j: int,
    first: Map<u32, u8>,
    second: Map<u32, u8>,
)
    requires
        action is Conclude,
        action->Conclude_operation == COMMIT || action->Conclude_operation == ABORT,
    ensures
        phases_after(first, message_of(action, prices, i))[action->Conclude_id as u32]
            == action->Conclude_operation,
        phases_after(second, message_of(action, prices, j))[action->Conclude_id as u32]
            == phases_after(first, message_of(action, prices, i))[action->Conclude_id as u32],
{
}

/// Within one leadership no record gets two decisions: the steps that
/// conclude the same record are one step.
pub proof fn lemma_decision_is_single(
    node: AlgloboNode,
    n_records: usize,
    events: Seq<PaymentEvent>,
    i: int,
    j: int,
)
    requires
        run_allowed(node, n_records, events),
        0 <= i < events.len(),
        0 <= j < events.len(),
        run_actions(node, n_records, events)[i] is Conclude,
        run_actions(node, n_records, events)[j] is Conclude,
        run_actions(node, n_records, events)[i]->Conclude_id == run_actions(
            node,
            n_records,
            events,
        )[j]->Conclude_id,
    ensures
        i == j,
{
    if i < j {
        lemma_retry_once(node, n_records, events, i, j);
    } else if j < i {
        lemma_retry_once(node, n_records, events, j, i);
    }
}

/// An exchange that breaks during the `PREPARE` of a record aborts that
/// record, which goes to the retry output, and no other: the leader goes on
/// to the next record.
pub proof fn lemma_broken_exchange_aborts_one_record(
    node: AlgloboNode,
    n_records: usize,
    replies: Vec<u8>,
    timed_out: bool,
)
    requires
        !node.stop,
        node.awaits == Awaited::Vote,
        node.last_id + 1 < n_records,
    ensures
        ({
            let vote = PaymentEvent::Prepared { replies, timed_out, im_alive: false };
            let (decided, action) = payment_step(node, n_records, vote);
            &&& payment_allowed(node, n_records, vote)
            &&& action == (PaymentAction::Conclude {
                id: node.last_id,
                operation: ABORT,
                retry: true,
            })
            &&& payment_step(decided, n_records, PaymentEvent::Finished).1 == (
            PaymentAction::Prepare { id: (node.last_id + 1) as usize })
        }),
{
}

/// A leader that dies after `(id, PREPARE)` reached the log and before its
/// decision did leaves a record in doubt: the replica that takes over aborts
/// that record first, and sends it to the retry output.
pub proof fn lemma_in_doubt_is_aborted(follower: AlgloboNode, n_records: usize, id: usize)
    requires
        id < n_records,
        follower.awaits == Awaited::Start,
        takes_entry(follower, PREPARE, id),
    ensures
        ({
            let seen = loop_step(follower, LoopEvent::Entry { status: PREPARE, id }).0;
            &&& payment_allowed(seen, n_records, PaymentEvent::Start)
            &&& payment_step(seen, n_records, PaymentEvent::Start).1 == (PaymentAction::Conclude {
                id,
                operation: ABORT,
                retry: true,
            })
            &&& payment_step(seen, n_records, PaymentEvent::Start).0.last_id == id + 1
            &&& id + 1 < n_records && !follower.stop ==> payment_step(
                payment_step(seen, n_records, PaymentEvent::Start).0,
                n_records,
                PaymentEvent::Finished,
            ).1 == (PaymentAction::Prepare { id: (id + 1) as usize })
        }),
{
}

/// A record that is concluded goes to the agents with its decision and to
/// the retry output exactly if the decision is `ABORT`: every agent gets
/// the same operation on the same transaction, and the retry output gains
/// the record's line or nothing.
pub proof fn lemma_conclusion_is_one_decision(
    node: AlgloboNode,
    n_records: usize,
    event: PaymentEvent,
    prices: Seq<Vec<u32>>,
    i: int,
)
    requires
        payment_allowed(node, n_records, event),
        payment_step(node, n_records, event).1 is Conclude,
    ensures
        ({
            let action = payment_step(node, n_records, event).1;
            let operation = action->Conclude_operation;
            &&& operation == COMMIT || operation == ABORT
            &&& message_of(action, prices, i).opcode == operation
            &&& message_of(action, prices, i).transaction_id == node.last_id as u32
            &&& message_of(action, prices, i).data == prices[node.last_id as int]@[i]
            &&& operation == ABORT ==> retry_of(action, prices) == csv_line(
                prices[node.last_id as int]@,
            )
            &&& operation == COMMIT ==> retry_of(action, prices) == Seq::<u8>::empty()
        }),
{
}

/// A leader that dies after its decision on record `id` reached the log
/// leaves nothing in doubt: the replica that takes over resumes at `id + 1`,
/// with the `PREPARE` of that record where there is one and the replica is
/// not stopping.
pub proof fn lemma_decided_is_resumed_after(
    follower: AlgloboNode,
    n_records: usize,
    id: usize,
    status: u8,
)
    requires
        status == COMMIT || status == ABORT,
        id < usize::MAX,
        follower.awaits == Awaited::Start,
        takes_entry(follower, status, id),
    ensures
        ({
            let seen = loop_step(follower, LoopEvent::Entry { status, id }).0;
            let (resumed, action) = payment_step(seen, n_records, PaymentEvent::Start);
            &&& payment_allowed(seen, n_records, PaymentEvent::Start)
            &&& resumed.last_id == id + 1
            &&& !(action is Conclude)
            &&& id + 1 < n_records && !follower.stop ==> action == (PaymentAction::Prepare {
                id: (id + 1) as usize,
            })
        }),
{
}

} // verus!
