//! One replica of the coordinator: what it knows, and what it decides when a
//! control message, a log entry or a timeout reaches it.
//!
//! The replicas choose their leader with the ring election algorithm. The
//! functions here hold the decisions only: the caller owns the sockets, does
//! the waiting, and reports back what happened.

use vstd::prelude::*;
use crate::control::{MSG_ACK, MSG_COORDINATOR, MSG_ELECTION, MSG_KILL};
use crate::replication::{encode_log, encode_log_entry, everyone_but, is_everyone_but};

verus! {

/// The number of replicas in the ring.
pub const N_NODES: usize = 5;

/// How long a replica waits, in milliseconds: for the acknowledgement of a
/// control message, for the agents' replies, and for the leader's next log
/// entry.
pub const TIMEOUT_MILLIS: u64 = 5000;

/// How long the responder waits for a control message, in milliseconds,
/// before it looks at the stop flag again: a quarter of the timeout.
pub const RESPONDER_MILLIS: u64 = TIMEOUT_MILLIS / 4;

/// First port of the control endpoints.
pub const CTRL_PORT_BASE: u16 = 1100;

/// First port of the data endpoints.
pub const DATA_PORT_BASE: u16 = 1200;

/// An IPv4 address and a port.
#[derive(Clone, Copy, Debug, PartialEq, Eq)]
pub struct NodeAddr {
    /// The four bytes of the address.
    pub ip: [u8; 4],
    /// The port.
    pub port: u16,
}

/// Where replica `id` receives election and coordination messages.
pub fn id_to_ctrladdr(id: usize) -> (addr: NodeAddr)
    requires
        CTRL_PORT_BASE + id <= u16::MAX,
    ensures
        addr.ip@ == seq![127u8, 0u8, 0u8, 1u8],
        addr.port == CTRL_PORT_BASE + id,
{
    NodeAddr { ip: [127, 0, 0, 1], port: CTRL_PORT_BASE + id as u16 }
}

/// Where replica `id` receives the leader's log entries.
pub fn id_to_dataaddr(id: usize) -> (addr: NodeAddr)
    requires
        DATA_PORT_BASE + id <= u16::MAX,
    ensures
        addr.ip@ == seq![127u8, 0u8, 0u8, 1u8],
        addr.port == DATA_PORT_BASE + id,
{
    NodeAddr { ip: [127, 0, 0, 1], port: DATA_PORT_BASE + id as u16 }
}

/// The replica after `id` in the ring.
pub open spec fn ring_next(id: int) -> int {
    (id + 1) % (N_NODES as int)
}

/// `m` occurs in `ids` and none of them is greater.
pub open spec fn is_max_of(m: usize, ids: Seq<usize>) -> bool {
    ids.contains(m) && forall|j: int| 0 <= j < ids.len() ==> ids[j] <= m
}

/// Whether `id` is one of `ids`.
pub fn contains_id(ids: &[usize], id: usize) -> (found: bool)
    ensures
        found == ids@.contains(id),
{
    let mut k: usize = 0;
    while k < ids.len()
        invariant
            k <= ids@.len(),
            forall|j: int| 0 <= j < k ==> ids@[j] != id,
        decreases ids@.len() - k,
    {
        if ids[k] == id {
            return true;
        }
        k = k + 1;
    }
    false
}

/// Whether `id` is one of `ids`, the first of them left aside.
pub open spec fn tail_contains(ids: Seq<usize>, id: usize) -> bool {
    exists|j: int| 1 <= j < ids.len() && ids[j] == id
}

/// Whether `id` is one of `ids`, the first of them left aside.
pub fn tail_contains_id(ids: &[usize], id: usize) -> (found: bool)
    ensures
        found == tail_contains(ids@, id),
{
    let mut k: usize = 1;
    while k < ids.len()
        invariant
            1 <= k,
            forall|j: int| 1 <= j < k && j < ids@.len() ==> ids@[j] != id,
        decreases ids@.len() - k,
    {
        if ids[k] == id {
            return true;
        }
        k = k + 1;
    }
    false
}

/// The greatest of `ids`.
pub fn max_id(ids: &[usize]) -> (m: usize)
    requires
        ids@.len() > 0,
    ensures
        is_max_of(m, ids@),
{
    let mut m: usize = ids[0];
    let mut k: usize = 1;
    assert(ids@.take(1)[0] == m);
    while k < ids.len()
        invariant
            1 <= k <= ids@.len(),
            is_max_of(m, ids@.take(k as int)),
        decreases ids@.len() - k,
    {
        let ghost seen = ids@.take(k as int);
        let ghost more = ids@.take(k + 1);
        if ids[k] > m {
            m = ids[k];
        }
        proof {
            assert(more[k as int] == ids@[k as int]);
            assert forall|j: int| 0 <= j < more.len() implies more[j] <= m by {
                if j < k {
                    assert(seen[j] == more[j]);
                }
            }
            if m == ids@[k as int] {
                assert(more[k as int] == m);
            } else {
                let at = choose|j: int| 0 <= j < seen.len() && seen[j] == m;
                assert(more[at] == m);
            }
        }
        k = k + 1;
    }
    proof {
        assert(ids@.take(ids@.len() as int) =~= ids@);
    }
    m
}

/// What a replica does after a control message, besides updating what it
/// knows.
#[derive(Debug)]
pub enum Reaction {
    /// An acknowledgement was recorded: wake whoever waits for one.
    Acknowledged,
    /// An election round came back to the replica that started it: answer the
    /// sender with an acknowledgement and with `COORDINATOR([winner])`.
    Elected { winner: usize },
    /// An election round passes through: acknowledge to the sender and
    /// forward `ELECTION(ids)` reliably to the next replica.
    ForwardElection { ids: Vec<usize> },
    /// The leader was recorded: wake whoever waits for one, acknowledge to
    /// the sender, and forward `COORDINATOR(ids)` reliably to the next
    /// replica where `forward` holds ids.
    LeaderKnown { forward: Option<Vec<usize>> },
    /// The replica was told to stop: leave the responder.
    Stopped,
    /// A message of no known type, or an acknowledgement or an announcement
    /// without an id: nothing to do.
    Ignored,
}

/// A `Reaction` with its ids as a sequence.
pub enum ReactionView {
    Acknowledged,
    Elected { winner: usize },
    ForwardElection { ids: Seq<usize> },
    LeaderKnown { forward: Option<Seq<usize>> },
    Stopped,
    Ignored,
}

impl View for Reaction {
    type V = ReactionView;

    open spec fn view(&self) -> ReactionView {
        match *self {
            Reaction::Acknowledged => ReactionView::Acknowledged,
            Reaction::Elected { winner } => ReactionView::Elected { winner },
            Reaction::ForwardElection { ids } => ReactionView::ForwardElection { ids: ids@ },
            Reaction::LeaderKnown { forward } => ReactionView::LeaderKnown {
                forward: match forward {
                    Some(ids) => Some(ids@),
                    None => None,
                },
            },
            Reaction::Stopped => ReactionView::Stopped,
            Reaction::Ignored => ReactionView::Ignored,
        }
    }
}

/// What a reliable send does next.
#[derive(Clone, Copy, Debug, PartialEq, Eq, Structural)]
pub enum SendStep {
    /// The replica is stopping: send nothing.
    Stopped,
    /// Every other replica was tried and none answered: the ring is
    /// unreachable, and the operation fails.
    RingClosed,
    /// Send the message to replica `to`, then wait for its acknowledgement.
    Send { to: usize },
}

/// What reaches the main loop of a replica.
#[derive(Clone, Copy, Debug, PartialEq, Eq, Structural)]
pub enum LoopEvent {
    /// The loop starts, or comes round again.
    Begin,
    /// A log entry arrived: transaction `id` is in phase `status`.
    Entry { status: u8, id: usize },
    /// No log entry arrived in time.
    Silence,
}

/// What the main loop of a replica does next.
#[derive(Debug)]
pub enum LoopStep {
    /// The replica is stopping: leave the loop.
    Exit,
    /// No leader is known: wait until one is, then come round again.
    AwaitLeader,
    /// The replica is the leader: process the payments, then leave the loop.
    Lead,
    /// Another replica leads: wait for its next log entry, up to the timeout.
    Follow,
    /// The leader is taken for dead: send `ELECTION(ids)` reliably to the
    /// next replica, wait until a leader is known, then come round again.
    Elect { ids: Vec<usize> },
}

/// A `LoopStep` with its ids as a sequence.
pub enum LoopStepView {
    Exit,
    AwaitLeader,
    Lead,
    Follow,
    Elect { ids: Seq<usize> },
}

impl View for LoopStep {
    type V = LoopStepView;

    open spec fn view(&self) -> LoopStepView {
        match *self {
            LoopStep::Exit => LoopStepView::Exit,
            LoopStep::AwaitLeader => LoopStepView::AwaitLeader,
            LoopStep::Lead => LoopStepView::Lead,
            LoopStep::Follow => LoopStepView::Follow,
            LoopStep::Elect { ids } => LoopStepView::Elect { ids: ids@ },
        }
    }
}

/// A log entry as bytes, and the replicas that it goes to.
#[derive(Debug)]
pub struct LogBroadcast {
    /// The entry, ready for the wire.
    pub bytes: Vec<u8>,
    /// The ids of the replicas to send it to, in this order.
    pub targets: Vec<usize>,
}

/// What the payment processing of a replica waits for.
#[derive(Clone, Copy, Debug, PartialEq, Eq, Structural)]
pub enum Awaited {
    /// The replica has not led yet: it waits for its start as the leader.
    Start,
    /// The `PREPARE` of a record is under way: it waits for the votes.
    Vote,
    /// The decision on a record is under way: it waits for its end.
    Conclusion,
    /// The processing is over.
    Nothing,
}

/// What a replica knows.
#[derive(Clone, Copy, Debug, PartialEq, Eq, Structural)]
pub struct AlgloboNode {
    /// The id of the replica.
    pub id: usize,
    /// The id of the leader; none while an election is under way.
    pub leader_id: Option<usize>,
    /// The replica that last acknowledged a message.
    pub got_ack: Option<usize>,
    /// Whether the replica was told to stop.
    pub stop: bool,
    /// The transaction that the cluster was last seen working on.
    pub last_id: usize,
    /// The phase that transaction was last seen in; 0 for none.
    pub last_status: u8,
    /// What the payment processing waits for.
    pub awaits: Awaited,
}

/// What `responder` leaves of the replica and what it asks for.
pub open spec fn respond(node: AlgloboNode, msg_type: u8, ids: Seq<usize>) -> (
    AlgloboNode,
    ReactionView,
) {
    if msg_type == MSG_ACK && ids.len() > 0 {
        (AlgloboNode { got_ack: Some(ids[0]), ..node }, ReactionView::Acknowledged)
    } else if msg_type == MSG_ELECTION {
        if ids.contains(node.id) {
            (node, ReactionView::Elected { winner: choose|m: usize| is_max_of(m, ids) })
        } else {
            (node, ReactionView::ForwardElection { ids: ids.push(node.id) })
        }
    } else if msg_type == MSG_COORDINATOR && ids.len() > 0 {
        (
            AlgloboNode { leader_id: Some(ids[0]), ..node },
            ReactionView::LeaderKnown {
                forward: if tail_contains(ids, node.id) {
                    None
                } else {
                    Some(ids.push(node.id))
                },
            },
        )
    } else if msg_type == MSG_KILL {
        (AlgloboNode { stop: true, ..node }, ReactionView::Stopped)
    } else {
        (node, ReactionView::Ignored)
    }
}

/// Whether a replica takes a log entry. It does unless the entry is on a
/// transaction before the one that the replica last saw: such an entry
/// comes late or out of order, and the transaction last seen never goes
/// back.
pub open spec fn takes_entry(node: AlgloboNode, status: u8, id: usize) -> bool {
    id >= node.last_id
}

/// What the main loop does where nothing new has arrived.
pub open spec fn loop_choice(node: AlgloboNode) -> LoopStepView {
    if node.stop {
        LoopStepView::Exit
    } else if node.leader_id is None {
        LoopStepView::AwaitLeader
    } else if node.leader_id == Some(node.id) {
        LoopStepView::Lead
    } else {
        LoopStepView::Follow
    }
}

/// What `loop_node` leaves of the replica and what it does next.
pub open spec fn loop_step(node: AlgloboNode, event: LoopEvent) -> (AlgloboNode, LoopStepView) {
    match event {
        LoopEvent::Begin => (node, loop_choice(node)),
        LoopEvent::Entry { status, id } => {
            let seen = if takes_entry(node, status, id) {
                AlgloboNode { last_status: status, last_id: id, ..node }
            } else {
                node
            };
            (seen, loop_choice(seen))
        },
        LoopEvent::Silence => if node.stop {
            (node, LoopStepView::Exit)
        } else {
            (AlgloboNode { leader_id: None, ..node }, LoopStepView::Elect { ids: seq![node.id] })
        },
    }
}

/// A list has at most one greatest item.
pub proof fn lemma_max_unique(a: usize, b: usize, ids: Seq<usize>)
    requires
        is_max_of(a, ids),
        is_max_of(b, ids),
    ensures
        a == b,
{
    let i = choose|i: int| 0 <= i < ids.len() && ids[i] == a;
    let j = choose|j: int| 0 <= j < ids.len() && ids[j] == b;
    assert(ids[i] <= b);
    assert(ids[j] <= a);
}

impl AlgloboNode {
    /// A replica that has just started: it takes itself for the leader until
    /// its first election, has seen no transaction, and is not stopping.
    pub fn new(id: usize) -> (node: AlgloboNode)
        ensures
            node == (AlgloboNode {
                id,
                leader_id: Some(id),
                got_ack: None,
                stop: false,
                last_id: 0,
                last_status: 0,
                awaits: Awaited::Start,
            }),
    {
        AlgloboNode {
            id,
            leader_id: Some(id),
            got_ack: None,
            stop: false,
            last_id: 0,
            last_status: 0,
            awaits: Awaited::Start,
        }
    }

    /// Handles one control message, given as its type and its ids.
    ///
    /// - `ACK(x)`: records `x` as the replica that acknowledged.
    /// - `ELECTION(ids)`: where the replica's own id is among them, the round
    ///   is its own and has come back, and the greatest id wins; otherwise
    ///   the replica adds its id and passes the round on.
    /// - `COORDINATOR(ids)`: records `ids[0]` as the leader; passes the
    ///   announcement on with its own id added unless that id already
    ///   follows the leader's in the list.
    /// - `KILL`: sets the stop flag.
    ///
    /// An acknowledgement or an announcement without an id is not a message
    /// of this protocol, and is ignored like one of an unknown type.
    pub fn responder(&mut self, msg_type: u8, ids: Vec<usize>) -> (reaction: Reaction)
        ensures
            (*final(self), reaction@) == respond(*old(self), msg_type, ids@),
            reaction matches Reaction::Elected { winner } ==> is_max_of(winner, ids@),
    {
        if msg_type == MSG_ACK && ids.len() > 0 {
            self.got_ack = Some(ids[0]);
            Reaction::Acknowledged
        } else if msg_type == MSG_ELECTION {
            if contains_id(ids.as_slice(), self.id) {
                let winner: usize = max_id(ids.as_slice());
                proof {
                    let chosen = choose|m: usize| is_max_of(m, ids@);
                    lemma_max_unique(winner, chosen, ids@);
                }
                Reaction::Elected { winner }
            } else {
                let mut ids = ids;
                ids.push(self.id);
                Reaction::ForwardElection { ids }
            }
        } else if msg_type == MSG_COORDINATOR && ids.len() > 0 {
            self.leader_id = Some(ids[0]);
            if tail_contains_id(ids.as_slice(), self.id) {
                Reaction::LeaderKnown { forward: None }
            } else {
                let mut ids = ids;
                ids.push(self.id);
                Reaction::LeaderKnown { forward: Some(ids) }
            }
        } else if msg_type == MSG_KILL {
            self.stop();
            Reaction::Stopped
        } else {
            Reaction::Ignored
        }
    }

    /// The replica after `id` in the ring.
    pub fn next(&self, id: usize) -> (next_id: usize)
        requires
            id < usize::MAX,
        ensures
            next_id == ring_next(id as int),
            next_id < N_NODES,
    {
        (id + 1) % N_NODES
    }

    /// Decides where a message goes that must reach the next live replica
    /// after `id`. The first call passes the replica's own id; after a wait
    /// that ended without the acknowledgement of the replica tried, the next
    /// call passes that replica's id, which skips it. The acknowledgement
    /// seen last is forgotten before each send.
    pub fn safe_send_next(&mut self, id: usize) -> (step: SendStep)
        requires
            id < usize::MAX,
        ensures
            old(self).stop ==> step == SendStep::Stopped && *final(self) == *old(self),
            !old(self).stop && ring_next(id as int) == old(self).id ==> step
                == SendStep::RingClosed && *final(self) == *old(self),
            !old(self).stop && ring_next(id as int) != old(self).id ==> step == (SendStep::Send {
                to: ring_next(id as int) as usize,
            }) && *final(self) == (AlgloboNode { got_ack: None, ..*old(self) }),
    {
        if self.stop {
            return SendStep::Stopped;
        }
        let next_id: usize = self.next(id);
        if next_id == self.id {
            return SendStep::RingClosed;
        }
        self.got_ack = None;
        SendStep::Send { to: next_id }
    }

    /// Whether the wait after a send to replica `to` is over: its
    /// acknowledgement was the last one recorded.
    pub fn acknowledged_by(&self, to: usize) -> (done: bool)
        ensures
            done == (self.got_ack == Some(to)),
    {
        match self.got_ack {
            Some(from) => from == to,
            None => false,
        }
    }

    /// Starts a new election: forgets the leader and gives the ids of the
    /// `ELECTION` message to send reliably from this replica on, which are
    /// its own id alone. The caller then waits until a leader is known. A
    /// replica that is stopping starts nothing.
    pub fn find_new(&mut self) -> (ids: Option<Vec<usize>>)
        ensures
            old(self).stop ==> ids is None && *final(self) == *old(self),
            !old(self).stop ==> *final(self) == (AlgloboNode { leader_id: None, ..*old(self) }),
            !old(self).stop ==> (ids matches Some(v) && v@ == seq![old(self).id]),
    {
        if self.stop {
            return None;
        }
        self.leader_id = None;
        let mut ids: Vec<usize> = Vec::new();
        ids.push(self.id);
        Some(ids)
    }

    /// One turn of the main loop. A log entry is recorded as the last
    /// transaction and phase seen, unless it is on an earlier transaction;
    /// so the transaction last seen never goes back. Silence from the leader starts a new
    /// election. Otherwise the replica leads where it is the leader and
    /// follows where another is.
    pub fn loop_node(&mut self, event: LoopEvent) -> (step: LoopStep)
        ensures
            (*final(self), step@) == loop_step(*old(self), event),
            final(self).last_id >= old(self).last_id,
    {
        match event {
            LoopEvent::Begin => {},
            LoopEvent::Entry { status, id } => {
                if id >= self.last_id {
                    self.last_status = status;
                    self.last_id = id;
                }
            },
            LoopEvent::Silence => {
                return match self.find_new() {
                    Some(ids) => LoopStep::Elect { ids },
                    None => LoopStep::Exit,
                };
            },
        }
        if self.stop {
            LoopStep::Exit
        } else if self.leader_id.is_none() {
            LoopStep::AwaitLeader
        } else if self.am_i_leader() {
            LoopStep::Lead
        } else {
            LoopStep::Follow
        }
    }

    /// The log entry for transaction `id` in phase `status`, and the
    /// replicas that it goes to: all but the leader.
    pub fn broadcast_last_log(&self, status: u8, id: usize) -> (log: LogBroadcast)
        requires
            self.leader_id is Some,
        ensures
            log.bytes@ == encode_log(status, id),
            is_everyone_but(log.targets@, self.leader_id->0),
    {
        let leader: usize = match self.leader_id {
            Some(leader) => leader,
            None => 0,
        };
        LogBroadcast { bytes: encode_log_entry(status, id), targets: everyone_but(leader) }
    }

    /// Whether this replica is the leader, as far as it knows.
    pub fn am_i_leader(&self) -> (leader: bool)
        ensures
            leader == (self.leader_id == Some(self.id)),
    {
        match self.leader_id {
            Some(leader) => leader == self.id,
            None => false,
        }
    }

    /// The leader's id; none while an election is under way.
    pub fn get_leader_id(&self) -> (leader: Option<usize>)
        ensures
            leader == self.leader_id,
    {
        self.leader_id
    }

    /// Marks the replica as stopping.
    pub fn stop(&mut self)
        ensures
            *final(self) == (AlgloboNode { stop: true, ..*old(self) }),
    {
        self.stop = true;
    }
}

} // verus!
