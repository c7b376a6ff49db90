//! The whole ring in one place: an election as it runs when each message
//! that reaches a live replica is answered in time, a dead replica answers
//! nothing, and no replica dies or comes back during the round.
//!
//! The replicas here decide with the same functions as on the network; what
//! the network does between them is played by `deliver`.

use vstd::prelude::*;
use crate::alglobo_node::{
    is_max_of, ring_next, tail_contains, AlgloboNode, Awaited, Reaction, SendStep, N_NODES,
};
use crate::control::{MSG_ACK, MSG_COORDINATOR, MSG_ELECTION};

verus! {

/// The replica `k` places after `from` in the ring.
#[verifier::opaque]
pub open spec fn hop(from: int, k: int) -> int {
    (from + k) % (N_NODES as int)
}

/// How many places after `from` the replica `id` stands in the ring.
#[verifier::opaque]
pub open spec fn places_after(from: int, id: int) -> int {
    (id - from + N_NODES as int) % (N_NODES as int)
}

/// Going on from a replica reaches a replica; no places on is the replica
/// itself, and one place on is the next one.
pub proof fn lemma_hop(from: int, k: int)
    requires
        0 <= from < N_NODES,
        0 <= k,
    ensures
        0 <= hop(from, k) < N_NODES,
        hop(from, 0) == from,
        hop(from, N_NODES as int) == from,
        hop(from, k + 1) == ring_next(hop(from, k)),
        0 < k < N_NODES ==> hop(from, k) != from,
{
    reveal(hop);
}

/// Going on twice is going on once by the sum.
pub proof fn lemma_hop_twice(from: int, a: int, b: int)
    requires
        0 <= from < N_NODES,
        0 <= a,
        0 <= b,
    ensures
        hop(hop(from, a), b) == hop(from, a + b),
{
    reveal(hop);
}

/// Each replica stands a definite number of places after another, fewer
/// than there are replicas.
pub proof fn lemma_places(from: int, id: int)
    requires
        0 <= from < N_NODES,
        0 <= id < N_NODES,
    ensures
        0 <= places_after(from, id) < N_NODES,
        hop(from, places_after(from, id)) == id,
        places_after(from, id) == 0 <==> id == from,
{
    reveal(hop);
    reveal(places_after);
}

/// A replica reached in fewer places than there are replicas stands that
/// many places on.
pub proof fn lemma_places_of_hop(from: int, k: int)
    requires
        0 <= from < N_NODES,
        0 <= k < N_NODES,
    ensures
        places_after(from, hop(from, k)) == k,
{
    reveal(hop);
    reveal(places_after);
}

/// `to` is the first live replica after `from`, `k` places on.
pub open spec fn is_next_live(alive: Seq<bool>, from: int, to: int, k: int) -> bool {
    &&& 1 <= k < N_NODES
    &&& to == hop(from, k)
    &&& alive[to]
    &&& forall|j: int| 1 <= j < k ==> !alive[#[trigger] hop(from, j)]
}

/// No replica but `from` is alive.
pub open spec fn is_alone(alive: Seq<bool>, from: int) -> bool {
    forall|id: int| 0 <= id < N_NODES && id != from ==> !alive[id]
}

/// `m` is alive and no live replica has a greater id.
pub open spec fn is_max_live(alive: Seq<bool>, m: int) -> bool {
    &&& 0 <= m < N_NODES
    &&& alive[m]
    &&& forall|id: int| 0 <= id < N_NODES && alive[id] ==> id <= m
}

/// The replicas of a ring, and which of them are alive.
#[derive(Debug)]
pub struct Ring {
    /// What each replica knows; replica `i` stands at place `i`.
    pub nodes: Vec<AlgloboNode>,
    /// Whether each replica is alive.
    pub alive: Vec<bool>,
}

impl Ring {
    /// The ring is complete, each replica stands at its place, and no live
    /// replica is stopping.
    pub open spec fn wf(&self) -> bool {
        &&& self.nodes@.len() == N_NODES
        &&& self.alive@.len() == N_NODES
        &&& forall|i: int| 0 <= i < N_NODES ==> (#[trigger] self.nodes@[i]).id == i
        &&& forall|i: int| 0 <= i < N_NODES && self.alive@[i] ==> !(#[trigger] self.nodes@[i]).stop
    }

    /// `other` is this ring but for what its replicas know of leaders and
    /// acknowledgements.
    pub open spec fn same_ring(&self, other: &Ring) -> bool {
        &&& self.alive@ == other.alive@
        &&& self.nodes@.len() == other.nodes@.len()
        &&& forall|i: int|
            0 <= i < self.nodes@.len() ==> (#[trigger] self.nodes@[i]).id == other.nodes@[i].id
                && self.nodes@[i].stop == other.nodes@[i].stop && self.nodes@[i].last_id
                == other.nodes@[i].last_id && self.nodes@[i].last_status
                == other.nodes@[i].last_status
    }

    /// A ring of replicas that have just started, with the given ones
    /// alive.
    pub fn new(alive: Vec<bool>) -> (ring: Ring)
        requires
            alive@.len() == N_NODES,
        ensures
            ring.wf(),
            ring.alive@ == alive@,
            forall|i: int|
                0 <= i < N_NODES ==> #[trigger] ring.nodes@[i] == (AlgloboNode {
                    id: i as usize,
                    leader_id: Some(i as usize),
                    got_ack: None,
                    stop: false,
                    last_id: 0,
                    last_status: 0,
                    awaits: Awaited::Start,
                }),
    {
        let mut nodes: Vec<AlgloboNode> = Vec::new();
        let mut id: usize = 0;
        while id < N_NODES
            invariant
                id <= N_NODES,
                nodes@.len() == id,
                forall|i: int| 0 <= i < id ==> nodes@[i] == (AlgloboNode {
                    id: i as usize,
                    leader_id: Some(i as usize),
                    got_ack: None,
                    stop: false,
                    last_id: 0,
                    last_status: 0,
                    awaits: Awaited::Start,
                }),
            decreases N_NODES - id,
        {
            nodes.push(AlgloboNode::new(id));
            id = id + 1;
        }
        Ring { nodes, alive }
    }

    /// Sends a message reliably from replica `from` on: each replica after
    /// it is tried in turn, a live one acknowledges and ends the search, and
    /// a dead one is skipped when the wait for it runs out. Returns the
    /// replica that took the message, or nothing where the search came back
    /// to `from`.
    pub fn deliver(&mut self, from: usize) -> (taker: Option<usize>)
        requires
            old(self).wf(),
            from < N_NODES,
            old(self).alive@[from as int],
        ensures
            final(self).wf(),
            old(self).same_ring(final(self)),
            forall|i: int|
                0 <= i < N_NODES ==> final(self).nodes@[i].leader_id == old(self).nodes@[i].leader_id,
            forall|i: int| 0 <= i < N_NODES && i != from ==> final(self).nodes@[i] == old(
                self,
            ).nodes@[i],
            final(self).nodes@[from as int].got_ack == taker,
            taker is None <==> is_alone(old(self).alive@, from as int),
            taker matches Some(to) ==> to < N_NODES && exists|k: int|
                is_next_live(old(self).alive@, from as int, to as int, k),
    {
        let mut sender: AlgloboNode = self.nodes[from];
        let mut id: usize = from;
        let mut skipped: usize = 0;
        let mut taker: Option<usize> = None;
        let mut done: bool = false;
        proof {
            lemma_hop(from as int, 0);
        }
        while !done
            invariant
                self.wf(),
                *self == *old(self),
                from < N_NODES,
                self.alive@[from as int],
                skipped < N_NODES,
                id == hop(from as int, skipped as int),
                !done ==> taker is None,
                forall|j: int| 1 <= j <= skipped ==> !self.alive@[#[trigger] hop(from as int, j)],
                sender == (AlgloboNode { got_ack: sender.got_ack, ..self.nodes@[from as int] }),
                taker matches Some(to) ==> (to < N_NODES && is_next_live(
                    self.alive@,
                    from as int,
                    to as int,
                    skipped + 1,
                )),
                sender.got_ack == taker || (taker is None && !done && skipped == 0),
                done && taker is None ==> skipped + 1 == N_NODES,
            decreases
                    if done {
                        0
                    } else {
                        N_NODES - skipped
                    },
        {
            proof {
                lemma_hop(from as int, skipped as int);
                lemma_hop(from as int, skipped + 1);
            }
            match sender.safe_send_next(id) {
                SendStep::Send { to } => {
                    if self.alive[to] {
                        let mut ack: Vec<usize> = Vec::new();
                        ack.push(to);
                        let _ = sender.responder(MSG_ACK, ack);
                        taker = Some(to);
                        done = true;
                    } else {
                        id = to;
                        skipped = skipped + 1;
                    }
                },
                SendStep::RingClosed => {
                    done = true;
                },
                SendStep::Stopped => {
                    done = true;
                },
            }
        }
        proof {
            if taker is None {
                assert forall|other: int|
                    0 <= other < N_NODES && other != from implies !self.alive@[other] by {
                    lemma_places(from as int, other);
                    let j = places_after(from as int, other);
                    assert(hop(from as int, j) == other);
                }
            } else {
                lemma_hop(from as int, skipped + 1);
            }
        }
        self.nodes.set(from, sender);
        taker
    }

    /// Runs the election that replica `initiator` starts when it takes the
    /// leader for dead. The `ELECTION` message goes round the ring and
    /// gathers the ids of the live replicas; back at the initiator, the
    /// greatest of them wins; the `COORDINATOR` message then goes round and
    /// tells every live replica. Returns the leader, or nothing where the
    /// initiator is the only live replica and the round fails.
    pub fn elect(&mut self, initiator: usize) -> (leader: Option<usize>)
        requires
            old(self).wf(),
            initiator < N_NODES,
            old(self).alive@[initiator as int],
        ensures
            final(self).wf(),
            old(self).same_ring(final(self)),
            leader is None <==> is_alone(old(self).alive@, initiator as int),
            leader is None ==> final(self).nodes@[initiator as int].leader_id is None,
            leader matches Some(m) ==> is_max_live(old(self).alive@, m as int) && forall|i: int|
                0 <= i < N_NODES && old(self).alive@[i] ==> (#[trigger] final(self).nodes@[i]).leader_id
                    == Some(m),
            forall|i: int|
                0 <= i < N_NODES && !old(self).alive@[i] ==> #[trigger] final(self).nodes@[i] == old(
                    self,
                ).nodes@[i],
    {
        let mut starter: AlgloboNode = self.nodes[initiator];
        let started: Option<Vec<usize>> = starter.find_new();
        self.nodes.set(initiator, starter);
        let mut ids: Vec<usize> = match started {
            Some(ids) => ids,
            None => Vec::new(),
        };
        let mut at: usize = initiator;
        let mut winner: Option<usize> = None;
        let ghost mut places: int = 0;
        proof {
            lemma_hop(initiator as int, 0);
            lemma_gathering_starts(self.alive@, initiator as int, ids@);
        }
        while winner.is_none()
            invariant
                self.wf(),
                old(self).same_ring(self),
                initiator < N_NODES,
                self.alive@[initiator as int],
                at < N_NODES,
                self.alive@[at as int],
                0 <= places < N_NODES,
                at == hop(initiator as int, places),
                forall|i: int|
                    0 <= i < N_NODES && !self.alive@[i] ==> #[trigger] self.nodes@[i] == old(
                        self,
                    ).nodes@[i],
                winner is None ==> has_gathered(self.alive@, initiator as int, places, ids@),
                winner is None ==> self.nodes@[initiator as int].leader_id is None,
                winner matches Some(m) ==> is_max_live(self.alive@, m as int) && at != initiator,
            decreases
                    if winner is Some {
                        0
                    } else {
                        N_NODES - places
                    },
        {
            let ghost gathered = ids@;
            let to: usize = match self.deliver(at) {
                Some(to) => to,
                None => {
                    return None;
                },
            };
            let ghost k = choose|k: int| is_next_live(self.alive@, at as int, to as int, k);
            let mut receiver: AlgloboNode = self.nodes[to];
            let reaction: Reaction = receiver.responder(MSG_ELECTION, ids);
            self.nodes.set(to, receiver);
            match reaction {
                Reaction::ForwardElection { ids: more } => {
                    proof {
                        lemma_gathering_goes_on(
                            self.alive@,
                            initiator as int,
                            places,
                            gathered,
                            at as int,
                            to as int,
                            k,
                        );
                        places = places + k;
                    }
                    ids = more;
                    at = to;
                },
                Reaction::Elected { winner: m } => {
                    proof {
                        lemma_gathering_ends(
                            self.alive@,
                            initiator as int,
                            places,
                            gathered,
                            at as int,
                            to as int,
                            k,
                            m,
                        );
                    }
                    ids = Vec::new();
                    winner = Some(m);
                },
                _ => {
                    ids = Vec::new();
                },
            }
        }
        let leader: usize = match winner {
            Some(m) => m,
            None => 0,
        };
        let ghost sender = at;
        let mut told: Vec<usize> = Vec::new();
        told.push(leader);
        let mut done: bool = false;
        proof {
            places = 0;
            lemma_hop(sender as int, 0);
            lemma_telling_starts(self.alive@, sender as int, told@);
            assert forall|x: int| 0 <= x < N_NODES implies !was_told(
                self.alive@,
                sender as int,
                0,
                x,
            ) by {
                lemma_places(sender as int, x);
            }
        }
        while !done
            invariant
                self.wf(),
                old(self).same_ring(self),
                initiator < N_NODES,
                self.alive@[initiator as int],
                sender < N_NODES,
                self.alive@[sender as int],
                sender != initiator,
                at < N_NODES,
                self.alive@[at as int],
                0 <= places <= N_NODES,
                at == hop(sender as int, places),
                forall|i: int|
                    0 <= i < N_NODES && !self.alive@[i] ==> #[trigger] self.nodes@[i] == old(
                        self,
                    ).nodes@[i],
                !done ==> told@.len() >= 1 && told@[0] == leader,
                !done ==> has_told(self.alive@, sender as int, places, told@),
                forall|x: int|
                    0 <= x < N_NODES && was_told(self.alive@, sender as int, places, x) ==> (
                    #[trigger] self.nodes@[x]).leader_id == Some(leader),
                done ==> places == N_NODES,
            decreases
                    if done {
                        0
                    } else {
                        N_NODES + 1 - places
                    },
        {
            let ghost heard = told@;
            let ghost before = self.nodes@;
            let mut receiver: AlgloboNode = self.nodes[at];
            let reaction: Reaction = receiver.responder(MSG_COORDINATOR, told);
            self.nodes.set(at, receiver);
            match reaction {
                Reaction::LeaderKnown { forward: Some(more) } => {
                    let to: usize = match self.deliver(at) {
                        Some(to) => to,
                        None => at,
                    };
                    proof {
                        assert(!is_alone(self.alive@, at as int));
                        let k = choose|k: int| is_next_live(self.alive@, at as int, to as int, k);
                        lemma_telling_goes_on(
                            self.alive@,
                            sender as int,
                            places,
                            heard,
                            at as int,
                            to as int,
                            k,
                        );
                        assert forall|x: int|
                            0 <= x < N_NODES && was_told(
                                self.alive@,
                                sender as int,
                                places + k,
                                x,
                            ) implies (#[trigger] self.nodes@[x]).leader_id == Some(leader) by {
                            if x != at {
                                assert(was_told(self.alive@, sender as int, places, x));
                                assert(before[x].leader_id == Some(leader));
                            }
                        }
                        places = places + k;
                    }
                    told = more;
                    at = to;
                },
                Reaction::LeaderKnown { forward: None } => {
                    proof {
                        lemma_telling_ends(self.alive@, sender as int, places, heard, at as int);
                        assert forall|x: int|
                            0 <= x < N_NODES && was_told(
                                self.alive@,
                                sender as int,
                                places,
                                x,
                            ) implies (#[trigger] self.nodes@[x]).leader_id == Some(leader) by {
                            if x != at {
                                assert(before[x].leader_id == Some(leader));
                            }
                        }
                    }
                    told = Vec::new();
                    done = true;
                },
                _ => {
                    told = Vec::new();
                    done = true;
                },
            }
        }
        proof {
            assert forall|i: int| 0 <= i < N_NODES && self.alive@[i] implies (
            #[trigger] self.nodes@[i]).leader_id == Some(leader) by {
                lemma_places(sender as int, i);
                assert(was_told(self.alive@, sender as int, places, i));
            }
        }
        Some(leader)
    }
}

/// The ids gathered when the `ELECTION` message stands `places` after the
/// initiator: those of the live replicas up to there.
pub open spec fn has_gathered(alive: Seq<bool>, initiator: int, places: int, ids: Seq<usize>) -> bool {
    &&& forall|j: int| 0 <= j < ids.len() ==> ids[j] < N_NODES
    &&& forall|x: usize|
        x < N_NODES ==> (#[trigger] ids.contains(x) <==> alive[x as int] && places_after(
            initiator,
            x as int,
        ) <= places)
}

/// Replica `x` is alive and stands fewer than `places` after the sender of
/// the `COORDINATOR` message.
pub open spec fn was_told(alive: Seq<bool>, sender: int, places: int, x: int) -> bool {
    alive[x] && places_after(sender, x) < places
}

/// The ids behind the leader's when the `COORDINATOR` message stands
/// `places` after its sender: those of the live replicas before there.
pub open spec fn has_told(alive: Seq<bool>, sender: int, places: int, ids: Seq<usize>) -> bool {
    forall|x: usize|
        x < N_NODES ==> (#[trigger] tail_contains(ids, x) <==> was_told(
            alive,
            sender,
            places,
            x as int,
        ))
}

/// The round starts with the initiator's id alone.
pub proof fn lemma_gathering_starts(alive: Seq<bool>, initiator: int, ids: Seq<usize>)
    requires
        0 <= initiator < N_NODES,
        alive[initiator],
        ids == seq![initiator as usize],
    ensures
        has_gathered(alive, initiator, 0, ids),
{
    assert forall|x: usize| x < N_NODES implies (#[trigger] ids.contains(x) <==> alive[x as int]
        && places_after(initiator, x as int) <= 0) by {
        lemma_places(initiator, x as int);
        if x == initiator {
            assert(ids[0] == x);
        }
    }
}

/// A replica between two that follow each other among the live ones is
/// dead.
pub proof fn lemma_between_is_dead(alive: Seq<bool>, from: int, at: int, places: int, to: int, k: int, x: int)
    requires
        0 <= from < N_NODES,
        0 <= places < N_NODES,
        at == hop(from, places),
        is_next_live(alive, at, to, k),
        0 <= x < N_NODES,
        places < places_after(from, x) < places + k,
    ensures
        !alive[x],
{
    let p = places_after(from, x);
    lemma_places(from, x);
    lemma_hop(from, places);
    lemma_hop_twice(from, places, p - places);
    assert(hop(at, p - places) == x);
}

/// The `ELECTION` message reaches a replica whose id it does not hold: that
/// replica stands before the initiator, and with its id the message holds
/// the ids of the live replicas up to it.
pub proof fn lemma_gathering_goes_on(
    alive: Seq<bool>,
    initiator: int,
    places: int,
    gathered: Seq<usize>,
    at: int,
    to: int,
    k: int,
)
    requires
        0 <= initiator < N_NODES,
        alive[initiator],
        0 <= places < N_NODES,
        at == hop(initiator, places),
        has_gathered(alive, initiator, places, gathered),
        0 <= to < N_NODES,
        is_next_live(alive, at, to, k),
        !gathered.contains(to as usize),
    ensures
        places + k < N_NODES,
        to == hop(initiator, places + k),
        has_gathered(alive, initiator, places + k, gathered.push(to as usize)),
{
    let more = gathered.push(to as usize);
    lemma_hop(initiator, places);
    lemma_hop_twice(initiator, places, k);
    lemma_places(initiator, to);
    if places + k >= N_NODES {
        if places + k == N_NODES {
            lemma_hop(initiator, N_NODES as int);
            lemma_places(initiator, initiator);
            assert(gathered.contains(initiator as usize));
        } else {
            lemma_hop_twice(initiator, places, N_NODES - places);
            lemma_hop(initiator, N_NODES as int);
            assert(hop(at, N_NODES - places) == initiator);
        }
    }
    lemma_places_of_hop(initiator, places + k);
    assert forall|x: usize| x < N_NODES implies (#[trigger] more.contains(x) <==> alive[x as int]
        && places_after(initiator, x as int) <= places + k) by {
        let p = places_after(initiator, x as int);
        lemma_places(initiator, x as int);
        if more.contains(x) {
            let j = choose|j: int| 0 <= j < more.len() && more[j] == x;
            if j < gathered.len() {
                assert(gathered[j] == x);
                assert(gathered.contains(x));
            }
        }
        if alive[x as int] && p <= places + k {
            if p <= places {
                assert(gathered.contains(x));
                let j = choose|j: int| 0 <= j < gathered.len() && gathered[j] == x;
                assert(more[j] == x);
            } else {
                if p < places + k {
                    lemma_between_is_dead(alive, initiator, at, places, to, k, x as int);
                }
                assert(more[gathered.len() as int] == x);
            }
        }
    }
}

/// The `ELECTION` message reaches a replica whose id it holds: that replica
/// is the initiator, the message holds the ids of all live replicas, and
/// the greatest of them is the greatest live id.
pub proof fn lemma_gathering_ends(
    alive: Seq<bool>,
    initiator: int,
    places: int,
    gathered: Seq<usize>,
    at: int,
    to: int,
    k: int,
    m: usize,
)
    requires
        0 <= initiator < N_NODES,
        alive[initiator],
        0 <= places < N_NODES,
        at == hop(initiator, places),
        has_gathered(alive, initiator, places, gathered),
        0 <= to < N_NODES,
        is_next_live(alive, at, to, k),
        gathered.contains(to as usize),
        is_max_of(m, gathered),
    ensures
        to == initiator,
        at != initiator,
        is_max_live(alive, m as int),
{
    lemma_hop(initiator, places);
    lemma_hop(at, k);
    lemma_hop_twice(initiator, places, k);
    lemma_places(initiator, to);
    if places + k < N_NODES {
        lemma_places_of_hop(initiator, places + k);
    } else if places + k > N_NODES {
        lemma_hop_twice(initiator, places, N_NODES - places);
        lemma_hop(initiator, N_NODES as int);
        assert(hop(at, N_NODES - places) == initiator);
    }
    assert(places + k == N_NODES);
    lemma_hop(initiator, N_NODES as int);
    let at_m = choose|j: int| 0 <= j < gathered.len() && gathered[j] == m;
    assert(gathered.contains(m));
    assert forall|id: int| 0 <= id < N_NODES && alive[id] implies id <= m by {
        lemma_places(initiator, id);
        if places_after(initiator, id) > places {
            lemma_between_is_dead(alive, initiator, at, places, to, k, id);
        }
        assert(gathered.contains(id as usize));
        let j = choose|j: int| 0 <= j < gathered.len() && gathered[j] == id;
        assert(gathered[j] <= m);
    }
}

/// The announcement starts with the leader's id alone.
pub proof fn lemma_telling_starts(alive: Seq<bool>, sender: int, ids: Seq<usize>)
    requires
        0 <= sender < N_NODES,
        ids.len() == 1,
    ensures
        has_told(alive, sender, 0, ids),
{
    assert forall|x: usize| x < N_NODES implies (#[trigger] tail_contains(ids, x) <==> was_told(
        alive,
        sender,
        0,
        x as int,
    )) by {
        lemma_places(sender, x as int);
    }
}

/// The `COORDINATOR` message reaches a replica whose id does not follow the
/// leader's in it: the round is not over, and with that replica's id the
/// message holds the ids of the live replicas before the next one.
pub proof fn lemma_telling_goes_on(
    alive: Seq<bool>,
    sender: int,
    places: int,
    heard: Seq<usize>,
    at: int,
    to: int,
    k: int,
)
    requires
        0 <= sender < N_NODES,
        alive[sender],
        0 <= places <= N_NODES,
        0 <= at < N_NODES,
        at == hop(sender, places),
        alive[at],
        heard.len() >= 1,
        has_told(alive, sender, places, heard),
        !tail_contains(heard, at as usize),
        0 <= to < N_NODES,
        is_next_live(alive, at, to, k),
    ensures
        places < N_NODES,
        places + k <= N_NODES,
        to == hop(sender, places + k),
        places_after(sender, at) == places,
        has_told(alive, sender, places + k, heard.push(at as usize)),
        forall|x: int|
            0 <= x < N_NODES && x != at && was_told(alive, sender, places + k, x) ==> was_told(
                alive,
                sender,
                places,
                x,
            ),
{
    let more = heard.push(at as usize);
    lemma_places(sender, at);
    if places == N_NODES {
        lemma_hop(sender, N_NODES as int);
        assert(was_told(alive, sender, places, at));
    }
    lemma_places_of_hop(sender, places);
    lemma_hop_twice(sender, places, k);
    if places + k > N_NODES {
        lemma_hop_twice(sender, places, N_NODES - places);
        lemma_hop(sender, N_NODES as int);
        assert(hop(at, N_NODES - places) == sender);
    }
    assert forall|x: int|
        0 <= x < N_NODES && x != at && was_told(alive, sender, places + k, x) implies was_told(
        alive,
        sender,
        places,
        x,
    ) by {
        lemma_places(sender, x);
        if places_after(sender, x) > places {
            lemma_between_is_dead(alive, sender, at, places, to, k, x);
        }
    }
    assert forall|x: usize| x < N_NODES implies (#[trigger] tail_contains(more, x) <==> was_told(
        alive,
        sender,
        places + k,
        x as int,
    )) by {
        lemma_places(sender, x as int);
        if tail_contains(more, x) {
            let j = choose|j: int| 1 <= j < more.len() && more[j] == x;
            if j < heard.len() {
                assert(heard[j] == x);
                assert(tail_contains(heard, x));
            }
        }
        if was_told(alive, sender, places + k, x as int) {
            if x == at {
                assert(more[heard.len() as int] == x);
            } else {
                assert(tail_contains(heard, x));
                let j = choose|j: int| 1 <= j < heard.len() && heard[j] == x;
                assert(more[j] == x);
            }
        }
    }
}

/// The `COORDINATOR` message reaches a replica whose id follows the
/// leader's in it: it has gone all the way round.
pub proof fn lemma_telling_ends(alive: Seq<bool>, sender: int, places: int, heard: Seq<usize>, at: int)
    requires
        0 <= sender < N_NODES,
        0 <= places <= N_NODES,
        0 <= at < N_NODES,
        at == hop(sender, places),
        has_told(alive, sender, places, heard),
        tail_contains(heard, at as usize),
    ensures
        places == N_NODES,
{
    lemma_places(sender, at);
    if places < N_NODES {
        lemma_places_of_hop(sender, places);
    }
}

/// A leader that is still alive stays the leader: where replicas have died
/// since it was elected and it has not, any election elects it again.
pub proof fn lemma_live_leader_is_reelected(
    before: Seq<bool>,
    now: Seq<bool>,
    leader: int,
    elected: int,
)
    requires
        is_max_live(before, leader),
        now[leader],
        forall|id: int| 0 <= id < N_NODES && now[id] ==> before[id],
        is_max_live(now, elected),
    ensures
        elected == leader,
{
}

} // verus!
