use alglobo::alglobo_node::{
    contains_id, id_to_ctrladdr, id_to_dataaddr, max_id, tail_contains_id, AlgloboNode, LoopEvent,
    LoopStep, Reaction, SendStep, N_NODES,
};
use alglobo::communication::{ABORT, COMMIT, PREPARE};
use alglobo::control::{MSG_ACK, MSG_COORDINATOR, MSG_ELECTION, MSG_KILL};

#[test]
fn addresses_follow_the_id() {
    let ctrl = id_to_ctrladdr(3);
    assert_eq!(ctrl.ip, [127, 0, 0, 1]);
    assert_eq!(ctrl.port, 1103);
    let data = id_to_dataaddr(3);
    assert_eq!(data.ip, [127, 0, 0, 1]);
    assert_eq!(data.port, 1203);
    assert_eq!(id_to_ctrladdr(0).port, 1100);
    assert_eq!(id_to_dataaddr(4).port, 1204);
}

#[test]
fn a_new_node_takes_itself_for_leader() {
    let node = AlgloboNode::new(2);
    assert_eq!(node.id, 2);
    assert_eq!(node.leader_id, Some(2));
    assert_eq!(node.got_ack, None);
    assert!(!node.stop);
    assert_eq!(node.last_id, 0);
    assert_eq!(node.last_status, 0);
    assert!(node.am_i_leader());
    assert_eq!(node.get_leader_id(), Some(2));
}

#[test]
fn ids_helpers() {
    assert!(contains_id(&[1, 2, 3], 2));
    assert!(!contains_id(&[1, 2, 3], 4));
    assert!(!contains_id(&[], 0));
    assert!(tail_contains_id(&[4, 1, 2], 2));
    assert!(!tail_contains_id(&[4, 1, 2], 4));
    assert!(!tail_contains_id(&[4], 4));
    assert!(!tail_contains_id(&[], 4));
    assert_eq!(max_id(&[3]), 3);
    assert_eq!(max_id(&[1, 4, 2]), 4);
    assert_eq!(max_id(&[4, 1, 2]), 4);
    assert_eq!(max_id(&[0, 0]), 0);
}

#[test]
fn ack_is_recorded() {
    let mut node = AlgloboNode::new(1);
    let reaction = node.responder(MSG_ACK, vec![3]);
    assert!(matches!(reaction, Reaction::Acknowledged));
    assert_eq!(node.got_ack, Some(3));
    assert!(node.acknowledged_by(3));
    assert!(!node.acknowledged_by(2));
    assert_eq!(node.leader_id, Some(1));
}

#[test]
fn election_passing_through_adds_the_own_id() {
    let mut node = AlgloboNode::new(2);
    let before = node;
    match node.responder(MSG_ELECTION, vec![0, 1]) {
        Reaction::ForwardElection { ids } => assert_eq!(ids, vec![0, 1, 2]),
        other => panic!("unexpected reaction {:?}", other),
    }
    assert_eq!(node, before);
}

#[test]
fn election_that_came_back_elects_the_maximum() {
    let mut node = AlgloboNode::new(1);
    let before = node;
    match node.responder(MSG_ELECTION, vec![1, 3, 0]) {
        Reaction::Elected { winner } => assert_eq!(winner, 3),
        other => panic!("unexpected reaction {:?}", other),
    }
    assert_eq!(node, before);
}

#[test]
fn coordinator_sets_the_leader_and_is_passed_on() {
    let mut node = AlgloboNode::new(1);
    match node.responder(MSG_COORDINATOR, vec![4]) {
        Reaction::LeaderKnown { forward } => assert_eq!(forward, Some(vec![4, 1])),
        other => panic!("unexpected reaction {:?}", other),
    }
    assert_eq!(node.leader_id, Some(4));
    assert!(!node.am_i_leader());
}

#[test]
fn coordinator_that_went_round_stops() {
    let mut node = AlgloboNode::new(1);
    node.leader_id = None;
    match node.responder(MSG_COORDINATOR, vec![4, 1, 2, 4]) {
        Reaction::LeaderKnown { forward } => assert_eq!(forward, None),
        other => panic!("unexpected reaction {:?}", other),
    }
    assert_eq!(node.leader_id, Some(4));
}

#[test]
fn coordinator_for_the_winner_itself_is_still_passed_on_once() {
    let mut node = AlgloboNode::new(4);
    match node.responder(MSG_COORDINATOR, vec![4, 3]) {
        Reaction::LeaderKnown { forward } => assert_eq!(forward, Some(vec![4, 3, 4])),
        other => panic!("unexpected reaction {:?}", other),
    }
    assert!(node.am_i_leader());
}

#[test]
fn kill_stops_the_node() {
    let mut node = AlgloboNode::new(0);
    assert!(matches!(node.responder(MSG_KILL, vec![]), Reaction::Stopped));
    assert!(node.stop);
}

#[test]
fn unknown_control_message_is_ignored() {
    let mut node = AlgloboNode::new(0);
    let before = node;
    assert!(matches!(node.responder(b'?', vec![1, 2]), Reaction::Ignored));
    assert_eq!(node, before);
}

#[test]
fn next_goes_round_the_ring() {
    let node = AlgloboNode::new(0);
    assert_eq!(N_NODES, 5);
    assert_eq!(node.next(0), 1);
    assert_eq!(node.next(3), 4);
    assert_eq!(node.next(4), 0);
}

#[test]
fn safe_send_next_targets_the_successor_and_forgets_the_ack() {
    let mut node = AlgloboNode::new(2);
    node.got_ack = Some(1);
    assert_eq!(node.safe_send_next(2), SendStep::Send { to: 3 });
    assert_eq!(node.got_ack, None);
}

#[test]
fn safe_send_next_skips_until_the_ring_closes() {
    let mut node = AlgloboNode::new(2);
    let mut from = 2;
    let mut tried = Vec::new();
    loop {
        match node.safe_send_next(from) {
            SendStep::Send { to } => {
                tried.push(to);
                from = to;
            }
            SendStep::RingClosed => break,
            SendStep::Stopped => panic!("not stopping"),
        }
    }
    assert_eq!(tried, vec![3, 4, 0, 1]);
}

#[test]
fn safe_send_next_of_a_stopping_node_sends_nothing() {
    let mut node = AlgloboNode::new(2);
    node.got_ack = Some(4);
    node.stop();
    assert_eq!(node.safe_send_next(2), SendStep::Stopped);
    assert_eq!(node.got_ack, Some(4));
}

#[test]
fn find_new_forgets_the_leader() {
    let mut node = AlgloboNode::new(3);
    assert_eq!(node.find_new(), Some(vec![3]));
    assert_eq!(node.leader_id, None);
    assert!(!node.am_i_leader());
    assert_eq!(node.get_leader_id(), None);
}

#[test]
fn find_new_of_a_stopping_node_does_nothing() {
    let mut node = AlgloboNode::new(3);
    node.stop();
    assert_eq!(node.find_new(), None);
    assert_eq!(node.leader_id, Some(3));
}

#[test]
fn loop_of_the_leader_leads() {
    let mut node = AlgloboNode::new(4);
    assert!(matches!(node.loop_node(LoopEvent::Begin), LoopStep::Lead));
}

#[test]
fn loop_of_a_follower_follows_and_records_entries() {
    let mut node = AlgloboNode::new(1);
    node.leader_id = Some(4);
    assert!(matches!(node.loop_node(LoopEvent::Begin), LoopStep::Follow));
    assert!(matches!(
        node.loop_node(LoopEvent::Entry { status: PREPARE, id: 7 }),
        LoopStep::Follow
    ));
    assert_eq!(node.last_id, 7);
    assert_eq!(node.last_status, PREPARE);
    assert!(matches!(
        node.loop_node(LoopEvent::Entry { status: COMMIT, id: 7 }),
        LoopStep::Follow
    ));
    assert_eq!(node.last_id, 7);
    assert_eq!(node.last_status, COMMIT);
    assert!(matches!(
        node.loop_node(LoopEvent::Entry { status: ABORT, id: 8 }),
        LoopStep::Follow
    ));
    assert_eq!((node.last_id, node.last_status), (8, ABORT));
}

#[test]
fn a_log_entry_on_an_earlier_transaction_is_left_aside() {
    let mut node = AlgloboNode::new(1);
    node.leader_id = Some(4);
    node.loop_node(LoopEvent::Entry { status: COMMIT, id: 7 });
    for (status, id) in [(PREPARE, 6), (COMMIT, 6), (ABORT, 0)] {
        assert!(matches!(node.loop_node(LoopEvent::Entry { status, id }), LoopStep::Follow));
        assert_eq!((node.last_id, node.last_status), (7, COMMIT));
    }
    node.loop_node(LoopEvent::Entry { status: PREPARE, id: 7 });
    assert_eq!((node.last_id, node.last_status), (7, PREPARE));
    node.loop_node(LoopEvent::Entry { status: ABORT, id: 7 });
    assert_eq!((node.last_id, node.last_status), (7, ABORT));
    node.loop_node(LoopEvent::Entry { status: PREPARE, id: 8 });
    assert_eq!((node.last_id, node.last_status), (8, PREPARE));
    node.loop_node(LoopEvent::Entry { status: PREPARE, id: 7 });
    assert_eq!((node.last_id, node.last_status), (8, PREPARE));
}

#[test]
fn acknowledgement_or_announcement_without_an_id_is_ignored() {
    let mut node = AlgloboNode::new(2);
    node.got_ack = Some(1);
    let before = node;
    assert!(matches!(node.responder(MSG_ACK, vec![]), Reaction::Ignored));
    assert!(matches!(node.responder(MSG_COORDINATOR, vec![]), Reaction::Ignored));
    assert_eq!(node, before);
    match node.responder(MSG_ELECTION, vec![]) {
        Reaction::ForwardElection { ids } => assert_eq!(ids, vec![2]),
        other => panic!("unexpected reaction {:?}", other),
    }
}

#[test]
fn loop_without_a_leader_waits_for_one() {
    let mut node = AlgloboNode::new(1);
    node.leader_id = None;
    assert!(matches!(node.loop_node(LoopEvent::Begin), LoopStep::AwaitLeader));
}

#[test]
fn silence_starts_an_election() {
    let mut node = AlgloboNode::new(1);
    node.leader_id = Some(4);
    match node.loop_node(LoopEvent::Silence) {
        LoopStep::Elect { ids } => assert_eq!(ids, vec![1]),
        other => panic!("unexpected step {:?}", other),
    }
    assert_eq!(node.leader_id, None);
}

#[test]
fn a_stopping_node_leaves_the_loop() {
    let mut node = AlgloboNode::new(1);
    node.leader_id = Some(4);
    node.stop();
    assert!(matches!(node.loop_node(LoopEvent::Begin), LoopStep::Exit));
    assert!(matches!(node.loop_node(LoopEvent::Silence), LoopStep::Exit));
    assert_eq!(node.leader_id, Some(4));
    assert!(matches!(node.loop_node(LoopEvent::Entry { status: COMMIT, id: 2 }), LoopStep::Exit));
    assert_eq!(node.last_id, 2);
}

#[test]
fn last_log_goes_to_everyone_but_the_leader() {
    let node = AlgloboNode::new(4);
    let log = node.broadcast_last_log(PREPARE, 7);
    let mut bytes = vec![b'P'];
    bytes.extend(7usize.to_be_bytes());
    assert_eq!(log.bytes, bytes);
    assert_eq!(log.targets, vec![0, 1, 2, 3]);
}

#[test]
fn kill_goes_to_everyone_but_the_node_itself() {
    let node = AlgloboNode::new(1);
    assert_eq!(node.kill_targets(), vec![0, 2, 3, 4]);
}
