use alglobo::ring::Ring;

fn alive(mask: [bool; 5]) -> Vec<bool> {
    mask.to_vec()
}

#[test]
fn a_new_ring_has_every_node_on_its_own() {
    let ring = Ring::new(alive([true; 5]));
    assert_eq!(ring.nodes.len(), 5);
    for (i, node) in ring.nodes.iter().enumerate() {
        assert_eq!(node.id, i);
        assert_eq!(node.leader_id, Some(i));
    }
}

#[test]
fn election_among_all_elects_the_greatest_id() {
    for initiator in 0..5 {
        let mut ring = Ring::new(alive([true; 5]));
        assert_eq!(ring.elect(initiator), Some(4));
        for node in &ring.nodes {
            assert_eq!(node.leader_id, Some(4));
        }
    }
}

#[test]
fn election_after_the_greatest_died_elects_the_second_greatest() {
    for initiator in 0..4 {
        let mut ring = Ring::new(alive([true, true, true, true, false]));
        assert_eq!(ring.elect(initiator), Some(3));
        for node in &ring.nodes[..4] {
            assert_eq!(node.leader_id, Some(3));
            assert_eq!(node.last_id, 0);
            assert_eq!(node.last_status, 0);
        }
        assert_eq!(ring.nodes[4].leader_id, Some(4));
    }
}

#[test]
fn election_skips_dead_nodes() {
    let mut ring = Ring::new(alive([true, false, true, false, false]));
    assert_eq!(ring.elect(0), Some(2));
    assert_eq!(ring.nodes[0].leader_id, Some(2));
    assert_eq!(ring.nodes[2].leader_id, Some(2));
    assert_eq!(ring.nodes[1].leader_id, Some(1));
    assert_eq!(ring.nodes[3].leader_id, Some(3));
    let mut other = Ring::new(alive([false, true, false, false, true]));
    assert_eq!(other.elect(4), Some(4));
    assert_eq!(other.nodes[1].leader_id, Some(4));
    assert_eq!(other.nodes[4].leader_id, Some(4));
}

#[test]
fn election_of_a_lone_node_fails() {
    for initiator in 0..5 {
        let mut mask = [false; 5];
        mask[initiator] = true;
        let mut ring = Ring::new(alive(mask));
        assert_eq!(ring.elect(initiator), None);
        assert_eq!(ring.nodes[initiator].leader_id, None);
    }
}

#[test]
fn a_second_election_elects_the_same_leader() {
    let mut ring = Ring::new(alive([true, true, false, true, false]));
    assert_eq!(ring.elect(1), Some(3));
    assert_eq!(ring.elect(0), Some(3));
    assert_eq!(ring.elect(3), Some(3));
    ring.alive[0] = false;
    assert_eq!(ring.elect(1), Some(3));
    for i in [1usize, 3] {
        assert_eq!(ring.nodes[i].leader_id, Some(3));
    }
}

#[test]
fn deliver_finds_the_next_live_node() {
    let mut ring = Ring::new(alive([true, false, false, true, true]));
    assert_eq!(ring.deliver(0), Some(3));
    assert_eq!(ring.nodes[0].got_ack, Some(3));
    assert_eq!(ring.deliver(3), Some(4));
    assert_eq!(ring.deliver(4), Some(0));
    let mut lone = Ring::new(alive([false, false, true, false, false]));
    assert_eq!(lone.deliver(2), None);
    assert_eq!(lone.nodes[2].got_ack, None);
}
