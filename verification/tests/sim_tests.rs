use raft_core::network::SimNetwork;
use raft_core::message::{Message, MessageKind};
use raft_core::simulator::Simulator;
use raft_core::types::{NodeId, Term};
use rand::rngs::SmallRng;
use rand::SeedableRng;

fn msg(from: u64, to: u64) -> Message {
    Message { from: NodeId(from), to: NodeId(to), term: Term(1), kind: MessageKind::InstallSnapshotResponse }
}

#[test]
fn network_delivers_in_tick_order() {
    let mut net = SimNetwork::new();
    net.max_delay_ticks = 0;
    let mut rng = SmallRng::seed_from_u64(7);
    net.send(msg(1, 2), 5, &mut rng);
    net.send(msg(1, 3), 3, &mut rng);
    assert!(net.drain_due(2).is_empty());
    let due = net.drain_due(4);
    assert_eq!(due.len(), 1);
    assert_eq!(due[0].to, NodeId(3));
    let due = net.drain_due(10);
    assert_eq!(due.len(), 1);
    assert_eq!(due[0].to, NodeId(2));
}

#[test]
fn network_partitions_drop_messages() {
    let mut net = SimNetwork::new();
    let mut rng = SmallRng::seed_from_u64(7);
    net.partition(NodeId(1), NodeId(2));
    net.send(msg(1, 2), 0, &mut rng);
    assert!(net.drain_due(100).is_empty());
    net.send(msg(2, 1), 0, &mut rng);
    assert_eq!(net.drain_due(100).len(), 1);
    net.heal_all();
    net.send(msg(1, 2), 0, &mut rng);
    assert_eq!(net.drain_due(100).len(), 1);
}

#[test]
fn simulation_elects_and_commits() {
    let mut sim = Simulator::new(3, 3);
    {
        let network = sim.network_mut();
        network.max_delay_ticks = 0;
    }
    for _ in 0..60 {
        sim.step().unwrap();
    }
    assert!(sim.propose_command(b"cmd".to_vec()));
    for _ in 0..20 {
        sim.step().unwrap();
    }
    sim.crash_node(NodeId(2));
    sim.spawn_node(NodeId(2));
    for _ in 0..20 {
        sim.step().unwrap();
    }
}

#[test]
fn fresh_cluster_has_no_leader_to_propose_to() {
    let mut sim = Simulator::new(9, 3);
    // Every server starts as a follower with an election timeout of at
    // least 15 ticks, so for the first ticks nobody leads.
    assert!(!sim.propose_command(b"early".to_vec()));
    for _ in 0..5 {
        sim.step().unwrap();
    }
    assert!(!sim.propose_command(b"early".to_vec()));
}

#[test]
fn network_schedules_each_send_once_without_faults() {
    let mut net = SimNetwork::new();
    net.max_delay_ticks = 0;
    let mut rng = SmallRng::seed_from_u64(5);
    net.send(msg(1, 2), 10, &mut rng);
    net.send(msg(2, 3), 10, &mut rng);
    assert!(net.drain_due(9).is_empty());
    let due = net.drain_due(10);
    assert_eq!(due.len(), 2);
    assert_eq!(due[0].to, NodeId(2));
    assert_eq!(due[1].to, NodeId(3));
    assert!(net.drain_due(100).is_empty());
}
