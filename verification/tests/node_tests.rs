use raft_core::node::{Action, Config, RaftNode, Role};
use raft_core::message::Message;
use raft_core::types::{LogIndex, NodeId};

#[test]
fn single_node_elects_itself() {
    let config = Config {
        id: NodeId(1),
        peers: vec![],
        election_timeout_ticks: 10,
        heartbeat_interval_ticks: 3,
        rng_seed: 42,
    };
    let mut node = RaftNode::new(config);

    let mut elected = false;
    for _ in 0..30 {
        let actions = node.tick();
        if node.role() == Role::Leader {
            elected = true;
            assert!(actions.iter().any(|a| matches!(a, Action::PersistHardState { .. })));
            break;
        }
    }
    assert!(elected, "single node should elect itself");
}

#[test]
fn three_nodes_elect_one_leader() {
    let ids = [NodeId(1), NodeId(2), NodeId(3)];
    let mut nodes: Vec<RaftNode> = ids
        .iter()
        .map(|&id| {
            RaftNode::new(Config {
                id,
                peers: ids.iter().copied().filter(|&p| p != id).collect(),
                election_timeout_ticks: 10,
                heartbeat_interval_ticks: 3,
                rng_seed: id.0 * 1000,
            })
        })
        .collect();

    let mut messages: Vec<Message> = Vec::new();

    for _tick in 0..100 {
        for node in &mut nodes {
            let actions = node.tick();
            for action in actions {
                if let Action::Send(msg) = action {
                    messages.push(msg);
                }
            }
        }

        let pending = std::mem::take(&mut messages);
        for msg in pending {
            let target = nodes.iter_mut().find(|n| n.id == msg.to).unwrap();
            let actions = target.step(msg);
            for action in actions {
                if let Action::Send(m) = action {
                    messages.push(m);
                }
            }
        }

        let leaders: Vec<_> = nodes
            .iter()
            .filter(|n| n.role() == Role::Leader)
            .collect();
        if leaders.len() > 1 {
            let terms: Vec<_> = leaders.iter().map(|n| n.current_term()).collect();
            let unique_terms: std::collections::HashSet<_> = terms.iter().collect();
            assert_eq!(
                unique_terms.len(),
                terms.len(),
                "Election Safety violated: two leaders in the same term!"
            );
        }
    }

    let leaders: Vec<_> = nodes
        .iter()
        .filter(|n| n.role() == Role::Leader)
        .collect();
    assert_eq!(leaders.len(), 1, "exactly one leader should be elected");
}

#[test]
fn log_replication_happy_path() {
    let ids = [NodeId(1), NodeId(2), NodeId(3)];
    let mut nodes: Vec<RaftNode> = ids
        .iter()
        .map(|&id| {
            RaftNode::new(Config {
                id,
                peers: ids.iter().copied().filter(|&p| p != id).collect(),
                election_timeout_ticks: 10,
                heartbeat_interval_ticks: 3,
                rng_seed: id.0 * 1000,
            })
        })
        .collect();

    let mut messages: Vec<Message> = Vec::new();

    let mut leader_id = None;
    for _tick in 0..50 {
        for node in &mut nodes {
            let actions = node.tick();
            for action in actions {
                if let Action::Send(msg) = action {
                    messages.push(msg);
                }
            }
        }

        let pending = std::mem::take(&mut messages);
        for msg in pending {
            let target = nodes.iter_mut().find(|n| n.id == msg.to).unwrap();
            let actions = target.step(msg);
            for action in actions {
                if let Action::Send(m) = action {
                    messages.push(m);
                }
            }
        }

        if let Some(leader) = nodes.iter().find(|n| n.role() == Role::Leader) {
            leader_id = Some(leader.id);
        }
    }

    let leader_id = leader_id.expect("leader should have been elected");

    let leader_node = nodes.iter_mut().find(|n| n.id == leader_id).unwrap();
    let cmd = b"set x = 42".to_vec();
    let actions = leader_node.propose(cmd.clone());

    for action in actions {
        if let Action::Send(msg) = action {
            messages.push(msg);
        }
    }

    for _tick in 0..20 {
        for node in &mut nodes {
            let actions = node.tick();
            for action in actions {
                if let Action::Send(msg) = action {
                    messages.push(msg);
                }
            }
        }

        let pending = std::mem::take(&mut messages);
        for msg in pending {
            let target = nodes.iter_mut().find(|n| n.id == msg.to).unwrap();
            let actions = target.step(msg);
            for action in actions {
                if let Action::Send(m) = action {
                    messages.push(m);
                }
            }
        }
    }

    for node in &nodes {
        assert_eq!(node.commit_index(), LogIndex(2), "node {} failed to commit index 2", node.id.0);
        assert_eq!(node.last_applied(), LogIndex(2), "node {} failed to apply index 2", node.id.0);

        let entry = node.log().entry_at(LogIndex(2)).unwrap();
        assert_eq!(entry.command, cmd);
    }
}
