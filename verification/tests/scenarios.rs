//! End-to-end protocol runs over the in-process gossip router: several
//! voters on a pre-synced chain, driven until everyone has finalized the
//! target block.

use finality_grandpa::chain::BlockTree;
use finality_grandpa::codec::encode_vote;
use finality_grandpa::import::on_block_imported;
use finality_grandpa::network::GossipRouter;
use finality_grandpa::authorities::{Authority, ScheduledChange};
use finality_grandpa::round::RoundStage;
use finality_grandpa::voter::{Config, Voter};

const TEST_GOSSIP_DURATION: u64 = 500;

fn make_ids(keys: &[u64]) -> Vec<Authority> {
    keys.iter().map(|&id| Authority { id, weight: 1 }).collect()
}

/// A linear chain of `n` blocks above genesis; block at height `i` has hash `i`.
fn linear_chain(n: u64) -> BlockTree {
    let mut tree = BlockTree::new();
    for i in 1..=n {
        tree.add_block(i, i - 1).unwrap();
    }
    tree
}

fn new_voter(tree: &BlockTree, key: Option<u64>, peer_id: usize, genesis: &[u64]) -> Voter {
    let config = Config {
        gossip_duration: TEST_GOSSIP_DURATION,
        local_key: key,
        name: Some(format!("peer#{}", peer_id)),
    };
    Voter::new(config, make_ids(genesis), tree).expect("all in order with client and network")
}

/// Gossips a payload into every peer's router: the broadcast the transport
/// would perform.
fn broadcast(routers: &mut Vec<GossipRouter>, round: u64, set_id: u64, payload: &[u8]) {
    for r in routers.iter_mut() {
        r.send_message(round, set_id, payload.to_vec());
    }
}

/// Drives the voters — each with its own gossip store, as each peer has —
/// until each has finalized at least `target`, or panics.
fn run_until_finalized(
    tree: &BlockTree,
    voters: &mut Vec<Voter>,
    routers: &mut Vec<GossipRouter>,
    target: u64,
) {
    for _ in 0..2000 {
        if voters.iter().all(|v| v.last_finalized_number >= target) {
            return;
        }
        for i in 0..voters.len() {
            let v = &mut voters[i];
            if let RoundStage::Prevoting = v.round.stage {
                if let Some(m) = v.cast_prevote(tree) {
                    broadcast(routers, m.round_number, m.set_id, &encode_vote(&m));
                }
            }
            let v = &mut voters[i];
            let inbox = routers[i].messages_for(v.round.round_number, v.set.set_id);
            for payload in inbox.iter() {
                v.handle_payload(tree, payload);
            }
            v.try_advance(tree, false);
            // catch up on finality announced by peers' commits
            let commits = routers[i].commit_messages(v.set.set_id);
            for payload in commits.iter() {
                if let Some(c) = finality_grandpa::codec::decode_commit(payload) {
                    v.apply_commit(tree, c);
                }
            }
            if let RoundStage::Precommitting = v.round.stage {
                if let Some(m) = v.cast_precommit(tree) {
                    broadcast(routers, m.round_number, m.set_id, &encode_vote(&m));
                }
                let v = &mut voters[i];
                let inbox = routers[i].messages_for(v.round.round_number, v.set.set_id);
                for payload in inbox.iter() {
                    v.handle_payload(tree, payload);
                }
                let old_round = v.round.round_number;
                let old_set = v.set.set_id;
                if let Some((h, n)) = v.try_finalize(tree) {
                    let commit = finality_grandpa::codec::CommitMessage {
                        set_id: old_set,
                        round_number: old_round,
                        target_hash: h,
                        target_number: n,
                    };
                    let bytes = finality_grandpa::codec::encode_commit(&commit);
                    for r in routers.iter_mut() {
                        r.send_commit(old_set, bytes.clone());
                    }
                }
                let v = &voters[i];
                if v.round.round_number != old_round || v.set.set_id != old_set {
                    routers[i].drop_messages(old_round, old_set);
                }
            }
        }
    }
    panic!("voters failed to finalize block {}", target);
}

/// Every height from 1 to `target` appears exactly once, in order, ending at
/// the target: nothing finalized is skipped.
fn assert_consecutive(v: &Voter, target: u64) {
    assert_eq!(v.notifications.len() as u64, target);
    for (i, &(h, n)) in v.notifications.iter().enumerate() {
        assert_eq!(n, i as u64 + 1);
        assert_eq!(h, n); // hashes equal heights on these linear chains
    }
    assert_eq!(v.last_finalized_number, target);
}

#[test]
fn finalize_3_voters_no_observers() {
    let peers: &[u64] = &[1, 2, 3];
    let tree = linear_chain(20);
    for i in 0..3 {
        assert!(tree.contains(20), "Peer #{} failed to sync", i);
    }
    let mut voters: Vec<Voter> = peers
        .iter()
        .enumerate()
        .map(|(peer_id, &key)| new_voter(&tree, Some(key), peer_id, peers))
        .collect();
    let mut routers: Vec<GossipRouter> = (0..voters.len()).map(|_| GossipRouter::new()).collect();
    run_until_finalized(&tree, &mut voters, &mut routers, 20);
    for v in voters.iter() {
        assert_consecutive(v, 20);
    }
}

#[test]
fn finalize_3_voters_1_observer() {
    let peers: &[u64] = &[1, 2, 3];
    let observer_key: u64 = 4;
    let tree = linear_chain(20);
    let mut voters: Vec<Voter> = peers
        .iter()
        .enumerate()
        .map(|(peer_id, &key)| new_voter(&tree, Some(key), peer_id, peers))
        .collect();
    voters.push(new_voter(&tree, None, 3, peers));
    let mut routers: Vec<GossipRouter> = (0..voters.len()).map(|_| GossipRouter::new()).collect();
    run_until_finalized(&tree, &mut voters, &mut routers, 20);
    for v in voters.iter() {
        assert_consecutive(v, 20);
    }
    // the observer cast no votes: no gossiped vote names it as author
    for round in 0..10u64 {
        for set_id in 0..3u64 {
            for payload in routers[0].messages_for(round, set_id).iter() {
                if let Some(m) = finality_grandpa::codec::decode_vote(payload) {
                    assert!(m.authority != observer_key);
                }
            }
        }
    }
}

#[test]
fn transition_3_voters_twice_1_observer() {
    let peers_a: &[u64] = &[1, 2, 3];
    let peers_b: &[u64] = &[4, 5, 6];
    let peers_c: &[u64] = &[1, 5, 7];
    let all_keys: &[u64] = &[1, 2, 3, 4, 5, 6, 7, 8];
    // key 8 never sits in any set: a permanent observer

    let tree = linear_chain(30);

    // the runtime schedules two changes: one at block 15 with delay 4
    // (effective at 19+), one at block 21 with delay 0 (effective at 21)
    let scheduled: Vec<(u64, ScheduledChange)> = vec![
        (15, ScheduledChange { next_authorities: make_ids(peers_b), delay: 4 }),
        (21, ScheduledChange { next_authorities: make_ids(peers_c), delay: 0 }),
    ];

    let mut voters: Vec<Voter> = all_keys
        .iter()
        .enumerate()
        .map(|(peer_id, &key)| new_voter(&tree, Some(key), peer_id, peers_a))
        .collect();

    // block import feeds each scheduled change into every node's set
    for (i, v) in voters.iter_mut().enumerate() {
        assert!(tree.contains(30), "Peer #{} failed to sync", i);
        for block in 1..=30u64 {
            let change = scheduled.iter().find(|(anchor, _)| *anchor == block).map(|(_, c)| {
                ScheduledChange {
                    next_authorities: c
                        .next_authorities
                        .iter()
                        .map(|a| Authority { id: a.id, weight: a.weight })
                        .collect(),
                    delay: c.delay,
                }
            });
            on_block_imported(&mut v.set, block, block, change).unwrap();
        }
        let (set_id, authorities) = v.set.current();
        assert_eq!(set_id, 0);
        assert_eq!(authorities, make_ids(peers_a));
        assert_eq!(v.set.pending.len(), 2);
    }

    let mut routers: Vec<GossipRouter> = (0..voters.len()).map(|_| GossipRouter::new()).collect();
    run_until_finalized(&tree, &mut voters, &mut routers, 30);

    for v in voters.iter() {
        assert_consecutive(v, 30);
        let (set_id, authorities) = v.set.current();
        assert_eq!(set_id, 2);
        assert_eq!(authorities, make_ids(peers_c));
        assert!(v.set.pending.is_empty());
    }
}
