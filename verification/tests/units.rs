//! Unit tests: the wire codec, topic derivation, the authority set's
//! scheduling and enactment rules, the gossip router, and the round's tally
//! discipline.

use finality_grandpa::authorities::{Authority, AuthoritySet, ScheduledChange, SetError};
use finality_grandpa::chain::{Block, BlockTree, ChainError, GENESIS_HASH};
use finality_grandpa::codec::{
    decode_commit, decode_vote, encode_commit, encode_vote, CommitMessage, VoteMessage, VoteStage,
};
use finality_grandpa::import::{on_block_imported, ImportError, ImportOutcome, RuntimeAuthorities};
use finality_grandpa::network::GossipRouter;
use finality_grandpa::round::{Round, RoundStage, Vote, VoteOutcome};
use finality_grandpa::topics::{make_commit_topic, make_topic};
use finality_grandpa::voter::{Config, Voter};

fn weighted(ids: &[u64]) -> Vec<Authority> {
    ids.iter().map(|&id| Authority { id, weight: 1 }).collect()
}

fn chain(n: u64) -> BlockTree {
    let mut tree = BlockTree::new();
    for i in 1..=n {
        tree.add_block(i, i - 1).unwrap();
    }
    tree
}

fn config(key: Option<u64>) -> Config {
    Config { gossip_duration: 500, local_key: key, name: None }
}

#[test]
fn vote_codec_round_trip() {
    let m = VoteMessage {
        round_number: 7,
        set_id: 2,
        stage: VoteStage::Precommit,
        authority: 11,
        target_hash: 0xDEAD,
        target_number: 19,
        signature: 11,
    };
    let bytes = encode_vote(&m);
    assert_eq!(bytes.len(), 49);
    assert_eq!(decode_vote(&bytes), Some(m));
}

#[test]
fn vote_codec_rejects_garbage() {
    assert_eq!(decode_vote(&vec![]), None);
    assert_eq!(decode_vote(&vec![0u8; 48]), None);
    assert_eq!(decode_vote(&vec![0u8; 50]), None);
    let mut bad_stage = vec![0u8; 49];
    bad_stage[0] = 2;
    assert_eq!(decode_vote(&bad_stage), None);
}

#[test]
fn commit_codec_round_trip() {
    let m = CommitMessage { set_id: 1, round_number: 4, target_hash: 30, target_number: 30 };
    let bytes = encode_commit(&m);
    assert_eq!(bytes.len(), 32);
    assert_eq!(decode_commit(&bytes), Some(m));
    assert_eq!(decode_commit(&vec![1u8; 31]), None);
}

#[test]
fn topics_are_collision_free() {
    let a = make_topic(1, 0);
    let b = make_topic(2, 0);
    let c = make_topic(0, 1);
    let d = make_topic(1, 1);
    let e = make_commit_topic(0);
    let f = make_commit_topic(1);
    assert_eq!(a.len(), 32);
    assert_ne!(a, b);
    assert_ne!(a, c);
    assert_ne!(a, d);
    assert_ne!(b, c);
    assert_ne!(a, e);
    assert_ne!(e, f);
}

#[test]
fn duplicate_change_is_refused() {
    let mut set = AuthoritySet::genesis(weighted(&[1, 2, 3])).unwrap();
    let change = ScheduledChange { next_authorities: weighted(&[4, 5, 6]), delay: 4 };
    assert_eq!(set.add_pending_change(15, 15, change), Ok(()));
    let again = ScheduledChange { next_authorities: weighted(&[7, 8, 9]), delay: 0 };
    assert_eq!(set.add_pending_change(15, 15, again), Err(SetError::DuplicateChange));
    assert_eq!(set.pending.len(), 1);
    let (set_id, authorities) = set.current();
    assert_eq!(set_id, 0);
    assert_eq!(authorities, weighted(&[1, 2, 3]));
}

#[test]
fn apply_without_eligible_change_moves_nothing_twice() {
    let tree = chain(20);
    let mut set = AuthoritySet::genesis(weighted(&[1, 2, 3])).unwrap();
    let change = ScheduledChange { next_authorities: weighted(&[4, 5, 6]), delay: 4 };
    set.add_pending_change(15, 15, change).unwrap();
    // effective at 19: finalizing 10 enacts nothing, twice over
    assert_eq!(set.apply_changes_up_to(&tree, 10, 10), None);
    let (id_once, auths_once) = set.current();
    let pending_once = set.pending.len();
    assert_eq!(set.apply_changes_up_to(&tree, 10, 10), None);
    let (id_twice, auths_twice) = set.current();
    assert_eq!(id_once, id_twice);
    assert_eq!(auths_once, auths_twice);
    assert_eq!(pending_once, set.pending.len());
}

#[test]
fn apply_enacts_at_the_effective_height() {
    let tree = chain(20);
    let mut set = AuthoritySet::genesis(weighted(&[1, 2, 3])).unwrap();
    let change = ScheduledChange { next_authorities: weighted(&[4, 5, 6]), delay: 4 };
    set.add_pending_change(15, 15, change).unwrap();
    let enacted = set.apply_changes_up_to(&tree, 19, 19).unwrap();
    assert_eq!(enacted.0, 1);
    assert_eq!(enacted.1, weighted(&[4, 5, 6]));
    let (set_id, authorities) = set.current();
    assert_eq!(set_id, 1);
    assert_eq!(authorities, weighted(&[4, 5, 6]));
    assert!(set.pending.is_empty());
}

#[test]
fn malformed_changes_fail_import() {
    let mut set = AuthoritySet::genesis(weighted(&[1, 2, 3])).unwrap();
    // a delay overrunning the height type would trigger "before" its block
    let overflow = ScheduledChange { next_authorities: weighted(&[4]), delay: u64::MAX };
    assert_eq!(on_block_imported(&mut set, 5, 5, Some(overflow)), Err(ImportError::MalformedChange));
    // an empty next list is unusable
    let empty = ScheduledChange { next_authorities: vec![], delay: 0 };
    assert_eq!(on_block_imported(&mut set, 5, 5, Some(empty)), Err(ImportError::MalformedChange));
    // a zero weight is unusable
    let zero = ScheduledChange {
        next_authorities: vec![Authority { id: 4, weight: 0 }],
        delay: 0,
    };
    assert_eq!(on_block_imported(&mut set, 5, 5, Some(zero)), Err(ImportError::MalformedChange));
    assert_eq!(on_block_imported(&mut set, 5, 5, None), Ok(ImportOutcome::NoChange));
    assert!(set.pending.is_empty());
}

#[test]
fn runtime_accessor_answers_by_anchor() {
    let api = RuntimeAuthorities {
        genesis_authorities: weighted(&[1, 2, 3]),
        scheduled: vec![(15, ScheduledChange { next_authorities: weighted(&[4]), delay: 4 })],
    };
    assert_eq!(api.genesis_list(), weighted(&[1, 2, 3]));
    let hit = api.pending_change(15).unwrap();
    assert_eq!(hit.delay, 4);
    assert_eq!(hit.next_authorities, weighted(&[4]));
    assert!(api.pending_change(14).is_none());
}

#[test]
fn drop_messages_is_idempotent() {
    let mut router = GossipRouter::new();
    router.send_message(1, 0, vec![1, 2, 3]);
    router.send_message(1, 0, vec![4, 5, 6]);
    router.send_message(2, 0, vec![7]);
    assert_eq!(router.messages_for(1, 0).len(), 2);
    router.drop_messages(1, 0);
    assert_eq!(router.messages_for(1, 0).len(), 0);
    router.drop_messages(1, 0);
    assert_eq!(router.messages_for(1, 0).len(), 0);
    // the other round's topic is untouched
    assert_eq!(router.messages_for(2, 0), vec![vec![7u8]]);
    // commits travel apart from votes
    router.send_commit(0, vec![9]);
    assert_eq!(router.commit_messages(0), vec![vec![9u8]]);
    assert_eq!(router.messages_for(1, 0).len(), 0);
}

#[test]
fn equivocation_is_recorded_and_excluded() {
    let tree = chain(10);
    let mut round = Round::new(0, 1, weighted(&[1, 2, 3]));
    let first = Vote { authority: 1, target_hash: 10, target_number: 10 };
    let second = Vote { authority: 1, target_hash: 9, target_number: 9 };
    assert_eq!(round.import_prevote(&tree, first), VoteOutcome::Counted);
    assert_eq!(round.import_prevote(&tree, first), VoteOutcome::Duplicate);
    assert_eq!(round.import_prevote(&tree, second), VoteOutcome::Equivocation);
    assert_eq!(round.prevotes.len(), 1);
    assert_eq!(round.prevotes[0], first);
    assert_eq!(round.prevote_equivocators, vec![1u64]);
}

#[test]
fn strangers_and_unknown_blocks_are_dropped() {
    let tree = chain(10);
    let mut round = Round::new(0, 1, weighted(&[1, 2, 3]));
    let stranger = Vote { authority: 9, target_hash: 10, target_number: 10 };
    assert_eq!(round.import_prevote(&tree, stranger), VoteOutcome::UnknownVoter);
    let unknown = Vote { authority: 1, target_hash: 77, target_number: 5 };
    assert_eq!(round.import_prevote(&tree, unknown), VoteOutcome::UnknownTarget);
    let wrong_height = Vote { authority: 1, target_hash: 10, target_number: 9 };
    assert_eq!(round.import_prevote(&tree, wrong_height), VoteOutcome::UnknownTarget);
    assert!(round.prevotes.is_empty());
}

#[test]
fn round_completes_only_with_true_supermajority() {
    let tree = chain(10);
    let mut round = Round::new(0, 1, weighted(&[1, 2, 3]));
    // two of three equal weights is not strictly more than two thirds
    for &a in &[1u64, 2] {
        round.import_prevote(&tree, Vote { authority: a, target_hash: 10, target_number: 10 });
    }
    assert!(!round.complete_prevote_stage(&tree));
    round.import_prevote(&tree, Vote { authority: 3, target_hash: 10, target_number: 10 });
    assert!(round.complete_prevote_stage(&tree));
    assert_eq!(round.stage, RoundStage::Precommitting);
    assert_eq!(round.prevote_ghost, Some((10, 10)));
    for &a in &[1u64, 2] {
        round.import_precommit(&tree, Vote { authority: a, target_hash: 10, target_number: 10 });
    }
    assert_eq!(round.try_complete(&tree), None);
    round.import_precommit(&tree, Vote { authority: 3, target_hash: 10, target_number: 10 });
    assert_eq!(round.try_complete(&tree), Some((10, 10)));
    assert_eq!(round.stage, RoundStage::Completed);
    assert_eq!(round.finalized, Some((10, 10)));
}

#[test]
fn timeout_closes_a_stage_without_full_participation() {
    // four equal voters: three of four exceed two thirds, the fourth stays
    // silent, and only the timeout closes the stage
    let tree = chain(10);
    let mut round = Round::new(0, 1, weighted(&[1, 2, 3, 4]));
    for &a in &[1u64, 2, 3] {
        round.import_prevote(&tree, Vote { authority: a, target_hash: 10, target_number: 10 });
    }
    assert!(!round.all_prevoted());
    assert!(round.complete_prevote_stage(&tree));
    assert_eq!(round.prevote_ghost, Some((10, 10)));
    for &a in &[1u64, 2, 3] {
        round.import_precommit(&tree, Vote { authority: a, target_hash: 10, target_number: 10 });
    }
    assert_eq!(round.try_complete(&tree), Some((10, 10)));
}

#[test]
fn ghost_follows_the_supermajority_across_forks() {
    // a fork: 0-1-2-3 and 0-1-102-103
    let mut tree = BlockTree::new();
    tree.add_block(1, GENESIS_HASH).unwrap();
    tree.add_block(2, 1).unwrap();
    tree.add_block(3, 2).unwrap();
    tree.add_block(102, 1).unwrap();
    tree.add_block(103, 102).unwrap();
    assert!(tree.ancestor_check(1, 103));
    assert!(!tree.ancestor_check(2, 103));
    let mut round = Round::new(0, 1, weighted(&[1, 2, 3]));
    round.import_prevote(&tree, Vote { authority: 1, target_hash: 3, target_number: 3 });
    round.import_prevote(&tree, Vote { authority: 2, target_hash: 103, target_number: 3 });
    round.import_prevote(&tree, Vote { authority: 3, target_hash: 2, target_number: 2 });
    // all three support block 1's line, but the tips split the vote
    assert!(round.complete_prevote_stage(&tree));
    assert_eq!(round.prevote_ghost, Some((1, 1)));
}

#[test]
fn chain_refuses_bad_blocks() {
    let mut tree = chain(3);
    assert_eq!(tree.add_block(2, 1), Err(ChainError::DuplicateBlock));
    assert_eq!(tree.add_block(9, 77), Err(ChainError::UnknownParent));
    assert_eq!(tree.get(2), Some(Block { hash: 2, number: 2, parent: 1 }));
    assert_eq!(tree.get(9), None);
    let best = tree.best_containing(0).unwrap();
    assert_eq!((best.hash, best.number), (3, 3));
}

#[test]
fn observer_mode_casts_nothing() {
    let tree = chain(5);
    let voter = Voter::new(config(None), weighted(&[1, 2, 3]), &tree).unwrap();
    assert!(voter.cast_prevote(&tree).is_none());
    // a key outside the set casts nothing either
    let stranger = Voter::new(config(Some(9)), weighted(&[1, 2, 3]), &tree).unwrap();
    assert!(stranger.cast_prevote(&tree).is_none());
}

#[test]
fn vote_target_stops_at_a_pending_change() {
    let tree = chain(30);
    let mut voter = Voter::new(config(Some(1)), weighted(&[1, 2, 3]), &tree).unwrap();
    let change = ScheduledChange { next_authorities: weighted(&[4, 5, 6]), delay: 4 };
    on_block_imported(&mut voter.set, 15, 15, Some(change)).unwrap();
    // best is 30, but the change takes effect at 19: vote exactly there
    assert_eq!(voter.vote_target(&tree), (19, 19));
    let m = voter.cast_prevote(&tree).unwrap();
    assert_eq!((m.target_hash, m.target_number), (19, 19));
    assert_eq!(m.signature, 1);
    assert_eq!(m.stage, VoteStage::Prevote);
}

#[test]
fn commits_advance_a_lagging_voter() {
    let tree = chain(10);
    let mut voter = Voter::new(config(None), weighted(&[1, 2, 3]), &tree).unwrap();
    let commit = CommitMessage { set_id: 0, round_number: 3, target_hash: 5, target_number: 5 };
    assert!(voter.apply_commit(&tree, commit));
    assert_eq!(voter.last_finalized_number, 5);
    assert_eq!(voter.notifications.len(), 5);
    // the same commit again moves nothing: it no longer extends the line
    assert!(!voter.apply_commit(&tree, commit));
    assert_eq!(voter.notifications.len(), 5);
    // a commit for another set, an unknown block, or a wrong height is dropped
    let wrong_set = CommitMessage { set_id: 1, round_number: 3, target_hash: 7, target_number: 7 };
    assert!(!voter.apply_commit(&tree, wrong_set));
    let unknown = CommitMessage { set_id: 0, round_number: 3, target_hash: 77, target_number: 7 };
    assert!(!voter.apply_commit(&tree, unknown));
    let wrong_height = CommitMessage { set_id: 0, round_number: 3, target_hash: 7, target_number: 8 };
    assert!(!voter.apply_commit(&tree, wrong_height));
    assert_eq!(voter.last_finalized_number, 5);
}

#[test]
fn commits_enact_triggered_changes() {
    let tree = chain(30);
    let mut voter = Voter::new(config(Some(1)), weighted(&[1, 2, 3]), &tree).unwrap();
    let change = ScheduledChange { next_authorities: weighted(&[4, 5, 6]), delay: 4 };
    on_block_imported(&mut voter.set, 15, 15, Some(change)).unwrap();
    let commit = CommitMessage { set_id: 0, round_number: 2, target_hash: 19, target_number: 19 };
    assert!(voter.apply_commit(&tree, commit));
    let (set_id, authorities) = voter.set.current();
    assert_eq!(set_id, 1);
    assert_eq!(authorities, weighted(&[4, 5, 6]));
    assert_eq!(voter.round.round_number, 0);
    assert_eq!(voter.round.set_id, 1);
}

#[test]
fn two_tallies_of_one_round_agree_on_one_line() {
    // two voters' tallies for one round, gossip delivered in different
    // orders and subsets, never finalize different forks
    let mut tree = BlockTree::new();
    tree.add_block(1, GENESIS_HASH).unwrap();
    tree.add_block(2, 1).unwrap();
    tree.add_block(102, 1).unwrap();
    let votes = [
        Vote { authority: 1, target_hash: 2, target_number: 2 },
        Vote { authority: 2, target_hash: 2, target_number: 2 },
        Vote { authority: 3, target_hash: 102, target_number: 2 },
        Vote { authority: 4, target_hash: 1, target_number: 1 },
    ];
    let mut round_a = Round::new(0, 1, weighted(&[1, 2, 3, 4]));
    let mut round_b = Round::new(0, 1, weighted(&[1, 2, 3, 4]));
    for v in votes.iter() {
        round_a.import_prevote(&tree, *v);
        round_a.import_precommit(&tree, *v);
    }
    for v in votes.iter().rev().take(3) {
        round_b.import_prevote(&tree, *v);
        round_b.import_precommit(&tree, *v);
    }
    assert!(round_a.complete_prevote_stage(&tree));
    assert!(round_b.complete_prevote_stage(&tree));
    let fa = round_a.try_complete(&tree).unwrap();
    let fb = round_b.try_complete(&tree).unwrap();
    // block 1 carries the only supermajority either way: the same line
    assert_eq!(fa, (1, 1));
    assert_eq!(fb, (1, 1));
    assert!(tree.ancestor_check(fa.0, fb.0) || tree.ancestor_check(fb.0, fa.0));
}

#[test]
fn genesis_needs_a_usable_list() {
    let tree = chain(1);
    assert!(Voter::new(config(None), vec![], &tree).is_err());
    let zero_weight = AuthoritySet::genesis(vec![Authority { id: 1, weight: 0 }]);
    assert_eq!(zero_weight.err(), Some(SetError::InvalidAuthorities));
    let repeated_id = AuthoritySet::genesis(weighted(&[1, 1]));
    assert_eq!(repeated_id.err(), Some(SetError::InvalidAuthorities));
}
