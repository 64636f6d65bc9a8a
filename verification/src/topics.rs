//! Gossip topic derivation.
//!
//! Round messages travel under a topic derived from the round number and the
//! authority-set id; finality commits travel under a per-set topic. The
//! derivation is collision-free: distinct `(round, set id)` pairs give
//! distinct round topics, distinct set ids give distinct commit topics, and
//! no round topic ever equals a commit topic.

use vstd::prelude::*;
use vstd::bytes::{
    lemma_auto_spec_u64_to_from_le_bytes,
    spec_u64_to_le_bytes,
    u64_to_le_bytes,
};

verus! {

/// The length of every topic, in bytes.
pub const TOPIC_LEN: usize = 32;

/// The round topic: the round number and the set id, little endian, followed
/// by zero padding.
pub open spec fn topic_spec(round: u64, set_id: u64) -> Seq<u8> {
    spec_u64_to_le_bytes(round) + spec_u64_to_le_bytes(set_id) + Seq::new(16, |i: int| 0u8)
}

/// The commit topic: zero padding, the marker bytes spelling `commit`, two
/// zero bytes, then the set id little endian.
pub open spec fn commit_topic_spec(set_id: u64) -> Seq<u8> {
    Seq::new(16, |i: int| 0u8) + seq![0x63u8, 0x6fu8, 0x6du8, 0x6du8, 0x69u8, 0x74u8]
        + seq![0u8, 0u8] + spec_u64_to_le_bytes(set_id)
}

/// Derives the gossip topic of one round under one authority set.
pub fn make_topic(round: u64, set_id: u64) -> (t: Vec<u8>)
    ensures
        t@ == topic_spec(round, set_id),
        t@.len() == TOPIC_LEN,
{
    proof {
        lemma_auto_spec_u64_to_from_le_bytes();
    }
    let mut t = u64_to_le_bytes(round);
    let mut s = u64_to_le_bytes(set_id);
    t.append(&mut s);
    let mut i: usize = 0;
    while i < 16
        invariant
            0 <= i <= 16,
            t@ == spec_u64_to_le_bytes(round) + spec_u64_to_le_bytes(set_id) + Seq::new(
                i as nat,
                |k: int| 0u8,
            ),
        decreases 16 - i,
    {
        t.push(0u8);
        proof {
            assert(t@ =~= spec_u64_to_le_bytes(round) + spec_u64_to_le_bytes(set_id) + Seq::new(
                (i + 1) as nat,
                |k: int| 0u8,
            ));
        }
        i = i + 1;
    }
    proof {
        assert(t@ =~= topic_spec(round, set_id));
    }
    t
}

/// Derives the gossip topic of one authority set's finality commits.
pub fn make_commit_topic(set_id: u64) -> (t: Vec<u8>)
    ensures
        t@ == commit_topic_spec(set_id),
        t@.len() == TOPIC_LEN,
{
    proof {
        lemma_auto_spec_u64_to_from_le_bytes();
    }
    let mut t: Vec<u8> = Vec::new();
    let mut i: usize = 0;
    while i < 16
        invariant
            0 <= i <= 16,
            t@ == Seq::new(i as nat, |k: int| 0u8),
        decreases 16 - i,
    {
        t.push(0u8);
        proof {
            assert(t@ =~= Seq::new((i + 1) as nat, |k: int| 0u8));
        }
        i = i + 1;
    }
    t.push(0x63u8);
    t.push(0x6fu8);
    t.push(0x6du8);
    t.push(0x6du8);
    t.push(0x69u8);
    t.push(0x74u8);
    t.push(0u8);
    t.push(0u8);
    let mut s = u64_to_le_bytes(set_id);
    t.append(&mut s);
    proof {
        assert(t@ =~= commit_topic_spec(set_id));
    }
    t
}

/// Round topics are collision-free across `(round, set id)` pairs.
pub proof fn lemma_topic_injective(r1: u64, s1: u64, r2: u64, s2: u64)
    requires
        topic_spec(r1, s1) == topic_spec(r2, s2),
    ensures
        r1 == r2,
        s1 == s2,
{
    lemma_auto_spec_u64_to_from_le_bytes();
    assert(topic_spec(r1, s1).subrange(0, 8) =~= spec_u64_to_le_bytes(r1));
    assert(topic_spec(r2, s2).subrange(0, 8) =~= spec_u64_to_le_bytes(r2));
    assert(topic_spec(r1, s1).subrange(8, 16) =~= spec_u64_to_le_bytes(s1));
    assert(topic_spec(r2, s2).subrange(8, 16) =~= spec_u64_to_le_bytes(s2));
}

/// Commit topics are collision-free across set ids.
pub proof fn lemma_commit_topic_injective(s1: u64, s2: u64)
    requires
        commit_topic_spec(s1) == commit_topic_spec(s2),
    ensures
        s1 == s2,
{
    lemma_auto_spec_u64_to_from_le_bytes();
    assert(commit_topic_spec(s1).subrange(24, 32) =~= spec_u64_to_le_bytes(s1));
    assert(commit_topic_spec(s2).subrange(24, 32) =~= spec_u64_to_le_bytes(s2));
}

/// A round topic never equals a commit topic: the marker bytes differ.
pub proof fn lemma_topic_kinds_disjoint(round: u64, set_id: u64, commit_set_id: u64)
    ensures
        topic_spec(round, set_id) != commit_topic_spec(commit_set_id),
{
    lemma_auto_spec_u64_to_from_le_bytes();
    assert(topic_spec(round, set_id)[16] == 0u8);
    assert(commit_topic_spec(commit_set_id)[16] == 0x63u8);
}

} // verus!
