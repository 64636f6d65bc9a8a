//! The byte encoding of gossiped messages.
//!
//! Votes and finality commits cross the wire as opaque byte payloads. The
//! encodings here are fixed-width and canonical: decoding succeeds exactly
//! on the bytes some message encodes to, and gives that message back.
//! Unparsable payloads are rejected locally and never fatal.

use vstd::prelude::*;
use vstd::bytes::{
    lemma_auto_spec_u64_to_from_le_bytes,
    spec_u64_to_le_bytes,
    u64_from_le_bytes,
    u64_to_le_bytes,
};
use vstd::slice::slice_subrange;

verus! {

/// The two vote stages a wire message can carry.
#[derive(Clone, Copy, PartialEq, Eq, Structural, Debug)]
pub enum VoteStage {
    Prevote,
    Precommit,
}

/// A vote as gossiped: where it belongs, what it votes for, who signed it.
/// The signature is opaque here; checking it is the voter's affair.
#[derive(Clone, Copy, PartialEq, Eq, Structural, Debug)]
pub struct VoteMessage {
    pub round_number: u64,
    pub set_id: u64,
    pub stage: VoteStage,
    pub authority: u64,
    pub target_hash: u64,
    pub target_number: u64,
    pub signature: u64,
}

/// A finality commit as gossiped: the round that concluded and the block it
/// finalized.
#[derive(Clone, Copy, PartialEq, Eq, Structural, Debug)]
pub struct CommitMessage {
    pub set_id: u64,
    pub round_number: u64,
    pub target_hash: u64,
    pub target_number: u64,
}

/// The width of an encoded vote.
pub const VOTE_MESSAGE_LEN: usize = 49;

/// The width of an encoded commit.
pub const COMMIT_MESSAGE_LEN: usize = 32;

/// The byte a stage encodes to.
pub open spec fn stage_byte(stage: VoteStage) -> u8 {
    match stage {
        VoteStage::Prevote => 0u8,
        VoteStage::Precommit => 1u8,
    }
}

/// The canonical encoding of a vote: the stage byte, then the six fields
/// little endian.
pub open spec fn encode_vote_spec(m: VoteMessage) -> Seq<u8> {
    seq![stage_byte(m.stage)] + spec_u64_to_le_bytes(m.round_number) + spec_u64_to_le_bytes(
        m.set_id,
    ) + spec_u64_to_le_bytes(m.authority) + spec_u64_to_le_bytes(m.target_hash)
        + spec_u64_to_le_bytes(m.target_number) + spec_u64_to_le_bytes(m.signature)
}

/// The canonical encoding of a commit: the four fields little endian.
pub open spec fn encode_commit_spec(m: CommitMessage) -> Seq<u8> {
    spec_u64_to_le_bytes(m.set_id) + spec_u64_to_le_bytes(m.round_number) + spec_u64_to_le_bytes(
        m.target_hash,
    ) + spec_u64_to_le_bytes(m.target_number)
}

/// Encodes a vote for gossip.
pub fn encode_vote(m: &VoteMessage) -> (r: Vec<u8>)
    ensures
        r@ == encode_vote_spec(*m),
        r@.len() == VOTE_MESSAGE_LEN,
{
    proof {
        lemma_auto_spec_u64_to_from_le_bytes();
    }
    let mut out: Vec<u8> = Vec::new();
    let b: u8 = match m.stage {
        VoteStage::Prevote => 0u8,
        VoteStage::Precommit => 1u8,
    };
    out.push(b);
    let mut part = u64_to_le_bytes(m.round_number);
    out.append(&mut part);
    let mut part = u64_to_le_bytes(m.set_id);
    out.append(&mut part);
    let mut part = u64_to_le_bytes(m.authority);
    out.append(&mut part);
    let mut part = u64_to_le_bytes(m.target_hash);
    out.append(&mut part);
    let mut part = u64_to_le_bytes(m.target_number);
    out.append(&mut part);
    let mut part = u64_to_le_bytes(m.signature);
    out.append(&mut part);
    proof {
        assert(out@ =~= encode_vote_spec(*m));
    }
    out
}

/// Encodes a commit for gossip.
pub fn encode_commit(m: &CommitMessage) -> (r: Vec<u8>)
    ensures
        r@ == encode_commit_spec(*m),
        r@.len() == COMMIT_MESSAGE_LEN,
{
    proof {
        lemma_auto_spec_u64_to_from_le_bytes();
    }
    let mut out = u64_to_le_bytes(m.set_id);
    let mut part = u64_to_le_bytes(m.round_number);
    out.append(&mut part);
    let mut part = u64_to_le_bytes(m.target_hash);
    out.append(&mut part);
    let mut part = u64_to_le_bytes(m.target_number);
    out.append(&mut part);
    proof {
        assert(out@ =~= encode_commit_spec(*m));
    }
    out
}

/// Decodes a vote payload: succeeds exactly on the bytes some vote encodes
/// to, and returns that vote.
pub fn decode_vote(bytes: &Vec<u8>) -> (r: Option<VoteMessage>)
    ensures
        match r {
            Some(m) => bytes@ == encode_vote_spec(m),
            None => forall|m: VoteMessage| bytes@ != #[trigger] encode_vote_spec(m),
        },
{
    proof {
        lemma_auto_spec_u64_to_from_le_bytes();
    }
    if bytes.len() != VOTE_MESSAGE_LEN {
        proof {
            assert forall|m: VoteMessage| bytes@ != #[trigger] encode_vote_spec(m) by {
                assert(encode_vote_spec(m).len() == 49);
            }
        }
        return None;
    }
    let s = bytes.as_slice();
    let b0 = *vstd::slice::slice_index_get(s, 0);
    let stage = if b0 == 0u8 {
        VoteStage::Prevote
    } else if b0 == 1u8 {
        VoteStage::Precommit
    } else {
        proof {
            assert forall|m: VoteMessage| bytes@ != #[trigger] encode_vote_spec(m) by {
                assert(encode_vote_spec(m)[0] == stage_byte(m.stage));
            }
        }
        return None;
    };
    let round_number = u64_from_le_bytes(slice_subrange(s, 1, 9));
    let set_id = u64_from_le_bytes(slice_subrange(s, 9, 17));
    let authority = u64_from_le_bytes(slice_subrange(s, 17, 25));
    let target_hash = u64_from_le_bytes(slice_subrange(s, 25, 33));
    let target_number = u64_from_le_bytes(slice_subrange(s, 33, 41));
    let signature = u64_from_le_bytes(slice_subrange(s, 41, 49));
    let m = VoteMessage {
        round_number,
        set_id,
        stage,
        authority,
        target_hash,
        target_number,
        signature,
    };
    proof {
        assert(spec_u64_to_le_bytes(round_number) =~= bytes@.subrange(1, 9));
        assert(spec_u64_to_le_bytes(set_id) =~= bytes@.subrange(9, 17));
        assert(spec_u64_to_le_bytes(authority) =~= bytes@.subrange(17, 25));
        assert(spec_u64_to_le_bytes(target_hash) =~= bytes@.subrange(25, 33));
        assert(spec_u64_to_le_bytes(target_number) =~= bytes@.subrange(33, 41));
        assert(spec_u64_to_le_bytes(signature) =~= bytes@.subrange(41, 49));
        assert(bytes@ =~= encode_vote_spec(m));
    }
    Some(m)
}

/// Decodes a commit payload, the same way.
pub fn decode_commit(bytes: &Vec<u8>) -> (r: Option<CommitMessage>)
    ensures
        match r {
            Some(m) => bytes@ == encode_commit_spec(m),
            None => forall|m: CommitMessage| bytes@ != #[trigger] encode_commit_spec(m),
        },
{
    proof {
        lemma_auto_spec_u64_to_from_le_bytes();
    }
    if bytes.len() != COMMIT_MESSAGE_LEN {
        proof {
            assert forall|m: CommitMessage| bytes@ != #[trigger] encode_commit_spec(m) by {
                assert(encode_commit_spec(m).len() == 32);
            }
        }
        return None;
    }
    let s = bytes.as_slice();
    let set_id = u64_from_le_bytes(slice_subrange(s, 0, 8));
    let round_number = u64_from_le_bytes(slice_subrange(s, 8, 16));
    let target_hash = u64_from_le_bytes(slice_subrange(s, 16, 24));
    let target_number = u64_from_le_bytes(slice_subrange(s, 24, 32));
    let m = CommitMessage { set_id, round_number, target_hash, target_number };
    proof {
        assert(spec_u64_to_le_bytes(set_id) =~= bytes@.subrange(0, 8));
        assert(spec_u64_to_le_bytes(round_number) =~= bytes@.subrange(8, 16));
        assert(spec_u64_to_le_bytes(target_hash) =~= bytes@.subrange(16, 24));
        assert(spec_u64_to_le_bytes(target_number) =~= bytes@.subrange(24, 32));
        assert(bytes@ =~= encode_commit_spec(m));
    }
    Some(m)
}

/// The encoding is injective: equal payloads mean equal votes.
pub proof fn lemma_encode_vote_injective(m1: VoteMessage, m2: VoteMessage)
    requires
        encode_vote_spec(m1) == encode_vote_spec(m2),
    ensures
        m1 == m2,
{
    lemma_auto_spec_u64_to_from_le_bytes();
    assert(encode_vote_spec(m1)[0] == stage_byte(m1.stage));
    assert(encode_vote_spec(m2)[0] == stage_byte(m2.stage));
    assert(encode_vote_spec(m1).subrange(1, 9) =~= spec_u64_to_le_bytes(m1.round_number));
    assert(encode_vote_spec(m2).subrange(1, 9) =~= spec_u64_to_le_bytes(m2.round_number));
    assert(encode_vote_spec(m1).subrange(9, 17) =~= spec_u64_to_le_bytes(m1.set_id));
    assert(encode_vote_spec(m2).subrange(9, 17) =~= spec_u64_to_le_bytes(m2.set_id));
    assert(encode_vote_spec(m1).subrange(17, 25) =~= spec_u64_to_le_bytes(m1.authority));
    assert(encode_vote_spec(m2).subrange(17, 25) =~= spec_u64_to_le_bytes(m2.authority));
    assert(encode_vote_spec(m1).subrange(25, 33) =~= spec_u64_to_le_bytes(m1.target_hash));
    assert(encode_vote_spec(m2).subrange(25, 33) =~= spec_u64_to_le_bytes(m2.target_hash));
    assert(encode_vote_spec(m1).subrange(33, 41) =~= spec_u64_to_le_bytes(m1.target_number));
    assert(encode_vote_spec(m2).subrange(33, 41) =~= spec_u64_to_le_bytes(m2.target_number));
    assert(encode_vote_spec(m1).subrange(41, 49) =~= spec_u64_to_le_bytes(m1.signature));
    assert(encode_vote_spec(m2).subrange(41, 49) =~= spec_u64_to_le_bytes(m2.signature));
    if m1.stage != m2.stage {
        assert(stage_byte(m1.stage) != stage_byte(m2.stage));
    }
}

} // verus!
