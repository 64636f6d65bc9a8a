//! A round-based finality layer for a block-producing chain: it does not
//! produce blocks, it finalizes them, assigning an irreversible commitment
//! to a prefix of an existing, possibly forking, block tree.
//!
//! The pieces, leaves first: the local model of the block tree ([`chain`]);
//! the active validator set with its pending, block-anchored changes
//! ([`authorities`]); one prevote/precommit voting round with its
//! supermajority rule ([`round`]); the byte encoding of gossiped votes and
//! commits ([`codec`]); topic derivation and an in-process gossip router
//! ([`topics`], [`network`]); the hook that feeds scheduled changes from
//! block import into the authority set ([`import`]); and the voter runtime
//! that drives round succession and emits finality notifications
//! ([`voter`]).
//!
//! Safety rests on the supermajority-link rule alone: two blocks that both
//! gather more than two thirds of the voting weight in one tally lie on one
//! line ([`round::lemma_supermajority_agreement`]), so a round never
//! finalizes two sides of a fork, and a voter's finality stream is a single
//! strictly increasing chain ([`voter::lemma_finality_stream_chain`]).

pub mod authorities;
pub mod chain;
pub mod codec;
pub mod import;
pub mod network;
pub mod round;
pub mod tally;
pub mod topics;
pub mod voter;
