//! The voter runtime: round succession for one local identity.
//!
//! A voter drives one active round at a time. It casts votes when it holds a
//! local key whose owner sits in the active set (an observer holds none and
//! only watches), imports gossiped votes into the round, closes stages when
//! participation is complete or the gossip timeout fires, and on completion
//! finalizes: it emits one notification per newly finalized height, in
//! strictly increasing order along one line, enacts any authority change the
//! finalized block triggers, and opens the next round — numbered one higher,
//! or restarted at 0 under a fresh set id.
//!
//! The event loop around this — gossip delivery, timers, teardown of
//! superseded topics — is the caller's: every decision it needs is a
//! function in here with a contract.

use vstd::prelude::*;
use crate::authorities::{
    AuthoritySet,
    Authority,
    copy_authorities,
    kept_changes,
    pick_eligible,
    valid_authorities,
};
use crate::chain::BlockTree;
use crate::codec::{CommitMessage, VoteMessage, VoteStage, decode_vote};
use crate::authorities::has_authority;
use crate::round::{Round, RoundStage, Vote, VoteOutcome, import_transition, weight_lookup};

verus! {

/// The recognised options: the per-stage gossip timeout, the optional local
/// signing identity (absent means observer mode), and a diagnostic label
/// with no protocol effect.
#[derive(Debug)]
pub struct Config {
    pub gossip_duration: u64,
    pub local_key: Option<u64>,
    pub name: Option<String>,
}

/// The vote a wire message carries.
pub open spec fn vote_of(m: VoteMessage) -> Vote {
    Vote { authority: m.authority, target_hash: m.target_hash, target_number: m.target_number }
}

/// A finality stream so far: every entry a known block at its height, each
/// entry an ancestor of the next, heights strictly increasing.
pub open spec fn chain_ok(tree: BlockTree, s: Seq<(u64, u64)>) -> bool {
    &&& forall|i: int|
        0 <= i < s.len() ==> tree.has_block((#[trigger] s[i]).0) && s[i].1 == tree.number_of(
            s[i].0,
        )
    &&& forall|i: int|
        0 <= i < s.len() - 1 ==> tree.is_ancestor((#[trigger] s[i]).0, s[i + 1].0) && s[i].1 < s[i
            + 1].1
}

/// One voter instance: its configuration, the shared authority-set record,
/// the active round, the last finalized block, and the finality stream it
/// has emitted.
#[derive(Debug)]
pub struct Voter {
    pub config: Config,
    pub set: AuthoritySet,
    pub round: Round,
    pub last_finalized_hash: u64,
    pub last_finalized_number: u64,
    pub notifications: Vec<(u64, u64)>,
}

impl Voter {
    /// Voter well-formedness against the local block tree.
    pub open spec fn wf(self, tree: BlockTree) -> bool {
        &&& self.set.wf()
        &&& self.round.wf(tree)
        &&& self.round.set_id == self.set.set_id
        &&& self.round.authorities@ == self.set.authorities@
        &&& tree.has_block(self.last_finalized_hash)
        &&& self.last_finalized_number == tree.number_of(self.last_finalized_hash)
        &&& chain_ok(tree, self.notifications@)
        &&& self.notifications@.len() > 0 ==> self.notifications@.last() == (
        self.last_finalized_hash, self.last_finalized_number)
    }

    /// A voter starting cold at genesis: set id 0, round 1, nothing
    /// finalized beyond the genesis block, no notifications yet. Fails
    /// exactly when the genesis authority list is unusable.
    pub fn new(config: Config, genesis_list: Vec<Authority>, tree: &BlockTree) -> (r: Result<
        Voter,
        crate::authorities::SetError,
    >)
        requires
            tree.wf(),
        ensures
            match r {
                Ok(v) => {
                    &&& valid_authorities(genesis_list@)
                    &&& v.wf(*tree)
                    &&& v.set.set_id == 0
                    &&& v.set.authorities@ == genesis_list@
                    &&& v.set.pending@.len() == 0
                    &&& v.round.round_number == 1
                    &&& v.round.stage == RoundStage::Prevoting
                    &&& v.last_finalized_hash == crate::chain::GENESIS_HASH
                    &&& v.last_finalized_number == 0
                    &&& v.notifications@.len() == 0
                    &&& v.config == config
                },
                Err(e) => e == crate::authorities::SetError::InvalidAuthorities
                    && !valid_authorities(genesis_list@),
            },
    {
        let snapshot = copy_authorities(&genesis_list);
        let set = match AuthoritySet::genesis(genesis_list) {
            Ok(s) => s,
            Err(e) => {
                return Err(e);
            },
        };
        let round = Round::new(0, 1, snapshot);
        proof {
            assert(tree.seq()[0].hash == crate::chain::GENESIS_HASH);
            assert(tree.has_block(crate::chain::GENESIS_HASH));
            tree.lemma_lookup(crate::chain::GENESIS_HASH);
        }
        Ok(
            Voter {
                config,
                set,
                round,
                last_finalized_hash: crate::chain::GENESIS_HASH,
                last_finalized_number: 0,
                notifications: Vec::new(),
            },
        )
    }

    /// The block the voter votes for: the best block on the line through the
    /// last finalized block, pulled back to the lowest effective height of a
    /// pending change binding that line — the current set must not vote past
    /// the point where its successor takes over — and never below what is
    /// already final.
    pub fn vote_target(&self, tree: &BlockTree) -> (r: (u64, u64))
        requires
            self.wf(*tree),
            tree.wf(),
        ensures
            tree.has_block(r.0),
            r.1 == tree.number_of(r.0),
            tree.is_ancestor(self.last_finalized_hash, r.0),
            ({
                let best = tree.best_containing_spec(self.last_finalized_hash)->Some_0;
                &&& tree.is_ancestor(r.0, best.hash)
                &&& r.1 == (match self.set.bound_spec(*tree, best.hash) {
                    None => best.number as int,
                    Some(m) => if m < self.last_finalized_number {
                        self.last_finalized_number as int
                    } else if m < best.number {
                        m
                    } else {
                        best.number as int
                    },
                })
            }),
    {
        let best = match tree.best_containing(self.last_finalized_hash) {
            Some(b) => b,
            None => {
                proof {
                    assert(false);
                }
                unreached()
            },
        };
        proof {
            tree.lemma_best_from(self.last_finalized_hash, tree.seq().len() as int);
        }
        let target_number: u64 = match self.set.next_change_bound(tree, best.hash) {
            None => best.number,
            Some(m) => {
                if m < self.last_finalized_number {
                    self.last_finalized_number
                } else if m < best.number {
                    m
                } else {
                    best.number
                }
            },
        };
        let th = tree.ancestor_at(best.hash, target_number);
        proof {
            tree.lemma_ancestor_chain(self.last_finalized_hash, th, best.hash);
            if tree.is_ancestor(th, self.last_finalized_hash) {
                tree.lemma_ancestor_number(th, self.last_finalized_hash);
                tree.lemma_same_height(th, self.last_finalized_hash);
            }
        }
        (th, target_number)
    }

    /// The prevote to broadcast at the start of a round: `Some` exactly when
    /// the voter holds a key belonging to the active set. Observers and
    /// strangers cast nothing. The message names the current round and set,
    /// targets `vote_target`, and is signed by its author.
    pub fn cast_prevote(&self, tree: &BlockTree) -> (r: Option<VoteMessage>)
        requires
            self.wf(*tree),
            tree.wf(),
            self.round.stage == RoundStage::Prevoting,
        ensures
            match r {
                Some(m) => {
                    &&& self.config.local_key == Some(m.authority)
                    &&& has_authority(self.set.authorities@, m.authority)
                    &&& m.round_number == self.round.round_number
                    &&& m.set_id == self.set.set_id
                    &&& m.stage == VoteStage::Prevote
                    &&& m.signature == m.authority
                    &&& tree.has_block(m.target_hash)
                    &&& m.target_number == tree.number_of(m.target_hash)
                    &&& tree.is_ancestor(self.last_finalized_hash, m.target_hash)
                    &&& ({
                        // the prevote targets the best-chain estimate, pulled
                        // back exactly as vote_target says
                        let best = tree.best_containing_spec(self.last_finalized_hash)->Some_0;
                        &&& tree.is_ancestor(m.target_hash, best.hash)
                        &&& m.target_number == (match self.set.bound_spec(*tree, best.hash) {
                            None => best.number as int,
                            Some(b) => if b < self.last_finalized_number {
                                self.last_finalized_number as int
                            } else if b < best.number {
                                b
                            } else {
                                best.number as int
                            },
                        })
                    })
                },
                None => match self.config.local_key {
                    Some(k) => !has_authority(self.set.authorities@, k),
                    None => true,
                },
            },
    {
        let k = match self.config.local_key {
            Some(k) => k,
            None => {
                return None;
            },
        };
        let w = weight_lookup(&self.set.authorities, k);
        proof {
            crate::authorities::lemma_weight_of(self.set.authorities@, k);
        }
        if w == 0 {
            return None;
        }
        let (th, tn) = self.vote_target(tree);
        Some(
            VoteMessage {
                round_number: self.round.round_number,
                set_id: self.set.set_id,
                stage: VoteStage::Prevote,
                authority: k,
                target_hash: th,
                target_number: tn,
                signature: k,
            },
        )
    }

    /// The precommit to broadcast once the prevote stage closed: the local
    /// key's vote for the round's prevote ghost. `Some` exactly when the
    /// voter holds a key of the active set.
    pub fn cast_precommit(&self, tree: &BlockTree) -> (r: Option<VoteMessage>)
        requires
            self.wf(*tree),
            tree.wf(),
            self.round.stage == RoundStage::Precommitting,
        ensures
            match r {
                Some(m) => {
                    &&& self.config.local_key == Some(m.authority)
                    &&& has_authority(self.set.authorities@, m.authority)
                    &&& m.round_number == self.round.round_number
                    &&& m.set_id == self.set.set_id
                    &&& m.stage == VoteStage::Precommit
                    &&& m.signature == m.authority
                    &&& Some((m.target_hash, m.target_number)) == self.round.prevote_ghost
                },
                None => match self.config.local_key {
                    Some(k) => !has_authority(self.set.authorities@, k),
                    None => true,
                },
            },
    {
        let k = match self.config.local_key {
            Some(k) => k,
            None => {
                return None;
            },
        };
        let w = weight_lookup(&self.set.authorities, k);
        proof {
            crate::authorities::lemma_weight_of(self.set.authorities@, k);
        }
        if w == 0 {
            return None;
        }
        let g = match self.round.prevote_ghost {
            Some(g) => g,
            None => {
                proof {
                    assert(false);
                }
                unreached()
            },
        };
        Some(
            VoteMessage {
                round_number: self.round.round_number,
                set_id: self.set.set_id,
                stage: VoteStage::Precommit,
                authority: k,
                target_hash: g.0,
                target_number: g.1,
                signature: k,
            },
        )
    }

    /// Takes one gossiped payload. Unparsable bytes, messages for another
    /// round or set, and bad signatures are dropped on the spot — never
    /// fatal, never imported. A valid current-round vote moves exactly the
    /// tally of its stage, as `import_transition` says.
    pub fn handle_payload(&mut self, tree: &BlockTree, payload: &Vec<u8>)
        requires
            old(self).wf(*tree),
            tree.wf(),
        ensures
            final(self).wf(*tree),
            final(self).set == old(self).set,
            final(self).config == old(self).config,
            final(self).notifications == old(self).notifications,
            final(self).last_finalized_hash == old(self).last_finalized_hash,
            final(self).last_finalized_number == old(self).last_finalized_number,
            final(self).round.stage == old(self).round.stage,
            final(self).round.prevote_ghost == old(self).round.prevote_ghost,
            final(self).round.finalized == old(self).round.finalized,
            (forall|m: VoteMessage| payload@ != #[trigger] crate::codec::encode_vote_spec(m))
                ==> *final(self) == *old(self),
            forall|m: VoteMessage|
                payload@ == #[trigger] crate::codec::encode_vote_spec(m) ==> {
                    if m.set_id != old(self).set.set_id || m.round_number != old(
                        self,
                    ).round.round_number || m.signature != m.authority {
                        *final(self) == *old(self)
                    } else if m.stage == VoteStage::Prevote {
                        final(self).round.precommits == old(self).round.precommits
                            && final(self).round.precommit_equivocators == old(
                            self,
                        ).round.precommit_equivocators && exists|r: VoteOutcome|
                            import_transition(
                                old(self).round.authorities@,
                                *tree,
                                old(self).round.prevotes@,
                                old(self).round.prevote_equivocators@,
                                final(self).round.prevotes@,
                                final(self).round.prevote_equivocators@,
                                vote_of(m),
                                r,
                            )
                    } else {
                        final(self).round.prevotes == old(self).round.prevotes
                            && final(self).round.prevote_equivocators == old(
                            self,
                        ).round.prevote_equivocators && exists|r: VoteOutcome|
                            import_transition(
                                old(self).round.authorities@,
                                *tree,
                                old(self).round.precommits@,
                                old(self).round.precommit_equivocators@,
                                final(self).round.precommits@,
                                final(self).round.precommit_equivocators@,
                                vote_of(m),
                                r,
                            )
                    }
                },
    {
        let m = match decode_vote(payload) {
            Some(m) => m,
            None => {
                return ;
            },
        };
        proof {
            assert forall|m2: VoteMessage|
                payload@ == #[trigger] crate::codec::encode_vote_spec(m2) implies m2 == m by {
                crate::codec::lemma_encode_vote_injective(m, m2);
            }
        }
        if m.set_id != self.set.set_id || m.round_number != self.round.round_number {
            return ;
        }
        if m.signature != m.authority {
            return ;
        }
        let vote = Vote {
            authority: m.authority,
            target_hash: m.target_hash,
            target_number: m.target_number,
        };
        match m.stage {
            VoteStage::Prevote => {
                let r = self.round.import_prevote(tree, vote);
                proof {
                    assert(import_transition(
                        old(self).round.authorities@,
                        *tree,
                        old(self).round.prevotes@,
                        old(self).round.prevote_equivocators@,
                        self.round.prevotes@,
                        self.round.prevote_equivocators@,
                        vote_of(m),
                        r,
                    ));
                }
            },
            VoteStage::Precommit => {
                let r = self.round.import_precommit(tree, vote);
                proof {
                    assert(import_transition(
                        old(self).round.authorities@,
                        *tree,
                        old(self).round.precommits@,
                        old(self).round.precommit_equivocators@,
                        self.round.precommits@,
                        self.round.precommit_equivocators@,
                        vote_of(m),
                        r,
                    ));
                }
            },
        }
    }

    /// Closes the prevote stage once it can close: every authority has
    /// spoken, or the gossip timeout fired (the caller's clock says which).
    /// Advances exactly when a prevote supermajority block exists.
    pub fn try_advance(&mut self, tree: &BlockTree, timeout_fired: bool) -> (advanced: bool)
        requires
            old(self).wf(*tree),
            tree.wf(),
        ensures
            final(self).wf(*tree),
            final(self).set == old(self).set,
            final(self).config == old(self).config,
            final(self).notifications == old(self).notifications,
            final(self).last_finalized_hash == old(self).last_finalized_hash,
            final(self).last_finalized_number == old(self).last_finalized_number,
            !advanced ==> *final(self) == *old(self),
            // when the stage may close, it closes exactly when a prevote
            // supermajority block exists
            old(self).round.stage == RoundStage::Prevoting && (timeout_fired
                || crate::round::participation_complete(
                old(self).round.authorities@,
                old(self).round.prevotes@,
                old(self).round.prevote_equivocators@,
            )) ==> advanced == (exists|i: int|
                0 <= i < tree.seq().len() && crate::round::supermajority(
                    old(self).round.authorities@,
                    old(self).round.prevotes@,
                    *tree,
                    (#[trigger] tree.seq()[i]).hash,
                )),
            advanced ==> old(self).round.stage == RoundStage::Prevoting && (timeout_fired
                || crate::round::participation_complete(
                old(self).round.authorities@,
                old(self).round.prevotes@,
                old(self).round.prevote_equivocators@,
            )) && final(self).round.stage == RoundStage::Precommitting && (exists|i: int|
                0 <= i < tree.seq().len() && crate::round::supermajority(
                    old(self).round.authorities@,
                    old(self).round.prevotes@,
                    *tree,
                    (#[trigger] tree.seq()[i]).hash,
                )),
    {
        match self.round.stage {
            RoundStage::Prevoting => {},
            _ => {
                return false;
            },
        }
        if !timeout_fired {
            if !self.round.all_prevoted() {
                return false;
            }
        }
        self.round.complete_prevote_stage(tree)
    }

    /// Whether a gossiped finality commit applies to this voter's state: it
    /// names the current authority set and a known block at its stated
    /// height, strictly beyond the last finalized block on its line.
    pub open spec fn commit_applies(self, tree: BlockTree, m: CommitMessage) -> bool {
        &&& m.set_id == self.set.set_id
        &&& tree.has_block(m.target_hash)
        &&& m.target_number == tree.number_of(m.target_hash)
        &&& m.target_number > self.last_finalized_number
        &&& tree.is_ancestor(self.last_finalized_hash, m.target_hash)
    }

    /// Takes a finality commit from the per-set commit stream: how a voter
    /// catches up on finality it did not derive from its own round. The
    /// commit's authenticity is the signature capability's affair at the
    /// boundary; here it is applied exactly when it names the current set
    /// and a known block strictly extending the finalized line, and dropped
    /// with the voter untouched otherwise. Applying one emits the same
    /// per-height notifications as the voter's own finalization, enacts any
    /// change the newly finalized block triggers, and on enactment restarts
    /// rounds at 0 under the new set id; with no enactment the active round
    /// stays as it was.
    pub fn apply_commit(&mut self, tree: &BlockTree, m: CommitMessage) -> (applied: bool)
        requires
            old(self).wf(*tree),
            tree.wf(),
            old(self).set.set_id < u64::MAX,
        ensures
            final(self).wf(*tree),
            final(self).config == old(self).config,
            applied == old(self).commit_applies(*tree, m),
            !applied ==> *final(self) == *old(self),
            applied ==> {
                &&& final(self).last_finalized_hash == m.target_hash
                &&& final(self).last_finalized_number == m.target_number
                &&& final(self).notifications@.len() == old(self).notifications@.len() + (
                m.target_number - old(self).last_finalized_number)
                &&& forall|i: int|
                    0 <= i < old(self).notifications@.len() ==> final(self).notifications@[i]
                        == old(self).notifications@[i]
                &&& forall|i: int|
                    old(self).notifications@.len() <= i < final(self).notifications@.len() ==> (
                    #[trigger] final(self).notifications@[i]).1 == old(self).last_finalized_number
                        + 1 + (i - old(self).notifications@.len()) && tree.is_ancestor(
                        final(self).notifications@[i].0,
                        m.target_hash,
                    )
                &&& final(self).notifications@.last() == (m.target_hash, m.target_number)
                &&& (match pick_eligible(
                    old(self).set.pending@,
                    *tree,
                    m.target_hash,
                    m.target_number,
                ) {
                    None => {
                        &&& final(self).set == old(self).set
                        &&& final(self).round == old(self).round
                    },
                    Some(k) => {
                        &&& final(self).set.set_id == old(self).set.set_id + 1
                        &&& final(self).set.authorities@ == old(
                            self,
                        ).set.pending@[k].change.next_authorities@
                        &&& final(self).set.pending@ == kept_changes(
                            old(self).set.pending@,
                            *tree,
                            m.target_hash,
                            m.target_number,
                        )
                        &&& final(self).round.round_number == 0
                        &&& final(self).round.set_id == old(self).set.set_id + 1
                        &&& final(self).round.stage == RoundStage::Prevoting
                    },
                })
            },
    {
        let applies = if m.set_id != self.set.set_id {
            false
        } else {
            match tree.get(m.target_hash) {
                Some(b) => b.number == m.target_number && m.target_number
                    > self.last_finalized_number && tree.ancestor_check(
                    self.last_finalized_hash,
                    m.target_hash,
                ),
                None => false,
            }
        };
        if !applies {
            return false;
        }
        emit_chain(
            tree,
            &mut self.notifications,
            self.last_finalized_hash,
            self.last_finalized_number,
            m.target_hash,
            m.target_number,
        );
        self.last_finalized_hash = m.target_hash;
        self.last_finalized_number = m.target_number;
        match self.set.apply_changes_up_to(tree, m.target_hash, m.target_number) {
            Some(t) => {
                proof {
                    crate::authorities::lemma_pick_from(
                        old(self).set.pending@,
                        *tree,
                        m.target_hash,
                        m.target_number,
                        old(self).set.pending@.len() as int,
                    );
                }
                self.round = Round::new(t.0, 0, t.1);
            },
            None => {},
        }
        true
    }

    /// The precommit tally singles out a block the prevote ghost covers:
    /// the round is ready to conclude.
    pub open spec fn round_concludable(self, tree: BlockTree) -> bool {
        exists|b: u64|
            #[trigger] self.round.is_precommit_target(tree, b) && (self.round.prevote_ghost
                matches Some(g) && tree.is_ancestor(b, g.0))
    }

    /// The round is ready to conclude on a block strictly beyond the last
    /// finalized one, on its line: finalization is owed.
    pub open spec fn finalization_due(self, tree: BlockTree) -> bool {
        exists|b: u64|
            #[trigger] self.round.is_precommit_target(tree, b) && (self.round.prevote_ghost
                matches Some(g) && tree.is_ancestor(b, g.0)) && tree.number_of(b)
                > self.last_finalized_number && tree.is_ancestor(self.last_finalized_hash, b)
    }

    /// Tries to conclude the current round and act on its output. `Some`
    /// exactly when the round completed on a block strictly beyond the last
    /// finalized one, on its line: then one notification per newly final
    /// height is emitted, the eligible change (if any) is enacted at that
    /// exact point, and the next round opens — numbered one higher, or 0
    /// under the new set id. A completed round that moves nothing merely
    /// opens the next round; a round not ready to conclude is left exactly
    /// as it was.
    pub fn try_finalize(&mut self, tree: &BlockTree) -> (r: Option<(u64, u64)>)
        requires
            old(self).wf(*tree),
            tree.wf(),
            old(self).set.set_id < u64::MAX,
            old(self).round.round_number < u64::MAX,
        ensures
            final(self).wf(*tree),
            final(self).config == old(self).config,
            // finalization is owed exactly where spec'd: a concludable round
            // beyond the last finalized block must conclude
            old(self).round.stage == RoundStage::Precommitting && old(self).finalization_due(
                *tree,
            ) ==> r is Some,
            match r {
                None => {
                    &&& final(self).set == old(self).set
                    &&& final(self).notifications == old(self).notifications
                    &&& final(self).last_finalized_hash == old(self).last_finalized_hash
                    &&& final(self).last_finalized_number == old(self).last_finalized_number
                    &&& old(self).round.stage != RoundStage::Precommitting ==> *final(self)
                        == *old(self)
                    &&& old(self).round.stage == RoundStage::Precommitting && !old(
                        self,
                    ).round_concludable(*tree) ==> *final(self) == *old(self)
                    &&& old(self).round.stage == RoundStage::Precommitting && old(
                        self,
                    ).round_concludable(*tree) ==> final(self).round.stage == RoundStage::Prevoting
                        && final(self).round.round_number == old(self).round.round_number + 1
                        && final(self).round.set_id == old(self).set.set_id
                },
                Some(f) => {
                    &&& old(self).round.stage == RoundStage::Precommitting
                    &&& old(self).round.is_precommit_target(*tree, f.0)
                    &&& tree.has_block(f.0)
                    &&& f.1 == tree.number_of(f.0)
                    &&& f.1 > old(self).last_finalized_number
                    &&& tree.is_ancestor(old(self).last_finalized_hash, f.0)
                    &&& final(self).last_finalized_hash == f.0
                    &&& final(self).last_finalized_number == f.1
                    &&& final(self).notifications@.len() == old(self).notifications@.len() + (f.1
                        - old(self).last_finalized_number)
                    &&& forall|i: int|
                        0 <= i < old(self).notifications@.len() ==> final(self).notifications@[i]
                            == old(self).notifications@[i]
                    &&& forall|i: int|
                        old(self).notifications@.len() <= i < final(self).notifications@.len()
                            ==> (#[trigger] final(self).notifications@[i]).1 == old(
                            self,
                        ).last_finalized_number + 1 + (i - old(self).notifications@.len())
                            && tree.is_ancestor(final(self).notifications@[i].0, f.0)
                    &&& final(self).notifications@.last() == f
                    &&& (match pick_eligible(old(self).set.pending@, *tree, f.0, f.1) {
                        None => {
                            &&& final(self).set == old(self).set
                            &&& final(self).round.round_number == old(self).round.round_number + 1
                            &&& final(self).round.set_id == old(self).set.set_id
                        },
                        Some(k) => {
                            &&& final(self).set.set_id == old(self).set.set_id + 1
                            &&& final(self).set.authorities@ == old(
                                self,
                            ).set.pending@[k].change.next_authorities@
                            &&& final(self).set.pending@ == kept_changes(
                                old(self).set.pending@,
                                *tree,
                                f.0,
                                f.1,
                            )
                            &&& final(self).round.round_number == 0
                            &&& final(self).round.set_id == old(self).set.set_id + 1
                        },
                    })
                    &&& final(self).round.stage == RoundStage::Prevoting
                },
            },
    {
        match self.round.stage {
            RoundStage::Precommitting => {},
            _ => {
                return None;
            },
        }
        let fin = match self.round.try_complete(tree) {
            Some(f) => f,
            None => {
                proof {
                    // nothing is singled out and covered, so nothing is owed
                    if old(self).round_concludable(*tree) {
                        let b = choose|b: u64|
                            #[trigger] old(self).round.is_precommit_target(*tree, b) && (old(
                                self,
                            ).round.prevote_ghost matches Some(g) && tree.is_ancestor(b, g.0));
                        assert(false);
                    }
                }
                return None;
            },
        };
        let h = fin.0;
        let n = fin.1;
        let progressed = n > self.last_finalized_number && tree.ancestor_check(
            self.last_finalized_hash,
            h,
        );
        if !progressed {
            proof {
                assert(old(self).round_concludable(*tree));
                // the singled-out block is unique, so nothing further is due
                if old(self).finalization_due(*tree) {
                    let b = choose|b: u64|
                        #[trigger] old(self).round.is_precommit_target(*tree, b) && (old(
                            self,
                        ).round.prevote_ghost matches Some(g) && tree.is_ancestor(b, g.0))
                            && tree.number_of(b) > old(self).last_finalized_number
                            && tree.is_ancestor(old(self).last_finalized_hash, b);
                    tree.lemma_lookup(b);
                    tree.lemma_lookup(h);
                    assert(tree.is_ancestor(b, h));
                    assert(tree.is_ancestor(h, b));
                    tree.lemma_ancestor_antisym(b, h);
                    assert(false);
                }
            }
            let auths = copy_authorities(&self.set.authorities);
            let next_number = self.round.round_number + 1;
            self.round = Round::new(self.set.set_id, next_number, auths);
            return None;
        }
        emit_chain(
            tree,
            &mut self.notifications,
            self.last_finalized_hash,
            self.last_finalized_number,
            h,
            n,
        );
        self.last_finalized_hash = h;
        self.last_finalized_number = n;
        match self.set.apply_changes_up_to(tree, h, n) {
            Some(t) => {
                proof {
                    crate::authorities::lemma_pick_from(
                        old(self).set.pending@,
                        *tree,
                        h,
                        n,
                        old(self).set.pending@.len() as int,
                    );
                }
                self.round = Round::new(t.0, 0, t.1);
            },
            None => {
                let auths = copy_authorities(&self.set.authorities);
                let next_number = self.round.round_number + 1;
                self.round = Round::new(self.set.set_id, next_number, auths);
            },
        }
        Some((h, n))
    }
}

/// A voter's finality stream is a single increasing chain: of any two
/// notifications the earlier names an ancestor of the later, at a strictly
/// lower height — so no block is announced twice and no two announced
/// blocks sit on different forks.
pub proof fn lemma_finality_stream_chain(tree: BlockTree, s: Seq<(u64, u64)>)
    requires
        tree.wf(),
        chain_ok(tree, s),
    ensures
        forall|i: int, j: int|
            #![trigger s[i].0, s[j].0]
            0 <= i < j < s.len() ==> tree.is_ancestor(s[i].0, s[j].0) && s[i].1 < s[j].1,
{
    assert forall|i: int, j: int|
        #![trigger s[i].0, s[j].0]
        0 <= i < j < s.len() implies tree.is_ancestor(s[i].0, s[j].0) && s[i].1 < s[j].1 by {
        lemma_chain_step(tree, s, i, j);
    }
}

#[verifier::spinoff_prover]
#[verifier::rlimit(50)]
proof fn lemma_chain_step(tree: BlockTree, s: Seq<(u64, u64)>, i: int, j: int)
    requires
        tree.wf(),
        chain_ok(tree, s),
        0 <= i < j < s.len(),
    ensures
        tree.is_ancestor(s[i].0, s[j].0),
        s[i].1 < s[j].1,
    decreases j - i,
{
    if i + 1 == j {
        assert(tree.is_ancestor((s[i]).0, s[i + 1].0) && s[i].1 < s[i + 1].1);
    } else {
        lemma_chain_step(tree, s, i, j - 1);
        assert(tree.is_ancestor((s[j - 1]).0, s[j - 1 + 1].0) && s[j - 1].1 < s[j - 1 + 1].1);
        tree.lemma_ancestor_trans(s[i].0, s[j - 1].0, s[j].0);
    }
}

/// Appends one notification per height in `(from_number, n]`, each the
/// unique block at its height on the line from the last finalized block to
/// the newly finalized one.
#[verifier::spinoff_prover]
#[verifier::rlimit(100)]
fn emit_chain(
    tree: &BlockTree,
    notifications: &mut Vec<(u64, u64)>,
    from_hash: u64,
    from_number: u64,
    h: u64,
    n: u64,
)
    requires
        tree.wf(),
        tree.has_block(h),
        n == tree.number_of(h),
        tree.has_block(from_hash),
        from_number == tree.number_of(from_hash),
        tree.is_ancestor(from_hash, h),
        from_number < n,
        chain_ok(*tree, old(notifications)@),
        old(notifications)@.len() > 0 ==> old(notifications)@.last() == (from_hash, from_number),
    ensures
        chain_ok(*tree, final(notifications)@),
        final(notifications)@.len() == old(notifications)@.len() + (n - from_number),
        forall|i: int|
            0 <= i < old(notifications)@.len()
                ==> final(notifications)@[i] == old(notifications)@[i],
        forall|i: int|
            old(notifications)@.len() <= i < final(notifications)@.len()
                ==> (#[trigger] final(notifications)@[i]).1
                == from_number + 1 + (i - old(notifications)@.len())
                && tree.is_ancestor(final(notifications)@[i].0, h),
        final(notifications)@.last() == (h, n),
{
    let ghost olen = old(notifications)@.len() as int;
    let mut k: u64 = from_number;
    let mut cur_hash = from_hash;
    while k < n
        invariant
            tree.wf(),
            tree.has_block(h),
            n == tree.number_of(h),
            from_number <= k <= n,
            tree.has_block(cur_hash),
            k == tree.number_of(cur_hash),
            tree.is_ancestor(cur_hash, h),
            chain_ok(*tree, notifications@),
            olen == old(notifications)@.len(),
            notifications@.len() == olen + (k - from_number),
            forall|i: int| 0 <= i < olen ==> notifications@[i] == old(notifications)@[i],
            forall|i: int|
                olen <= i < notifications@.len() ==> (#[trigger] notifications@[i]).1 == from_number
                    + 1 + (i - olen) && tree.is_ancestor(notifications@[i].0, h),
            notifications@.len() > 0 ==> notifications@.last() == (cur_hash, k),
            old(notifications)@.len() > 0 ==> old(notifications)@.last() == (
            from_hash, from_number),
            k == from_number ==> cur_hash == from_hash && notifications@ == old(notifications)@,
        decreases n - k,
    {
        let next = tree.ancestor_at(h, k + 1);
        proof {
            tree.lemma_ancestor_chain(cur_hash, next, h);
            if tree.is_ancestor(next, cur_hash) {
                tree.lemma_ancestor_number(next, cur_hash);
            }
            assert(tree.is_ancestor(cur_hash, next));
        }
        let ghost pre = notifications@;
        notifications.push((next, k + 1));
        proof {
            assert(notifications@.drop_last() =~= pre);
            assert forall|i: int|
                0 <= i < notifications@.len() - 1 implies tree.is_ancestor(
                (#[trigger] notifications@[i]).0,
                notifications@[i + 1].0,
            ) && notifications@[i].1 < notifications@[i + 1].1 by {
                if i < pre.len() - 1 {
                    assert(notifications@[i] == pre[i]);
                    assert(notifications@[i + 1] == pre[i + 1]);
                } else {
                    assert(notifications@[i] == pre[pre.len() - 1]);
                    assert(pre.last() == (cur_hash, k));
                }
            }
        }
        cur_hash = next;
        k = k + 1;
    }
    proof {
        tree.lemma_ancestor_number(cur_hash, h);
        assert(cur_hash == h);
    }
}

} // verus!
