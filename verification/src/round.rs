//! One prevote/precommit voting round.
//!
//! A round tallies at most one counted vote per authority and stage, detects
//! equivocation, and derives the round's "ghost": the highest block whose
//! line carries vote support strictly greater than two thirds of the total
//! weight. Finality comes from a precommit ghost that the prevote ghost
//! covers. The central theorem here is supermajority agreement: in one tally
//! two supermajority blocks always lie on one line, so a round can never
//! finalize two sides of a fork.

use vstd::prelude::*;
use crate::authorities::{
    Authority,
    has_authority,
    lemma_remove_authority,
    lemma_total_nonneg,
    lemma_weight_of,
    remove_authority,
    total_weight,
    unique_ids,
    valid_authorities,
    weight_of,
};
use crate::chain::BlockTree;

verus! {

/// A vote as the tally counts it: who voted, and for which block.
#[derive(Clone, Copy, PartialEq, Eq, Structural, Debug)]
pub struct Vote {
    pub authority: u64,
    pub target_hash: u64,
    pub target_number: u64,
}

/// The stages of a round.
#[derive(Clone, Copy, PartialEq, Eq, Structural, Debug)]
pub enum RoundStage {
    Prevoting,
    Precommitting,
    Completed,
}

/// What became of an imported vote.
#[derive(Clone, Copy, PartialEq, Eq, Structural, Debug)]
pub enum VoteOutcome {
    /// Counted into the tally.
    Counted,
    /// The exact same vote was already counted; nothing changed.
    Duplicate,
    /// A differing vote by an authority that already voted in this stage:
    /// recorded as equivocation evidence, excluded from the tally.
    Equivocation,
    /// The voter is not an authority of this round; dropped.
    UnknownVoter,
    /// The target is not a known block at the stated height; dropped.
    UnknownTarget,
}

/// No two votes in a tally come from the same authority.
pub open spec fn unique_voters(votes: Seq<Vote>) -> bool {
    forall|i: int, j: int|
        #![trigger votes[i].authority, votes[j].authority]
        0 <= i < j < votes.len() ==> votes[i].authority != votes[j].authority
}

/// Every vote comes from an authority of the round and names a known block
/// at its true height.
pub open spec fn votes_wf(auths: Seq<Authority>, votes: Seq<Vote>, tree: BlockTree) -> bool {
    forall|i: int|
        0 <= i < votes.len() ==> has_authority(auths, (#[trigger] votes[i]).authority)
            && tree.has_block(votes[i].target_hash) && votes[i].target_number == tree.number_of(
            votes[i].target_hash,
        )
}

/// The summed weight of the voters behind a tally.
pub open spec fn vote_weight_sum(auths: Seq<Authority>, votes: Seq<Vote>) -> int
    decreases votes.len(),
{
    if votes.len() == 0 {
        0
    } else {
        vote_weight_sum(auths, votes.drop_last()) + weight_of(auths, votes.last().authority)
    }
}

/// The weight in support of block `b`: the weight of the voters whose vote
/// targets `b` or a descendant of `b` (the supermajority-link rule).
pub open spec fn support_weight(
    auths: Seq<Authority>,
    votes: Seq<Vote>,
    tree: BlockTree,
    b: u64,
) -> int
    decreases votes.len(),
{
    if votes.len() == 0 {
        0
    } else {
        support_weight(auths, votes.drop_last(), tree, b) + if tree.is_ancestor(
            b,
            votes.last().target_hash,
        ) {
            weight_of(auths, votes.last().authority)
        } else {
            0
        }
    }
}

/// Block `b` holds a supermajority in this tally: support strictly greater
/// than two thirds of the total weight.
pub open spec fn supermajority(
    auths: Seq<Authority>,
    votes: Seq<Vote>,
    tree: BlockTree,
    b: u64,
) -> bool {
    3 * support_weight(auths, votes, tree, b) > 2 * total_weight(auths)
}

/// Support never exceeds the voters' summed weight, and neither is negative.
pub proof fn lemma_support_le_sum(auths: Seq<Authority>, votes: Seq<Vote>, tree: BlockTree, b: u64)
    ensures
        0 <= support_weight(auths, votes, tree, b) <= vote_weight_sum(auths, votes),
    decreases votes.len(),
{
    if votes.len() > 0 {
        lemma_support_le_sum(auths, votes.drop_last(), tree, b);
        lemma_weight_of(auths, votes.last().authority);
    }
}

/// Equal per-voter weights give equal sums.
proof fn lemma_sum_congruent(s1: Seq<Authority>, s2: Seq<Authority>, votes: Seq<Vote>)
    requires
        forall|i: int|
            0 <= i < votes.len() ==> weight_of(s1, (#[trigger] votes[i]).authority) == weight_of(
                s2,
                votes[i].authority,
            ),
    ensures
        vote_weight_sum(s1, votes) == vote_weight_sum(s2, votes),
    decreases votes.len(),
{
    if votes.len() > 0 {
        assert forall|i: int| 0 <= i < votes.drop_last().len() implies weight_of(
            s1,
            (#[trigger] votes.drop_last()[i]).authority,
        ) == weight_of(s2, votes.drop_last()[i].authority) by {
            assert(votes.drop_last()[i] == votes[i]);
        }
        lemma_sum_congruent(s1, s2, votes.drop_last());
        assert(votes[votes.len() - 1] == votes.last());
    }
}

/// Distinct voters drawn from the authority list never weigh more than the
/// whole list.
pub proof fn lemma_sum_le_total(auths: Seq<Authority>, votes: Seq<Vote>)
    requires
        unique_ids(auths),
        unique_voters(votes),
        forall|i: int| 0 <= i < votes.len() ==> has_authority(auths, (#[trigger] votes[i]).authority),
    ensures
        vote_weight_sum(auths, votes) <= total_weight(auths),
    decreases votes.len(),
{
    if votes.len() == 0 {
        lemma_total_nonneg(auths);
    } else {
        let a = votes.last().authority;
        assert(has_authority(auths, a)) by {
            assert(votes[votes.len() - 1] == votes.last());
        }
        lemma_remove_authority(auths, a);
        let rest = remove_authority(auths, a);
        // the earlier voters differ from the last, so they live in the rest
        assert forall|i: int| 0 <= i < votes.drop_last().len() implies has_authority(
            rest,
            (#[trigger] votes.drop_last()[i]).authority,
        ) by {
            assert(votes.drop_last()[i] == votes[i]);
            assert(votes[i].authority != a);
        }
        assert forall|i: int| 0 <= i < votes.drop_last().len() implies weight_of(
            auths,
            (#[trigger] votes.drop_last()[i]).authority,
        ) == weight_of(rest, votes.drop_last()[i].authority) by {
            assert(votes.drop_last()[i] == votes[i]);
            assert(votes[i].authority != a);
        }
        assert(unique_voters(votes.drop_last())) by {
            assert forall|i: int, j: int|
                #![trigger votes.drop_last()[i].authority, votes.drop_last()[j].authority]
                0 <= i < j < votes.drop_last().len() implies votes.drop_last()[i].authority
                != votes.drop_last()[j].authority by {
                assert(votes.drop_last()[i] == votes[i]);
                assert(votes.drop_last()[j] == votes[j]);
            }
        }
        lemma_sum_le_total(rest, votes.drop_last());
        lemma_sum_congruent(auths, rest, votes.drop_last());
        lemma_weight_of(auths, a);
    }
}

/// Against two incomparable blocks, each voter counts at most once: the two
/// supports together stay within the voters' summed weight.
pub proof fn lemma_support_partition(
    auths: Seq<Authority>,
    votes: Seq<Vote>,
    tree: BlockTree,
    b1: u64,
    b2: u64,
)
    requires
        tree.wf(),
        !tree.is_ancestor(b1, b2),
        !tree.is_ancestor(b2, b1),
    ensures
        support_weight(auths, votes, tree, b1) + support_weight(auths, votes, tree, b2)
            <= vote_weight_sum(auths, votes),
    decreases votes.len(),
{
    if votes.len() > 0 {
        lemma_support_partition(auths, votes.drop_last(), tree, b1, b2);
        let t = votes.last().target_hash;
        if tree.is_ancestor(b1, t) && tree.is_ancestor(b2, t) {
            tree.lemma_ancestor_chain(b1, b2, t);
        }
        lemma_weight_of(auths, votes.last().authority);
    }
}

/// Supermajority agreement: two blocks that both hold a supermajority in one
/// tally lie on one line. A round can therefore never derive two finalized
/// blocks on different forks, whatever mixture of votes arrived.
pub proof fn lemma_supermajority_agreement(
    auths: Seq<Authority>,
    votes: Seq<Vote>,
    tree: BlockTree,
    b1: u64,
    b2: u64,
)
    requires
        tree.wf(),
        unique_ids(auths),
        unique_voters(votes),
        forall|i: int| 0 <= i < votes.len() ==> has_authority(auths, (#[trigger] votes[i]).authority),
        supermajority(auths, votes, tree, b1),
        supermajority(auths, votes, tree, b2),
    ensures
        tree.is_ancestor(b1, b2) || tree.is_ancestor(b2, b1),
{
    if !tree.is_ancestor(b1, b2) && !tree.is_ancestor(b2, b1) {
        lemma_support_partition(auths, votes, tree, b1, b2);
        lemma_sum_le_total(auths, votes);
        lemma_total_nonneg(auths);
        assert(false);
    }
}

/// Counted votes are never taken back: one more vote cannot lower a block's
/// support.
pub proof fn lemma_support_monotone(
    auths: Seq<Authority>,
    votes: Seq<Vote>,
    v: Vote,
    tree: BlockTree,
    b: u64,
)
    ensures
        support_weight(auths, votes.push(v), tree, b) >= support_weight(auths, votes, tree, b),
{
    assert(votes.push(v).drop_last() =~= votes);
    lemma_weight_of(auths, v.authority);
}

/// The weight of the authority with this id; 0 when there is none.
pub fn weight_lookup(auths: &Vec<Authority>, id: u64) -> (r: u64)
    ensures
        r as int == weight_of(auths@, id),
{
    let mut i: usize = auths.len();
    proof {
        assert(auths@.take(i as int) =~= auths@);
    }
    while i > 0
        invariant
            i <= auths@.len(),
            weight_of(auths@, id) == weight_of(auths@.take(i as int), id),
        decreases i,
    {
        let a = auths[i - 1];
        proof {
            assert(auths@.take(i as int).last() == auths@[i - 1]);
            assert(auths@.take(i as int).drop_last() =~= auths@.take(i - 1));
        }
        if a.id == id {
            return a.weight;
        }
        i = i - 1;
    }
    0
}

/// The summed weight of a valid authority list.
pub fn total_of(auths: &Vec<Authority>) -> (r: u64)
    requires
        valid_authorities(auths@),
    ensures
        r as int == total_weight(auths@),
{
    let n = auths.len();
    let mut sum: u64 = 0;
    let mut i: usize = 0;
    while i < n
        invariant
            valid_authorities(auths@),
            n == auths@.len(),
            0 <= i <= n,
            sum as int == total_weight(auths@.take(i as int)),
        decreases n - i,
    {
        proof {
            assert(auths@.take(i + 1).drop_last() =~= auths@.take(i as int));
            assert(auths@.take(i + 1).last() == auths@[i as int]);
            crate::authorities::lemma_total_take_le(auths@, i + 1);
            lemma_total_nonneg(auths@.take(i as int));
        }
        sum = sum + auths[i].weight;
        i = i + 1;
    }
    proof {
        assert(auths@.take(n as int) =~= auths@);
    }
    sum
}

/// The support for block `b` in a tally of distinct authorised voters.
pub fn support_of(tree: &BlockTree, auths: &Vec<Authority>, votes: &Vec<Vote>, b: u64) -> (r: u64)
    requires
        tree.wf(),
        valid_authorities(auths@),
        unique_voters(votes@),
        forall|i: int|
            0 <= i < votes@.len() ==> has_authority(auths@, (#[trigger] votes@[i]).authority),
    ensures
        r as int == support_weight(auths@, votes@, *tree, b),
{
    let n = votes.len();
    let mut sum: u64 = 0;
    let mut i: usize = 0;
    while i < n
        invariant
            tree.wf(),
            valid_authorities(auths@),
            unique_voters(votes@),
            forall|k: int|
                0 <= k < votes@.len() ==> has_authority(auths@, (#[trigger] votes@[k]).authority),
            n == votes@.len(),
            0 <= i <= n,
            sum as int == support_weight(auths@, votes@.take(i as int), *tree, b),
        decreases n - i,
    {
        proof {
            let pre = votes@.take(i + 1);
            assert(pre.drop_last() =~= votes@.take(i as int));
            assert(pre.last() == votes@[i as int]);
            assert(unique_voters(pre)) by {
                assert forall|p: int, q: int|
                    #![trigger pre[p].authority, pre[q].authority]
                    0 <= p < q < pre.len() implies pre[p].authority != pre[q].authority by {
                    assert(pre[p] == votes@[p]);
                    assert(pre[q] == votes@[q]);
                }
            }
            assert forall|k: int| 0 <= k < pre.len() implies has_authority(
                auths@,
                (#[trigger] pre[k]).authority,
            ) by {
                assert(pre[k] == votes@[k]);
            }
            lemma_support_le_sum(auths@, pre, *tree, b);
            lemma_sum_le_total(auths@, pre);
            lemma_support_le_sum(auths@, votes@.take(i as int), *tree, b);
        }
        let v = votes[i];
        if tree.ancestor_check(b, v.target_hash) {
            let w = weight_lookup(auths, v.authority);
            sum = sum + w;
        }
        i = i + 1;
    }
    proof {
        assert(votes@.take(n as int) =~= votes@);
    }
    sum
}

/// Derives the ghost of a tally: the highest block whose line holds a
/// supermajority, or `None` when no block does. Every supermajority block is
/// an ancestor of the ghost, so the ghost is unique.
/// The loop state of the ghost derivation after the first `i` blocks: the
/// best supermajority block seen so far, covering all earlier ones.
pub open spec fn ghost_inv(
    tree: BlockTree,
    auths: Seq<Authority>,
    votes: Seq<Vote>,
    best: Option<(u64, u64)>,
    i: int,
) -> bool {
    match best {
        Some(g) => {
            &&& tree.has_block(g.0)
            &&& g.1 == tree.number_of(g.0)
            &&& supermajority(auths, votes, tree, g.0)
            &&& forall|k: int|
                0 <= k < i && supermajority(auths, votes, tree, (#[trigger] tree.seq()[k]).hash)
                    ==> tree.is_ancestor(tree.seq()[k].hash, g.0)
        },
        None => forall|k: int|
            0 <= k < i ==> !supermajority(auths, votes, tree, (#[trigger] tree.seq()[k]).hash),
    }
}

/// One step of the ghost derivation: block `i` replaces the best when it
/// holds a supermajority and sits higher.
pub open spec fn ghost_step(
    tree: BlockTree,
    auths: Seq<Authority>,
    votes: Seq<Vote>,
    best: Option<(u64, u64)>,
    i: int,
) -> Option<(u64, u64)> {
    let c = tree.seq()[i];
    if supermajority(auths, votes, tree, c.hash) {
        match best {
            None => Some((c.hash, c.number)),
            Some(g) => if c.number > g.1 {
                Some((c.hash, c.number))
            } else {
                best
            },
        }
    } else {
        best
    }
}

/// A step of the ghost derivation keeps its loop state.
#[verifier::spinoff_prover]
#[verifier::rlimit(50)]
proof fn lemma_ghost_step(
    tree: BlockTree,
    auths: Seq<Authority>,
    votes: Seq<Vote>,
    best: Option<(u64, u64)>,
    i: int,
)
    requires
        tree.wf(),
        unique_ids(auths),
        unique_voters(votes),
        forall|k: int| 0 <= k < votes.len() ==> has_authority(auths, (#[trigger] votes[k]).authority),
        0 <= i < tree.seq().len(),
        ghost_inv(tree, auths, votes, best, i),
    ensures
        ghost_inv(tree, auths, votes, ghost_step(tree, auths, votes, best, i), i + 1),
{
    let c = tree.seq()[i];
    if supermajority(auths, votes, tree, c.hash) {
        assert(tree.has_block(c.hash));
        tree.lemma_lookup(c.hash);
        assert(tree.block_of(c.hash) == c);
        match best {
            None => {
                assert(tree.is_ancestor(c.hash, c.hash));
            },
            Some(g) => {
                lemma_supermajority_agreement(auths, votes, tree, g.0, c.hash);
                if c.number > g.1 {
                    if tree.is_ancestor(c.hash, g.0) {
                        tree.lemma_ancestor_number(c.hash, g.0);
                    }
                    assert(tree.is_ancestor(g.0, c.hash));
                    assert(tree.is_ancestor(c.hash, c.hash));
                    assert forall|k: int|
                        0 <= k < i + 1 && supermajority(
                            auths,
                            votes,
                            tree,
                            (#[trigger] tree.seq()[k]).hash,
                        ) implies tree.is_ancestor(tree.seq()[k].hash, c.hash) by {
                        if k < i {
                            tree.lemma_ancestor_trans(tree.seq()[k].hash, g.0, c.hash);
                        }
                    }
                } else {
                    if !tree.is_ancestor(c.hash, g.0) {
                        tree.lemma_ancestor_number(g.0, c.hash);
                        tree.lemma_same_height(g.0, c.hash);
                        assert(g.0 == c.hash);
                        assert(tree.is_ancestor(c.hash, g.0));
                    }
                }
            },
        }
    }
}

/// Derives the ghost of a tally: the highest block whose line holds a
/// supermajority, or `None` when no block does. Every supermajority block is
/// an ancestor of the ghost, so the ghost is unique.
pub fn compute_ghost(tree: &BlockTree, auths: &Vec<Authority>, votes: &Vec<Vote>) -> (r: Option<
    (u64, u64),
>)
    requires
        tree.wf(),
        valid_authorities(auths@),
        unique_voters(votes@),
        forall|i: int|
            0 <= i < votes@.len() ==> has_authority(auths@, (#[trigger] votes@[i]).authority),
    ensures
        ghost_inv(*tree, auths@, votes@, r, tree.seq().len() as int),
        match r {
            Some(g) => tree.has_block(g.0) && g.1 == tree.number_of(g.0) && supermajority(
                auths@,
                votes@,
                *tree,
                g.0,
            ),
            None => true,
        },
{
    let total = total_of(auths);
    let n = tree.blocks.len();
    let mut best: Option<(u64, u64)> = None;
    let mut i: usize = 0;
    while i < n
        invariant
            tree.wf(),
            valid_authorities(auths@),
            unique_voters(votes@),
            forall|k: int|
                0 <= k < votes@.len() ==> has_authority(auths@, (#[trigger] votes@[k]).authority),
            n == tree.seq().len(),
            0 <= i <= n,
            total as int == total_weight(auths@),
            ghost_inv(*tree, auths@, votes@, best, i as int),
        decreases n - i,
    {
        let c = tree.blocks[i];
        let s = support_of(tree, auths, votes, c.hash);
        let is_super = 3 * (s as u128) > 2 * (total as u128);
        proof {
            assert(is_super == supermajority(auths@, votes@, *tree, c.hash));
            lemma_ghost_step(*tree, auths@, votes@, best, i as int);
        }
        if is_super {
            match best {
                None => {
                    best = Some((c.hash, c.number));
                },
                Some(g) => {
                    if c.number > g.1 {
                        best = Some((c.hash, c.number));
                    }
                },
            }
        }
        i = i + 1;
    }
    best
}

/// The total weight of a valid list is positive: a supermajority threshold
/// can always be crossed.
pub proof fn lemma_total_pos(auths: Seq<Authority>)
    requires
        valid_authorities(auths),
    ensures
        total_weight(auths) >= 1,
{
    lemma_total_nonneg(auths.drop_last());
    assert(auths[auths.len() - 1] == auths.last());
}

/// A tally in which every authority has a counted vote weighs exactly the
/// whole list.
pub proof fn lemma_sum_complete(auths: Seq<Authority>, votes: Seq<Vote>)
    requires
        unique_ids(auths),
        unique_voters(votes),
        forall|i: int| 0 <= i < votes.len() ==> has_authority(auths, (#[trigger] votes[i]).authority),
        forall|i: int| 0 <= i < auths.len() ==> voted_in(votes, (#[trigger] auths[i]).id),
    ensures
        vote_weight_sum(auths, votes) == total_weight(auths),
    decreases votes.len(),
{
    if auths.len() == 0 {
        if votes.len() > 0 {
            assert(has_authority(auths, votes[0].authority));
            assert(false);
        }
    } else if votes.len() == 0 {
        assert(voted_in(votes, auths[0].id));
        assert(false);
    } else {
        let a = votes.last().authority;
        assert(has_authority(auths, a)) by {
            assert(votes[votes.len() - 1] == votes.last());
        }
        lemma_remove_authority(auths, a);
        let rest = remove_authority(auths, a);
        assert forall|i: int| 0 <= i < votes.drop_last().len() implies has_authority(
            rest,
            (#[trigger] votes.drop_last()[i]).authority,
        ) by {
            assert(votes.drop_last()[i] == votes[i]);
            assert(votes[i].authority != a);
        }
        assert forall|i: int| 0 <= i < votes.drop_last().len() implies weight_of(
            auths,
            (#[trigger] votes.drop_last()[i]).authority,
        ) == weight_of(rest, votes.drop_last()[i].authority) by {
            assert(votes.drop_last()[i] == votes[i]);
            assert(votes[i].authority != a);
        }
        assert(unique_voters(votes.drop_last())) by {
            assert forall|i: int, j: int|
                #![trigger votes.drop_last()[i].authority, votes.drop_last()[j].authority]
                0 <= i < j < votes.drop_last().len() implies votes.drop_last()[i].authority
                != votes.drop_last()[j].authority by {
                assert(votes.drop_last()[i] == votes[i]);
                assert(votes.drop_last()[j] == votes[j]);
            }
        }
        assert forall|i: int| 0 <= i < rest.len() implies voted_in(
            votes.drop_last(),
            (#[trigger] rest[i]).id,
        ) by {
            let id = rest[i].id;
            assert(exists|j: int| 0 <= j < auths.len() && auths[j] == rest[i]);
            assert(id != a);
            assert(has_authority(auths, id)) by {
                let j = choose|j: int| 0 <= j < auths.len() && auths[j] == rest[i];
                assert(auths[j].id == id);
            }
            let j = choose|j: int| 0 <= j < auths.len() && (#[trigger] auths[j].id) == id;
            assert(voted_in(votes, id));
            let k = choose|k: int| 0 <= k < votes.len() && (#[trigger] votes[k]).authority == id;
            assert(k < votes.len() - 1);
            assert(votes.drop_last()[k] == votes[k]);
        }
        lemma_sum_complete(rest, votes.drop_last());
        lemma_sum_congruent(auths, rest, votes.drop_last());
    }
}

/// A tally whose votes all target `b` gives `b` exactly the voters' weight.
proof fn lemma_support_full(auths: Seq<Authority>, votes: Seq<Vote>, tree: BlockTree, b: u64)
    requires
        tree.has_block(b),
        forall|i: int| 0 <= i < votes.len() ==> (#[trigger] votes[i]).target_hash == b,
    ensures
        support_weight(auths, votes, tree, b) == vote_weight_sum(auths, votes),
    decreases votes.len(),
{
    if votes.len() > 0 {
        assert forall|i: int| 0 <= i < votes.drop_last().len() implies (
        #[trigger] votes.drop_last()[i]).target_hash == b by {
            assert(votes.drop_last()[i] == votes[i]);
        }
        lemma_support_full(auths, votes.drop_last(), tree, b);
        assert(votes[votes.len() - 1] == votes.last());
        assert(tree.is_ancestor(b, b));
    }
}

/// The liveness kernel: when every authority's counted vote in a stage
/// targets the same block, that block holds a supermajority and every
/// supermajority block lies on its line — so the stage's ghost is exactly
/// that block, and a round fed the full quorum completes on it. Waiting ends
/// with participation or with the gossip timeout, whichever comes first;
/// what no tally can do is complete on anything else.
pub proof fn lemma_unanimous_supermajority(
    auths: Seq<Authority>,
    votes: Seq<Vote>,
    tree: BlockTree,
    b: u64,
)
    requires
        tree.wf(),
        tree.has_block(b),
        valid_authorities(auths),
        unique_voters(votes),
        forall|i: int| 0 <= i < votes.len() ==> has_authority(auths, (#[trigger] votes[i]).authority),
        forall|i: int| 0 <= i < auths.len() ==> voted_in(votes, (#[trigger] auths[i]).id),
        forall|i: int| 0 <= i < votes.len() ==> (#[trigger] votes[i]).target_hash == b,
    ensures
        supermajority(auths, votes, tree, b),
        forall|i: int|
            0 <= i < tree.seq().len() && supermajority(
                auths,
                votes,
                tree,
                (#[trigger] tree.seq()[i]).hash,
            ) ==> tree.is_ancestor(tree.seq()[i].hash, b),
{
    lemma_support_full(auths, votes, tree, b);
    lemma_sum_complete(auths, votes);
    lemma_total_pos(auths);
    assert forall|i: int|
        0 <= i < tree.seq().len() && supermajority(
            auths,
            votes,
            tree,
            (#[trigger] tree.seq()[i]).hash,
        ) implies tree.is_ancestor(tree.seq()[i].hash, b) by {
        let c = tree.seq()[i].hash;
        lemma_total_nonneg(auths);
        assert(support_weight(auths, votes, tree, c) > 0);
        lemma_support_pos(auths, votes, tree, c);
        let k = choose|k: int|
            0 <= k < votes.len() && tree.is_ancestor(c, (#[trigger] votes[k]).target_hash);
        assert(votes[k].target_hash == b);
    }
}

/// A block with any support at all has a vote on its line.
pub proof fn lemma_support_pos(auths: Seq<Authority>, votes: Seq<Vote>, tree: BlockTree, b: u64)
    requires
        support_weight(auths, votes, tree, b) > 0,
    ensures
        exists|i: int|
            0 <= i < votes.len() && tree.is_ancestor(b, (#[trigger] votes[i]).target_hash),
    decreases votes.len(),
{
    if votes.len() > 0 {
        if tree.is_ancestor(b, votes.last().target_hash) {
            assert(votes[votes.len() - 1] == votes.last());
        } else {
            lemma_support_pos(auths, votes.drop_last(), tree, b);
            let i = choose|i: int|
                0 <= i < votes.drop_last().len() && tree.is_ancestor(
                    b,
                    (#[trigger] votes.drop_last()[i]).target_hash,
                );
            assert(votes[i] == votes.drop_last()[i]);
        }
    }
}

/// How one imported vote moves a tally and its equivocation record, case by
/// case. The outcomes are mutually exclusive; only a counted vote changes the
/// tally, only first-time equivocation changes the record.
pub open spec fn import_transition(
    auths: Seq<Authority>,
    tree: BlockTree,
    old_tally: Seq<Vote>,
    old_eq: Seq<u64>,
    new_tally: Seq<Vote>,
    new_eq: Seq<u64>,
    vote: Vote,
    r: VoteOutcome,
) -> bool {
    match r {
        VoteOutcome::Counted => {
            &&& has_authority(auths, vote.authority)
            &&& tree.has_block(vote.target_hash)
            &&& vote.target_number == tree.number_of(vote.target_hash)
            &&& !(exists|i: int|
                0 <= i < old_tally.len() && (#[trigger] old_tally[i]).authority == vote.authority)
            &&& new_tally == old_tally.push(vote)
            &&& new_eq == old_eq
        },
        VoteOutcome::Duplicate => {
            &&& exists|i: int| 0 <= i < old_tally.len() && (#[trigger] old_tally[i]) == vote
            &&& new_tally == old_tally
            &&& new_eq == old_eq
        },
        VoteOutcome::Equivocation => {
            &&& exists|i: int|
                0 <= i < old_tally.len() && (#[trigger] old_tally[i]).authority == vote.authority
                    && old_tally[i] != vote
            &&& new_tally == old_tally
            &&& if exists|i: int| 0 <= i < old_eq.len() && (#[trigger] old_eq[i]) == vote.authority {
                new_eq == old_eq
            } else {
                new_eq == old_eq.push(vote.authority)
            }
        },
        VoteOutcome::UnknownVoter => {
            &&& !has_authority(auths, vote.authority)
            &&& new_tally == old_tally
            &&& new_eq == old_eq
        },
        VoteOutcome::UnknownTarget => {
            &&& has_authority(auths, vote.authority)
            &&& !(tree.has_block(vote.target_hash) && vote.target_number == tree.number_of(
                vote.target_hash,
            ))
            &&& new_tally == old_tally
            &&& new_eq == old_eq
        },
    }
}

/// Imports one vote into a tally: at most one counted vote per authority;
/// a differing repeat is recorded as equivocation and not counted; votes by
/// strangers or for unknown blocks are dropped.
pub fn import_vote(
    tree: &BlockTree,
    auths: &Vec<Authority>,
    tally: &mut Vec<Vote>,
    equivocators: &mut Vec<u64>,
    vote: Vote,
) -> (r: VoteOutcome)
    requires
        tree.wf(),
        valid_authorities(auths@),
        unique_voters(old(tally)@),
        votes_wf(auths@, old(tally)@, *tree),
    ensures
        unique_voters(final(tally)@),
        votes_wf(auths@, final(tally)@, *tree),
        import_transition(
            auths@,
            *tree,
            old(tally)@,
            old(equivocators)@,
            final(tally)@,
            final(equivocators)@,
            vote,
            r,
        ),
{
    let w = weight_lookup(auths, vote.authority);
    proof {
        lemma_weight_of(auths@, vote.authority);
    }
    if w == 0 {
        return VoteOutcome::UnknownVoter;
    }
    let target_ok = match tree.get(vote.target_hash) {
        Some(b) => b.number == vote.target_number,
        None => false,
    };
    if !target_ok {
        return VoteOutcome::UnknownTarget;
    }
    let n = tally.len();
    let mut i: usize = 0;
    while i < n
        invariant
            *tally == *old(tally),
            *equivocators == *old(equivocators),
            unique_voters(tally@),
            votes_wf(auths@, tally@, *tree),
            n == tally@.len(),
            0 <= i <= n,
            forall|k: int| 0 <= k < i ==> (#[trigger] tally@[k]).authority != vote.authority,
        decreases n - i,
    {
        if tally[i].authority == vote.authority {
            if tally[i] == vote {
                return VoteOutcome::Duplicate;
            }
            let m = equivocators.len();
            let mut j: usize = 0;
            while j < m
                invariant
                    *tally == *old(tally),
                    *equivocators == *old(equivocators),
                    unique_voters(tally@),
                    votes_wf(auths@, tally@, *tree),
                    m == equivocators@.len(),
                    exists|k: int|
                        0 <= k < tally@.len() && (#[trigger] tally@[k]).authority == vote.authority
                            && tally@[k] != vote,
                    0 <= j <= m,
                    forall|k: int| 0 <= k < j ==> (#[trigger] equivocators@[k]) != vote.authority,
                decreases m - j,
            {
                if equivocators[j] == vote.authority {
                    return VoteOutcome::Equivocation;
                }
                j = j + 1;
            }
            equivocators.push(vote.authority);
            return VoteOutcome::Equivocation;
        }
        i = i + 1;
    }
    tally.push(vote);
    proof {
        assert(final(tally)@.drop_last() =~= old(tally)@);
        assert forall|p: int, q: int|
            #![trigger final(tally)@[p].authority, final(tally)@[q].authority]
            0 <= p < q < final(tally)@.len() implies final(tally)@[p].authority
            != final(tally)@[q].authority by {
            if q < final(tally)@.len() - 1 {
                assert(final(tally)@[p] == old(tally)@[p]);
                assert(final(tally)@[q] == old(tally)@[q]);
            } else {
                assert(final(tally)@[p] == old(tally)@[p]);
            }
        }
    }
    VoteOutcome::Counted
}

/// Whether this authority has a counted vote in the tally.
pub open spec fn voted_in(tally: Seq<Vote>, id: u64) -> bool {
    exists|k: int| 0 <= k < tally.len() && (#[trigger] tally[k]).authority == id
}

/// Whether this authority is recorded as an equivocator.
pub open spec fn listed_in(eq: Seq<u64>, id: u64) -> bool {
    exists|k: int| 0 <= k < eq.len() && (#[trigger] eq[k]) == id
}

/// Whether every authority has spoken in a stage: a counted vote or recorded
/// equivocation for each.
pub open spec fn participation_complete(
    auths: Seq<Authority>,
    tally: Seq<Vote>,
    eq: Seq<u64>,
) -> bool {
    forall|i: int|
        0 <= i < auths.len() ==> voted_in(tally, (#[trigger] auths[i]).id) || listed_in(
            eq,
            auths[i].id,
        )
}

/// Decides `participation_complete` for a stage.
pub fn check_participation(auths: &Vec<Authority>, tally: &Vec<Vote>, eq: &Vec<u64>) -> (r: bool)
    ensures
        r == participation_complete(auths@, tally@, eq@),
{
    let n = auths.len();
    let mut i: usize = 0;
    while i < n
        invariant
            n == auths@.len(),
            0 <= i <= n,
            forall|p: int|
                0 <= p < i ==> voted_in(tally@, (#[trigger] auths@[p]).id) || listed_in(
                    eq@,
                    auths@[p].id,
                ),
        decreases n - i,
    {
        let id = auths[i].id;
        let mut found = false;
        let tn = tally.len();
        let mut k: usize = 0;
        while k < tn
            invariant
                tn == tally@.len(),
                0 <= k <= tn,
                found == exists|p: int| 0 <= p < k && (#[trigger] tally@[p]).authority == id,
            decreases tn - k,
        {
            if tally[k].authority == id {
                found = true;
            }
            k = k + 1;
        }
        proof {
            assert(found == voted_in(tally@, id));
        }
        if !found {
            let en = eq.len();
            let mut k2: usize = 0;
            while k2 < en
                invariant
                    en == eq@.len(),
                    0 <= k2 <= en,
                    found == exists|p: int| 0 <= p < k2 && (#[trigger] eq@[p]) == id,
                decreases en - k2,
            {
                if eq[k2] == id {
                    found = true;
                }
                k2 = k2 + 1;
            }
            proof {
                assert(found == listed_in(eq@, id));
            }
        }
        if !found {
            return false;
        }
        i = i + 1;
    }
    true
}

/// One voting round, identified by its authority-set id and round number.
/// It holds a snapshot of that set's authority list, the two tallies with
/// their equivocation records, and what the round has derived so far.
#[derive(Debug)]
pub struct Round {
    pub set_id: u64,
    pub round_number: u64,
    pub authorities: Vec<Authority>,
    pub prevotes: Vec<Vote>,
    pub precommits: Vec<Vote>,
    pub prevote_equivocators: Vec<u64>,
    pub precommit_equivocators: Vec<u64>,
    pub stage: RoundStage,
    pub prevote_ghost: Option<(u64, u64)>,
    pub finalized: Option<(u64, u64)>,
}

impl Round {
    /// Round well-formedness against the local block tree: sound tallies,
    /// and every derived block really carries the support it claims.
    pub open spec fn wf(self, tree: BlockTree) -> bool {
        &&& valid_authorities(self.authorities@)
        &&& unique_voters(self.prevotes@)
        &&& votes_wf(self.authorities@, self.prevotes@, tree)
        &&& unique_voters(self.precommits@)
        &&& votes_wf(self.authorities@, self.precommits@, tree)
        &&& (self.stage == RoundStage::Prevoting ==> self.prevote_ghost is None && self.finalized
            is None)
        &&& (self.stage == RoundStage::Precommitting ==> self.prevote_ghost is Some
            && self.finalized is None)
        &&& (self.stage == RoundStage::Completed ==> self.prevote_ghost is Some && self.finalized
            is Some)
        &&& (self.prevote_ghost matches Some(g) ==> tree.has_block(g.0) && g.1 == tree.number_of(
            g.0,
        ) && supermajority(self.authorities@, self.prevotes@, tree, g.0))
        &&& (self.finalized matches Some(f) ==> tree.has_block(f.0) && f.1 == tree.number_of(f.0)
            && supermajority(self.authorities@, self.precommits@, tree, f.0) && (
        self.prevote_ghost matches Some(g) && tree.is_ancestor(f.0, g.0)))
    }

    /// A fresh round in `Prevoting`, with empty tallies.
    pub fn new(set_id: u64, round_number: u64, authorities: Vec<Authority>) -> (r: Round)
        requires
            valid_authorities(authorities@),
        ensures
            r.set_id == set_id,
            r.round_number == round_number,
            r.authorities@ == authorities@,
            r.prevotes@.len() == 0,
            r.precommits@.len() == 0,
            r.prevote_equivocators@.len() == 0,
            r.precommit_equivocators@.len() == 0,
            r.stage == RoundStage::Prevoting,
            r.prevote_ghost is None,
            r.finalized is None,
            forall|tree: BlockTree| #[trigger] r.wf(tree),
    {
        Round {
            set_id,
            round_number,
            authorities,
            prevotes: Vec::new(),
            precommits: Vec::new(),
            prevote_equivocators: Vec::new(),
            precommit_equivocators: Vec::new(),
            stage: RoundStage::Prevoting,
            prevote_ghost: None,
            finalized: None,
        }
    }

    /// Imports a prevote. Only the prevote tally and its equivocation record
    /// can move, as `import_transition` says.
    pub fn import_prevote(&mut self, tree: &BlockTree, vote: Vote) -> (r: VoteOutcome)
        requires
            old(self).wf(*tree),
            tree.wf(),
        ensures
            final(self).wf(*tree),
            import_transition(
                old(self).authorities@,
                *tree,
                old(self).prevotes@,
                old(self).prevote_equivocators@,
                final(self).prevotes@,
                final(self).prevote_equivocators@,
                vote,
                r,
            ),
            final(self).authorities == old(self).authorities,
            final(self).precommits == old(self).precommits,
            final(self).precommit_equivocators == old(self).precommit_equivocators,
            final(self).stage == old(self).stage,
            final(self).prevote_ghost == old(self).prevote_ghost,
            final(self).finalized == old(self).finalized,
            final(self).set_id == old(self).set_id,
            final(self).round_number == old(self).round_number,
    {
        let r = import_vote(
            tree,
            &self.authorities,
            &mut self.prevotes,
            &mut self.prevote_equivocators,
            vote,
        );
        proof {
            if self.prevotes@ != old(self).prevotes@ {
                match old(self).prevote_ghost {
                    Some(g) => {
                        lemma_support_monotone(
                            self.authorities@,
                            old(self).prevotes@,
                            vote,
                            *tree,
                            g.0,
                        );
                    },
                    None => {},
                }
            }
        }
        r
    }

    /// Imports a precommit, the same way.
    pub fn import_precommit(&mut self, tree: &BlockTree, vote: Vote) -> (r: VoteOutcome)
        requires
            old(self).wf(*tree),
            tree.wf(),
        ensures
            final(self).wf(*tree),
            import_transition(
                old(self).authorities@,
                *tree,
                old(self).precommits@,
                old(self).precommit_equivocators@,
                final(self).precommits@,
                final(self).precommit_equivocators@,
                vote,
                r,
            ),
            final(self).authorities == old(self).authorities,
            final(self).prevotes == old(self).prevotes,
            final(self).prevote_equivocators == old(self).prevote_equivocators,
            final(self).stage == old(self).stage,
            final(self).prevote_ghost == old(self).prevote_ghost,
            final(self).finalized == old(self).finalized,
            final(self).set_id == old(self).set_id,
            final(self).round_number == old(self).round_number,
    {
        let r = import_vote(
            tree,
            &self.authorities,
            &mut self.precommits,
            &mut self.precommit_equivocators,
            vote,
        );
        proof {
            if self.precommits@ != old(self).precommits@ {
                match old(self).finalized {
                    Some(f) => {
                        lemma_support_monotone(
                            self.authorities@,
                            old(self).precommits@,
                            vote,
                            *tree,
                            f.0,
                        );
                    },
                    None => {},
                }
            }
        }
        r
    }

    /// Whether every authority has prevoted or equivocated: the point at
    /// which the prevote ghost can no longer be expected to change without a
    /// timeout.
    pub fn all_prevoted(&self) -> (r: bool)
        ensures
            r == participation_complete(
                self.authorities@,
                self.prevotes@,
                self.prevote_equivocators@,
            ),
    {
        check_participation(&self.authorities, &self.prevotes, &self.prevote_equivocators)
    }

    /// Whether every authority has precommitted or equivocated.
    pub fn all_precommitted(&self) -> (r: bool)
        ensures
            r == participation_complete(
                self.authorities@,
                self.precommits@,
                self.precommit_equivocators@,
            ),
    {
        check_participation(&self.authorities, &self.precommits, &self.precommit_equivocators)
    }

    /// Closes the prevote stage — because every authority has spoken or the
    /// gossip timeout elapsed, which is the caller's call. Advances to
    /// `Precommitting` exactly when some block holds a prevote
    /// supermajority; the prevote ghost is then the highest such block.
    pub fn complete_prevote_stage(&mut self, tree: &BlockTree) -> (advanced: bool)
        requires
            old(self).wf(*tree),
            tree.wf(),
            old(self).stage == RoundStage::Prevoting,
        ensures
            final(self).wf(*tree),
            advanced == exists|i: int|
                0 <= i < tree.seq().len() && supermajority(
                    old(self).authorities@,
                    old(self).prevotes@,
                    *tree,
                    (#[trigger] tree.seq()[i]).hash,
                ),
            !advanced ==> *final(self) == *old(self),
            advanced ==> {
                &&& final(self).stage == RoundStage::Precommitting
                &&& final(self).prevote_ghost matches Some(g) && tree.has_block(g.0) && g.1
                    == tree.number_of(g.0) && supermajority(
                    old(self).authorities@,
                    old(self).prevotes@,
                    *tree,
                    g.0,
                ) && forall|i: int|
                    0 <= i < tree.seq().len() && supermajority(
                        old(self).authorities@,
                        old(self).prevotes@,
                        *tree,
                        (#[trigger] tree.seq()[i]).hash,
                    ) ==> tree.is_ancestor(tree.seq()[i].hash, g.0)
                &&& final(self).prevotes == old(self).prevotes
                &&& final(self).precommits == old(self).precommits
                &&& final(self).authorities == old(self).authorities
                &&& final(self).prevote_equivocators == old(self).prevote_equivocators
                &&& final(self).precommit_equivocators == old(self).precommit_equivocators
                &&& final(self).finalized == old(self).finalized
                &&& final(self).set_id == old(self).set_id
                &&& final(self).round_number == old(self).round_number
            },
    {
        match compute_ghost(tree, &self.authorities, &self.prevotes) {
            Some(g) => {
                proof {
                    tree.lemma_lookup(g.0);
                }
                self.prevote_ghost = Some(g);
                self.stage = RoundStage::Precommitting;
                true
            },
            None => false,
        }
    }

    /// Whether `b` is the block a precommit supermajority singles out: it
    /// holds a supermajority and every supermajority block lies on its line.
    pub open spec fn is_precommit_target(self, tree: BlockTree, b: u64) -> bool {
        &&& tree.has_block(b)
        &&& supermajority(self.authorities@, self.precommits@, tree, b)
        &&& forall|i: int|
            0 <= i < tree.seq().len() && supermajority(
                self.authorities@,
                self.precommits@,
                tree,
                (#[trigger] tree.seq()[i]).hash,
            ) ==> tree.is_ancestor(tree.seq()[i].hash, b)
    }

    /// Tries to conclude the round: it completes exactly when the precommit
    /// tally singles out a block that the prevote ghost covers, and that
    /// block is the round's finalized output.
    pub fn try_complete(&mut self, tree: &BlockTree) -> (r: Option<(u64, u64)>)
        requires
            old(self).wf(*tree),
            tree.wf(),
            old(self).stage == RoundStage::Precommitting,
        ensures
            final(self).wf(*tree),
            match r {
                Some(f) => {
                    &&& old(self).is_precommit_target(*tree, f.0)
                    &&& f.1 == tree.number_of(f.0)
                    &&& (old(self).prevote_ghost matches Some(g) && tree.is_ancestor(f.0, g.0))
                    &&& final(self).stage == RoundStage::Completed
                    &&& final(self).finalized == Some(f)
                    &&& final(self).prevotes == old(self).prevotes
                    &&& final(self).precommits == old(self).precommits
                    &&& final(self).authorities == old(self).authorities
                    &&& final(self).prevote_equivocators == old(self).prevote_equivocators
                    &&& final(self).precommit_equivocators == old(self).precommit_equivocators
                    &&& final(self).prevote_ghost == old(self).prevote_ghost
                    &&& final(self).set_id == old(self).set_id
                    &&& final(self).round_number == old(self).round_number
                },
                None => {
                    &&& *final(self) == *old(self)
                    &&& forall|b: u64|
                        #[trigger] old(self).is_precommit_target(*tree, b) ==> (old(
                            self,
                        ).prevote_ghost matches Some(g) && !tree.is_ancestor(b, g.0))
                },
            },
    {
        let g = match self.prevote_ghost {
            Some(g) => g,
            None => {
                proof {
                    assert(false);
                }
                unreached()
            },
        };
        match compute_ghost(tree, &self.authorities, &self.precommits) {
            Some(pg) => {
                if tree.ancestor_check(pg.0, g.0) {
                    proof {
                        tree.lemma_lookup(pg.0);
                    }
                    self.finalized = Some(pg);
                    self.stage = RoundStage::Completed;
                    Some(pg)
                } else {
                    proof {
                        let o = *self;
                        assert forall|b: u64| #[trigger] o.is_precommit_target(
                            *tree,
                            b,
                        ) implies !tree.is_ancestor(b, g.0) by {
                            // two singled-out blocks are mutual ancestors, hence equal
                            tree.lemma_lookup(b);
                            tree.lemma_lookup(pg.0);
                            assert(tree.is_ancestor(b, pg.0));
                            assert(tree.is_ancestor(pg.0, b));
                            tree.lemma_ancestor_antisym(b, pg.0);
                        }
                    }
                    None
                }
            },
            None => {
                proof {
                    let o = *self;
                    assert forall|b: u64| #[trigger] o.is_precommit_target(
                        *tree,
                        b,
                    ) implies !tree.is_ancestor(b, g.0) by {
                        tree.lemma_lookup(b);
                    }
                }
                None
            },
        }
    }
}

} // verus!
