//! Agreement across tallies.
//!
//! One round's safety theorem speaks of a single tally. Two honest voters
//! of the same round hold two tallies — gossip delivers in any order — yet
//! no common voter speaks two ways across them. This module proves that
//! such a pair of tallies cannot give supermajorities to blocks on
//! different forks: the kernel behind commits from honest voters under one
//! set id and round naming chain-ordered blocks.

use vstd::prelude::*;
use crate::authorities::{Authority, has_authority, unique_ids, weight_of};
use crate::chain::BlockTree;
use crate::round::{
    Vote,
    lemma_supermajority_agreement,
    lemma_support_le_sum,
    supermajority,
    support_weight,
    unique_voters,
    voted_in,
};

verus! {

/// Whether this exact vote sits somewhere in the tally.
pub open spec fn appears(v: Vote, s: Seq<Vote>) -> bool {
    exists|j: int| 0 <= j < s.len() && (#[trigger] s[j]) == v
}

/// The votes of a tally not cast by one authority.
pub open spec fn votes_without(s: Seq<Vote>, a: u64) -> Seq<Vote>
    decreases s.len(),
{
    if s.len() == 0 {
        Seq::empty()
    } else {
        let r = votes_without(s.drop_last(), a);
        if s.last().authority == a {
            r
        } else {
            r.push(s.last())
        }
    }
}

/// Distinct voters stay distinct when the last vote is dropped.
proof fn lemma_drop_last_unique(s: Seq<Vote>)
    requires
        unique_voters(s),
        s.len() > 0,
    ensures
        unique_voters(s.drop_last()),
{
    assert forall|p: int, q: int|
        #![trigger s.drop_last()[p].authority, s.drop_last()[q].authority]
        0 <= p < q < s.drop_last().len() implies s.drop_last()[p].authority
        != s.drop_last()[q].authority by {
        assert(s.drop_last()[p] == s[p]);
        assert(s.drop_last()[q] == s[q]);
    }
}

/// Taking one authority's votes out keeps everyone else's vote, and the
/// distinctness of voters.
#[verifier::spinoff_prover]
#[verifier::rlimit(100)]
proof fn lemma_votes_without_struct(s: Seq<Vote>, a: u64)
    requires
        unique_voters(s),
    ensures
        unique_voters(votes_without(s, a)),
        forall|v: Vote| #[trigger] appears(v, votes_without(s, a)) ==> v.authority != a && appears(v, s),
        forall|i: int|
            0 <= i < s.len() && (#[trigger] s[i]).authority != a ==> appears(
                s[i],
                votes_without(s, a),
            ),
    decreases s.len(),
{
    let r = votes_without(s, a);
    if s.len() > 0 {
        lemma_drop_last_unique(s);
        lemma_votes_without_struct(s.drop_last(), a);
        let rr = votes_without(s.drop_last(), a);
        assert(s[s.len() - 1] == s.last());
        assert forall|v: Vote| #[trigger] appears(v, rr) implies appears(v, s) by {
            let j = choose|j: int| 0 <= j < s.drop_last().len() && (#[trigger] s.drop_last()[j]) == v;
            assert(s[j] == s.drop_last()[j]);
        }
        if s.last().authority != a {
            assert(r == rr.push(s.last()));
            assert forall|v: Vote| #[trigger] appears(v, r) implies v.authority != a && appears(
                v,
                s,
            ) by {
                let i = choose|i: int| 0 <= i < r.len() && (#[trigger] r[i]) == v;
                if i < r.len() - 1 {
                    assert(rr[i] == v);
                    assert(appears(v, rr));
                } else {
                    assert(v == s.last());
                    assert(appears(v, s));
                }
            }
            assert forall|i: int, j: int|
                #![trigger r[i].authority, r[j].authority]
                0 <= i < j < r.len() implies r[i].authority != r[j].authority by {
                if j == r.len() - 1 {
                    assert(r[i] == rr[i]);
                    assert(appears(rr[i], rr));
                    assert(appears(rr[i], s.drop_last()));
                    let p = choose|p: int|
                        0 <= p < s.drop_last().len() && (#[trigger] s.drop_last()[p]) == rr[i];
                    assert(s[p] == s.drop_last()[p]);
                    assert(s[p].authority != s[s.len() - 1].authority);
                } else {
                    assert(r[i] == rr[i]);
                    assert(r[j] == rr[j]);
                }
            }
        } else {
            assert(r == rr);
        }
        assert forall|i: int|
            0 <= i < s.len() && (#[trigger] s[i]).authority != a implies appears(s[i], r) by {
            if i < s.len() - 1 {
                assert(s.drop_last()[i] == s[i]);
                assert(appears(s[i], rr));
                let j = choose|j: int| 0 <= j < rr.len() && (#[trigger] rr[j]) == s[i];
                if s.last().authority != a {
                    assert(r[j] == rr[j]);
                } else {
                    assert(r[j] == rr[j]);
                }
            } else {
                assert(r[r.len() - 1] == s[i]);
            }
        }
    }
}

/// Taking one authority's votes out removes exactly its contribution to a
/// block's support.
#[verifier::spinoff_prover]
#[verifier::rlimit(100)]
proof fn lemma_votes_without_support(
    auths: Seq<Authority>,
    s: Seq<Vote>,
    a: u64,
    tree: BlockTree,
    b: u64,
)
    requires
        unique_voters(s),
    ensures
        forall|k: int|
            0 <= k < s.len() && (#[trigger] s[k]).authority == a ==> support_weight(
                auths,
                s,
                tree,
                b,
            ) == support_weight(auths, votes_without(s, a), tree, b) + (if tree.is_ancestor(
                b,
                s[k].target_hash,
            ) {
                weight_of(auths, a)
            } else {
                0
            }),
        !voted_in(s, a) ==> votes_without(s, a) == s,
    decreases s.len(),
{
    let r = votes_without(s, a);
    if s.len() > 0 {
        lemma_drop_last_unique(s);
        lemma_votes_without_support(auths, s.drop_last(), a, tree, b);
        let rr = votes_without(s.drop_last(), a);
        assert(s[s.len() - 1] == s.last());
        if !voted_in(s, a) {
            assert(!voted_in(s.drop_last(), a)) by {
                if voted_in(s.drop_last(), a) {
                    let i = choose|i: int|
                        0 <= i < s.drop_last().len() && (#[trigger] s.drop_last()[i]).authority
                            == a;
                    assert(s[i] == s.drop_last()[i]);
                }
            }
            assert(r =~= s);
        }
        assert forall|k: int|
            0 <= k < s.len() && (#[trigger] s[k]).authority == a implies support_weight(
            auths,
            s,
            tree,
            b,
        ) == support_weight(auths, r, tree, b) + (if tree.is_ancestor(b, s[k].target_hash) {
            weight_of(auths, a)
        } else {
            0
        }) by {
            if k == s.len() - 1 {
                assert(!voted_in(s.drop_last(), a)) by {
                    if voted_in(s.drop_last(), a) {
                        let i = choose|i: int|
                            0 <= i < s.drop_last().len() && (#[trigger] s.drop_last()[i]).authority
                                == a;
                        assert(s[i] == s.drop_last()[i]);
                    }
                }
                assert(r == s.drop_last());
            } else {
                assert(s.drop_last()[k] == s[k]);
                assert(s.last().authority != a);
                assert(r == rr.push(s.last()));
                assert(r.drop_last() == rr);
                assert(r.last() == s.last());
            }
        }
    }
}

/// A tally whose every vote also sits in a larger tally never out-supports
/// it: support only grows with the votes.
#[verifier::spinoff_prover]
#[verifier::rlimit(100)]
proof fn lemma_subtally_support(
    auths: Seq<Authority>,
    sub: Seq<Vote>,
    m: Seq<Vote>,
    tree: BlockTree,
    b: u64,
)
    requires
        unique_voters(sub),
        unique_voters(m),
        forall|i: int| 0 <= i < sub.len() ==> appears(#[trigger] sub[i], m),
    ensures
        support_weight(auths, sub, tree, b) <= support_weight(auths, m, tree, b),
    decreases sub.len(),
{
    if sub.len() == 0 {
        lemma_support_le_sum(auths, m, tree, b);
    } else {
        let v = sub.last();
        assert(sub[sub.len() - 1] == v);
        let a = v.authority;
        assert(appears(v, m));
        let j = choose|j: int| 0 <= j < m.len() && (#[trigger] m[j]) == v;
        lemma_votes_without_struct(m, a);
        lemma_votes_without_support(auths, m, a, tree, b);
        let m2 = votes_without(m, a);
        assert(support_weight(auths, m, tree, b) == support_weight(auths, m2, tree, b) + (
        if tree.is_ancestor(b, v.target_hash) {
            weight_of(auths, a)
        } else {
            0
        }));
        lemma_drop_last_unique(sub);
        assert forall|i: int| 0 <= i < sub.drop_last().len() implies appears(
            #[trigger] sub.drop_last()[i],
            m2,
        ) by {
            assert(sub.drop_last()[i] == sub[i]);
            assert(sub[i].authority != a);
            assert(appears(sub[i], m));
            let p = choose|p: int| 0 <= p < m.len() && (#[trigger] m[p]) == sub[i];
            assert(m[p].authority != a);
        }
        lemma_subtally_support(auths, sub.drop_last(), m2, tree, b);
    }
}

/// The support of two tallies laid end to end adds up.
proof fn lemma_support_concat(
    auths: Seq<Authority>,
    s1: Seq<Vote>,
    s2: Seq<Vote>,
    tree: BlockTree,
    b: u64,
)
    ensures
        support_weight(auths, s1 + s2, tree, b) == support_weight(auths, s1, tree, b)
            + support_weight(auths, s2, tree, b),
    decreases s2.len(),
{
    if s2.len() == 0 {
        assert(s1 + s2 =~= s1);
    } else {
        assert((s1 + s2).drop_last() =~= s1 + s2.drop_last());
        assert((s1 + s2).last() == s2.last());
        lemma_support_concat(auths, s1, s2.drop_last(), tree, b);
    }
}

/// The votes of `s` whose authority has no counted vote in `base`.
pub open spec fn votes_new_to(s: Seq<Vote>, base: Seq<Vote>) -> Seq<Vote>
    decreases s.len(),
{
    if s.len() == 0 {
        Seq::empty()
    } else {
        let r = votes_new_to(s.drop_last(), base);
        if voted_in(base, s.last().authority) {
            r
        } else {
            r.push(s.last())
        }
    }
}

/// What the new-votes selection keeps: exactly the votes of `s` by
/// authorities absent from `base`, distinct voters preserved.
#[verifier::spinoff_prover]
#[verifier::rlimit(100)]
proof fn lemma_votes_new_to(s: Seq<Vote>, base: Seq<Vote>)
    requires
        unique_voters(s),
    ensures
        unique_voters(votes_new_to(s, base)),
        forall|v: Vote|
            #[trigger] appears(v, votes_new_to(s, base)) ==> !voted_in(base, v.authority)
                && appears(v, s),
        forall|i: int|
            0 <= i < s.len() && !voted_in(base, (#[trigger] s[i]).authority) ==> appears(
                s[i],
                votes_new_to(s, base),
            ),
    decreases s.len(),
{
    let r = votes_new_to(s, base);
    if s.len() > 0 {
        lemma_drop_last_unique(s);
        lemma_votes_new_to(s.drop_last(), base);
        let rr = votes_new_to(s.drop_last(), base);
        assert(s[s.len() - 1] == s.last());
        assert forall|v: Vote| #[trigger] appears(v, rr) implies appears(v, s) by {
            let j = choose|j: int| 0 <= j < s.drop_last().len() && (#[trigger] s.drop_last()[j]) == v;
            assert(s[j] == s.drop_last()[j]);
        }
        if !voted_in(base, s.last().authority) {
            assert(r == rr.push(s.last()));
            assert forall|v: Vote| #[trigger] appears(v, r) implies !voted_in(base, v.authority)
                && appears(v, s) by {
                let i = choose|i: int| 0 <= i < r.len() && (#[trigger] r[i]) == v;
                if i < r.len() - 1 {
                    assert(rr[i] == v);
                    assert(appears(v, rr));
                } else {
                    assert(v == s.last());
                    assert(appears(v, s));
                }
            }
            assert forall|i: int, j: int|
                #![trigger r[i].authority, r[j].authority]
                0 <= i < j < r.len() implies r[i].authority != r[j].authority by {
                if j == r.len() - 1 {
                    assert(r[i] == rr[i]);
                    assert(appears(rr[i], rr));
                    assert(appears(rr[i], s.drop_last()));
                    let p = choose|p: int|
                        0 <= p < s.drop_last().len() && (#[trigger] s.drop_last()[p]) == rr[i];
                    assert(s[p] == s.drop_last()[p]);
                    assert(s[p].authority != s[s.len() - 1].authority);
                } else {
                    assert(r[i] == rr[i]);
                    assert(r[j] == rr[j]);
                }
            }
        } else {
            assert(r == rr);
        }
        assert forall|i: int|
            0 <= i < s.len() && !voted_in(base, (#[trigger] s[i]).authority) implies appears(
            s[i],
            r,
        ) by {
            if i < s.len() - 1 {
                assert(s.drop_last()[i] == s[i]);
                assert(appears(s[i], rr));
                let j = choose|j: int| 0 <= j < rr.len() && (#[trigger] rr[j]) == s[i];
                assert(r[j] == rr[j]);
            } else {
                assert(r[r.len() - 1] == s[i]);
            }
        }
    }
}

/// Two cross-consistent tallies merge into one sound tally that contains
/// each of them vote for vote.
#[verifier::spinoff_prover]
#[verifier::rlimit(100)]
proof fn lemma_merge_tallies(auths: Seq<Authority>, votes1: Seq<Vote>, votes2: Seq<Vote>)
    requires
        unique_voters(votes1),
        unique_voters(votes2),
        forall|i: int|
            0 <= i < votes1.len() ==> has_authority(auths, (#[trigger] votes1[i]).authority),
        forall|i: int|
            0 <= i < votes2.len() ==> has_authority(auths, (#[trigger] votes2[i]).authority),
        forall|i: int, j: int|
            #![trigger votes1[i].authority, votes2[j].authority]
            0 <= i < votes1.len() && 0 <= j < votes2.len() && votes1[i].authority
                == votes2[j].authority ==> votes1[i] == votes2[j],
    ensures
        ({
            let merged = votes1 + votes_new_to(votes2, votes1);
            &&& unique_voters(merged)
            &&& forall|i: int|
                0 <= i < merged.len() ==> has_authority(auths, (#[trigger] merged[i]).authority)
            &&& forall|i: int| 0 <= i < votes2.len() ==> appears(#[trigger] votes2[i], merged)
        }),
{
    lemma_votes_new_to(votes2, votes1);
    let extras = votes_new_to(votes2, votes1);
    let merged = votes1 + extras;
    assert forall|i: int, j: int|
        #![trigger merged[i].authority, merged[j].authority]
        0 <= i < j < merged.len() implies merged[i].authority != merged[j].authority by {
        if j < votes1.len() {
        } else if i < votes1.len() {
            assert(merged[i] == votes1[i]);
            assert(merged[j] == extras[j - votes1.len()]);
            assert(appears(extras[j - votes1.len()], extras));
            assert(!voted_in(votes1, extras[j - votes1.len()].authority));
        } else {
            assert(merged[i] == extras[i - votes1.len()]);
            assert(merged[j] == extras[j - votes1.len()]);
        }
    }
    assert forall|i: int| 0 <= i < merged.len() implies has_authority(
        auths,
        (#[trigger] merged[i]).authority,
    ) by {
        if i < votes1.len() {
            assert(merged[i] == votes1[i]);
        } else {
            assert(merged[i] == extras[i - votes1.len()]);
            assert(appears(extras[i - votes1.len()], extras));
            assert(appears(extras[i - votes1.len()], votes2));
            let j = choose|j: int|
                0 <= j < votes2.len() && (#[trigger] votes2[j]) == extras[i - votes1.len()];
        }
    }
    assert forall|i: int| 0 <= i < votes2.len() implies appears(#[trigger] votes2[i], merged) by {
        if voted_in(votes1, votes2[i].authority) {
            let k = choose|k: int|
                0 <= k < votes1.len() && (#[trigger] votes1[k]).authority == votes2[i].authority;
            assert(votes1[k] == votes2[i]);
            assert(merged[k] == votes1[k]);
        } else {
            assert(appears(votes2[i], extras));
            let k = choose|k: int| 0 <= k < extras.len() && (#[trigger] extras[k]) == votes2[i];
            assert(merged[votes1.len() + k] == extras[k]);
        }
    }
}

/// Cross-tally agreement: two tallies of one authority set in which no
/// common voter voted two ways — the tallies of two honest voters for one
/// round, however gossip interleaved — cannot give supermajorities to
/// blocks on different forks. Two honest voters' finality commits under one
/// set id and round therefore name chain-ordered blocks.
#[verifier::spinoff_prover]
#[verifier::rlimit(100)]
pub proof fn lemma_cross_tally_agreement(
    auths: Seq<Authority>,
    votes1: Seq<Vote>,
    votes2: Seq<Vote>,
    tree: BlockTree,
    b1: u64,
    b2: u64,
)
    requires
        tree.wf(),
        unique_ids(auths),
        unique_voters(votes1),
        unique_voters(votes2),
        forall|i: int|
            0 <= i < votes1.len() ==> has_authority(auths, (#[trigger] votes1[i]).authority),
        forall|i: int|
            0 <= i < votes2.len() ==> has_authority(auths, (#[trigger] votes2[i]).authority),
        forall|i: int, j: int|
            #![trigger votes1[i].authority, votes2[j].authority]
            0 <= i < votes1.len() && 0 <= j < votes2.len() && votes1[i].authority
                == votes2[j].authority ==> votes1[i] == votes2[j],
        supermajority(auths, votes1, tree, b1),
        supermajority(auths, votes2, tree, b2),
    ensures
        tree.is_ancestor(b1, b2) || tree.is_ancestor(b2, b1),
{
    lemma_merge_tallies(auths, votes1, votes2);
    let extras = votes_new_to(votes2, votes1);
    let merged = votes1 + extras;
    lemma_support_concat(auths, votes1, extras, tree, b1);
    lemma_support_le_sum(auths, extras, tree, b1);
    assert(support_weight(auths, merged, tree, b1) >= support_weight(auths, votes1, tree, b1));
    lemma_subtally_support(auths, votes2, merged, tree, b2);
    lemma_supermajority_agreement(auths, merged, tree, b1, b2);
}

} // verus!
