//! The active validator set and its pending, block-anchored changes.
//!
//! An [`AuthoritySet`] carries the current authority list tagged with a
//! monotonically increasing set id, and the changes that block import has
//! scheduled but finalization has not yet enacted. Changes are scheduled by
//! the import hook and enacted only by [`AuthoritySet::apply_changes_up_to`],
//! strictly tied to finalization, so every honest voter enacts a given change
//! at the same finalized point.

use vstd::prelude::*;
use crate::chain::BlockTree;

verus! {

/// The height at which a pending change takes effect: its trigger block's
/// height plus its delay.
pub open spec fn change_effective_at(c: PendingChange) -> int {
    c.trigger_number + c.change.delay
}

/// A pending change may be enacted at a finalized block when its delay has
/// elapsed there and its trigger block lies on the finalized line.
pub open spec fn eligible(c: PendingChange, tree: BlockTree, f_hash: u64, f_number: u64) -> bool {
    change_effective_at(c) <= f_number && tree.is_ancestor(c.trigger_hash, f_hash)
}

/// Which of the first `n` pending changes is enacted: the eligible one with
/// the lowest trigger height, ties broken by insertion order.
pub open spec fn pick_from(
    s: Seq<PendingChange>,
    tree: BlockTree,
    f_hash: u64,
    f_number: u64,
    n: int,
) -> Option<int>
    decreases n,
{
    if n <= 0 {
        None
    } else {
        let prev = pick_from(s, tree, f_hash, f_number, n - 1);
        if eligible(s[n - 1], tree, f_hash, f_number) {
            match prev {
                None => Some(n - 1),
                Some(k) => if s[n - 1].trigger_number < s[k].trigger_number {
                    Some(n - 1)
                } else {
                    Some(k)
                },
            }
        } else {
            prev
        }
    }
}

/// The pending change that `apply_changes_up_to` enacts, if any.
pub open spec fn pick_eligible(
    s: Seq<PendingChange>,
    tree: BlockTree,
    f_hash: u64,
    f_number: u64,
) -> Option<int> {
    pick_from(s, tree, f_hash, f_number, s.len() as int)
}

/// What the pick promises: an eligible change of least trigger height,
/// earliest on a tie; `None` only when nothing is eligible.
pub proof fn lemma_pick_from(
    s: Seq<PendingChange>,
    tree: BlockTree,
    f_hash: u64,
    f_number: u64,
    n: int,
)
    requires
        0 <= n <= s.len(),
    ensures
        match pick_from(s, tree, f_hash, f_number, n) {
            Some(k) => {
                &&& 0 <= k < n
                &&& eligible(s[k], tree, f_hash, f_number)
                &&& forall|i: int|
                    0 <= i < n && eligible(#[trigger] s[i], tree, f_hash, f_number) ==> s[k].trigger_number
                        <= s[i].trigger_number && (s[i].trigger_number == s[k].trigger_number ==> k
                        <= i)
            },
            None => forall|i: int| 0 <= i < n ==> !eligible(#[trigger] s[i], tree, f_hash, f_number),
        },
    decreases n,
{
    if n > 0 {
        lemma_pick_from(s, tree, f_hash, f_number, n - 1);
    }
}

/// Enactment is deterministic: two voters whose pending changes agree on
/// every anchor — trigger block, trigger height and delay — pick the same
/// change at the same finalized block, however the rest of their records
/// differ. All honest voters therefore enact each change at one finalized
/// height.
pub proof fn lemma_enactment_deterministic(
    s1: Seq<PendingChange>,
    s2: Seq<PendingChange>,
    tree: BlockTree,
    f_hash: u64,
    f_number: u64,
)
    requires
        s1.len() == s2.len(),
        forall|i: int|
            0 <= i < s1.len() ==> (#[trigger] s1[i]).trigger_hash == (#[trigger] s2[i]).trigger_hash
                && s1[i].trigger_number == s2[i].trigger_number && s1[i].change.delay
                == s2[i].change.delay,
    ensures
        pick_eligible(s1, tree, f_hash, f_number) == pick_eligible(s2, tree, f_hash, f_number),
{
    lemma_pick_congruent(s1, s2, tree, f_hash, f_number, s1.len() as int);
}

proof fn lemma_pick_congruent(
    s1: Seq<PendingChange>,
    s2: Seq<PendingChange>,
    tree: BlockTree,
    f_hash: u64,
    f_number: u64,
    n: int,
)
    requires
        s1.len() == s2.len(),
        0 <= n <= s1.len(),
        forall|i: int|
            0 <= i < s1.len() ==> (#[trigger] s1[i]).trigger_hash == (#[trigger] s2[i]).trigger_hash
                && s1[i].trigger_number == s2[i].trigger_number && s1[i].change.delay
                == s2[i].change.delay,
    ensures
        pick_from(s1, tree, f_hash, f_number, n) == pick_from(s2, tree, f_hash, f_number, n),
    decreases n,
{
    if n > 0 {
        lemma_pick_congruent(s1, s2, tree, f_hash, f_number, n - 1);
        lemma_pick_from(s1, tree, f_hash, f_number, n - 1);
        assert(eligible(s1[n - 1], tree, f_hash, f_number) == eligible(
            s2[n - 1],
            tree,
            f_hash,
            f_number,
        ));
        match pick_from(s1, tree, f_hash, f_number, n - 1) {
            Some(k) => {
                assert(s1[k].trigger_number == s2[k].trigger_number);
            },
            None => {},
        }
    }
}

/// Whether a pending change survives an enactment at a finalized block: it
/// survives when it is still reachable — anchored on the finalized line,
/// above or below the finalized block — and not yet effective there.
/// Everything else — the enacted change, its already-effective competitors,
/// changes on forks pruned by finalization — is discarded.
pub open spec fn keep_after(c: PendingChange, tree: BlockTree, f_hash: u64, f_number: u64) -> bool {
    (tree.is_ancestor(f_hash, c.trigger_hash) || tree.is_ancestor(c.trigger_hash, f_hash))
        && change_effective_at(c) > f_number
}

/// The pending changes that survive an enactment, in their old order.
pub open spec fn kept_changes(
    s: Seq<PendingChange>,
    tree: BlockTree,
    f_hash: u64,
    f_number: u64,
) -> Seq<PendingChange>
    decreases s.len(),
{
    if s.len() == 0 {
        Seq::empty()
    } else {
        let r = kept_changes(s.drop_last(), tree, f_hash, f_number);
        if keep_after(s.last(), tree, f_hash, f_number) {
            r.push(s.last())
        } else {
            r
        }
    }
}

/// The surviving changes are a subselection of the old ones: each comes from
/// the old list, satisfies the keep rule, and distinct trigger blocks stay
/// distinct.
pub proof fn lemma_kept_changes(s: Seq<PendingChange>, tree: BlockTree, f_hash: u64, f_number: u64)
    requires
        forall|i: int, j: int|
            #![trigger s[i].trigger_hash, s[j].trigger_hash]
            0 <= i < j < s.len() ==> s[i].trigger_hash != s[j].trigger_hash,
    ensures
        ({
            let r = kept_changes(s, tree, f_hash, f_number);
            &&& forall|i: int|
                0 <= i < r.len() ==> exists|j: int| 0 <= j < s.len() && s[j] == #[trigger] r[i]
            &&& forall|i: int|
                0 <= i < r.len() ==> keep_after(#[trigger] r[i], tree, f_hash, f_number)
            &&& forall|i: int, j: int|
                #![trigger r[i].trigger_hash, r[j].trigger_hash]
                0 <= i < j < r.len() ==> r[i].trigger_hash != r[j].trigger_hash
        }),
    decreases s.len(),
{
    if s.len() > 0 {
        lemma_kept_changes(s.drop_last(), tree, f_hash, f_number);
        let rr = kept_changes(s.drop_last(), tree, f_hash, f_number);
        let r = kept_changes(s, tree, f_hash, f_number);
        assert forall|i: int| 0 <= i < rr.len() implies exists|j: int|
            0 <= j < s.len() && s[j] == #[trigger] rr[i] by {
            let j = choose|j: int| 0 <= j < s.drop_last().len() && s.drop_last()[j] == rr[i];
            assert(s[j] == s.drop_last()[j]);
        }
        if keep_after(s.last(), tree, f_hash, f_number) {
            assert(r == rr.push(s.last()));
            assert forall|i: int, j: int|
                #![trigger r[i].trigger_hash, r[j].trigger_hash]
                0 <= i < j < r.len() implies r[i].trigger_hash != r[j].trigger_hash by {
                if j == r.len() - 1 {
                    assert(r[i] == rr[i]);
                    let k = choose|k: int| 0 <= k < s.drop_last().len() && s.drop_last()[k] == rr[i];
                    assert(s[k] == s.drop_last()[k]);
                    assert(s[k].trigger_hash != s[s.len() - 1].trigger_hash);
                } else {
                    assert(r[i] == rr[i]);
                    assert(r[j] == rr[j]);
                }
            }
        }
    }
}

/// A validator: an opaque public-key identity and a positive voting weight.
#[derive(Clone, Copy, PartialEq, Eq, Structural, Debug)]
pub struct Authority {
    pub id: u64,
    pub weight: u64,
}

/// A future authority-set replacement: the next list, and how many blocks
/// after the trigger block it takes effect.
#[derive(Debug)]
pub struct ScheduledChange {
    pub next_authorities: Vec<Authority>,
    pub delay: u64,
}

/// A scheduled change anchored at the block that will trigger it.
#[derive(Debug)]
pub struct PendingChange {
    pub trigger_hash: u64,
    pub trigger_number: u64,
    pub change: ScheduledChange,
}

/// Why the authority set refused an operation.
#[derive(Clone, Copy, PartialEq, Eq, Structural, Debug)]
pub enum SetError {
    /// A pending change already sits at this trigger block.
    DuplicateChange,
    /// The authority list is empty, repeats an id, has a zero weight, or its
    /// total weight does not fit the weight type.
    InvalidAuthorities,
}

/// No two authorities share an id.
pub open spec fn unique_ids(s: Seq<Authority>) -> bool {
    forall|i: int, j: int|
        #![trigger s[i].id, s[j].id]
        0 <= i < j < s.len() ==> s[i].id != s[j].id
}

/// The summed voting weight of a list.
pub open spec fn total_weight(s: Seq<Authority>) -> int
    decreases s.len(),
{
    if s.len() == 0 {
        0
    } else {
        total_weight(s.drop_last()) + s.last().weight
    }
}

/// The weight of the authority with this id, 0 when absent.
pub open spec fn weight_of(s: Seq<Authority>, id: u64) -> int
    decreases s.len(),
{
    if s.len() == 0 {
        0
    } else if s.last().id == id {
        s.last().weight as int
    } else {
        weight_of(s.drop_last(), id)
    }
}

/// Whether the list holds an authority with this id.
pub open spec fn has_authority(s: Seq<Authority>, id: u64) -> bool {
    exists|i: int| 0 <= i < s.len() && (#[trigger] s[i].id) == id
}

/// A usable authority list: non-empty, unique ids, positive weights, total
/// weight within `u64`.
pub open spec fn valid_authorities(s: Seq<Authority>) -> bool {
    &&& s.len() >= 1
    &&& unique_ids(s)
    &&& forall|i: int| 0 <= i < s.len() ==> (#[trigger] s[i].weight) >= 1
    &&& total_weight(s) <= u64::MAX
}

/// The list with the one authority of this id taken out.
pub open spec fn remove_authority(s: Seq<Authority>, id: u64) -> Seq<Authority>
    decreases s.len(),
{
    if s.len() == 0 {
        Seq::empty()
    } else if s.last().id == id {
        s.drop_last()
    } else {
        remove_authority(s.drop_last(), id).push(s.last())
    }
}

/// The total weight is never negative.
pub proof fn lemma_total_nonneg(s: Seq<Authority>)
    ensures
        total_weight(s) >= 0,
    decreases s.len(),
{
    if s.len() > 0 {
        lemma_total_nonneg(s.drop_last());
    }
}

/// Each single weight is within the total, and a missing id weighs nothing.
pub proof fn lemma_weight_of(s: Seq<Authority>, id: u64)
    ensures
        0 <= weight_of(s, id) <= total_weight(s),
        !has_authority(s, id) ==> weight_of(s, id) == 0,
        has_authority(s, id) && (forall|i: int|
            0 <= i < s.len() ==> (#[trigger] s[i].weight) >= 1) ==> weight_of(s, id) >= 1,
    decreases s.len(),
{
    lemma_total_nonneg(s);
    if s.len() > 0 {
        lemma_weight_of(s.drop_last(), id);
        lemma_total_nonneg(s.drop_last());
        if has_authority(s, id) && s.last().id != id {
            let i = choose|i: int| 0 <= i < s.len() && (#[trigger] s[i].id) == id;
            assert(s.drop_last()[i] == s[i]);
        }
        if has_authority(s.drop_last(), id) {
            let i = choose|i: int| 0 <= i < s.drop_last().len() && (#[trigger] s.drop_last()[i].id) == id;
            assert(s[i] == s.drop_last()[i]);
        }
    }
}

/// Taking one authority out removes its weight and nothing else: the rest
/// keep their ids, weights and uniqueness.
pub proof fn lemma_remove_authority(s: Seq<Authority>, id: u64)
    requires
        unique_ids(s),
        has_authority(s, id),
    ensures
        unique_ids(remove_authority(s, id)),
        !has_authority(remove_authority(s, id), id),
        total_weight(remove_authority(s, id)) + weight_of(s, id) == total_weight(s),
        forall|o: u64|
            o != id ==> #[trigger] weight_of(remove_authority(s, id), o) == weight_of(s, o),
        forall|o: u64|
            o != id ==> (#[trigger] has_authority(remove_authority(s, id), o) <==> has_authority(
                s,
                o,
            )),
        forall|i: int|
            0 <= i < remove_authority(s, id).len() ==> exists|j: int|
                0 <= j < s.len() && s[j] == #[trigger] remove_authority(s, id)[i],
    decreases s.len(),
{
    let r = remove_authority(s, id);
    if s.last().id == id {
        assert(r == s.drop_last());
        assert forall|o: u64| o != id implies #[trigger] weight_of(r, o) == weight_of(s, o) by {}
        assert forall|o: u64| o != id implies (#[trigger] has_authority(r, o) <==> has_authority(
            s,
            o,
        )) by {
            if has_authority(s, o) {
                let i = choose|i: int| 0 <= i < s.len() && (#[trigger] s[i].id) == o;
                assert(i < s.len() - 1);
                assert(r[i] == s[i]);
            }
            if has_authority(r, o) {
                let i = choose|i: int| 0 <= i < r.len() && (#[trigger] r[i].id) == o;
                assert(s[i] == r[i]);
            }
        }
        assert(!has_authority(r, id)) by {
            if has_authority(r, id) {
                let i = choose|i: int| 0 <= i < r.len() && (#[trigger] r[i].id) == id;
                assert(s[i].id == s[s.len() - 1].id);
            }
        }
        assert forall|i: int| 0 <= i < r.len() implies exists|j: int|
            0 <= j < s.len() && s[j] == #[trigger] r[i] by {
            assert(s[i] == r[i]);
        }
    } else {
        // the removed authority sits strictly inside the prefix
        assert(has_authority(s.drop_last(), id)) by {
            let i = choose|i: int| 0 <= i < s.len() && (#[trigger] s[i].id) == id;
            assert(i < s.len() - 1);
            assert(s.drop_last()[i] == s[i]);
        }
        lemma_remove_authority(s.drop_last(), id);
        let rr = remove_authority(s.drop_last(), id);
        assert(r == rr.push(s.last()));
        assert(r.drop_last() == rr);
        assert(r.last() == s.last());
        assert forall|o: u64| o != id implies #[trigger] weight_of(r, o) == weight_of(s, o) by {
            if s.last().id != o {
                assert(weight_of(r, o) == weight_of(rr, o));
            }
        }
        // uniqueness: the pushed last differs from everything in rr
        assert forall|i: int, j: int|
            #![trigger r[i].id, r[j].id]
            0 <= i < j < r.len() implies r[i].id != r[j].id by {
            if j == r.len() - 1 {
                assert(r[i] == rr[i]);
                let k = choose|k: int| 0 <= k < s.drop_last().len() && s.drop_last()[k] == rr[i];
                assert(s[k] == s.drop_last()[k]);
                assert(s[k].id != s[s.len() - 1].id);
            } else {
                assert(r[i] == rr[i]);
                assert(r[j] == rr[j]);
            }
        }
        assert(!has_authority(r, id)) by {
            if has_authority(r, id) {
                let i = choose|i: int| 0 <= i < r.len() && (#[trigger] r[i].id) == id;
                if i < r.len() - 1 {
                    assert(rr[i].id == id);
                }
            }
        }
        assert forall|o: u64| o != id implies (#[trigger] has_authority(r, o) <==> has_authority(
            s,
            o,
        )) by {
            if has_authority(s, o) {
                let i = choose|i: int| 0 <= i < s.len() && (#[trigger] s[i].id) == o;
                if i == s.len() - 1 {
                    assert(r[r.len() - 1].id == o);
                } else {
                    assert(s.drop_last()[i] == s[i]);
                    assert(has_authority(s.drop_last(), o));
                    assert(has_authority(rr, o));
                    let k = choose|k: int| 0 <= k < rr.len() && (#[trigger] rr[k].id) == o;
                    assert(r[k] == rr[k]);
                }
            }
            if has_authority(r, o) {
                let i = choose|i: int| 0 <= i < r.len() && (#[trigger] r[i].id) == o;
                if i == r.len() - 1 {
                    assert(s[s.len() - 1].id == o);
                } else {
                    assert(rr[i].id == o);
                    assert(has_authority(rr, o));
                    assert(has_authority(s.drop_last(), o));
                    let k = choose|k: int|
                        0 <= k < s.drop_last().len() && (#[trigger] s.drop_last()[k].id) == o;
                    assert(s[k] == s.drop_last()[k]);
                }
            }
        }
        assert forall|i: int| 0 <= i < r.len() implies exists|j: int|
            0 <= j < s.len() && s[j] == #[trigger] r[i] by {
            if i == r.len() - 1 {
                assert(s[s.len() - 1] == r[i]);
            } else {
                assert(r[i] == rr[i]);
                let k = choose|k: int| 0 <= k < s.drop_last().len() && s.drop_last()[k] == rr[i];
                assert(s[k] == s.drop_last()[k]);
            }
        }
    }
}

/// A prefix never weighs more than the whole list.
pub proof fn lemma_total_take_le(s: Seq<Authority>, i: int)
    requires
        0 <= i <= s.len(),
    ensures
        total_weight(s.take(i)) <= total_weight(s),
    decreases s.len() - i,
{
    if i == s.len() {
        assert(s.take(i) =~= s);
    } else {
        lemma_total_take_le(s, i + 1);
        assert(s.take(i + 1).drop_last() =~= s.take(i));
        assert(s.take(i + 1).last() == s[i]);
    }
}

/// The total weight of a list is at most its length times the largest weight.
pub proof fn lemma_total_bound(s: Seq<Authority>)
    ensures
        total_weight(s) <= s.len() * (u64::MAX as int),
    decreases s.len(),
{
    if s.len() > 0 {
        lemma_total_bound(s.drop_last());
        assert((s.len() - 1) * (u64::MAX as int) + u64::MAX == s.len() * (u64::MAX as int))
            by (nonlinear_arith);
    }
}

/// A field-for-field copy of an authority list.
pub fn copy_authorities(v: &Vec<Authority>) -> (r: Vec<Authority>)
    ensures
        r@ == v@,
{
    let mut out: Vec<Authority> = Vec::new();
    let n = v.len();
    let mut i: usize = 0;
    while i < n
        invariant
            n == v@.len(),
            0 <= i <= n,
            out@ == v@.take(i as int),
        decreases n - i,
    {
        out.push(v[i]);
        proof {
            assert(out@ =~= v@.take(i + 1 as int));
        }
        i = i + 1;
    }
    proof {
        assert(v@.take(n as int) =~= v@);
    }
    out
}

/// Decides `valid_authorities` for a list.
pub fn check_authorities(v: &Vec<Authority>) -> (r: bool)
    ensures
        r == valid_authorities(v@),
{
    let n = v.len();
    if n == 0 {
        return false;
    }
    // unique ids, positive weights
    let mut i: usize = 0;
    while i < n
        invariant
            n == v@.len(),
            0 <= i <= n,
            forall|p: int, q: int|
                #![trigger v@[p].id, v@[q].id]
                0 <= p < q < i ==> v@[p].id != v@[q].id,
            forall|p: int| 0 <= p < i ==> (#[trigger] v@[p].weight) >= 1,
        decreases n - i,
    {
        if v[i].weight == 0 {
            return false;
        }
        let mut j: usize = 0;
        while j < i
            invariant
                n == v@.len(),
                0 <= j <= i < n,
                forall|p: int| 0 <= p < j ==> (#[trigger] v@[p].id) != v@[i as int].id,
            decreases i - j,
        {
            if v[j].id == v[i].id {
                return false;
            }
            j = j + 1;
        }
        i = i + 1;
    }
    // total weight fits u64
    let mut sum: u128 = 0;
    let mut k: usize = 0;
    while k < n
        invariant
            n == v@.len(),
            0 <= k <= n,
            sum == total_weight(v@.take(k as int)),
            forall|p: int| 0 <= p < n ==> (#[trigger] v@[p].weight) >= 1,
        decreases n - k,
    {
        proof {
            lemma_total_nonneg(v@.take(k as int));
            lemma_total_bound(v@.take(k as int));
            assert((k as int) * (u64::MAX as int) + (u64::MAX as int) <= u128::MAX as int)
                by (nonlinear_arith)
                requires
                    0 <= k <= u64::MAX,
            ;
            assert(v@.take(k + 1 as int).drop_last() =~= v@.take(k as int));
        }
        sum = sum + v[k] .weight as u128;
        k = k + 1;
    }
    proof {
        assert(v@.take(n as int) =~= v@);
    }
    sum <= u64::MAX as u128
}

/// The validator set in force, with the changes scheduled but not yet
/// enacted. The set id starts at 0 at genesis and rises by one at every
/// enactment.
#[derive(Debug)]
pub struct AuthoritySet {
    pub set_id: u64,
    pub authorities: Vec<Authority>,
    pub pending: Vec<PendingChange>,
}

impl AuthoritySet {
    /// Well-formedness: a usable current list; pending changes anchored at
    /// distinct trigger blocks, each carrying a usable next list and an
    /// effective height that fits the block-number type.
    pub open spec fn wf(self) -> bool {
        &&& valid_authorities(self.authorities@)
        &&& forall|i: int, j: int|
            #![trigger self.pending@[i].trigger_hash, self.pending@[j].trigger_hash]
            0 <= i < j < self.pending@.len() ==> self.pending@[i].trigger_hash
                != self.pending@[j].trigger_hash
        &&& forall|i: int|
            0 <= i < self.pending@.len() ==> valid_authorities(
                (#[trigger] self.pending@[i]).change.next_authorities@,
            ) && self.pending@[i].trigger_number + self.pending@[i].change.delay <= u64::MAX
    }

    /// The set at genesis: the given list under set id 0, nothing pending.
    /// Rejected exactly when the list is not usable.
    pub fn genesis(authorities: Vec<Authority>) -> (r: Result<AuthoritySet, SetError>)
        ensures
            match r {
                Ok(s) => {
                    &&& valid_authorities(authorities@)
                    &&& s.set_id == 0
                    &&& s.authorities@ == authorities@
                    &&& s.pending@.len() == 0
                    &&& s.wf()
                },
                Err(e) => e == SetError::InvalidAuthorities && !valid_authorities(authorities@),
            },
    {
        if !check_authorities(&authorities) {
            return Err(SetError::InvalidAuthorities);
        }
        Ok(AuthoritySet { set_id: 0, authorities, pending: Vec::new() })
    }

    /// A read-only snapshot of the active set: its id and its list.
    pub fn current(&self) -> (r: (u64, Vec<Authority>))
        ensures
            r.0 == self.set_id,
            r.1@ == self.authorities@,
    {
        (self.set_id, copy_authorities(&self.authorities))
    }

    /// Schedules a change at a trigger block. Fails with `DuplicateChange`
    /// exactly when an equal trigger already holds a change; otherwise the
    /// pending list grows by this change.
    pub fn add_pending_change(
        &mut self,
        trigger_hash: u64,
        trigger_number: u64,
        change: ScheduledChange,
    ) -> (r: Result<(), SetError>)
        requires
            old(self).wf(),
            valid_authorities(change.next_authorities@),
            trigger_number + change.delay <= u64::MAX,
        ensures
            final(self).wf(),
            match r {
                Ok(()) => {
                    &&& !(exists|i: int|
                        0 <= i < old(self).pending@.len() && (#[trigger] old(
                            self,
                        ).pending@[i]).trigger_hash == trigger_hash)
                    &&& final(self).pending@.len() == old(self).pending@.len() + 1
                    &&& final(self).pending@.last() == (PendingChange {
                        trigger_hash,
                        trigger_number,
                        change,
                    })
                    &&& final(self).pending@.drop_last() == old(self).pending@
                    &&& final(self).set_id == old(self).set_id
                    &&& final(self).authorities@ == old(self).authorities@
                },
                Err(e) => {
                    &&& e == SetError::DuplicateChange
                    &&& exists|i: int|
                        0 <= i < old(self).pending@.len() && (#[trigger] old(
                            self,
                        ).pending@[i]).trigger_hash == trigger_hash
                    &&& *final(self) == *old(self)
                },
            },
    {
        let n = self.pending.len();
        let mut i: usize = 0;
        while i < n
            invariant
                *self == *old(self),
                self.wf(),
                n == self.pending@.len(),
                0 <= i <= n,
                forall|k: int| 0 <= k < i ==> (#[trigger] self.pending@[k]).trigger_hash != trigger_hash,
            decreases n - i,
        {
            if self.pending[i].trigger_hash == trigger_hash {
                return Err(SetError::DuplicateChange);
            }
            i = i + 1;
        }
        self.pending.push(PendingChange { trigger_hash, trigger_number, change });
        Ok(())
    }

    /// Enacts at most one pending change at a newly finalized block: the
    /// eligible change of least trigger height (earliest scheduled on a tie),
    /// if any. On enactment the set id rises by one, the enacted list becomes
    /// current, and only changes anchored on the surviving line and not yet
    /// effective stay pending. With no eligible change nothing moves.
    pub fn apply_changes_up_to(
        &mut self,
        tree: &BlockTree,
        finalized_hash: u64,
        finalized_number: u64,
    ) -> (r: Option<(u64, Vec<Authority>)>)
        requires
            old(self).wf(),
            tree.wf(),
            tree.has_block(finalized_hash),
            tree.number_of(finalized_hash) == finalized_number,
            old(self).set_id < u64::MAX,
        ensures
            final(self).wf(),
            match r {
                None => {
                    &&& pick_eligible(old(self).pending@, *tree, finalized_hash, finalized_number)
                        is None
                    &&& *final(self) == *old(self)
                },
                Some(t) => {
                    &&& pick_eligible(old(self).pending@, *tree, finalized_hash, finalized_number)
                        matches Some(k) && t.1@ == old(self).pending@[k].change.next_authorities@
                    &&& t.0 == old(self).set_id + 1
                    &&& final(self).set_id == old(self).set_id + 1
                    &&& final(self).authorities@ == t.1@
                    &&& final(self).pending@ == kept_changes(
                        old(self).pending@,
                        *tree,
                        finalized_hash,
                        finalized_number,
                    )
                },
            },
    {
        let ghost o = self.pending@;
        let n = self.pending.len();
        let mut best: Option<usize> = None;
        let mut i: usize = 0;
        while i < n
            invariant
                *self == *old(self),
                self.wf(),
                tree.wf(),
                n == self.pending@.len(),
                o == self.pending@,
                0 <= i <= n,
                match best {
                    None => pick_from(o, *tree, finalized_hash, finalized_number, i as int)
                        is None,
                    Some(b) => 0 <= b < i && pick_from(
                        o,
                        *tree,
                        finalized_hash,
                        finalized_number,
                        i as int,
                    ) == Some(b as int),
                },
            decreases n - i,
        {
            let c = &self.pending[i];
            let effective = c.trigger_number + c.change.delay;
            if effective <= finalized_number && tree.ancestor_check(c.trigger_hash, finalized_hash)
            {
                match best {
                    None => {
                        best = Some(i);
                    },
                    Some(b) => {
                        if self.pending[i].trigger_number < self.pending[b].trigger_number {
                            best = Some(i);
                        }
                    },
                }
            }
            i = i + 1;
        }
        let k = match best {
            None => {
                return None;
            },
            Some(k) => k,
        };
        let new_authorities = copy_authorities(&self.pending[k].change.next_authorities);
        let new_set_id = self.set_id + 1;

        // drain the pending list, then rebuild it with the survivors
        let ghost len = o.len() as int;
        let mut rev: Vec<PendingChange> = Vec::new();
        while self.pending.len() > 0
            invariant
                len == o.len(),
                self.pending@.len() + rev@.len() == len,
                self.pending@ == o.take(self.pending@.len() as int),
                forall|p: int| 0 <= p < rev@.len() ==> #[trigger] rev@[p] == o[len - 1 - p],
            decreases self.pending@.len(),
        {
            let ghost m = self.pending@.len() as int;
            match self.pending.pop() {
                Some(c) => {
                    proof {
                        assert(o.take(m).last() == o[m - 1]);
                        assert(self.pending@ =~= o.take(m - 1));
                    }
                    rev.push(c);
                },
                None => {
                    proof {
                        assert(false);
                    }
                },
            }
        }
        let mut kept: Vec<PendingChange> = Vec::new();
        let mut done: usize = 0;
        while rev.len() > 0
            invariant
                tree.wf(),
                n == len,
                len == o.len(),
                done + rev@.len() == len,
                0 <= done <= len,
                forall|p: int| 0 <= p < rev@.len() ==> #[trigger] rev@[p] == o[len - 1 - p],
                kept@ == kept_changes(o.take(done as int), *tree, finalized_hash, finalized_number),
                forall|p: int, q: int|
                    #![trigger o[p].trigger_hash, o[q].trigger_hash]
                    0 <= p < q < len ==> o[p].trigger_hash != o[q].trigger_hash,
                forall|p: int|
                    0 <= p < len ==> valid_authorities(
                        (#[trigger] o[p]).change.next_authorities@,
                    ) && o[p].trigger_number + o[p].change.delay <= u64::MAX,
            decreases rev@.len(),
        {
            let c = match rev.pop() {
                Some(c) => c,
                None => {
                    proof {
                        assert(false);
                    }
                    unreached()
                },
            };
            proof {
                assert(c == o[done as int]);
            }
            let effective = c.trigger_number + c.change.delay;
            let keep = effective > finalized_number && (tree.ancestor_check(
                finalized_hash,
                c.trigger_hash,
            ) || tree.ancestor_check(c.trigger_hash, finalized_hash));
            proof {
                assert(o.take(done + 1 as int).drop_last() =~= o.take(done as int));
                assert(o.take(done + 1 as int).last() == o[done as int]);
            }
            if keep {
                kept.push(c);
            }
            done = done + 1;
        }
        proof {
            assert(o.take(len) =~= o);
            lemma_kept_changes(o, *tree, finalized_hash, finalized_number);
        }
        self.pending = kept;
        self.set_id = new_set_id;
        self.authorities = new_authorities;
        let out = copy_authorities(&self.authorities);
        Some((new_set_id, out))
    }

    /// The height past which the current set must not vote: the lowest
    /// effective height of a pending change anchored on the line through
    /// `head`. `None` when no pending change binds that line.
    pub open spec fn bound_from(self, tree: BlockTree, head: u64, n: int) -> Option<int>
        decreases n,
    {
        if n <= 0 {
            None
        } else {
            let prev = self.bound_from(tree, head, n - 1);
            let c = self.pending@[n - 1];
            if tree.is_ancestor(c.trigger_hash, head) {
                match prev {
                    None => Some(change_effective_at(c)),
                    Some(m) => if change_effective_at(c) < m {
                        Some(change_effective_at(c))
                    } else {
                        Some(m)
                    },
                }
            } else {
                prev
            }
        }
    }

    /// The vote-target bound for the line through `head`.
    pub open spec fn bound_spec(self, tree: BlockTree, head: u64) -> Option<int> {
        self.bound_from(tree, head, self.pending@.len() as int)
    }

    /// What the bound promises: the least effective height among the pending
    /// changes anchored on the line through `head`.
    pub proof fn lemma_bound_from(self, tree: BlockTree, head: u64, n: int)
        requires
            0 <= n <= self.pending@.len(),
        ensures
            match self.bound_from(tree, head, n) {
                Some(m) => {
                    &&& exists|i: int|
                        0 <= i < n && tree.is_ancestor(
                            (#[trigger] self.pending@[i]).trigger_hash,
                            head,
                        ) && change_effective_at(self.pending@[i]) == m
                    &&& forall|i: int|
                        0 <= i < n && tree.is_ancestor(
                            (#[trigger] self.pending@[i]).trigger_hash,
                            head,
                        ) ==> m <= change_effective_at(self.pending@[i])
                },
                None => forall|i: int|
                    0 <= i < n ==> !tree.is_ancestor(
                        (#[trigger] self.pending@[i]).trigger_hash,
                        head,
                    ),
            },
        decreases n,
    {
        if n > 0 {
            self.lemma_bound_from(tree, head, n - 1);
        }
    }

    /// Computes the vote-target bound for the line through `head`.
    pub fn next_change_bound(&self, tree: &BlockTree, head: u64) -> (r: Option<u64>)
        requires
            self.wf(),
            tree.wf(),
        ensures
            match r {
                Some(m) => self.bound_spec(*tree, head) == Some(m as int),
                None => self.bound_spec(*tree, head) is None,
            },
    {
        let n = self.pending.len();
        let mut best: Option<u64> = None;
        let mut i: usize = 0;
        while i < n
            invariant
                self.wf(),
                tree.wf(),
                n == self.pending@.len(),
                0 <= i <= n,
                match best {
                    None => self.bound_from(*tree, head, i as int) is None,
                    Some(m) => self.bound_from(*tree, head, i as int) == Some(m as int),
                },
            decreases n - i,
        {
            let c = &self.pending[i];
            if tree.ancestor_check(c.trigger_hash, head) {
                let effective = c.trigger_number + c.change.delay;
                match best {
                    None => {
                        best = Some(effective);
                    },
                    Some(m) => {
                        if effective < m {
                            best = Some(effective);
                        }
                    },
                }
            }
            i = i + 1;
        }
        best
    }
}

} // verus!
