//! The block-import side of the protocol.
//!
//! Block import intercepts each newly imported block, asks the runtime
//! accessor whether a change is anchored there, checks it, and schedules it
//! in the authority set. Scheduling is all that happens here: enactment is
//! the voter runtime's affair, strictly tied to finalization. A change the
//! runtime reports inconsistently is rejected as malformed and the failure
//! propagates; it is never swallowed.

use vstd::prelude::*;
use crate::authorities::{
    AuthoritySet,
    Authority,
    ScheduledChange,
    SetError,
    copy_authorities,
    valid_authorities,
};

verus! {

/// Why an imported block's scheduled change was refused.
#[derive(Clone, Copy, PartialEq, Eq, Structural, Debug)]
pub enum ImportError {
    /// The runtime reported an inconsistent change: an unusable authority
    /// list, or a delay that runs past the greatest representable height.
    MalformedChange,
    /// A pending change already sits at this trigger block.
    DuplicateChange,
}

/// What block import did with a block.
#[derive(Clone, Copy, PartialEq, Eq, Structural, Debug)]
pub enum ImportOutcome {
    /// The runtime had no change anchored at this block.
    NoChange,
    /// The runtime's change is now pending in the authority set.
    Scheduled,
}

/// The runtime accessor, modelled on its contract: the authority list wired
/// in at genesis, and at most one scheduled change per anchor block.
#[derive(Debug)]
pub struct RuntimeAuthorities {
    pub genesis_authorities: Vec<Authority>,
    pub scheduled: Vec<(u64, ScheduledChange)>,
}

impl RuntimeAuthorities {
    /// The genesis authority list; queried only at the chain's start.
    pub fn genesis_list(&self) -> (r: Vec<Authority>)
        ensures
            r@ == self.genesis_authorities@,
    {
        copy_authorities(&self.genesis_authorities)
    }

    /// The change anchored at this block, if the runtime scheduled one:
    /// the earliest entry with this anchor, queried once per imported block.
    pub fn pending_change(&self, anchor: u64) -> (r: Option<ScheduledChange>)
        ensures
            match r {
                Some(c) => exists|i: int|
                    {
                        &&& 0 <= i < self.scheduled@.len()
                        &&& (#[trigger] self.scheduled@[i]).0 == anchor
                        &&& c.delay == self.scheduled@[i].1.delay
                        &&& c.next_authorities@ == self.scheduled@[i].1.next_authorities@
                        &&& forall|k: int| 0 <= k < i ==> (#[trigger] self.scheduled@[k]).0 != anchor
                    },
                None => forall|i: int|
                    0 <= i < self.scheduled@.len() ==> (#[trigger] self.scheduled@[i]).0 != anchor,
            },
    {
        let n = self.scheduled.len();
        let mut i: usize = 0;
        while i < n
            invariant
                n == self.scheduled@.len(),
                0 <= i <= n,
                forall|k: int| 0 <= k < i ==> (#[trigger] self.scheduled@[k]).0 != anchor,
            decreases n - i,
        {
            if self.scheduled[i].0 == anchor {
                let c = ScheduledChange {
                    next_authorities: copy_authorities(&self.scheduled[i].1.next_authorities),
                    delay: self.scheduled[i].1.delay,
                };
                return Some(c);
            }
            i = i + 1;
        }
        None
    }
}

/// Feeds one imported block's scheduled change, if any, into the authority
/// set. A malformed change — unusable list, or a delay overrunning the
/// height type — fails with `MalformedChange`; a second change at the same
/// trigger fails with `DuplicateChange`; otherwise the pending set grows by
/// exactly this change.
pub fn on_block_imported(
    set: &mut AuthoritySet,
    block_hash: u64,
    block_number: u64,
    change: Option<ScheduledChange>,
) -> (r: Result<ImportOutcome, ImportError>)
    requires
        old(set).wf(),
    ensures
        final(set).wf(),
        match r {
            Ok(ImportOutcome::NoChange) => change is None && *final(set) == *old(set),
            Ok(ImportOutcome::Scheduled) => {
                &&& change matches Some(c) && {
                    &&& valid_authorities(c.next_authorities@)
                    &&& block_number + c.delay <= u64::MAX
                    &&& !(exists|i: int|
                        0 <= i < old(set).pending@.len() && (#[trigger] old(
                            set,
                        ).pending@[i]).trigger_hash == block_hash)
                    &&& final(set).pending@.len() == old(set).pending@.len() + 1
                    &&& final(set).pending@.drop_last() == old(set).pending@
                    &&& final(set).pending@.last().trigger_hash == block_hash
                    &&& final(set).pending@.last().trigger_number == block_number
                    &&& final(set).pending@.last().change.delay == c.delay
                    &&& final(set).pending@.last().change.next_authorities@ == c.next_authorities@
                    &&& final(set).set_id == old(set).set_id
                    &&& final(set).authorities@ == old(set).authorities@
                }
            },
            Err(ImportError::MalformedChange) => {
                &&& change matches Some(c) && (!valid_authorities(c.next_authorities@)
                    || block_number + c.delay > u64::MAX)
                &&& *final(set) == *old(set)
            },
            Err(ImportError::DuplicateChange) => {
                &&& change matches Some(c) && valid_authorities(c.next_authorities@)
                    && block_number + c.delay <= u64::MAX
                &&& exists|i: int|
                    0 <= i < old(set).pending@.len() && (#[trigger] old(
                        set,
                    ).pending@[i]).trigger_hash == block_hash
                &&& *final(set) == *old(set)
            },
        },
{
    let c = match change {
        None => {
            return Ok(ImportOutcome::NoChange);
        },
        Some(c) => c,
    };
    if !crate::authorities::check_authorities(&c.next_authorities) {
        return Err(ImportError::MalformedChange);
    }
    match block_number.checked_add(c.delay) {
        Some(_) => {},
        None => {
            return Err(ImportError::MalformedChange);
        },
    }
    match set.add_pending_change(block_hash, block_number, c) {
        Ok(()) => Ok(ImportOutcome::Scheduled),
        Err(SetError::DuplicateChange) => Err(ImportError::DuplicateChange),
        Err(SetError::InvalidAuthorities) => {
            proof {
                assert(false);
            }
            Err(ImportError::MalformedChange)
        },
    }
}

} // verus!
