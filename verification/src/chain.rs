//! The local model of the block tree.
//!
//! Finality acts on a possibly forking tree of blocks. Each block carries its
//! hash, its height and the hash of its parent; the tree grows only by
//! appending a child of an already known block. Everything the protocol asks
//! of the chain — ancestry, the best block of a line, the ancestor at a given
//! height — is answered here.

use vstd::prelude::*;

verus! {

/// Why a block could not be appended to the tree.
#[derive(Clone, Copy, PartialEq, Eq, Structural, Debug)]
pub enum ChainError {
    /// A block with this hash is already in the tree.
    DuplicateBlock,
    /// The named parent is not in the tree.
    UnknownParent,
    /// The parent already sits at the greatest representable height.
    HeightOverflow,
}

/// A block as the finality layer sees it: a hash, a height and the parent's
/// hash. Hashes are opaque identifiers; only equality matters.
#[derive(Clone, Copy, PartialEq, Eq, Structural, Debug)]
pub struct Block {
    pub hash: u64,
    pub number: u64,
    pub parent: u64,
}

/// The hash of the genesis block.
pub const GENESIS_HASH: u64 = 0;

/// A local view of the block tree: the genesis block followed by blocks each
/// of which extends an earlier one. Forks may coexist; hashes are unique.
#[derive(Debug)]
pub struct BlockTree {
    pub blocks: Vec<Block>,
}

impl BlockTree {
    /// The blocks in insertion order.
    pub open spec fn seq(self) -> Seq<Block> {
        self.blocks@
    }

    /// Well-formedness: genesis first, unique hashes, every later block the
    /// child of an earlier one.
    pub open spec fn wf(self) -> bool {
        &&& self.seq().len() >= 1
        &&& self.seq()[0] == (Block { hash: GENESIS_HASH, number: 0, parent: GENESIS_HASH })
        &&& forall|i: int, j: int|
            #![trigger self.seq()[i].hash, self.seq()[j].hash]
            0 <= i < j < self.seq().len() ==> self.seq()[i].hash != self.seq()[j].hash
        &&& forall|i: int| 1 <= i < self.seq().len() ==> (#[trigger] self.seq()[i]).number >= 1
        &&& forall|i: int|
            1 <= i < self.seq().len() ==> exists|j: int|
                0 <= j < i && (#[trigger] self.seq()[j]).hash == (#[trigger] self.seq()[i]).parent
                    && self.seq()[j].number + 1 == self.seq()[i].number
    }

    /// Whether a block with this hash is known.
    pub open spec fn has_block(self, h: u64) -> bool {
        exists|i: int| 0 <= i < self.seq().len() && (#[trigger] self.seq()[i]).hash == h
    }

    /// The index of the block with this hash (meaningful when `has_block`).
    pub open spec fn idx_of(self, h: u64) -> int {
        choose|i: int| 0 <= i < self.seq().len() && (#[trigger] self.seq()[i]).hash == h
    }

    /// The block with this hash (meaningful when `has_block`).
    pub open spec fn block_of(self, h: u64) -> Block {
        self.seq()[self.idx_of(h)]
    }

    /// The height of the block with this hash.
    pub open spec fn number_of(self, h: u64) -> u64 {
        self.block_of(h).number
    }

    /// The parent hash of the block with this hash.
    pub open spec fn parent_of(self, h: u64) -> u64 {
        self.block_of(h).parent
    }

    /// Ancestry: `anc` lies on the path from genesis to `desc` (a block is an
    /// ancestor of itself). Total on all inputs; on a well-formed tree the
    /// guards in the walk always hold.
    pub open spec fn is_ancestor(self, anc: u64, desc: u64) -> bool
        decreases self.number_of(desc),
    {
        if !self.has_block(anc) || !self.has_block(desc) {
            false
        } else if anc == desc {
            true
        } else if self.number_of(desc) > 0 && self.number_of(self.parent_of(desc))
            < self.number_of(desc) {
            self.is_ancestor(anc, self.parent_of(desc))
        } else {
            false
        }
    }

    /// On a well-formed tree, a known hash names exactly one block.
    pub proof fn lemma_lookup(self, h: u64)
        requires
            self.wf(),
            self.has_block(h),
        ensures
            0 <= self.idx_of(h) < self.seq().len(),
            self.block_of(h).hash == h,
            forall|i: int|
                0 <= i < self.seq().len() && (#[trigger] self.seq()[i]).hash == h ==> i
                    == self.idx_of(h),
    {
        let k = self.idx_of(h);
        assert(0 <= k < self.seq().len() && self.seq()[k].hash == h);
        assert forall|i: int|
            0 <= i < self.seq().len() && (#[trigger] self.seq()[i]).hash == h implies i == k by {
            if i < k {
                assert(self.seq()[i].hash != self.seq()[k].hash);
            } else if k < i {
                assert(self.seq()[k].hash != self.seq()[i].hash);
            }
        }
    }

    /// On a well-formed tree, every non-genesis block has a known parent one
    /// level down.
    pub proof fn lemma_parent(self, h: u64)
        requires
            self.wf(),
            self.has_block(h),
            self.number_of(h) > 0,
        ensures
            self.has_block(self.parent_of(h)),
            self.number_of(self.parent_of(h)) + 1 == self.number_of(h),
    {
        self.lemma_lookup(h);
        let i = self.idx_of(h);
        assert(i >= 1) by {
            if i == 0 {
                assert(self.seq()[0].number == 0);
            }
        }
        let j = choose|j: int|
            0 <= j < i && (#[trigger] self.seq()[j]).hash == self.seq()[i].parent && self.seq()[j].number
                + 1 == self.seq()[i].number;
        assert(self.seq()[j].hash == self.parent_of(h));
        assert(self.has_block(self.parent_of(h)));
        self.lemma_lookup(self.parent_of(h));
        assert(j == self.idx_of(self.parent_of(h)));
    }

    /// Ancestry relates only known blocks, and never increases height;
    /// a proper ancestor sits strictly lower.
    pub proof fn lemma_ancestor_number(self, anc: u64, desc: u64)
        requires
            self.wf(),
            self.is_ancestor(anc, desc),
        ensures
            self.has_block(anc),
            self.has_block(desc),
            self.number_of(anc) <= self.number_of(desc),
            anc != desc ==> self.number_of(anc) < self.number_of(desc),
        decreases self.number_of(desc),
    {
        if anc != desc {
            self.lemma_parent(desc);
            self.lemma_ancestor_number(anc, self.parent_of(desc));
        }
    }

    /// Ancestry is transitive.
    pub proof fn lemma_ancestor_trans(self, a: u64, b: u64, c: u64)
        requires
            self.wf(),
            self.is_ancestor(a, b),
            self.is_ancestor(b, c),
        ensures
            self.is_ancestor(a, c),
        decreases self.number_of(c),
    {
        if a == c {
            assert(self.is_ancestor(a, c));
        } else if b == c {
            assert(self.is_ancestor(a, c));
        } else {
            self.lemma_parent(c);
            self.lemma_ancestor_trans(a, b, self.parent_of(c));
        }
    }

    /// The ancestors of one block form a single line: two ancestors of the
    /// same block are comparable.
    pub proof fn lemma_ancestor_chain(self, a: u64, b: u64, x: u64)
        requires
            self.wf(),
            self.is_ancestor(a, x),
            self.is_ancestor(b, x),
        ensures
            self.is_ancestor(a, b) || self.is_ancestor(b, a),
        decreases self.number_of(x),
    {
        if a == x {
            assert(self.is_ancestor(b, a));
        } else if b == x {
            assert(self.is_ancestor(a, b));
        } else {
            self.lemma_parent(x);
            self.lemma_ancestor_chain(a, b, self.parent_of(x));
        }
    }

    /// Mutual ancestry means equality.
    pub proof fn lemma_ancestor_antisym(self, a: u64, b: u64)
        requires
            self.wf(),
            self.is_ancestor(a, b),
            self.is_ancestor(b, a),
        ensures
            a == b,
    {
        if a != b {
            self.lemma_ancestor_number(a, b);
            self.lemma_ancestor_number(b, a);
        }
    }

    /// Comparable blocks at the same height are the same block.
    pub proof fn lemma_same_height(self, a: u64, b: u64)
        requires
            self.wf(),
            self.is_ancestor(a, b) || self.is_ancestor(b, a),
            self.number_of(a) == self.number_of(b),
        ensures
            a == b,
    {
        if a != b {
            if self.is_ancestor(a, b) {
                self.lemma_ancestor_number(a, b);
            } else {
                self.lemma_ancestor_number(b, a);
            }
        }
    }

    /// A tree holding only the genesis block.
    pub fn new() -> (r: BlockTree)
        ensures
            r.wf(),
            r.seq().len() == 1,
            r.seq()[0] == (Block { hash: GENESIS_HASH, number: 0, parent: GENESIS_HASH }),
    {
        let mut blocks: Vec<Block> = Vec::new();
        blocks.push(Block { hash: GENESIS_HASH, number: 0, parent: GENESIS_HASH });
        BlockTree { blocks }
    }

    /// Looks a hash up; the index of its block when it is known.
    pub fn find(&self, h: u64) -> (r: Option<usize>)
        ensures
            match r {
                Some(i) => self.has_block(h) && 0 <= i < self.seq().len() && self.seq()[i as int].hash
                    == h,
                None => !self.has_block(h),
            },
    {
        let n = self.blocks.len();
        let mut i: usize = 0;
        while i < n
            invariant
                n == self.seq().len(),
                0 <= i <= n,
                forall|k: int| 0 <= k < i ==> (#[trigger] self.seq()[k]).hash != h,
            decreases n - i,
        {
            if self.blocks[i].hash == h {
                return Some(i);
            }
            i = i + 1;
        }
        None
    }

    /// Whether a block with this hash is known.
    pub fn contains(&self, h: u64) -> (r: bool)
        ensures
            r == self.has_block(h),
    {
        self.find(h).is_some()
    }

    /// The block with this hash, when it is known.
    pub fn get(&self, h: u64) -> (r: Option<Block>)
        requires
            self.wf(),
        ensures
            match r {
                Some(b) => self.has_block(h) && b == self.block_of(h),
                None => !self.has_block(h),
            },
    {
        match self.find(h) {
            Some(i) => {
                proof {
                    self.lemma_lookup(h);
                }
                Some(self.blocks[i])
            },
            None => None,
        }
    }

    /// Decides ancestry by walking parent links down from `desc`.
    pub fn ancestor_check(&self, anc: u64, desc: u64) -> (r: bool)
        requires
            self.wf(),
        ensures
            r == self.is_ancestor(anc, desc),
    {
        if !self.contains(anc) {
            return false;
        }
        let mut cur: u64 = desc;
        if !self.contains(cur) {
            return false;
        }
        loop
            invariant
                self.wf(),
                self.has_block(anc),
                self.has_block(cur),
                self.is_ancestor(anc, desc) == self.is_ancestor(anc, cur),
            decreases self.number_of(cur),
        {
            if cur == anc {
                return true;
            }
            let b = match self.get(cur) {
                Some(b) => b,
                None => {
                    return false;
                },
            };
            if b.number == 0 {
                return false;
            }
            proof {
                self.lemma_parent(cur);
            }
            cur = b.parent;
        }
    }

    /// Appends a child of `parent` with the given hash. The errors come
    /// exactly on the stated inputs; on success the tree grows by one block
    /// one level above the parent.
    pub fn add_block(&mut self, hash: u64, parent: u64) -> (r: Result<(), ChainError>)
        requires
            old(self).wf(),
        ensures
            final(self).wf(),
            match r {
                Ok(()) => {
                    &&& !old(self).has_block(hash)
                    &&& old(self).has_block(parent)
                    &&& old(self).number_of(parent) < u64::MAX
                    &&& final(self).seq() == old(self).seq().push(
                        Block {
                            hash,
                            number: (old(self).number_of(parent) + 1) as u64,
                            parent,
                        },
                    )
                },
                Err(ChainError::DuplicateBlock) => old(self).has_block(hash) && *final(self) == *old(
                    self,
                ),
                Err(ChainError::UnknownParent) => !old(self).has_block(hash) && !old(
                    self,
                ).has_block(parent) && *final(self) == *old(self),
                Err(ChainError::HeightOverflow) => !old(self).has_block(hash) && old(
                    self,
                ).has_block(parent) && old(self).number_of(parent) == u64::MAX && *final(self) == *old(
                    self,
                ),
            },
    {
        if self.contains(hash) {
            return Err(ChainError::DuplicateBlock);
        }
        let pb = match self.get(parent) {
            Some(b) => b,
            None => {
                return Err(ChainError::UnknownParent);
            },
        };
        if pb.number == u64::MAX {
            return Err(ChainError::HeightOverflow);
        }
        let ghost pre = *self;
        let nb = Block { hash, number: pb.number + 1, parent };
        self.blocks.push(nb);
        proof {
            pre.lemma_lookup(parent);
            let n = self.seq().len() - 1;
            assert(self.seq() == pre.seq().push(nb));
            assert(self.seq()[n] == nb);
            assert forall|i: int| 0 <= i < n implies self.seq()[i] == pre.seq()[i] by {}
            assert(self.seq()[0] == pre.seq()[0]);
            assert forall|i: int, j: int|
                #![trigger self.seq()[i].hash, self.seq()[j].hash]
                0 <= i < j < self.seq().len() implies self.seq()[i].hash != self.seq()[j].hash by {
                if j < n {
                    assert(pre.seq()[i].hash != pre.seq()[j].hash);
                } else {
                    assert(self.seq()[i] == pre.seq()[i]);
                    assert(!pre.has_block(hash));
                }
            }
            assert forall|i: int| 1 <= i < self.seq().len() implies (#[trigger] self.seq()[i]).number
                >= 1 by {
                if i < n {
                    assert(pre.seq()[i].number >= 1);
                }
            }
            assert forall|i: int|
                1 <= i < self.seq().len() implies exists|j: int|
                0 <= j < i && (#[trigger] self.seq()[j]).hash == (#[trigger] self.seq()[i]).parent
                    && self.seq()[j].number + 1 == self.seq()[i].number by {
                if i < n {
                    assert(exists|j: int|
                        0 <= j < i && (#[trigger] pre.seq()[j]).hash == pre.seq()[i].parent
                            && pre.seq()[j].number + 1 == pre.seq()[i].number);
                    let j = choose|j: int|
                        0 <= j < i && (#[trigger] pre.seq()[j]).hash == pre.seq()[i].parent
                            && pre.seq()[j].number + 1 == pre.seq()[i].number;
                    assert(self.seq()[j] == pre.seq()[j]);
                } else {
                    let j = pre.idx_of(parent);
                    assert(self.seq()[j] == pre.seq()[j]);
                }
            }
        }
        Ok(())
    }

    /// The best block among the first `n` whose line contains `base`: the
    /// greatest height wins, the earliest inserted on a tie.
    pub open spec fn best_from(self, base: u64, n: int) -> Option<Block>
        decreases n,
    {
        if n <= 0 {
            None
        } else {
            let prev = self.best_from(base, n - 1);
            let b = self.seq()[n - 1];
            match prev {
                None => if self.is_ancestor(base, b.hash) {
                    Some(b)
                } else {
                    None
                },
                Some(p) => if self.is_ancestor(base, b.hash) && b.number > p.number {
                    Some(b)
                } else {
                    Some(p)
                },
            }
        }
    }

    /// The best block of the line through `base`.
    pub open spec fn best_containing_spec(self, base: u64) -> Option<Block> {
        self.best_from(base, self.seq().len() as int)
    }

    /// What `best_from` promises of its result: a known descendant of `base`,
    /// at least as high as every other one among the first `n` blocks.
    #[verifier::spinoff_prover]
    #[verifier::rlimit(50)]
    pub proof fn lemma_best_from(self, base: u64, n: int)
        requires
            self.wf(),
            0 <= n <= self.seq().len(),
        ensures
            match self.best_from(base, n) {
                Some(b) => {
                    &&& self.has_block(b.hash)
                    &&& self.block_of(b.hash) == b
                    &&& self.is_ancestor(base, b.hash)
                    &&& forall|i: int|
                        0 <= i < n && self.is_ancestor(base, (#[trigger] self.seq()[i]).hash)
                            ==> self.seq()[i].number <= b.number
                },
                None => forall|i: int|
                    0 <= i < n ==> !self.is_ancestor(base, (#[trigger] self.seq()[i]).hash),
            },
        decreases n,
    {
        if n > 0 {
            self.lemma_best_from(base, n - 1);
            let prev = self.best_from(base, n - 1);
            let b = self.seq()[n - 1];
            let r = self.best_from(base, n);
            if self.is_ancestor(base, b.hash) {
                self.lemma_ancestor_number(base, b.hash);
                self.lemma_lookup(b.hash);
                assert(self.idx_of(b.hash) == n - 1);
                assert(self.block_of(b.hash) == b);
            }
            match r {
                Some(rb) => {
                    assert forall|i: int|
                        0 <= i < n && self.is_ancestor(
                            base,
                            (#[trigger] self.seq()[i]).hash,
                        ) implies self.seq()[i].number <= rb.number by {
                        if i < n - 1 {
                            assert(prev is Some);
                            let p = prev->Some_0;
                            assert(self.seq()[i].number <= p.number);
                        }
                    }
                },
                None => {},
            }
        }
    }

    /// The best (highest, then earliest-inserted) block whose line contains
    /// `base`; `None` exactly when `base` is unknown.
    pub fn best_containing(&self, base: u64) -> (r: Option<Block>)
        requires
            self.wf(),
        ensures
            r == self.best_containing_spec(base),
            match r {
                Some(b) => self.has_block(base) && self.is_ancestor(base, b.hash)
                    && self.number_of(base) <= b.number,
                None => !self.has_block(base),
            },
    {
        let n = self.blocks.len();
        let mut best: Option<Block> = None;
        let mut i: usize = 0;
        while i < n
            invariant
                self.wf(),
                n == self.seq().len(),
                0 <= i <= n,
                best == self.best_from(base, i as int),
            decreases n - i,
        {
            let b = self.blocks[i];
            if self.ancestor_check(base, b.hash) {
                match best {
                    None => {
                        best = Some(b);
                    },
                    Some(p) => {
                        if b.number > p.number {
                            best = Some(b);
                        }
                    },
                }
            }
            i = i + 1;
        }
        proof {
            self.lemma_best_from(base, n as int);
            match self.best_from(base, n as int) {
                Some(b) => {
                    self.lemma_ancestor_number(base, b.hash);
                },
                None => {
                    if self.has_block(base) {
                        let k = self.idx_of(base);
                        self.lemma_lookup(base);
                        assert(self.is_ancestor(base, self.seq()[k].hash));
                    }
                },
            }
        }
        best
    }

    /// The ancestor of `h` at height `n`: walks parent links down from `h`.
    pub fn ancestor_at(&self, h: u64, n: u64) -> (r: u64)
        requires
            self.wf(),
            self.has_block(h),
            n <= self.number_of(h),
        ensures
            self.has_block(r),
            self.is_ancestor(r, h),
            self.number_of(r) == n,
    {
        let mut cur: u64 = h;
        loop
            invariant
                self.wf(),
                self.has_block(cur),
                self.is_ancestor(cur, h),
                n <= self.number_of(cur),
            decreases self.number_of(cur),
        {
            let b = match self.get(cur) {
                Some(b) => b,
                None => {
                    proof {
                        assert(false);
                    }
                    unreached()
                },
            };
            if b.number == n {
                return cur;
            }
            proof {
                self.lemma_parent(cur);
                assert(self.is_ancestor(b.parent, b.parent));
                assert(self.is_ancestor(b.parent, cur));
                self.lemma_ancestor_trans(b.parent, cur, h);
            }
            cur = b.parent;
        }
    }

    /// An ancestor of `h` at a given height is unique.
    pub proof fn lemma_ancestor_at_unique(self, h: u64, a: u64, b: u64)
        requires
            self.wf(),
            self.is_ancestor(a, h),
            self.is_ancestor(b, h),
            self.number_of(a) == self.number_of(b),
        ensures
            a == b,
    {
        self.lemma_ancestor_chain(a, b, h);
        self.lemma_same_height(a, b);
    }

    /// Everything known of a tree stays true of any tree it is a prefix of:
    /// lookups and ancestry carry over unchanged.
    pub proof fn lemma_extends(self, bigger: BlockTree)
        requires
            self.wf(),
            bigger.wf(),
            self.seq().is_prefix_of(bigger.seq()),
        ensures
            forall|h: u64|
                #[trigger] self.has_block(h) ==> bigger.has_block(h) && bigger.block_of(h)
                    == self.block_of(h),
            forall|a: u64, d: u64|
                #[trigger] self.is_ancestor(a, d) ==> bigger.is_ancestor(a, d),
    {
        assert forall|h: u64| #[trigger]
            self.has_block(h) implies bigger.has_block(h) && bigger.block_of(h) == self.block_of(
            h,
        ) by {
            self.lemma_lookup(h);
            let k = self.idx_of(h);
            assert(bigger.seq()[k].hash == h);
            bigger.lemma_lookup(h);
        }
        assert forall|a: u64, d: u64| #[trigger]
            self.is_ancestor(a, d) implies bigger.is_ancestor(a, d) by {
            self.lemma_extends_ancestor(bigger, a, d);
        }
    }

    proof fn lemma_extends_ancestor(self, bigger: BlockTree, a: u64, d: u64)
        requires
            self.wf(),
            bigger.wf(),
            self.seq().is_prefix_of(bigger.seq()),
            self.is_ancestor(a, d),
        ensures
            bigger.is_ancestor(a, d),
        decreases self.number_of(d),
    {
        self.lemma_lookup(a);
        let ka = self.idx_of(a);
        assert(bigger.seq()[ka].hash == a);
        bigger.lemma_lookup(a);
        self.lemma_lookup(d);
        let kd = self.idx_of(d);
        assert(bigger.seq()[kd].hash == d);
        bigger.lemma_lookup(d);
        assert(bigger.block_of(d) == self.block_of(d));
        if a != d {
            self.lemma_parent(d);
            bigger.lemma_parent(d);
            self.lemma_extends_ancestor(bigger, a, self.parent_of(d));
        }
    }
}

} // verus!
