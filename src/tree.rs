//! The three tiers: a block is a tree of commitments, an epoch a tree of block
//! roots, and the eternity a tree of epoch roots. Each tier's leaves stand at
//! the altitude where the roots of the tier below end, so that all of them
//! hash as one tree of the combined depth.
use vstd::prelude::*;
use crate::error::{InsertBlockError, InsertBlockRootError, InsertEpochError, InsertEpochRootError, InsertError};
use crate::hash::Digest;
use crate::tier::{Tier, auth_root, hashes, opt_seq, pow4, tree_root};

verus! {

/// Where a commitment stands: the index of its epoch in the eternity, of its
/// block in that epoch, and its own index in that block.
#[derive(Debug, Clone, Copy, PartialEq, Eq)]
pub struct Position {
    pub epoch: usize,
    pub block: usize,
    pub commitment: usize,
}

/// A tree of commitments, whose leaves stand at altitude 0.
#[derive(Debug, Clone, PartialEq, Eq)]
pub struct Block {
    tier: Tier,
}

impl Block {
    /// The tree of commitments.
    pub closed spec fn tier(&self) -> Tier {
        self.tier
    }

    /// The block's tree is well formed and its leaves stand at altitude 0.
    pub open spec fn wf(&self) -> bool {
        self.tier().wf() && self.tier().base() == 0
    }

    /// The commitments inserted so far.
    pub open spec fn commitments(&self) -> Seq<Seq<u8>> {
        self.tier().leaves()
    }

    /// An empty block of `depth` levels, which holds up to `4^depth` commitments.
    pub fn new(depth: u8) -> (r: Self)
        ensures
            r.wf(),
            r.tier().depth() == depth,
            r.commitments() == Seq::<Seq<u8>>::empty(),
            r.tier().kept() == Seq::<bool>::empty(),
            !r.tier().is_full(),
    {
        Block { tier: Tier::new(0, depth) }
    }

    /// The number of levels above the commitments.
    pub fn depth(&self) -> (r: u8)
        requires
            self.wf(),
        ensures
            r == self.tier().depth(),
    {
        self.tier.depth_of()
    }

    /// The number of commitments inserted so far.
    pub fn len(&self) -> (r: usize)
        requires
            self.wf(),
        ensures
            r == self.commitments().len(),
    {
        self.tier.len()
    }

    /// Whether no more commitments fit.
    pub fn is_full(&self) -> (r: bool)
        requires
            self.wf(),
        ensures
            r == self.tier().is_full(),
    {
        self.tier.full()
    }

    /// Inserts a commitment and returns its index, or fails with `BlockFull`,
    /// changing nothing, if the block is full.
    pub fn insert(&mut self, commitment: Digest) -> (r: Result<usize, InsertError>)
        requires
            old(self).wf(),
        ensures
            final(self).wf(),
            final(self).tier().depth() == old(self).tier().depth(),
            old(self).tier().is_full() ==> r == Err::<usize, InsertError>(InsertError::BlockFull)
                && *final(self) == *old(self),
            !old(self).tier().is_full() ==> r == Ok::<usize, InsertError>(old(self).commitments().len() as usize)
                && final(self).commitments() == old(self).commitments().push(commitment@)
                && final(self).tier().kept() == old(self).tier().kept().push(true),
            old(self).tier().is_full() <==> old(self).commitments().len() == pow4(old(self).tier().depth()),
            final(self).tier().is_full() <==> final(self).commitments().len() == pow4(final(self).tier().depth()),
    {
        match self.tier.insert(commitment) {
            Some(index) => Ok(index),
            None => Err(InsertError::BlockFull),
        }
    }

    /// The root of the block.
    pub fn root(&self) -> (r: Digest)
        requires
            self.wf(),
        ensures
            r@ == tree_root(0, self.tier().depth(), self.commitments()),
    {
        self.tier.root()
    }

    /// The authentication path of the commitment at `index`, if it is there
    /// and not forgotten.
    pub fn witness(&self, index: usize) -> (r: Option<Vec<Digest>>)
        requires
            self.wf(),
        ensures
            r is Some <==> index < self.commitments().len() && self.tier().kept()[index as int],
            r matches Some(path) ==> path@.len() == 3 * self.tier().depth()
                && auth_root(0, self.tier().depth(), self.commitments()[index as int], index as nat,
                    hashes(path@)) == tree_root(0, self.tier().depth(), self.commitments()),
    {
        self.tier.witness(index)
    }

    /// Forgets the commitment at `index`: it can no longer be witnessed. Returns
    /// whether it could be until now. The commitments and the root stay.
    pub fn forget(&mut self, index: usize) -> (r: bool)
        requires
            old(self).wf(),
        ensures
            final(self).wf(),
            final(self).tier().depth() == old(self).tier().depth(),
            final(self).commitments() == old(self).commitments(),
            final(self).tier().is_full() == old(self).tier().is_full(),
            r == (index < old(self).commitments().len() && old(self).tier().kept()[index as int]),
            index < old(self).commitments().len() ==> final(self).tier().kept() == old(self).tier().kept().update(
                index as int,
                false,
            ),
            index >= old(self).commitments().len() ==> final(self).tier().kept() == old(self).tier().kept(),
    {
        self.tier.forget(index)
    }
}

/// A tree of block roots, whose leaves stand at the altitude of a block's root.
#[derive(Debug, Clone, PartialEq, Eq)]
pub struct Epoch {
    block_depth: u8,
    tier: Tier,
    blocks: Vec<Option<Block>>,
}

impl Epoch {
    /// The tree of block roots.
    pub closed spec fn tier(&self) -> Tier {
        self.tier
    }

    /// The depth of the blocks that the epoch is made of.
    pub closed spec fn block_depth(&self) -> nat {
        self.block_depth as nat
    }

    /// The sealed blocks, in order: each one whole while anything in it is
    /// kept, or `None` where only its root is left.
    pub closed spec fn blocks(&self) -> Seq<Option<Block>> {
        self.blocks@
    }

    /// The block at `i`, if it is still held, is well formed and has the root
    /// that the epoch holds for it.
    pub open spec fn holds_block(&self, i: int) -> bool {
        match self.blocks()[i] {
            Some(b) => b.wf() && b.tier().depth() == self.block_depth() && tree_root(0, self.block_depth(), b.commitments())
                == self.block_roots()[i],
            None => true,
        }
    }

    /// The commitment at `commitment` in the block at `block` can be witnessed.
    pub open spec fn witnessable(&self, block: int, commitment: int) -> bool {
        0 <= block < self.blocks().len() && match self.blocks()[block] {
            Some(b) => 0 <= commitment < b.commitments().len() && b.tier().kept()[commitment],
            None => false,
        }
    }

    /// The epoch's tree is well formed over leaves at the altitude of a block
    /// root, and it holds a slot for each sealed block.
    pub open spec fn wf(&self) -> bool {
        &&& self.tier().wf()
        &&& self.tier().base() == self.block_depth()
        &&& self.blocks().len() == self.block_roots().len()
        &&& forall|i: int| 0 <= i < self.blocks().len() ==> #[trigger] self.holds_block(i)
    }

    /// The block roots inserted so far.
    pub open spec fn block_roots(&self) -> Seq<Seq<u8>> {
        self.tier().leaves()
    }

    /// An empty epoch of `depth` levels over blocks of `block_depth` levels.
    pub fn new(block_depth: u8, depth: u8) -> (r: Self)
        requires
            block_depth + depth <= 255,
        ensures
            r.wf(),
            r.block_depth() == block_depth,
            r.tier().depth() == depth,
            r.block_roots() == Seq::<Seq<u8>>::empty(),
            r.blocks() == Seq::<Option<Block>>::empty(),
            !r.tier().is_full(),
    {
        Epoch { block_depth, tier: Tier::new(block_depth, depth), blocks: Vec::new() }
    }

    /// The number of blocks sealed into this epoch so far.
    pub fn len(&self) -> (r: usize)
        requires
            self.wf(),
        ensures
            r == self.block_roots().len(),
    {
        self.tier.len()
    }

    /// Whether no more blocks fit.
    pub fn is_full(&self) -> (r: bool)
        requires
            self.wf(),
        ensures
            r == self.tier().is_full(),
    {
        self.tier.full()
    }

    /// Appends the root of a sealed block and returns its index, or fails with
    /// `EpochFull`, changing nothing, if the epoch is full.
    pub fn insert_block_root(&mut self, root: Digest) -> (r: Result<usize, InsertBlockRootError>)
        requires
            old(self).wf(),
        ensures
            final(self).wf(),
            final(self).block_depth() == old(self).block_depth(),
            final(self).tier().depth() == old(self).tier().depth(),
            old(self).tier().is_full() ==> r == Err::<usize, InsertBlockRootError>(InsertBlockRootError::EpochFull)
                && *final(self) == *old(self),
            !old(self).tier().is_full() ==> r == Ok::<usize, InsertBlockRootError>(old(self).block_roots().len() as usize)
                && final(self).block_roots() == old(self).block_roots().push(root@)
                && final(self).blocks() == old(self).blocks().push(None),
    {
        let ghost before = *self;
        match self.tier.insert(root) {
            Some(index) => {
                self.blocks.push(None);
                assert forall|i: int| 0 <= i < self.blocks().len() implies #[trigger] self.holds_block(i) by {
                    if i < before.blocks().len() {
                        assert(before.holds_block(i));
                    }
                }
                Ok(index)
            },
            None => Err(InsertBlockRootError::EpochFull),
        }
    }

    /// Seals `block` into this epoch by appending its root, and returns its
    /// index; or hands it back in `EpochFull`, changing nothing, if the epoch is
    /// full.
    pub fn insert_block(&mut self, block: Block) -> (r: Result<usize, InsertBlockError>)
        requires
            old(self).wf(),
            block.wf(),
            block.tier().depth() == old(self).block_depth(),
        ensures
            final(self).wf(),
            final(self).block_depth() == old(self).block_depth(),
            final(self).tier().depth() == old(self).tier().depth(),
            old(self).tier().is_full() ==> r == Err::<usize, InsertBlockError>(InsertBlockError::EpochFull(block))
                && *final(self) == *old(self),
            !old(self).tier().is_full() ==> r == Ok::<usize, InsertBlockError>(old(self).block_roots().len() as usize)
                && final(self).block_roots() == old(self).block_roots().push(
                    tree_root(0, block.tier().depth(), block.commitments()),
                ) && final(self).blocks() == old(self).blocks().push(Some(block)),
    {
        if self.tier.full() {
            return Err(InsertBlockError::EpochFull(block));
        }
        let ghost before = *self;
        let root = block.root();
        match self.tier.insert(root) {
            Some(index) => {
                self.blocks.push(Some(block));
                assert forall|i: int| 0 <= i < self.blocks().len() implies #[trigger] self.holds_block(i) by {
                    if i < before.blocks().len() {
                        assert(before.holds_block(i));
                    }
                }
                Ok(index)
            },
            None => Err(InsertBlockError::EpochFull(block)),
        }
    }

    /// Forgets the commitment at `commitment` of the block at `block`, and
    /// drops that block down to its root once nothing in it is kept. Returns
    /// whether the commitment could be witnessed until now. The block roots,
    /// and so the epoch's root, stay.
    pub fn forget_in(&mut self, block: usize, commitment: usize) -> (r: bool)
        requires
            old(self).wf(),
        ensures
            final(self).wf(),
            final(self).block_depth() == old(self).block_depth(),
            final(self).tier() == old(self).tier(),
            final(self).blocks().len() == old(self).blocks().len(),
            r == old(self).witnessable(block as int, commitment as int),
            !final(self).witnessable(block as int, commitment as int),
    {
        if block >= self.blocks.len() {
            return false;
        }
        let ghost before = *self;
        let slot = self.blocks.remove(block);
        assert(before.holds_block(block as int));
        assert(slot == before.blocks()[block as int]);
        match slot {
            Some(mut b) => {
                proof {
                    b.tier().lemma_kept_len();
                }
                let r = b.forget(commitment);
                proof {
                    b.tier().lemma_kept_len();
                }
                let kept_any = b.tier.any_kept();
                let ghost held = b;
                if kept_any {
                    self.blocks.insert(block, Some(b));
                    assert(self.blocks() =~= before.blocks().update(block as int, Some(held)));
                } else {
                    self.blocks.insert(block, None);
                    assert(self.blocks() =~= before.blocks().update(block as int, None));
                }
                assert forall|i: int| 0 <= i < self.blocks().len() implies #[trigger] self.holds_block(i) by {
                    assert(before.holds_block(i));
                }
                r
            },
            None => {
                self.blocks.insert(block, None);
                assert(self.blocks() =~= before.blocks());
                assert forall|i: int| 0 <= i < self.blocks().len() implies #[trigger] self.holds_block(i) by {
                    assert(before.holds_block(i));
                }
                false
            },
        }
    }

    /// Whether any sealed block is still held whole.
    pub fn any_retained(&self) -> (r: bool)
        requires
            self.wf(),
        ensures
            r == exists|i: int| 0 <= i < self.blocks().len() && self.blocks()[i] is Some,
    {
        let mut i: usize = 0;
        while i < self.blocks.len()
            invariant
                i <= self.blocks@.len(),
                forall|j: int| 0 <= j < i ==> self.blocks@[j] is None,
            decreases self.blocks@.len() - i,
        {
            if self.blocks[i].is_some() {
                assert(self.blocks()[i as int] is Some);
                return true;
            }
            i = i + 1;
        }
        false
    }

    /// The root of the epoch.
    pub fn root(&self) -> (r: Digest)
        requires
            self.wf(),
        ensures
            r@ == tree_root(self.block_depth(), self.tier().depth(), self.block_roots()),
    {
        self.tier.root()
    }
}

/// The whole tree: the epochs sealed so far, the epoch being filled, and the
/// block being filled in it. Commitments go into the current block; sealing a
/// block or an epoch is up to the caller.
#[derive(Debug, Clone, PartialEq, Eq)]
pub struct Eternity {
    block: Block,
    epoch: Epoch,
    epochs: Tier,
    sealed: Vec<Option<Epoch>>,
}

impl Eternity {
    /// The block being filled.
    pub closed spec fn block(&self) -> Block {
        self.block
    }

    /// The epoch being filled.
    pub closed spec fn epoch(&self) -> Epoch {
        self.epoch
    }

    /// The tree of the roots of the sealed epochs.
    pub closed spec fn epochs(&self) -> Tier {
        self.epochs
    }

    /// The sealed epochs, in order: each one whole, or `None` where only its
    /// root is left.
    pub closed spec fn sealed(&self) -> Seq<Option<Epoch>> {
        self.sealed@
    }

    /// The epoch at `i`, if it is still held, is well formed, made like the
    /// current one, and has the root that the eternity holds for it.
    pub open spec fn holds_epoch(&self, i: int) -> bool {
        match self.sealed()[i] {
            Some(e) => e.wf() && e.block_depth() == self.epoch().block_depth() && e.tier().depth()
                == self.epoch().tier().depth() && tree_root(e.block_depth(), e.tier().depth(), e.block_roots())
                == self.epochs().leaves()[i],
            None => true,
        }
    }

    /// The block that holds the commitment at `pos`, if it is still held.
    pub open spec fn block_at(&self, pos: Position) -> Option<Block> {
        if pos.epoch < self.sealed().len() {
            match self.sealed()[pos.epoch as int] {
                Some(e) => if pos.block < e.blocks().len() {
                    e.blocks()[pos.block as int]
                } else {
                    None
                },
                None => None,
            }
        } else if pos.epoch == self.sealed().len() {
            if pos.block < self.epoch().blocks().len() {
                self.epoch().blocks()[pos.block as int]
            } else if pos.block == self.epoch().blocks().len() {
                Some(self.block())
            } else {
                None
            }
        } else {
            None
        }
    }

    /// The commitment at `pos` is there and kept, so that it can be witnessed.
    pub open spec fn witnessable(&self, pos: Position) -> bool {
        match self.block_at(pos) {
            Some(b) => pos.commitment < b.commitments().len() && b.tier().kept()[pos.commitment as int],
            None => false,
        }
    }

    /// The commitment at `pos`.
    pub open spec fn commitment_at(&self, pos: Position) -> Seq<u8> {
        self.block_at(pos).unwrap().commitments()[pos.commitment as int]
    }

    /// The root that `path` leads to from the commitment at `pos`: its first
    /// part up through the block, the next through the epoch, the last through
    /// the eternity.
    pub open spec fn path_root(&self, pos: Position, path: Seq<Seq<u8>>) -> Seq<u8> {
        let bd = self.block().tier().depth();
        let ed = self.epoch().tier().depth();
        let td = self.epochs().depth();
        let in_block = auth_root(0, bd, self.commitment_at(pos), pos.commitment as nat, path.subrange(0, 3 * bd as int));
        let in_epoch = auth_root(bd, ed, in_block, pos.block as nat, path.subrange(3 * bd as int, 3 * (bd + ed) as int));
        auth_root(bd + ed, td, in_epoch, pos.epoch as nat, path.subrange(3 * (bd + ed) as int, 3 * (bd + ed + td) as int))
    }

    /// Something has gone into the current epoch, sealed or not.
    pub open spec fn is_open(&self) -> bool {
        self.block().commitments().len() > 0 || self.epoch().block_roots().len() > 0
    }

    /// The roots of the sealed epochs once the current one is sealed too,
    /// unless it is empty.
    pub open spec fn closed_epoch_roots(&self) -> Seq<Seq<u8>> {
        if self.is_open() {
            self.epochs().leaves().push(self.epoch_root_spec())
        } else {
            self.epochs().leaves()
        }
    }

    /// The roots of the current epoch's sealed blocks once the current block is
    /// sealed too, unless it is empty.
    pub open spec fn closed_block_roots(&self) -> Seq<Seq<u8>> {
        if self.block().commitments().len() > 0 {
            self.epoch().block_roots().push(tree_root(0, self.block().tier().depth(), self.block().commitments()))
        } else {
            self.epoch().block_roots()
        }
    }

    /// The root of the current epoch, with the current block in it unless that
    /// is empty.
    pub open spec fn epoch_root_spec(&self) -> Seq<u8> {
        let b = self.block();
        let e = self.epoch();
        tree_root(
            e.block_depth(),
            e.tier().depth(),
            if b.commitments().len() > 0 {
                e.block_roots().push(tree_root(0, b.tier().depth(), b.commitments()))
            } else {
                e.block_roots()
            },
        )
    }

    /// The root of everything inserted so far: the sealed epochs, then the
    /// current epoch unless it and its block are empty.
    pub open spec fn root_spec(&self) -> Seq<u8> {
        let t = self.epochs();
        tree_root(
            t.base(),
            t.depth(),
            if self.block().commitments().len() > 0 || self.epoch().block_roots().len() > 0 {
                t.leaves().push(self.epoch_root_spec())
            } else {
                t.leaves()
            },
        )
    }

    /// The tiers fit on top of one another; a non-empty current block has room
    /// in the current epoch, and a non-empty current epoch has room in the
    /// eternity; and each sealed epoch has its slot.
    pub open spec fn wf(&self) -> bool {
        let b = self.block();
        let e = self.epoch();
        let t = self.epochs();
        &&& b.wf()
        &&& e.wf()
        &&& t.wf()
        &&& e.block_depth() == b.tier().depth()
        &&& t.base() == e.block_depth() + e.tier().depth()
        &&& b.commitments().len() > 0 ==> !e.tier().is_full()
        &&& (b.commitments().len() > 0 || e.block_roots().len() > 0) ==> !t.is_full()
        &&& self.sealed().len() == t.leaves().len()
        &&& forall|i: int| 0 <= i < self.sealed().len() ==> #[trigger] self.holds_epoch(i)
    }

    /// An empty eternity of `depth` levels over epochs of `epoch_depth` levels
    /// over blocks of `block_depth` levels.
    pub fn new(block_depth: u8, epoch_depth: u8, depth: u8) -> (r: Self)
        requires
            block_depth + epoch_depth + depth <= 255,
        ensures
            r.wf(),
            r.block().tier().depth() == block_depth,
            r.epoch().tier().depth() == epoch_depth,
            r.epochs().depth() == depth,
            r.block().commitments().len() == 0,
            r.epoch().block_roots().len() == 0,
            r.epochs().leaves().len() == 0,
            !r.block().tier().is_full(),
            !r.epoch().tier().is_full(),
            !r.epochs().is_full(),
    {
        Eternity {
            block: Block::new(block_depth),
            epoch: Epoch::new(block_depth, epoch_depth),
            epochs: Tier::new(block_depth + epoch_depth, depth),
            sealed: Vec::new(),
        }
    }

    /// Inserts a commitment into the current block and returns its position.
    /// Fails, changing nothing, with `Full` if the eternity is full, else with
    /// `EpochFull` if the current epoch has no room for the current block, else
    /// with `BlockFull` if the current block is full.
    pub fn insert(&mut self, commitment: Digest) -> (r: Result<Position, InsertError>)
        requires
            old(self).wf(),
        ensures
            final(self).wf(),
            old(self).epochs().is_full() ==> r == Err::<Position, InsertError>(InsertError::Full),
            !old(self).epochs().is_full() && old(self).epoch().tier().is_full() ==> r == Err::<Position, InsertError>(
                InsertError::EpochFull,
            ),
            !old(self).epochs().is_full() && !old(self).epoch().tier().is_full() && old(self).block().tier().is_full()
                ==> r == Err::<Position, InsertError>(InsertError::BlockFull),
            !old(self).epochs().is_full() && !old(self).epoch().tier().is_full() && !old(self).block().tier().is_full()
                ==> r is Ok,
            r is Err ==> *final(self) == *old(self),
            r is Ok ==> r == Ok::<Position, InsertError>(
                Position {
                    epoch: old(self).epochs().leaves().len() as usize,
                    block: old(self).epoch().block_roots().len() as usize,
                    commitment: old(self).block().commitments().len() as usize,
                },
            ) && final(self).block().commitments() == old(self).block().commitments().push(commitment@)
                && final(self).block().tier().kept() == old(self).block().tier().kept().push(true)
                && final(self).block().tier().depth() == old(self).block().tier().depth()
                && final(self).epoch() == old(self).epoch() && final(self).epochs() == old(self).epochs()
                && final(self).sealed() == old(self).sealed(),
            r matches Ok(pos) ==> final(self).witnessable(pos) && final(self).commitment_at(pos) == commitment@,
    {
        if self.epochs.full() {
            return Err(InsertError::Full);
        }
        if self.epoch.is_full() {
            return Err(InsertError::EpochFull);
        }
        let position = Position { epoch: self.epochs.len(), block: self.epoch.len(), commitment: self.block.len() };
        let ghost before = *self;
        let r = self.block.insert(commitment);
        assert forall|i: int| 0 <= i < self.sealed().len() implies #[trigger] self.holds_epoch(i) by {
            assert(before.holds_epoch(i));
        }
        proof {
            before.block().tier().lemma_kept_len();
        }
        match r {
            Ok(_) => {
                assert(self.block_at(position) == Some(self.block()));
                Ok(position)
            },
            Err(e) => Err(e),
        }
    }

    /// Seals the current block into the current epoch and starts a new one;
    /// returns the sealed block's root. Fails, changing nothing, with `Full` if
    /// the eternity is full, else with `EpochFull` if the current epoch is.
    pub fn end_block(&mut self) -> (r: Result<Digest, InsertBlockRootError>)
        requires
            old(self).wf(),
        ensures
            final(self).wf(),
            old(self).epochs().is_full() ==> r == Err::<Digest, InsertBlockRootError>(InsertBlockRootError::Full),
            !old(self).epochs().is_full() && old(self).epoch().tier().is_full() ==> r == Err::<
                Digest,
                InsertBlockRootError,
            >(InsertBlockRootError::EpochFull),
            !old(self).epochs().is_full() && !old(self).epoch().tier().is_full() ==> r is Ok,
            r is Err ==> *final(self) == *old(self),
            r matches Ok(root) ==> !old(self).epochs().is_full() && !old(self).epoch().tier().is_full()
                && root@ == tree_root(0, old(self).block().tier().depth(), old(self).block().commitments())
                && final(self).epoch().block_roots() == old(self).epoch().block_roots().push(root@)
                && final(self).block().commitments().len() == 0
                && final(self).block().tier().depth() == old(self).block().tier().depth()
                && final(self).epochs() == old(self).epochs(),
    {
        if self.epochs.full() {
            return Err(InsertBlockRootError::Full);
        }
        if self.epoch.is_full() {
            return Err(InsertBlockRootError::EpochFull);
        }
        let ghost before = *self;
        let mut block = Block::new(self.block.depth());
        std::mem::swap(&mut self.block, &mut block);
        let root = block.root();
        let _ = self.epoch.insert_block(block);
        assert forall|i: int| 0 <= i < self.sealed().len() implies #[trigger] self.holds_epoch(i) by {
            assert(before.holds_epoch(i));
        }
        Ok(root)
    }

    /// Seals the current epoch, with the current block in it unless that is
    /// empty, into the eternity, and starts a new epoch and block; returns the
    /// sealed epoch's root. Fails, changing nothing, if the eternity is full.
    pub fn end_epoch(&mut self) -> (r: Result<Digest, InsertEpochRootError>)
        requires
            old(self).wf(),
        ensures
            final(self).wf(),
            old(self).epochs().is_full() <==> r is Err,
            r is Err ==> *final(self) == *old(self),
            r matches Ok(root) ==> root@ == old(self).epoch_root_spec()
                && final(self).epochs().leaves() == old(self).epochs().leaves().push(root@)
                && final(self).epochs().depth() == old(self).epochs().depth()
                && final(self).epochs().base() == old(self).epochs().base()
                && final(self).block().commitments().len() == 0
                && final(self).epoch().block_roots().len() == 0
                && final(self).block().tier().depth() == old(self).block().tier().depth()
                && final(self).epoch().tier().depth() == old(self).epoch().tier().depth(),
    {
        if self.epochs.full() {
            return Err(InsertEpochRootError);
        }
        let ghost before = *self;
        if self.block.len() > 0 {
            let mut block = Block::new(self.block.depth());
            std::mem::swap(&mut self.block, &mut block);
            let _ = self.epoch.insert_block(block);
        }
        let root = self.epoch.root();
        let ghost old_leaves = self.epochs.leaves();
        let _ = self.epochs.insert(root);
        let block_depth = self.block.depth();
        let epoch_depth = self.epoch.tier.depth_of();
        proof {
            self.epochs.lemma_altitudes();
        }
        let mut epoch = Epoch::new(block_depth, epoch_depth);
        std::mem::swap(&mut self.epoch, &mut epoch);
        self.sealed.push(Some(epoch));
        assert forall|i: int| 0 <= i < self.sealed().len() implies #[trigger] self.holds_epoch(i) by {
            if i < before.sealed().len() {
                assert(before.holds_epoch(i));
                assert(self.sealed()[i] == before.sealed()[i]);
                assert(self.epochs().leaves()[i] == old_leaves[i]);
            }
        }
        Ok(root)
    }

    /// Seals the current epoch unless it is empty, then appends the root of a
    /// sealed epoch after it, and returns the index of that root. Fails,
    /// changing nothing, if the eternity has no room for both.
    pub fn insert_epoch_root(&mut self, root: Digest) -> (r: Result<usize, InsertEpochRootError>)
        requires
            old(self).wf(),
        ensures
            final(self).wf(),
            r is Ok <==> old(self).epochs().leaves().len() + (if old(self).is_open() { 2int } else { 1int }) <= pow4(
                old(self).epochs().depth(),
            ),
            r is Err ==> *final(self) == *old(self),
            r matches Ok(i) ==> i == old(self).closed_epoch_roots().len() && final(self).epochs().leaves()
                == old(self).closed_epoch_roots().push(root@) && final(self).epochs().depth() == old(self).epochs().depth()
                && !final(self).is_open(),
    {
        let open = self.block.len() > 0 || self.epoch.len() > 0;
        let need: usize = if open {
            2
        } else {
            1
        };
        if !self.epochs.has_room(need) {
            return Err(InsertEpochRootError);
        }
        proof {
            self.epochs.lemma_capacity();
        }
        if open {
            let _ = self.end_epoch();
        }
        proof {
            self.epochs.lemma_capacity();
        }
        let ghost before = *self;
        let index = self.epochs.len();
        let _ = self.epochs.insert(root);
        self.sealed.push(None);
        assert forall|i: int| 0 <= i < self.sealed().len() implies #[trigger] self.holds_epoch(i) by {
            if i < before.sealed().len() {
                assert(before.holds_epoch(i));
                assert(self.sealed()[i] == before.sealed()[i]);
            }
        }
        Ok(index)
    }

    /// Seals the current epoch unless it is empty, then appends `epoch`, sealed,
    /// after it, and returns its index. Fails, changing nothing and handing
    /// `epoch` back, if the eternity has no room for both.
    pub fn insert_epoch(&mut self, epoch: Epoch) -> (r: Result<usize, InsertEpochError>)
        requires
            old(self).wf(),
            epoch.wf(),
            epoch.block_depth() == old(self).epoch().block_depth(),
            epoch.tier().depth() == old(self).epoch().tier().depth(),
        ensures
            final(self).wf(),
            r is Ok <==> old(self).epochs().leaves().len() + (if old(self).is_open() { 2int } else { 1int }) <= pow4(
                old(self).epochs().depth(),
            ),
            r is Err ==> *final(self) == *old(self) && r == Err::<usize, InsertEpochError>(InsertEpochError(epoch)),
            r matches Ok(i) ==> i == old(self).closed_epoch_roots().len() && final(self).epochs().leaves()
                == old(self).closed_epoch_roots().push(tree_root(epoch.block_depth(), epoch.tier().depth(), epoch.block_roots()))
                && final(self).epochs().depth() == old(self).epochs().depth() && !final(self).is_open(),
    {
        let open = self.block.len() > 0 || self.epoch.len() > 0;
        let need: usize = if open {
            2
        } else {
            1
        };
        if !self.epochs.has_room(need) {
            return Err(InsertEpochError(epoch));
        }
        proof {
            self.epochs.lemma_capacity();
        }
        if open {
            let _ = self.end_epoch();
        }
        proof {
            self.epochs.lemma_capacity();
        }
        let ghost before = *self;
        let index = self.epochs.len();
        let root = epoch.root();
        let _ = self.epochs.insert(root);
        self.sealed.push(Some(epoch));
        assert forall|i: int| 0 <= i < self.sealed().len() implies #[trigger] self.holds_epoch(i) by {
            if i < before.sealed().len() {
                assert(before.holds_epoch(i));
                assert(self.sealed()[i] == before.sealed()[i]);
            }
        }
        Ok(index)
    }

    /// Seals the current block unless it is empty, then appends the root of a
    /// sealed block after it in the current epoch, and returns the index of that
    /// root. Fails, changing nothing, with `Full` if the eternity is full, else
    /// with `EpochFull` if the current epoch has no room for both.
    pub fn insert_block_root(&mut self, root: Digest) -> (r: Result<usize, InsertBlockRootError>)
        requires
            old(self).wf(),
        ensures
            final(self).wf(),
            old(self).epochs().is_full() ==> r == Err::<usize, InsertBlockRootError>(InsertBlockRootError::Full),
            !old(self).epochs().is_full() ==> (r is Ok <==> old(self).epoch().block_roots().len() + (if old(
                self,
            ).block().commitments().len() > 0 { 2int } else { 1int }) <= pow4(old(self).epoch().tier().depth())),
            !old(self).epochs().is_full() && r is Err ==> r == Err::<usize, InsertBlockRootError>(
                InsertBlockRootError::EpochFull,
            ),
            r is Err ==> *final(self) == *old(self),
            r matches Ok(i) ==> i == old(self).closed_block_roots().len() && final(self).epoch().block_roots()
                == old(self).closed_block_roots().push(root@) && final(self).block().commitments().len() == 0
                && final(self).epochs() == old(self).epochs(),
    {
        if self.epochs.full() {
            return Err(InsertBlockRootError::Full);
        }
        let need: usize = if self.block.len() > 0 {
            2
        } else {
            1
        };
        if !self.epoch.tier.has_room(need) {
            return Err(InsertBlockRootError::EpochFull);
        }
        proof {
            self.epoch.tier().lemma_capacity();
        }
        if self.block.len() > 0 {
            let _ = self.end_block();
        }
        proof {
            self.epoch.tier().lemma_capacity();
        }
        let ghost before = *self;
        let index = self.epoch.len();
        let _ = self.epoch.insert_block_root(root);
        assert forall|i: int| 0 <= i < self.sealed().len() implies #[trigger] self.holds_epoch(i) by {
            assert(before.holds_epoch(i));
        }
        Ok(index)
    }

    /// Seals the current block unless it is empty, then appends `block`, sealed,
    /// after it in the current epoch, and returns its index. Fails, changing
    /// nothing and handing `block` back, in `Full` if the eternity is full, else
    /// in `EpochFull` if the current epoch has no room for both.
    pub fn insert_block(&mut self, block: Block) -> (r: Result<usize, InsertBlockError>)
        requires
            old(self).wf(),
            block.wf(),
            block.tier().depth() == old(self).block().tier().depth(),
        ensures
            final(self).wf(),
            old(self).epochs().is_full() ==> r == Err::<usize, InsertBlockError>(InsertBlockError::Full(block)),
            !old(self).epochs().is_full() ==> (r is Ok <==> old(self).epoch().block_roots().len() + (if old(
                self,
            ).block().commitments().len() > 0 { 2int } else { 1int }) <= pow4(old(self).epoch().tier().depth())),
            !old(self).epochs().is_full() && r is Err ==> r == Err::<usize, InsertBlockError>(
                InsertBlockError::EpochFull(block),
            ),
            r is Err ==> *final(self) == *old(self),
            r matches Ok(i) ==> i == old(self).closed_block_roots().len() && final(self).epoch().block_roots()
                == old(self).closed_block_roots().push(tree_root(0, block.tier().depth(), block.commitments()))
                && final(self).block().commitments().len() == 0 && final(self).epochs() == old(self).epochs(),
    {
        if self.epochs.full() {
            return Err(InsertBlockError::Full(block));
        }
        let need: usize = if self.block.len() > 0 {
            2
        } else {
            1
        };
        if !self.epoch.tier.has_room(need) {
            return Err(InsertBlockError::EpochFull(block));
        }
        proof {
            self.epoch.tier().lemma_capacity();
        }
        if self.block.len() > 0 {
            let _ = self.end_block();
        }
        proof {
            self.epoch.tier().lemma_capacity();
        }
        let ghost before = *self;
        let index = self.epoch.len();
        let _ = self.epoch.insert_block(block);
        assert forall|i: int| 0 <= i < self.sealed().len() implies #[trigger] self.holds_epoch(i) by {
            assert(before.holds_epoch(i));
        }
        Ok(index)
    }

    /// The roots of the current block and the current epoch, where they are
    /// not empty: what [`Self::root`] hashes in beside the sealed data.
    fn open_roots(&self) -> (r: (Option<Digest>, Option<Digest>))
        requires
            self.wf(),
        ensures
            r.0 is Some <==> self.block().commitments().len() > 0,
            r.0 matches Some(h) ==> h@ == tree_root(0, self.block().tier().depth(), self.block().commitments()),
            self.epoch().block_roots() + opt_seq(r.0) == (if self.block().commitments().len() > 0 {
                self.epoch().block_roots().push(tree_root(0, self.block().tier().depth(), self.block().commitments()))
            } else {
                self.epoch().block_roots()
            }),
            r.1 is Some <==> (self.block().commitments().len() > 0 || self.epoch().block_roots().len() > 0),
            r.1 matches Some(h) ==> h@ == self.epoch_root_spec(),
            self.epochs().leaves() + opt_seq(r.1) == (if self.block().commitments().len() > 0
                || self.epoch().block_roots().len() > 0 {
                self.epochs().leaves().push(self.epoch_root_spec())
            } else {
                self.epochs().leaves()
            }),
    {
        let block_root = if self.block.len() > 0 {
            Some(self.block.root())
        } else {
            None
        };
        assert(self.epoch.block_roots() + opt_seq(block_root) =~= (if self.block.commitments().len() > 0 {
            self.epoch.block_roots().push(tree_root(0, self.block.tier().depth(), self.block.commitments()))
        } else {
            self.epoch.block_roots()
        }));
        let epoch_root = if self.block.len() > 0 || self.epoch.len() > 0 {
            Some(self.epoch.tier.root_with(block_root))
        } else {
            None
        };
        assert(self.epochs.leaves() + opt_seq(epoch_root) =~= (if self.block.commitments().len() > 0
            || self.epoch.block_roots().len() > 0 {
            self.epochs.leaves().push(self.epoch_root_spec())
        } else {
            self.epochs.leaves()
        }));
        (block_root, epoch_root)
    }

    /// The authentication path of the commitment at `pos`, from the commitment
    /// up to the root of the eternity: three siblings for each level of its
    /// block, then of its epoch, then of the eternity. `None` if there is no
    /// such commitment or it is forgotten.
    #[verifier::spinoff_prover]
    #[verifier::rlimit(80)]
    pub fn witness(&self, pos: Position) -> (r: Option<Vec<Digest>>)
        requires
            self.wf(),
        ensures
            r is Some <==> self.witnessable(pos),
            r matches Some(path) ==> path@.len() == 3 * (self.block().tier().depth() + self.epoch().tier().depth()
                + self.epochs().depth()) && self.path_root(pos, hashes(path@)) == self.root_spec(),
    {
        let (block_root, epoch_root) = self.open_roots();
        let n = self.sealed.len();
        let ghost bd = self.block().tier().depth();
        let ghost ed = self.epoch().tier().depth();
        let ghost td = self.epochs().depth();
        if pos.epoch < n {
            assert(self.holds_epoch(pos.epoch as int));
            match &self.sealed[pos.epoch] {
                Some(e) => {
                    if pos.block >= e.blocks.len() {
                        return None;
                    }
                    assert(e.holds_block(pos.block as int));
                    match &e.blocks[pos.block] {
                        Some(b) => match b.witness(pos.commitment) {
                            Some(block_path) => {
                                let epoch_path = e.tier.path_with(pos.block, None);
                                let top_path = self.epochs.path_with(pos.epoch, epoch_root);
                                assert(e.block_roots() + opt_seq(None) =~= e.block_roots());
                                let path = join3(block_path, epoch_path, top_path);
                                proof {
                                    lemma_hashes_join3(block_path@, epoch_path@, top_path@);
                                }
                                Some(path)
                            },
                            None => None,
                        },
                        None => None,
                    }
                },
                None => None,
            }
        } else if pos.epoch == n {
            let nb = self.epoch.blocks.len();
            let block_path = if pos.block < nb {
                assert(self.epoch.holds_block(pos.block as int));
                match &self.epoch.blocks[pos.block] {
                    Some(b) => b.witness(pos.commitment),
                    None => None,
                }
            } else if pos.block == nb {
                proof {
                    self.block.tier().lemma_kept_len();
                }
                self.block.witness(pos.commitment)
            } else {
                None
            };
            match block_path {
                Some(block_path) => {
                    let epoch_path = self.epoch.tier.path_with(pos.block, block_root);
                    let top_path = self.epochs.path_with(n, epoch_root);
                    let path = join3(block_path, epoch_path, top_path);
                    proof {
                        lemma_hashes_join3(block_path@, epoch_path@, top_path@);
                    }
                    Some(path)
                },
                None => None,
            }
        } else {
            None
        }
    }

    /// Forgets the commitment at `pos`: it can no longer be witnessed, a sealed
    /// block in which nothing is kept any more drops down to its root, and so
    /// does a sealed epoch in which no block is held any more.
    /// Returns whether it could be witnessed until now. The root stays.
    pub fn forget(&mut self, pos: Position) -> (r: bool)
        requires
            old(self).wf(),
        ensures
            final(self).wf(),
            r == old(self).witnessable(pos),
            !final(self).witnessable(pos),
            final(self).root_spec() == old(self).root_spec(),
            final(self).epochs() == old(self).epochs(),
            final(self).epoch().tier() == old(self).epoch().tier(),
            final(self).block().commitments() == old(self).block().commitments(),
            final(self).block().tier().depth() == old(self).block().tier().depth(),
            final(self).sealed().len() == old(self).sealed().len(),
            final(self).epoch().blocks().len() == old(self).epoch().blocks().len(),
    {
        let ghost before = *self;
        let n = self.sealed.len();
        if pos.epoch < n {
            assert(before.holds_epoch(pos.epoch as int));
            let slot = self.sealed.remove(pos.epoch);
            assert(slot == before.sealed()[pos.epoch as int]);
            match slot {
                Some(mut e) => {
                    let r = e.forget_in(pos.block, pos.commitment);
                    let ghost held = e;
                    if e.any_retained() {
                        self.sealed.insert(pos.epoch, Some(e));
                        assert(self.sealed() =~= before.sealed().update(pos.epoch as int, Some(held)));
                    } else {
                        self.sealed.insert(pos.epoch, None);
                        assert(self.sealed() =~= before.sealed().update(pos.epoch as int, None));
                    }
                    assert forall|i: int| 0 <= i < self.sealed().len() implies #[trigger] self.holds_epoch(i) by {
                        assert(before.holds_epoch(i));
                    }
                    r
                },
                None => {
                    self.sealed.insert(pos.epoch, None);
                    assert(self.sealed() =~= before.sealed());
                    assert forall|i: int| 0 <= i < self.sealed().len() implies #[trigger] self.holds_epoch(i) by {
                        assert(before.holds_epoch(i));
                    }
                    false
                },
            }
        } else if pos.epoch == n {
            if pos.block < self.epoch.blocks.len() {
                let r = self.epoch.forget_in(pos.block, pos.commitment);
                assert forall|i: int| 0 <= i < self.sealed().len() implies #[trigger] self.holds_epoch(i) by {
                    assert(before.holds_epoch(i));
                }
                r
            } else if pos.block == self.epoch.blocks.len() {
                proof {
                    self.block.tier().lemma_kept_len();
                }
                let r = self.block.forget(pos.commitment);
                proof {
                    self.block.tier().lemma_kept_len();
                }
                assert forall|i: int| 0 <= i < self.sealed().len() implies #[trigger] self.holds_epoch(i) by {
                    assert(before.holds_epoch(i));
                }
                r
            } else {
                false
            }
        } else {
            false
        }
    }

    /// The root of everything inserted so far.
    pub fn root(&self) -> (r: Digest)
        requires
            self.wf(),
        ensures
            r@ == self.root_spec(),
    {
        let block_root = if self.block.len() > 0 {
            Some(self.block.root())
        } else {
            None
        };
        assert(self.epoch.block_roots() + opt_seq(block_root) =~= (if self.block.commitments().len() > 0 {
            self.epoch.block_roots().push(tree_root(0, self.block.tier().depth(), self.block.commitments()))
        } else {
            self.epoch.block_roots()
        }));
        let epoch_root = if self.block.len() > 0 || self.epoch.len() > 0 {
            Some(self.epoch.tier.root_with(block_root))
        } else {
            None
        };
        assert(self.epochs.leaves() + opt_seq(epoch_root) =~= (if self.block.commitments().len() > 0
            || self.epoch.block_roots().len() > 0 {
            self.epochs.leaves().push(self.epoch_root_spec())
        } else {
            self.epochs.leaves()
        }));
        self.epochs.root_with(epoch_root)
    }
}

/// A block that holds `4^depth` commitments is full: inserting into it fails
/// and changes nothing, root included.
pub proof fn lemma_block_full_at_capacity(block: Block)
    requires
        block.wf(),
    ensures
        block.commitments().len() <= pow4(block.tier().depth()),
        block.tier().is_full() <==> block.commitments().len() == pow4(block.tier().depth()),
{
    block.tier().lemma_capacity();
}

/// Right after a commitment is inserted, it stands at the index returned and
/// is kept, so that it can be witnessed.
pub proof fn lemma_witness_after_insert(before: Block, after: Block, commitment: Digest)
    requires
        before.wf(),
        after.commitments() == before.commitments().push(commitment@),
        after.tier().kept() == before.tier().kept().push(true),
    ensures
        before.commitments().len() < after.commitments().len(),
        after.commitments()[before.commitments().len() as int] == commitment@,
        after.tier().kept()[before.commitments().len() as int],
{
    before.tier().lemma_kept_len();
}

/// A forgotten commitment can no longer be witnessed, and the root is the same
/// as before.
pub proof fn lemma_forget_hides(before: Block, after: Block, index: usize)
    requires
        before.wf(),
        index < before.commitments().len(),
        after.tier().depth() == before.tier().depth(),
        after.commitments() == before.commitments(),
        after.tier().kept() == before.tier().kept().update(index as int, false),
    ensures
        !after.tier().kept()[index as int],
        tree_root(0, after.tier().depth(), after.commitments()) == tree_root(0, before.tier().depth(), before.commitments()),
{
    before.tier().lemma_kept_len();
}

/// Forgetting a commitment a second time finds nothing to forget and changes
/// nothing.
pub proof fn lemma_forget_twice(before: Block, once: Block, index: usize)
    requires
        before.wf(),
        once.commitments() == before.commitments(),
        index < before.commitments().len() ==> once.tier().kept() == before.tier().kept().update(index as int, false),
        index >= before.commitments().len() ==> once.tier().kept() == before.tier().kept(),
    ensures
        !(index < once.commitments().len() && once.tier().kept()[index as int]),
        index < once.commitments().len() ==> once.tier().kept().update(index as int, false) == once.tier().kept(),
{
    before.tier().lemma_kept_len();
    if index < once.commitments().len() {
        assert(once.tier().kept().update(index as int, false) =~= once.tier().kept());
    }
}

/// Three paths one after the other.
fn join3(a: Vec<Digest>, b: Vec<Digest>, c: Vec<Digest>) -> (r: Vec<Digest>)
    ensures
        r@ == a@ + b@ + c@,
{
    let mut r = a;
    let mut i: usize = 0;
    while i < b.len()
        invariant
            i <= b@.len(),
            r@ == a@ + b@.subrange(0, i as int),
        decreases b@.len() - i,
    {
        r.push(b[i]);
        assert(b@.subrange(0, i + 1) =~= b@.subrange(0, i as int).push(b@[i as int]));
        i = i + 1;
    }
    assert(b@.subrange(0, b@.len() as int) =~= b@);
    let mut j: usize = 0;
    while j < c.len()
        invariant
            j <= c@.len(),
            r@ == a@ + b@ + c@.subrange(0, j as int),
        decreases c@.len() - j,
    {
        r.push(c[j]);
        assert(c@.subrange(0, j + 1) =~= c@.subrange(0, j as int).push(c@[j as int]));
        j = j + 1;
    }
    assert(c@.subrange(0, c@.len() as int) =~= c@);
    r
}

proof fn lemma_hashes_join3(a: Seq<Digest>, b: Seq<Digest>, c: Seq<Digest>)
    ensures
        ({
            let h = hashes(a + b + c);
            &&& h.subrange(0, a.len() as int) == hashes(a)
            &&& h.subrange(a.len() as int, (a.len() + b.len()) as int) == hashes(b)
            &&& h.subrange((a.len() + b.len()) as int, (a.len() + b.len() + c.len()) as int) == hashes(c)
        }),
{
    let h = hashes(a + b + c);
    assert(h.subrange(0, a.len() as int) =~= hashes(a));
    assert(h.subrange(a.len() as int, (a.len() + b.len()) as int) =~= hashes(b));
    assert(h.subrange((a.len() + b.len()) as int, (a.len() + b.len() + c.len()) as int) =~= hashes(c));
}

} // verus!
