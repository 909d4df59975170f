//! The block store: where encoded nodes are kept under their content
//! addresses.

use vstd::prelude::*;
use multihash::{Code, MultihashDigest};
use crate::cid::{Cid, HashOutput, HASH_SHA2_256};
use crate::error::FsError;

verus! {

/// What a store holds: the bytes of each block under its address.
pub type Blocks = Map<Cid, Seq<u8>>;

/// The SHA2-256 digest of `bytes`.
pub uninterp spec fn sha2_256_digest(bytes: Seq<u8>) -> HashOutput;

/// The address that a store gives to a block.
pub open spec fn block_cid(codec: u64, bytes: Seq<u8>) -> Cid {
    Cid { codec, hash_code: HASH_SHA2_256, digest: sha2_256_digest(bytes) }
}

/// What reading the block at `cid` gives where the store does not fail.
pub open spec fn fetch(blocks: Blocks, cid: Cid) -> Result<Seq<u8>, FsError> {
    if blocks.contains_key(cid) {
        Ok(blocks[cid])
    } else {
        Err(FsError::NotFound)
    }
}

/// A result with its bytes taken as contracts see them.
pub open spec fn bytes_result(r: Result<Vec<u8>, FsError>) -> Result<Seq<u8>, FsError> {
    match r {
        Ok(b) => Ok(b@),
        Err(e) => Err(e),
    }
}

/// A store of blocks. A store that is not `reliable` may report
/// `FsError::Store` in place of any result; it does so without changing what
/// it holds.
pub trait BlockStore {
    /// The blocks that the store holds. A store that does not say what it
    /// holds is taken to hold nothing.
    open spec fn blocks(&self) -> Blocks {
        Map::empty()
    }

    /// Whether the store never fails on its own account. A store that does
    /// not say so is taken not to be reliable.
    open spec fn reliable(&self) -> bool {
        false
    }

    /// Reads the block at `cid`.
    fn get_block(&self, cid: &Cid) -> (r: Result<Vec<u8>, FsError>)
        ensures
            bytes_result(r) == fetch(self.blocks(), *cid) || (r matches Err(e) && e is Store
                && !self.reliable()),
    ;

    /// Stores a block and returns its address.
    fn put_block(&mut self, bytes: Vec<u8>, codec: u64) -> (r: Result<Cid, FsError>)
        ensures
            final(self).reliable() == old(self).reliable(),
            match r {
                Ok(cid) => cid == block_cid(codec, bytes@) && final(self).blocks() == old(
                    self,
                ).blocks().insert(cid, bytes@),
                Err(e) => e is Store && !old(self).reliable() && final(self).blocks() == old(
                    self,
                ).blocks(),
            },
    ;
}

/// Calls `Code::Sha2_256.digest` of multihash on the bytes and copies the
/// digest, which SHA2-256 makes 32 bytes long, into an array.
#[verifier::external_body]
fn sha2_256(bytes: &[u8]) -> (r: HashOutput)
    ensures
        r == sha2_256_digest(bytes@),
{
    let hash = Code::Sha2_256.digest(bytes);
    let mut digest = [0u8; 32];
    digest.copy_from_slice(hash.digest());
    digest
}

/// Computes the address of a block.
pub fn cid_of_block(codec: u64, bytes: &[u8]) -> (r: Cid)
    ensures
        r == block_cid(codec, bytes@),
{
    Cid { codec, hash_code: HASH_SHA2_256, digest: sha2_256(bytes) }
}

/// A block store in memory.
pub struct MemoryBlockStore {
    entries: Vec<(Cid, Vec<u8>)>,
}

/// The blocks that a list of stored entries holds: of two entries under one
/// address the later one counts.
pub open spec fn blocks_of(entries: Seq<(Cid, Vec<u8>)>) -> Blocks
    decreases entries.len(),
{
    if entries.len() == 0 {
        Map::empty()
    } else {
        blocks_of(entries.drop_last()).insert(entries.last().0, entries.last().1@)
    }
}

/// An address that no entry has is not among the blocks.
proof fn lemma_blocks_of_absent(entries: Seq<(Cid, Vec<u8>)>, cid: Cid)
    requires
        forall|j: int| 0 <= j < entries.len() ==> (#[trigger] entries[j]).0 != cid,
    ensures
        !blocks_of(entries).contains_key(cid),
    decreases entries.len(),
{
    if entries.len() > 0 {
        let rest = entries.drop_last();
        assert forall|j: int| 0 <= j < rest.len() implies (#[trigger] rest[j]).0 != cid by {
            assert(entries[j].0 != cid);
        }
        lemma_blocks_of_absent(rest, cid);
        assert(entries.last() == entries[entries.len() - 1]);
    }
}

/// Where no address occurs twice, each entry is the block at its address.
proof fn lemma_blocks_of_at(entries: Seq<(Cid, Vec<u8>)>, i: int)
    requires
        0 <= i < entries.len(),
        forall|a: int, b: int|
            0 <= a < b < entries.len() ==> (#[trigger] entries[a]).0 != (#[trigger] entries[b]).0,
    ensures
        blocks_of(entries).contains_key(entries[i].0),
        blocks_of(entries)[entries[i].0] == entries[i].1@,
    decreases entries.len(),
{
    let rest = entries.drop_last();
    if i < entries.len() - 1 {
        assert forall|a: int, b: int| 0 <= a < b < rest.len() implies (#[trigger] rest[a]).0 != (
        #[trigger] rest[b]).0 by {
            assert(entries[a].0 != entries[b].0);
        }
        lemma_blocks_of_at(rest, i);
        assert(rest[i] == entries[i]);
        assert(entries[i].0 != entries[entries.len() - 1].0);
    }
}

/// Replacing the bytes of one entry binds its address anew.
proof fn lemma_blocks_of_update(entries: Seq<(Cid, Vec<u8>)>, i: int, bytes: Vec<u8>)
    requires
        0 <= i < entries.len(),
        forall|a: int, b: int|
            0 <= a < b < entries.len() ==> (#[trigger] entries[a]).0 != (#[trigger] entries[b]).0,
    ensures
        blocks_of(entries.update(i, (entries[i].0, bytes))) == blocks_of(entries).insert(
            entries[i].0,
            bytes@,
        ),
    decreases entries.len(),
{
    let cid = entries[i].0;
    let next = entries.update(i, (cid, bytes));
    let rest = entries.drop_last();
    if i == entries.len() - 1 {
        assert(next.drop_last() =~= rest);
        assert(blocks_of(next) =~= blocks_of(entries).insert(cid, bytes@));
    } else {
        assert forall|a: int, b: int| 0 <= a < b < rest.len() implies (#[trigger] rest[a]).0 != (
        #[trigger] rest[b]).0 by {
            assert(entries[a].0 != entries[b].0);
        }
        lemma_blocks_of_update(rest, i, bytes);
        assert(rest[i] == entries[i]);
        assert(next.drop_last() =~= rest.update(i, (cid, bytes)));
        assert(entries[i].0 != entries[entries.len() - 1].0);
        assert(next.last() == entries.last());
        assert(blocks_of(next) =~= blocks_of(entries).insert(cid, bytes@));
    }
}

/// Where no address occurs twice, there are as many blocks as entries.
proof fn lemma_blocks_of_len(entries: Seq<(Cid, Vec<u8>)>)
    requires
        forall|a: int, b: int|
            0 <= a < b < entries.len() ==> (#[trigger] entries[a]).0 != (#[trigger] entries[b]).0,
    ensures
        blocks_of(entries).dom().finite(),
        blocks_of(entries).dom().len() == entries.len(),
    decreases entries.len(),
{
    if entries.len() > 0 {
        let rest = entries.drop_last();
        assert forall|a: int, b: int| 0 <= a < b < rest.len() implies (#[trigger] rest[a]).0 != (
        #[trigger] rest[b]).0 by {
            assert(entries[a].0 != entries[b].0);
        }
        lemma_blocks_of_len(rest);
        assert forall|j: int| 0 <= j < rest.len() implies (#[trigger] rest[j]).0
            != entries.last().0 by {
            assert(entries[j].0 != entries[entries.len() - 1].0);
        }
        lemma_blocks_of_absent(rest, entries.last().0);
        assert(blocks_of(entries).dom() =~= blocks_of(rest).dom().insert(entries.last().0));
    }
}

impl MemoryBlockStore {
    /// No address occurs twice among the entries.
    #[verifier::type_invariant]
    spec fn inv(&self) -> bool {
        forall|a: int, b: int|
            0 <= a < b < self.entries.len() ==> (#[trigger] self.entries[a]).0 != (
            #[trigger] self.entries[b]).0
    }

    /// An empty store.
    pub fn new() -> (r: Self)
        ensures
            r.blocks() == Blocks::empty(),
            r.reliable(),
    {
        MemoryBlockStore { entries: Vec::new() }
    }

    /// The number of blocks in the store.
    pub fn len(&self) -> (r: usize)
        ensures
            r == self.blocks().dom().len(),
    {
        proof {
            use_type_invariant(self);
            lemma_blocks_of_len(self.entries@);
        }
        self.entries.len()
    }

    /// Finds the entry at `cid`.
    fn position(&self, cid: &Cid) -> (r: Option<usize>)
        ensures
            match r {
                Some(i) => i < self.entries.len() && self.entries[i as int].0 == *cid,
                None => forall|j: int|
                    0 <= j < self.entries.len() ==> (#[trigger] self.entries[j]).0 != *cid,
            },
    {
        let mut i: usize = 0;
        while i < self.entries.len()
            invariant
                i <= self.entries.len(),
                forall|j: int| 0 <= j < i ==> (#[trigger] self.entries[j]).0 != *cid,
            decreases self.entries.len() - i,
        {
            if self.entries[i].0.same(cid) {
                return Some(i);
            }
            i += 1;
        }
        None
    }
}

impl Default for MemoryBlockStore {
    fn default() -> (r: Self)
        ensures
            r.blocks() == Blocks::empty(),
            r.reliable(),
    {
        MemoryBlockStore::new()
    }
}

impl BlockStore for MemoryBlockStore {
    closed spec fn blocks(&self) -> Blocks {
        blocks_of(self.entries@)
    }

    open spec fn reliable(&self) -> bool {
        true
    }

    fn get_block(&self, cid: &Cid) -> (r: Result<Vec<u8>, FsError>) {
        proof {
            use_type_invariant(self);
        }
        match self.position(cid) {
            Some(i) => {
                proof {
                    lemma_blocks_of_at(self.entries@, i as int);
                }
                Ok(self.entries[i].1.clone())
            },
            None => {
                proof {
                    lemma_blocks_of_absent(self.entries@, *cid);
                }
                Err(FsError::NotFound)
            },
        }
    }

    fn put_block(&mut self, bytes: Vec<u8>, codec: u64) -> (r: Result<Cid, FsError>) {
        proof {
            use_type_invariant(&*self);
        }
        let cid = cid_of_block(codec, bytes.as_slice());
        let found = self.position(&cid);
        let mut taken = MemoryBlockStore::new();
        std::mem::swap(self, &mut taken);
        let MemoryBlockStore { entries } = taken;
        let mut entries = entries;
        match found {
            Some(i) => {
                proof {
                    lemma_blocks_of_update(entries@, i as int, bytes);
                }
                entries[i] = (cid, bytes);
            },
            None => {
                proof {
                    assert(entries@.push((cid, bytes)).drop_last() =~= entries@);
                }
                entries.push((cid, bytes));
            },
        }
        *self = MemoryBlockStore { entries };
        Ok(cid)
    }
}

} // verus!
