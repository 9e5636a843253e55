use vstd::prelude::*;

use crate::sha::{hash_eq, InfoHash};

verus! {

/// Location of a block of data within a torrent.
#[derive(Clone, Copy, Debug, PartialEq, Eq, Hash)]
pub struct BlockMetadata {
    pub info_hash: InfoHash,
    pub piece_index: u64,
    pub block_offset: u64,
    pub block_length: usize,
}

impl BlockMetadata {
    pub fn new(info_hash: InfoHash, piece_index: u64, block_offset: u64, block_length: usize) -> (r: BlockMetadata)
        ensures
            r.info_hash == info_hash,
            r.piece_index == piece_index,
            r.block_offset == block_offset,
            r.block_length == block_length,
    {
        BlockMetadata { info_hash, piece_index, block_offset, block_length }
    }

    pub fn info_hash(&self) -> (r: InfoHash)
        ensures
            r@ == self.info_hash@,
    {
        self.info_hash
    }

    pub fn piece_index(&self) -> (r: u64)
        ensures
            r == self.piece_index,
    {
        self.piece_index
    }

    pub fn block_offset(&self) -> (r: u64)
        ensures
            r == self.block_offset,
    {
        self.block_offset
    }

    pub fn block_length(&self) -> (r: usize)
        ensures
            r == self.block_length,
    {
        self.block_length
    }

    /// First byte (relative to the piece) past the end of the block.
    pub open spec fn end(self) -> int {
        self.block_offset + self.block_length
    }

    /// The end of the block fits in a `u64`.
    pub open spec fn fits(self) -> bool {
        self.end() <= u64::MAX
    }
}

/// Both blocks belong to the same piece of the same torrent.
pub open spec fn same_piece(a: BlockMetadata, b: BlockMetadata) -> bool {
    a.info_hash@ == b.info_hash@ && a.piece_index == b.piece_index
}

/// The block spanning `[start, end)` of the piece that `a` belongs to.
pub open spec fn span_block(a: BlockMetadata, start: u64, end: int) -> BlockMetadata {
    BlockMetadata {
        info_hash: a.info_hash,
        piece_index: a.piece_index,
        block_offset: start,
        block_length: ((end - start) as u64) as usize,
    }
}

/// Merge of two blocks of the same piece whose ranges overlap or touch,
/// `b`'s start tested against `a`'s range first.
pub open spec fn spec_merge(a: BlockMetadata, b: BlockMetadata) -> Option<BlockMetadata> {
    if !same_piece(a, b) {
        None
    } else {
        let end = if a.end() >= b.end() { a.end() } else { b.end() };
        if b.block_offset >= a.block_offset && b.block_offset <= a.end() {
            Some(span_block(a, a.block_offset, end))
        } else if a.block_offset >= b.block_offset && a.block_offset <= b.end() {
            Some(span_block(a, b.block_offset, end))
        } else {
            None
        }
    }
}

/// Merge a block a with a block b if they belong to the same piece and
/// their ranges overlap or touch.
pub fn merge_piece_messages(message_a: &BlockMetadata, message_b: &BlockMetadata) -> (r: Option<BlockMetadata>)
    requires
        same_piece(*message_a, *message_b) ==> message_a.fits() && message_b.fits(),
    ensures
        r == spec_merge(*message_a, *message_b),
{
    if !hash_eq(&message_a.info_hash, &message_b.info_hash) || message_a.piece_index != message_b.piece_index {
        return None;
    }
    let info_hash = message_a.info_hash;
    let piece_index = message_a.piece_index;

    let start_a = message_a.block_offset;
    let end_a = start_a + message_a.block_length as u64;

    let start_b = message_b.block_offset;
    let end_b = start_b + message_b.block_length as u64;

    let end_to_take = if end_a >= end_b { end_a } else { end_b };
    if start_b >= start_a && start_b <= end_a {
        let length = end_to_take - start_a;
        Some(BlockMetadata::new(info_hash, piece_index, start_a, length as usize))
    } else if start_a >= start_b && start_a <= end_b {
        let length = end_to_take - start_b;
        Some(BlockMetadata::new(info_hash, piece_index, start_b, length as usize))
    } else {
        None
    }
}


/// Truncating a `u64` to a `usize` never makes it larger.
pub proof fn lemma_usize_truncation(x: u64)
    ensures
        (x as usize) as int <= x as int,
{
    assert((x as usize) as u64 <= x) by (bit_vector);
}

/// A merge of two fitting blocks fits, and it covers both of them.
pub proof fn lemma_merge_fits(a: BlockMetadata, b: BlockMetadata)
    requires
        a.fits(),
        b.fits(),
        spec_merge(a, b) is Some,
    ensures
        spec_merge(a, b).unwrap().fits(),
        spec_merge(a, b).unwrap().piece_index == a.piece_index,
{
    let m = spec_merge(a, b).unwrap();
    let end = if a.end() >= b.end() { a.end() } else { b.end() };
    lemma_usize_truncation((end - m.block_offset) as u64);
}


/// Two blocks merge exactly when they belong to the same piece and their
/// ranges overlap or touch.
pub proof fn lemma_merge_defined(a: BlockMetadata, b: BlockMetadata)
    ensures
        spec_merge(a, b) is Some <==> (same_piece(a, b) && a.block_offset <= b.end() && b.block_offset <= a.end()),
{
}

/// Merging is symmetric: merging `a` into `b` gives the same block as merging
/// `b` into `a`.
pub proof fn lemma_merge_symmetric(a: BlockMetadata, b: BlockMetadata)
    ensures
        spec_merge(a, b) is Some <==> spec_merge(b, a) is Some,
        spec_merge(a, b) is Some ==> {
            let m = spec_merge(a, b).unwrap();
            let n = spec_merge(b, a).unwrap();
            &&& m.info_hash@ == n.info_hash@
            &&& m.piece_index == n.piece_index
            &&& m.block_offset == n.block_offset
            &&& m.block_length == n.block_length
        },
{
}

/// A merged block starts where the first of the two starts and ends where the
/// last of the two ends (when that length fits in a `usize`).
pub proof fn lemma_merge_covers(a: BlockMetadata, b: BlockMetadata)
    requires
        a.fits(),
        b.fits(),
        spec_merge(a, b) is Some,
    ensures
        ({
            let m = spec_merge(a, b).unwrap();
            let start = if a.block_offset <= b.block_offset { a.block_offset } else { b.block_offset };
            let end = if a.end() >= b.end() { a.end() } else { b.end() };
            &&& m.block_offset == start
            &&& m.info_hash == a.info_hash
            &&& m.piece_index == a.piece_index
            &&& end - start <= usize::MAX ==> m.end() == end
        }),
{
}

} // verus!
