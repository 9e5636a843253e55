use vstd::prelude::*;

use crate::sha::{sha1_bytes, sha1_digest};
use crate::wire::{Message, BLOCK_SIZE};

verus! {

/// `std::io::Error`, carried through opaquely.
#[verifier::external_type_specification]
#[verifier::external_body]
pub struct ExIoError(std::io::Error);

/// Events a download broadcasts to its peer connections.
#[allow(non_camel_case_types)]
#[derive(Clone, Debug)]
pub enum IPC {
    CatComplete,
    BlockComplete(u32, u32),
    PieceComplete(u32),
    DownloadComplete,
    Message(Message),
    BlockUploaded,
    Upstream_Error,
    Downstream_Error,
}

/// Errors of a download.
#[derive(Debug)]
pub enum Error {
    MissingPieceData,
    IoError(std::io::Error),
}

/// A block of a piece.
#[derive(Debug)]
pub struct Block {
    pub index: u32,
    pub length: u32,
    pub is_complete: bool,
}

impl Block {
    pub fn new(index: u32, length: u32) -> (r: Block)
        ensures
            r.index == index,
            r.length == length,
            !r.is_complete,
    {
        Block { index, length, is_complete: false }
    }
}

/// Number of blocks of a piece of the given length.
pub open spec fn num_blocks(length: u32) -> int {
    (length + BLOCK_SIZE - 1) / (BLOCK_SIZE as int)
}

/// Length of block `i` of a piece of the given length: a full block, except
/// the last one which takes what is left.
pub open spec fn block_length(length: u32, i: int) -> int {
    if i < num_blocks(length) - 1 {
        BLOCK_SIZE as int
    } else {
        length - BLOCK_SIZE * (num_blocks(length) - 1)
    }
}

/// Sum of the lengths of the first `k` blocks of a piece.
pub open spec fn blocks_total(length: u32, k: int) -> int
    decreases k,
{
    if k <= 0 {
        0
    } else {
        blocks_total(length, k - 1) + block_length(length, k - 1)
    }
}

/// A piece of the torrent, split into blocks.
#[derive(Debug)]
pub struct Piece {
    pub length: u32,
    pub offset: u64,
    pub hash: Vec<u8>,
    pub blocks: Vec<Block>,
    pub is_complete: bool,
}

impl Piece {
    /// A piece of the given length at the given offset of the download, split
    /// into blocks of `BLOCK_SIZE` bytes (the last block takes what is left),
    /// none of them complete.
    pub fn new(length: u32, offset: u64, hash: Vec<u8>) -> (r: Piece)
        ensures
            r.length == length,
            r.offset == offset,
            r.hash@ == hash@,
            !r.is_complete,
            r.blocks@.len() == num_blocks(length),
            forall|i: int| 0 <= i < r.blocks@.len() ==> {
                &&& (#[trigger] r.blocks@[i]).index == i
                &&& r.blocks@[i].length == block_length(length, i)
                &&& !r.blocks@[i].is_complete
            },
    {
        let mut blocks: Vec<Block> = Vec::new();
        let n_blocks: u32 = if length == 0 { 0 } else { (length - 1) / BLOCK_SIZE + 1 };
        assert(n_blocks == num_blocks(length));
        let mut i: u32 = 0;
        while i < n_blocks
            invariant
                n_blocks == num_blocks(length),
                i <= n_blocks,
                blocks@.len() == i,
                forall|j: int| 0 <= j < i ==> {
                    &&& (#[trigger] blocks@[j]).index == j
                    &&& blocks@[j].length == block_length(length, j)
                    &&& !blocks@[j].is_complete
                },
            decreases n_blocks - i,
        {
            let len = if i < n_blocks - 1 {
                BLOCK_SIZE
            } else {
                length - BLOCK_SIZE * (n_blocks - 1)
            };
            blocks.push(Block::new(i, len));
            i = i + 1;
        }
        Piece { length, offset, hash, blocks, is_complete: false }
    }

    pub fn has_block(&self, block_index: u32) -> (r: bool)
        requires
            block_index < self.blocks@.len(),
        ensures
            r == self.blocks@[block_index as int].is_complete,
    {
        self.blocks[block_index as usize].is_complete
    }

    pub fn has_all_blocks(&self) -> (r: bool)
        ensures
            r == forall|i: int| 0 <= i < self.blocks@.len() ==> (#[trigger] self.blocks@[i]).is_complete,
    {
        let mut i: usize = 0;
        while i < self.blocks.len()
            invariant
                i <= self.blocks@.len(),
                forall|j: int| 0 <= j < i ==> (#[trigger] self.blocks@[j]).is_complete,
            decreases self.blocks@.len() - i,
        {
            if !self.blocks[i].is_complete {
                return false;
            }
            i = i + 1;
        }
        true
    }

    /// Marks every block as not complete.
    pub fn reset_blocks(&mut self)
        ensures
            final(self).blocks@.len() == old(self).blocks@.len(),
            forall|i: int| 0 <= i < final(self).blocks@.len() ==> {
                &&& (#[trigger] final(self).blocks@[i]).index == old(self).blocks@[i].index
                &&& final(self).blocks@[i].length == old(self).blocks@[i].length
                &&& !final(self).blocks@[i].is_complete
            },
            final(self).length == old(self).length,
            final(self).offset == old(self).offset,
            final(self).hash@ == old(self).hash@,
            final(self).is_complete == old(self).is_complete,
    {
        let n = self.blocks.len();
        let mut i: usize = 0;
        while i < n
            invariant
                n == self.blocks@.len(),
                n == old(self).blocks@.len(),
                i <= n,
                forall|j: int| 0 <= j < n ==> (#[trigger] self.blocks@[j]).index == old(self).blocks@[j].index && self.blocks@[j].length == old(self).blocks@[j].length,
                forall|j: int| 0 <= j < i ==> !(#[trigger] self.blocks@[j]).is_complete,
                self.length == old(self).length,
                self.offset == old(self).offset,
                self.hash@ == old(self).hash@,
                self.is_complete == old(self).is_complete,
            decreases n - i,
        {
            let b = Block::new(self.blocks[i].index, self.blocks[i].length);
            self.blocks.set(i, b);
            i = i + 1;
        }
    }

    /// Marks a block as complete after its data has been written.
    pub fn mark_block_complete(&mut self, block_index: u32)
        requires
            block_index < old(self).blocks@.len(),
        ensures
            final(self).blocks@ == old(self).blocks@.update(block_index as int, Block {
                index: old(self).blocks@[block_index as int].index,
                length: old(self).blocks@[block_index as int].length,
                is_complete: true,
            }),
            final(self).length == old(self).length,
            final(self).offset == old(self).offset,
            final(self).hash@ == old(self).hash@,
            final(self).is_complete == old(self).is_complete,
    {
        let i = block_index as usize;
        let b = Block { index: self.blocks[i].index, length: self.blocks[i].length, is_complete: true };
        self.blocks.set(i, b);
    }

    /// Checks the data read back for the piece against its hash and records
    /// whether the piece is complete.
    pub fn verify(&mut self, data: &[u8]) -> (r: bool)
        ensures
            r == (old(self).hash@ == sha1_digest(data@)),
            final(self).is_complete == r,
            final(self).blocks@ == old(self).blocks@,
            final(self).length == old(self).length,
            final(self).offset == old(self).offset,
            final(self).hash@ == old(self).hash@,
    {
        let digest = sha1_bytes(data);
        let mut same = self.hash.len() == 20;
        let mut i: usize = 0;
        while same && i < 20
            invariant
                i <= 20,
                digest@.len() == 20,
                same ==> self.hash@.len() == 20,
                same ==> forall|j: int| 0 <= j < i ==> self.hash@[j] == digest@[j],
                !same ==> self.hash@ != digest@,
            decreases 20 - i,
        {
            if self.hash[i] != digest[i] {
                same = false;
            }
            i = i + 1;
        }
        if same {
            assert(self.hash@ =~= digest@);
        }
        self.is_complete = same;
        same
    }

    /// Records that a block's data was written: marks the block complete and
    /// returns whether every block is now complete, in which case the piece
    /// must be read back and checked with `finish_verification`.
    pub fn after_block_stored(&mut self, block_index: u32) -> (r: bool)
        requires
            block_index < old(self).blocks@.len(),
        ensures
            final(self).blocks@ == old(self).blocks@.update(block_index as int, Block {
                index: old(self).blocks@[block_index as int].index,
                length: old(self).blocks@[block_index as int].length,
                is_complete: true,
            }),
            r == forall|i: int| 0 <= i < final(self).blocks@.len() ==> (#[trigger] final(self).blocks@[i]).is_complete,
            final(self).length == old(self).length,
            final(self).offset == old(self).offset,
            final(self).hash@ == old(self).hash@,
            final(self).is_complete == old(self).is_complete,
    {
        self.mark_block_complete(block_index);
        self.has_all_blocks()
    }

    /// Checks the data read back for a piece whose blocks are all written;
    /// when it does not match the hash, every block is marked incomplete so
    /// that the piece is downloaded again.
    pub fn finish_verification(&mut self, data: &[u8]) -> (r: bool)
        ensures
            r == (old(self).hash@ == sha1_digest(data@)),
            final(self).is_complete == r,
            final(self).blocks@.len() == old(self).blocks@.len(),
            forall|i: int| 0 <= i < final(self).blocks@.len() ==> {
                &&& (#[trigger] final(self).blocks@[i]).index == old(self).blocks@[i].index
                &&& final(self).blocks@[i].length == old(self).blocks@[i].length
                &&& final(self).blocks@[i].is_complete == (r && old(self).blocks@[i].is_complete)
            },
            final(self).length == old(self).length,
            final(self).offset == old(self).offset,
            final(self).hash@ == old(self).hash@,
    {
        let valid = self.verify(data);
        if !valid {
            self.reset_blocks();
        }
        valid
    }

    /// The blocks still to download, as (index, length) pairs; none once the
    /// piece is complete.
    pub fn incomplete_blocks(&self) -> (r: Vec<(u32, u32)>)
        ensures
            self.is_complete ==> r@.len() == 0,
            !self.is_complete ==> r@ == incomplete_of(self.blocks@),
    {
        let mut r: Vec<(u32, u32)> = Vec::new();
        if self.is_complete {
            return r;
        }
        let mut i: usize = 0;
        while i < self.blocks.len()
            invariant
                i <= self.blocks@.len(),
                r@ == incomplete_of(self.blocks@.take(i as int)),
            decreases self.blocks@.len() - i,
        {
            proof {
                assert(self.blocks@.take(i + 1).drop_last() =~= self.blocks@.take(i as int));
            }
            if !self.blocks[i].is_complete {
                r.push((self.blocks[i].index, self.blocks[i].length));
            }
            i = i + 1;
        }
        assert(self.blocks@.take(i as int) =~= self.blocks@);
        r
    }
}

/// The (index, length) pairs of the blocks not complete, in order.
pub open spec fn incomplete_of(blocks: Seq<Block>) -> Seq<(u32, u32)>
    decreases blocks.len(),
{
    if blocks.len() == 0 {
        Seq::empty()
    } else {
        let rest = incomplete_of(blocks.drop_last());
        if blocks.last().is_complete {
            rest
        } else {
            rest.push((blocks.last().index, blocks.last().length))
        }
    }
}

/// The blocks of a new piece add up to the piece: each is a full block but
/// the last, which is not empty and not longer than a block.
pub proof fn lemma_blocks_cover_piece(length: u32)
    ensures
        blocks_total(length, num_blocks(length)) == length,
        forall|i: int| 0 <= i < num_blocks(length) ==> 0 < #[trigger] block_length(length, i) <= BLOCK_SIZE,
{
    lemma_blocks_total(length, num_blocks(length));
}

proof fn lemma_blocks_total(length: u32, k: int)
    requires
        0 <= k <= num_blocks(length),
    ensures
        k < num_blocks(length) ==> blocks_total(length, k) == BLOCK_SIZE * k,
        k == num_blocks(length) ==> blocks_total(length, k) == length,
    decreases k,
{
    if k > 0 {
        lemma_blocks_total(length, k - 1);
    }
}

/// Which pieces are complete, padded with `false` up to `num_pieces` while
/// the pieces are still being split; also returns how many pieces exist.
pub fn have_pieces(pieces: &Vec<Piece>, num_pieces: u32) -> (r: (usize, Vec<bool>))
    ensures
        r.0 == pieces@.len(),
        r.1@.len() == (if pieces@.len() < num_pieces { num_pieces as int } else { pieces@.len() as int }),
        forall|i: int| 0 <= i < pieces@.len() ==> r.1@[i] == (#[trigger] pieces@[i]).is_complete,
        forall|i: int| pieces@.len() <= i < r.1@.len() ==> !#[trigger] r.1@[i],
{
    let mut have: Vec<bool> = Vec::new();
    let mut i: usize = 0;
    while i < pieces.len()
        invariant
            i <= pieces@.len(),
            have@.len() == i,
            forall|j: int| 0 <= j < i ==> have@[j] == (#[trigger] pieces@[j]).is_complete,
        decreases pieces@.len() - i,
    {
        have.push(pieces[i].is_complete);
        i = i + 1;
    }
    let cat_num = have.len();
    if cat_num < num_pieces as usize {
        let mut k = cat_num;
        while k < num_pieces as usize
            invariant
                cat_num == pieces@.len(),
                cat_num <= k <= num_pieces,
                have@.len() == k,
                forall|j: int| 0 <= j < cat_num ==> have@[j] == (#[trigger] pieces@[j]).is_complete,
                forall|j: int| cat_num <= j < k ==> !#[trigger] have@[j],
            decreases num_pieces - k,
        {
            have.push(false);
            k = k + 1;
        }
    }
    (cat_num, have)
}

/// Whether a block received for a piece should be stored: not when the piece
/// is complete or already has the block.
pub fn should_store_block(piece: &Piece, block_index: u32) -> (r: bool)
    requires
        block_index < piece.blocks@.len(),
    ensures
        r == !(piece.is_complete || piece.blocks@[block_index as int].is_complete),
{
    !(piece.is_complete || piece.has_block(block_index))
}

/// The events to broadcast once a block of a piece has been stored: the block
/// is complete; the piece is complete if it is; the download is complete if
/// every piece is.
pub fn store_events(pieces: &Vec<Piece>, piece_index: u32, block_index: u32) -> (r: Vec<IPC>)
    requires
        piece_index < pieces@.len(),
    ensures
        r@.len() >= 1,
        r@[0] == IPC::BlockComplete(piece_index, block_index),
        ({
            let piece_done = pieces@[piece_index as int].is_complete;
            let all_done = forall|i: int| 0 <= i < pieces@.len() ==> (#[trigger] pieces@[i]).is_complete;
            &&& r@.len() == 1 + (if piece_done { 1int } else { 0 }) + (if all_done { 1int } else { 0 })
            &&& piece_done ==> r@[1] == IPC::PieceComplete(piece_index)
            &&& all_done ==> r@[r@.len() - 1] == IPC::DownloadComplete
        }),
{
    let mut events: Vec<IPC> = Vec::new();
    events.push(IPC::BlockComplete(piece_index, block_index));
    if pieces[piece_index as usize].is_complete {
        events.push(IPC::PieceComplete(piece_index));
    }
    if all_complete(pieces) {
        events.push(IPC::DownloadComplete);
    }
    events
}

/// Whether every piece is complete.
pub fn all_complete(pieces: &Vec<Piece>) -> (r: bool)
    ensures
        r == forall|i: int| 0 <= i < pieces@.len() ==> (#[trigger] pieces@[i]).is_complete,
{
    let mut i: usize = 0;
    while i < pieces.len()
        invariant
            i <= pieces@.len(),
            forall|j: int| 0 <= j < i ==> (#[trigger] pieces@[j]).is_complete,
        decreases pieces@.len() - i,
    {
        if !pieces[i].is_complete {
            return false;
        }
        i = i + 1;
    }
    true
}

/// The blocks still to download of one piece, as (index, length) pairs;
/// none once the piece is complete.
pub fn incomplete_blocks_for_piece(pieces: &Vec<Piece>, piece_index: u32) -> (r: Vec<(u32, u32)>)
    requires
        piece_index < pieces@.len(),
    ensures
        pieces@[piece_index as int].is_complete ==> r@.len() == 0,
        !pieces@[piece_index as int].is_complete ==> r@ == incomplete_of(pieces@[piece_index as int].blocks@),
{
    pieces[piece_index as usize].incomplete_blocks()
}


/// Where the data of a requested block lies in the download: at the
/// piece's offset plus the offset in the piece, for the requested length.
/// Only a complete piece has data to give.
pub fn retrieve_range(pieces: &Vec<Piece>, piece_index: u32, offset: u32, block_length: u32) -> (r: Result<(u64, u64), Error>)
    requires
        piece_index < pieces@.len(),
        pieces@[piece_index as int].offset + offset <= u64::MAX,
    ensures
        pieces@[piece_index as int].is_complete ==> (r matches Ok((start, len))
            && start == pieces@[piece_index as int].offset + offset && len == block_length),
        !pieces@[piece_index as int].is_complete ==> r matches Err(Error::MissingPieceData),
{
    let piece = &pieces[piece_index as usize];
    if piece.is_complete {
        Ok((piece.offset + offset as u64, block_length as u64))
    } else {
        Err(Error::MissingPieceData)
    }
}

} // verus!
