use vstd::prelude::*;

use crate::disk::context::{FileInfo, Metainfo};
use crate::disk::piece_checker::{last_piece_size, total_length, PieceStateChecker};

verus! {

/// Total length of the files of a torrent.
pub open spec fn files_length(files: Seq<FileInfo>) -> int
    decreases files.len(),
{
    if files.len() == 0 {
        0
    } else {
        files_length(files.drop_last()) + files.last().length
    }
}

/// What to do with a file of the torrent found on disk with a given size.
#[derive(Clone, Copy, Debug, PartialEq, Eq, Structural)]
pub enum FileSizeAction {
    /// The file has the expected size.
    Keep,
    /// The file is missing or empty: write a zero byte at this offset so that
    /// it gets the expected size.
    Allocate(u64),
    /// The file exists with another size; it is left alone and reported.
    Mismatch { expected_size: u64, actual_size: u64 },
}

/// Decides, for a file expected to be `expected_size` bytes long and found
/// with `actual_size` bytes, whether it is kept, allocated or reported.
pub fn file_size_action(expected_size: u64, actual_size: u64) -> (r: FileSizeAction)
    ensures
        actual_size == expected_size ==> r == FileSizeAction::Keep,
        actual_size != expected_size && actual_size == 0 ==> r == FileSizeAction::Allocate((expected_size - 1) as u64),
        actual_size != expected_size && actual_size != 0 ==> r == (FileSizeAction::Mismatch { expected_size, actual_size }),
{
    let size_matches = actual_size == expected_size;
    let size_is_zero = actual_size == 0;
    if !size_matches && size_is_zero {
        FileSizeAction::Allocate(expected_size - 1)
    } else if !size_matches {
        FileSizeAction::Mismatch { expected_size, actual_size }
    } else {
        FileSizeAction::Keep
    }
}

/// Calculates the initial piece checker state of a torrent.
pub struct PieceCheckerMake<'a> {
    info_dict: &'a Metainfo,
    state_checker: PieceStateChecker,
}

impl<'a> PieceCheckerMake<'a> {
    /// The piece checker state of a torrent that has nothing pending: one
    /// block per piece hash, and a last block as long as the total length
    /// modulo the piece length.
    pub fn init_state_checker(info_dict: &'a Metainfo) -> (r: PieceStateChecker)
        requires
            info_dict.piece_length > 0,
            files_length(info_dict.files@) <= u64::MAX,
        ensures
            r.wf(),
            r.total_blocks() == info_dict.pieces@.len(),
            r.last_block_size() == (files_length(info_dict.files@) % (info_dict.piece_length as int)) as usize,
            r.new_states() == Seq::<crate::disk::piece_checker::PieceState>::empty(),
            r.old_states() == Set::<crate::disk::piece_checker::PieceState>::empty(),
            r.pending() == Map::<u64, Seq<crate::disk::block::BlockMetadata>>::empty(),
    {
        let total_blocks = info_dict.pieces.len();
        let mut lengths: Vec<u64> = Vec::new();
        let mut i: usize = 0;
        while i < info_dict.files.len()
            invariant
                i <= info_dict.files@.len(),
                lengths@.len() == i,
                forall|j: int| 0 <= j < i ==> lengths@[j] == #[trigger] info_dict.files@[j].length,
            decreases info_dict.files@.len() - i,
        {
            lengths.push(info_dict.files[i].length);
            i = i + 1;
        }
        proof {
            lemma_lengths_match(info_dict.files@, lengths@);
        }
        let last = last_piece_size(info_dict.piece_length, lengths.as_slice());
        PieceStateChecker::new(total_blocks, last)
    }

    /// Create a new `PieceCheckerMake` with the given state.
    pub fn with_state_checker(info_dict: &'a Metainfo, checker_state: PieceStateChecker) -> (r: PieceCheckerMake<'a>)
        ensures
            r.info_dict() == info_dict,
            r.state_checker() == checker_state,
    {
        PieceCheckerMake { info_dict, state_checker: checker_state }
    }

    pub closed spec fn info_dict(&self) -> &'a Metainfo {
        self.info_dict
    }

    pub closed spec fn state_checker(&self) -> PieceStateChecker {
        self.state_checker
    }
}

proof fn lemma_lengths_match(files: Seq<FileInfo>, lengths: Seq<u64>)
    requires
        files.len() == lengths.len(),
        forall|j: int| 0 <= j < files.len() ==> lengths[j] == #[trigger] files[j].length,
    ensures
        files_length(files) == total_length(lengths),
    decreases files.len(),
{
    if files.len() > 0 {
        lemma_lengths_match(files.drop_last(), lengths.drop_last());
    }
}

} // verus!
