//! Where pieces and blocks lie in the output file.
use vstd::prelude::*;

verus! {

/// The byte offset of a piece in the output file.
pub fn piece_offset(piece_index: u32, piece_length: u32) -> (r: u64)
    ensures
        r == piece_index as nat * piece_length as nat,
{
    assert(piece_index as nat * piece_length as nat <= 0xffff_ffff * 0xffff_ffff) by (nonlinear_arith)
        requires
            piece_index <= 0xffff_ffff,
            piece_length <= 0xffff_ffff,
    ;
    (piece_index as u64) * (piece_length as u64)
}

/// The byte offset of a block in the output file: where its piece starts,
/// plus the block's offset within the piece.
pub fn block_offset(piece_index: u32, piece_length: u32, block_begin: u32) -> (r: u64)
    ensures
        r == piece_index as nat * piece_length as nat + block_begin as nat,
{
    assert(piece_index as nat * piece_length as nat <= 0xffff_ffff * 0xffff_ffff) by (nonlinear_arith)
        requires
            piece_index <= 0xffff_ffff,
            piece_length <= 0xffff_ffff,
    ;
    (piece_index as u64) * (piece_length as u64) + (block_begin as u64)
}

} // verus!
