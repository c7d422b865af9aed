//! The messages that the parts of the client pass to one another.
use vstd::prelude::*;

use crate::peer::Bitfield;

verus! {

/// Names a block of downloaded data held in the block store.
pub type BlockId = u64;

/// What a peer session reports to the torrent manager.
#[derive(Debug, Clone, PartialEq, Eq)]
pub enum PeerEvent {
    BitfieldReceived(Bitfield),
    Choked,
    Unchoked,
    BlockDownloaded,
    BlockRequested { piece_index: u32, block_begin: u32, block_length: u32 },
    BytesDownloaded(usize),
    BytesUploaded(usize),
    PeerDisconnected { peer_id: String },
}

/// What the torrent manager tells a peer session to do.
#[derive(Debug, Clone, PartialEq, Eq)]
pub enum ControlMessage {
    RequestBlock { piece_index: u32, block_begin: u32, block_length: u32 },
    SendHave { piece_index: u32 },
    SendBlock { piece_index: u32, block_begin: u32, block_data: Vec<u8> },
}

/// What the piece manager is told.
#[derive(Debug, Clone, PartialEq, Eq)]
pub enum PieceManagerMessage {
    /// A block of data has been downloaded and stored.
    BlockStored { peer_id: String, piece_index: u32, block_begin: u32, block_id: BlockId },
    PeerHasBitfield { peer_id: String, bitfield: Bitfield },
    FindPieceToDownload { peer_id: String },
    PeerChoked { peer_id: String },
    PeerDisconnected { peer_id: String },
}

/// What the piece manager answers.
#[derive(Debug, Clone, PartialEq, Eq)]
pub enum PieceManagerEvent {
    PieceVerified { piece_index: u32, block_ids: Vec<BlockId> },
    /// The block that a peer should download next.
    BlockSelected { peer_id: String, piece_index: u32, block_begin: u32, block_length: u32 },
}

/// What the disk manager is told.
#[derive(Debug, Clone, PartialEq, Eq)]
pub enum DiskMessage {
    /// Write a completed piece to the output file.
    WritePiece { piece_index: u32, block_ids: Vec<BlockId> },
    /// Read a block for the peer that asked for it.
    ReadBlock { peer_id: String, piece_index: u32, block_begin: u32, block_length: u32 },
}

/// What the disk manager answers.
#[derive(Debug, Clone, PartialEq, Eq)]
pub enum DiskEvent {
    BlockRead { peer_id: String, piece_index: u32, block_begin: u32, block_data: Vec<u8> },
}

/// What is announced to every connected peer.
#[derive(Debug, Clone, PartialEq, Eq)]
pub enum BroadcastMessage {
    Have(u32),
}

} // verus!
