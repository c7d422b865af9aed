//! The download strategy: which block each peer fetches next, which blocks
//! have arrived, and which pieces are complete and verified.
use vstd::prelude::*;

use crate::hashing::{same_digest, sha1_digest, sha1_spec};
use crate::messages::{BlockId, PieceManagerEvent, PieceManagerMessage};
use crate::peer::{has_piece_spec, Bitfield};

verus! {

/// The size of a block, the unit in which pieces are requested (16 KiB).
pub const BLOCK_SIZE: u32 = 16384;

/// The most blocks a piece may have.
pub const MAX_BLOCKS_PER_PIECE: u64 = 100_000;

/// The state of a single block within a piece.
#[derive(Debug, Clone, PartialEq, Eq)]
pub enum BlockState {
    /// The block is still to be fetched.
    Needed,
    /// The block has been asked of this peer.
    Requested { peer_id: String },
    /// The block has arrived and is kept under this identifier.
    Have(BlockId),
}

/// The model of a block's state.
pub enum Block {
    Needed,
    Requested(Seq<char>),
    Have(u64),
}

impl View for BlockState {
    type V = Block;

    open spec fn view(&self) -> Block {
        match self {
            BlockState::Needed => Block::Needed,
            BlockState::Requested { peer_id } => Block::Requested(peer_id@),
            BlockState::Have(id) => Block::Have(*id),
        }
    }
}

/// The state of a single piece.
#[derive(Debug)]
pub struct PieceState {
    /// How many peers are known to have the piece.
    pub availability: usize,
    /// The state of every block of the piece.
    pub blocks: Vec<BlockState>,
    pub is_complete: bool,
}

/// The model of a piece's state.
#[verifier::ext_equal]
pub struct Piece {
    pub availability: nat,
    pub blocks: Seq<Block>,
    pub is_complete: bool,
}

impl View for PieceState {
    type V = Piece;

    open spec fn view(&self) -> Piece {
        Piece {
            availability: self.availability as nat,
            blocks: self.blocks@.map_values(|b: BlockState| b@),
            is_complete: self.is_complete,
        }
    }
}

/// Keeps the state of all pieces and decides what to download.
pub struct PieceManager {
    pieces: Vec<PieceState>,
    peer_bitfields: Vec<(String, Bitfield)>,
    piece_hashes: Vec<[u8; 20]>,
    piece_length: u32,
}

/// The model of the piece manager: the pieces, the bitfield announced by
/// each peer (one entry per peer), the expected digest of each piece, and the
/// length of a piece.
#[verifier::ext_equal]
pub struct PieceManagerState {
    pub pieces: Seq<Piece>,
    pub bitfields: Seq<(Seq<char>, Seq<u8>)>,
    pub piece_hashes: Seq<Seq<u8>>,
    pub piece_length: u32,
}

impl View for PieceManager {
    type V = PieceManagerState;

    closed spec fn view(&self) -> PieceManagerState {
        PieceManagerState {
            pieces: self.pieces@.map_values(|p: PieceState| p@),
            bitfields: self.peer_bitfields@.map_values(|e: (String, Bitfield)| (e.0@, e.1.bits@)),
            piece_hashes: self.piece_hashes@.map_values(|h: [u8; 20]| h@),
            piece_length: self.piece_length,
        }
    }
}

/// The number of blocks in a piece of `piece_length` bytes.
pub open spec fn num_blocks(piece_length: u32) -> nat {
    ((piece_length as nat + 16383) / 16384) as nat
}

/// The length of the block that starts at `begin` in a piece of
/// `piece_length` bytes: a full block, except that the last block of a piece
/// whose length is not a multiple of the block size is shorter.
pub open spec fn block_length_at(piece_length: u32, begin: int) -> u32 {
    let last = piece_length % BLOCK_SIZE;
    if begin + BLOCK_SIZE > piece_length && last > 0 {
        last
    } else {
        BLOCK_SIZE
    }
}

/// A piece as it starts: no peer known to have it, every block needed.
pub open spec fn fresh_piece(piece_length: u32) -> Piece {
    Piece {
        availability: 0,
        blocks: Seq::new(num_blocks(piece_length), |j: int| Block::Needed),
        is_complete: false,
    }
}

/// The position of `id` among the peers with a bitfield.
pub open spec fn peer_slot(bitfields: Seq<(Seq<char>, Seq<u8>)>, id: Seq<char>) -> Option<int> {
    if exists|j: int| 0 <= j < bitfields.len() && bitfields[j].0 == id {
        Some(choose|j: int| 0 <= j < bitfields.len() && bitfields[j].0 == id)
    } else {
        None
    }
}

/// How many of the announced bitfields have piece `i`.
pub open spec fn count_having(bitfields: Seq<(Seq<char>, Seq<u8>)>, i: int) -> nat
    decreases bitfields.len(),
{
    if bitfields.len() == 0 {
        0
    } else {
        count_having(bitfields.drop_last(), i) + if has_piece_spec(bitfields.last().1, i) {
            1nat
        } else {
            0nat
        }
    }
}

/// The identifiers of the blocks of a piece that have arrived, in order.
pub open spec fn have_ids(blocks: Seq<Block>) -> Seq<u64>
    decreases blocks.len(),
{
    if blocks.len() == 0 {
        Seq::empty()
    } else {
        let rest = have_ids(blocks.drop_last());
        match blocks.last() {
            Block::Have(id) => rest.push(id),
            _ => rest,
        }
    }
}

pub open spec fn all_have(blocks: Seq<Block>) -> bool {
    forall|b: int| 0 <= b < blocks.len() ==> #[trigger] blocks[b] is Have
}

/// `b` is the first needed block.
pub open spec fn first_needed_at(blocks: Seq<Block>, b: int) -> bool {
    &&& 0 <= b < blocks.len()
    &&& blocks[b] is Needed
    &&& forall|k: int| 0 <= k < b ==> !(#[trigger] blocks[k] is Needed)
}

pub open spec fn first_needed(blocks: Seq<Block>) -> Option<int> {
    if exists|b: int| first_needed_at(blocks, b) {
        Some(choose|b: int| first_needed_at(blocks, b))
    } else {
        None
    }
}

/// How many of these blocks there are, and how many are needed, requested
/// and had.
pub open spec fn block_counts(blocks: Seq<Block>) -> (nat, nat, nat, nat)
    decreases blocks.len(),
{
    if blocks.len() == 0 {
        (0, 0, 0, 0)
    } else {
        let (t, n, r, h) = block_counts(blocks.drop_last());
        match blocks.last() {
            Block::Needed => (t + 1, n + 1, r, h),
            Block::Requested(_) => (t + 1, n, r + 1, h),
            Block::Have(_) => (t + 1, n, r, h + 1),
        }
    }
}

/// The block counts summed over the unfinished pieces, and the number of
/// complete pieces.
pub open spec fn piece_counts(pieces: Seq<Piece>) -> (nat, nat, nat, nat, nat)
    decreases pieces.len(),
{
    if pieces.len() == 0 {
        (0, 0, 0, 0, 0)
    } else {
        let (t, n, r, h, c) = piece_counts(pieces.drop_last());
        let p = pieces.last();
        if p.is_complete {
            (t, n, r, h, c + 1)
        } else {
            let (bt, bn, br, bh) = block_counts(p.blocks);
            (t + bt, n + bn, r + br, h + bh, c)
        }
    }
}

/// The requested blocks of piece `piece`, in order: the piece, the block and
/// the peer it was asked of.
pub open spec fn requested_in(blocks: Seq<Block>, piece: int) -> Seq<(int, int, Seq<char>)>
    decreases blocks.len(),
{
    if blocks.len() == 0 {
        Seq::empty()
    } else {
        let rest = requested_in(blocks.drop_last(), piece);
        match blocks.last() {
            Block::Requested(id) => rest.push((piece, blocks.len() - 1, id)),
            _ => rest,
        }
    }
}

/// The requested blocks of the unfinished pieces, in order.
pub open spec fn requested_blocks(pieces: Seq<Piece>) -> Seq<(int, int, Seq<char>)>
    decreases pieces.len(),
{
    if pieces.len() == 0 {
        Seq::empty()
    } else {
        let rest = requested_blocks(pieces.drop_last());
        let p = pieces.last();
        if p.is_complete {
            rest
        } else {
            rest + requested_in(p.blocks, pieces.len() - 1)
        }
    }
}

proof fn lemma_block_counts_bound(blocks: Seq<Block>)
    ensures
        block_counts(blocks).0 == blocks.len(),
        block_counts(blocks).1 <= blocks.len(),
        block_counts(blocks).2 <= blocks.len(),
        block_counts(blocks).3 <= blocks.len(),
    decreases blocks.len(),
{
    if blocks.len() > 0 {
        lemma_block_counts_bound(blocks.drop_last());
    }
}

/// What the piece manager shows of its blocks for debugging.
pub struct BlockSummary {
    /// Blocks of the unfinished pieces.
    pub total_blocks: u64,
    pub needed_blocks: u64,
    pub requested_blocks: u64,
    pub have_blocks: u64,
    pub complete_pieces: u64,
    /// Each requested block: its piece, its position and the peer asked.
    pub requested: Vec<(usize, usize, String)>,
}

impl PieceManagerState {
    pub open spec fn well_formed(self) -> bool {
        &&& self.pieces.len() == self.piece_hashes.len()
        &&& self.pieces.len() <= u32::MAX
        &&& num_blocks(self.piece_length) <= MAX_BLOCKS_PER_PIECE
        &&& forall|i: int|
            0 <= i < self.pieces.len() ==> (#[trigger] self.pieces[i]).blocks.len() == num_blocks(
                self.piece_length,
            )
        &&& forall|i: int, j: int|
            0 <= i < j < self.bitfields.len() ==> (#[trigger] self.bitfields[i]).0 != (
            #[trigger] self.bitfields[j]).0
    }

    /// Whether a message can be taken: a bitfield adds one to no piece count
    /// that is at its maximum, and a stored block names a piece and, for an
    /// unfinished piece, one of its blocks.
    pub open spec fn takes_message(self, message: PieceManagerMessage) -> bool {
        match message {
            PieceManagerMessage::PeerHasBitfield { bitfield, .. } => forall|i: int|
                0 <= i < self.pieces.len() && has_piece_spec(bitfield.bits@, i)
                    ==> self.pieces[i].availability < usize::MAX,
            PieceManagerMessage::BlockStored { piece_index, block_begin, .. } => {
                &&& (piece_index as int) < self.pieces.len()
                &&& !self.pieces[piece_index as int].is_complete ==> block_begin / BLOCK_SIZE
                    < self.pieces[piece_index as int].blocks.len()
            },
            _ => true,
        }
    }

    /// Piece `i` is unfinished, the peer has it, and one of its blocks was
    /// asked of the peer already.
    pub open spec fn continues(self, id: Seq<char>, bits: Seq<u8>, i: int) -> bool {
        &&& 0 <= i < self.pieces.len()
        &&& !self.pieces[i].is_complete
        &&& exists|b: int|
            0 <= b < self.pieces[i].blocks.len() && self.pieces[i].blocks[b] == Block::Requested(
                id,
            )
        &&& has_piece_spec(bits, i)
    }

    pub open spec fn first_continued(self, id: Seq<char>, bits: Seq<u8>, i: int) -> bool {
        &&& self.continues(id, bits, i)
        &&& forall|j: int| 0 <= j < i ==> !self.continues(id, bits, j)
    }

    /// Piece `i` is unfinished and the peer has it.
    pub open spec fn candidate(self, bits: Seq<u8>, i: int) -> bool {
        &&& 0 <= i < self.pieces.len()
        &&& !self.pieces[i].is_complete
        &&& has_piece_spec(bits, i)
    }

    /// Piece `i` is the first of the candidates that the fewest peers have.
    pub open spec fn rarest(self, bits: Seq<u8>, i: int) -> bool {
        &&& self.candidate(bits, i)
        &&& forall|j: int|
            self.candidate(bits, j) ==> self.pieces[i].availability <= self.pieces[j].availability
        &&& forall|j: int|
            0 <= j < i && self.candidate(bits, j) ==> self.pieces[j].availability
                > self.pieces[i].availability
    }

    pub open spec fn continued_piece(self, id: Seq<char>, bits: Seq<u8>) -> Option<int> {
        if exists|i: int| self.first_continued(id, bits, i) {
            Some(choose|i: int| self.first_continued(id, bits, i))
        } else {
            None
        }
    }

    pub open spec fn rarest_piece(self, bits: Seq<u8>) -> Option<int> {
        if exists|i: int| self.rarest(bits, i) {
            Some(choose|i: int| self.rarest(bits, i))
        } else {
            None
        }
    }

    /// The block that a peer with bitfield `bits` should fetch next: the first
    /// needed block of the first unfinished piece in which the peer already
    /// fetches blocks; failing that, the first needed block of the rarest
    /// unfinished piece the peer has; failing that, none.
    pub open spec fn selection(self, id: Seq<char>, bits: Seq<u8>) -> Option<(int, int)> {
        let c = self.continued_piece(id, bits);
        let r = self.rarest_piece(bits);
        if c is Some && first_needed(self.pieces[c->0].blocks) is Some {
            Some((c->0, first_needed(self.pieces[c->0].blocks)->0))
        } else if r is Some && first_needed(self.pieces[r->0].blocks) is Some {
            Some((r->0, first_needed(self.pieces[r->0].blocks)->0))
        } else {
            None
        }
    }

    /// Block `b` of piece `i` set to `s`.
    pub open spec fn with_block(self, i: int, b: int, s: Block) -> PieceManagerState {
        PieceManagerState {
            pieces: self.pieces.update(
                i,
                Piece { blocks: self.pieces[i].blocks.update(b, s), ..self.pieces[i] },
            ),
            ..self
        }
    }

    /// Whether block `b` of piece `i` arriving from `id` is taken: the piece
    /// is unfinished and the block was asked of that very peer.
    pub open spec fn accepts_block(self, id: Seq<char>, i: int, b: int) -> bool {
        !self.pieces[i].is_complete && self.pieces[i].blocks[b] == Block::Requested(id)
    }

    /// The state after block `b` of piece `i` arrives from `id` and is kept
    /// under `block_id`; a block that was not asked of that peer is ignored.
    pub open spec fn after_block_stored(self, id: Seq<char>, i: int, b: int, block_id: u64) -> PieceManagerState {
        if self.accepts_block(id, i, b) {
            self.with_block(i, b, Block::Have(block_id))
        } else {
            self
        }
    }

    /// Piece `i` marked as complete.
    pub open spec fn completed(self, i: int) -> PieceManagerState {
        PieceManagerState {
            pieces: self.pieces.update(i, Piece { is_complete: true, ..self.pieces[i] }),
            ..self
        }
    }

    /// Every block of piece `i` needed again.
    pub open spec fn reset_piece(self, i: int) -> PieceManagerState {
        PieceManagerState {
            pieces: self.pieces.update(
                i,
                Piece {
                    blocks: Seq::new(self.pieces[i].blocks.len(), |j: int| Block::Needed),
                    ..self.pieces[i]
                },
            ),
            ..self
        }
    }

    /// The state after a peer announces its bitfield: each piece it has is
    /// known to one more peer, and its bitfield replaces any earlier one.
    pub open spec fn after_bitfield(self, id: Seq<char>, bits: Seq<u8>) -> PieceManagerState {
        PieceManagerState {
            pieces: Seq::new(
                self.pieces.len(),
                |i: int|
                    Piece {
                        availability: self.pieces[i].availability + if has_piece_spec(bits, i) {
                            1nat
                        } else {
                            0nat
                        },
                        ..self.pieces[i]
                    },
            ),
            bitfields: match peer_slot(self.bitfields, id) {
                Some(j) => self.bitfields.update(j, (id, bits)),
                None => self.bitfields.push((id, bits)),
            },
            ..self
        }
    }

    /// The state after a peer goes away or chokes us: its bitfield is
    /// forgotten, every block asked of it is needed again, and each piece's
    /// availability is recounted from the remaining bitfields.
    pub open spec fn after_disconnect(self, id: Seq<char>) -> PieceManagerState {
        let bitfields = match peer_slot(self.bitfields, id) {
            Some(j) => self.bitfields.remove(j),
            None => self.bitfields,
        };
        PieceManagerState {
            pieces: Seq::new(
                self.pieces.len(),
                |i: int|
                    Piece {
                        availability: count_having(bitfields, i),
                        blocks: self.pieces[i].blocks.map_values(
                            |b: Block|
                                if b == Block::Requested(id) {
                                    Block::Needed
                                } else {
                                    b
                                },
                        ),
                        is_complete: self.pieces[i].is_complete,
                    },
            ),
            bitfields,
            ..self
        }
    }
}

proof fn lemma_first_continued_unique(
    s: PieceManagerState,
    id: Seq<char>,
    bits: Seq<u8>,
    i: int,
    j: int,
)
    requires
        s.first_continued(id, bits, i),
        s.first_continued(id, bits, j),
    ensures
        i == j,
{
}

proof fn lemma_rarest_unique(s: PieceManagerState, bits: Seq<u8>, i: int, j: int)
    requires
        s.rarest(bits, i),
        s.rarest(bits, j),
    ensures
        i == j,
{
}

proof fn lemma_first_needed_unique(blocks: Seq<Block>, a: int, b: int)
    requires
        first_needed_at(blocks, a),
        first_needed_at(blocks, b),
    ensures
        a == b,
{
    if a < b {
        assert(!(blocks[a] is Needed));
    } else if b < a {
        assert(!(blocks[b] is Needed));
    }
}

/// After a peer goes away or chokes us, no block is still asked of it, no
/// bitfield of it is kept, and the state stays well formed.
pub proof fn law_disconnect_forgets_peer(s: PieceManagerState, id: Seq<char>)
    requires
        s.well_formed(),
    ensures
        ({
            let t = s.after_disconnect(id);
            &&& t.well_formed()
            &&& forall|i: int, b: int|
                0 <= i < t.pieces.len() && 0 <= b < t.pieces[i].blocks.len() ==> t.pieces[i].blocks[b]
                    != Block::Requested(id)
            &&& forall|k: int| 0 <= k < t.bitfields.len() ==> t.bitfields[k].0 != id
        }),
{
    let t = s.after_disconnect(id);
    match peer_slot(s.bitfields, id) {
        Some(j) => {
            let c = choose|c: int| 0 <= c < s.bitfields.len() && s.bitfields[c].0 == id;
            assert(t.bitfields == s.bitfields.remove(j));
            assert forall|k: int| 0 <= k < t.bitfields.len() implies t.bitfields[k].0 != id by {
                if k < j {
                    assert(t.bitfields[k] == s.bitfields[k]);
                } else {
                    assert(t.bitfields[k] == s.bitfields[k + 1]);
                }
            }
            assert forall|a: int, b: int|
                0 <= a < b < t.bitfields.len() implies (#[trigger] t.bitfields[a]).0 != (
                #[trigger] t.bitfields[b]).0 by {
                let a2 = if a < j {
                    a
                } else {
                    a + 1
                };
                let b2 = if b < j {
                    b
                } else {
                    b + 1
                };
                assert(t.bitfields[a] == s.bitfields[a2]);
                assert(t.bitfields[b] == s.bitfields[b2]);
            }
        },
        None => {},
    }
}

/// The block chosen for a peer is a needed block of an unfinished piece that
/// the peer has, and once chosen it is asked of that peer.
pub proof fn law_selection_is_needed_block_peer_has(
    s: PieceManagerState,
    id: Seq<char>,
    bits: Seq<u8>,
)
    requires
        s.well_formed(),
    ensures
        s.selection(id, bits) matches Some((i, b)) ==> {
            &&& s.candidate(bits, i)
            &&& 0 <= b < s.pieces[i].blocks.len()
            &&& s.pieces[i].blocks[b] is Needed
            &&& s.with_block(i, b, Block::Requested(id)).pieces[i].blocks[b] == Block::Requested(id)
            &&& s.with_block(i, b, Block::Requested(id)).well_formed()
        },
{
    let c = s.continued_piece(id, bits);
    let r = s.rarest_piece(bits);
    if c is Some {
        let k = choose|k: int| s.first_continued(id, bits, k);
        assert(s.first_continued(id, bits, k));
    }
    if r is Some {
        let k = choose|k: int| s.rarest(bits, k);
        assert(s.rarest(bits, k));
    }
    if let Some((i, b)) = s.selection(id, bits) {
        let blocks = s.pieces[i].blocks;
        let fb = choose|fb: int| first_needed_at(blocks, fb);
        assert(first_needed_at(blocks, fb));
        let t = s.with_block(i, b, Block::Requested(id));
        assert(t.pieces[i].blocks.len() == blocks.len());
        assert forall|k: int| 0 <= k < t.pieces.len() implies (#[trigger] t.pieces[k]).blocks.len()
            == num_blocks(t.piece_length) by {
            if k != i {
                assert(t.pieces[k] == s.pieces[k]);
            }
        }
    }
}

/// A block chosen for a peer becomes needed again if that peer then goes
/// away before delivering it.
pub proof fn law_disconnect_releases_selected_block(
    s: PieceManagerState,
    id: Seq<char>,
    bits: Seq<u8>,
)
    requires
        s.well_formed(),
    ensures
        s.selection(id, bits) matches Some((i, b)) ==> s.with_block(
            i,
            b,
            Block::Requested(id),
        ).after_disconnect(id).pieces[i].blocks[b] == Block::Needed,
{
    law_selection_is_needed_block_peer_has(s, id, bits);
    if let Some((i, b)) = s.selection(id, bits) {
        let t = s.with_block(i, b, Block::Requested(id));
        assert(t.pieces[i].blocks[b] == Block::Requested(id));
    }
}

/// A peer keeps working on what it started: when piece `i` is the first
/// unfinished piece that the peer has and that holds a block asked of that
/// peer, and block `b` is the first needed block of piece `i`, the peer is
/// given block `b` of piece `i`, however rare other pieces are.
pub proof fn law_selection_continues_piece_in_progress(
    s: PieceManagerState,
    id: Seq<char>,
    bits: Seq<u8>,
    i: int,
    asked: int,
    b: int,
)
    requires
        s.well_formed(),
        0 <= i < s.pieces.len(),
        !s.pieces[i].is_complete,
        has_piece_spec(bits, i),
        0 <= asked < s.pieces[i].blocks.len(),
        s.pieces[i].blocks[asked] == Block::Requested(id),
        forall|j: int, c: int|
            0 <= j < i && !s.pieces[j].is_complete && has_piece_spec(bits, j) && 0 <= c
                < s.pieces[j].blocks.len() ==> #[trigger] s.pieces[j].blocks[c] != Block::Requested(
                id,
            ),
        0 <= b < s.pieces[i].blocks.len(),
        s.pieces[i].blocks[b] is Needed,
        forall|c: int| 0 <= c < b ==> !(#[trigger] s.pieces[i].blocks[c] is Needed),
    ensures
        s.selection(id, bits) == Some((i, b)),
{
    assert(s.continues(id, bits, i));
    assert forall|j: int| 0 <= j < i implies !s.continues(id, bits, j) by {
        if s.continues(id, bits, j) {
            let c = choose|c: int|
                0 <= c < s.pieces[j].blocks.len() && s.pieces[j].blocks[c] == Block::Requested(id);
            assert(s.pieces[j].blocks[c] != Block::Requested(id));
        }
    }
    assert(s.first_continued(id, bits, i));
    let k = choose|k: int| s.first_continued(id, bits, k);
    lemma_first_continued_unique(s, id, bits, k, i);
    assert(s.continued_piece(id, bits) == Some(i));
    let blocks = s.pieces[i].blocks;
    assert(first_needed_at(blocks, b));
    let fb = choose|fb: int| first_needed_at(blocks, fb);
    lemma_first_needed_unique(blocks, fb, b);
    assert(first_needed(blocks) == Some(b));
}

/// With no piece in progress with the peer, the peer starts the rarest
/// unfinished piece it has (the first of them when several are equally
/// rare), at its first needed block.
pub proof fn law_selection_starts_rarest_piece(
    s: PieceManagerState,
    id: Seq<char>,
    bits: Seq<u8>,
    i: int,
    b: int,
)
    requires
        s.well_formed(),
        forall|j: int, c: int|
            0 <= j < s.pieces.len() && !s.pieces[j].is_complete && has_piece_spec(bits, j) && 0
                <= c < s.pieces[j].blocks.len() ==> #[trigger] s.pieces[j].blocks[c]
                != Block::Requested(id),
        0 <= i < s.pieces.len(),
        !s.pieces[i].is_complete,
        has_piece_spec(bits, i),
        forall|j: int|
            0 <= j < s.pieces.len() && !s.pieces[j].is_complete && has_piece_spec(bits, j)
                ==> s.pieces[i].availability <= #[trigger] s.pieces[j].availability,
        forall|j: int|
            0 <= j < i && !s.pieces[j].is_complete && has_piece_spec(bits, j) ==> s.pieces[i].availability
                < #[trigger] s.pieces[j].availability,
        0 <= b < s.pieces[i].blocks.len(),
        s.pieces[i].blocks[b] is Needed,
        forall|c: int| 0 <= c < b ==> !(#[trigger] s.pieces[i].blocks[c] is Needed),
    ensures
        s.selection(id, bits) == Some((i, b)),
{
    assert forall|j: int| !s.first_continued(id, bits, j) by {
        if s.continues(id, bits, j) {
            let c = choose|c: int|
                0 <= c < s.pieces[j].blocks.len() && s.pieces[j].blocks[c] == Block::Requested(id);
            assert(s.pieces[j].blocks[c] != Block::Requested(id));
        }
    }
    assert(s.continued_piece(id, bits) is None);
    assert(s.rarest(bits, i));
    let k = choose|k: int| s.rarest(bits, k);
    lemma_rarest_unique(s, bits, k, i);
    assert(s.rarest_piece(bits) == Some(i));
    let blocks = s.pieces[i].blocks;
    assert(first_needed_at(blocks, b));
    let fb = choose|fb: int| first_needed_at(blocks, fb);
    lemma_first_needed_unique(blocks, fb, b);
    assert(first_needed(blocks) == Some(b));
}

/// A piece is sent to verification after a block arrives exactly when, with
/// that block stored, no block of the piece is still needed or requested.
pub proof fn law_verify_only_when_every_block_arrived(
    s: PieceManagerState,
    id: Seq<char>,
    i: int,
    b: int,
    block_id: u64,
)
    requires
        s.well_formed(),
        0 <= i < s.pieces.len(),
        0 <= b < s.pieces[i].blocks.len(),
    ensures
        all_have(s.after_block_stored(id, i, b, block_id).pieces[i].blocks) <==> forall|c: int|
            0 <= c < s.pieces[i].blocks.len() ==> !(#[trigger] s.after_block_stored(
                id,
                i,
                b,
                block_id,
            ).pieces[i].blocks[c] is Needed) && !(s.after_block_stored(
                id,
                i,
                b,
                block_id,
            ).pieces[i].blocks[c] is Requested),
{
    let t = s.after_block_stored(id, i, b, block_id);
    assert(t.pieces[i].blocks.len() == s.pieces[i].blocks.len());
    if forall|c: int|
        0 <= c < s.pieces[i].blocks.len() ==> !(#[trigger] t.pieces[i].blocks[c] is Needed) && !(
        t.pieces[i].blocks[c] is Requested) {
        assert forall|c: int| 0 <= c < t.pieces[i].blocks.len() implies #[trigger] t.pieces[i].blocks[c] is Have by {
            assert(!(t.pieces[i].blocks[c] is Needed));
        }
    }
}

/// Every piece's count of peers having it is the number of kept bitfields
/// that have it.
pub open spec fn counts_match(s: PieceManagerState) -> bool {
    forall|i: int|
        0 <= i < s.pieces.len() ==> #[trigger] s.pieces[i].availability == count_having(
            s.bitfields,
            i,
        )
}

/// A bitfield from a peer that has none kept yet is kept for that peer, and
/// each count rises by one exactly where the bitfield has the piece, so the
/// counts keep matching the kept bitfields. (A second bitfield from the same
/// peer is counted again while it replaces the first, so the counts can then
/// exceed the peers; the rarest-first choice works on the counts as kept.)
pub proof fn law_bitfield_counts_availability(s: PieceManagerState, id: Seq<char>, bits: Seq<u8>)
    requires
        s.well_formed(),
        counts_match(s),
        peer_slot(s.bitfields, id) is None,
    ensures
        s.after_bitfield(id, bits).bitfields == s.bitfields.push((id, bits)),
        forall|i: int|
            0 <= i < s.pieces.len() ==> #[trigger] s.after_bitfield(id, bits).pieces[i].availability
                == s.pieces[i].availability + if has_piece_spec(bits, i) {
                1nat
            } else {
                0nat
            },
        counts_match(s.after_bitfield(id, bits)),
{
    let t = s.after_bitfield(id, bits);
    assert(t.bitfields.drop_last() =~= s.bitfields);
    assert forall|i: int| 0 <= i < t.pieces.len() implies #[trigger] t.pieces[i].availability
        == count_having(t.bitfields, i) by {
        assert(s.pieces[i].availability == count_having(s.bitfields, i));
    }
}

/// After a peer goes away or chokes us, every count is recomputed from the
/// bitfields that remain.
pub proof fn law_disconnect_recounts_availability(s: PieceManagerState, id: Seq<char>)
    ensures
        counts_match(s.after_disconnect(id)),
{
}

/// A new piece manager has no bitfields and no counts, which match.
pub proof fn law_fresh_counts_match(piece_hashes: Seq<Seq<u8>>, piece_length: u32)
    ensures
        counts_match(
            PieceManagerState {
                pieces: Seq::new(piece_hashes.len(), |i: int| fresh_piece(piece_length)),
                bitfields: Seq::empty(),
                piece_hashes,
                piece_length,
            },
        ),
{
}

/// What the piece manager asks of its caller after a message.
#[derive(Debug)]
pub enum PieceStep {
    /// Nothing to do.
    Nothing,
    /// Send this event to the torrent manager.
    Emit(PieceManagerEvent),
    /// Every block of this piece has arrived: assemble it and verify it.
    VerifyPiece(u32),
}

fn fresh_piece_state(num_blocks: usize) -> (r: PieceState)
    ensures
        r@.availability == 0,
        r@.blocks == Seq::new(num_blocks as nat, |j: int| Block::Needed),
        !r@.is_complete,
{
    let mut blocks: Vec<BlockState> = Vec::new();
    let mut j: usize = 0;
    while j < num_blocks
        invariant
            j <= num_blocks,
            blocks@.len() == j,
            forall|k: int| 0 <= k < j ==> #[trigger] blocks@[k] == BlockState::Needed,
        decreases num_blocks - j,
    {
        blocks.push(BlockState::Needed);
        j = j + 1;
    }
    let r = PieceState { availability: 0, blocks, is_complete: false };
    assert(r@.blocks =~= Seq::new(num_blocks as nat, |j: int| Block::Needed));
    r
}

impl PieceManager {
    /// A piece manager for pieces with these digests, each of `piece_length`
    /// bytes, with every block needed and no peer known. Pieces are indexed
    /// by `u32` in every message, so there may be at most `u32::MAX` of them.
    pub fn new(piece_hashes: Vec<[u8; 20]>, piece_length: u32) -> (r: Self)
        requires
            num_blocks(piece_length) <= MAX_BLOCKS_PER_PIECE,
            piece_hashes@.len() <= u32::MAX,
        ensures
            r@.well_formed(),
            r@.pieces == Seq::new(piece_hashes@.len(), |i: int| fresh_piece(piece_length)),
            r@.bitfields == Seq::<(Seq<char>, Seq<u8>)>::empty(),
            r@.piece_hashes == piece_hashes@.map_values(|h: [u8; 20]| h@),
            r@.piece_length == piece_length,
    {
        let num_pieces = piece_hashes.len();
        let nb = ((piece_length as u64 + 16383) / 16384) as usize;
        let mut pieces: Vec<PieceState> = Vec::new();
        let mut i: usize = 0;
        while i < num_pieces
            invariant
                i <= num_pieces,
                nb == num_blocks(piece_length),
                pieces@.len() == i,
                forall|k: int| 0 <= k < i ==> #[trigger] pieces@[k]@ == fresh_piece(piece_length),
            decreases num_pieces - i,
        {
            let p = fresh_piece_state(nb);
            assert(p@ == fresh_piece(piece_length));
            pieces.push(p);
            i = i + 1;
        }
        let r = PieceManager { pieces, peer_bitfields: Vec::new(), piece_hashes, piece_length };
        assert(r@.pieces =~= Seq::new(num_pieces as nat, |i: int| fresh_piece(piece_length)));
        assert(r@.bitfields =~= Seq::<(Seq<char>, Seq<u8>)>::empty());
        r
    }

    /// The position of `peer_id` among the peers with a bitfield.
    fn find_peer(&self, peer_id: &String) -> (r: Option<usize>)
        requires
            self@.well_formed(),
        ensures
            match r {
                Some(j) => j < self@.bitfields.len() && peer_slot(self@.bitfields, peer_id@) == Some(
                    j as int,
                ),
                None => peer_slot(self@.bitfields, peer_id@) is None,
            },
    {
        let ghost bf = self@.bitfields;
        let mut j: usize = 0;
        while j < self.peer_bitfields.len()
            invariant
                j <= self.peer_bitfields@.len(),
                self@.well_formed(),
                bf == self@.bitfields,
                bf.len() == self.peer_bitfields@.len(),
                forall|k: int| 0 <= k < j ==> bf[k].0 != peer_id@,
            decreases self.peer_bitfields.len() - j,
        {
            assert(bf[j as int].0 == self.peer_bitfields@[j as int].0@);
            if self.peer_bitfields[j].0 == *peer_id {
                proof {
                    let c = choose|c: int| 0 <= c < bf.len() && bf[c].0 == peer_id@;
                    assert(c == j) by {
                        if c < j {
                        } else if c > j {
                            assert(bf[j as int].0 != bf[c].0);
                        }
                    }
                }
                return Some(j);
            }
            j = j + 1;
        }
        None
    }

    /// Whether a block of piece `i` was asked of `peer_id`.
    fn requested_from(&self, i: usize, peer_id: &String) -> (r: bool)
        requires
            i < self@.pieces.len(),
        ensures
            r == exists|b: int|
                0 <= b < self@.pieces[i as int].blocks.len() && self@.pieces[i as int].blocks[b]
                    == Block::Requested(peer_id@),
    {
        let ghost blocks = self@.pieces[i as int].blocks;
        let nb = self.pieces[i].blocks.len();
        let mut b: usize = 0;
        while b < nb
            invariant
                i < self.pieces@.len(),
                b <= nb,
                nb == self.pieces@[i as int].blocks@.len(),
                blocks == self@.pieces[i as int].blocks,
                forall|c: int| 0 <= c < b ==> blocks[c] != Block::Requested(peer_id@),
            decreases nb - b,
        {
            assert(blocks[b as int] == self.pieces@[i as int].blocks@[b as int]@);
            let hit = match &self.pieces[i].blocks[b] {
                BlockState::Requested { peer_id: requester } => *requester == *peer_id,
                _ => false,
            };
            if hit {
                return true;
            }
            b = b + 1;
        }
        false
    }

    /// The first needed block of piece `i`.
    fn first_needed_block(&self, i: usize) -> (r: Option<usize>)
        requires
            i < self@.pieces.len(),
        ensures
            match r {
                Some(b) => first_needed(self@.pieces[i as int].blocks) == Some(b as int),
                None => first_needed(self@.pieces[i as int].blocks) is None,
            },
    {
        let ghost blocks = self@.pieces[i as int].blocks;
        let nb = self.pieces[i].blocks.len();
        let mut b: usize = 0;
        while b < nb
            invariant
                i < self.pieces@.len(),
                b <= nb,
                nb == self.pieces@[i as int].blocks@.len(),
                blocks == self@.pieces[i as int].blocks,
                forall|c: int| 0 <= c < b ==> !(#[trigger] blocks[c] is Needed),
            decreases nb - b,
        {
            assert(blocks[b as int] == self.pieces@[i as int].blocks@[b as int]@);
            let needed = match &self.pieces[i].blocks[b] {
                BlockState::Needed => true,
                _ => false,
            };
            if needed {
                proof {
                    assert(first_needed_at(blocks, b as int));
                    let c = choose|c: int| first_needed_at(blocks, c);
                    lemma_first_needed_unique(blocks, c, b as int);
                }
                return Some(b);
            }
            b = b + 1;
        }
        None
    }

    /// Sets block `b` of piece `i`.
    fn set_block(&mut self, i: usize, b: usize, st: BlockState)
        requires
            old(self)@.well_formed(),
            i < old(self)@.pieces.len(),
            b < old(self)@.pieces[i as int].blocks.len(),
        ensures
            final(self)@ == old(self)@.with_block(i as int, b as int, st@),
            final(self)@.well_formed(),
    {
        let ghost old_view = self@;
        let ghost before = self.pieces@;
        let ghost target = old_view.with_block(i as int, b as int, st@);
        assert(self.pieces@[i as int]@ == old_view.pieces[i as int]);
        self.pieces[i].blocks[b] = st;
        assert(self.pieces@[i as int]@.blocks =~= target.pieces[i as int].blocks);
        assert(self.pieces@[i as int]@ =~= target.pieces[i as int]);
        assert(forall|k: int| 0 <= k < before.len() && k != i ==> self.pieces@[k] == before[k]);
        assert(self@.pieces =~= target.pieces);
        assert(self@ =~= target);
    }

    /// Picks the block that a peer should download next and marks it as asked
    /// of that peer (see `PieceManagerState::selection`).
    fn select_block_for_peer(&mut self, peer_id: &String, peer_bitfield: &Bitfield) -> (r: Option<
        (u32, u32),
    >)
        requires
            old(self)@.well_formed(),
        ensures
            final(self)@.well_formed(),
            match old(self)@.selection(peer_id@, peer_bitfield.bits@) {
                Some((i, b)) => r == Some((i as u32, b as u32)) && final(self)@ == old(
                    self,
                )@.with_block(i, b, Block::Requested(peer_id@)),
                None => r is None && final(self)@ == old(self)@,
            },
    {
        let ghost s = self@;
        let ghost id = peer_id@;
        let ghost bits = peer_bitfield.bits@;
        let n = self.pieces.len();
        // First, a piece that is already in progress with this peer.
        let mut continued: Option<usize> = None;
        let mut i: usize = 0;
        while i < n && continued.is_none()
            invariant
                i <= n,
                n == s.pieces.len(),
                n <= u32::MAX,
                s == self@,
                s.well_formed(),
                id == peer_id@,
                bits == peer_bitfield.bits@,
                continued is None ==> forall|j: int| 0 <= j < i ==> !s.continues(id, bits, j),
                continued matches Some(k) ==> k < n && s.first_continued(id, bits, k as int),
            decreases n - i + if continued is None {
                1int
            } else {
                0int
            },
        {
            assert(self.pieces@[i as int]@ == s.pieces[i as int]);
            if !self.pieces[i].is_complete && self.requested_from(i, peer_id)
                && peer_bitfield.has_piece(i as u32) {
                continued = Some(i);
            } else {
                i = i + 1;
            }
        }
        match continued {
            Some(k) => {
                proof {
                    let c = choose|c: int| s.first_continued(id, bits, c);
                    lemma_first_continued_unique(s, id, bits, c, k as int);
                    assert(s.continued_piece(id, bits) == Some(k as int));
                }
                match self.first_needed_block(k) {
                    Some(b) => {
                        self.set_block(k, b, BlockState::Requested { peer_id: peer_id.clone() });
                        return Some((k as u32, b as u32));
                    },
                    None => {},
                }
            },
            None => {
                assert(s.continued_piece(id, bits) is None);
            },
        }
        // Otherwise the rarest unfinished piece that the peer has.
        let mut best: Option<usize> = None;
        let mut i: usize = 0;
        while i < n
            invariant
                i <= n,
                n == s.pieces.len(),
                n <= u32::MAX,
                s == self@,
                s.well_formed(),
                bits == peer_bitfield.bits@,
                best is None ==> forall|j: int| 0 <= j < i ==> !s.candidate(bits, j),
                best matches Some(k) ==> {
                    &&& k < i
                    &&& s.candidate(bits, k as int)
                    &&& forall|j: int|
                        0 <= j < i && s.candidate(bits, j) ==> s.pieces[k as int].availability
                            <= s.pieces[j].availability
                    &&& forall|j: int|
                        0 <= j < k && s.candidate(bits, j) ==> s.pieces[j].availability
                            > s.pieces[k as int].availability
                },
            decreases n - i,
        {
            assert(self.pieces@[i as int]@ == s.pieces[i as int]);
            if !self.pieces[i].is_complete && peer_bitfield.has_piece(i as u32) {
                match best {
                    Some(k) => {
                        assert(self.pieces@[k as int]@ == s.pieces[k as int]);
                        if self.pieces[i].availability < self.pieces[k].availability {
                            best = Some(i);
                        }
                    },
                    None => {
                        best = Some(i);
                    },
                }
            }
            i = i + 1;
        }
        match best {
            Some(k) => {
                proof {
                    assert(s.rarest(bits, k as int));
                    let c = choose|c: int| s.rarest(bits, c);
                    lemma_rarest_unique(s, bits, c, k as int);
                    assert(s.rarest_piece(bits) == Some(k as int));
                }
                match self.first_needed_block(k) {
                    Some(b) => {
                        self.set_block(k, b, BlockState::Requested { peer_id: peer_id.clone() });
                        Some((k as u32, b as u32))
                    },
                    None => None,
                }
            },
            None => {
                assert(s.rarest_piece(bits) is None);
                None
            },
        }
    }

    /// Whether every block of piece `i` has arrived.
    fn all_blocks_have(&self, i: usize) -> (r: bool)
        requires
            i < self@.pieces.len(),
        ensures
            r == all_have(self@.pieces[i as int].blocks),
    {
        let ghost blocks = self@.pieces[i as int].blocks;
        let nb = self.pieces[i].blocks.len();
        let mut b: usize = 0;
        while b < nb
            invariant
                i < self.pieces@.len(),
                b <= nb,
                nb == self.pieces@[i as int].blocks@.len(),
                blocks == self@.pieces[i as int].blocks,
                forall|c: int| 0 <= c < b ==> #[trigger] blocks[c] is Have,
            decreases nb - b,
        {
            assert(blocks[b as int] == self.pieces@[i as int].blocks@[b as int]@);
            let have = match &self.pieces[i].blocks[b] {
                BlockState::Have(_) => true,
                _ => false,
            };
            if !have {
                return false;
            }
            b = b + 1;
        }
        true
    }

    /// The identifiers of the blocks of piece `piece_index` that have
    /// arrived, in order: what to fetch to assemble the piece.
    pub fn block_ids(&self, piece_index: u32) -> (r: Vec<BlockId>)
        requires
            (piece_index as int) < self@.pieces.len(),
        ensures
            r@ == have_ids(self@.pieces[piece_index as int].blocks),
    {
        let i = piece_index as usize;
        let ghost blocks = self@.pieces[i as int].blocks;
        let nb = self.pieces[i].blocks.len();
        let mut ids: Vec<BlockId> = Vec::new();
        let mut b: usize = 0;
        while b < nb
            invariant
                i < self.pieces@.len(),
                b <= nb,
                nb == self.pieces@[i as int].blocks@.len(),
                blocks == self@.pieces[i as int].blocks,
                blocks.len() == nb,
                ids@ == have_ids(blocks.take(b as int)),
            decreases nb - b,
        {
            assert(blocks[b as int] == self.pieces@[i as int].blocks@[b as int]@);
            assert(blocks.take(b + 1).drop_last() =~= blocks.take(b as int));
            assert(blocks.take(b + 1).last() == blocks[b as int]);
            match &self.pieces[i].blocks[b] {
                BlockState::Have(id) => {
                    ids.push(*id);
                },
                _ => {},
            }
            b = b + 1;
        }
        assert(blocks.take(nb as int) =~= blocks);
        ids
    }

    /// Settles piece `piece_index` given the digest of its assembled data: a
    /// piece whose expected digest it is becomes complete and is announced
    /// with the blocks it is made of; any other has all its blocks needed
    /// again.
    pub fn settle_piece(&mut self, piece_index: u32, digest: &[u8; 20]) -> (r: Option<
        PieceManagerEvent,
    >)
        requires
            old(self)@.well_formed(),
            (piece_index as int) < old(self)@.pieces.len(),
        ensures
            final(self)@.well_formed(),
            digest@ == old(self)@.piece_hashes[piece_index as int] ==> {
                &&& final(self)@ == old(self)@.completed(piece_index as int)
                &&& r matches Some(PieceManagerEvent::PieceVerified { piece_index: p, block_ids })
                &&& p == piece_index
                &&& block_ids@ == have_ids(old(self)@.pieces[piece_index as int].blocks)
            },
            digest@ != old(self)@.piece_hashes[piece_index as int] ==> {
                &&& final(self)@ == old(self)@.reset_piece(piece_index as int)
                &&& r is None
            },
    {
        let ghost old_view = self@;
        let i = piece_index as usize;
        assert(self.piece_hashes@[i as int]@ == old_view.piece_hashes[i as int]);
        let ghost before = self.pieces@;
        assert(self.pieces@[i as int]@ == old_view.pieces[i as int]);
        if same_digest(digest, &self.piece_hashes[i]) {
            let block_ids = self.block_ids(piece_index);
            self.pieces[i].is_complete = true;
            let ghost target = old_view.completed(i as int);
            assert(self.pieces@[i as int]@ =~= target.pieces[i as int]);
            assert(forall|k: int| 0 <= k < before.len() && k != i ==> self.pieces@[k] == before[k]);
            assert(self@.pieces =~= target.pieces);
            assert(self@ =~= target);
            Some(PieceManagerEvent::PieceVerified { piece_index, block_ids })
        } else {
            let nb = self.pieces[i].blocks.len();
            let mut b: usize = 0;
            while b < nb
                invariant
                    i < self.pieces@.len(),
                    b <= nb,
                    nb == self.pieces@[i as int].blocks@.len(),
                    self.pieces@.len() == before.len(),
                    self@.bitfields == old_view.bitfields,
                    self@.piece_hashes == old_view.piece_hashes,
                    self@.piece_length == old_view.piece_length,
                    self.pieces@[i as int].availability == before[i as int].availability,
                    self.pieces@[i as int].is_complete == before[i as int].is_complete,
                    forall|c: int| 0 <= c < b ==> #[trigger] self.pieces@[i as int].blocks@[c] == BlockState::Needed,
                    forall|k: int| 0 <= k < before.len() && k != i ==> #[trigger] self.pieces@[k] == before[k],
                decreases nb - b,
            {
                self.pieces[i].blocks[b] = BlockState::Needed;
                b = b + 1;
            }
            let ghost target = old_view.reset_piece(i as int);
            assert(self.pieces@[i as int]@.blocks =~= target.pieces[i as int].blocks);
            assert(self.pieces@[i as int]@ =~= target.pieces[i as int]);
            assert(self@.pieces =~= target.pieces);
            assert(self@ =~= target);
            None
        }
    }

    /// Checks an assembled piece against its digest, through SHA-1, and
    /// settles it (see `settle_piece`).
    pub fn verify_and_complete_piece(&mut self, piece_index: u32, assembled_piece: &[u8]) -> (r:
        Option<PieceManagerEvent>)
        requires
            old(self)@.well_formed(),
            (piece_index as int) < old(self)@.pieces.len(),
        ensures
            final(self)@.well_formed(),
            sha1_spec(assembled_piece@) == old(self)@.piece_hashes[piece_index as int] ==> {
                &&& final(self)@ == old(self)@.completed(piece_index as int)
                &&& r matches Some(PieceManagerEvent::PieceVerified { piece_index: p, block_ids })
                &&& p == piece_index
                &&& block_ids@ == have_ids(old(self)@.pieces[piece_index as int].blocks)
            },
            sha1_spec(assembled_piece@) != old(self)@.piece_hashes[piece_index as int] ==> {
                &&& final(self)@ == old(self)@.reset_piece(piece_index as int)
                &&& r is None
            },
    {
        let digest = sha1_digest(assembled_piece);
        self.settle_piece(piece_index, &digest)
    }

    /// The number of pieces.
    pub fn num_pieces(&self) -> (r: usize)
        ensures
            r == self@.pieces.len(),
    {
        self.pieces.len()
    }

    /// Whether `handle_message` can take `message` (see
    /// `PieceManagerState::takes_message`).
    pub fn can_handle(&self, message: &PieceManagerMessage) -> (r: bool)
        requires
            self@.well_formed(),
        ensures
            r == self@.takes_message(*message),
    {
        match message {
            PieceManagerMessage::PeerHasBitfield { bitfield, .. } => {
                let n = self.pieces.len();
                let mut i: usize = 0;
                while i < n
                    invariant
                        i <= n,
                        n == self@.pieces.len(),
                        n <= u32::MAX,
                        *message matches PieceManagerMessage::PeerHasBitfield { bitfield: bf, .. }
                            && bf == *bitfield,
                        forall|k: int|
                            0 <= k < i && has_piece_spec(bitfield.bits@, k)
                                ==> self@.pieces[k].availability < usize::MAX,
                    decreases n - i,
                {
                    assert(self@.pieces[i as int] == self.pieces@[i as int]@);
                    if bitfield.has_piece(i as u32) && self.pieces[i].availability == usize::MAX {
                        assert(has_piece_spec(bitfield.bits@, i as int));
                        assert(!(self@.pieces[i as int].availability < usize::MAX));
                        return false;
                    }
                    i = i + 1;
                }
                true
            },
            PieceManagerMessage::BlockStored { piece_index, block_begin, .. } => {
                let i = *piece_index as usize;
                if i >= self.pieces.len() {
                    return false;
                }
                assert(self@.pieces[i as int] == self.pieces@[i as int]@);
                self.pieces[i].is_complete || ((*block_begin / BLOCK_SIZE) as usize)
                    < self.pieces[i].blocks.len()
            },
            _ => true,
        }
    }

    /// Acts on one message. A bitfield is counted and kept; a stored block is
    /// taken if it was asked of that peer, and once a piece has all its
    /// blocks the caller is asked to verify it; a request for work selects
    /// the peer's next block; a choke or a disconnection forgets the peer.
    pub fn handle_message(&mut self, message: PieceManagerMessage) -> (r: PieceStep)
        requires
            old(self)@.well_formed(),
            old(self)@.takes_message(message),
        ensures
            final(self)@.well_formed(),
            match message {
                PieceManagerMessage::PeerHasBitfield { peer_id, bitfield } => {
                    &&& final(self)@ == old(self)@.after_bitfield(peer_id@, bitfield.bits@)
                    &&& r is Nothing
                },
                PieceManagerMessage::BlockStored { peer_id, piece_index, block_begin, block_id } => {
                    let i = piece_index as int;
                    let b = (block_begin / BLOCK_SIZE) as int;
                    let fb = final(self)@.pieces[i].blocks;
                    &&& final(self)@ == old(self)@.after_block_stored(peer_id@, i, b, block_id)
                    &&& if old(self)@.accepts_block(peer_id@, i, b) && all_have(
                        final(self)@.pieces[i].blocks,
                    ) {
                        r == PieceStep::VerifyPiece(piece_index)
                    } else {
                        r is Nothing
                    }
                    &&& r is VerifyPiece ==> forall|c: int|
                        0 <= c < fb.len() ==> #[trigger] fb[c] is Have
                    &&& (old(self)@.accepts_block(peer_id@, i, b) && forall|c: int|
                        0 <= c < fb.len() ==> #[trigger] fb[c] is Have) ==> r
                        == PieceStep::VerifyPiece(piece_index)
                },
                PieceManagerMessage::FindPieceToDownload { peer_id } => match peer_slot(
                    old(self)@.bitfields,
                    peer_id@,
                ) {
                    None => final(self)@ == old(self)@ && r is Nothing,
                    Some(j) => match old(self)@.selection(peer_id@, old(self)@.bitfields[j].1) {
                        None => final(self)@ == old(self)@ && r is Nothing,
                        Some((i, b)) => {
                            &&& final(self)@ == old(self)@.with_block(
                                i,
                                b,
                                Block::Requested(peer_id@),
                            )
                            &&& r == PieceStep::Emit(
                                PieceManagerEvent::BlockSelected {
                                    peer_id,
                                    piece_index: i as u32,
                                    block_begin: (b * BLOCK_SIZE) as u32,
                                    block_length: block_length_at(
                                        old(self)@.piece_length,
                                        b * BLOCK_SIZE,
                                    ),
                                },
                            )
                        },
                    },
                },
                PieceManagerMessage::PeerChoked { peer_id } => {
                    &&& final(self)@ == old(self)@.after_disconnect(peer_id@)
                    &&& r is Nothing
                },
                PieceManagerMessage::PeerDisconnected { peer_id } => {
                    &&& final(self)@ == old(self)@.after_disconnect(peer_id@)
                    &&& r is Nothing
                },
            },
    {
        match message {
            PieceManagerMessage::PeerHasBitfield { peer_id, bitfield } => {
                self.add_peer_bitfield(peer_id, bitfield);
                PieceStep::Nothing
            },
            PieceManagerMessage::BlockStored { peer_id, piece_index, block_begin, block_id } => {
                let ghost old_view = self@;
                let block_index = (block_begin / BLOCK_SIZE) as usize;
                let i = piece_index as usize;
                assert(self.pieces@[i as int]@ == old_view.pieces[i as int]);
                if !self.pieces[i].is_complete {
                    assert(self.pieces@[i as int].blocks@[block_index as int]@
                        == old_view.pieces[i as int].blocks[block_index as int]);
                    let accept = match &self.pieces[i].blocks[block_index] {
                        BlockState::Requested { peer_id: requester } => *requester == peer_id,
                        _ => false,
                    };
                    if accept {
                        self.set_block(i, block_index, BlockState::Have(block_id));
                        if self.all_blocks_have(i) {
                            return PieceStep::VerifyPiece(piece_index);
                        }
                    }
                }
                PieceStep::Nothing
            },
            PieceManagerMessage::FindPieceToDownload { peer_id } => {
                let ghost old_view = self@;
                match self.find_peer(&peer_id) {
                    None => PieceStep::Nothing,
                    Some(j) => {
                        let bits = vstd::slice::slice_to_vec(self.peer_bitfields[j].1.bits.as_slice());
                        let bitfield = Bitfield { bits };
                        assert(bitfield.bits@ == old_view.bitfields[j as int].1);
                        match self.select_block_for_peer(&peer_id, &bitfield) {
                            Some((piece_index, block_index)) => {
                                let block_begin = block_index * BLOCK_SIZE;
                                let piece_size = self.piece_length;
                                let last_block_size = piece_size % BLOCK_SIZE;
                                let block_length = if block_begin + BLOCK_SIZE > piece_size
                                    && last_block_size > 0 {
                                    last_block_size
                                } else {
                                    BLOCK_SIZE
                                };
                                PieceStep::Emit(
                                    PieceManagerEvent::BlockSelected {
                                        peer_id,
                                        piece_index,
                                        block_begin,
                                        block_length,
                                    },
                                )
                            },
                            None => PieceStep::Nothing,
                        }
                    },
                }
            },
            PieceManagerMessage::PeerChoked { peer_id } => {
                self.handle_peer_disconnection(&peer_id);
                PieceStep::Nothing
            },
            PieceManagerMessage::PeerDisconnected { peer_id } => {
                self.handle_peer_disconnection(&peer_id);
                PieceStep::Nothing
            },
        }
    }

    /// Counts the peer that announced `bitfield` among those having each
    /// piece it has, and keeps its bitfield in place of any earlier one.
    fn add_peer_bitfield(&mut self, peer_id: String, bitfield: Bitfield)
        requires
            old(self)@.well_formed(),
            forall|i: int|
                0 <= i < old(self)@.pieces.len() && has_piece_spec(bitfield.bits@, i) ==> old(
                    self,
                )@.pieces[i].availability < usize::MAX,
        ensures
            final(self)@ == old(self)@.after_bitfield(peer_id@, bitfield.bits@),
            final(self)@.well_formed(),
    {
        let ghost old_view = self@;
        let ghost target = old_view.after_bitfield(peer_id@, bitfield.bits@);
        let n = self.pieces.len();
        let mut i: usize = 0;
        while i < n
            invariant
                i <= n,
                n == self.pieces@.len(),
                old_view.well_formed(),
                old_view.pieces.len() == n,
                self@.bitfields == old_view.bitfields,
                self@.piece_hashes == old_view.piece_hashes,
                self@.piece_length == old_view.piece_length,
                target == old_view.after_bitfield(peer_id@, bitfield.bits@),
                forall|k: int| 0 <= k < i ==> #[trigger] self.pieces@[k]@ == target.pieces[k],
                forall|k: int| i <= k < n ==> #[trigger] self.pieces@[k]@ == old_view.pieces[k],
                forall|k: int|
                    0 <= k < n && has_piece_spec(bitfield.bits@, k) ==> old_view.pieces[k].availability
                        < usize::MAX,
            decreases n - i,
        {
            let ghost before = self.pieces@;
            assert(self.pieces@[i as int]@ == old_view.pieces[i as int]);
            if bitfield.has_piece(i as u32) {
                self.pieces[i].availability = self.pieces[i].availability + 1;
            }
            assert(self.pieces@[i as int]@ =~= target.pieces[i as int]);
            assert(forall|k: int| 0 <= k < n && k != i ==> self.pieces@[k] == before[k]);
            i = i + 1;
        }
        assert(self@.pieces =~= target.pieces);
        let ghost old_pb = self.peer_bitfields@;
        let ghost entry = (peer_id@, bitfield.bits@);
        let ghost pid = peer_id@;
        match self.find_peer(&peer_id) {
            Some(j) => {
                assert(peer_slot(old_view.bitfields, pid) == Some(j as int));
                self.peer_bitfields[j] = (peer_id, bitfield);
                assert(self@.bitfields =~= old_view.bitfields.update(j as int, entry));
            },
            None => {
                assert(peer_slot(old_view.bitfields, pid) is None);
                self.peer_bitfields.push((peer_id, bitfield));
                assert(self@.bitfields =~= old_view.bitfields.push(entry));
            },
        }
        assert(self@.pieces =~= target.pieces);
        assert(self@.bitfields =~= target.bitfields);
        assert(self@ =~= target);
    }

    /// Forgets a peer that went away or choked us: its bitfield is dropped,
    /// the blocks asked of it are needed again, and the availability of every
    /// piece is recounted from the bitfields that remain.
    /// Counts the blocks of the unfinished pieces by state, counts the
    /// complete pieces, and lists the requested blocks.
    pub fn block_state_summary(&self) -> (r: BlockSummary)
        requires
            self@.well_formed(),
        ensures
            (r.total_blocks as nat, r.needed_blocks as nat, r.requested_blocks as nat, r.have_blocks
                as nat, r.complete_pieces as nat) == piece_counts(self@.pieces),
            r.requested@.map_values(|e: (usize, usize, String)| (e.0 as int, e.1 as int, e.2@))
                == requested_blocks(self@.pieces),
    {
        let ghost ps = self@.pieces;
        let mut total: u64 = 0;
        let mut needed: u64 = 0;
        let mut requested: u64 = 0;
        let mut have: u64 = 0;
        let mut complete: u64 = 0;
        let mut list: Vec<(usize, usize, String)> = Vec::new();
        let ghost lv = |e: (usize, usize, String)| (e.0 as int, e.1 as int, e.2@);
        let mut i: usize = 0;
        while i < self.pieces.len()
            invariant
                self@.well_formed(),
                ps == self@.pieces,
                ps.len() == self.pieces@.len(),
                i <= ps.len(),
                (total as nat, needed as nat, requested as nat, have as nat, complete as nat)
                    == piece_counts(ps.take(i as int)),
                total <= i * MAX_BLOCKS_PER_PIECE,
                needed <= total,
                requested <= total,
                have <= total,
                complete <= i,
                list@.map_values(lv) == requested_blocks(ps.take(i as int)),
                lv == (|e: (usize, usize, String)| (e.0 as int, e.1 as int, e.2@)),
            decreases ps.len() - i,
        {
            proof {
                assert(ps.take(i + 1).drop_last() =~= ps.take(i as int));
                assert(ps.take(i + 1).last() == ps[i as int]);
                assert(ps[i as int] == self.pieces@[i as int]@);
            }
            if self.pieces[i].is_complete {
                complete = complete + 1;
            } else {
                let ghost blocks = ps[i as int].blocks;
                let ghost t0 = total;
                let ghost n0 = needed;
                let ghost r0 = requested;
                let ghost h0 = have;
                let ghost l0 = list@.map_values(lv);
                let nb = self.pieces[i].blocks.len();
                let mut j: usize = 0;
                while j < nb
                    invariant
                        i < ps.len(),
                        ps.len() <= u32::MAX,
                        ps == self@.pieces,
                        ps.len() == self.pieces@.len(),
                        blocks == ps[i as int].blocks,
                        nb == blocks.len(),
                        nb <= MAX_BLOCKS_PER_PIECE,
                        j <= nb,
                        t0 <= i * MAX_BLOCKS_PER_PIECE,
                        n0 <= t0,
                        r0 <= t0,
                        h0 <= t0,
                        total == t0 + block_counts(blocks.take(j as int)).0,
                        needed == n0 + block_counts(blocks.take(j as int)).1,
                        requested == r0 + block_counts(blocks.take(j as int)).2,
                        have == h0 + block_counts(blocks.take(j as int)).3,
                        list@.map_values(lv) == l0 + requested_in(blocks.take(j as int), i as int),
                        lv == (|e: (usize, usize, String)| (e.0 as int, e.1 as int, e.2@)),
                    decreases nb - j,
                {
                    proof {
                        assert(blocks.take(j + 1).drop_last() =~= blocks.take(j as int));
                        assert(blocks.take(j + 1).last() == blocks[j as int]);
                        assert(blocks[j as int] == self.pieces@[i as int].blocks@[j as int]@);
                        lemma_block_counts_bound(blocks.take(j as int));
                    }
                    total = total + 1;
                    match &self.pieces[i].blocks[j] {
                        BlockState::Needed => {
                            needed = needed + 1;
                        },
                        BlockState::Requested { peer_id } => {
                            requested = requested + 1;
                            let ghost before = list@;
                            list.push((i, j, peer_id.clone()));
                            assert(list@.map_values(lv) =~= before.map_values(lv).push(
                                (i as int, j as int, peer_id@),
                            ));
                        },
                        BlockState::Have(_) => {
                            have = have + 1;
                        },
                    }
                    j = j + 1;
                }
                proof {
                    assert(blocks.take(nb as int) =~= blocks);
                    lemma_block_counts_bound(blocks);
                }
            }
            i = i + 1;
        }
        assert(ps.take(ps.len() as int) =~= ps);
        BlockSummary {
            total_blocks: total,
            needed_blocks: needed,
            requested_blocks: requested,
            have_blocks: have,
            complete_pieces: complete,
            requested: list,
        }
    }

    fn handle_peer_disconnection(&mut self, peer_id: &String)
        requires
            old(self)@.well_formed(),
        ensures
            final(self)@ == old(self)@.after_disconnect(peer_id@),
            final(self)@.well_formed(),
    {
        let ghost old_view = self@;
        let ghost target = old_view.after_disconnect(peer_id@);
        match self.find_peer(peer_id) {
            Some(j) => {
                assert(peer_slot(old_view.bitfields, peer_id@) == Some(j as int));
                self.peer_bitfields.remove(j);
                assert(self@.bitfields =~= old_view.bitfields.remove(j as int));
            },
            None => {
                assert(peer_slot(old_view.bitfields, peer_id@) is None);
            },
        }
        assert(self@.bitfields =~= target.bitfields);
        let n = self.pieces.len();
        let mut i: usize = 0;
        while i < n
            invariant
                i <= n,
                n <= u32::MAX,
                n == self.pieces@.len(),
                old_view.well_formed(),
                old_view.pieces.len() == n,
                self@.bitfields == target.bitfields,
                self@.piece_hashes == old_view.piece_hashes,
                self@.piece_length == old_view.piece_length,
                target == old_view.after_disconnect(peer_id@),
                forall|k: int| 0 <= k < i ==> #[trigger] self.pieces@[k]@ == target.pieces[k],
                forall|k: int| i <= k < n ==> #[trigger] self.pieces@[k]@ == old_view.pieces[k],
            decreases n - i,
        {
            let ghost before = self.pieces@;
            assert(self.pieces@[i as int]@ == old_view.pieces[i as int]);
            let nb = self.pieces[i].blocks.len();
            let mut b: usize = 0;
            while b < nb
                invariant
                    i < n,
                    n == self.pieces@.len(),
                    b <= nb,
                    nb == self.pieces@[i as int].blocks@.len(),
                    self@.bitfields == target.bitfields,
                    self@.piece_hashes == old_view.piece_hashes,
                    self@.piece_length == old_view.piece_length,
                    target == old_view.after_disconnect(peer_id@),
                    old_view.pieces.len() == n,
                    self.pieces@[i as int].availability == old_view.pieces[i as int].availability,
                    self.pieces@[i as int].is_complete == old_view.pieces[i as int].is_complete,
                    old_view.pieces[i as int].blocks.len() == nb,
                    target.pieces[i as int].blocks.len() == nb,
                    forall|c: int|
                        0 <= c < b ==> #[trigger] self.pieces@[i as int].blocks@[c]@
                            == target.pieces[i as int].blocks[c],
                    forall|c: int|
                        b <= c < nb ==> #[trigger] self.pieces@[i as int].blocks@[c]@
                            == old_view.pieces[i as int].blocks[c],
                    forall|k: int| 0 <= k < n && k != i ==> #[trigger] self.pieces@[k] == before[k],
                decreases nb - b,
            {
                assert(self.pieces@[i as int].blocks@[b as int]@ == old_view.pieces[i as int].blocks[b as int]);
                let reset = match &self.pieces[i].blocks[b] {
                    BlockState::Requested { peer_id: requester } => *requester == *peer_id,
                    _ => false,
                };
                if reset {
                    self.pieces[i].blocks[b] = BlockState::Needed;
                }
                assert(self.pieces@[i as int].blocks@[b as int]@ == target.pieces[i as int].blocks[b as int]);
                b = b + 1;
            }
            let mut count: usize = 0;
            let mut k: usize = 0;
            let ghost bf = self@.bitfields;
            while k < self.peer_bitfields.len()
                invariant
                    k <= self.peer_bitfields@.len(),
                    i < n,
                    n <= u32::MAX,
                    bf == self@.bitfields,
                    bf.len() == self.peer_bitfields@.len(),
                    count <= k,
                    count == count_having(bf.take(k as int), i as int),
                decreases self.peer_bitfields.len() - k,
            {
                assert(bf.take(k + 1).drop_last() =~= bf.take(k as int));
                assert(bf[k as int].1 == self.peer_bitfields@[k as int].1.bits@);
                assert(bf.take(k + 1).last() == bf[k as int]);
                if self.peer_bitfields[k].1.has_piece(i as u32) {
                    count = count + 1;
                }
                k = k + 1;
            }
            assert(bf.take(k as int) =~= bf);
            self.pieces[i].availability = count;
            assert(self.pieces@[i as int]@.blocks =~= target.pieces[i as int].blocks);
            assert(self.pieces@[i as int]@ =~= target.pieces[i as int]);
            i = i + 1;
        }
        assert(self@.pieces =~= target.pieces);
        assert(self@ =~= target);
    }
}

} // verus!
