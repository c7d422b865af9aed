//! The peer wire protocol: messages, the bitfield of pieces a peer has, and
//! the handshake.
use vstd::prelude::*;

use crate::bytes_be::{
    be_bytes, be_value, lemma_be_bytes_len, lemma_be_value_of_bytes, pow256, push_be, read_be,
};
use crate::decimal::{decimal_digits, is_digit, lemma_decimal_digits, push_decimal};
use crate::errors::{AppError, PeerError};
use crate::messages::{BlockId, ControlMessage, PeerEvent, PieceManagerMessage};
use crate::text::{lemma_ascii_utf8, utf8_lossy};
use crate::utils::decimal_text;
use vstd::string::StringExecFns;

verus! {

/// A message of the peer wire protocol.
#[derive(Debug, Clone, PartialEq, Eq)]
pub enum PeerMessage {
    KeepAlive,
    Choke,
    Unchoke,
    Interested,
    NotInterested,
    Have(u32),
    Bitfield(Bitfield),
    Request { index: u32, begin: u32, length: u32 },
    Piece { index: u32, begin: u32, block: Vec<u8> },
    Cancel { index: u32, begin: u32, length: u32 },
}

/// Which pieces a peer has: bit `7 - i % 8` of byte `i / 8` stands for piece `i`.
#[derive(Debug, Clone, PartialEq, Eq)]
pub struct Bitfield {
    pub bits: Vec<u8>,
}

/// Whether bit `k` (counted from the least significant) of `byte` is set.
pub open spec fn bit_set(byte: u8, k: u32) -> bool {
    (byte >> k) & 1u8 != 0
}

/// Whether the bitfield `bits` marks piece `index` as present.
pub open spec fn has_piece_spec(bits: Seq<u8>, index: int) -> bool {
    0 <= index && index / 8 < bits.len() && bit_set(bits[index / 8], (7 - index % 8) as u32)
}

proof fn lemma_set_bit(x: u8, k: u32, m: u32)
    requires
        k < 8,
        m < 8,
    ensures
        bit_set(x | (1u8 << k), m) <==> (k == m || bit_set(x, m)),
{
    assert(((x | (1u8 << k)) >> m) & 1u8 != 0 <==> (k == m || (x >> m) & 1u8 != 0))
        by (bit_vector)
        requires
            k < 8,
            m < 8,
    ;
}

impl Bitfield {
    /// Whether the peer has piece `index`; pieces past the end are absent.
    pub fn has_piece(&self, index: u32) -> (r: bool)
        ensures
            r == has_piece_spec(self.bits@, index as int),
    {
        let byte_index = (index / 8) as usize;
        if byte_index >= self.bits.len() {
            return false;
        }
        let bit_index = 7 - (index % 8);
        (self.bits[byte_index] >> bit_index) & 1 != 0
    }

    /// Marks piece `index` as present; an index past the end changes nothing.
    /// Afterwards the bitfield has exactly the pieces it had, and `index`.
    pub fn set_piece(&mut self, index: u32)
        ensures
            final(self).bits@.len() == old(self).bits@.len(),
            forall|j: int|
                #![trigger has_piece_spec(final(self).bits@, j)]
                has_piece_spec(final(self).bits@, j) == ((j == index && index / 8 < old(
                    self,
                ).bits@.len()) || has_piece_spec(old(self).bits@, j)),
    {
        let byte_index = (index / 8) as usize;
        if byte_index < self.bits.len() {
            let bit_index = 7 - (index % 8);
            let ghost old_bits = self.bits@;
            self.bits[byte_index] = self.bits[byte_index] | (1u8 << bit_index);
            proof {
                assert forall|j: int| #![trigger has_piece_spec(self.bits@, j)]
                    has_piece_spec(self.bits@, j) == ((j == index && index / 8 < old_bits.len())
                        || has_piece_spec(old_bits, j)) by {
                    if 0 <= j && j / 8 == byte_index {
                        lemma_set_bit(old_bits[j / 8], bit_index, (7 - j % 8) as u32);
                    }
                }
            }
        }
    }
}


/// `BitTorrent protocol`, the protocol name that opens a handshake.
pub open spec fn protocol_string() -> Seq<u8> {
    seq![66u8, 105, 116, 84, 111, 114, 114, 101, 110, 116, 32, 112, 114, 111, 116, 111, 99, 111, 108]
}

/// The 68-byte handshake: the length of the protocol name, the name, eight
/// reserved zero bytes, the info hash and our peer id.
pub open spec fn handshake_spec(info_hash: Seq<u8>, peer_id: Seq<u8>) -> Seq<u8> {
    seq![19u8] + protocol_string() + Seq::new(8, |i: int| 0u8) + info_hash + peer_id
}

/// A handshake reply is accepted when it carries the expected info hash.
pub open spec fn handshake_accepted(response: Seq<u8>, info_hash: Seq<u8>) -> bool {
    response.subrange(28, 48) == info_hash
}

/// Builds the handshake (see `handshake_spec`).
pub fn build_handshake(info_hash: &[u8; 20], our_peer_id: &[u8; 20]) -> (r: [u8; 68])
    ensures
        r@ == handshake_spec(info_hash@, our_peer_id@),
{
    let protocol: [u8; 19] = [66u8, 105, 116, 84, 111, 114, 114, 101, 110, 116, 32, 112, 114, 111, 116, 111, 99, 111, 108];
    assert(protocol@ =~= protocol_string());
    let mut handshake: [u8; 68] = [0u8; 68];
    handshake[0] = 19;
    let mut i: usize = 0;
    while i < 19
        invariant
            i <= 19,
            handshake@[0] == 19,
            forall|j: int| 0 <= j < i ==> handshake@[1 + j] == protocol@[j],
            forall|j: int| 20 <= j < 68 ==> handshake@[j] == 0,
        decreases 19 - i,
    {
        handshake[1 + i] = protocol[i];
        i = i + 1;
    }
    let mut k: usize = 0;
    while k < 20
        invariant
            k <= 20,
            handshake@[0] == 19,
            forall|j: int| 0 <= j < 19 ==> handshake@[1 + j] == protocol@[j],
            forall|j: int| 20 <= j < 28 ==> handshake@[j] == 0,
            forall|j: int| 0 <= j < k ==> handshake@[28 + j] == info_hash@[j],
            forall|j: int| 0 <= j < k ==> handshake@[48 + j] == our_peer_id@[j],
        decreases 20 - k,
    {
        handshake[28 + k] = info_hash[k];
        handshake[48 + k] = our_peer_id[k];
        k = k + 1;
    }
    assert(handshake@ =~= handshake_spec(info_hash@, our_peer_id@));
    handshake
}

/// Accepts a handshake reply that carries the expected info hash.
pub fn validate_handshake(response: &[u8; 68], expected_info_hash: &[u8; 20]) -> (r: Result<
    (),
    AppError,
>)
    ensures
        handshake_accepted(response@, expected_info_hash@) ==> r is Ok,
        !handshake_accepted(response@, expected_info_hash@) ==> r == Err::<(), AppError>(
            AppError::Peer(PeerError::MismatchedInfoHash),
        ),
        r is Ok <==> forall|j: int| 0 <= j < 20 ==> response@[28 + j] == expected_info_hash@[j],
{
    let mut i: usize = 0;
    while i < 20
        invariant
            i <= 20,
            forall|j: int| 0 <= j < i ==> response@[28 + j] == expected_info_hash@[j],
        decreases 20 - i,
    {
        if response[28 + i] != expected_info_hash[i] {
            assert(response@.subrange(28, 48)[i as int] != expected_info_hash@[i as int]);
            return Err(AppError::Peer(PeerError::MismatchedInfoHash));
        }
        i = i + 1;
    }
    assert(response@.subrange(28, 48) =~= expected_info_hash@);
    Ok(())
}

/// A handshake reply is judged by its info hash (bytes 28 to 48) alone:
/// two replies that agree there are both accepted or both refused, whatever
/// their reserved bytes and peer ids hold, and a reply is accepted exactly
/// when those bytes are the expected info hash.
pub proof fn law_handshake_reply_judged_by_info_hash_only(
    r1: Seq<u8>,
    r2: Seq<u8>,
    info_hash: Seq<u8>,
)
    requires
        r1.len() == 68,
        r2.len() == 68,
        info_hash.len() == 20,
        forall|j: int| 28 <= j < 48 ==> r1[j] == r2[j],
    ensures
        handshake_accepted(r1, info_hash) == handshake_accepted(r2, info_hash),
        handshake_accepted(r1, info_hash) <==> forall|j: int|
            0 <= j < 20 ==> r1[28 + j] == info_hash[j],
{
    assert(r1.subrange(28, 48) =~= r2.subrange(28, 48));
    if forall|j: int| 0 <= j < 20 ==> r1[28 + j] == info_hash[j] {
        assert(r1.subrange(28, 48) =~= info_hash);
    }
    if handshake_accepted(r1, info_hash) {
        assert forall|j: int| 0 <= j < 20 implies r1[28 + j] == info_hash[j] by {
            assert(r1.subrange(28, 48)[j] == r1[28 + j]);
        }
    }
}

/// A handshake that we build is accepted by a peer expecting the same info
/// hash, and refused by one expecting another.
pub proof fn law_handshake_carries_info_hash(
    info_hash: Seq<u8>,
    peer_id: Seq<u8>,
    expected: Seq<u8>,
)
    requires
        info_hash.len() == 20,
        peer_id.len() == 20,
    ensures
        handshake_accepted(handshake_spec(info_hash, peer_id), expected) <==> expected
            == info_hash,
{
    assert(handshake_spec(info_hash, peer_id).subrange(28, 48) =~= info_hash);
}

/// The bytes that `build_message` writes for a message: a big-endian length,
/// the message id and the payload for keep-alive, interested, request and
/// have; every other message is written as nothing.
pub open spec fn message_bytes(m: PeerMessage) -> Seq<u8> {
    match m {
        PeerMessage::KeepAlive => seq![0u8, 0, 0, 0],
        PeerMessage::Interested => seq![0u8, 0, 0, 1, 2],
        PeerMessage::Request { index, begin, length } => be_bytes(13, 4) + seq![6u8] + be_bytes(
            index as nat,
            4,
        ) + be_bytes(begin as nat, 4) + be_bytes(length as nat, 4),
        PeerMessage::Have(piece_index) => be_bytes(5, 4) + seq![4u8] + be_bytes(
            piece_index as nat,
            4,
        ),
        _ => Seq::empty(),
    }
}

/// Writes a message for the wire (see `message_bytes`).
pub fn build_message(message: PeerMessage) -> (r: Vec<u8>)
    ensures
        r@ == message_bytes(message),
{
    match message {
        PeerMessage::KeepAlive => {
            let mut v: Vec<u8> = Vec::new();
            v.push(0);
            v.push(0);
            v.push(0);
            v.push(0);
            assert(v@ =~= seq![0u8, 0, 0, 0]);
            v
        },
        PeerMessage::Interested => {
            let mut v: Vec<u8> = Vec::new();
            v.push(0);
            v.push(0);
            v.push(0);
            v.push(1);
            v.push(2);
            assert(v@ =~= seq![0u8, 0, 0, 1, 2]);
            v
        },
        PeerMessage::Request { index, begin, length } => {
            let mut v: Vec<u8> = Vec::new();
            push_be(&mut v, 13, 4);
            v.push(6);
            push_be(&mut v, index as u64, 4);
            push_be(&mut v, begin as u64, 4);
            push_be(&mut v, length as u64, 4);
            assert(v@ =~= message_bytes(message));
            v
        },
        PeerMessage::Have(piece_index) => {
            let mut v: Vec<u8> = Vec::new();
            push_be(&mut v, 5, 4);
            v.push(4);
            push_be(&mut v, piece_index as u64, 4);
            assert(v@ =~= message_bytes(message));
            v
        },
        _ => Vec::new(),
    }
}

/// The largest message length that is read (1 MB).
/// What `build_message` frames for a keep-alive, an `interested` and a
/// `have` message, `frame_start` and `decode_message` read back: the length
/// prefix, the message id, and for `have` the piece index.
pub proof fn law_framed_messages_read_back(piece_index: u32)
    ensures
        message_bytes(PeerMessage::KeepAlive).len() == 4,
        be_value(message_bytes(PeerMessage::KeepAlive)) == 0,
        message_bytes(PeerMessage::Interested).len() == 5,
        be_value(message_bytes(PeerMessage::Interested).subrange(0, 4)) == 1,
        message_bytes(PeerMessage::Interested)[4] == 2,
        message_bytes(PeerMessage::Have(piece_index)).len() == 9,
        be_value(message_bytes(PeerMessage::Have(piece_index)).subrange(0, 4)) == 5,
        message_bytes(PeerMessage::Have(piece_index))[4] == 4,
        be_value(message_bytes(PeerMessage::Have(piece_index)).subrange(5, 9)) as u32
            == piece_index,
{
    assert(pow256(4) == 0x1_0000_0000) by {
        reveal_with_fuel(pow256, 5);
    }
    reveal_with_fuel(be_value, 5);
    let keep = message_bytes(PeerMessage::KeepAlive);
    assert(keep.drop_last() =~= seq![0u8, 0, 0]);
    assert(keep.drop_last().drop_last() =~= seq![0u8, 0]);
    assert(keep.drop_last().drop_last().drop_last() =~= seq![0u8]);
    let interested = message_bytes(PeerMessage::Interested).subrange(0, 4);
    assert(interested =~= seq![0u8, 0, 0, 1]);
    assert(interested.drop_last() =~= seq![0u8, 0, 0]);
    let have = message_bytes(PeerMessage::Have(piece_index));
    lemma_be_bytes_len(5, 4);
    lemma_be_bytes_len(piece_index as nat, 4);
    lemma_be_value_of_bytes(5, 4);
    lemma_be_value_of_bytes(piece_index as nat, 4);
    assert(have.subrange(0, 4) =~= be_bytes(5, 4));
    assert(have.subrange(5, 9) =~= be_bytes(piece_index as nat, 4));
}

pub const MAX_MESSAGE_LENGTH: u32 = 1_000_000;

/// What the length prefix of a message announces.
#[derive(Debug, Clone, Copy, PartialEq, Eq)]
pub enum FrameStart {
    /// A zero length: a keep-alive, with nothing more to read.
    KeepAlive,
    /// A message id follows, then a payload of this many bytes.
    Message { payload_len: usize },
}

/// `Message length <n> bytes is too large (max 1MB)`
pub open spec fn length_error_text(length: u32) -> Seq<char> {
    "Message length "@ + decimal_text(length as nat) + " bytes is too large (max 1MB)"@
}

/// Decides on the length prefix of a message: more than 1 MB is refused, a
/// zero length is a keep-alive, anything else announces an id and a payload
/// one byte shorter than the length.
pub fn frame_start(length_prefix: u32) -> (r: Result<FrameStart, AppError>)
    ensures
        length_prefix > MAX_MESSAGE_LENGTH ==> (r matches Err(
            AppError::Peer(PeerError::MessageReadFailed(m)),
        ) && m@ == length_error_text(length_prefix)),
        length_prefix == 0 ==> r == Ok::<FrameStart, AppError>(FrameStart::KeepAlive),
        0 < length_prefix <= MAX_MESSAGE_LENGTH ==> r == Ok::<FrameStart, AppError>(
            FrameStart::Message { payload_len: (length_prefix - 1) as usize },
        ),
{
    if length_prefix > MAX_MESSAGE_LENGTH {
        let mut digits: Vec<u8> = Vec::new();
        push_decimal(&mut digits, length_prefix as u64);
        proof {
            lemma_decimal_digits(length_prefix as nat);
            assert forall|i: int| 0 <= i < digits@.len() implies digits@[i] < 128 by {
                assert(is_digit(decimal_digits(length_prefix as nat)[i]));
            }
            lemma_ascii_utf8(digits@);
        }
        let mut text = "Message length ".to_owned();
        text.append(utf8_lossy(digits.as_slice()).as_str());
        text.append(" bytes is too large (max 1MB)");
        return Err(AppError::Peer(PeerError::MessageReadFailed(text)));
    }
    if length_prefix == 0 {
        return Ok(FrameStart::KeepAlive);
    }
    Ok(FrameStart::Message { payload_len: (length_prefix - 1) as usize })
}

/// Reads a message from its id and payload: choke, unchoke, interested and
/// not-interested whatever their payload; with a payload, have (a
/// big-endian piece index), bitfield and piece (index, offset, then the
/// block); any other id is unknown.
pub fn decode_message(message_id: u8, payload: Vec<u8>) -> (r: Result<PeerMessage, AppError>)
    requires
        message_id == 4 && payload@.len() > 0 ==> payload@.len() == 4,
    ensures
        message_id <= 3 ==> r == Ok::<PeerMessage, AppError>(
            match message_id {
                0 => PeerMessage::Choke,
                1 => PeerMessage::Unchoke,
                2 => PeerMessage::Interested,
                _ => PeerMessage::NotInterested,
            },
        ),
        message_id > 3 && payload@.len() == 0 ==> r == Err::<PeerMessage, AppError>(
            AppError::Peer(PeerError::UnknownMessageId(message_id)),
        ),
        message_id == 4 && payload@.len() > 0 ==> r == Ok::<PeerMessage, AppError>(
            PeerMessage::Have(be_value(payload@) as u32),
        ),
        message_id == 5 && payload@.len() > 0 ==> (r matches Ok(PeerMessage::Bitfield(b))
            && b.bits@ == payload@),
        message_id == 7 && 0 < payload@.len() < 8 ==> r == Err::<PeerMessage, AppError>(
            AppError::Peer(PeerError::InvalidMessageFormat),
        ),
        message_id == 7 && payload@.len() >= 8 ==> (r matches Ok(
            PeerMessage::Piece { index, begin, block },
        ) && index == be_value(payload@.subrange(0, 4)) && begin == be_value(
            payload@.subrange(4, 8),
        ) && block@ == payload@.skip(8)),
        (message_id == 6 || message_id > 7) && payload@.len() > 0 ==> r == Err::<
            PeerMessage,
            AppError,
        >(AppError::Peer(PeerError::UnknownMessageId(message_id))),
{
    assert(pow256(4) == 0x1_0000_0000) by {
        reveal_with_fuel(pow256, 5);
    }
    if message_id == 0 {
        return Ok(PeerMessage::Choke);
    } else if message_id == 1 {
        return Ok(PeerMessage::Unchoke);
    } else if message_id == 2 {
        return Ok(PeerMessage::Interested);
    } else if message_id == 3 {
        return Ok(PeerMessage::NotInterested);
    }
    if payload.len() == 0 {
        return Err(AppError::Peer(PeerError::UnknownMessageId(message_id)));
    }
    if message_id == 4 {
        let v = read_be(payload.as_slice(), 0, 4);
        assert(payload@.subrange(0, 4) =~= payload@);
        Ok(PeerMessage::Have(v as u32))
    } else if message_id == 5 {
        Ok(PeerMessage::Bitfield(Bitfield { bits: payload }))
    } else if message_id == 7 {
        if payload.len() < 8 {
            return Err(AppError::Peer(PeerError::InvalidMessageFormat));
        }
        let index = read_be(payload.as_slice(), 0, 4) as u32;
        let begin = read_be(payload.as_slice(), 4, 4) as u32;
        let block = vstd::slice::slice_to_vec(
            vstd::slice::slice_subrange(payload.as_slice(), 8, payload.len()),
        );
        assert(block@ =~= payload@.skip(8));
        Ok(PeerMessage::Piece { index, begin, block })
    } else {
        Err(AppError::Peer(PeerError::UnknownMessageId(message_id)))
    }
}


/// What a peer session has to do after a message or a command.
#[derive(Debug)]
pub enum SessionAction {
    /// Write this message to the peer.
    SendToPeer(PeerMessage),
    /// Tell the piece manager.
    ToPieceManager(PieceManagerMessage),
    /// Tell the peer manager, on behalf of this peer.
    ToPeerManager(PeerEvent),
    /// Keep this block in the block store, then report it with
    /// `SessionState::block_stored`.
    StoreBlock { piece_index: u32, block_begin: u32, block: Vec<u8> },
}

/// The choking and interest state of one peer session.
#[derive(Debug, Clone, Copy, PartialEq, Eq)]
pub struct SessionState {
    /// The peer is interested in us.
    pub peer_is_interested: bool,
    /// The peer does not choke us.
    pub we_are_unchoked: bool,
    /// We are interested in the peer.
    pub we_are_interested: bool,
    /// We choke the peer.
    pub peer_is_choked: bool,
}

impl SessionState {
    /// A session starts with every peer choked and no interest either way.
    pub fn new() -> (r: Self)
        ensures
            r == (SessionState {
                peer_is_interested: false,
                we_are_unchoked: false,
                we_are_interested: false,
                peer_is_choked: true,
            }),
    {
        SessionState {
            peer_is_interested: false,
            we_are_unchoked: false,
            we_are_interested: false,
            peer_is_choked: true,
        }
    }

    /// Acts on a message from the peer `peer_id`: a bitfield goes to the
    /// piece manager; an unchoke is reported; a block is to be stored; an
    /// interested peer is noted and, if we choke it, unchoked; a request is
    /// reported; anything else is ignored.
    pub fn handle_peer_message(&mut self, peer_id: String, message: PeerMessage) -> (r: Vec<
        SessionAction,
    >)
        ensures
            match message {
                PeerMessage::Bitfield(bitfield) => *final(self) == *old(self) && r@.len() == 1
                    && r@[0] == SessionAction::ToPieceManager(
                    PieceManagerMessage::PeerHasBitfield { peer_id, bitfield },
                ),
                PeerMessage::Unchoke => *final(self) == *old(self) && r@.len() == 1 && r@[0]
                    == SessionAction::ToPeerManager(PeerEvent::Unchoked),
                PeerMessage::Piece { index, begin, block } => *final(self) == *old(self)
                    && r@.len() == 1 && r@[0] == SessionAction::StoreBlock {
                    piece_index: index,
                    block_begin: begin,
                    block,
                },
                PeerMessage::Interested => {
                    &&& *final(self) == (SessionState {
                        peer_is_interested: true,
                        peer_is_choked: false,
                        ..*old(self)
                    })
                    &&& old(self).peer_is_choked ==> r@.len() == 1 && r@[0]
                        == SessionAction::SendToPeer(PeerMessage::Unchoke)
                    &&& !old(self).peer_is_choked ==> r@.len() == 0
                },
                PeerMessage::Request { index, begin, length } => *final(self) == *old(self)
                    && r@.len() == 1 && r@[0] == SessionAction::ToPeerManager(
                    PeerEvent::BlockRequested {
                        piece_index: index,
                        block_begin: begin,
                        block_length: length,
                    },
                ),
                _ => *final(self) == *old(self) && r@.len() == 0,
            },
    {
        let mut actions: Vec<SessionAction> = Vec::new();
        match message {
            PeerMessage::Bitfield(bitfield) => {
                actions.push(
                    SessionAction::ToPieceManager(
                        PieceManagerMessage::PeerHasBitfield { peer_id, bitfield },
                    ),
                );
            },
            PeerMessage::Unchoke => {
                actions.push(SessionAction::ToPeerManager(PeerEvent::Unchoked));
            },
            PeerMessage::Piece { index, begin, block } => {
                actions.push(
                    SessionAction::StoreBlock { piece_index: index, block_begin: begin, block },
                );
            },
            PeerMessage::Interested => {
                self.peer_is_interested = true;
                if self.peer_is_choked {
                    self.peer_is_choked = false;
                    actions.push(SessionAction::SendToPeer(PeerMessage::Unchoke));
                }
            },
            PeerMessage::Request { index, begin, length } => {
                actions.push(
                    SessionAction::ToPeerManager(
                        PeerEvent::BlockRequested {
                            piece_index: index,
                            block_begin: begin,
                            block_length: length,
                        },
                    ),
                );
            },
            _ => {},
        }
        actions
    }

    /// What to report once a block from `peer_id` is stored under
    /// `block_id`: the block to the piece manager, then that a block was
    /// downloaded and how many bytes it had.
    pub fn block_stored(
        peer_id: String,
        piece_index: u32,
        block_begin: u32,
        block_id: BlockId,
        block_len: usize,
    ) -> (r: Vec<SessionAction>)
        ensures
            r@.len() == 3,
            r@[0] == SessionAction::ToPieceManager(
                PieceManagerMessage::BlockStored { peer_id, piece_index, block_begin, block_id },
            ),
            r@[1] == SessionAction::ToPeerManager(PeerEvent::BlockDownloaded),
            r@[2] == SessionAction::ToPeerManager(PeerEvent::BytesDownloaded(block_len)),
    {
        let mut actions: Vec<SessionAction> = Vec::new();
        actions.push(
            SessionAction::ToPieceManager(
                PieceManagerMessage::BlockStored { peer_id, piece_index, block_begin, block_id },
            ),
        );
        actions.push(SessionAction::ToPeerManager(PeerEvent::BlockDownloaded));
        actions.push(SessionAction::ToPeerManager(PeerEvent::BytesDownloaded(block_len)));
        actions
    }

    /// Acts on a command from the torrent manager: ask the peer for a block,
    /// announce a piece we have, or send a block and report its size.
    pub fn handle_manager_command(&self, command: ControlMessage) -> (r: Vec<SessionAction>)
        ensures
            match command {
                ControlMessage::RequestBlock { piece_index, block_begin, block_length } => r@.len()
                    == 1 && r@[0] == SessionAction::SendToPeer(
                    PeerMessage::Request {
                        index: piece_index,
                        begin: block_begin,
                        length: block_length,
                    },
                ),
                ControlMessage::SendHave { piece_index } => r@.len() == 1 && r@[0]
                    == SessionAction::SendToPeer(PeerMessage::Have(piece_index)),
                ControlMessage::SendBlock { piece_index, block_begin, block_data } => {
                    &&& r@.len() == 2
                    &&& r@[0] == SessionAction::SendToPeer(
                        PeerMessage::Piece {
                            index: piece_index,
                            begin: block_begin,
                            block: block_data,
                        },
                    )
                    &&& r@[1] == SessionAction::ToPeerManager(
                        PeerEvent::BytesUploaded(block_data@.len() as usize),
                    )
                },
            },
    {
        let mut actions: Vec<SessionAction> = Vec::new();
        match command {
            ControlMessage::RequestBlock { piece_index, block_begin, block_length } => {
                actions.push(
                    SessionAction::SendToPeer(
                        PeerMessage::Request {
                            index: piece_index,
                            begin: block_begin,
                            length: block_length,
                        },
                    ),
                );
            },
            ControlMessage::SendHave { piece_index } => {
                actions.push(SessionAction::SendToPeer(PeerMessage::Have(piece_index)));
            },
            ControlMessage::SendBlock { piece_index, block_begin, block_data } => {
                let block_len = block_data.len();
                actions.push(
                    SessionAction::SendToPeer(
                        PeerMessage::Piece { index: piece_index, begin: block_begin, block: block_data },
                    ),
                );
                actions.push(SessionAction::ToPeerManager(PeerEvent::BytesUploaded(block_len)));
            },
        }
        actions
    }
}

} // verus!
