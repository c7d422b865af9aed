use rtorrent::errors::{AppError, PeerError};
use rtorrent::messages::{ControlMessage, PeerEvent, PieceManagerMessage};
use rtorrent::peer::{
    build_handshake, build_message, decode_message, frame_start, validate_handshake, Bitfield,
    FrameStart, PeerMessage, SessionAction, SessionState,
};

#[test]
fn bitfield_reads_bits_from_the_high_end() {
    let b = Bitfield { bits: vec![0b1010_0000, 0b0000_0001] };
    assert!(b.has_piece(0));
    assert!(!b.has_piece(1));
    assert!(b.has_piece(2));
    assert!(b.has_piece(15));
    assert!(!b.has_piece(14));
    assert!(!b.has_piece(16));
    assert!(!b.has_piece(u32::MAX));
}

#[test]
fn set_piece_sets_one_bit_and_keeps_the_rest() {
    let mut b = Bitfield { bits: vec![0, 0] };
    b.set_piece(9);
    assert_eq!(b.bits, vec![0, 0b0100_0000]);
    assert!(b.has_piece(9));
    b.set_piece(0);
    assert_eq!(b.bits, vec![0b1000_0000, 0b0100_0000]);
    assert!(b.has_piece(9));
    b.set_piece(16);
    assert_eq!(b.bits, vec![0b1000_0000, 0b0100_0000]);
    assert!(!b.has_piece(16));
}

#[test]
fn handshake_layout() {
    let info_hash = [7u8; 20];
    let peer_id = *b"-BC0001-000000000000";
    let h = build_handshake(&info_hash, &peer_id);
    assert_eq!(h[0], 19);
    assert_eq!(&h[1..20], b"BitTorrent protocol");
    assert_eq!(&h[20..28], &[0u8; 8]);
    assert_eq!(&h[28..48], &info_hash);
    assert_eq!(&h[48..68], &peer_id);
}

#[test]
fn handshake_is_checked_against_the_info_hash() {
    let info_hash = [3u8; 20];
    let h = build_handshake(&info_hash, &[9u8; 20]);
    assert_eq!(validate_handshake(&h, &info_hash), Ok(()));
    assert_eq!(
        validate_handshake(&h, &[4u8; 20]),
        Err(AppError::Peer(PeerError::MismatchedInfoHash))
    );
}

#[test]
fn messages_are_framed() {
    assert_eq!(build_message(PeerMessage::KeepAlive), vec![0, 0, 0, 0]);
    assert_eq!(build_message(PeerMessage::Interested), vec![0, 0, 0, 1, 2]);
    assert_eq!(
        build_message(PeerMessage::Request { index: 1, begin: 16384, length: 16384 }),
        vec![0, 0, 0, 13, 6, 0, 0, 0, 1, 0, 0, 0x40, 0, 0, 0, 0x40, 0]
    );
    assert_eq!(
        build_message(PeerMessage::Have(0x01020304)),
        vec![0, 0, 0, 5, 4, 1, 2, 3, 4]
    );
    assert_eq!(build_message(PeerMessage::Choke), Vec::<u8>::new());
}

#[test]
fn frame_lengths() {
    assert_eq!(frame_start(0), Ok(FrameStart::KeepAlive));
    assert_eq!(frame_start(1), Ok(FrameStart::Message { payload_len: 0 }));
    assert_eq!(frame_start(1_000_000), Ok(FrameStart::Message { payload_len: 999_999 }));
    assert_eq!(
        frame_start(1_000_001),
        Err(AppError::Peer(PeerError::MessageReadFailed(
            "Message length 1000001 bytes is too large (max 1MB)".to_string()
        )))
    );
}

#[test]
fn messages_are_decoded() {
    assert_eq!(decode_message(0, vec![]), Ok(PeerMessage::Choke));
    assert_eq!(decode_message(1, vec![]), Ok(PeerMessage::Unchoke));
    assert_eq!(decode_message(2, vec![]), Ok(PeerMessage::Interested));
    assert_eq!(decode_message(3, vec![]), Ok(PeerMessage::NotInterested));
    assert_eq!(decode_message(4, vec![0, 0, 1, 2]), Ok(PeerMessage::Have(258)));
    assert_eq!(
        decode_message(5, vec![0xff, 0x80]),
        Ok(PeerMessage::Bitfield(Bitfield { bits: vec![0xff, 0x80] }))
    );
    assert_eq!(
        decode_message(7, vec![0, 0, 0, 2, 0, 0, 0x40, 0, 9, 8]),
        Ok(PeerMessage::Piece { index: 2, begin: 16384, block: vec![9, 8] })
    );
    assert_eq!(
        decode_message(7, vec![0, 0, 0]),
        Err(AppError::Peer(PeerError::InvalidMessageFormat))
    );
    assert_eq!(
        decode_message(6, vec![1]),
        Err(AppError::Peer(PeerError::UnknownMessageId(6)))
    );
    assert_eq!(
        decode_message(4, vec![]),
        Err(AppError::Peer(PeerError::UnknownMessageId(4)))
    );
    assert_eq!(
        decode_message(20, vec![1, 2]),
        Err(AppError::Peer(PeerError::UnknownMessageId(20)))
    );
}

#[test]
fn interested_peer_is_unchoked_once() {
    let mut st = SessionState::new();
    assert!(st.peer_is_choked);
    let first = st.handle_peer_message("p".to_string(), PeerMessage::Interested);
    assert_eq!(first.len(), 1);
    assert!(matches!(first[0], SessionAction::SendToPeer(PeerMessage::Unchoke)));
    assert!(st.peer_is_interested);
    assert!(!st.peer_is_choked);
    let second = st.handle_peer_message("p".to_string(), PeerMessage::Interested);
    assert!(second.is_empty());
}

#[test]
fn session_forwards_peer_messages() {
    let mut st = SessionState::new();
    let r = st.handle_peer_message("p".to_string(), PeerMessage::Unchoke);
    assert!(matches!(r[0], SessionAction::ToPeerManager(PeerEvent::Unchoked)));
    let r = st.handle_peer_message(
        "p".to_string(),
        PeerMessage::Bitfield(Bitfield { bits: vec![1] }),
    );
    match &r[0] {
        SessionAction::ToPieceManager(PieceManagerMessage::PeerHasBitfield { peer_id, bitfield }) => {
            assert_eq!(peer_id, "p");
            assert_eq!(bitfield.bits, vec![1]);
        }
        other => panic!("unexpected {:?}", other),
    }
    let r = st.handle_peer_message(
        "p".to_string(),
        PeerMessage::Request { index: 1, begin: 2, length: 3 },
    );
    assert!(matches!(
        r[0],
        SessionAction::ToPeerManager(PeerEvent::BlockRequested {
            piece_index: 1,
            block_begin: 2,
            block_length: 3
        })
    ));
    let r = st.handle_peer_message(
        "p".to_string(),
        PeerMessage::Piece { index: 4, begin: 0, block: vec![5, 6] },
    );
    match &r[0] {
        SessionAction::StoreBlock { piece_index, block_begin, block } => {
            assert_eq!((*piece_index, *block_begin), (4, 0));
            assert_eq!(block, &vec![5, 6]);
        }
        other => panic!("unexpected {:?}", other),
    }
    assert!(st.handle_peer_message("p".to_string(), PeerMessage::Choke).is_empty());
    assert_eq!(st, SessionState::new());
}

#[test]
fn stored_block_is_reported() {
    let r = SessionState::block_stored("p".to_string(), 3, 16384, 42, 16384);
    assert_eq!(r.len(), 3);
    match &r[0] {
        SessionAction::ToPieceManager(PieceManagerMessage::BlockStored {
            peer_id,
            piece_index,
            block_begin,
            block_id,
        }) => {
            assert_eq!(peer_id, "p");
            assert_eq!((*piece_index, *block_begin, *block_id), (3, 16384, 42));
        }
        other => panic!("unexpected {:?}", other),
    }
    assert!(matches!(r[1], SessionAction::ToPeerManager(PeerEvent::BlockDownloaded)));
    assert!(matches!(r[2], SessionAction::ToPeerManager(PeerEvent::BytesDownloaded(16384))));
}

#[test]
fn manager_commands_become_peer_messages() {
    let st = SessionState::new();
    let r = st.handle_manager_command(ControlMessage::RequestBlock {
        piece_index: 1,
        block_begin: 2,
        block_length: 3,
    });
    assert!(matches!(
        r[0],
        SessionAction::SendToPeer(PeerMessage::Request { index: 1, begin: 2, length: 3 })
    ));
    let r = st.handle_manager_command(ControlMessage::SendHave { piece_index: 9 });
    assert!(matches!(r[0], SessionAction::SendToPeer(PeerMessage::Have(9))));
    let r = st.handle_manager_command(ControlMessage::SendBlock {
        piece_index: 1,
        block_begin: 0,
        block_data: vec![1, 2, 3],
    });
    assert_eq!(r.len(), 2);
    assert!(matches!(r[1], SessionAction::ToPeerManager(PeerEvent::BytesUploaded(3))));
}

#[test]
fn framed_messages_read_back() {
    for message in [PeerMessage::KeepAlive, PeerMessage::Interested, PeerMessage::Have(70000)] {
        let bytes = build_message(message.clone());
        let prefix = u32::from_be_bytes([bytes[0], bytes[1], bytes[2], bytes[3]]);
        let read = match frame_start(prefix).unwrap() {
            FrameStart::KeepAlive => PeerMessage::KeepAlive,
            FrameStart::Message { payload_len } => {
                assert_eq!(bytes.len(), 5 + payload_len);
                decode_message(bytes[4], bytes[5..].to_vec()).unwrap()
            }
        };
        assert_eq!(read, message);
    }
}
