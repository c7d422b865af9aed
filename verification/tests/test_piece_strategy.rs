use rtorrent::messages::{PieceManagerEvent, PieceManagerMessage};
use rtorrent::peer::Bitfield;
use rtorrent::piece_manager::{PieceManager, PieceStep};
use sha1::{Digest, Sha1};

fn digest(data: &[u8]) -> [u8; 20] {
    Sha1::digest(data).into()
}

fn find(pm: &mut PieceManager, peer: &str) -> Option<(String, u32, u32, u32)> {
    match pm.handle_message(PieceManagerMessage::FindPieceToDownload { peer_id: peer.to_string() }) {
        PieceStep::Emit(PieceManagerEvent::BlockSelected {
            peer_id,
            piece_index,
            block_begin,
            block_length,
        }) => Some((peer_id, piece_index, block_begin, block_length)),
        PieceStep::Nothing => None,
        other => panic!("unexpected {:?}", other),
    }
}

fn bitfield(pm: &mut PieceManager, peer: &str, bits: Vec<u8>) {
    let step = pm.handle_message(PieceManagerMessage::PeerHasBitfield {
        peer_id: peer.to_string(),
        bitfield: Bitfield { bits },
    });
    assert!(matches!(step, PieceStep::Nothing));
}

fn stored(pm: &mut PieceManager, peer: &str, piece: u32, begin: u32, id: u64) -> PieceStep {
    pm.handle_message(PieceManagerMessage::BlockStored {
        peer_id: peer.to_string(),
        piece_index: piece,
        block_begin: begin,
        block_id: id,
    })
}

#[test]
fn blocks_are_selected_stored_and_verified() {
    let data0 = vec![1u8; 20000];
    let data1 = vec![2u8; 20000];
    let mut pm = PieceManager::new(vec![digest(&data0), digest(&data1)], 20000);
    let s = pm.block_state_summary();
    assert_eq!((s.total_blocks, s.needed_blocks, s.complete_pieces), (4, 4, 0));

    assert_eq!(find(&mut pm, "a"), None);
    bitfield(&mut pm, "a", vec![0b1100_0000]);
    assert_eq!(find(&mut pm, "a"), Some(("a".to_string(), 0, 0, 16384)));
    assert_eq!(find(&mut pm, "a"), Some(("a".to_string(), 0, 16384, 3616)));
    // The piece in progress has no needed block left and is also the rarest.
    assert_eq!(find(&mut pm, "a"), None);

    assert!(matches!(stored(&mut pm, "a", 0, 0, 10), PieceStep::Nothing));
    // A block from a peer it was not asked of is ignored.
    assert!(matches!(stored(&mut pm, "b", 0, 16384, 11), PieceStep::Nothing));
    let s = pm.block_state_summary();
    assert_eq!((s.requested_blocks, s.have_blocks), (1, 1));
    assert_eq!(s.requested, vec![(0, 1, "a".to_string())]);

    assert!(matches!(stored(&mut pm, "a", 0, 16384, 11), PieceStep::VerifyPiece(0)));
    match pm.verify_and_complete_piece(0, &data0) {
        Some(PieceManagerEvent::PieceVerified { piece_index, block_ids }) => {
            assert_eq!(piece_index, 0);
            assert_eq!(block_ids, vec![10, 11]);
        }
        other => panic!("unexpected {:?}", other),
    }
    let s = pm.block_state_summary();
    assert_eq!((s.total_blocks, s.needed_blocks, s.complete_pieces), (2, 2, 0 + 1));

    assert_eq!(find(&mut pm, "a"), Some(("a".to_string(), 1, 0, 16384)));
    // A block of a complete piece is ignored.
    assert!(matches!(stored(&mut pm, "a", 0, 0, 12), PieceStep::Nothing));
}

#[test]
fn corrupt_piece_is_fetched_again() {
    let data = vec![5u8; 100];
    let mut pm = PieceManager::new(vec![digest(&data)], 100);
    bitfield(&mut pm, "a", vec![0b1000_0000]);
    assert_eq!(find(&mut pm, "a"), Some(("a".to_string(), 0, 0, 100)));
    assert!(matches!(stored(&mut pm, "a", 0, 0, 1), PieceStep::VerifyPiece(0)));
    assert!(pm.verify_and_complete_piece(0, &[6u8; 100]).is_none());
    let s = pm.block_state_summary();
    assert_eq!((s.total_blocks, s.needed_blocks, s.have_blocks, s.complete_pieces), (1, 1, 0, 0));
    assert_eq!(find(&mut pm, "a"), Some(("a".to_string(), 0, 0, 100)));
}

#[test]
fn rarest_piece_is_started_first() {
    let mut pm = PieceManager::new(vec![[0u8; 20], [1u8; 20], [2u8; 20]], 16384);
    bitfield(&mut pm, "a", vec![0b1110_0000]);
    bitfield(&mut pm, "b", vec![0b1010_0000]);
    // Piece 1 is had by one peer only; pieces 0 and 2 by two.
    assert_eq!(find(&mut pm, "a"), Some(("a".to_string(), 1, 0, 16384)));
    // Peer b lacks piece 1; of its pieces the first rarest is piece 0.
    assert_eq!(find(&mut pm, "b"), Some(("b".to_string(), 0, 0, 16384)));
    // Peer a's piece in progress, piece 1, has no needed block left, and it is
    // also the rarest piece that peer a has: nothing is selected.
    assert_eq!(find(&mut pm, "a"), None);
}

#[test]
fn disconnection_releases_blocks_and_forgets_the_peer() {
    let mut pm = PieceManager::new(vec![[0u8; 20]], 40000);
    bitfield(&mut pm, "a", vec![0b1000_0000]);
    bitfield(&mut pm, "b", vec![0b1000_0000]);
    assert_eq!(find(&mut pm, "a"), Some(("a".to_string(), 0, 0, 16384)));
    assert_eq!(find(&mut pm, "b"), Some(("b".to_string(), 0, 16384, 16384)));
    let step = pm.handle_message(PieceManagerMessage::PeerDisconnected { peer_id: "a".to_string() });
    assert!(matches!(step, PieceStep::Nothing));
    let s = pm.block_state_summary();
    assert_eq!((s.needed_blocks, s.requested_blocks), (2, 1));
    assert_eq!(s.requested, vec![(0, 1, "b".to_string())]);
    assert_eq!(find(&mut pm, "a"), None);
    assert_eq!(find(&mut pm, "b"), Some(("b".to_string(), 0, 0, 16384)));
    let step = pm.handle_message(PieceManagerMessage::PeerChoked { peer_id: "b".to_string() });
    assert!(matches!(step, PieceStep::Nothing));
    let s = pm.block_state_summary();
    assert_eq!((s.needed_blocks, s.requested_blocks), (3, 0));
}

#[test]
fn pieces_are_settled_by_their_digest() {
    let mut pm = PieceManager::new(vec![[9u8; 20], [8u8; 20]], 16384);
    bitfield(&mut pm, "a", vec![0b1100_0000]);
    assert_eq!(find(&mut pm, "a"), Some(("a".to_string(), 0, 0, 16384)));
    assert!(matches!(stored(&mut pm, "a", 0, 0, 3), PieceStep::VerifyPiece(0)));
    assert!(pm.settle_piece(0, &[8u8; 20]).is_none());
    assert_eq!(pm.block_state_summary().needed_blocks, 2);
    assert_eq!(find(&mut pm, "a"), Some(("a".to_string(), 0, 0, 16384)));
    assert!(matches!(stored(&mut pm, "a", 0, 0, 4), PieceStep::VerifyPiece(0)));
    match pm.settle_piece(0, &[9u8; 20]) {
        Some(PieceManagerEvent::PieceVerified { piece_index, block_ids }) => {
            assert_eq!((piece_index, block_ids), (0, vec![4]));
        }
        other => panic!("unexpected {:?}", other),
    }
    let s = pm.block_state_summary();
    assert_eq!((s.total_blocks, s.complete_pieces), (1, 1));
}
