use rtorrent::disk::{block_offset, piece_offset};
use rtorrent::messages::{
    BroadcastMessage, ControlMessage, DiskEvent, DiskMessage, PeerEvent, PieceManagerEvent,
    PieceManagerMessage,
};
use rtorrent::peer::Bitfield;
use rtorrent::torrent::{
    master_bitfield_len, PeerState, TorrentAction, TorrentState, MAX_PIPELINED_REQUESTS,
    PEER_TIMEOUT_NANOS, RECONNECT_DELAY_NANOS,
};

const SEC: u64 = 1_000_000_000;

fn disconnected_ids(actions: &[TorrentAction]) -> Vec<String> {
    actions
        .iter()
        .map(|a| match a {
            TorrentAction::ToPieceManager(PieceManagerMessage::PeerDisconnected { peer_id }) => {
                peer_id.clone()
            }
            other => panic!("unexpected {:?}", other),
        })
        .collect()
}

#[test]
fn peers_start_choked() {
    assert_eq!(
        PeerState::default(),
        PeerState { is_choked: true, in_flight_requests: 0 }
    );
}

#[test]
fn bitfield_and_offsets() {
    assert_eq!(master_bitfield_len(0), 0);
    assert_eq!(master_bitfield_len(1), 1);
    assert_eq!(master_bitfield_len(8), 1);
    assert_eq!(master_bitfield_len(9), 2);
    assert_eq!(piece_offset(3, 16384), 49152);
    assert_eq!(block_offset(3, 16384, 100), 49252);
    assert_eq!(block_offset(u32::MAX, u32::MAX, 1), 18446744065119617026);
}

#[test]
fn unchoke_and_downloads_ask_for_blocks() {
    let mut t = TorrentState::new("f".to_string(), 4);
    let r = t.on_peer_event("p".to_string(), PeerEvent::Unchoked, 0);
    assert_eq!(r.len(), 1);
    assert!(matches!(
        &r[0],
        TorrentAction::ToPieceManager(PieceManagerMessage::FindPieceToDownload { peer_id }) if peer_id == "p"
    ));
    assert_eq!(t.peer_pool_status(), (1, 0));
    let r = t.on_peer_event("p".to_string(), PeerEvent::BlockDownloaded, 1);
    assert!(matches!(
        &r[0],
        TorrentAction::ToPieceManager(PieceManagerMessage::FindPieceToDownload { peer_id }) if peer_id == "p"
    ));
    let r = t.on_peer_event("p".to_string(), PeerEvent::Choked, 2);
    assert!(matches!(
        &r[0],
        TorrentAction::ToPieceManager(PieceManagerMessage::PeerChoked { peer_id }) if peer_id == "p"
    ));
    let r = t.on_peer_event(
        "p".to_string(),
        PeerEvent::BlockRequested { piece_index: 1, block_begin: 2, block_length: 3 },
        3,
    );
    match &r[0] {
        TorrentAction::ToDisk(DiskMessage::ReadBlock {
            peer_id,
            piece_index,
            block_begin,
            block_length,
        }) => {
            assert_eq!(peer_id, "p");
            assert_eq!((*piece_index, *block_begin, *block_length), (1, 2, 3));
        }
        other => panic!("unexpected {:?}", other),
    }
    let r = t.on_peer_event(
        "p".to_string(),
        PeerEvent::BitfieldReceived(Bitfield { bits: vec![] }),
        4,
    );
    assert!(r.is_empty());
}

#[test]
fn byte_counters_reset_with_each_tick() {
    let mut t = TorrentState::new("file.iso".to_string(), 10);
    assert!(t.on_peer_event("p".to_string(), PeerEvent::BytesDownloaded(100), 0).is_empty());
    assert!(t.on_peer_event("p".to_string(), PeerEvent::BytesDownloaded(50), 0).is_empty());
    assert!(t.on_peer_event("q".to_string(), PeerEvent::BytesUploaded(7), 0).is_empty());
    let s = t.gather_stats(3);
    assert_eq!(s.file_name, "file.iso");
    assert_eq!((s.pieces_verified, s.total_pieces, s.connected_peers), (0, 10, 3));
    assert_eq!((s.bytes_downloaded, s.bytes_uploaded), (150, 7));
    let s = t.gather_stats(3);
    assert_eq!((s.bytes_downloaded, s.bytes_uploaded), (0, 0));
}

#[test]
fn verified_pieces_are_counted_and_announced() {
    let mut t = TorrentState::new("f".to_string(), 2);
    assert!(!t.is_download_complete());
    assert_eq!(t.our_bitfield().bits, vec![0]);
    let r = t.on_piece_manager_event(PieceManagerEvent::PieceVerified {
        piece_index: 1,
        block_ids: vec![4, 5],
    });
    assert_eq!(r.len(), 1);
    assert!(matches!(r[0], TorrentAction::Broadcast(BroadcastMessage::Have(1))));
    assert_eq!(t.our_bitfield().bits, vec![0b0100_0000]);
    assert!(!t.is_download_complete());
    t.on_piece_manager_event(PieceManagerEvent::PieceVerified { piece_index: 0, block_ids: vec![] });
    assert_eq!(t.our_bitfield().bits, vec![0b1100_0000]);
    assert!(t.is_download_complete());
    let big = TorrentState::new("g".to_string(), 17);
    assert_eq!(big.our_bitfield().bits, vec![0, 0, 0]);
    assert!(TorrentState::new("f".to_string(), 0).is_download_complete());
}

#[test]
fn selected_blocks_and_disk_reads_go_to_the_peer() {
    let t0 = TorrentState::new("f".to_string(), 2);
    let mut t = t0;
    let r = t.on_piece_manager_event(PieceManagerEvent::BlockSelected {
        peer_id: "p".to_string(),
        piece_index: 1,
        block_begin: 16384,
        block_length: 100,
    });
    match &r[0] {
        TorrentAction::ToPeer { peer_id, command } => {
            assert_eq!(peer_id, "p");
            assert_eq!(
                command,
                &ControlMessage::RequestBlock { piece_index: 1, block_begin: 16384, block_length: 100 }
            );
        }
        other => panic!("unexpected {:?}", other),
    }
    let r = t.on_disk_event(DiskEvent::BlockRead {
        peer_id: "q".to_string(),
        piece_index: 0,
        block_begin: 0,
        block_data: vec![1, 2],
    });
    match &r[0] {
        TorrentAction::ToPeer { peer_id, command } => {
            assert_eq!(peer_id, "q");
            assert_eq!(
                command,
                &ControlMessage::SendBlock { piece_index: 0, block_begin: 0, block_data: vec![1, 2] }
            );
        }
        other => panic!("unexpected {:?}", other),
    }
}

#[test]
fn requests_are_pipelined_only_for_unchoked_peers() {
    let mut t = TorrentState::new("f".to_string(), 1);
    assert!(t.request_next_blocks_for_peer(&"p".to_string()).is_empty());
    t.on_peer_event("p".to_string(), PeerEvent::Unchoked, 0);
    // Known peers start choked.
    assert!(t.request_next_blocks_for_peer(&"p".to_string()).is_empty());
    assert_eq!(MAX_PIPELINED_REQUESTS, 5);
}

#[test]
fn disconnected_peer_is_remembered() {
    let mut t = TorrentState::new("f".to_string(), 1);
    t.on_peer_event("p".to_string(), PeerEvent::Unchoked, 0);
    let r = t.on_peer_event(
        "p".to_string(),
        PeerEvent::PeerDisconnected { peer_id: "p".to_string() },
        5,
    );
    assert_eq!(disconnected_ids(&r), vec!["p".to_string()]);
    assert_eq!(t.peer_pool_status(), (0, 1));
    // The reconnect delay has not passed yet.
    assert!(t.try_reconnect_disconnected_peers(5 + RECONNECT_DELAY_NANOS).is_empty());
    assert_eq!(t.peer_pool_status(), (0, 1));
    assert_eq!(
        t.try_reconnect_disconnected_peers(6 + RECONNECT_DELAY_NANOS),
        vec!["p".to_string()]
    );
    assert_eq!(t.peer_pool_status(), (0, 0));
}

#[test]
fn tracker_peers_skip_recently_disconnected_ones() {
    let mut t = TorrentState::new("f".to_string(), 1);
    t.on_peer_event("a".to_string(), PeerEvent::PeerDisconnected { peer_id: "a".to_string() }, 0);
    t.on_peer_event(
        "b".to_string(),
        PeerEvent::PeerDisconnected { peer_id: "b".to_string() },
        30 * SEC,
    );
    assert_eq!(t.peer_pool_status(), (0, 2));
    let kept = t.consider_tracker_peers(
        vec!["a".to_string(), "b".to_string(), "c".to_string()],
        60 * SEC,
    );
    // a went away exactly the delay ago and is tried again; b only 30 s ago.
    assert_eq!(kept, vec!["a".to_string(), "c".to_string()]);
    assert_eq!(t.peer_pool_status(), (0, 1));
}

#[test]
fn silent_peers_without_requests_are_kept() {
    let mut t = TorrentState::new("f".to_string(), 1);
    t.on_peer_event("p".to_string(), PeerEvent::Unchoked, 0);
    t.on_peer_event("q".to_string(), PeerEvent::BytesDownloaded(1), 0);
    // No requests are outstanding with either peer.
    assert!(t.check_peer_health(10 * PEER_TIMEOUT_NANOS).is_empty());
    assert_eq!(t.peer_pool_status(), (1, 0));
}

#[test]
fn download_completes_after_every_piece_is_verified() {
    let mut t = TorrentState::new("f".to_string(), 3);
    for k in 0..3u32 {
        assert!(!t.is_download_complete());
        t.on_piece_manager_event(PieceManagerEvent::PieceVerified { piece_index: k, block_ids: vec![] });
    }
    assert!(t.is_download_complete());
    assert_eq!(t.gather_stats(0).pieces_verified, 3);
}
