use rtorrent::errors::{AppError, BencodeError, TrackerError};
use rtorrent::tracker::{
    announce_request, check_http_status, connect_request, interpret_announce_response, url_scheme, parse_compact_peers_udp, validate_announce_response,
    validate_connect_response, AnnounceRequest, AnnounceResponse, ConnectRequest,
    ConnectResponse, TrackerPeers, UDP_PROTOCOL_ID,
};
use rtorrent::utils::peer::{parse_compact_peers, IpAddress, Peer};

#[test]
fn connect_request_bytes() {
    let req = ConnectRequest { protocol_id: UDP_PROTOCOL_ID, action: 0, transaction_id: 0xdeadbeef };
    assert_eq!(
        req.to_bytes(),
        [0, 0, 0x04, 0x17, 0x27, 0x10, 0x19, 0x80, 0, 0, 0, 0, 0xde, 0xad, 0xbe, 0xef]
    );
}

#[test]
fn connect_response_fields() {
    let buf = [0, 0, 0, 0, 0, 0, 0, 7, 1, 2, 3, 4, 5, 6, 7, 8];
    let r = ConnectResponse::from_bytes(&buf).unwrap();
    assert_eq!(r.action, 0);
    assert_eq!(r.transaction_id, 7);
    assert_eq!(r.connection_id, 0x0102030405060708);
    assert_eq!(validate_connect_response(&r, 7), Ok(0x0102030405060708));
    assert_eq!(
        validate_connect_response(&r, 8),
        Err(AppError::Tracker(TrackerError::Failure(
            "Invalid connect response from tracker".to_string()
        )))
    );
    let bad_action = ConnectResponse { action: 3, transaction_id: 7, connection_id: 1 };
    assert!(validate_connect_response(&bad_action, 7).is_err());
}

#[test]
fn announce_request_bytes() {
    let req = AnnounceRequest {
        connection_id: 0x1122334455667788,
        action: 1,
        transaction_id: 9,
        info_hash: [0xaa; 20],
        peer_id: [0xbb; 20],
        downloaded: 1,
        left: 2,
        uploaded: 3,
        event: 2,
        ip_address: 0,
        key: 0x01020304,
        num_want: -1,
        port: 6881,
    };
    let b = req.to_bytes();
    assert_eq!(&b[0..8], &[0x11, 0x22, 0x33, 0x44, 0x55, 0x66, 0x77, 0x88]);
    assert_eq!(&b[8..12], &[0, 0, 0, 1]);
    assert_eq!(&b[12..16], &[0, 0, 0, 9]);
    assert_eq!(&b[16..36], &[0xaa; 20]);
    assert_eq!(&b[36..56], &[0xbb; 20]);
    assert_eq!(&b[56..64], &[0, 0, 0, 0, 0, 0, 0, 1]);
    assert_eq!(&b[64..72], &[0, 0, 0, 0, 0, 0, 0, 2]);
    assert_eq!(&b[72..80], &[0, 0, 0, 0, 0, 0, 0, 3]);
    assert_eq!(&b[80..84], &[0, 0, 0, 2]);
    assert_eq!(&b[84..88], &[0, 0, 0, 0]);
    assert_eq!(&b[88..92], &[1, 2, 3, 4]);
    assert_eq!(&b[92..96], &[0xff, 0xff, 0xff, 0xff]);
    assert_eq!(&b[96..98], &[0x1a, 0xe1]);
}

#[test]
fn announce_response_fields() {
    let mut buf = vec![0, 0, 0, 1, 0, 0, 0, 5, 0, 0, 7, 8, 0, 0, 0, 2, 0, 0, 0, 3];
    buf.extend_from_slice(&[10, 0, 0, 1, 0x1a, 0xe1]);
    let r = AnnounceResponse::from_bytes(&buf).unwrap();
    assert_eq!((r.action, r.transaction_id, r.interval), (1, 5, 1800));
    assert_eq!((r.leechers, r.seeders), (2, 3));
    assert_eq!(r.peer_info, vec![10, 0, 0, 1, 0x1a, 0xe1]);
    assert_eq!(validate_announce_response(&r, 5), Ok(()));
    assert_eq!(
        validate_announce_response(&r, 6),
        Err(AppError::Tracker(TrackerError::Failure(
            "Invalid announce response from tracker".to_string()
        )))
    );
    assert!(matches!(
        AnnounceResponse::from_bytes(&buf[..19]),
        Err(AppError::Tracker(TrackerError::InvalidPeerListFormat))
    ));
}

#[test]
fn udp_peer_lists() {
    let peers = parse_compact_peers_udp(&[10, 0, 0, 1, 0x1a, 0xe1, 192, 168, 1, 2, 0, 80]).unwrap();
    assert_eq!(
        peers,
        vec![
            Peer { ip: IpAddress::V4([10, 0, 0, 1]), port: 6881 },
            Peer { ip: IpAddress::V4([192, 168, 1, 2]), port: 80 },
        ]
    );
    assert_eq!(parse_compact_peers_udp(&[]), Ok(vec![]));
    assert_eq!(
        parse_compact_peers_udp(&[1, 2, 3]),
        Err(AppError::Tracker(TrackerError::InvalidPeerListFormat))
    );
}

#[test]
fn compact_peer_lists_of_both_widths() {
    let v4 = parse_compact_peers(&[1, 2, 3, 4, 0, 1]).unwrap();
    assert_eq!(v4, vec![Peer { ip: IpAddress::V4([1, 2, 3, 4]), port: 1 }]);
    let mut six = vec![0u8; 16];
    six[15] = 1;
    six.extend_from_slice(&[0x1f, 0x90]);
    let v6 = parse_compact_peers(&six).unwrap();
    let mut addr = [0u8; 16];
    addr[15] = 1;
    assert_eq!(v6, vec![Peer { ip: IpAddress::V6(addr), port: 8080 }]);
    assert_eq!(
        parse_compact_peers(&[1, 2, 3, 4, 5]),
        Err(AppError::Tracker(TrackerError::InvalidPeerListFormat))
    );
}

#[test]
fn announce_reply_with_compact_peers() {
    let mut body = b"d8:intervali1800e5:peers6:".to_vec();
    body.extend_from_slice(&[127, 0, 0, 1, 0x1a, 0xe1]);
    body.push(b'e');
    match interpret_announce_response(&body) {
        Ok(TrackerPeers::Compact(peers)) => {
            assert_eq!(peers, vec![Peer { ip: IpAddress::V4([127, 0, 0, 1]), port: 6881 }]);
        }
        other => panic!("unexpected {:?}", other),
    }
}

#[test]
fn announce_reply_with_peer_dictionaries() {
    let body = b"d5:peersld2:ip9:127.0.0.14:porti6881eei3ed2:ip3:::14:porti65537eeee";
    match interpret_announce_response(body) {
        Ok(TrackerPeers::Entries(entries)) => {
            assert_eq!(
                entries,
                vec![(b"127.0.0.1".to_vec(), 6881u16), (b"::1".to_vec(), 1u16)]
            );
        }
        other => panic!("unexpected {:?}", other),
    }
}

#[test]
fn announce_reply_errors() {
    assert!(matches!(
        interpret_announce_response(b"d14:failure reason6:bannede"),
        Err(AppError::Tracker(TrackerError::Failure(ref m))) if m == "banned"
    ));
    assert!(matches!(
        interpret_announce_response(b"d8:intervali5ee"),
        Err(AppError::Tracker(TrackerError::MissingPeers))
    ));
    assert!(matches!(
        interpret_announce_response(b"li1ee"),
        Err(AppError::Tracker(TrackerError::MissingPeers))
    ));
    assert!(matches!(
        interpret_announce_response(b"d5:peersi3ee"),
        Err(AppError::Tracker(TrackerError::InvalidPeerListFormat))
    ));
    assert!(matches!(
        interpret_announce_response(b"d5:peers4:abcde"),
        Err(AppError::Tracker(TrackerError::InvalidPeerListFormat))
    ));
    assert!(matches!(
        interpret_announce_response(b"d5:peers"),
        Err(AppError::Bencode(BencodeError::UnexpectedEof))
    ));
}

#[test]
fn fresh_udp_requests() {
    let c = connect_request();
    assert_eq!((c.protocol_id, c.action), (UDP_PROTOCOL_ID, 0));
    let a = announce_request(77, [1u8; 20], [2u8; 20]);
    assert_eq!((a.connection_id, a.action, a.event, a.num_want, a.port), (77, 1, 2, -1, 6881));
    assert_eq!((a.downloaded, a.left, a.uploaded, a.ip_address, a.key), (0, 0, 0, 0, 0));
    assert_eq!((a.info_hash, a.peer_id), ([1u8; 20], [2u8; 20]));
}

#[test]
fn http_status_classes() {
    assert_eq!(check_http_status(200), Ok(()));
    assert_eq!(check_http_status(299), Ok(()));
    assert_eq!(
        check_http_status(404),
        Err(AppError::Tracker(TrackerError::UnsuccessfulResponse(404)))
    );
    assert_eq!(
        check_http_status(199),
        Err(AppError::Tracker(TrackerError::UnsuccessfulResponse(199)))
    );
}

#[test]
fn tracker_url_schemes() {
    assert_eq!(url_scheme("udp://tracker.example:80/announce"), b"udp".to_vec());
    assert_eq!(url_scheme("https://t/a?x=1:2"), b"https".to_vec());
    assert_eq!(url_scheme("no-scheme"), b"no-scheme".to_vec());
    assert_eq!(url_scheme(""), Vec::<u8>::new());
}
