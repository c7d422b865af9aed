use rtorrent::bencode_parser::{parse, BencodeValue};
use rtorrent::errors::{AppError, BencodeError};
use rtorrent::utils::{
    build_tracker_url, calculate_info_hash, encode, generate_peer_id, get_torrent_info,
    peer_id_from_random, torrent_size_fits,
};
use sha1::{Digest, Sha1};

fn s(text: &str) -> BencodeValue {
    BencodeValue::String(text.as_bytes().to_vec())
}

fn info_single() -> BencodeValue {
    let mut pieces = Vec::new();
    for i in 0..40u8 {
        pieces.push(i);
    }
    BencodeValue::Dictionary(vec![
        (b"length".to_vec(), BencodeValue::Integer(40000)),
        (b"name".to_vec(), s("file.bin")),
        (b"piece length".to_vec(), BencodeValue::Integer(32768)),
        (b"pieces".to_vec(), BencodeValue::String(pieces)),
    ])
}

fn torrent(info: BencodeValue) -> BencodeValue {
    BencodeValue::Dictionary(vec![
        (b"announce".to_vec(), s("http://tracker.example/announce")),
        (b"info".to_vec(), info),
    ])
}

#[test]
fn encode_writes_canonical_bencode() {
    let v = BencodeValue::Dictionary(vec![
        (b"a".to_vec(), BencodeValue::Integer(-7)),
        (
            b"b".to_vec(),
            BencodeValue::List(vec![s("xy"), BencodeValue::Integer(0)]),
        ),
    ]);
    assert_eq!(encode(&v), b"d1:ai-7e1:bl2:xyi0eee".to_vec());
    assert_eq!(encode(&s("")), b"0:".to_vec());
    assert_eq!(encode(&BencodeValue::List(vec![])), b"le".to_vec());
}

#[test]
fn parse_reads_back_what_encode_wrote() {
    let v = torrent(info_single());
    let bytes = encode(&v);
    assert_eq!(parse(&bytes), Ok(v));
}

#[test]
fn encode_of_parsed_gives_the_input_back() {
    let input = b"d8:announce3:url4:infod6:lengthi3eee";
    let v = parse(input).unwrap();
    assert_eq!(encode(&v), input.to_vec());
}

#[test]
fn info_hash_is_sha1_of_encoded_info() {
    let t = torrent(info_single());
    let expected: [u8; 20] = Sha1::digest(&encode(&info_single())).into();
    assert_eq!(calculate_info_hash(&t), Ok(expected));
    assert_ne!(expected.to_vec(), encode(&info_single())[..20].to_vec());
}

#[test]
fn info_hash_errors() {
    assert_eq!(
        calculate_info_hash(&BencodeValue::Integer(1)),
        Err("Root of torrent file is not a dictionary")
    );
    assert_eq!(
        calculate_info_hash(&BencodeValue::Dictionary(vec![])),
        Err("Torrent metadata is missing 'info' dictionary")
    );
}

#[test]
fn torrent_info_of_single_file_torrent() {
    let t = torrent(info_single());
    assert!(torrent_size_fits(&t));
    let (url, info_hash, hashes, piece_length, total) = get_torrent_info(&t).unwrap();
    assert_eq!(url, "http://tracker.example/announce");
    let expected: [u8; 20] = Sha1::digest(&encode(&info_single())).into();
    assert_eq!(info_hash, expected);
    assert_eq!(hashes.len(), 2);
    assert_eq!(hashes[0][0], 0);
    assert_eq!(hashes[0][19], 19);
    assert_eq!(hashes[1][0], 20);
    assert_eq!(piece_length, 32768);
    assert_eq!(total, 40000);
}

#[test]
fn torrent_info_sums_files() {
    let file = |len: i64| {
        BencodeValue::Dictionary(vec![
            (b"length".to_vec(), BencodeValue::Integer(len)),
            (b"path".to_vec(), BencodeValue::List(vec![s("f")])),
        ])
    };
    let info = BencodeValue::Dictionary(vec![
        (
            b"files".to_vec(),
            BencodeValue::List(vec![file(10), BencodeValue::Integer(3), file(32)]),
        ),
        (b"piece length".to_vec(), BencodeValue::Integer(16384)),
        (b"pieces".to_vec(), BencodeValue::String(vec![7u8; 45])),
    ]);
    let (_, _, hashes, _, total) = get_torrent_info(&torrent(info)).unwrap();
    assert_eq!(total, 42);
    assert_eq!(hashes, vec![[7u8; 20], [7u8; 20]]);
}

#[test]
fn torrent_info_errors() {
    assert_eq!(
        get_torrent_info(&BencodeValue::List(vec![])),
        Err(AppError::Bencode(BencodeError::RootNotADictionary))
    );
    let no_announce = BencodeValue::Dictionary(vec![(b"info".to_vec(), info_single())]);
    assert_eq!(
        get_torrent_info(&no_announce),
        Err(AppError::Bencode(BencodeError::MissingAnnounceURL))
    );
    let no_info = BencodeValue::Dictionary(vec![(b"announce".to_vec(), s("u"))]);
    assert_eq!(
        get_torrent_info(&no_info),
        Err(AppError::Bencode(BencodeError::MissingInfoDict))
    );
    assert_eq!(
        get_torrent_info(&torrent(BencodeValue::Integer(1))),
        Err(AppError::Bencode(BencodeError::InvalidType))
    );
    let no_pieces = BencodeValue::Dictionary(vec![(
        b"piece length".to_vec(),
        BencodeValue::Integer(1),
    )]);
    assert_eq!(
        get_torrent_info(&torrent(no_pieces)),
        Err(AppError::Bencode(BencodeError::InvalidType))
    );
}

#[test]
fn oversized_torrent_is_detected() {
    let file = || BencodeValue::Dictionary(vec![(b"length".to_vec(), BencodeValue::Integer(-1))]);
    let info = BencodeValue::Dictionary(vec![
        (b"files".to_vec(), BencodeValue::List(vec![file(), file()])),
        (b"piece length".to_vec(), BencodeValue::Integer(1)),
        (b"pieces".to_vec(), BencodeValue::String(vec![])),
    ]);
    assert!(!torrent_size_fits(&torrent(info)));
}

#[test]
fn tracker_url_is_built_exactly() {
    let mut info_hash = [0u8; 20];
    for i in 0..20 {
        info_hash[i] = i as u8 * 13;
    }
    let peer_id = *b"-BC0001-123456789012";
    let url = build_tracker_url("http://t.example/announce", &info_hash, &peer_id, 1234).unwrap();
    let mut expected = String::from("http://t.example/announce?info_hash=");
    for b in info_hash.iter() {
        let c = *b;
        if c.is_ascii_alphanumeric() || c == b'-' || c == b'.' || c == b'_' || c == b'~' {
            expected.push(c as char);
        } else {
            expected.push_str(&format!("%{:02X}", c));
        }
    }
    expected.push_str(
        "&peer_id=-BC0001-123456789012&port=6881&uploaded=0&downloaded=0&left=1234&compact=1&event=started",
    );
    assert_eq!(url, expected);
    assert!(url.contains("info_hash=%00%0D%1A"));
}

#[test]
fn peer_id_from_random_bytes() {
    let random = [0u8, 1, 9, 10, 19, 255, 128, 37, 44, 99, 100, 7];
    let id = peer_id_from_random(&random);
    assert_eq!(&id, b"-BC0001-019095874907");
}

#[test]
fn generated_peer_id_has_prefix_and_digits() {
    let id = generate_peer_id();
    assert_eq!(&id[..8], b"-BC0001-");
    assert!(id[8..].iter().all(|b| b.is_ascii_digit()));
}

#[test]
fn announce_url_bytes_are_decoded_with_replacement() {
    let t = BencodeValue::Dictionary(vec![
        (b"announce".to_vec(), BencodeValue::String(b"http://x/\xffa".to_vec())),
        (b"info".to_vec(), info_single()),
    ]);
    let (url, _, _, _, _) = get_torrent_info(&t).unwrap();
    assert_eq!(url, "http://x/\u{FFFD}a");
}
