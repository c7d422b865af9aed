//! Trackers: the packets of the UDP tracker protocol and the reading of a
//! tracker's announce reply.
use vstd::prelude::*;

pub use crate::utils::peer::Peer;

use crate::bencode_parser::{
    find_byte, first_index, lemma_first_index, list_model, parse, spec_parse, Bencode, BencodeValue,
};
use crate::bytes_be::{be_bytes, be_value, lemma_be_bytes_len, pow256, push_be, read_be};
use crate::errors::{AppError, TrackerError};
use crate::text::{utf8_lossy, utf8_lossy_spec};
use crate::utils::peer::{
    compact_chunks, compact_peers, non_compact_peer_entries, parse_compact_peers, peer_entries,
    spec_parse_compact_peers, PeerAddr,
};
use crate::utils::{dict_get, dict_lookup, random_u32};
use vstd::string::StringSliceAdditionalSpecFns;

verus! {

/// A tracker spoken to over HTTP(S).
pub struct HttpTrackerClient;

/// A tracker spoken to over UDP.
pub struct UdpTrackerClient;

/// The magic number that opens a UDP connect request.
pub const UDP_PROTOCOL_ID: u64 = 0x41727101980;

/// The UDP connect request.
pub struct ConnectRequest {
    pub protocol_id: u64,
    pub action: u32,
    pub transaction_id: u32,
}

/// The UDP connect response.
pub struct ConnectResponse {
    pub action: u32,
    pub transaction_id: u32,
    pub connection_id: u64,
}

/// The UDP announce request.
pub struct AnnounceRequest {
    pub connection_id: u64,
    pub action: u32,
    pub transaction_id: u32,
    pub info_hash: [u8; 20],
    pub peer_id: [u8; 20],
    pub downloaded: u64,
    pub left: u64,
    pub uploaded: u64,
    pub event: u32,
    pub ip_address: u32,
    pub key: u32,
    pub num_want: i32,
    pub port: u16,
}

/// The UDP announce response.
pub struct AnnounceResponse {
    pub action: u32,
    pub transaction_id: u32,
    pub interval: u32,
    pub leechers: u32,
    pub seeders: u32,
    pub peer_info: Vec<u8>,
}

fn copy_to_16(v: &Vec<u8>) -> (r: [u8; 16])
    requires
        v@.len() == 16,
    ensures
        r@ == v@,
{
    let mut buf: [u8; 16] = [0u8; 16];
    let mut i: usize = 0;
    while i < 16
        invariant
            i <= 16,
            v@.len() == 16,
            forall|j: int| 0 <= j < i ==> buf@[j] == v@[j],
        decreases 16 - i,
    {
        buf[i] = v[i];
        i = i + 1;
    }
    assert(buf@ =~= v@);
    buf
}

fn copy_to_98(v: &Vec<u8>) -> (r: [u8; 98])
    requires
        v@.len() == 98,
    ensures
        r@ == v@,
{
    let mut buf: [u8; 98] = [0u8; 98];
    let mut i: usize = 0;
    while i < 98
        invariant
            i <= 98,
            v@.len() == 98,
            forall|j: int| 0 <= j < i ==> buf@[j] == v@[j],
        decreases 98 - i,
    {
        buf[i] = v[i];
        i = i + 1;
    }
    assert(buf@ =~= v@);
    buf
}

/// Appends all of `s`.
fn push_all(out: &mut Vec<u8>, s: &[u8])
    ensures
        final(out)@ == old(out)@ + s@,
{
    let mut i: usize = 0;
    while i < s.len()
        invariant
            i <= s.len(),
            out@ == old(out)@ + s@.take(i as int),
        decreases s.len() - i,
    {
        assert(s@.take(i + 1) =~= s@.take(i as int).push(s@[i as int]));
        out.push(s[i]);
        i = i + 1;
    }
    assert(s@.take(i as int) =~= s@);
}

impl ConnectRequest {
    /// The 16 bytes of the request: protocol id, action and transaction id,
    /// each big-endian.
    pub fn to_bytes(&self) -> (r: [u8; 16])
        ensures
            r@ == be_bytes(self.protocol_id as nat, 8) + be_bytes(self.action as nat, 4)
                + be_bytes(self.transaction_id as nat, 4),
    {
        let mut v: Vec<u8> = Vec::new();
        push_be(&mut v, self.protocol_id, 8);
        push_be(&mut v, self.action as u64, 4);
        push_be(&mut v, self.transaction_id as u64, 4);
        proof {
            lemma_be_bytes_len(self.protocol_id as nat, 8);
            lemma_be_bytes_len(self.action as nat, 4);
            lemma_be_bytes_len(self.transaction_id as nat, 4);
            assert(v@ =~= be_bytes(self.protocol_id as nat, 8) + be_bytes(self.action as nat, 4)
                + be_bytes(self.transaction_id as nat, 4));
        }
        copy_to_16(&v)
    }
}

impl ConnectResponse {
    /// Reads the 16 bytes of a connect response: action, transaction id and
    /// connection id, each big-endian.
    pub fn from_bytes(buf: &[u8; 16]) -> (r: Result<Self, AppError>)
        ensures
            r matches Ok(c) && c.action == be_value(buf@.subrange(0, 4)) && c.transaction_id
                == be_value(buf@.subrange(4, 8)) && c.connection_id == be_value(
                buf@.subrange(8, 16),
            ),
    {
        let s = buf.as_slice();
        assert(pow256(4) == 0x1_0000_0000) by {
            reveal_with_fuel(pow256, 5);
        }
        let action = read_be(s, 0, 4) as u32;
        let transaction_id = read_be(s, 4, 4) as u32;
        let connection_id = read_be(s, 8, 8);
        Ok(ConnectResponse { action, transaction_id, connection_id })
    }
}

impl AnnounceRequest {
    /// The 98 bytes of the request, each number big-endian: connection id,
    /// action, transaction id, info hash, peer id, downloaded, left,
    /// uploaded, event, IP address, key, number wanted (two's complement)
    /// and port.
    pub fn to_bytes(&self) -> (r: [u8; 98])
        ensures
            r@ == be_bytes(self.connection_id as nat, 8) + be_bytes(self.action as nat, 4)
                + be_bytes(self.transaction_id as nat, 4) + self.info_hash@ + self.peer_id@
                + be_bytes(self.downloaded as nat, 8) + be_bytes(self.left as nat, 8) + be_bytes(
                self.uploaded as nat,
                8,
            ) + be_bytes(self.event as nat, 4) + be_bytes(self.ip_address as nat, 4) + be_bytes(
                self.key as nat,
                4,
            ) + be_bytes((self.num_want as u32) as nat, 4) + be_bytes(self.port as nat, 2),
    {
        let mut v: Vec<u8> = Vec::new();
        push_be(&mut v, self.connection_id, 8);
        push_be(&mut v, self.action as u64, 4);
        push_be(&mut v, self.transaction_id as u64, 4);
        push_all(&mut v, self.info_hash.as_slice());
        push_all(&mut v, self.peer_id.as_slice());
        push_be(&mut v, self.downloaded, 8);
        push_be(&mut v, self.left, 8);
        push_be(&mut v, self.uploaded, 8);
        push_be(&mut v, self.event as u64, 4);
        push_be(&mut v, self.ip_address as u64, 4);
        push_be(&mut v, self.key as u64, 4);
        push_be(&mut v, (self.num_want as u32) as u64, 4);
        push_be(&mut v, self.port as u64, 2);
        proof {
            lemma_be_bytes_len(self.connection_id as nat, 8);
            lemma_be_bytes_len(self.action as nat, 4);
            lemma_be_bytes_len(self.transaction_id as nat, 4);
            lemma_be_bytes_len(self.downloaded as nat, 8);
            lemma_be_bytes_len(self.left as nat, 8);
            lemma_be_bytes_len(self.uploaded as nat, 8);
            lemma_be_bytes_len(self.event as nat, 4);
            lemma_be_bytes_len(self.ip_address as nat, 4);
            lemma_be_bytes_len(self.key as nat, 4);
            lemma_be_bytes_len((self.num_want as u32) as nat, 4);
            lemma_be_bytes_len(self.port as nat, 2);
        }
        copy_to_98(&v)
    }
}

impl AnnounceResponse {
    /// Reads an announce response: five big-endian 32-bit numbers (action,
    /// transaction id, interval, leechers, seeders), then the compact peer
    /// list. Fewer than 20 bytes are refused.
    pub fn from_bytes(buf: &[u8]) -> (r: Result<Self, AppError>)
        ensures
            buf@.len() < 20 ==> r == Err::<Self, AppError>(
                AppError::Tracker(TrackerError::InvalidPeerListFormat),
            ),
            buf@.len() >= 20 ==> (r matches Ok(a) && a.action == be_value(buf@.subrange(0, 4))
                && a.transaction_id == be_value(buf@.subrange(4, 8)) && a.interval == be_value(
                buf@.subrange(8, 12),
            ) && a.leechers == be_value(buf@.subrange(12, 16)) && a.seeders == be_value(
                buf@.subrange(16, 20),
            ) && a.peer_info@ == buf@.skip(20)),
    {
        if buf.len() < 20 {
            return Err(AppError::Tracker(TrackerError::InvalidPeerListFormat));
        }
        assert(pow256(4) == 0x1_0000_0000) by {
            reveal_with_fuel(pow256, 5);
        }
        let action = read_be(buf, 0, 4) as u32;
        let transaction_id = read_be(buf, 4, 4) as u32;
        let interval = read_be(buf, 8, 4) as u32;
        let leechers = read_be(buf, 12, 4) as u32;
        let seeders = read_be(buf, 16, 4) as u32;
        let peer_info = vstd::slice::slice_to_vec(vstd::slice::slice_subrange(buf, 20, buf.len()));
        assert(peer_info@ =~= buf@.skip(20));
        Ok(AnnounceResponse { action, transaction_id, interval, leechers, seeders, peer_info })
    }
}

/// The connect request of the UDP tracker protocol, under a fresh random
/// transaction id.
pub fn connect_request() -> (r: ConnectRequest)
    ensures
        r.protocol_id == UDP_PROTOCOL_ID,
        r.action == 0,
{
    ConnectRequest { protocol_id: UDP_PROTOCOL_ID, action: 0, transaction_id: random_u32() }
}

/// The announce request of the UDP tracker protocol for the `started`
/// event, under a fresh random transaction id: nothing transferred or left,
/// the default address, key and number of peers, port 6881.
pub fn announce_request(connection_id: u64, info_hash: [u8; 20], peer_id: [u8; 20]) -> (r:
    AnnounceRequest)
    ensures
        r.connection_id == connection_id,
        r.action == 1,
        r.info_hash == info_hash,
        r.peer_id == peer_id,
        r.downloaded == 0,
        r.left == 0,
        r.uploaded == 0,
        r.event == 2,
        r.ip_address == 0,
        r.key == 0,
        r.num_want == -1,
        r.port == 6881,
{
    AnnounceRequest {
        connection_id,
        action: 1,
        transaction_id: random_u32(),
        info_hash,
        peer_id,
        downloaded: 0,
        left: 0,
        uploaded: 0,
        event: 2,
        ip_address: 0,
        key: 0,
        num_want: -1,
        port: 6881,
    }
}

/// Accepts an HTTP reply status of the success class (`2xx`) and refuses
/// any other with its code.
pub fn check_http_status(status: u16) -> (r: Result<(), AppError>)
    ensures
        200 <= status < 300 ==> r is Ok,
        !(200 <= status < 300) ==> r == Err::<(), AppError>(
            AppError::Tracker(TrackerError::UnsuccessfulResponse(status)),
        ),
{
    if 200 <= status && status < 300 {
        Ok(())
    } else {
        Err(AppError::Tracker(TrackerError::UnsuccessfulResponse(status)))
    }
}

/// The scheme of a tracker URL: its bytes before the first `:`, or all of
/// them when it has none.
pub fn url_scheme(url: &str) -> (r: Vec<u8>)
    ensures
        r@ == match first_index(url.spec_bytes(), 58) {
            Some(i) => url.spec_bytes().take(i),
            None => url.spec_bytes(),
        },
{
    let bytes = url.as_bytes();
    proof {
        assert(bytes@.skip(0) =~= bytes@);
        lemma_first_index(bytes@, 58);
    }
    let end = match find_byte(bytes, 0, 58) {
        Some(i) => {
            assert(first_index(bytes@, 58)->0 < bytes.len());
            i
        },
        None => bytes.len(),
    };
    let r = vstd::slice::slice_to_vec(vstd::slice::slice_subrange(bytes, 0, end));
    assert(r@ =~= bytes@.take(end as int));
    assert(bytes@.take(bytes@.len() as int) =~= bytes@);
    r
}

/// Reads the compact IPv4 peer list of a UDP announce response: entries of
/// six bytes; any other length is refused.
pub fn parse_compact_peers_udp(peers_bytes: &[u8]) -> (r: Result<Vec<Peer>, AppError>)
    ensures
        peers_bytes@.len() % 6 == 0 ==> (r matches Ok(v) && v@.map_values(|p: Peer| p@)
            == compact_peers(peers_bytes@, 6)),
        peers_bytes@.len() % 6 != 0 ==> r == Err::<Vec<Peer>, AppError>(
            AppError::Tracker(TrackerError::InvalidPeerListFormat),
        ),
{
    if peers_bytes.len() % 6 != 0 {
        return Err(AppError::Tracker(TrackerError::InvalidPeerListFormat));
    }
    Ok(compact_chunks(peers_bytes, 6))
}

/// Accepts a connect response that echoes our transaction id with the
/// `connect` action, giving its connection id.
pub fn validate_connect_response(response: &ConnectResponse, transaction_id: u32) -> (r: Result<
    u64,
    AppError,
>)
    ensures
        response.transaction_id == transaction_id && response.action == 0 ==> r == Ok::<
            u64,
            AppError,
        >(response.connection_id),
        !(response.transaction_id == transaction_id && response.action == 0) ==> (r matches Err(
            AppError::Tracker(TrackerError::Failure(m)),
        ) && m@ == "Invalid connect response from tracker"@),
{
    if response.transaction_id != transaction_id || response.action != 0 {
        return Err(
            AppError::Tracker(TrackerError::Failure("Invalid connect response from tracker".to_owned())),
        );
    }
    Ok(response.connection_id)
}

/// Accepts an announce response that echoes our transaction id with the
/// `announce` action.
pub fn validate_announce_response(response: &AnnounceResponse, transaction_id: u32) -> (r: Result<
    (),
    AppError,
>)
    ensures
        response.transaction_id == transaction_id && response.action == 1 ==> r is Ok,
        !(response.transaction_id == transaction_id && response.action == 1) ==> (r matches Err(
            AppError::Tracker(TrackerError::Failure(m)),
        ) && m@ == "Invalid announce response from tracker"@),
{
    if response.transaction_id != transaction_id || response.action != 1 {
        return Err(
            AppError::Tracker(TrackerError::Failure("Invalid announce response from tracker".to_owned())),
        );
    }
    Ok(())
}

/// The peers that a tracker's announce reply lists: a compact list already
/// read, or the address text and port of each entry of a non-compact list.
#[derive(Debug)]
pub enum TrackerPeers {
    Compact(Vec<Peer>),
    Entries(Vec<(Vec<u8>, u16)>),
}

/// `failure reason`
pub open spec fn key_failure_reason() -> Seq<u8> {
    seq![102u8, 97, 105, 108, 117, 114, 101, 32, 114, 101, 97, 115, 111, 110]
}

/// `peers`
pub open spec fn key_peers() -> Seq<u8> {
    seq![112u8, 101, 101, 114, 115]
}

/// Reads the body of a tracker's HTTP announce reply: a bencoded
/// dictionary whose string `failure reason` is an error, and whose `peers`
/// is a compact list (a string) or a list of dictionaries; anything else
/// lacks peers.
pub fn interpret_announce_response(body: &[u8]) -> (r: Result<TrackerPeers, AppError>)
    ensures
        match spec_parse(body@) {
            Err(e) => r == Err::<TrackerPeers, AppError>(AppError::Bencode(e)),
            Ok(Bencode::Dict(d)) => match dict_get(d, key_failure_reason()) {
                Some(Bencode::Str(reason)) => r matches Err(
                    AppError::Tracker(TrackerError::Failure(m)),
                ) && m@ == utf8_lossy_spec(reason),
                _ => match dict_get(d, key_peers()) {
                    Some(Bencode::Str(bytes)) => match spec_parse_compact_peers(bytes) {
                        Ok(peers) => r matches Ok(TrackerPeers::Compact(v)) && v@.map_values(
                            |p: Peer| p@,
                        ) == peers,
                        Err(e) => r == Err::<TrackerPeers, AppError>(AppError::Tracker(e)),
                    },
                    Some(Bencode::List(list)) => r matches Ok(TrackerPeers::Entries(v))
                        && v@.map_values(|e: (Vec<u8>, u16)| (e.0@, e.1)) == peer_entries(list),
                    Some(_) => r == Err::<TrackerPeers, AppError>(
                        AppError::Tracker(TrackerError::InvalidPeerListFormat),
                    ),
                    None => r == Err::<TrackerPeers, AppError>(
                        AppError::Tracker(TrackerError::MissingPeers),
                    ),
                },
            },
            Ok(_) => r == Err::<TrackerPeers, AppError>(
                AppError::Tracker(TrackerError::MissingPeers),
            ),
        },
{
    let failure_key: [u8; 14] = [102u8, 97, 105, 108, 117, 114, 101, 32, 114, 101, 97, 115, 111, 110];
    assert(failure_key@ =~= key_failure_reason());
    let peers_key: [u8; 5] = [112u8, 101, 101, 114, 115];
    assert(peers_key@ =~= key_peers());
    let response = parse(body)?;
    if let BencodeValue::Dictionary(dict) = &response {
        if let Some(BencodeValue::String(reason)) = dict_lookup(dict, failure_key.as_slice()) {
            return Err(AppError::Tracker(TrackerError::Failure(utf8_lossy(reason.as_slice()))));
        }
        if let Some(peers_value) = dict_lookup(dict, peers_key.as_slice()) {
            return match peers_value {
                BencodeValue::String(peers_bytes) => match parse_compact_peers(
                    peers_bytes.as_slice(),
                ) {
                    Ok(peers) => Ok(TrackerPeers::Compact(peers)),
                    Err(e) => Err(e),
                },
                BencodeValue::List(peer_list) => Ok(
                    TrackerPeers::Entries(non_compact_peer_entries(peer_list)),
                ),
                _ => Err(AppError::Tracker(TrackerError::InvalidPeerListFormat)),
            };
        }
    }
    Err(AppError::Tracker(TrackerError::MissingPeers))
}

} // verus!
