//! Peer addresses as trackers list them.
use vstd::prelude::*;

use crate::bencode_parser::{lemma_list_model, list_model, value_model, Bencode, BencodeValue};
use crate::errors::{AppError, TrackerError};
use crate::utils::{dict_get, dict_lookup};

verus! {

/// An IP address: four bytes for IPv4, sixteen for IPv6.
#[derive(Debug, Clone, Copy, PartialEq, Eq)]
pub enum IpAddress {
    V4([u8; 4]),
    V6([u8; 16]),
}

/// A peer in the swarm: its address and port.
#[derive(Debug, Clone, Copy, PartialEq, Eq)]
pub struct Peer {
    pub ip: IpAddress,
    pub port: u16,
}

/// The model of a peer: the bytes of its address (4 or 16) and its port.
pub struct PeerAddr {
    pub ip: Seq<u8>,
    pub port: u16,
}

impl View for Peer {
    type V = PeerAddr;

    open spec fn view(&self) -> PeerAddr {
        PeerAddr {
            ip: match self.ip {
                IpAddress::V4(a) => a@,
                IpAddress::V6(a) => a@,
            },
            port: self.port,
        }
    }
}

/// The peer in one entry of a compact peer list: the address, then the
/// port in two bytes, most significant first.
pub open spec fn compact_peer(chunk: Seq<u8>) -> PeerAddr {
    PeerAddr {
        ip: chunk.take(chunk.len() - 2),
        port: (chunk[chunk.len() - 2] as nat * 256 + chunk[chunk.len() - 1] as nat) as u16,
    }
}

/// A compact peer list cut into entries of `width` bytes.
pub open spec fn compact_peers(bytes: Seq<u8>, width: int) -> Seq<PeerAddr> {
    Seq::new(
        (bytes.len() as int / width) as nat,
        |k: int| compact_peer(bytes.subrange(width * k, width * k + width)),
    )
}

/// A compact peer list: IPv6 entries of 18 bytes when the length allows,
/// else IPv4 entries of 6 bytes, else malformed.
pub open spec fn spec_parse_compact_peers(bytes: Seq<u8>) -> Result<Seq<PeerAddr>, TrackerError> {
    if bytes.len() % 18 == 0 {
        Ok(compact_peers(bytes, 18))
    } else if bytes.len() % 6 == 0 {
        Ok(compact_peers(bytes, 6))
    } else {
        Err(TrackerError::InvalidPeerListFormat)
    }
}

/// Cuts a compact peer list into entries of `width` bytes.
pub fn compact_chunks(peers_bytes: &[u8], width: usize) -> (r: Vec<Peer>)
    requires
        width == 6 || width == 18,
        peers_bytes@.len() as int % (width as int) == 0,
    ensures
        r@.map_values(|p: Peer| p@) == compact_peers(peers_bytes@, width as int),
{
    let count = peers_bytes.len() / width;
    assert(width * count <= peers_bytes@.len()) by (nonlinear_arith)
        requires
            count == peers_bytes@.len() as int / (width as int),
            width > 0,
    ;
    let mut out: Vec<Peer> = Vec::new();
    let mut k: usize = 0;
    while k < count
        invariant
            k <= count,
            width == 6 || width == 18,
            count == peers_bytes@.len() as int / (width as int),
            width * count <= peers_bytes@.len(),
            peers_bytes@.len() == peers_bytes.len(),
            out@.len() == k,
            forall|j: int|
                0 <= j < k ==> #[trigger] out@[j]@ == compact_peer(
                    peers_bytes@.subrange(width * j, width * j + width),
                ),
        decreases count - k,
    {
        assert(width * k + width <= width * count) by (nonlinear_arith)
            requires
                k < count,
                width > 0,
        ;
        let base = width * k;
        let ghost chunk = peers_bytes@.subrange(base as int, base + width);
        let ip_len = width - 2;
        let port = (peers_bytes[base + ip_len] as u16) * 256 + (peers_bytes[base + ip_len
            + 1] as u16);
        let ip = if width == 6 {
            let mut a: [u8; 4] = [0u8; 4];
            let mut b: usize = 0;
            while b < 4
                invariant
                    b <= 4,
                    width == 6,
                    base + width <= peers_bytes@.len(),
                    peers_bytes@.len() == peers_bytes.len(),
                    forall|c: int| 0 <= c < b ==> a@[c] == peers_bytes@[base + c],
                decreases 4 - b,
            {
                a[b] = peers_bytes[base + b];
                b = b + 1;
            }
            assert(a@ =~= chunk.take(4));
            IpAddress::V4(a)
        } else {
            let mut a: [u8; 16] = [0u8; 16];
            let mut b: usize = 0;
            while b < 16
                invariant
                    b <= 16,
                    width == 18,
                    base + width <= peers_bytes@.len(),
                    peers_bytes@.len() == peers_bytes.len(),
                    forall|c: int| 0 <= c < b ==> a@[c] == peers_bytes@[base + c],
                decreases 16 - b,
            {
                a[b] = peers_bytes[base + b];
                b = b + 1;
            }
            assert(a@ =~= chunk.take(16));
            IpAddress::V6(a)
        };
        let peer = Peer { ip, port };
        assert(peer@ =~= compact_peer(chunk));
        out.push(peer);
        k = k + 1;
    }
    assert(out@.map_values(|p: Peer| p@) =~= compact_peers(peers_bytes@, width as int));
    out
}

/// Reads a compact peer list (see `spec_parse_compact_peers`).
pub fn parse_compact_peers(peers_bytes: &[u8]) -> (r: Result<Vec<Peer>, AppError>)
    ensures
        match spec_parse_compact_peers(peers_bytes@) {
            Ok(peers) => r matches Ok(v) && v@.map_values(|p: Peer| p@) == peers,
            Err(e) => r == Err::<Vec<Peer>, AppError>(AppError::Tracker(e)),
        },
{
    if peers_bytes.len() % 18 == 0 {
        Ok(compact_chunks(peers_bytes, 18))
    } else if peers_bytes.len() % 6 == 0 {
        Ok(compact_chunks(peers_bytes, 6))
    } else {
        Err(AppError::Tracker(TrackerError::InvalidPeerListFormat))
    }
}

/// `ip`
pub open spec fn key_ip() -> Seq<u8> {
    seq![105u8, 112]
}

/// `port`
pub open spec fn key_port() -> Seq<u8> {
    seq![112u8, 111, 114, 116]
}

/// The address text and port of one entry of a non-compact peer list: a
/// dictionary with a string `ip` and an integer `port` (taken modulo 2^16).
pub open spec fn peer_entry(v: Bencode) -> Option<(Seq<u8>, u16)> {
    match v {
        Bencode::Dict(d) => match (dict_get(d, key_ip()), dict_get(d, key_port())) {
            (Some(Bencode::Str(ip)), Some(Bencode::Int(port))) => Some((ip, port as u16)),
            _ => None,
        },
        _ => None,
    }
}

/// The usable entries of a non-compact peer list, in order.
pub open spec fn peer_entries(list: Seq<Bencode>) -> Seq<(Seq<u8>, u16)>
    decreases list.len(),
{
    if list.len() == 0 {
        Seq::empty()
    } else {
        let rest = peer_entries(list.drop_last());
        match peer_entry(list.last()) {
            Some(e) => rest.push(e),
            None => rest,
        }
    }
}

/// The address text and port of every usable entry of a non-compact peer
/// list; entries that are not dictionaries or lack a string `ip` or an
/// integer `port` are skipped. Reading the address text is left to the
/// caller.
pub fn non_compact_peer_entries(peer_list: &Vec<BencodeValue>) -> (r: Vec<(Vec<u8>, u16)>)
    ensures
        r@.map_values(|e: (Vec<u8>, u16)| (e.0@, e.1)) == peer_entries(list_model(peer_list@)),
{
    let ghost m = list_model(peer_list@);
    proof {
        lemma_list_model(peer_list@);
    }
    let ip_key: [u8; 2] = [105u8, 112];
    assert(ip_key@ =~= key_ip());
    let port_key: [u8; 4] = [112u8, 111, 114, 116];
    assert(port_key@ =~= key_port());
    let mut peers: Vec<(Vec<u8>, u16)> = Vec::new();
    let mut i: usize = 0;
    while i < peer_list.len()
        invariant
            i <= peer_list.len(),
            m == list_model(peer_list@),
            m.len() == peer_list@.len(),
            forall|j: int| 0 <= j < peer_list@.len() ==> #[trigger] m[j] == value_model(peer_list@[j]),
            ip_key@ == key_ip(),
            port_key@ == key_port(),
            peers@.map_values(|e: (Vec<u8>, u16)| (e.0@, e.1)) == peer_entries(m.take(i as int)),
        decreases peer_list.len() - i,
    {
        assert(m.take(i + 1).drop_last() =~= m.take(i as int));
        assert(m.take(i + 1).last() == m[i as int]);
        let ghost before = peers@;
        if let BencodeValue::Dictionary(peer_dict) = &peer_list[i] {
            let ip_bytes = match dict_lookup(peer_dict, ip_key.as_slice()) {
                Some(BencodeValue::String(s)) => Some(s),
                _ => None,
            };
            let port = match dict_lookup(peer_dict, port_key.as_slice()) {
                Some(BencodeValue::Integer(p)) => Some(*p as u16),
                _ => None,
            };
            if let (Some(ip), Some(port)) = (ip_bytes, port) {
                let ip_copy = vstd::slice::slice_to_vec(ip.as_slice());
                peers.push((ip_copy, port));
                assert(peers@.map_values(|e: (Vec<u8>, u16)| (e.0@, e.1)) =~= before.map_values(
                    |e: (Vec<u8>, u16)| (e.0@, e.1),
                ).push((ip@, port)));
            }
        }
        i = i + 1;
    }
    assert(m.take(i as int) =~= m);
    peers
}

} // verus!
