use vstd::prelude::*;

verus! {

/// Every way in which reading a bencoded document, or a torrent described by
/// one, can fail.
#[derive(Debug, Clone, PartialEq, Eq)]
pub enum BencodeError {
    UnexpectedEof,
    InvalidType,
    TrailingData,
    // integers
    InvalidIntegerFormat,
    IntegerLeadingZero,
    IntegerEmpty,
    // strings
    StringMissingColon,
    StringInvalidLength,
    // dictionaries
    DictKeyNotString,
    DictKeysNotSorted,
    // torrent metadata
    RootNotADictionary,
    MissingAnnounceURL,
    MissingInfoDict,
}

/// Failures while talking to a tracker or reading its reply.
#[derive(Debug, Clone, PartialEq, Eq)]
pub enum TrackerError {
    /// The request to the tracker failed.
    RequestFailed(String),
    /// The tracker responded with a non-success status code.
    UnsuccessfulResponse(u16),
    /// The tracker sent a failure reason in its response.
    Failure(String),
    /// The `peers` key was missing from the tracker's response.
    MissingPeers,
    /// The tracker's peer list had a length that fits neither address family.
    InvalidPeerListFormat,
}

/// Failures of the peer wire protocol.
#[derive(Debug, Clone, PartialEq, Eq)]
pub enum PeerError {
    /// Failed to establish a TCP connection with the peer.
    ConnectionFailed(String),
    /// Failed to send the handshake message to the peer.
    HandshakeSendFailed(String),
    /// Failed to read the handshake response from the peer.
    HandshakeReadFailed(String),
    /// The peer answered the handshake with another torrent's info hash.
    MismatchedInfoHash,
    /// Reading a message from the peer failed, or its length was refused.
    MessageReadFailed(String),
    /// Writing a message to the peer failed.
    MessageSendFailed(String),
    /// A message's payload is too short for its kind.
    InvalidMessageFormat,
    /// A message carried an identifier this client does not understand.
    UnknownMessageId(u8),
}

/// The error type of the whole client.
#[derive(Debug, Clone, PartialEq, Eq)]
pub enum AppError {
    Bencode(BencodeError),
    Tracker(TrackerError),
    Peer(PeerError),
}

impl From<BencodeError> for AppError {
    fn from(e: BencodeError) -> (r: AppError) {
        AppError::Bencode(e)
    }
}

impl vstd::std_specs::convert::FromSpecImpl<BencodeError> for AppError {
    open spec fn obeys_from_spec() -> bool {
        true
    }

    open spec fn from_spec(e: BencodeError) -> AppError {
        AppError::Bencode(e)
    }
}

impl From<TrackerError> for AppError {
    fn from(e: TrackerError) -> (r: AppError) {
        AppError::Tracker(e)
    }
}

impl vstd::std_specs::convert::FromSpecImpl<TrackerError> for AppError {
    open spec fn obeys_from_spec() -> bool {
        true
    }

    open spec fn from_spec(e: TrackerError) -> AppError {
        AppError::Tracker(e)
    }
}

impl From<PeerError> for AppError {
    fn from(e: PeerError) -> (r: AppError) {
        AppError::Peer(e)
    }
}

impl vstd::std_specs::convert::FromSpecImpl<PeerError> for AppError {
    open spec fn obeys_from_spec() -> bool {
        true
    }

    open spec fn from_spec(e: PeerError) -> AppError {
        AppError::Peer(e)
    }
}

} // verus!
