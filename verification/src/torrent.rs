//! The torrent manager's decisions: what to do on each event from the peers,
//! the piece manager and the disk, how to watch peer health, and whom to
//! reconnect to.
use vstd::prelude::*;

use crate::messages::{
    BroadcastMessage, ControlMessage, DiskEvent, DiskMessage, PeerEvent, PieceManagerEvent,
    PieceManagerMessage,
};
use crate::peer::{has_piece_spec, Bitfield};
use crate::peer_table::{
    keys_unique, lemma_insert_keeps_unique, lemma_remove_keeps_unique, slot_of, table_get,
    table_insert, table_remove, PeerTable,
};

verus! {

/// How many block requests may be outstanding with one peer.
pub const MAX_PIPELINED_REQUESTS: usize = 5;

/// The most pieces a torrent may have.
pub const MAX_TOTAL_PIECES: usize = 1_000_000;

/// A peer with requests outstanding and no activity for longer than this
/// (two minutes, in nanoseconds) is taken as stuck.
pub const PEER_TIMEOUT_NANOS: u64 = 120_000_000_000;

/// How long a disconnected peer rests before it is tried again (one minute,
/// in nanoseconds).
pub const RECONNECT_DELAY_NANOS: u64 = 60_000_000_000;

/// What the torrent manager knows of a connected peer.
#[derive(Debug, Clone, Copy, PartialEq, Eq)]
pub struct PeerState {
    pub is_choked: bool,
    pub in_flight_requests: usize,
}

impl Default for PeerState {
    /// Peers start choked, with nothing asked of them.
    fn default() -> (r: Self)
        ensures
            r == (PeerState { is_choked: true, in_flight_requests: 0 }),
    {
        PeerState { is_choked: true, in_flight_requests: 0 }
    }
}

/// What the torrent manager has to do after an event.
#[derive(Debug)]
pub enum TorrentAction {
    ToPieceManager(PieceManagerMessage),
    ToDisk(DiskMessage),
    /// Send a command to the session of this peer, if it still has one.
    ToPeer { peer_id: String, command: ControlMessage },
    Broadcast(BroadcastMessage),
}

/// The counters shown on the dashboard.
#[derive(Debug, Clone, PartialEq, Eq)]
pub struct DownloadCounts {
    pub file_name: String,
    pub pieces_verified: usize,
    pub total_pieces: usize,
    pub connected_peers: usize,
    pub bytes_downloaded: usize,
    pub bytes_uploaded: usize,
}

/// The state behind the torrent manager's decisions. Times are nanoseconds
/// on a clock that the caller reads.
pub struct TorrentState {
    file_name: String,
    total_pieces: usize,
    pieces_verified: usize,
    peer_states: PeerTable<PeerState>,
    bytes_downloaded_in_tick: usize,
    bytes_uploaded_in_tick: usize,
    peer_last_activity: PeerTable<u64>,
    disconnected_peers: PeerTable<u64>,
    our_bitfield: Bitfield,
}

/// The model of the torrent manager's state: one entry per peer in each
/// table (its state, the time it was last heard of, the time it went away).
#[verifier::ext_equal]
pub struct TorrentModel {
    pub file_name: Seq<char>,
    pub total_pieces: usize,
    pub pieces_verified: usize,
    pub peer_states: Seq<(Seq<char>, PeerState)>,
    pub bytes_downloaded: usize,
    pub bytes_uploaded: usize,
    pub last_activity: Seq<(Seq<char>, u64)>,
    pub disconnected: Seq<(Seq<char>, u64)>,
    /// Our bitfield: the pieces we have verified.
    pub owned: Seq<u8>,
}

impl View for TorrentState {
    type V = TorrentModel;

    closed spec fn view(&self) -> TorrentModel {
        TorrentModel {
            file_name: self.file_name@,
            total_pieces: self.total_pieces,
            pieces_verified: self.pieces_verified,
            peer_states: self.peer_states@,
            bytes_downloaded: self.bytes_downloaded_in_tick,
            bytes_uploaded: self.bytes_uploaded_in_tick,
            last_activity: self.peer_last_activity@,
            disconnected: self.disconnected_peers@,
            owned: self.our_bitfield.bits@,
        }
    }
}

impl TorrentModel {
    pub open spec fn well_formed(self) -> bool {
        &&& keys_unique(self.peer_states)
        &&& keys_unique(self.last_activity)
        &&& keys_unique(self.disconnected)
    }

    /// Heard from `id` at `now`.
    pub open spec fn touched(self, id: Seq<char>, now: u64) -> TorrentModel {
        TorrentModel { last_activity: table_insert(self.last_activity, id, now), ..self }
    }

    /// `id` forgotten as a connected peer and remembered as gone at `now`.
    pub open spec fn dropped(self, id: Seq<char>, now: u64) -> TorrentModel {
        TorrentModel {
            peer_states: table_remove(self.peer_states, id),
            last_activity: table_remove(self.last_activity, id),
            disconnected: table_insert(self.disconnected, id, now),
            ..self
        }
    }

    /// Whether a peer event can be taken: the byte counters do not overflow.
    pub open spec fn takes_peer_event(self, event: PeerEvent) -> bool {
        &&& event matches PeerEvent::BytesDownloaded(c) ==> self.bytes_downloaded + c
            <= usize::MAX
        &&& event matches PeerEvent::BytesUploaded(c) ==> self.bytes_uploaded + c <= usize::MAX
    }

    /// Whether a piece manager event can be taken: the count of verified
    /// pieces does not overflow.
    pub open spec fn takes_piece_event(self, event: PieceManagerEvent) -> bool {
        event is PieceVerified ==> self.pieces_verified < usize::MAX
    }

    /// Every peer of `ids` dropped at `now`, in order.
    pub open spec fn dropped_all(self, ids: Seq<Seq<char>>, now: u64) -> TorrentModel
        decreases ids.len(),
    {
        if ids.len() == 0 {
            self
        } else {
            self.dropped_all(ids.drop_last(), now).dropped(ids.last(), now)
        }
    }
}

/// The nanoseconds from `then` to `now`, or zero if `then` is later.
pub open spec fn elapsed(now: u64, then: u64) -> u64 {
    if now >= then {
        (now - then) as u64
    } else {
        0
    }
}

/// The peers, in the order of `activity`, that have been silent for longer
/// than the timeout while requests are outstanding with them.
pub open spec fn stuck_peers(
    activity: Seq<(Seq<char>, u64)>,
    states: Seq<(Seq<char>, PeerState)>,
    now: u64,
) -> Seq<Seq<char>>
    decreases activity.len(),
{
    if activity.len() == 0 {
        Seq::empty()
    } else {
        let rest = stuck_peers(activity.drop_last(), states, now);
        let (id, last) = activity.last();
        if elapsed(now, last) > PEER_TIMEOUT_NANOS && (table_get(states, id) matches Some(st)
            && st.in_flight_requests > 0) {
            rest.push(id)
        } else {
            rest
        }
    }
}

/// The peers, in order, that have rested longer than the reconnect delay.
pub open spec fn rested_peers(disconnected: Seq<(Seq<char>, u64)>, now: u64) -> Seq<Seq<char>>
    decreases disconnected.len(),
{
    if disconnected.len() == 0 {
        Seq::empty()
    } else {
        let rest = rested_peers(disconnected.drop_last(), now);
        let (id, when) = disconnected.last();
        if elapsed(now, when) > RECONNECT_DELAY_NANOS {
            rest.push(id)
        } else {
            rest
        }
    }
}

/// The table without every peer of `ids`.
pub open spec fn remove_all<V>(t: Seq<(Seq<char>, V)>, ids: Seq<Seq<char>>) -> Seq<(Seq<char>, V)>
    decreases ids.len(),
{
    if ids.len() == 0 {
        t
    } else {
        table_remove(remove_all(t, ids.drop_last()), ids.last())
    }
}

/// Going through the peers a tracker listed, in order: a peer that went
/// away less than the reconnect delay ago is skipped; one that went away
/// longer ago is forgotten as gone and kept; any other is kept. Gives the
/// disconnected table afterwards and the peers kept.
pub open spec fn refresh_fold(
    disconnected: Seq<(Seq<char>, u64)>,
    ids: Seq<Seq<char>>,
    now: u64,
) -> (Seq<(Seq<char>, u64)>, Seq<Seq<char>>)
    decreases ids.len(),
{
    if ids.len() == 0 {
        (disconnected, Seq::empty())
    } else {
        let (d, kept) = refresh_fold(disconnected, ids.drop_last(), now);
        let id = ids.last();
        match table_get(d, id) {
            Some(when) => if elapsed(now, when) < RECONNECT_DELAY_NANOS {
                (d, kept)
            } else {
                (table_remove(d, id), kept.push(id))
            },
            None => (d, kept.push(id)),
        }
    }
}

/// The ids of a list of peers.
pub open spec fn ids_of(v: Seq<String>) -> Seq<Seq<char>> {
    v.map_values(|s: String| s@)
}

/// The actions tell the piece manager, one by one and in order, that the
/// peers of `ids` are gone.
pub open spec fn disconnect_notices(r: Seq<TorrentAction>, ids: Seq<Seq<char>>) -> bool {
    &&& r.len() == ids.len()
    &&& forall|k: int|
        0 <= k < ids.len() ==> ((#[trigger] r[k]) matches TorrentAction::ToPieceManager(
            PieceManagerMessage::PeerDisconnected { peer_id },
        ) && peer_id@ == ids[k])
}

proof fn lemma_table_remove_members<V>(t: Seq<(Seq<char>, V)>, id: Seq<char>)
    requires
        keys_unique(t),
    ensures
        keys_unique(table_remove(t, id)),
        forall|k: int|
            0 <= k < table_remove(t, id).len() ==> t.contains(#[trigger] table_remove(t, id)[k])
                && table_remove(t, id)[k].0 != id,
{
    lemma_remove_keeps_unique(t, id);
    let r = table_remove(t, id);
    match slot_of(t, id) {
        Some(j) => {
            assert forall|k: int| 0 <= k < r.len() implies t.contains(#[trigger] r[k]) by {
                if k < j {
                    assert(r[k] == t[k]);
                } else {
                    assert(r[k] == t[k + 1]);
                }
            }
        },
        None => {
            assert forall|k: int| 0 <= k < r.len() implies t.contains(#[trigger] r[k]) by {
                assert(r[k] == t[k]);
            }
        },
    }
}

proof fn lemma_remove_all_members<V>(t: Seq<(Seq<char>, V)>, ids: Seq<Seq<char>>)
    requires
        keys_unique(t),
    ensures
        keys_unique(remove_all(t, ids)),
        forall|k: int|
            0 <= k < remove_all(t, ids).len() ==> t.contains(#[trigger] remove_all(t, ids)[k])
                && !ids.contains(remove_all(t, ids)[k].0),
    decreases ids.len(),
{
    if ids.len() > 0 {
        let prev = remove_all(t, ids.drop_last());
        lemma_remove_all_members(t, ids.drop_last());
        lemma_table_remove_members(prev, ids.last());
        let r = remove_all(t, ids);
        assert forall|k: int| 0 <= k < r.len() implies t.contains(#[trigger] r[k]) && !ids.contains(
            r[k].0,
        ) by {
            assert(prev.contains(r[k]));
            let a = choose|a: int| 0 <= a < prev.len() && prev[a] == r[k];
            assert(t.contains(prev[a]));
            assert(!ids.drop_last().contains(prev[a].0));
            if ids.contains(r[k].0) {
                let m = choose|m: int| 0 <= m < ids.len() && ids[m] == r[k].0;
                if m < ids.len() - 1 {
                    assert(ids.drop_last()[m] == ids[m]);
                }
            }
        }
    }
}

proof fn lemma_rested_members(d: Seq<(Seq<char>, u64)>, now: u64)
    ensures
        forall|k: int|
            0 <= k < d.len() && elapsed(now, (#[trigger] d[k]).1) > RECONNECT_DELAY_NANOS
                ==> rested_peers(d, now).contains(d[k].0),
    decreases d.len(),
{
    if d.len() > 0 {
        lemma_rested_members(d.drop_last(), now);
        let rest = rested_peers(d.drop_last(), now);
        assert forall|k: int|
            0 <= k < d.len() && elapsed(now, (#[trigger] d[k]).1)
                > RECONNECT_DELAY_NANOS implies rested_peers(d, now).contains(d[k].0) by {
            if k < d.len() - 1 {
                assert(d.drop_last()[k] == d[k]);
                let m = choose|m: int| 0 <= m < rest.len() && rest[m] == d[k].0;
                assert(rested_peers(d, now)[m] == d[k].0);
            } else {
                assert(rested_peers(d, now).last() == d[k].0);
            }
        }
    }
}

/// A dropped peer is no longer connected nor watched for activity, and is
/// remembered as gone at the time it was dropped; the tables stay keyed by
/// one entry per peer.
pub proof fn law_dropped_peer_is_gone(m: TorrentModel, id: Seq<char>, now: u64)
    requires
        m.well_formed(),
    ensures
        m.dropped(id, now).well_formed(),
        table_get(m.dropped(id, now).peer_states, id) is None,
        table_get(m.dropped(id, now).last_activity, id) is None,
        table_get(m.dropped(id, now).disconnected, id) == Some(now),
{
    lemma_remove_keeps_unique(m.peer_states, id);
    lemma_remove_keeps_unique(m.last_activity, id);
    lemma_insert_keeps_unique(m.disconnected, id, now);
}

/// After a reconnect pass at `now`, every peer still remembered as gone
/// went away no longer than the reconnect delay before `now`.
pub proof fn law_reconnect_pass_keeps_only_resting_peers(m: TorrentModel, now: u64)
    requires
        m.well_formed(),
    ensures
        forall|k: int|
            0 <= k < remove_all(m.disconnected, rested_peers(m.disconnected, now)).len() ==> elapsed(
                now,
                (#[trigger] remove_all(m.disconnected, rested_peers(m.disconnected, now))[k]).1,
            ) <= RECONNECT_DELAY_NANOS,
{
    let d = m.disconnected;
    let ids = rested_peers(d, now);
    let r = remove_all(d, ids);
    lemma_remove_all_members(d, ids);
    lemma_rested_members(d, now);
    assert forall|k: int| 0 <= k < r.len() implies elapsed(now, (#[trigger] r[k]).1)
        <= RECONNECT_DELAY_NANOS by {
        assert(d.contains(r[k]));
        let a = choose|a: int| 0 <= a < d.len() && d[a] == r[k];
        if elapsed(now, d[a].1) > RECONNECT_DELAY_NANOS {
            assert(ids.contains(d[a].0));
        }
    }
}

proof fn lemma_get_after_remove<V>(t: Seq<(Seq<char>, V)>, x: Seq<char>, id: Seq<char>)
    requires
        keys_unique(t),
        id != x,
    ensures
        table_get(table_remove(t, x), id) == table_get(t, id),
{
    lemma_table_remove_members(t, x);
    let r = table_remove(t, x);
    match slot_of(t, id) {
        Some(a) => {
            let a2 = match slot_of(t, x) {
                Some(j) => if a < j {
                    a
                } else {
                    a - 1
                },
                None => a,
            };
            assert(r[a2] == t[a]);
            let c = choose|c: int| 0 <= c < r.len() && r[c].0 == id;
            assert(c == a2) by {
                if c < a2 {
                    assert(r[c].0 != r[a2].0);
                } else if c > a2 {
                    assert(r[a2].0 != r[c].0);
                }
            }
        },
        None => {
            if exists|c: int| 0 <= c < r.len() && r[c].0 == id {
                let c = choose|c: int| 0 <= c < r.len() && r[c].0 == id;
                assert(t.contains(r[c]));
                let a = choose|a: int| 0 <= a < t.len() && t[a] == r[c];
                assert(t[a].0 == id);
            }
        },
    }
}

proof fn lemma_get_after_remove_all<V>(t: Seq<(Seq<char>, V)>, ids: Seq<Seq<char>>, id: Seq<char>)
    requires
        keys_unique(t),
        !ids.contains(id),
    ensures
        table_get(remove_all(t, ids), id) == table_get(t, id),
    decreases ids.len(),
{
    if ids.len() > 0 {
        assert(!ids.drop_last().contains(id)) by {
            if ids.drop_last().contains(id) {
                let m = choose|m: int| 0 <= m < ids.drop_last().len() && ids.drop_last()[m] == id;
                assert(ids[m] == id);
            }
        }
        lemma_get_after_remove_all(t, ids.drop_last(), id);
        lemma_remove_all_members(t, ids.drop_last());
        assert(ids.last() != id) by {
            if ids.last() == id {
                assert(ids[ids.len() - 1] == id);
            }
        }
        lemma_get_after_remove(remove_all(t, ids.drop_last()), ids.last(), id);
    }
}

proof fn lemma_dropped_all_tables(m: TorrentModel, ids: Seq<Seq<char>>, now: u64)
    ensures
        m.dropped_all(ids, now).peer_states == remove_all(m.peer_states, ids),
        m.dropped_all(ids, now).last_activity == remove_all(m.last_activity, ids),
    decreases ids.len(),
{
    if ids.len() > 0 {
        lemma_dropped_all_tables(m, ids.drop_last(), now);
    }
}

proof fn lemma_stuck_members(
    act: Seq<(Seq<char>, u64)>,
    states: Seq<(Seq<char>, PeerState)>,
    now: u64,
)
    ensures
        forall|k: int|
            0 <= k < act.len() && elapsed(now, (#[trigger] act[k]).1) > PEER_TIMEOUT_NANOS && (
            table_get(states, act[k].0) matches Some(st) && st.in_flight_requests > 0)
                ==> stuck_peers(act, states, now).contains(act[k].0),
    decreases act.len(),
{
    if act.len() > 0 {
        lemma_stuck_members(act.drop_last(), states, now);
        let rest = stuck_peers(act.drop_last(), states, now);
        assert forall|k: int|
            0 <= k < act.len() && elapsed(now, (#[trigger] act[k]).1) > PEER_TIMEOUT_NANOS && (
            table_get(states, act[k].0) matches Some(st) && st.in_flight_requests
                > 0) implies stuck_peers(act, states, now).contains(act[k].0) by {
            if k < act.len() - 1 {
                assert(act.drop_last()[k] == act[k]);
                let m = choose|m: int| 0 <= m < rest.len() && rest[m] == act[k].0;
                assert(stuck_peers(act, states, now)[m] == act[k].0);
            } else {
                assert(stuck_peers(act, states, now).last() == act[k].0);
            }
        }
    }
}

/// After a health check at `now`, no peer that is still watched has been
/// silent for longer than the timeout while requests are outstanding with
/// it.
pub proof fn law_health_check_leaves_no_stuck_peer(m: TorrentModel, now: u64)
    requires
        m.well_formed(),
    ensures
        forall|k: int|
            0 <= k < m.dropped_all(stuck_peers(m.last_activity, m.peer_states, now), now).last_activity.len()
                && elapsed(
                now,
                (#[trigger] m.dropped_all(
                    stuck_peers(m.last_activity, m.peer_states, now),
                    now,
                ).last_activity[k]).1,
            ) > PEER_TIMEOUT_NANOS ==> !(table_get(
                m.dropped_all(stuck_peers(m.last_activity, m.peer_states, now), now).peer_states,
                m.dropped_all(stuck_peers(m.last_activity, m.peer_states, now), now).last_activity[k].0,
            ) matches Some(st) && st.in_flight_requests > 0),
{
    let ids = stuck_peers(m.last_activity, m.peer_states, now);
    let m2 = m.dropped_all(ids, now);
    lemma_dropped_all_tables(m, ids, now);
    lemma_remove_all_members(m.last_activity, ids);
    lemma_stuck_members(m.last_activity, m.peer_states, now);
    assert forall|k: int|
        0 <= k < m2.last_activity.len() && elapsed(now, (#[trigger] m2.last_activity[k]).1)
            > PEER_TIMEOUT_NANOS implies !(table_get(m2.peer_states, m2.last_activity[k].0) matches Some(
        st,
    ) && st.in_flight_requests > 0) by {
        let e = m2.last_activity[k];
        assert(m.last_activity.contains(e));
        assert(!ids.contains(e.0));
        let a = choose|a: int| 0 <= a < m.last_activity.len() && m.last_activity[a] == e;
        lemma_get_after_remove_all(m.peer_states, ids, e.0);
        if table_get(m.peer_states, e.0) matches Some(st) && st.in_flight_requests > 0 {
            assert(elapsed(now, m.last_activity[a].1) > PEER_TIMEOUT_NANOS);
            assert(ids.contains(m.last_activity[a].0));
        }
    }
}

proof fn lemma_refresh_fold(d: Seq<(Seq<char>, u64)>, ids: Seq<Seq<char>>, now: u64)
    requires
        keys_unique(d),
    ensures
        keys_unique(refresh_fold(d, ids, now).0),
        forall|id: Seq<char>|
            #![trigger table_get(refresh_fold(d, ids, now).0, id)]
            table_get(refresh_fold(d, ids, now).0, id) == table_get(d, id) || (table_get(
                refresh_fold(d, ids, now).0,
                id,
            ) is None && (table_get(d, id) matches Some(w) && elapsed(now, w)
                >= RECONNECT_DELAY_NANOS)),
        forall|k: int|
            0 <= k < refresh_fold(d, ids, now).1.len() ==> (table_get(
                d,
                #[trigger] refresh_fold(d, ids, now).1[k],
            ) matches Some(w) ==> elapsed(now, w) >= RECONNECT_DELAY_NANOS),
    decreases ids.len(),
{
    if ids.len() > 0 {
        let prev = ids.drop_last();
        lemma_refresh_fold(d, prev, now);
        let (d1, kept1) = refresh_fold(d, prev, now);
        let id = ids.last();
        let (d2, kept2) = refresh_fold(d, ids, now);
        match table_get(d1, id) {
            Some(when) => {
                if elapsed(now, when) >= RECONNECT_DELAY_NANOS {
                    lemma_remove_keeps_unique(d1, id);
                    assert(table_get(d1, id) == table_get(d, id));
                    assert forall|x: Seq<char>|
                        #![trigger table_get(d2, x)]
                        table_get(d2, x) == table_get(d, x) || (table_get(d2, x) is None && (
                        table_get(d, x) matches Some(w) && elapsed(now, w)
                            >= RECONNECT_DELAY_NANOS)) by {
                        if x != id {
                            lemma_get_after_remove(d1, id, x);
                            assert(table_get(d1, x) == table_get(d, x) || (table_get(d1, x) is None
                                && (table_get(d, x) matches Some(w) && elapsed(now, w)
                                >= RECONNECT_DELAY_NANOS)));
                        }
                    }
                    assert forall|k: int| 0 <= k < kept2.len() implies (table_get(
                        d,
                        #[trigger] kept2[k],
                    ) matches Some(w) ==> elapsed(now, w) >= RECONNECT_DELAY_NANOS) by {
                        if k < kept1.len() {
                            assert(kept2[k] == kept1[k]);
                        }
                    }
                }
            },
            None => {
                assert(table_get(d1, id) == table_get(d, id) || (table_get(d1, id) is None && (
                table_get(d, id) matches Some(w) && elapsed(now, w) >= RECONNECT_DELAY_NANOS)));
                assert forall|k: int| 0 <= k < kept2.len() implies (table_get(
                    d,
                    #[trigger] kept2[k],
                ) matches Some(w) ==> elapsed(now, w) >= RECONNECT_DELAY_NANOS) by {
                    if k < kept1.len() {
                        assert(kept2[k] == kept1[k]);
                    }
                }
            },
        }
    }
}

/// Going through a tracker's list never keeps a peer that went away less
/// than the reconnect delay before `now`, and the table of peers that went
/// away keeps one entry per peer.
pub proof fn law_tracker_refresh_skips_resting_peers(
    m: TorrentModel,
    ids: Seq<Seq<char>>,
    now: u64,
)
    requires
        m.well_formed(),
    ensures
        keys_unique(refresh_fold(m.disconnected, ids, now).0),
        forall|k: int|
            0 <= k < refresh_fold(m.disconnected, ids, now).1.len() ==> (table_get(
                m.disconnected,
                #[trigger] refresh_fold(m.disconnected, ids, now).1[k],
            ) matches Some(w) ==> elapsed(now, w) >= RECONNECT_DELAY_NANOS),
{
    lemma_refresh_fold(m.disconnected, ids, now);
}

/// The model of a torrent of `total_pieces` pieces with nothing verified,
/// no peers and an empty bitfield.
pub open spec fn fresh_model(file_name: Seq<char>, total_pieces: usize) -> TorrentModel {
    TorrentModel {
        file_name,
        total_pieces,
        pieces_verified: 0,
        peer_states: Seq::empty(),
        bytes_downloaded: 0,
        bytes_uploaded: 0,
        last_activity: Seq::empty(),
        disconnected: Seq::empty(),
        owned: Seq::new(((total_pieces + 7) / 8) as nat, |i: int| 0u8),
    }
}

/// The model after a piece is verified: one more piece counted and our
/// bitfield now `owned`; nothing else changes.
pub open spec fn after_piece_verified(m: TorrentModel, owned: Seq<u8>) -> TorrentModel {
    TorrentModel { pieces_verified: (m.pieces_verified + 1) as usize, owned, ..m }
}

/// Starting from a fresh torrent, after `k` verified pieces (each a step of
/// `on_piece_manager_event`) the count is `k`, so the download is complete
/// (`is_download_complete`) exactly when `k` reaches the number of pieces.
pub proof fn law_download_completes_after_every_piece(
    file_name: Seq<char>,
    total_pieces: usize,
    steps: Seq<TorrentModel>,
)
    requires
        steps.len() >= 1,
        steps.len() <= usize::MAX,
        steps[0] == fresh_model(file_name, total_pieces),
        forall|j: int|
            0 <= j < steps.len() - 1 ==> #[trigger] steps[j + 1] == after_piece_verified(
                steps[j],
                steps[j + 1].owned,
            ),
    ensures
        steps.last().pieces_verified == steps.len() - 1,
        steps.last().total_pieces == total_pieces,
        (steps.last().pieces_verified >= steps.last().total_pieces) <==> steps.len() - 1
            >= total_pieces,
    decreases steps.len(),
{
    if steps.len() > 1 {
        let prev = steps.drop_last();
        assert forall|j: int| 0 <= j < prev.len() - 1 implies #[trigger] prev[j + 1]
            == after_piece_verified(prev[j], prev[j + 1].owned) by {
            assert(steps[j + 1] == after_piece_verified(steps[j], steps[j + 1].owned));
        }
        law_download_completes_after_every_piece(file_name, total_pieces, prev);
        let j = steps.len() - 2;
        assert(steps[j + 1] == after_piece_verified(steps[j], steps[j + 1].owned));
    }
}

/// The length in bytes of a bitfield for `total_pieces` pieces.
pub fn master_bitfield_len(total_pieces: usize) -> (r: usize)
    requires
        total_pieces <= MAX_TOTAL_PIECES,
    ensures
        r == (total_pieces + 7) / 8,
{
    (total_pieces + 7) / 8
}

fn saturating_elapsed(now: u64, then: u64) -> (r: u64)
    ensures
        r == elapsed(now, then),
{
    if now >= then {
        now - then
    } else {
        0
    }
}

impl TorrentState {
    pub closed spec fn well_formed(&self) -> bool {
        &&& self.peer_states.well_formed()
        &&& self.peer_last_activity.well_formed()
        &&& self.disconnected_peers.well_formed()
    }

    /// A torrent of `total_pieces` pieces with nothing verified and no
    /// peers.
    pub fn new(file_name: String, total_pieces: usize) -> (r: Self)
        requires
            total_pieces <= MAX_TOTAL_PIECES,
        ensures
            r.well_formed(),
            r@ == fresh_model(file_name@, total_pieces),
    {
        let n = master_bitfield_len(total_pieces);
        let mut bits: Vec<u8> = Vec::new();
        let mut i: usize = 0;
        while i < n
            invariant
                i <= n,
                bits@ == Seq::new(i as nat, |k: int| 0u8),
            decreases n - i,
        {
            bits.push(0);
            assert(bits@ =~= Seq::new((i + 1) as nat, |k: int| 0u8));
            i = i + 1;
        }
        TorrentState {
            file_name,
            total_pieces,
            pieces_verified: 0,
            peer_states: PeerTable::new(),
            bytes_downloaded_in_tick: 0,
            bytes_uploaded_in_tick: 0,
            peer_last_activity: PeerTable::new(),
            disconnected_peers: PeerTable::new(),
            our_bitfield: Bitfield { bits },
        }
    }

    /// Our bitfield: one bit per piece, set once the piece is verified.
    pub fn our_bitfield(&self) -> (r: &Bitfield)
        ensures
            r.bits@ == self@.owned,
    {
        &self.our_bitfield
    }

    /// Whether every piece has been verified.
    pub fn is_download_complete(&self) -> (r: bool)
        ensures
            r == (self@.pieces_verified >= self@.total_pieces),
    {
        self.pieces_verified >= self.total_pieces
    }

    /// How many peers are connected and how many are resting after a
    /// disconnection.
    pub fn peer_pool_status(&self) -> (r: (usize, usize))
        ensures
            r == (self@.peer_states.len() as usize, self@.disconnected.len() as usize),
    {
        (self.peer_states.len(), self.disconnected_peers.len())
    }

    /// Whether `on_peer_event` can take `event` (see
    /// `TorrentModel::takes_peer_event`).
    pub fn can_take_peer_event(&self, event: &PeerEvent) -> (r: bool)
        ensures
            r == self@.takes_peer_event(*event),
    {
        match event {
            PeerEvent::BytesDownloaded(c) => *c <= usize::MAX - self.bytes_downloaded_in_tick,
            PeerEvent::BytesUploaded(c) => *c <= usize::MAX - self.bytes_uploaded_in_tick,
            _ => true,
        }
    }

    /// Whether `on_piece_manager_event` can take `event` (see
    /// `TorrentModel::takes_piece_event`).
    pub fn can_take_piece_event(&self, event: &PieceManagerEvent) -> (r: bool)
        ensures
            r == self@.takes_piece_event(*event),
    {
        match event {
            PieceManagerEvent::PieceVerified { .. } => self.pieces_verified < usize::MAX,
            _ => true,
        }
    }

    fn update_peer_activity(&mut self, peer_id: String, now: u64)
        requires
            old(self).well_formed(),
        ensures
            final(self).well_formed(),
            final(self)@ == old(self)@.touched(peer_id@, now),
    {
        self.peer_last_activity.insert(peer_id, now);
        assert(self@ =~= old(self)@.touched(peer_id@, now));
    }

    fn drop_peer(&mut self, peer_id: String, now: u64)
        requires
            old(self).well_formed(),
        ensures
            final(self).well_formed(),
            final(self)@ == old(self)@.dropped(peer_id@, now),
    {
        self.peer_states.remove(&peer_id);
        self.peer_last_activity.remove(&peer_id);
        self.disconnected_peers.insert(peer_id, now);
        assert(self@ =~= old(self)@.dropped(peer_id@, now));
    }

    /// Acts on an event that the session of `peer_id` reported at `now`. An
    /// unchoke makes the peer known and asks for a block for it; a
    /// downloaded block asks for the next one; a choke marks the peer choked
    /// and tells the piece manager; a request from the peer goes to the disk;
    /// byte counts are added up; a disconnection forgets the peer, remembers
    /// when it went, and tells the piece manager. Every event but a
    /// disconnection or a bitfield counts as activity of `peer_id`.
    pub fn on_peer_event(&mut self, peer_id: String, event: PeerEvent, now: u64) -> (r: Vec<
        TorrentAction,
    >)
        requires
            old(self).well_formed(),
            old(self)@.takes_peer_event(event),
        ensures
            final(self).well_formed(),
            match event {
                PeerEvent::Unchoked => {
                    let s = if slot_of(old(self)@.peer_states, peer_id@) is None {
                        TorrentModel {
                            peer_states: table_insert(
                                old(self)@.peer_states,
                                peer_id@,
                                PeerState { is_choked: true, in_flight_requests: 0 },
                            ),
                            ..old(self)@
                        }
                    } else {
                        old(self)@
                    };
                    &&& final(self)@ == s.touched(peer_id@, now)
                    &&& r@.len() == 1
                    &&& r@[0] == TorrentAction::ToPieceManager(
                        PieceManagerMessage::FindPieceToDownload { peer_id },
                    )
                },
                PeerEvent::BlockDownloaded => {
                    &&& final(self)@ == old(self)@.touched(peer_id@, now)
                    &&& r@.len() == 1
                    &&& r@[0] == TorrentAction::ToPieceManager(
                        PieceManagerMessage::FindPieceToDownload { peer_id },
                    )
                },
                PeerEvent::Choked => {
                    let s = match table_get(old(self)@.peer_states, peer_id@) {
                        Some(st) => TorrentModel {
                            peer_states: table_insert(
                                old(self)@.peer_states,
                                peer_id@,
                                PeerState { is_choked: true, ..st },
                            ),
                            ..old(self)@
                        },
                        None => old(self)@,
                    };
                    &&& final(self)@ == s.touched(peer_id@, now)
                    &&& r@.len() == 1
                    &&& r@[0] == TorrentAction::ToPieceManager(
                        PieceManagerMessage::PeerChoked { peer_id },
                    )
                },
                PeerEvent::BlockRequested { piece_index, block_begin, block_length } => {
                    &&& final(self)@ == old(self)@.touched(peer_id@, now)
                    &&& r@.len() == 1
                    &&& r@[0] == TorrentAction::ToDisk(
                        DiskMessage::ReadBlock { peer_id, piece_index, block_begin, block_length },
                    )
                },
                PeerEvent::BytesDownloaded(count) => {
                    &&& final(self)@ == TorrentModel {
                        bytes_downloaded: (old(self)@.bytes_downloaded + count) as usize,
                        ..old(self)@.touched(peer_id@, now)
                    }
                    &&& r@.len() == 0
                },
                PeerEvent::BytesUploaded(count) => {
                    &&& final(self)@ == TorrentModel {
                        bytes_uploaded: (old(self)@.bytes_uploaded + count) as usize,
                        ..old(self)@.touched(peer_id@, now)
                    }
                    &&& r@.len() == 0
                },
                PeerEvent::PeerDisconnected { peer_id: gone } => {
                    &&& final(self)@ == old(self)@.dropped(gone@, now)
                    &&& r@.len() == 1
                    &&& r@[0] == TorrentAction::ToPieceManager(
                        PieceManagerMessage::PeerDisconnected { peer_id: gone },
                    )
                },
                PeerEvent::BitfieldReceived(_) => final(self)@ == old(self)@ && r@.len() == 0,
            },
    {
        let mut actions: Vec<TorrentAction> = Vec::new();
        match event {
            PeerEvent::Unchoked => {
                if !self.peer_states.contains(&peer_id) {
                    self.peer_states.insert(peer_id.clone(), PeerState::default());
                }
                self.update_peer_activity(peer_id.clone(), now);
                actions.push(
                    TorrentAction::ToPieceManager(
                        PieceManagerMessage::FindPieceToDownload { peer_id },
                    ),
                );
            },
            PeerEvent::BlockDownloaded => {
                self.update_peer_activity(peer_id.clone(), now);
                actions.push(
                    TorrentAction::ToPieceManager(
                        PieceManagerMessage::FindPieceToDownload { peer_id },
                    ),
                );
            },
            PeerEvent::Choked => {
                match self.peer_states.get(&peer_id) {
                    Some(st) => {
                        self.peer_states.insert(
                            peer_id.clone(),
                            PeerState { is_choked: true, ..st },
                        );
                    },
                    None => {},
                }
                self.update_peer_activity(peer_id.clone(), now);
                actions.push(
                    TorrentAction::ToPieceManager(PieceManagerMessage::PeerChoked { peer_id }),
                );
            },
            PeerEvent::BlockRequested { piece_index, block_begin, block_length } => {
                self.update_peer_activity(peer_id.clone(), now);
                actions.push(
                    TorrentAction::ToDisk(
                        DiskMessage::ReadBlock { peer_id, piece_index, block_begin, block_length },
                    ),
                );
            },
            PeerEvent::BytesDownloaded(count) => {
                self.update_peer_activity(peer_id, now);
                self.bytes_downloaded_in_tick = self.bytes_downloaded_in_tick + count;
            },
            PeerEvent::BytesUploaded(count) => {
                self.update_peer_activity(peer_id, now);
                self.bytes_uploaded_in_tick = self.bytes_uploaded_in_tick + count;
            },
            PeerEvent::PeerDisconnected { peer_id: gone } => {
                self.drop_peer(gone.clone(), now);
                actions.push(
                    TorrentAction::ToPieceManager(
                        PieceManagerMessage::PeerDisconnected { peer_id: gone },
                    ),
                );
            },
            PeerEvent::BitfieldReceived(_) => {},
        }
        actions
    }

    /// Acts on a decision of the piece manager: a selected block is asked of
    /// its peer; a verified piece is counted, set in our bitfield (no other
    /// bit changes) and announced to every peer, once.
    pub fn on_piece_manager_event(&mut self, event: PieceManagerEvent) -> (r: Vec<TorrentAction>)
        requires
            old(self).well_formed(),
            old(self)@.takes_piece_event(event),
        ensures
            final(self).well_formed(),
            match event {
                PieceManagerEvent::BlockSelected {
                    peer_id,
                    piece_index,
                    block_begin,
                    block_length,
                } => {
                    &&& final(self)@ == old(self)@
                    &&& r@.len() == 1
                    &&& r@[0] == TorrentAction::ToPeer {
                        peer_id,
                        command: ControlMessage::RequestBlock {
                            piece_index,
                            block_begin,
                            block_length,
                        },
                    }
                },
                PieceManagerEvent::PieceVerified { piece_index, .. } => {
                    &&& final(self)@ == after_piece_verified(old(self)@, final(self)@.owned)
                    &&& final(self)@.owned.len() == old(self)@.owned.len()
                    &&& forall|j: int|
                        #![trigger has_piece_spec(final(self)@.owned, j)]
                        has_piece_spec(final(self)@.owned, j) == ((j == piece_index && piece_index
                            / 8 < old(self)@.owned.len()) || has_piece_spec(old(self)@.owned, j))
                    &&& r@.len() == 1
                    &&& r@[0] == TorrentAction::Broadcast(BroadcastMessage::Have(piece_index))
                },
            },
    {
        let mut actions: Vec<TorrentAction> = Vec::new();
        match event {
            PieceManagerEvent::BlockSelected { peer_id, piece_index, block_begin, block_length } => {
                actions.push(
                    TorrentAction::ToPeer {
                        peer_id,
                        command: ControlMessage::RequestBlock {
                            piece_index,
                            block_begin,
                            block_length,
                        },
                    },
                );
            },
            PieceManagerEvent::PieceVerified { piece_index, .. } => {
                self.pieces_verified = self.pieces_verified + 1;
                self.our_bitfield.set_piece(piece_index);
                actions.push(TorrentAction::Broadcast(BroadcastMessage::Have(piece_index)));
            },
        }
        actions
    }

    /// Acts on a block read from disk: it is sent to the peer that asked.
    pub fn on_disk_event(&self, event: DiskEvent) -> (r: Vec<TorrentAction>)
        ensures
            match event {
                DiskEvent::BlockRead { peer_id, piece_index, block_begin, block_data } => {
                    &&& r@.len() == 1
                    &&& r@[0] == TorrentAction::ToPeer {
                        peer_id,
                        command: ControlMessage::SendBlock { piece_index, block_begin, block_data },
                    }
                },
            },
    {
        let mut actions: Vec<TorrentAction> = Vec::new();
        match event {
            DiskEvent::BlockRead { peer_id, piece_index, block_begin, block_data } => {
                actions.push(
                    TorrentAction::ToPeer {
                        peer_id,
                        command: ControlMessage::SendBlock { piece_index, block_begin, block_data },
                    },
                );
            },
        }
        actions
    }

    /// The dashboard counters for this tick; the byte counters start again
    /// from zero.
    pub fn gather_stats(&mut self, connected_peers: usize) -> (r: DownloadCounts)
        requires
            old(self).well_formed(),
        ensures
            final(self).well_formed(),
            final(self)@ == (TorrentModel { bytes_downloaded: 0, bytes_uploaded: 0, ..old(self)@ }),
            r.file_name@ == old(self)@.file_name,
            r.pieces_verified == old(self)@.pieces_verified,
            r.total_pieces == old(self)@.total_pieces,
            r.connected_peers == connected_peers,
            r.bytes_downloaded == old(self)@.bytes_downloaded,
            r.bytes_uploaded == old(self)@.bytes_uploaded,
    {
        let stats = DownloadCounts {
            file_name: self.file_name.clone(),
            pieces_verified: self.pieces_verified,
            total_pieces: self.total_pieces,
            connected_peers,
            bytes_downloaded: self.bytes_downloaded_in_tick,
            bytes_uploaded: self.bytes_uploaded_in_tick,
        };
        self.bytes_downloaded_in_tick = 0;
        self.bytes_uploaded_in_tick = 0;
        stats
    }

    /// Asks for one more block for a known, unchoked peer with fewer than
    /// `MAX_PIPELINED_REQUESTS` requests outstanding, and counts the request.
    pub fn request_next_blocks_for_peer(&mut self, peer_id: &String) -> (r: Vec<TorrentAction>)
        requires
            old(self).well_formed(),
        ensures
            final(self).well_formed(),
            match table_get(old(self)@.peer_states, peer_id@) {
                Some(st) => if !st.is_choked && st.in_flight_requests < MAX_PIPELINED_REQUESTS {
                    &&& final(self)@ == (TorrentModel {
                        peer_states: table_insert(
                            old(self)@.peer_states,
                            peer_id@,
                            (PeerState { in_flight_requests: (st.in_flight_requests + 1) as usize, ..st }),
                        ),
                        ..old(self)@
                    })
                    &&& r@.len() == 1
                    &&& r@[0] == TorrentAction::ToPieceManager(
                        PieceManagerMessage::FindPieceToDownload { peer_id: *peer_id },
                    )
                } else {
                    final(self)@ == old(self)@ && r@.len() == 0
                },
                None => final(self)@ == old(self)@ && r@.len() == 0,
            },
    {
        let mut actions: Vec<TorrentAction> = Vec::new();
        match self.peer_states.get(peer_id) {
            Some(st) => {
                if !st.is_choked && st.in_flight_requests < MAX_PIPELINED_REQUESTS {
                    actions.push(
                        TorrentAction::ToPieceManager(
                            PieceManagerMessage::FindPieceToDownload { peer_id: peer_id.clone() },
                        ),
                    );
                    self.peer_states.insert(
                        peer_id.clone(),
                        PeerState { in_flight_requests: st.in_flight_requests + 1, ..st },
                    );
                    assert(self@ =~= TorrentModel {
                        peer_states: table_insert(
                            old(self)@.peer_states,
                            peer_id@,
                            PeerState { in_flight_requests: (st.in_flight_requests + 1) as usize, ..st },
                        ),
                        ..old(self)@
                    });
                }
            },
            None => {},
        }
        actions
    }

    /// The peers that `check_peer_health` takes as stuck at `now`.
    fn stuck_peer_ids(&self, now: u64) -> (r: Vec<String>)
        requires
            self.well_formed(),
        ensures
            ids_of(r@) == stuck_peers(self@.last_activity, self@.peer_states, now),
    {
        let ghost act = self@.last_activity;
        let ghost states = self@.peer_states;
        let mut out: Vec<String> = Vec::new();
        let mut i: usize = 0;
        while i < self.peer_last_activity.len()
            invariant
                self.well_formed(),
                act == self@.last_activity,
                states == self@.peer_states,
                i <= act.len(),
                ids_of(out@) == stuck_peers(act.take(i as int), states, now),
            decreases act.len() - i,
        {
            let (id, last) = self.peer_last_activity.entry(i);
            proof {
                assert(act.take(i + 1).drop_last() =~= act.take(i as int));
                assert(act.take(i + 1).last() == act[i as int]);
            }
            if saturating_elapsed(now, last) > PEER_TIMEOUT_NANOS {
                match self.peer_states.get(id) {
                    Some(st) => {
                        if st.in_flight_requests > 0 {
                            let ghost before = out@;
                            out.push(id.clone());
                            assert(ids_of(out@) =~= ids_of(before).push(id@));
                        }
                    },
                    None => {},
                }
            }
            i = i + 1;
        }
        assert(act.take(act.len() as int) =~= act);
        out
    }

    /// Drops every connected peer that has requests outstanding and has been
    /// silent for longer than `PEER_TIMEOUT_NANOS` at `now`: it is forgotten,
    /// remembered as gone at `now`, and the piece manager is told.
    pub fn check_peer_health(&mut self, now: u64) -> (r: Vec<TorrentAction>)
        requires
            old(self).well_formed(),
        ensures
            final(self).well_formed(),
            final(self)@ == old(self)@.dropped_all(
                stuck_peers(old(self)@.last_activity, old(self)@.peer_states, now),
                now,
            ),
            disconnect_notices(
                r@,
                stuck_peers(old(self)@.last_activity, old(self)@.peer_states, now),
            ),
    {
        let ghost start = self@;
        let stuck = self.stuck_peer_ids(now);
        let ghost ids = ids_of(stuck@);
        let mut actions: Vec<TorrentAction> = Vec::new();
        let mut k: usize = 0;
        while k < stuck.len()
            invariant
                self.well_formed(),
                k <= stuck@.len(),
                ids == ids_of(stuck@),
                self@ == start.dropped_all(ids.take(k as int), now),
                disconnect_notices(actions@, ids.take(k as int)),
            decreases stuck.len() - k,
        {
            let id = stuck[k].clone();
            self.drop_peer(id.clone(), now);
            actions.push(
                TorrentAction::ToPieceManager(PieceManagerMessage::PeerDisconnected { peer_id: id }),
            );
            proof {
                assert(ids.take(k + 1).drop_last() =~= ids.take(k as int));
                assert(ids.take(k + 1).last() == ids[k as int]);
            }
            k = k + 1;
        }
        assert(ids.take(ids.len() as int) =~= ids);
        actions
    }

    /// Forgets, as gone, every peer that has rested longer than
    /// `RECONNECT_DELAY_NANOS` at `now`, so that it may be tried again, and
    /// gives those peers.
    pub fn try_reconnect_disconnected_peers(&mut self, now: u64) -> (r: Vec<String>)
        requires
            old(self).well_formed(),
        ensures
            final(self).well_formed(),
            ids_of(r@) == rested_peers(old(self)@.disconnected, now),
            final(self)@ == (TorrentModel {
                disconnected: remove_all(
                    old(self)@.disconnected,
                    rested_peers(old(self)@.disconnected, now),
                ),
                ..old(self)@
            }),
    {
        let ghost start = self@;
        let ghost d = start.disconnected;
        let mut rested: Vec<String> = Vec::new();
        let mut i: usize = 0;
        while i < self.disconnected_peers.len()
            invariant
                self.well_formed(),
                self@ == start,
                d == self@.disconnected,
                i <= d.len(),
                ids_of(rested@) == rested_peers(d.take(i as int), now),
            decreases d.len() - i,
        {
            let (id, when) = self.disconnected_peers.entry(i);
            proof {
                assert(d.take(i + 1).drop_last() =~= d.take(i as int));
                assert(d.take(i + 1).last() == d[i as int]);
            }
            if saturating_elapsed(now, when) > RECONNECT_DELAY_NANOS {
                let ghost before = rested@;
                rested.push(id.clone());
                assert(ids_of(rested@) =~= ids_of(before).push(id@));
            }
            i = i + 1;
        }
        assert(d.take(d.len() as int) =~= d);
        let ghost ids = ids_of(rested@);
        let mut k: usize = 0;
        while k < rested.len()
            invariant
                self.well_formed(),
                k <= rested@.len(),
                ids == ids_of(rested@),
                self@ == (TorrentModel { disconnected: remove_all(d, ids.take(k as int)), ..start }),
            decreases rested.len() - k,
        {
            self.disconnected_peers.remove(&rested[k]);
            proof {
                assert(ids.take(k + 1).drop_last() =~= ids.take(k as int));
                assert(ids.take(k + 1).last() == ids[k as int]);
            }
            assert(self@ =~= (TorrentModel {
                disconnected: remove_all(d, ids.take(k + 1)),
                ..start
            }));
            k = k + 1;
        }
        assert(ids.take(ids.len() as int) =~= ids);
        rested
    }

    /// Goes through the peers a tracker listed at `now` and gives those worth
    /// a connection: a peer that went away less than `RECONNECT_DELAY_NANOS`
    /// ago is skipped; one that went away longer ago is forgotten as gone and
    /// kept; any other is kept.
    pub fn consider_tracker_peers(&mut self, peer_ids: Vec<String>, now: u64) -> (r: Vec<String>)
        requires
            old(self).well_formed(),
        ensures
            final(self).well_formed(),
            ids_of(r@) == refresh_fold(old(self)@.disconnected, ids_of(peer_ids@), now).1,
            final(self)@ == (TorrentModel {
                disconnected: refresh_fold(old(self)@.disconnected, ids_of(peer_ids@), now).0,
                ..old(self)@
            }),
    {
        let ghost start = self@;
        let ghost ids = ids_of(peer_ids@);
        let mut kept: Vec<String> = Vec::new();
        let mut k: usize = 0;
        while k < peer_ids.len()
            invariant
                self.well_formed(),
                k <= peer_ids@.len(),
                ids == ids_of(peer_ids@),
                self@ == (TorrentModel {
                    disconnected: refresh_fold(start.disconnected, ids.take(k as int), now).0,
                    ..start
                }),
                ids_of(kept@) == refresh_fold(start.disconnected, ids.take(k as int), now).1,
            decreases peer_ids.len() - k,
        {
            proof {
                assert(ids.take(k + 1).drop_last() =~= ids.take(k as int));
                assert(ids.take(k + 1).last() == ids[k as int]);
            }
            let id = &peer_ids[k];
            let ghost before = kept@;
            match self.disconnected_peers.get(id) {
                Some(when) => {
                    if saturating_elapsed(now, when) < RECONNECT_DELAY_NANOS {
                    } else {
                        self.disconnected_peers.remove(id);
                        kept.push(id.clone());
                        assert(ids_of(kept@) =~= ids_of(before).push(id@));
                    }
                },
                None => {
                    kept.push(id.clone());
                    assert(ids_of(kept@) =~= ids_of(before).push(id@));
                },
            }
            assert(self@ =~= (TorrentModel {
                disconnected: refresh_fold(start.disconnected, ids.take(k + 1), now).0,
                ..start
            }));
            k = k + 1;
        }
        assert(ids.take(ids.len() as int) =~= ids);
        kept
    }
}

} // verus!
