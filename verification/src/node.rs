//! The node core: per-session state, the duplicate-suppression table
//! with time decay, the per-iteration buffers, and the message pump.
//! Every state change is pinned to a spec-level transition on the
//! node's mathematical model, so that the overlay's invariants can be
//! stated and proved once and read off by every caller.

use vstd::prelude::*;
use vstd::pervasive::VecAdditionalExecFns;
use crate::types::{GossipId, PeerAddress, addr_in, bytes_eq, copy_bytes, GOSSIP_LEN};
use crate::codec::{
    PEER_LIST_MAX, check_magic, lemma_peer_list_round_trip, magic_bytes_spec,
    parse_peer_list_body, peer_list_frame, spec_parse_peer_list_body, spec_peer_list_frame,
};

verus! {

/// How long an unconfirmed session may live, in milliseconds.
pub const PEER_CONFIRMATION_TIMEOUT_MS: u64 = 2000;

/// How long a seen gossip identifier is retained, in milliseconds.
pub const GOSSIP_DECAY_MS: u64 = 50000;

/// How often a peer is asked for its peer list, in milliseconds.
pub const ASK_FOR_PEERS_MS: u64 = 1000;

/// One live connection to a remote peer, as the node tracks it: the
/// listening address the remote advertised, the confirmation flag, and
/// the two per-session timers.
#[derive(Clone, Copy, Debug, PartialEq, Eq, Structural)]
pub struct Session {
    /// The listening endpoint the remote claims, learned in the
    /// handshake; never the ephemeral source port.
    pub advertised: PeerAddress,
    /// False on a dialed session until opcode 4 with a valid magic
    /// arrives; true from the start on an accepted session.
    pub confirmed: bool,
    /// When the session was created, in clock milliseconds.
    pub created_at: u64,
    /// When the node last sent this peer a peer-list request.
    pub last_peer_request: u64,
}

/// One row of the duplicate-suppression table: an identifier and the
/// instant it was first seen.
#[derive(Debug)]
pub struct SeenEntry {
    pub id: GossipId,
    pub at: u64,
}

/// The mathematical model of a node: what every contract speaks about.
#[verifier::ext_equal]
pub ghost struct NodeModel {
    pub self_addr: PeerAddress,
    pub period_ms: u64,
    pub sessions: Seq<Session>,
    pub seen: Seq<(Seq<u8>, u64)>,
    pub pending: Seq<Seq<u8>>,
    pub known: Seq<PeerAddress>,
    pub fresh: Seq<PeerAddress>,
    pub awareness: Seq<Seq<u8>>,
    pub awareness_on: bool,
    pub last_self_gossip: u64,
}

/// A gossip overlay node: its sessions, its duplicate-suppression
/// table, the per-iteration buffers, and the optional awareness log.
/// All I/O stays with the caller; the node only decides.
pub struct Node {
    pub self_addr: PeerAddress,
    pub period_ms: u64,
    pub sessions: Vec<Session>,
    pub seen: Vec<SeenEntry>,
    pub pending: Vec<GossipId>,
    pub known: Vec<PeerAddress>,
    pub fresh: Vec<PeerAddress>,
    pub awareness: Vec<GossipId>,
    pub awareness_on: bool,
    pub last_self_gossip: u64,
}

impl View for Node {
    type V = NodeModel;

    open spec fn view(&self) -> NodeModel {
        NodeModel {
            self_addr: self.self_addr,
            period_ms: self.period_ms,
            sessions: self.sessions@,
            seen: self.seen@.map_values(|e: SeenEntry| (e.id@, e.at)),
            pending: self.pending@.map_values(|g: GossipId| g@),
            known: self.known@,
            fresh: self.fresh@,
            awareness: self.awareness@.map_values(|g: GossipId| g@),
            awareness_on: self.awareness_on,
            last_self_gossip: self.last_self_gossip,
        }
    }
}

/// Whether the table holds `id`.
pub open spec fn seen_has(seen: Seq<(Seq<u8>, u64)>, id: Seq<u8>) -> bool {
    exists|i: int| 0 <= i < seen.len() && seen[i].0 == id
}

/// The node's invariant: table identifiers are distinct (first seen
/// wins) and of full width, the broadcast queue holds no duplicates
/// and only identifiers the table knows, and no dial target is ever
/// the node's own address.
pub open spec fn model_wf(m: NodeModel) -> bool {
    &&& forall|i: int, j: int|
        0 <= i < j < m.seen.len() ==> m.seen[i].0 != m.seen[j].0
    &&& forall|i: int| 0 <= i < m.seen.len() ==> (#[trigger] m.seen[i]).0.len() == GOSSIP_LEN
    &&& forall|i: int, j: int|
        0 <= i < j < m.pending.len() ==> m.pending[i] != m.pending[j]
    &&& forall|i: int|
        0 <= i < m.pending.len() ==> seen_has(m.seen, #[trigger] m.pending[i])
    &&& forall|i: int| 0 <= i < m.pending.len() ==> (#[trigger] m.pending[i]).len() == GOSSIP_LEN
    &&& forall|i: int| 0 <= i < m.fresh.len() ==> #[trigger] m.fresh[i] != m.self_addr
}

/// All instants the node has recorded lie at or before `now`: what a
/// monotonic clock guarantees between calls.
pub open spec fn time_le(m: NodeModel, now: u64) -> bool {
    &&& forall|i: int|
        0 <= i < m.sessions.len() ==> (#[trigger] m.sessions[i]).created_at <= now
            && m.sessions[i].last_peer_request <= now
    &&& forall|i: int| 0 <= i < m.seen.len() ==> (#[trigger] m.seen[i]).1 <= now
    &&& m.last_self_gossip <= now
}

/// A session is live at `now` when it is confirmed or still inside the
/// confirmation window.
pub open spec fn session_live(s: Session, now: u64) -> bool {
    s.confirmed || now - s.created_at <= PEER_CONFIRMATION_TIMEOUT_MS
}

/// The sessions that survive the unconfirmed-timeout sweep, in order.
pub open spec fn live_sessions(s: Seq<Session>, now: u64) -> Seq<Session>
    decreases s.len(),
{
    if s.len() == 0 {
        s
    } else {
        let rest = live_sessions(s.drop_last(), now);
        if session_live(s.last(), now) {
            rest.push(s.last())
        } else {
            rest
        }
    }
}

/// The indices (ascending, into the unswept sequence) of the sessions
/// that the sweep removes.
pub open spec fn dropped_indices(s: Seq<Session>, now: u64) -> Seq<usize>
    decreases s.len(),
{
    if s.len() == 0 {
        Seq::empty()
    } else {
        let rest = dropped_indices(s.drop_last(), now);
        if session_live(s.last(), now) {
            rest
        } else {
            rest.push((s.len() - 1) as usize)
        }
    }
}

/// The table rows that survive decay at `now`, in order.
pub open spec fn young_entries(seen: Seq<(Seq<u8>, u64)>, now: u64) -> Seq<(Seq<u8>, u64)>
    decreases seen.len(),
{
    if seen.len() == 0 {
        seen
    } else {
        let rest = young_entries(seen.drop_last(), now);
        if now - seen.last().1 <= GOSSIP_DECAY_MS {
            rest.push(seen.last())
        } else {
            rest
        }
    }
}

/// Adding a session leaves everything else as it was.
pub open spec fn add_session_step(
    m: NodeModel,
    advertised: PeerAddress,
    confirmed: bool,
    now: u64,
) -> NodeModel {
    NodeModel {
        sessions: m.sessions.push(
            Session { advertised, confirmed, created_at: now, last_peer_request: now },
        ),
        ..m
    }
}

/// Removing the session at `i` leaves everything else as it was.
pub open spec fn drop_session_step(m: NodeModel, i: int) -> NodeModel {
    NodeModel { sessions: m.sessions.remove(i), ..m }
}

/// Confirming the session at `i` flips its flag and nothing else.
pub open spec fn confirm_step(m: NodeModel, i: int) -> NodeModel {
    NodeModel {
        sessions: m.sessions.update(i, Session { confirmed: true, ..m.sessions[i] }),
        ..m
    }
}

/// Receiving identifier `id` at `now`: a duplicate changes nothing; a
/// fresh identifier enters the table, the broadcast queue, and (when
/// the log is on) the awareness log.
pub open spec fn gossip_step(m: NodeModel, id: Seq<u8>, now: u64) -> NodeModel {
    if seen_has(m.seen, id) {
        m
    } else {
        NodeModel {
            seen: m.seen.push((id, now)),
            pending: m.pending.push(id),
            awareness: if m.awareness_on {
                m.awareness.push(id)
            } else {
                m.awareness
            },
            ..m
        }
    }
}

/// One learned address: enqueued for dialing only when it is new and
/// is not the node's own address.
pub open spec fn absorb_one(m: NodeModel, a: PeerAddress) -> NodeModel {
    if m.known.contains(a) || a == m.self_addr {
        m
    } else {
        NodeModel { known: m.known.push(a), fresh: m.fresh.push(a), ..m }
    }
}

/// All addresses of a peer-list response, absorbed left to right.
pub open spec fn absorb_step(m: NodeModel, addrs: Seq<PeerAddress>) -> NodeModel
    decreases addrs.len(),
{
    if addrs.len() == 0 {
        m
    } else {
        absorb_step(absorb_one(m, addrs[0]), addrs.drop_first())
    }
}

/// Decay: only the rows younger than the decay window remain.
pub open spec fn decay_step(m: NodeModel, now: u64) -> NodeModel {
    NodeModel { seen: young_entries(m.seen, now), ..m }
}

/// The unconfirmed-timeout sweep: only live sessions remain.
pub open spec fn sweep_step(m: NodeModel, now: u64) -> NodeModel {
    NodeModel { sessions: live_sessions(m.sessions, now), ..m }
}

/// Start of an iteration: the known-address snapshot is taken from the
/// current sessions and the learned-address buffer is cleared.
pub open spec fn snapshot_step(m: NodeModel) -> NodeModel {
    NodeModel {
        known: m.sessions.map_values(|s: Session| s.advertised),
        fresh: Seq::empty(),
        ..m
    }
}

/// Self-origination at `now`: the identifier is recorded exactly as a
/// received fresh gossip would be, and the origination timer resets.
pub open spec fn originate_step(m: NodeModel, id: Seq<u8>, now: u64) -> NodeModel {
    NodeModel { last_self_gossip: now, ..gossip_step(m, id, now) }
}

/// Resetting the peer-list-request timer of the session at `i`.
pub open spec fn mark_request_step(m: NodeModel, i: int, now: u64) -> NodeModel {
    NodeModel {
        sessions: m.sessions.update(i, Session { last_peer_request: now, ..m.sessions[i] }),
        ..m
    }
}

impl Node {
    /// The node's invariant, on its model.
    pub open spec fn wf(&self) -> bool {
        model_wf(self@)
    }

    /// A fresh node: no sessions, an empty table, empty buffers, the
    /// origination timer set to `now`.
    pub fn new(self_addr: PeerAddress, period_ms: u64, awareness_on: bool, now: u64) -> (r: Node)
        ensures
            r@.self_addr == self_addr,
            r@.period_ms == period_ms,
            r@.awareness_on == awareness_on,
            r@.sessions == Seq::<Session>::empty(),
            r@.seen == Seq::<(Seq<u8>, u64)>::empty(),
            r@.pending == Seq::<Seq<u8>>::empty(),
            r@.known == Seq::<PeerAddress>::empty(),
            r@.fresh == Seq::<PeerAddress>::empty(),
            r@.awareness == Seq::<Seq<u8>>::empty(),
            r@.last_self_gossip == now,
            r.wf(),
            time_le(r@, now),
    {
        let r = Node {
            self_addr,
            period_ms,
            sessions: Vec::new(),
            seen: Vec::new(),
            pending: Vec::new(),
            known: Vec::new(),
            fresh: Vec::new(),
            awareness: Vec::new(),
            awareness_on,
            last_self_gossip: now,
        };
        proof {
            assert(r.seen@.map_values(|e: SeenEntry| (e.id@, e.at)) =~= Seq::<(
                Seq<u8>,
                u64,
            )>::empty());
            assert(r.pending@.map_values(|g: GossipId| g@) =~= Seq::<Seq<u8>>::empty());
            assert(r.awareness@.map_values(|g: GossipId| g@) =~= Seq::<Seq<u8>>::empty());
        }
        r
    }

    /// Registers a session accepted by the listener: the acceptor has
    /// already verified the magic, so it starts confirmed.
    pub fn register_accepted(&mut self, advertised: PeerAddress, now: u64)
        requires
            old(self).wf(),
            time_le(old(self)@, now),
        ensures
            final(self)@ == add_session_step(old(self)@, advertised, true, now),
            final(self).wf(),
            time_le(final(self)@, now),
    {
        self.push_session(advertised, true, now);
    }

    /// Registers a dialed session: it stays unconfirmed until opcode 4
    /// with a valid magic arrives through the pump.
    pub fn register_dialed(&mut self, advertised: PeerAddress, now: u64)
        requires
            old(self).wf(),
            time_le(old(self)@, now),
        ensures
            final(self)@ == add_session_step(old(self)@, advertised, false, now),
            final(self).wf(),
            time_le(final(self)@, now),
    {
        self.push_session(advertised, false, now);
    }

    fn push_session(&mut self, advertised: PeerAddress, confirmed: bool, now: u64)
        requires
            old(self).wf(),
            time_le(old(self)@, now),
        ensures
            final(self)@ == add_session_step(old(self)@, advertised, confirmed, now),
            final(self).wf(),
            time_le(final(self)@, now),
    {
        self.sessions.push(
            Session { advertised, confirmed, created_at: now, last_peer_request: now },
        );
        proof {
            assert(self@ =~= add_session_step(old(self)@, advertised, confirmed, now));
        }
    }

    /// Removes the session at `idx`; the caller drops the matching
    /// connection.
    pub fn remove_session(&mut self, idx: usize)
        requires
            old(self).wf(),
            idx < old(self)@.sessions.len(),
        ensures
            final(self)@ == drop_session_step(old(self)@, idx as int),
            final(self).wf(),
    {
        self.sessions.remove(idx);
        proof {
            assert(self@ =~= drop_session_step(old(self)@, idx as int));
        }
    }

    /// How many sessions the node holds.
    pub fn session_count(&self) -> (r: usize)
        ensures
            r == self@.sessions.len(),
    {
        self.sessions.len()
    }

    /// Whether the session at `idx` is confirmed.
    pub fn is_confirmed(&self, idx: usize) -> (r: bool)
        requires
            idx < self@.sessions.len(),
        ensures
            r == self@.sessions[idx as int].confirmed,
    {
        self.sessions[idx].confirmed
    }

    /// The address the session at `idx` advertised.
    pub fn advertised_of(&self, idx: usize) -> (r: PeerAddress)
        requires
            idx < self@.sessions.len(),
        ensures
            r == self@.sessions[idx as int].advertised,
    {
        self.sessions[idx].advertised
    }

    /// The node's own listening address.
    pub fn self_addr(&self) -> (r: PeerAddress)
        ensures
            r == self@.self_addr,
    {
        self.self_addr
    }

    /// The awareness log as recorded so far.
    pub fn awareness_log(&self) -> (r: &Vec<GossipId>)
        ensures
            r@.map_values(|g: GossipId| g@) == self@.awareness,
    {
        &self.awareness
    }

    /// Whether the table currently holds `id`.
    pub fn knows(&self, id: &GossipId) -> (r: bool)
        ensures
            r == seen_has(self@.seen, id@),
    {
        self.seen_contains(id.bytes())
    }

    /// Whether the table holds the identifier written in `bytes`.
    fn seen_contains(&self, bytes: &Vec<u8>) -> (r: bool)
        ensures
            r == seen_has(self@.seen, bytes@),
    {
        let mut i: usize = 0;
        while i < self.seen.len()
            invariant
                i <= self.seen@.len(),
                forall|j: int| 0 <= j < i ==> self@.seen[j].0 != bytes@,
            decreases self.seen@.len() - i,
        {
            if bytes_eq(self.seen[i].id.bytes(), bytes) {
                proof {
                    assert(self@.seen[i as int].0 == bytes@);
                }
                return true;
            }
            i = i + 1;
        }
        false
    }

    /// Drops every table row older than the decay window. Runs between
    /// the broadcast of one iteration and the pump of the next, so the
    /// broadcast queue is empty.
    pub fn decay_seen(&mut self, now: u64)
        requires
            old(self).wf(),
            time_le(old(self)@, now),
            old(self)@.pending.len() == 0,
        ensures
            final(self)@ == decay_step(old(self)@, now),
            final(self).wf(),
            time_le(final(self)@, now),
            forall|i: int|
                0 <= i < final(self)@.seen.len() ==> now - (#[trigger] final(self)@.seen[i]).1
                    <= GOSSIP_DECAY_MS,
    {
        let ghost m0 = self@;
        let mut kept: Vec<SeenEntry> = Vec::new();
        let mut i: usize = 0;
        while i < self.seen.len()
            invariant
                i <= self.seen@.len(),
                self@ == m0,
                kept@.map_values(|e: SeenEntry| (e.id@, e.at)) == young_entries(
                    m0.seen.take(i as int),
                    now,
                ),
                time_le(m0, now),
            decreases self.seen@.len() - i,
        {
            let ghost prefix = m0.seen.take(i as int);
            let e = &self.seen[i];
            proof {
                assert(m0.seen[i as int] == (self.seen@[i as int].id@, self.seen@[i as int].at));
                assert(m0.seen[i as int].1 <= now);
            }
            if now - e.at <= GOSSIP_DECAY_MS {
                let keep = SeenEntry { id: self.seen[i].id.clone(), at: self.seen[i].at };
                kept.push(keep);
            }
            proof {
                assert(m0.seen.take(i as int + 1).drop_last() =~= prefix);
                assert(m0.seen.take(i as int + 1).last() == m0.seen[i as int]);
                assert(kept@.map_values(|e: SeenEntry| (e.id@, e.at)) =~= young_entries(
                    m0.seen.take(i as int + 1),
                    now,
                ));
            }
            i = i + 1;
        }
        self.seen = kept;
        proof {
            assert(m0.seen.take(m0.seen.len() as int) =~= m0.seen);
            assert(self@ =~= decay_step(m0, now));
            lemma_young_entries_young(m0.seen, now);
            lemma_young_entries_sub(m0.seen, now);
            assert forall|i: int, j: int|
                0 <= i < j < self@.seen.len() implies self@.seen[i].0 != self@.seen[j].0 by {
                lemma_young_entries_distinct(m0.seen, now, i, j);
            }
        }
    }

    /// Removes every session that is past the confirmation window and
    /// still unconfirmed, returning their indices (ascending, into the
    /// sequence as it was) so the caller can drop the connections.
    pub fn sweep_expired(&mut self, now: u64) -> (removed: Vec<usize>)
        requires
            old(self).wf(),
            time_le(old(self)@, now),
        ensures
            final(self)@ == sweep_step(old(self)@, now),
            removed@ == dropped_indices(old(self)@.sessions, now),
            final(self).wf(),
            time_le(final(self)@, now),
            forall|i: int|
                0 <= i < final(self)@.sessions.len() ==> session_live(
                    #[trigger] final(self)@.sessions[i],
                    now,
                ),
    {
        let ghost s0 = self@.sessions;
        let mut kept: Vec<Session> = Vec::new();
        let mut removed: Vec<usize> = Vec::new();
        let mut i: usize = 0;
        while i < self.sessions.len()
            invariant
                i <= self.sessions@.len(),
                self@.sessions == s0,
                time_le(self@, now),
                kept@ == live_sessions(s0.take(i as int), now),
                removed@ == dropped_indices(s0.take(i as int), now),
            decreases self.sessions@.len() - i,
        {
            let ghost prefix = s0.take(i as int);
            let s = self.sessions[i];
            if s.confirmed || now - s.created_at <= PEER_CONFIRMATION_TIMEOUT_MS {
                kept.push(s);
            } else {
                removed.push(i);
            }
            proof {
                assert(s0.take(i as int + 1).drop_last() =~= prefix);
                assert(s0.take(i as int + 1).last() == s0[i as int]);
                assert(kept@ =~= live_sessions(s0.take(i as int + 1), now));
                assert(removed@ =~= dropped_indices(s0.take(i as int + 1), now));
            }
            i = i + 1;
        }
        self.sessions = kept;
        proof {
            assert(s0.take(s0.len() as int) =~= s0);
            assert(self@ =~= sweep_step(old(self)@, now));
            lemma_live_sessions_live(s0, now);
            lemma_live_sessions_sub(s0, now);
        }
        removed
    }
}

/// What the pump decided for one incoming frame: keep the session,
/// keep it and write a reply on its connection, or drop it.
pub enum FrameOutcome {
    Keep,
    Reply { bytes: Vec<u8> },
    Dropped,
}

/// The model-level counterpart of `FrameOutcome`.
pub ghost enum FrameEffect {
    Keep,
    Reply(Seq<u8>),
    Drop,
}

/// The whole pump decision for one frame on the session at `i`: the
/// next model and the effect. A non-confirmation frame on an
/// unconfirmed session, an unknown opcode, a violating peer list, a
/// wrong magic, or a malformed body all drop the session; everything
/// else acts as the protocol says.
pub open spec fn frame_step(m: NodeModel, i: int, opcode: u8, body: Seq<u8>, now: u64) -> (
    NodeModel,
    FrameEffect,
) {
    if !m.sessions[i].confirmed && opcode != 4 {
        (drop_session_step(m, i), FrameEffect::Drop)
    } else if opcode == 1 {
        if body.len() == GOSSIP_LEN {
            (gossip_step(m, body, now), FrameEffect::Keep)
        } else {
            (drop_session_step(m, i), FrameEffect::Drop)
        }
    } else if opcode == 2 {
        let n = if m.known.len() < PEER_LIST_MAX as int {
            m.known.len() as int
        } else {
            PEER_LIST_MAX as int
        };
        (m, FrameEffect::Reply(spec_peer_list_frame(m.known.take(n))))
    } else if opcode == 3 {
        match spec_parse_peer_list_body(body) {
            Some(addrs) => (absorb_step(m, addrs), FrameEffect::Keep),
            None => (drop_session_step(m, i), FrameEffect::Drop),
        }
    } else if opcode == 4 {
        if body == magic_bytes_spec() {
            (confirm_step(m, i), FrameEffect::Keep)
        } else {
            (drop_session_step(m, i), FrameEffect::Drop)
        }
    } else {
        (drop_session_step(m, i), FrameEffect::Drop)
    }
}

/// Absorbing one more address at the end of a list commutes with
/// absorbing the list first.
pub proof fn lemma_absorb_snoc(m: NodeModel, addrs: Seq<PeerAddress>, a: PeerAddress)
    ensures
        absorb_step(m, addrs.push(a)) == absorb_one(absorb_step(m, addrs), a),
    decreases addrs.len(),
{
    assert(addrs.push(a)[0] == if addrs.len() == 0 { a } else { addrs[0] });
    if addrs.len() == 0 {
        assert(addrs.push(a).drop_first() =~= Seq::<PeerAddress>::empty());
        assert(absorb_step(absorb_one(m, a), Seq::<PeerAddress>::empty()) == absorb_one(m, a));
        assert(absorb_step(m, addrs) == m);
    } else {
        lemma_absorb_snoc(absorb_one(m, addrs[0]), addrs.drop_first(), a);
        assert(addrs.push(a).drop_first() =~= addrs.drop_first().push(a));
    }
}

impl Node {
    /// Handles one complete frame read on the session at `idx`. The
    /// caller has read the opcode byte and the body it announces;
    /// everything the frame means to the node happens here.
    pub fn handle_frame(&mut self, idx: usize, opcode: u8, body: &Vec<u8>, now: u64) -> (r:
        FrameOutcome)
        requires
            old(self).wf(),
            time_le(old(self)@, now),
            idx < old(self)@.sessions.len(),
        ensures
            final(self).wf(),
            time_le(final(self)@, now),
            ({
                let sr = frame_step(old(self)@, idx as int, opcode, body@, now);
                &&& final(self)@ == sr.0
                &&& (r is Keep <==> sr.1 is Keep)
                &&& (r is Dropped <==> sr.1 is Drop)
                &&& (r matches FrameOutcome::Reply { bytes } ==> sr.1 matches FrameEffect::Reply(
                    b,
                ) && bytes@ == b)
            }),
    {
        let confirmed = self.sessions[idx].confirmed;
        if !confirmed && opcode != 4 {
            self.remove_session(idx);
            proof {
                lemma_time_le_drop(old(self)@, idx as int, now);
            }
            return FrameOutcome::Dropped;
        }
        if opcode == 1 {
            if body.len() != GOSSIP_LEN {
                self.remove_session(idx);
                proof {
                    lemma_time_le_drop(old(self)@, idx as int, now);
                }
                return FrameOutcome::Dropped;
            }
            self.record_gossip(body, now);
            FrameOutcome::Keep
        } else if opcode == 2 {
            let bytes = peer_list_frame(&self.known);
            FrameOutcome::Reply { bytes }
        } else if opcode == 3 {
            match parse_peer_list_body(body) {
                Some(addrs) => {
                    self.absorb_addresses(&addrs);
                    proof {
                        lemma_absorb_preserves(old(self)@, addrs@);
                    }
                    FrameOutcome::Keep
                },
                None => {
                    self.remove_session(idx);
                    proof {
                        lemma_time_le_drop(old(self)@, idx as int, now);
                    }
                    FrameOutcome::Dropped
                },
            }
        } else if opcode == 4 {
            if check_magic(body) {
                let mut s = self.sessions[idx];
                s.confirmed = true;
                self.set_session(idx, s);
                proof {
                    assert(self@ =~= confirm_step(old(self)@, idx as int));
                    lemma_time_le_update(old(self)@, idx as int, s, now);
                }
                FrameOutcome::Keep
            } else {
                self.remove_session(idx);
                proof {
                    lemma_time_le_drop(old(self)@, idx as int, now);
                }
                FrameOutcome::Dropped
            }
        } else {
            self.remove_session(idx);
            proof {
                lemma_time_le_drop(old(self)@, idx as int, now);
            }
            FrameOutcome::Dropped
        }
    }

    fn set_session(&mut self, idx: usize, s: Session)
        requires
            idx < old(self)@.sessions.len(),
        ensures
            final(self)@ == (NodeModel { sessions: old(self)@.sessions.update(idx as int, s), ..old(
                self,
            )@ }),
    {
        self.sessions.set(idx, s);
        proof {
            assert(self@ =~= (NodeModel {
                sessions: old(self)@.sessions.update(idx as int, s),
                ..old(self)@
            }));
        }
    }

    /// Records an incoming gossip identifier: a duplicate is ignored,
    /// a fresh one enters the table, the broadcast queue, and the
    /// awareness log when that is on.
    fn record_gossip(&mut self, bytes: &Vec<u8>, now: u64)
        requires
            old(self).wf(),
            time_le(old(self)@, now),
            bytes@.len() == GOSSIP_LEN,
        ensures
            final(self)@ == gossip_step(old(self)@, bytes@, now),
            final(self).wf(),
            time_le(final(self)@, now),
    {
        let ghost m0 = self@;
        if self.seen_contains(bytes) {
            return ;
        }
        let id = GossipId::from_bytes(copy_bytes(bytes));
        self.seen.push(SeenEntry { id: id.clone(), at: now });
        self.pending.push(id.clone());
        if self.awareness_on {
            self.awareness.push(id);
        }
        proof {
            assert(self.seen@.map_values(|e: SeenEntry| (e.id@, e.at)) =~= m0.seen.push(
                (bytes@, now),
            ));
            assert(self.pending@.map_values(|g: GossipId| g@) =~= m0.pending.push(bytes@));
            if m0.awareness_on {
                assert(self.awareness@.map_values(|g: GossipId| g@) =~= m0.awareness.push(
                    bytes@,
                ));
            }
            assert(self@ =~= gossip_step(m0, bytes@, now));
            lemma_gossip_step_wf(m0, bytes@, now);
        }
    }

    /// Folds a decoded peer list into the iteration's address buffers.
    fn absorb_addresses(&mut self, addrs: &Vec<PeerAddress>)
        requires
            old(self).wf(),
        ensures
            final(self)@ == absorb_step(old(self)@, addrs@),
            final(self).wf(),
    {
        let ghost m0 = self@;
        let mut i: usize = 0;
        while i < addrs.len()
            invariant
                i <= addrs@.len(),
                self@ == absorb_step(m0, addrs@.take(i as int)),
                model_wf(m0),
                self.wf(),
            decreases addrs@.len() - i,
        {
            let ghost prefix = addrs@.take(i as int);
            let a = addrs[i];
            let is_self = a == self.self_addr;
            if !is_self && !addr_in(&self.known, a) {
                self.known.push(a);
                self.fresh.push(a);
                proof {
                    assert(self@ =~= absorb_one(absorb_step(m0, prefix), a));
                }
            } else {
                proof {
                    assert(self@ =~= absorb_one(absorb_step(m0, prefix), a));
                }
            }
            proof {
                assert(addrs@.take(i as int + 1) =~= prefix.push(a));
                lemma_absorb_snoc(m0, prefix, a);
            }
            i = i + 1;
        }
        proof {
            assert(addrs@.take(addrs@.len() as int) =~= addrs@);
        }
    }
}

/// Absorbing addresses touches only the known- and fresh-address
/// buffers.
pub proof fn lemma_absorb_preserves(m: NodeModel, addrs: Seq<PeerAddress>)
    ensures
        absorb_step(m, addrs).self_addr == m.self_addr,
        absorb_step(m, addrs).period_ms == m.period_ms,
        absorb_step(m, addrs).sessions == m.sessions,
        absorb_step(m, addrs).seen == m.seen,
        absorb_step(m, addrs).pending == m.pending,
        absorb_step(m, addrs).awareness == m.awareness,
        absorb_step(m, addrs).awareness_on == m.awareness_on,
        absorb_step(m, addrs).last_self_gossip == m.last_self_gossip,
    decreases addrs.len(),
{
    if addrs.len() > 0 {
        lemma_absorb_preserves(absorb_one(m, addrs[0]), addrs.drop_first());
    }
}

/// Removing a session cannot move any recorded instant past `now`.
pub proof fn lemma_time_le_drop(m: NodeModel, i: int, now: u64)
    requires
        time_le(m, now),
        0 <= i < m.sessions.len(),
    ensures
        time_le(drop_session_step(m, i), now),
{
    let s2 = m.sessions.remove(i);
    assert forall|j: int|
        0 <= j < s2.len() implies (#[trigger] s2[j]).created_at <= now && s2[j].last_peer_request
        <= now by {
        if j < i {
            assert(s2[j] == m.sessions[j]);
        } else {
            assert(s2[j] == m.sessions[j + 1]);
        }
    }
}

/// Updating one session to a value with instants at or before `now`
/// keeps every recorded instant at or before `now`.
pub proof fn lemma_time_le_update(m: NodeModel, i: int, s: Session, now: u64)
    requires
        time_le(m, now),
        0 <= i < m.sessions.len(),
        s.created_at <= now,
        s.last_peer_request <= now,
    ensures
        time_le(NodeModel { sessions: m.sessions.update(i, s), ..m }, now),
{
}

/// Receiving a gossip identifier preserves the node's invariant.
pub proof fn lemma_gossip_step_wf(m: NodeModel, id: Seq<u8>, now: u64)
    requires
        model_wf(m),
        id.len() == GOSSIP_LEN,
    ensures
        model_wf(gossip_step(m, id, now)),
{
    if !seen_has(m.seen, id) {
        let m2 = gossip_step(m, id, now);
        assert forall|i: int|
            0 <= i < m2.pending.len() implies seen_has(m2.seen, #[trigger] m2.pending[i]) by {
            if i < m.pending.len() {
                assert(seen_has(m.seen, m.pending[i]));
                let k = choose|k: int| 0 <= k < m.seen.len() && m.seen[k].0 == m.pending[i];
                assert(m2.seen[k].0 == m2.pending[i]);
            } else {
                assert(m2.seen[m.seen.len() as int].0 == id);
            }
        }
        assert forall|i: int, j: int|
            0 <= i < j < m2.pending.len() implies m2.pending[i] != m2.pending[j] by {
            if j == m.pending.len() {
                // a fresh identifier was not in the queue: the queue only
                // holds identifiers the table already knew.
                assert(seen_has(m.seen, m.pending[i]));
            }
        }
    }
}

/// Relies on rand::random: one random byte. Nothing can be promised
/// of the value drawn, so the contract says nothing; `originate`
/// states what holds whatever comes back.
#[verifier::external_body]
fn random_byte() -> u8 {
    rand::random::<u8>()
}

impl Node {
    /// Starts an iteration: snapshots the advertised addresses of the
    /// current sessions and clears the learned-address buffer.
    pub fn begin_iteration(&mut self)
        requires
            old(self).wf(),
        ensures
            final(self)@ == snapshot_step(old(self)@),
            final(self).wf(),
    {
        let mut known: Vec<PeerAddress> = Vec::new();
        let mut i: usize = 0;
        while i < self.sessions.len()
            invariant
                i <= self.sessions@.len(),
                self@ == old(self)@,
                known@ == old(self)@.sessions.take(i as int).map_values(
                    |s: Session| s.advertised,
                ),
            decreases self.sessions@.len() - i,
        {
            known.push(self.sessions[i].advertised);
            i = i + 1;
            proof {
                assert(known@ =~= old(self)@.sessions.take(i as int).map_values(
                    |s: Session| s.advertised,
                ));
            }
        }
        self.known = known;
        self.fresh = Vec::new();
        proof {
            assert(old(self)@.sessions.take(old(self)@.sessions.len() as int) =~= old(
                self,
            )@.sessions);
            assert(self@ =~= snapshot_step(old(self)@));
        }
    }

    /// Whether the origination period has elapsed.
    pub fn due_for_origination(&self, now: u64) -> (r: bool)
        requires
            time_le(self@, now),
        ensures
            r == (now - self@.last_self_gossip > self@.period_ms),
    {
        now - self.last_self_gossip > self.period_ms
    }

    /// Originates a fresh random identifier at `now`: it is recorded
    /// exactly as a received fresh gossip would be (so incoming copies
    /// are suppressed), and the origination timer resets. Whatever
    /// bytes the generator returns, the model moves by
    /// `originate_step`.
    pub fn originate(&mut self, now: u64) -> (id: GossipId)
        requires
            old(self).wf(),
            time_le(old(self)@, now),
        ensures
            id@.len() == GOSSIP_LEN,
            final(self)@ == originate_step(old(self)@, id@, now),
            final(self).wf(),
            time_le(final(self)@, now),
    {
        let mut bytes: Vec<u8> = Vec::new();
        let mut i: usize = 0;
        while i < GOSSIP_LEN
            invariant
                bytes@.len() == i,
                i <= GOSSIP_LEN,
            decreases GOSSIP_LEN - i,
        {
            bytes.push(random_byte());
            i = i + 1;
        }
        self.record_gossip(&bytes, now);
        self.last_self_gossip = now;
        proof {
            assert(self@ =~= originate_step(old(self)@, bytes@, now));
        }
        GossipId::from_bytes(bytes)
    }

    /// Hands out the queued gossip for broadcast and empties the
    /// queue. The caller sends each identifier to every confirmed
    /// session once; the queue holds no duplicates.
    pub fn drain_broadcast(&mut self) -> (r: Vec<GossipId>)
        requires
            old(self).wf(),
        ensures
            r@.map_values(|g: GossipId| g@) == old(self)@.pending,
            final(self)@ == (NodeModel { pending: Seq::<Seq<u8>>::empty(), ..old(self)@ }),
            final(self).wf(),
    {
        let mut out: Vec<GossipId> = Vec::new();
        core::mem::swap(&mut out, &mut self.pending);
        proof {
            assert(self.pending@.map_values(|g: GossipId| g@) =~= Seq::<Seq<u8>>::empty());
            assert(self@ =~= (NodeModel { pending: Seq::<Seq<u8>>::empty(), ..old(self)@ }));
        }
        out
    }

    /// Hands out the addresses learned this iteration and clears the
    /// buffer. None of them is the node's own address.
    pub fn take_dial_targets(&mut self) -> (r: Vec<PeerAddress>)
        requires
            old(self).wf(),
        ensures
            r@ == old(self)@.fresh,
            forall|i: int| 0 <= i < r@.len() ==> #[trigger] r@[i] != old(self)@.self_addr,
            final(self)@ == (NodeModel { fresh: Seq::<PeerAddress>::empty(), ..old(self)@ }),
            final(self).wf(),
    {
        let mut out: Vec<PeerAddress> = Vec::new();
        core::mem::swap(&mut out, &mut self.fresh);
        proof {
            assert(self@ =~= (NodeModel { fresh: Seq::<PeerAddress>::empty(), ..old(self)@ }));
        }
        out
    }

    /// Whether the session at `idx` is due another peer-list request.
    pub fn peer_request_due(&self, idx: usize, now: u64) -> (r: bool)
        requires
            idx < self@.sessions.len(),
            time_le(self@, now),
        ensures
            r == (now - self@.sessions[idx as int].last_peer_request > ASK_FOR_PEERS_MS),
    {
        now - self.sessions[idx].last_peer_request > ASK_FOR_PEERS_MS
    }

    /// Resets the peer-list-request timer of the session at `idx`.
    pub fn mark_peer_request(&mut self, idx: usize, now: u64)
        requires
            old(self).wf(),
            time_le(old(self)@, now),
            idx < old(self)@.sessions.len(),
        ensures
            final(self)@ == mark_request_step(old(self)@, idx as int, now),
            final(self).wf(),
            time_le(final(self)@, now),
    {
        let mut s = self.sessions[idx];
        s.last_peer_request = now;
        self.set_session(idx, s);
        proof {
            assert(self@ =~= mark_request_step(old(self)@, idx as int, now));
            lemma_time_le_update(old(self)@, idx as int, s, now);
        }
    }
}

/// Re-delivering an already-seen identifier changes nothing: it is
/// neither stored, nor queued for broadcast, nor logged.
pub proof fn lemma_duplicate_suppressed(m: NodeModel, id: Seq<u8>, now: u64)
    requires
        seen_has(m.seen, id),
    ensures
        gossip_step(m, id, now) == m,
{
}

/// A fresh identifier is queued exactly once: it was not in the queue
/// before, it is appended once, and the queue stays duplicate-free.
pub proof fn lemma_fresh_gossip_queued_once(m: NodeModel, id: Seq<u8>, now: u64)
    requires
        model_wf(m),
        !seen_has(m.seen, id),
        id.len() == GOSSIP_LEN,
    ensures
        !m.pending.contains(id),
        gossip_step(m, id, now).pending == m.pending.push(id),
        model_wf(gossip_step(m, id, now)),
{
    lemma_gossip_step_wf(m, id, now);
    if m.pending.contains(id) {
        let i = choose|i: int| 0 <= i < m.pending.len() && m.pending[i] == id;
        assert(seen_has(m.seen, m.pending[i]));
    }
}

/// A frame other than a confirmation on an unconfirmed session is
/// never acted on: the session is dropped and nothing else changes.
pub proof fn lemma_unconfirmed_only_drops(
    m: NodeModel,
    i: int,
    opcode: u8,
    body: Seq<u8>,
    now: u64,
)
    requires
        0 <= i < m.sessions.len(),
        !m.sessions[i].confirmed,
        opcode != 4,
    ensures
        frame_step(m, i, opcode, body, now) == (drop_session_step(m, i), FrameEffect::Drop),
{
}

/// Every peer-list reply the pump emits answers from the iteration's
/// snapshot: it carries at most `PEER_LIST_MAX` records, and parsing
/// it back yields exactly the first records of that snapshot.
pub proof fn lemma_reply_answers_from_snapshot(m: NodeModel, i: int, body: Seq<u8>, now: u64)
    requires
        0 <= i < m.sessions.len(),
        m.sessions[i].confirmed,
    ensures
        ({
            let n = if m.known.len() < PEER_LIST_MAX as int {
                m.known.len() as int
            } else {
                PEER_LIST_MAX as int
            };
            &&& frame_step(m, i, 2, body, now) == (
                m,
                FrameEffect::Reply(spec_peer_list_frame(m.known.take(n))),
            )
            &&& m.known.take(n).len() <= PEER_LIST_MAX
            &&& spec_parse_peer_list_body(spec_peer_list_frame(m.known.take(n)).drop_first())
                == Some(m.known.take(n))
        }),
{
    let n = if m.known.len() < PEER_LIST_MAX as int {
        m.known.len() as int
    } else {
        PEER_LIST_MAX as int
    };
    lemma_peer_list_round_trip(m.known.take(n));
}

/// An empty peer list is legal and changes nothing.
pub proof fn lemma_empty_peer_list_noop(m: NodeModel)
    ensures
        absorb_step(m, Seq::empty()) == m,
{
}

/// No dial target derived from peer exchange is ever the node's own
/// address.
pub proof fn lemma_dial_targets_never_self(m: NodeModel, addrs: Seq<PeerAddress>)
    requires
        forall|i: int| 0 <= i < m.fresh.len() ==> #[trigger] m.fresh[i] != m.self_addr,
    ensures
        forall|i: int|
            0 <= i < absorb_step(m, addrs).fresh.len() ==> #[trigger] absorb_step(
                m,
                addrs,
            ).fresh[i] != m.self_addr,
    decreases addrs.len(),
{
    if addrs.len() > 0 {
        let m1 = absorb_one(m, addrs[0]);
        assert forall|i: int|
            0 <= i < m1.fresh.len() implies #[trigger] m1.fresh[i] != m1.self_addr by {
            if i < m.fresh.len() {
                assert(m1.fresh[i] == m.fresh[i]);
            }
        }
        lemma_dial_targets_never_self(m1, addrs.drop_first());
    }
}

/// Every table row younger than the decay window survives decay.
pub proof fn lemma_young_entries_complete(seen: Seq<(Seq<u8>, u64)>, now: u64)
    ensures
        forall|j: int|
            0 <= j < seen.len() && now - (#[trigger] seen[j]).1 <= GOSSIP_DECAY_MS
                ==> young_entries(seen, now).contains(seen[j]),
    decreases seen.len(),
{
    if seen.len() > 0 {
        lemma_young_entries_complete(seen.drop_last(), now);
        let kept = young_entries(seen, now);
        let prev = young_entries(seen.drop_last(), now);
        assert forall|j: int|
            0 <= j < seen.len() && now - (#[trigger] seen[j]).1 <= GOSSIP_DECAY_MS implies kept
            .contains(seen[j]) by {
            if j < seen.len() - 1 {
                assert(seen.drop_last()[j] == seen[j]);
                assert(prev.contains(seen[j]));
                let k = choose|k: int| 0 <= k < prev.len() && prev[k] == seen[j];
                assert(kept[k] == seen[j]);
            } else {
                assert(kept[kept.len() - 1] == seen[j]);
            }
        }
    }
}

/// Every session the sweep keeps is live.
pub proof fn lemma_live_sessions_live(s: Seq<Session>, now: u64)
    ensures
        forall|j: int|
            0 <= j < live_sessions(s, now).len() ==> session_live(
                #[trigger] live_sessions(s, now)[j],
                now,
            ),
    decreases s.len(),
{
    if s.len() > 0 {
        lemma_live_sessions_live(s.drop_last(), now);
        let kept = live_sessions(s, now);
        let prev = live_sessions(s.drop_last(), now);
        assert forall|j: int| 0 <= j < kept.len() implies session_live(kept[j], now) by {
            if j < prev.len() {
                assert(kept[j] == prev[j]);
                assert(session_live(live_sessions(s.drop_last(), now)[j], now));
            } else {
                assert(kept[j] == s.last());
            }
        }
    }
}

/// Every session the sweep keeps was there before.
pub proof fn lemma_live_sessions_sub(s: Seq<Session>, now: u64)
    ensures
        forall|j: int|
            0 <= j < live_sessions(s, now).len() ==> s.contains(
                #[trigger] live_sessions(s, now)[j],
            ),
    decreases s.len(),
{
    if s.len() > 0 {
        lemma_live_sessions_sub(s.drop_last(), now);
        assert forall|j: int|
            0 <= j < live_sessions(s, now).len() implies s.contains(
            live_sessions(s, now)[j],
        ) by {
            let kept = live_sessions(s, now);
            let prev = live_sessions(s.drop_last(), now);
            if j < prev.len() {
                let k = choose|k: int| 0 <= k < s.drop_last().len() && s.drop_last()[k] == prev[j];
                assert(s[k] == kept[j]);
            } else {
                assert(s[s.len() - 1] == kept[j]);
            }
        }
    }
}

/// Every row the decay keeps is younger than the window.
pub proof fn lemma_young_entries_young(seen: Seq<(Seq<u8>, u64)>, now: u64)
    ensures
        forall|j: int|
            0 <= j < young_entries(seen, now).len() ==> now - (#[trigger] young_entries(
                seen,
                now,
            )[j]).1 <= GOSSIP_DECAY_MS,
    decreases seen.len(),
{
    if seen.len() > 0 {
        lemma_young_entries_young(seen.drop_last(), now);
        let kept = young_entries(seen, now);
        let prev = young_entries(seen.drop_last(), now);
        assert forall|j: int| 0 <= j < kept.len() implies now - kept[j].1 <= GOSSIP_DECAY_MS by {
            if j < prev.len() {
                assert(kept[j] == prev[j]);
                assert(now - (young_entries(seen.drop_last(), now)[j]).1 <= GOSSIP_DECAY_MS);
            } else {
                assert(kept[j] == seen.last());
            }
        }
    }
}

/// Every row the decay keeps was in the table before.
pub proof fn lemma_young_entries_sub(seen: Seq<(Seq<u8>, u64)>, now: u64)
    ensures
        forall|j: int|
            0 <= j < young_entries(seen, now).len() ==> seen.contains(
                #[trigger] young_entries(seen, now)[j],
            ),
    decreases seen.len(),
{
    if seen.len() > 0 {
        lemma_young_entries_sub(seen.drop_last(), now);
        assert forall|j: int|
            0 <= j < young_entries(seen, now).len() implies seen.contains(
            young_entries(seen, now)[j],
        ) by {
            let kept = young_entries(seen, now);
            let prev = young_entries(seen.drop_last(), now);
            if j < prev.len() {
                let k = choose|k: int|
                    0 <= k < seen.drop_last().len() && seen.drop_last()[k] == prev[j];
                assert(seen[k] == kept[j]);
            } else {
                assert(seen[seen.len() - 1] == kept[j]);
            }
        }
    }
}

/// Decay keeps distinct identifiers distinct.
pub proof fn lemma_young_entries_distinct(seen: Seq<(Seq<u8>, u64)>, now: u64, i: int, j: int)
    requires
        forall|p: int, q: int| 0 <= p < q < seen.len() ==> seen[p].0 != seen[q].0,
        0 <= i < j < young_entries(seen, now).len(),
    ensures
        young_entries(seen, now)[i].0 != young_entries(seen, now)[j].0,
    decreases seen.len(),
{
    if seen.len() > 0 {
        let kept = young_entries(seen, now);
        let prev = young_entries(seen.drop_last(), now);
        if j < prev.len() {
            lemma_young_entries_distinct(seen.drop_last(), now, i, j);
        } else {
            // j names the last row; i names one kept from the prefix.
            lemma_young_entries_sub(seen.drop_last(), now);
            let k = choose|k: int| 0 <= k < seen.drop_last().len() && seen.drop_last()[k] == prev[i];
            assert(seen[k] == kept[i]);
            assert(seen[seen.len() - 1] == kept[j]);
        }
    }
}

} // verus!
