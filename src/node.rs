//! The node's state and decisions: the peer registry, the table of stream
//! sessions, what to do with each inbound datagram or stream frame, and which
//! transport carries an outbound payload. Sockets, timers and tasks live with
//! the caller, which performs the returned actions.
use vstd::prelude::*;
use crate::json::{chars_of, string_of};
use crate::payload::{trim_bounds, trimmed};
use crate::wire::{decode_object, lemma_wire_text_one_line, wire_text, MessageView, NetworkMessage};

verus! {

/// Offset from the datagram port to the stream listener's port.
pub const TCP_PORT_OFFSET: u16 = 1000;

/// Highest datagram port for which the stream port still fits in a `u16`.
pub const MAX_PORT: u16 = 64535;

/// Default datagram (discovery) port.
pub const DEFAULT_PORT: u16 = 60000;

/// A peer silent for longer than this many milliseconds is evicted.
pub const PEER_STALE_MS: u64 = 30000;

/// Milliseconds between two presence broadcasts.
pub const BROADCAST_INTERVAL_MS: u64 = 1000;

/// Largest datagram read, in bytes.
pub const MAX_DGRAM: usize = 8192;

/// Bound on one stream write, in milliseconds.
pub const TCP_MESSAGE_TIMEOUT_MS: u64 = 2000;

/// The limited broadcast address 255.255.255.255.
pub const BROADCAST_IP: u32 = 0xffff_ffff;

/// An IPv4 socket address.
#[derive(Debug, Clone, Copy, PartialEq, Eq, Structural)]
pub struct PeerAddr {
    pub ip: u32,
    pub port: u16,
}

/// One known peer.
#[derive(Debug, Clone)]
pub struct PeerEntry {
    pub id: String,
    pub alias: String,
    pub pubkey: String,
    /// Time of the last inbound traffic claiming this id, in milliseconds.
    pub last_seen_ms: u64,
    /// Observed source address of the last datagram claiming this id.
    pub addr: PeerAddr,
    /// Stream port the peer advertised, if any.
    pub tcp_port: Option<u16>,
}

pub struct PeerEntryView {
    pub id: Seq<char>,
    pub alias: Seq<char>,
    pub pubkey: Seq<char>,
    pub last_seen_ms: u64,
    pub addr: PeerAddr,
    pub tcp_port: Option<u16>,
}

impl View for PeerEntry {
    type V = PeerEntryView;

    open spec fn view(&self) -> PeerEntryView {
        PeerEntryView {
            id: self.id@,
            alias: self.alias@,
            pubkey: self.pubkey@,
            last_seen_ms: self.last_seen_ms,
            addr: self.addr,
            tcp_port: self.tcp_port,
        }
    }
}

/// A live stream session, created once a handshake bound it to a peer.
#[derive(Debug, Clone)]
pub struct Session {
    pub peer_id: String,
    pub message_count: u64,
    pub last_activity_ms: u64,
}

pub struct SessionView {
    pub peer_id: Seq<char>,
    pub message_count: u64,
    pub last_activity_ms: u64,
}

impl View for Session {
    type V = SessionView;

    open spec fn view(&self) -> SessionView {
        SessionView {
            peer_id: self.peer_id@,
            message_count: self.message_count,
            last_activity_ms: self.last_activity_ms,
        }
    }
}

/// What the application sees of a peer.
#[derive(Debug, Clone)]
pub struct PeerInfo {
    pub id: String,
    pub alias: String,
    pub pubkey: String,
    pub last_seen_ms: u64,
    /// "TCP" while a stream session exists, else "UDP".
    pub connection_type: String,
    pub tcp_port: Option<u16>,
}

/// Statistics of one stream session.
#[derive(Debug, Clone)]
pub struct ConnectionStats {
    pub peer_id: String,
    pub is_connected: bool,
    pub message_count: u64,
    /// Milliseconds since the last activity.
    pub last_activity_ms: u64,
    pub last_test_time_ms: Option<u64>,
}

/// Failures of the node's operations.
#[derive(Debug, Clone, Copy, PartialEq, Eq, Structural)]
pub enum NetError {
    /// The datagram socket could not be bound.
    Bind,
    /// No session and no known address for the peer.
    PeerNotFound,
    /// A stream write did not finish in time.
    StreamTimeout,
    /// A stream write failed.
    StreamWrite,
    /// A datagram could not be sent.
    DatagramSend,
}

/// A datagram to send.
#[derive(Debug, Clone)]
pub struct Outgoing {
    pub to: PeerAddr,
    pub data: String,
}

/// What the caller does after an inbound datagram.
#[derive(Debug, Clone)]
pub enum Effect {
    /// Send a unicast datagram.
    Send(Outgoing),
    /// Hand the message to the application.
    Forward(NetworkMessage),
    /// Open a stream to the peer, write `handshake_frame`, then `register_session`.
    Connect { peer_id: String, addr: PeerAddr },
}

pub enum EffectView {
    Send { to: PeerAddr, data: Seq<char> },
    Forward(MessageView),
    Connect { peer_id: Seq<char>, addr: PeerAddr },
}

impl View for Effect {
    type V = EffectView;

    open spec fn view(&self) -> EffectView {
        match self {
            Effect::Send(o) => EffectView::Send { to: o.to, data: o.data@ },
            Effect::Forward(m) => EffectView::Forward(m@),
            Effect::Connect { peer_id, addr } => EffectView::Connect {
                peer_id: peer_id@,
                addr: *addr,
            },
        }
    }
}

/// How an outbound payload leaves.
#[derive(Debug, Clone)]
pub enum Route {
    /// Write this line on the peer's stream session.
    Stream { peer_id: String, frame: String },
    /// Send this datagram.
    Datagram(Outgoing),
}

/// An upgrade request to send, and where to connect at once if the peer's
/// stream port is already known.
#[derive(Debug, Clone)]
pub struct UpgradePlan {
    pub request: Outgoing,
    pub connect_to: Option<PeerAddr>,
}

/// The node: its identity, the peer registry and the session table.
pub struct NetworkNode {
    pub port: u16,
    pub id: String,
    pub alias: String,
    pub pubkey: String,
    pub peers: Vec<PeerEntry>,
    pub sessions: Vec<Session>,
}

// ---------------------------------------------------------------------------
// Specification
// ---------------------------------------------------------------------------

pub open spec fn peer_views(s: Seq<PeerEntry>) -> Seq<PeerEntryView> {
    s.map_values(|p: PeerEntry| p@)
}

pub open spec fn session_views(s: Seq<Session>) -> Seq<SessionView> {
    s.map_values(|x: Session| x@)
}

/// Position of the first peer with this id at or after `k`, or -1.
pub open spec fn peer_pos_from(s: Seq<PeerEntryView>, id: Seq<char>, k: int) -> int
    decreases s.len() - k,
{
    if k < 0 || k >= s.len() {
        -1
    } else if s[k].id == id {
        k
    } else {
        peer_pos_from(s, id, k + 1)
    }
}

pub open spec fn peer_pos(s: Seq<PeerEntryView>, id: Seq<char>) -> int {
    peer_pos_from(s, id, 0)
}

pub open spec fn session_pos_from(s: Seq<SessionView>, id: Seq<char>, k: int) -> int
    decreases s.len() - k,
{
    if k < 0 || k >= s.len() {
        -1
    } else if s[k].peer_id == id {
        k
    } else {
        session_pos_from(s, id, k + 1)
    }
}

pub open spec fn session_pos(s: Seq<SessionView>, id: Seq<char>) -> int {
    session_pos_from(s, id, 0)
}

pub open spec fn unique_peers(s: Seq<PeerEntryView>) -> bool {
    forall|i: int, j: int| 0 <= i < s.len() && 0 <= j < s.len() && i != j ==> s[i].id != s[j].id
}

pub open spec fn unique_sessions(s: Seq<SessionView>) -> bool {
    forall|i: int, j: int|
        0 <= i < s.len() && 0 <= j < s.len() && i != j ==> s[i].peer_id != s[j].peer_id
}

/// A peer's record after traffic claiming `id` arrived from `addr` at `now`.
/// Absent alias or pubkey keep the known one (the id for a new peer); an
/// absent stream port keeps the known one.
pub open spec fn refreshed(
    old: Option<PeerEntryView>,
    id: Seq<char>,
    alias: Option<Seq<char>>,
    pubkey: Option<Seq<char>>,
    addr: PeerAddr,
    tcp_port: Option<u16>,
    now: u64,
) -> PeerEntryView {
    PeerEntryView {
        id,
        alias: match alias {
            Some(a) => a,
            None => match old {
                Some(o) => o.alias,
                None => id,
            },
        },
        pubkey: match pubkey {
            Some(k) => k,
            None => match old {
                Some(o) => o.pubkey,
                None => id,
            },
        },
        last_seen_ms: now,
        addr,
        tcp_port: match tcp_port {
            Some(p) => Some(p),
            None => match old {
                Some(o) => o.tcp_port,
                None => None,
            },
        },
    }
}

/// The registry after an insert-or-update of `id`.
pub open spec fn upserted(
    s: Seq<PeerEntryView>,
    id: Seq<char>,
    alias: Option<Seq<char>>,
    pubkey: Option<Seq<char>>,
    addr: PeerAddr,
    tcp_port: Option<u16>,
    now: u64,
) -> Seq<PeerEntryView> {
    let k = peer_pos(s, id);
    if k >= 0 {
        s.update(k, refreshed(Some(s[k]), id, alias, pubkey, addr, tcp_port, now))
    } else {
        s.push(refreshed(None, id, alias, pubkey, addr, tcp_port, now))
    }
}

/// The registry after traffic claiming `id` arrived over a stream at `now`:
/// a known peer's `last_seen_ms` is refreshed, nothing else changes.
pub open spec fn seen_at(s: Seq<PeerEntryView>, id: Seq<char>, now: u64) -> Seq<PeerEntryView> {
    let k = peer_pos(s, id);
    if k >= 0 {
        s.update(k, PeerEntryView { last_seen_ms: now, ..s[k] })
    } else {
        s
    }
}

/// Whether a peer was heard from within `threshold` milliseconds of `now`.
pub open spec fn is_fresh(p: PeerEntryView, now: u64, threshold: u64) -> bool {
    p.last_seen_ms >= now || now - p.last_seen_ms <= threshold
}

pub open spec fn fresh_pred(now: u64, threshold: u64) -> spec_fn(PeerEntryView) -> bool {
    |p: PeerEntryView| is_fresh(p, now, threshold)
}

/// The registry after a datagram carrying `v` arrived from `src` at `now`.
pub open spec fn after_datagram(s: Seq<PeerEntryView>, v: MessageView, src: PeerAddr, now: u64) -> Seq<
    PeerEntryView,
> {
    match v {
        MessageView::Peer { id, alias, pubkey } => upserted(
            s,
            id,
            Some(alias),
            Some(pubkey),
            src,
            None,
            now,
        ),
        MessageView::Ping { id, alias } => upserted(s, id, Some(alias), None, src, None, now),
        MessageView::Pong { id, alias } => upserted(s, id, Some(alias), None, src, None, now),
        MessageView::Block { .. } => s,
        MessageView::DirectBlock { from, .. } => upserted(s, from, None, None, src, None, now),
        MessageView::TcpConnectionRequest { from, from_alias, tcp_port } => upserted(
            s,
            from,
            Some(from_alias),
            None,
            src,
            Some(tcp_port),
            now,
        ),
        MessageView::TcpConnectionResponse { from, tcp_port, .. } => upserted(
            s,
            from,
            None,
            None,
            src,
            Some(tcp_port),
            now,
        ),
        MessageView::TcpKeepalive { from } => upserted(s, from, None, None, src, None, now),
        MessageView::TcpConnectionTest { from, .. } => upserted(s, from, None, None, src, None, now),
        MessageView::TcpConnectionTestResponse { from, .. } => upserted(
            s,
            from,
            None,
            None,
            src,
            None,
            now,
        ),
        MessageView::TcpHandshake { from, from_alias, pubkey } => upserted(
            s,
            from,
            Some(from_alias),
            Some(pubkey),
            src,
            None,
            now,
        ),
    }
}

/// The peer id that a datagram claims, if any.
pub open spec fn claimed_id(v: MessageView) -> Option<Seq<char>> {
    match v {
        MessageView::Peer { id, .. } => Some(id),
        MessageView::Ping { id, .. } => Some(id),
        MessageView::Pong { id, .. } => Some(id),
        MessageView::Block { .. } => None,
        MessageView::DirectBlock { from, .. } => Some(from),
        MessageView::TcpConnectionRequest { from, .. } => Some(from),
        MessageView::TcpConnectionResponse { from, .. } => Some(from),
        MessageView::TcpKeepalive { from } => Some(from),
        MessageView::TcpConnectionTest { from, .. } => Some(from),
        MessageView::TcpConnectionTestResponse { from, .. } => Some(from),
        MessageView::TcpHandshake { from, .. } => Some(from),
    }
}

/// What the caller does after a datagram carrying `v` arrived from `src`:
/// a probe is answered to `src` alone, an upgrade request is accepted to
/// `src` alone, an accepted upgrade opens a stream to `src`'s host; every
/// message but the legacy one is handed to the application.
pub open spec fn datagram_effects(
    me: Seq<char>,
    alias: Seq<char>,
    tcp_port: u16,
    v: MessageView,
    src: PeerAddr,
) -> Seq<EffectView> {
    match v {
        MessageView::Block { .. } => Seq::empty(),
        MessageView::Ping { .. } => seq![
            EffectView::Send {
                to: src,
                data: wire_text(MessageView::Pong { id: me, alias }),
            },
            EffectView::Forward(v),
        ],
        MessageView::TcpConnectionRequest { from, .. } => seq![
            EffectView::Send {
                to: src,
                data: wire_text(
                    MessageView::TcpConnectionResponse { from: me, to: from, accepted: true, tcp_port },
                ),
            },
            EffectView::Forward(v),
        ],
        MessageView::TcpConnectionResponse { from, accepted, tcp_port: peer_port, .. } => if accepted {
            seq![
                EffectView::Connect { peer_id: from, addr: PeerAddr { ip: src.ip, port: peer_port } },
                EffectView::Forward(v),
            ]
        } else {
            seq![EffectView::Forward(v)]
        },
        _ => seq![EffectView::Forward(v)],
    }
}

pub open spec fn effect_views(s: Seq<Effect>) -> Seq<EffectView> {
    s.map_values(|e: Effect| e@)
}

/// Whether a session saw activity within `max_idle` milliseconds of `now`.
pub open spec fn is_active(x: SessionView, now: u64, max_idle: u64) -> bool {
    x.last_activity_ms >= now || now - x.last_activity_ms <= max_idle
}

pub open spec fn active_pred(now: u64, max_idle: u64) -> spec_fn(SessionView) -> bool {
    |x: SessionView| is_active(x, now, max_idle)
}

/// The `Direct` message that carries `payload` from `me` to `to`.
pub open spec fn direct_view(me: Seq<char>, to: Seq<char>, payload: Seq<char>) -> MessageView {
    MessageView::DirectBlock { from: me, to, payload_json: payload }
}

/// A message as one line of a stream.
pub open spec fn frame_text(v: MessageView) -> Seq<char> {
    wire_text(v).push('\n')
}

/// The session table after a handshake with `id` at `now`.
pub open spec fn registered(s: Seq<SessionView>, id: Seq<char>, now: u64) -> Seq<SessionView> {
    let fresh = SessionView { peer_id: id, message_count: 0, last_activity_ms: now };
    if session_pos(s, id) >= 0 {
        s.update(session_pos(s, id), fresh)
    } else {
        s.push(fresh)
    }
}

/// The session table after one more frame from `id` at `now`.
pub open spec fn touched(s: Seq<SessionView>, id: Seq<char>, now: u64) -> Seq<SessionView> {
    let k = session_pos(s, id);
    if k >= 0 {
        s.update(
            k,
            SessionView {
                peer_id: s[k].peer_id,
                message_count: if s[k].message_count < u64::MAX {
                    (s[k].message_count + 1) as u64
                } else {
                    s[k].message_count
                },
                last_activity_ms: now,
            },
        )
    } else {
        s
    }
}

impl NetworkNode {
    pub open spec fn peer_seq(&self) -> Seq<PeerEntryView> {
        peer_views(self.peers@)
    }

    pub open spec fn session_seq(&self) -> Seq<SessionView> {
        session_views(self.sessions@)
    }

    /// Whether a peer with this id is in the registry.
    pub open spec fn knows(&self, id: Seq<char>) -> bool {
        exists|i: int| 0 <= i < self.peers@.len() && (#[trigger] self.peers@[i])@.id == id
    }

    /// Whether a stream session with this peer exists.
    pub open spec fn connected(&self, id: Seq<char>) -> bool {
        exists|i: int| 0 <= i < self.sessions@.len() && (#[trigger] self.sessions@[i])@.peer_id == id
    }

    /// Ids unique in both tables; the stream port fits.
    pub open spec fn wf(&self) -> bool {
        &&& unique_peers(self.peer_seq())
        &&& unique_sessions(self.session_seq())
        &&& self.port <= MAX_PORT
    }

    pub open spec fn tcp_port_spec(&self) -> u16 {
        (self.port + TCP_PORT_OFFSET) as u16
    }

    pub open spec fn broadcast_addr(&self) -> PeerAddr {
        PeerAddr { ip: BROADCAST_IP, port: self.port }
    }

    /// The presence announcement and the probe that every broadcast carries.
    pub open spec fn announcement(&self) -> Seq<(PeerAddr, Seq<char>)> {
        seq![
            (self.broadcast_addr(), wire_text(MessageView::Peer { id: self.id@, alias: self.alias@, pubkey: self.pubkey@ })),
            (self.broadcast_addr(), wire_text(MessageView::Ping { id: self.id@, alias: self.alias@ })),
        ]
    }
}

// ---------------------------------------------------------------------------
// Lemmas
// ---------------------------------------------------------------------------

proof fn lemma_peer_pos_found(s: Seq<PeerEntryView>, id: Seq<char>, k: int)
    requires
        0 <= k < s.len(),
        s[k].id == id,
        forall|m: int| 0 <= m < k ==> s[m].id != id,
    ensures
        peer_pos(s, id) == k,
{
    lemma_peer_pos_skip(s, id, 0, k);
}

proof fn lemma_peer_pos_skip(s: Seq<PeerEntryView>, id: Seq<char>, i: int, k: int)
    requires
        0 <= i <= k <= s.len(),
        forall|m: int| i <= m < k ==> s[m].id != id,
    ensures
        peer_pos_from(s, id, i) == peer_pos_from(s, id, k),
    decreases k - i,
{
    if i < k {
        lemma_peer_pos_skip(s, id, i + 1, k);
    }
}

proof fn lemma_session_pos_skip(s: Seq<SessionView>, id: Seq<char>, i: int, k: int)
    requires
        0 <= i <= k <= s.len(),
        forall|m: int| i <= m < k ==> s[m].peer_id != id,
    ensures
        session_pos_from(s, id, i) == session_pos_from(s, id, k),
    decreases k - i,
{
    if i < k {
        lemma_session_pos_skip(s, id, i + 1, k);
    }
}

/// Everything the filter keeps was in the sequence.
proof fn lemma_filter_subset<A>(s: Seq<A>, p: spec_fn(A) -> bool)
    ensures
        forall|j: int|
            0 <= j < s.filter(p).len() ==> exists|i: int|
                0 <= i < s.len() && s[i] == #[trigger] s.filter(p)[j],
    decreases s.len(),
{
    reveal(Seq::filter);
    if s.len() > 0 {
        lemma_filter_subset(s.drop_last(), p);
        let sub = s.drop_last().filter(p);
        assert forall|j: int| 0 <= j < s.filter(p).len() implies exists|i: int|
            0 <= i < s.len() && s[i] == #[trigger] s.filter(p)[j] by {
            if j < sub.len() {
                assert(s.filter(p)[j] == sub[j]);
                let i = choose|i: int| 0 <= i < s.drop_last().len() && s.drop_last()[i] == sub[j];
                assert(s[i] == s.filter(p)[j]);
            } else {
                assert(s[s.len() - 1] == s.filter(p)[j]);
            }
        }
    }
}

/// Filtering keeps session peer ids unique.
proof fn lemma_filter_unique_sessions(s: Seq<SessionView>, p: spec_fn(SessionView) -> bool)
    requires
        unique_sessions(s),
    ensures
        unique_sessions(s.filter(p)),
    decreases s.len(),
{
    reveal(Seq::filter);
    if s.len() > 0 {
        let s2 = s.drop_last();
        assert(unique_sessions(s2));
        lemma_filter_unique_sessions(s2, p);
        lemma_filter_subset(s2, p);
        let sub = s2.filter(p);
        if p(s.last()) {
            let f = sub.push(s.last());
            assert(s.filter(p) == f);
            assert forall|i: int, j: int|
                0 <= i < f.len() && 0 <= j < f.len() && i != j implies f[i].peer_id
                != f[j].peer_id by {
                if i < sub.len() && j < sub.len() {
                    assert(f[i] == sub[i] && f[j] == sub[j]);
                } else if i < sub.len() {
                    let a = choose|a: int| 0 <= a < s2.len() && s2[a] == #[trigger] sub[i];
                    assert(s[a] == f[i]);
                    assert(s[s.len() - 1] == f[j]);
                } else {
                    let a = choose|a: int| 0 <= a < s2.len() && s2[a] == #[trigger] sub[j];
                    assert(s[a] == f[j]);
                    assert(s[s.len() - 1] == f[i]);
                }
            }
        }
    }
}

proof fn lemma_filter_push_sessions(s: Seq<SessionView>, x: SessionView, p: spec_fn(SessionView) -> bool)
    ensures
        s.push(x).filter(p) == if p(x) {
            s.filter(p).push(x)
        } else {
            s.filter(p)
        },
{
    reveal(Seq::filter);
    assert(s.push(x).drop_last() =~= s);
    assert(s.push(x).last() == x);
}

/// Filtering keeps ids unique.
proof fn lemma_filter_unique(s: Seq<PeerEntryView>, p: spec_fn(PeerEntryView) -> bool)
    requires
        unique_peers(s),
    ensures
        unique_peers(s.filter(p)),
    decreases s.len(),
{
    reveal(Seq::filter);
    if s.len() > 0 {
        let s2 = s.drop_last();
        assert(unique_peers(s2));
        lemma_filter_unique(s2, p);
        lemma_filter_subset(s2, p);
        let sub = s2.filter(p);
        if p(s.last()) {
            let f = sub.push(s.last());
            assert(s.filter(p) == f);
            assert forall|i: int, j: int|
                0 <= i < f.len() && 0 <= j < f.len() && i != j implies f[i].id != f[j].id by {
                if i < sub.len() && j < sub.len() {
                    assert(f[i] == sub[i] && f[j] == sub[j]);
                } else if i < sub.len() {
                    let a = choose|a: int| 0 <= a < s2.len() && s2[a] == #[trigger] sub[i];
                    assert(s[a] == f[i]);
                    assert(s[s.len() - 1] == f[j]);
                } else {
                    let a = choose|a: int| 0 <= a < s2.len() && s2[a] == #[trigger] sub[j];
                    assert(s[a] == f[j]);
                    assert(s[s.len() - 1] == f[i]);
                }
            }
        }
    }
}

proof fn lemma_filter_push(s: Seq<PeerEntryView>, x: PeerEntryView, p: spec_fn(PeerEntryView) -> bool)
    ensures
        s.push(x).filter(p) == if p(x) {
            s.filter(p).push(x)
        } else {
            s.filter(p)
        },
{
    reveal(Seq::filter);
    assert(s.push(x).drop_last() =~= s);
    assert(s.push(x).last() == x);
}

// ---------------------------------------------------------------------------
// Operations
// ---------------------------------------------------------------------------

fn text_of(s: &str) -> (r: String)
    ensures
        r@ == s@,
{
    let v = chars_of(s);
    string_of(&v)
}

impl NetworkNode {
    /// A node with no known peers and no sessions.
    pub fn new(port: u16, id: String, alias: String, pubkey: String) -> (r: Self)
        requires
            port <= MAX_PORT,
        ensures
            r.wf(),
            r.port == port,
            r.id@ == id@,
            r.alias@ == alias@,
            r.pubkey@ == pubkey@,
            r.peers@.len() == 0,
            r.sessions@.len() == 0,
    {
        let r = NetworkNode { port, id, alias, pubkey, peers: Vec::new(), sessions: Vec::new() };
        assert(r.peer_seq() =~= Seq::<PeerEntryView>::empty());
        assert(r.session_seq() =~= Seq::<SessionView>::empty());
        r
    }

    /// Port of the stream listener: the datagram port plus the fixed offset.
    pub fn get_tcp_port(&self) -> (r: u16)
        requires
            self.wf(),
        ensures
            r == self.tcp_port_spec(),
            r as int == self.port + TCP_PORT_OFFSET,
    {
        self.port + TCP_PORT_OFFSET
    }

    /// Position of the peer with this id.
    fn find_peer(&self, id: &str) -> (r: Option<usize>)
        ensures
            match r {
                Some(k) => k < self.peers@.len() && self.peers@[k as int]@.id == id@ && peer_pos(
                    self.peer_seq(),
                    id@,
                ) == k,
                None => !self.knows(id@) && peer_pos(self.peer_seq(), id@) == -1,
            },
    {
        let ghost s = self.peer_seq();
        let target = chars_of(id);
        let mut k: usize = 0;
        while k < self.peers.len()
            invariant
                s == self.peer_seq(),
                target@ == id@,
                k <= self.peers@.len(),
                forall|m: int| 0 <= m < k ==> (#[trigger] self.peers@[m])@.id != id@,
            decreases self.peers@.len() - k,
        {
            let cand = chars_of(self.peers[k].id.as_str());
            if crate::json::same_chars(&cand, &target) {
                proof {
                    assert forall|m: int| 0 <= m < k implies s[m].id != id@ by {
                        assert(s[m] == self.peers@[m]@);
                    }
                    lemma_peer_pos_found(s, id@, k as int);
                }
                return Some(k);
            }
            k = k + 1;
        }
        proof {
            assert forall|m: int| 0 <= m < s.len() implies s[m].id != id@ by {
                assert(s[m] == self.peers@[m]@);
            }
            lemma_peer_pos_skip(s, id@, 0, s.len() as int);
        }
        None
    }

    /// Position of the session with this peer.
    fn find_session(&self, id: &str) -> (r: Option<usize>)
        ensures
            match r {
                Some(k) => k < self.sessions@.len() && self.sessions@[k as int]@.peer_id == id@
                    && session_pos(self.session_seq(), id@) == k,
                None => !self.connected(id@) && session_pos(self.session_seq(), id@) == -1,
            },
    {
        let ghost s = self.session_seq();
        let target = chars_of(id);
        let mut k: usize = 0;
        while k < self.sessions.len()
            invariant
                s == self.session_seq(),
                target@ == id@,
                k <= self.sessions@.len(),
                forall|m: int| 0 <= m < k ==> (#[trigger] self.sessions@[m])@.peer_id != id@,
            decreases self.sessions@.len() - k,
        {
            let cand = chars_of(self.sessions[k].peer_id.as_str());
            if crate::json::same_chars(&cand, &target) {
                proof {
                    assert forall|m: int| 0 <= m < k implies s[m].peer_id != id@ by {
                        assert(s[m] == self.sessions@[m]@);
                    }
                    lemma_session_pos_skip(s, id@, 0, k as int);
                }
                return Some(k);
            }
            k = k + 1;
        }
        proof {
            assert forall|m: int| 0 <= m < s.len() implies s[m].peer_id != id@ by {
                assert(s[m] == self.sessions@[m]@);
            }
            lemma_session_pos_skip(s, id@, 0, s.len() as int);
        }
        None
    }

    /// Whether a stream session with this peer exists.
    pub fn has_tcp_connection(&self, peer_id: &str) -> (r: bool)
        ensures
            r == self.connected(peer_id@),
    {
        self.find_session(peer_id).is_some()
    }

    /// Insert-or-update of a peer's record: always refreshes `last_seen_ms` and
    /// the address, so the registry holds one record per id.
    #[verifier::spinoff_prover]
    pub fn upsert(
        &mut self,
        id: &str,
        alias: Option<&str>,
        pubkey: Option<&str>,
        addr: PeerAddr,
        tcp_port: Option<u16>,
        now: u64,
    )
        requires
            old(self).wf(),
        ensures
            final(self).wf(),
            final(self).peer_seq() == upserted(
                old(self).peer_seq(),
                id@,
                match alias {
                    Some(a) => Some(a@),
                    None => None,
                },
                match pubkey {
                    Some(k) => Some(k@),
                    None => None,
                },
                addr,
                tcp_port,
                now,
            ),
            final(self).sessions == old(self).sessions,
            final(self).port == old(self).port,
            final(self).id == old(self).id,
            final(self).alias == old(self).alias,
            final(self).pubkey == old(self).pubkey,
    {
        let ghost s = self.peer_seq();
        let ghost a_view = match alias {
            Some(a) => Some(a@),
            None => None::<Seq<char>>,
        };
        let ghost k_view = match pubkey {
            Some(k) => Some(k@),
            None => None::<Seq<char>>,
        };
        match self.find_peer(id) {
            Some(k) => {
                let new_alias = match alias {
                    Some(a) => text_of(a),
                    None => self.peers[k].alias.clone(),
                };
                let new_pubkey = match pubkey {
                    Some(p) => text_of(p),
                    None => self.peers[k].pubkey.clone(),
                };
                let new_port = match tcp_port {
                    Some(p) => Some(p),
                    None => self.peers[k].tcp_port,
                };
                let e = PeerEntry {
                    id: text_of(id),
                    alias: new_alias,
                    pubkey: new_pubkey,
                    last_seen_ms: now,
                    addr,
                    tcp_port: new_port,
                };
                assert(e@ == refreshed(Some(s[k as int]), id@, a_view, k_view, addr, tcp_port, now));
                self.peers.set(k, e);
                assert(self.peer_seq() =~= s.update(
                    k as int,
                    refreshed(Some(s[k as int]), id@, a_view, k_view, addr, tcp_port, now),
                ));
            },
            None => {
                let e = PeerEntry {
                    id: text_of(id),
                    alias: match alias {
                        Some(a) => text_of(a),
                        None => text_of(id),
                    },
                    pubkey: match pubkey {
                        Some(p) => text_of(p),
                        None => text_of(id),
                    },
                    last_seen_ms: now,
                    addr,
                    tcp_port,
                };
                assert(e@ == refreshed(None, id@, a_view, k_view, addr, tcp_port, now));
                self.peers.push(e);
                assert(self.peer_seq() =~= s.push(
                    refreshed(None, id@, a_view, k_view, addr, tcp_port, now),
                ));
                assert forall|m: int| 0 <= m < s.len() implies s[m].id != id@ by {
                    assert(s[m] == old(self).peers@[m]@);
                }
            },
        }
    }

    /// Drops every peer silent for longer than `threshold` milliseconds at `now`;
    /// the others stay, in order.
    #[verifier::spinoff_prover]
    pub fn evict_stale(&mut self, now: u64, threshold: u64)
        requires
            old(self).wf(),
        ensures
            final(self).wf(),
            final(self).peer_seq() == old(self).peer_seq().filter(fresh_pred(now, threshold)),
            final(self).sessions == old(self).sessions,
            final(self).port == old(self).port,
            final(self).id == old(self).id,
            final(self).alias == old(self).alias,
            final(self).pubkey == old(self).pubkey,
    {
        let ghost s = self.peer_seq();
        let ghost p = fresh_pred(now, threshold);
        let mut kept: Vec<PeerEntry> = Vec::new();
        let mut i: usize = 0;
        proof {
            reveal(Seq::filter);
            assert(s.take(0) =~= Seq::<PeerEntryView>::empty());
            assert(peer_views(kept@) =~= s.take(0).filter(p));
        }
        while i < self.peers.len()
            invariant
                s == self.peer_seq(),
                p == fresh_pred(now, threshold),
                i <= self.peers@.len(),
                peer_views(kept@) == s.take(i as int).filter(p),
            decreases self.peers@.len() - i,
        {
            let last = self.peers[i].last_seen_ms;
            let fresh = last >= now || now - last <= threshold;
            proof {
                lemma_filter_push(s.take(i as int), s[i as int], p);
                assert(s.take(i + 1) =~= s.take(i as int).push(s[i as int]));
                assert(s[i as int] == self.peers@[i as int]@);
            }
            if fresh {
                let e = self.peers[i].clone_entry();
                let ghost before = kept@;
                kept.push(e);
                assert(peer_views(kept@) =~= peer_views(before).push(s[i as int]));
            }
            i = i + 1;
        }
        proof {
            assert(s.take(i as int) =~= s);
            lemma_filter_unique(s, p);
        }
        self.peers = kept;
    }

    /// One scheduled sweep: evicts peers silent for longer than the stale threshold.
    pub fn maybe_gc_stale(&mut self, now: u64)
        requires
            old(self).wf(),
        ensures
            final(self).wf(),
            final(self).peer_seq() == old(self).peer_seq().filter(fresh_pred(now, PEER_STALE_MS)),
            final(self).sessions == old(self).sessions,
    {
        self.evict_stale(now, PEER_STALE_MS);
    }
}

impl NetworkNode {
    /// Refreshes the last-seen time of the peer with this id, if it is known.
    pub fn touch_peer(&mut self, id: &str, now: u64)
        requires
            old(self).wf(),
        ensures
            final(self).wf(),
            final(self).peer_seq() == seen_at(old(self).peer_seq(), id@, now),
            final(self).sessions == old(self).sessions,
            final(self).port == old(self).port,
            final(self).id == old(self).id,
            final(self).alias == old(self).alias,
            final(self).pubkey == old(self).pubkey,
    {
        let ghost s = self.peer_seq();
        match self.find_peer(id) {
            Some(k) => {
                let mut e = self.peers[k].clone_entry();
                e.last_seen_ms = now;
                self.peers.set(k, e);
                assert(self.peer_seq() =~= s.update(k as int, PeerEntryView { last_seen_ms: now, ..s[k as int] }));
                assert forall|i: int, j: int|
                    0 <= i < self.peer_seq().len() && 0 <= j < self.peer_seq().len() && i != j
                        implies self.peer_seq()[i].id != self.peer_seq()[j].id by {
                    assert(s[i].id != s[j].id);
                }
            },
            None => {},
        }
    }
}

impl PeerEntry {
    /// A copy of this record.
    pub fn clone_entry(&self) -> (r: PeerEntry)
        ensures
            r@ == self@,
    {
        PeerEntry {
            id: self.id.clone(),
            alias: self.alias.clone(),
            pubkey: self.pubkey.clone(),
            last_seen_ms: self.last_seen_ms,
            addr: self.addr,
            tcp_port: self.tcp_port,
        }
    }
}

impl NetworkNode {
    /// Registers (or resets) the stream session with `peer_id` after a handshake.
    pub fn register_session(&mut self, peer_id: &str, now: u64)
        requires
            old(self).wf(),
        ensures
            final(self).wf(),
            final(self).connected(peer_id@),
            final(self).session_seq() == registered(old(self).session_seq(), peer_id@, now),
            final(self).peers == old(self).peers,
            final(self).port == old(self).port,
            final(self).id == old(self).id,
            final(self).alias == old(self).alias,
            final(self).pubkey == old(self).pubkey,
    {
        let ghost s = self.session_seq();
        let fresh = Session { peer_id: text_of(peer_id), message_count: 0, last_activity_ms: now };
        match self.find_session(peer_id) {
            Some(k) => {
                self.sessions.set(k, fresh);
                assert(self.session_seq() =~= s.update(k as int, fresh@));
                assert(self.sessions@[k as int]@.peer_id == peer_id@);
                assert forall|i: int, j: int|
                    0 <= i < self.session_seq().len() && 0 <= j < self.session_seq().len() && i
                        != j implies self.session_seq()[i].peer_id != self.session_seq()[j].peer_id by {
                    assert(s[i].peer_id != s[j].peer_id);
                }
            },
            None => {
                self.sessions.push(fresh);
                assert(self.session_seq() =~= s.push(fresh@));
                assert forall|m: int| 0 <= m < s.len() implies s[m].peer_id != peer_id@ by {
                    assert(s[m] == old(self).sessions@[m]@);
                }
                assert(self.sessions@[s.len() as int]@.peer_id == peer_id@);
                assert forall|i: int, j: int|
                    0 <= i < self.session_seq().len() && 0 <= j < self.session_seq().len() && i
                        != j implies self.session_seq()[i].peer_id != self.session_seq()[j].peer_id by {
                    if i < s.len() && j < s.len() {
                        assert(s[i].peer_id != s[j].peer_id);
                    }
                }
            },
        }
    }

    /// Counts one frame received on the session with `peer_id` at `now`.
    pub fn record_stream_activity(&mut self, peer_id: &str, now: u64)
        requires
            old(self).wf(),
        ensures
            final(self).wf(),
            final(self).session_seq() == touched(old(self).session_seq(), peer_id@, now),
            final(self).peers == old(self).peers,
            final(self).port == old(self).port,
            final(self).id == old(self).id,
            final(self).alias == old(self).alias,
            final(self).pubkey == old(self).pubkey,
    {
        let ghost s = self.session_seq();
        match self.find_session(peer_id) {
            Some(k) => {
                let count = self.sessions[k].message_count;
                let e = Session {
                    peer_id: self.sessions[k].peer_id.clone(),
                    message_count: if count < u64::MAX {
                        count + 1
                    } else {
                        count
                    },
                    last_activity_ms: now,
                };
                self.sessions.set(k, e);
                assert(self.session_seq() =~= s.update(k as int, e@));
                assert forall|i: int, j: int|
                    0 <= i < self.session_seq().len() && 0 <= j < self.session_seq().len() && i
                        != j implies self.session_seq()[i].peer_id != self.session_seq()[j].peer_id by {
                    assert(s[i].peer_id != s[j].peer_id);
                }
            },
            None => {},
        }
    }

    /// Drops every session idle for longer than `max_idle` milliseconds at
    /// `now`; the caller closes their streams.
    pub fn reap_idle_sessions(&mut self, now: u64, max_idle: u64)
        requires
            old(self).wf(),
        ensures
            final(self).wf(),
            final(self).session_seq() == old(self).session_seq().filter(active_pred(now, max_idle)),
            final(self).peers == old(self).peers,
            final(self).port == old(self).port,
            final(self).id == old(self).id,
            final(self).alias == old(self).alias,
            final(self).pubkey == old(self).pubkey,
    {
        let ghost s = self.session_seq();
        let ghost p = active_pred(now, max_idle);
        let mut kept: Vec<Session> = Vec::new();
        let mut i: usize = 0;
        proof {
            reveal(Seq::filter);
            assert(s.take(0) =~= Seq::<SessionView>::empty());
            assert(session_views(kept@) =~= s.take(0).filter(p));
        }
        while i < self.sessions.len()
            invariant
                s == self.session_seq(),
                p == active_pred(now, max_idle),
                i <= self.sessions@.len(),
                session_views(kept@) == s.take(i as int).filter(p),
            decreases self.sessions@.len() - i,
        {
            let last = self.sessions[i].last_activity_ms;
            let active = last >= now || now - last <= max_idle;
            proof {
                lemma_filter_push_sessions(s.take(i as int), s[i as int], p);
                assert(s.take(i + 1) =~= s.take(i as int).push(s[i as int]));
                assert(s[i as int] == self.sessions@[i as int]@);
            }
            if active {
                let x = Session {
                    peer_id: self.sessions[i].peer_id.clone(),
                    message_count: self.sessions[i].message_count,
                    last_activity_ms: last,
                };
                let ghost before = kept@;
                kept.push(x);
                assert(session_views(kept@) =~= session_views(before).push(s[i as int]));
            }
            i = i + 1;
        }
        proof {
            assert(s.take(i as int) =~= s);
            lemma_filter_unique_sessions(s, p);
        }
        self.sessions = kept;
    }

    /// Removes the session with `peer_id`, after its stream ended or failed.
    pub fn close_session(&mut self, peer_id: &str)
        requires
            old(self).wf(),
        ensures
            final(self).wf(),
            !final(self).connected(peer_id@),
            ({
                let s = old(self).session_seq();
                let k = session_pos(s, peer_id@);
                final(self).session_seq() == if k >= 0 {
                    s.remove(k)
                } else {
                    s
                }
            }),
            final(self).peers == old(self).peers,
            final(self).port == old(self).port,
            final(self).id == old(self).id,
            final(self).alias == old(self).alias,
            final(self).pubkey == old(self).pubkey,
    {
        let ghost s = self.session_seq();
        match self.find_session(peer_id) {
            Some(k) => {
                self.sessions.remove(k);
                assert(self.session_seq() =~= s.remove(k as int));
                assert forall|i: int| 0 <= i < self.sessions@.len() implies (
                #[trigger] self.sessions@[i])@.peer_id != peer_id@ by {
                    assert(s[k as int].peer_id == peer_id@);
                    if i < k {
                        assert(self.sessions@[i]@ == s[i]);
                        assert(s[i].peer_id != s[k as int].peer_id);
                    } else {
                        assert(self.sessions@[i]@ == s[i + 1]);
                        assert(s[i + 1].peer_id != s[k as int].peer_id);
                    }
                }
            },
            None => {},
        }
    }

    /// The registry as the application sees it, in registry order.
    pub fn list_peers(&self) -> (r: Vec<PeerInfo>)
        ensures
            r@.len() == self.peers@.len(),
            forall|i: int|
                0 <= i < r@.len() ==> {
                    let p = self.peers@[i]@;
                    &&& (#[trigger] r@[i]).id@ == p.id
                    &&& r@[i].alias@ == p.alias
                    &&& r@[i].pubkey@ == p.pubkey
                    &&& r@[i].last_seen_ms == p.last_seen_ms
                    &&& r@[i].tcp_port == p.tcp_port
                    &&& r@[i].connection_type@ == if self.connected(p.id) {
                        "TCP"@
                    } else {
                        "UDP"@
                    }
                },
    {
        let mut r: Vec<PeerInfo> = Vec::new();
        let mut i: usize = 0;
        while i < self.peers.len()
            invariant
                i <= self.peers@.len(),
                r@.len() == i,
                forall|m: int|
                    0 <= m < i ==> {
                        let p = self.peers@[m]@;
                        &&& (#[trigger] r@[m]).id@ == p.id
                        &&& r@[m].alias@ == p.alias
                        &&& r@[m].pubkey@ == p.pubkey
                        &&& r@[m].last_seen_ms == p.last_seen_ms
                        &&& r@[m].tcp_port == p.tcp_port
                        &&& r@[m].connection_type@ == if self.connected(p.id) {
                            "TCP"@
                        } else {
                            "UDP"@
                        }
                    },
            decreases self.peers@.len() - i,
        {
            let p = &self.peers[i];
            let kind = if self.has_tcp_connection(p.id.as_str()) {
                text_of("TCP")
            } else {
                text_of("UDP")
            };
            r.push(
                PeerInfo {
                    id: p.id.clone(),
                    alias: p.alias.clone(),
                    pubkey: p.pubkey.clone(),
                    last_seen_ms: p.last_seen_ms,
                    connection_type: kind,
                    tcp_port: p.tcp_port,
                },
            );
            i = i + 1;
        }
        r
    }

    /// Statistics of the session with `peer_id` at `now`, if one exists.
    pub fn get_connection_stats(&self, peer_id: &str, now: u64) -> (r: Option<ConnectionStats>)
        ensures
            match r {
                Some(st) => {
                    let k = session_pos(self.session_seq(), peer_id@);
                    &&& k >= 0
                    &&& st.peer_id@ == peer_id@
                    &&& st.is_connected
                    &&& st.message_count == self.sessions@[k]@.message_count
                    &&& st.last_activity_ms == if now >= self.sessions@[k]@.last_activity_ms {
                        (now - self.sessions@[k]@.last_activity_ms) as u64
                    } else {
                        0
                    }
                    &&& st.last_test_time_ms is None
                },
                None => !self.connected(peer_id@),
            },
    {
        match self.find_session(peer_id) {
            Some(k) => {
                let c = &self.sessions[k];
                let elapsed = if now >= c.last_activity_ms {
                    now - c.last_activity_ms
                } else {
                    0
                };
                Some(
                    ConnectionStats {
                        peer_id: text_of(peer_id),
                        is_connected: true,
                        message_count: c.message_count,
                        last_activity_ms: elapsed,
                        last_test_time_ms: None,
                    },
                )
            },
            None => None,
        }
    }

    /// The two broadcast datagrams, presence then probe, with the current alias.
    pub fn announce(&self) -> (r: Vec<Outgoing>)
        ensures
            r@.len() == 2,
            r@[0].to == self.broadcast_addr(),
            r@[0].data@ == self.announcement()[0].1,
            r@[1].to == self.broadcast_addr(),
            r@[1].data@ == self.announcement()[1].1,
    {
        let to = PeerAddr { ip: BROADCAST_IP, port: self.port };
        let presence = NetworkMessage::Peer {
            id: self.id.clone(),
            alias: self.alias.clone(),
            pubkey: self.pubkey.clone(),
        };
        let probe = NetworkMessage::Ping { id: self.id.clone(), alias: self.alias.clone() };
        let a = Outgoing { to, data: presence.encode() };
        let b = Outgoing { to, data: probe.encode() };
        vec![a, b]
    }

    /// Replaces the alias and returns the broadcast to send at once.
    pub fn set_alias(&mut self, new_alias: String) -> (r: Vec<Outgoing>)
        requires
            old(self).wf(),
        ensures
            final(self).wf(),
            final(self).alias@ == new_alias@,
            final(self).id == old(self).id,
            final(self).pubkey == old(self).pubkey,
            final(self).port == old(self).port,
            final(self).peers == old(self).peers,
            final(self).sessions == old(self).sessions,
            r@.len() == 2,
            r@[0].to == final(self).broadcast_addr(),
            r@[0].data@ == final(self).announcement()[0].1,
            r@[1].to == final(self).broadcast_addr(),
            r@[1].data@ == final(self).announcement()[1].1,
    {
        self.alias = new_alias;
        self.announce()
    }
}

/// What became of one frame read from a stream connection.
#[derive(Debug, Clone)]
pub enum FrameOutcome {
    /// The handshake bound the connection to this peer; its session is registered.
    Registered(String),
    /// A frame of an authenticated connection, for the application.
    Forward(NetworkMessage),
    /// Dropped with no effect: a blank line, a frame that is not a message or a
    /// repeated handshake on an authenticated connection, or any frame of a
    /// rejected connection.
    Discarded,
    /// The first message was not a handshake: the connection is rejected for
    /// good and the caller closes it.
    Rejected,
}

/// The reading side of one stream connection: bytes not yet framed, the peer
/// that the handshake named once it came, and whether the connection was
/// rejected because its first message was not a handshake.
pub struct StreamReader {
    pub pending: Vec<char>,
    pub peer: Option<String>,
    pub rejected: bool,
}

impl StreamReader {
    /// A reader for a fresh, unauthenticated connection.
    pub fn new() -> (r: Self)
        ensures
            r.pending@.len() == 0,
            r.peer is None,
            !r.rejected,
    {
        StreamReader { pending: Vec::new(), peer: None, rejected: false }
    }

    /// Appends text read from the connection.
    pub fn push_text(&mut self, chunk: &str)
        ensures
            final(self).pending@ == old(self).pending@ + chunk@,
            final(self).peer == old(self).peer,
            final(self).rejected == old(self).rejected,
    {
        let cs = chars_of(chunk);
        let mut i: usize = 0;
        let ghost start = self.pending@;
        assert(cs@.take(0) =~= Seq::<char>::empty());
        assert(start + cs@.take(0) =~= start);
        while i < cs.len()
            invariant
                i <= cs@.len(),
                cs@ == chunk@,
                self.pending@ == start + cs@.take(i as int),
                self.peer == old(self).peer,
                self.rejected == old(self).rejected,
            decreases cs@.len() - i,
        {
            self.pending.push(cs[i]);
            assert(cs@.take(i + 1) =~= cs@.take(i as int).push(cs@[i as int]));
            assert(self.pending@ =~= start + cs@.take(i + 1));
            i = i + 1;
        }
        assert(cs@.take(i as int) =~= cs@);
    }

    /// Takes the next complete line, without its line feed, if there is one.
    pub fn next_line(&mut self) -> (r: Option<String>)
        ensures
            final(self).peer == old(self).peer,
            final(self).rejected == old(self).rejected,
            match r {
                Some(line) => old(self).pending@ == line@.push('\n') + final(self).pending@
                    && !line@.contains('\n'),
                None => !old(self).pending@.contains('\n') && final(self).pending@ == old(
                    self,
                ).pending@,
            },
    {
        let mut k: usize = 0;
        while k < self.pending.len()
            invariant
                self.pending@ == old(self).pending@,
                self.peer == old(self).peer,
                self.rejected == old(self).rejected,
                k <= self.pending@.len(),
                forall|m: int| 0 <= m < k ==> self.pending@[m] != '\n',
            decreases self.pending@.len() - k,
        {
            if self.pending[k] == '\n' {
                let ghost all = self.pending@;
                let mut line: Vec<char> = Vec::new();
                let mut rest: Vec<char> = Vec::new();
                let mut i: usize = 0;
                while i < self.pending.len()
                    invariant
                        self.pending@ == all,
                        all == old(self).pending@,
                        self.peer == old(self).peer,
                        self.rejected == old(self).rejected,
                        k < all.len(),
                        i <= all.len(),
                        line@ == all.take(if i < k { i as int } else { k as int }),
                        rest@ == if i <= k + 1 { Seq::<char>::empty() } else { all.subrange(k + 1, i as int) },
                    decreases all.len() - i,
                {
                    if i < k {
                        line.push(self.pending[i]);
                        assert(all.take(i + 1) =~= all.take(i as int).push(all[i as int]));
                    } else if i > k {
                        rest.push(self.pending[i]);
                        if i == k + 1 {
                            assert(all.subrange(k + 1, i + 1) =~= seq![all[i as int]]);
                        } else {
                            assert(all.subrange(k + 1, i + 1) =~= all.subrange(k + 1, i as int).push(all[i as int]));
                        }
                    }
                    i = i + 1;
                }
                proof {
                    if all.len() <= k + 1 {
                        assert(all.subrange(k + 1, all.len() as int) =~= Seq::<char>::empty());
                    }
                    assert(all =~= all.take(k as int).push('\n') + all.subrange(k + 1, all.len() as int));
                    assert forall|m: int| 0 <= m < line@.len() implies line@[m] != '\n' by {
                        assert(line@[m] == all[m]);
                    }
                }
                self.pending = rest;
                return Some(string_of(&line));
            }
            k = k + 1;
        }
        None
    }

    /// Handles one frame, read without surrounding whitespace; blank frames
    /// and frames that are not a message are dropped and reading goes on. The
    /// first message must be a handshake: it registers the session under the
    /// id it names. Any other first message rejects the connection for good: nothing of it is ever registered or forwarded, a
    /// later handshake included. On an authenticated connection each frame
    /// that is a message other than a handshake counts as activity and is
    /// forwarded.
    #[verifier::spinoff_prover]
    pub fn on_frame(&mut self, node: &mut NetworkNode, line: &str, now: u64) -> (r: FrameOutcome)
        requires
            old(node).wf(),
            old(self).rejected ==> old(self).peer is None,
        ensures
            final(node).wf(),
            final(node).id == old(node).id,
            final(node).alias == old(node).alias,
            final(node).pubkey == old(node).pubkey,
            final(node).port == old(node).port,
            final(self).pending == old(self).pending,
            final(self).rejected ==> final(self).peer is None,
            r is Registered || r is Forward ==> final(node).peer_seq() == seen_at(
                old(node).peer_seq(),
                final(self).peer->0@,
                now,
            ),
            !(r is Registered || r is Forward) ==> final(node).peers == old(node).peers,
            old(self).rejected ==> {
                &&& final(self).rejected
                &&& final(node).sessions == old(node).sessions
                &&& r is Discarded
            },
            !old(self).rejected && trimmed(line@).len() == 0 ==> {
                &&& final(self).peer == old(self).peer
                &&& !final(self).rejected
                &&& final(node).sessions == old(node).sessions
                &&& r is Discarded
            },
            !old(self).rejected && trimmed(line@).len() > 0 ==> match old(self).peer {
                None => match decode_object(trimmed(line@)) {
                    Ok(MessageView::TcpHandshake { from, .. }) => {
                        &&& final(self).peer matches Some(p) && p@ == from
                        &&& !final(self).rejected
                        &&& final(node).session_seq() == registered(
                            old(node).session_seq(),
                            from,
                            now,
                        )
                        &&& r matches FrameOutcome::Registered(p) && p@ == from
                    },
                    Ok(_) => {
                        &&& final(self).peer is None
                        &&& final(self).rejected
                        &&& final(node).sessions == old(node).sessions
                        &&& r is Rejected
                    },
                    Err(_) => {
                        &&& final(self).peer is None
                        &&& !final(self).rejected
                        &&& final(node).sessions == old(node).sessions
                        &&& r is Discarded
                    },
                },
                Some(pid) => {
                    &&& final(self).peer == old(self).peer
                    &&& !final(self).rejected
                    &&& match decode_object(trimmed(line@)) {
                        Ok(MessageView::TcpHandshake { .. }) => {
                            &&& final(node).sessions == old(node).sessions
                            &&& r is Discarded
                        },
                        Ok(v) => {
                            &&& final(node).session_seq() == touched(
                                old(node).session_seq(),
                                pid@,
                                now,
                            )
                            &&& r matches FrameOutcome::Forward(m) && m@ == v
                        },
                        Err(_) => {
                            &&& final(node).sessions == old(node).sessions
                            &&& r is Discarded
                        },
                    }
                },
            },
    {
        if self.rejected {
            return FrameOutcome::Discarded;
        }
        let cs = chars_of(line);
        let (a, b) = trim_bounds(&cs, 0, cs.len());
        assert(cs@.subrange(0, cs@.len() as int) =~= line@);
        if a == b {
            return FrameOutcome::Discarded;
        }
        let text = line.substring_char(a, b);
        let decoded = NetworkMessage::decode(text);
        match &self.peer {
            None => {
                match decoded {
                    Ok(NetworkMessage::TcpHandshake { from, .. }) => {
                        node.register_session(from.as_str(), now);
                        node.touch_peer(from.as_str(), now);
                        self.peer = Some(from.clone());
                        FrameOutcome::Registered(from)
                    },
                    Ok(_) => {
                        self.rejected = true;
                        FrameOutcome::Rejected
                    },
                    Err(_) => FrameOutcome::Discarded,
                }
            },
            Some(pid) => {
                match decoded {
                    Ok(msg) => match &msg {
                        NetworkMessage::TcpHandshake { .. } => FrameOutcome::Discarded,
                        _ => {
                            node.record_stream_activity(pid.as_str(), now);
                            node.touch_peer(pid.as_str(), now);
                            FrameOutcome::Forward(msg)
                        },
                    },
                    Err(_) => FrameOutcome::Discarded,
                }
            },
        }
    }
}

impl NetworkNode {
    /// Dispatches one inbound datagram from `src` at `now`. Text that is not a
    /// message is dropped with no effect. Otherwise the registry records the
    /// claimed id with the observed source address, and the effects are those
    /// of `datagram_effects`.
    #[verifier::spinoff_prover]
    pub fn handle_datagram(&mut self, src: PeerAddr, data: &str, now: u64) -> (r: Vec<Effect>)
        requires
            old(self).wf(),
        ensures
            final(self).wf(),
            final(self).sessions == old(self).sessions,
            final(self).id == old(self).id,
            final(self).alias == old(self).alias,
            final(self).pubkey == old(self).pubkey,
            final(self).port == old(self).port,
            match decode_object(data@) {
                Err(_) => final(self).peer_seq() == old(self).peer_seq() && r@.len() == 0,
                Ok(v) => {
                    &&& final(self).peer_seq() == after_datagram(old(self).peer_seq(), v, src, now)
                    &&& effect_views(r@) == datagram_effects(
                        old(self).id@,
                        old(self).alias@,
                        old(self).tcp_port_spec(),
                        v,
                        src,
                    )
                },
            },
    {
        let msg = match NetworkMessage::decode(data) {
            Ok(m) => m,
            Err(_) => {
                return Vec::new();
            },
        };
        let mut effects: Vec<Effect> = Vec::new();
        match &msg {
            NetworkMessage::Peer { id, alias, pubkey } => {
                self.upsert(id.as_str(), Some(alias.as_str()), Some(pubkey.as_str()), src, None, now);
            },
            NetworkMessage::Ping { id, alias } => {
                self.upsert(id.as_str(), Some(alias.as_str()), None, src, None, now);
                let pong = NetworkMessage::Pong { id: self.id.clone(), alias: self.alias.clone() };
                effects.push(Effect::Send(Outgoing { to: src, data: pong.encode() }));
            },
            NetworkMessage::Pong { id, alias } => {
                self.upsert(id.as_str(), Some(alias.as_str()), None, src, None, now);
            },
            NetworkMessage::Block { .. } => {
                return effects;
            },
            NetworkMessage::DirectBlock { from, .. } => {
                self.upsert(from.as_str(), None, None, src, None, now);
            },
            NetworkMessage::TcpConnectionRequest { from, from_alias, tcp_port } => {
                self.upsert(from.as_str(), Some(from_alias.as_str()), None, src, Some(*tcp_port), now);
                let answer = NetworkMessage::TcpConnectionResponse {
                    from: self.id.clone(),
                    to: from.clone(),
                    accepted: true,
                    tcp_port: self.get_tcp_port(),
                };
                effects.push(Effect::Send(Outgoing { to: src, data: answer.encode() }));
            },
            NetworkMessage::TcpConnectionResponse { from, accepted, tcp_port, .. } => {
                self.upsert(from.as_str(), None, None, src, Some(*tcp_port), now);
                if *accepted {
                    effects.push(
                        Effect::Connect {
                            peer_id: from.clone(),
                            addr: PeerAddr { ip: src.ip, port: *tcp_port },
                        },
                    );
                }
            },
            NetworkMessage::TcpKeepalive { from } => {
                self.upsert(from.as_str(), None, None, src, None, now);
            },
            NetworkMessage::TcpConnectionTest { from, .. } => {
                self.upsert(from.as_str(), None, None, src, None, now);
            },
            NetworkMessage::TcpConnectionTestResponse { from, .. } => {
                self.upsert(from.as_str(), None, None, src, None, now);
            },
            NetworkMessage::TcpHandshake { from, from_alias, pubkey } => {
                self.upsert(
                    from.as_str(),
                    Some(from_alias.as_str()),
                    Some(pubkey.as_str()),
                    src,
                    None,
                    now,
                );
            },
        }
        let ghost before = effects@;
        effects.push(Effect::Forward(msg));
        proof {
            assert(effect_views(effects@) =~= effect_views(before).push(EffectView::Forward(msg@)));
        }
        effects
    }

    /// The `Direct` datagram for `payload` to the peer's last known address.
    pub fn datagram_route(&self, peer_id: &str, payload: &str) -> (r: Result<Outgoing, NetError>)
        ensures
            match r {
                Ok(o) => {
                    let k = peer_pos(self.peer_seq(), peer_id@);
                    &&& k >= 0
                    &&& o.to == self.peer_seq()[k].addr
                    &&& o.data@ == wire_text(direct_view(self.id@, peer_id@, payload@))
                },
                Err(e) => !self.knows(peer_id@) && e == NetError::PeerNotFound,
            },
    {
        match self.find_peer(peer_id) {
            Some(k) => {
                let msg = NetworkMessage::DirectBlock {
                    from: self.id.clone(),
                    to: text_of(peer_id),
                    payload_json: text_of(payload),
                };
                Ok(Outgoing { to: self.peers[k].addr, data: msg.encode() })
            },
            None => Err(NetError::PeerNotFound),
        }
    }

    /// Transport selection for `payload` to `peer_id`: a live stream session
    /// carries one `Direct` line; else one `Direct` datagram goes to the
    /// peer's last known address; else the peer is not found.
    #[verifier::spinoff_prover]
    pub fn route(&self, peer_id: &str, payload: &str) -> (r: Result<Route, NetError>)
        ensures
            match r {
                Ok(Route::Stream { peer_id: p, frame }) => {
                    &&& self.connected(peer_id@)
                    &&& p@ == peer_id@
                    &&& frame@ == frame_text(direct_view(self.id@, peer_id@, payload@))
                },
                Ok(Route::Datagram(o)) => {
                    let k = peer_pos(self.peer_seq(), peer_id@);
                    &&& !self.connected(peer_id@)
                    &&& k >= 0
                    &&& o.to == self.peer_seq()[k].addr
                    &&& o.data@ == wire_text(direct_view(self.id@, peer_id@, payload@))
                },
                Err(e) => {
                    &&& !self.connected(peer_id@)
                    &&& !self.knows(peer_id@)
                    &&& e == NetError::PeerNotFound
                },
            },
    {
        if self.has_tcp_connection(peer_id) {
            let msg = NetworkMessage::DirectBlock {
                from: self.id.clone(),
                to: text_of(peer_id),
                payload_json: text_of(payload),
            };
            Ok(Route::Stream { peer_id: text_of(peer_id), frame: msg.encode_line() })
        } else {
            match self.datagram_route(peer_id, payload) {
                Ok(o) => Ok(Route::Datagram(o)),
                Err(e) => Err(e),
            }
        }
    }

    /// The upgrade request for `peer_id`, sent to its last known address, and
    /// its stream address if it advertised a stream port.
    pub fn upgrade_request(&self, peer_id: &str) -> (r: Result<UpgradePlan, NetError>)
        requires
            self.wf(),
        ensures
            match r {
                Ok(plan) => {
                    let k = peer_pos(self.peer_seq(), peer_id@);
                    let p = self.peer_seq()[k];
                    &&& k >= 0
                    &&& plan.request.to == p.addr
                    &&& plan.request.data@ == wire_text(
                        MessageView::TcpConnectionRequest {
                            from: self.id@,
                            from_alias: self.alias@,
                            tcp_port: self.tcp_port_spec(),
                        },
                    )
                    &&& plan.connect_to == match p.tcp_port {
                        Some(port) => Some(PeerAddr { ip: p.addr.ip, port }),
                        None => None,
                    }
                },
                Err(e) => !self.knows(peer_id@) && e == NetError::PeerNotFound,
            },
    {
        match self.find_peer(peer_id) {
            Some(k) => {
                let p = &self.peers[k];
                let msg = NetworkMessage::TcpConnectionRequest {
                    from: self.id.clone(),
                    from_alias: self.alias.clone(),
                    tcp_port: self.get_tcp_port(),
                };
                let connect_to = match p.tcp_port {
                    Some(port) => Some(PeerAddr { ip: p.addr.ip, port }),
                    None => None,
                };
                Ok(UpgradePlan { request: Outgoing { to: p.addr, data: msg.encode() }, connect_to })
            },
            None => Err(NetError::PeerNotFound),
        }
    }

    /// The handshake line that opens every outbound stream connection.
    pub fn handshake_frame(&self) -> (r: String)
        ensures
            r@ == frame_text(
                MessageView::TcpHandshake {
                    from: self.id@,
                    from_alias: self.alias@,
                    pubkey: self.pubkey@,
                },
            ),
    {
        let msg = NetworkMessage::TcpHandshake {
            from: self.id.clone(),
            from_alias: self.alias.clone(),
            pubkey: self.pubkey.clone(),
        };
        msg.encode_line()
    }
}

// ---------------------------------------------------------------------------
// Laws
// ---------------------------------------------------------------------------

pub open spec fn has_id(s: Seq<PeerEntryView>, id: Seq<char>) -> bool {
    exists|i: int| 0 <= i < s.len() && (#[trigger] s[i]).id == id
}

proof fn lemma_upserted_ids(
    s: Seq<PeerEntryView>,
    id: Seq<char>,
    alias: Option<Seq<char>>,
    pubkey: Option<Seq<char>>,
    addr: PeerAddr,
    tcp_port: Option<u16>,
    now: u64,
    other: Seq<char>,
)
    requires
        other != id,
        !has_id(s, other),
    ensures
        !has_id(upserted(s, id, alias, pubkey, addr, tcp_port, now), other),
{
    let u = upserted(s, id, alias, pubkey, addr, tcp_port, now);
    let k = peer_pos(s, id);
    lemma_peer_pos_range(s, id, 0);
    assert forall|i: int| 0 <= i < u.len() implies (#[trigger] u[i]).id != other by {
        if k >= 0 {
            if i != k {
                assert(u[i] == s[i]);
            }
        } else if i < s.len() {
            assert(u[i] == s[i]);
        }
    }
}

proof fn lemma_peer_pos_range(s: Seq<PeerEntryView>, id: Seq<char>, k: int)
    ensures
        peer_pos_from(s, id, k) == -1 || (0 <= peer_pos_from(s, id, k) < s.len() && s[peer_pos_from(
            s,
            id,
            k,
        )].id == id),
    decreases s.len() - k,
{
    if 0 <= k < s.len() && s[k].id != id {
        lemma_peer_pos_range(s, id, k + 1);
    }
}

/// An id that no datagram claimed does not enter the registry: after a
/// datagram that claims another id (or none), an unknown id is still unknown,
/// so `list_peers` cannot show it.
pub proof fn lemma_unobserved_id_stays_out(
    s: Seq<PeerEntryView>,
    v: MessageView,
    src: PeerAddr,
    now: u64,
    id: Seq<char>,
)
    requires
        !has_id(s, id),
        claimed_id(v) != Some(id),
    ensures
        !has_id(after_datagram(s, v, src, now), id),
{
    match v {
        MessageView::Block { .. } => {},
        MessageView::Peer { id: p, alias, pubkey } => {
            lemma_upserted_ids(s, p, Some(alias), Some(pubkey), src, None, now, id);
        },
        MessageView::Ping { id: p, alias } => {
            lemma_upserted_ids(s, p, Some(alias), None, src, None, now, id);
        },
        MessageView::Pong { id: p, alias } => {
            lemma_upserted_ids(s, p, Some(alias), None, src, None, now, id);
        },
        MessageView::DirectBlock { from, .. } => {
            lemma_upserted_ids(s, from, None, None, src, None, now, id);
        },
        MessageView::TcpConnectionRequest { from, from_alias, tcp_port } => {
            lemma_upserted_ids(s, from, Some(from_alias), None, src, Some(tcp_port), now, id);
        },
        MessageView::TcpConnectionResponse { from, tcp_port, .. } => {
            lemma_upserted_ids(s, from, None, None, src, Some(tcp_port), now, id);
        },
        MessageView::TcpKeepalive { from } => {
            lemma_upserted_ids(s, from, None, None, src, None, now, id);
        },
        MessageView::TcpConnectionTest { from, .. } => {
            lemma_upserted_ids(s, from, None, None, src, None, now, id);
        },
        MessageView::TcpConnectionTestResponse { from, .. } => {
            lemma_upserted_ids(s, from, None, None, src, None, now, id);
        },
        MessageView::TcpHandshake { from, from_alias, pubkey } => {
            lemma_upserted_ids(s, from, Some(from_alias), Some(pubkey), src, None, now, id);
        },
    }
}

/// After a presence announcement claiming `id` arrives from `src`, the
/// registry holds `id` with last-known address `src`, seen at `now`.
pub proof fn lemma_presence_records_source(
    s: Seq<PeerEntryView>,
    id: Seq<char>,
    alias: Seq<char>,
    pubkey: Seq<char>,
    src: PeerAddr,
    now: u64,
)
    ensures
        ({
            let r = after_datagram(s, MessageView::Peer { id, alias, pubkey }, src, now);
            exists|k: int|
                0 <= k < r.len() && (#[trigger] r[k]).id == id && r[k].addr == src && r[k].alias
                    == alias && r[k].pubkey == pubkey && r[k].last_seen_ms == now
        }),
{
    let r = after_datagram(s, MessageView::Peer { id, alias, pubkey }, src, now);
    let k = peer_pos(s, id);
    lemma_peer_pos_range(s, id, 0);
    if k >= 0 {
        assert(r[k].id == id);
    } else {
        assert(r[s.len() as int].id == id);
    }
}

/// A peer silent for longer than the threshold is gone after a sweep.
pub proof fn lemma_stale_peer_evicted(s: Seq<PeerEntryView>, now: u64, threshold: u64, id: Seq<char>)
    requires
        forall|i: int| 0 <= i < s.len() && (#[trigger] s[i]).id == id ==> !is_fresh(s[i], now, threshold),
    ensures
        !has_id(s.filter(fresh_pred(now, threshold)), id),
{
    let f = s.filter(fresh_pred(now, threshold));
    lemma_filter_subset(s, fresh_pred(now, threshold));
    assert forall|j: int| 0 <= j < f.len() implies (#[trigger] f[j]).id != id by {
        s.lemma_filter_pred(fresh_pred(now, threshold), j);
        let i = choose|i: int| 0 <= i < s.len() && s[i] == f[j];
        assert(s[i] == f[j]);
    }
}

/// A probe from `src` is answered by exactly one datagram, a probe reply
/// addressed to `src` itself; nothing is broadcast.
pub proof fn lemma_probe_answered_once(
    me: Seq<char>,
    alias: Seq<char>,
    tcp_port: u16,
    id: Seq<char>,
    peer_alias: Seq<char>,
    src: PeerAddr,
)
    ensures
        ({
            let e = datagram_effects(me, alias, tcp_port, MessageView::Ping { id, alias: peer_alias }, src);
            &&& e.len() == 2
            &&& e[0] == EffectView::Send {
                to: src,
                data: wire_text(MessageView::Pong { id: me, alias }),
            }
            &&& forall|i: int| 1 <= i < e.len() ==> !(#[trigger] e[i] is Send)
        }),
{
}

/// A stream frame is a single record: the message's encoding, free of line
/// feeds, then the one line feed that ends it.
pub proof fn lemma_frame_is_one_record(v: MessageView)
    ensures
        frame_text(v).last() == '\n',
        frame_text(v).drop_last() == wire_text(v),
        !frame_text(v).drop_last().contains('\n'),
{
    lemma_wire_text_one_line(v);
    assert(frame_text(v).drop_last() =~= wire_text(v));
}

/// One thing that changes the registry: a datagram received, or a sweep.
pub enum RegistryStep {
    Datagram { v: MessageView, src: PeerAddr, now: u64 },
    Sweep { now: u64, threshold: u64 },
}

/// The registry after one step, as `handle_datagram` and `evict_stale` leave it.
pub open spec fn step_registry(s: Seq<PeerEntryView>, st: RegistryStep) -> Seq<PeerEntryView> {
    match st {
        RegistryStep::Datagram { v, src, now } => after_datagram(s, v, src, now),
        RegistryStep::Sweep { now, threshold } => s.filter(fresh_pred(now, threshold)),
    }
}

/// The registry after a history of steps, in order.
pub open spec fn run_registry(s: Seq<PeerEntryView>, steps: Seq<RegistryStep>) -> Seq<PeerEntryView>
    decreases steps.len(),
{
    if steps.len() == 0 {
        s
    } else {
        run_registry(step_registry(s, steps[0]), steps.drop_first())
    }
}

/// Whether a step is a datagram that claims `id`.
pub open spec fn claims(st: RegistryStep, id: Seq<char>) -> bool {
    match st {
        RegistryStep::Datagram { v, .. } => claimed_id(v) == Some(id),
        RegistryStep::Sweep { .. } => false,
    }
}

/// Whether a sweep step keeps a record last seen at `seen`.
pub open spec fn keeps_seen(st: RegistryStep, seen: u64) -> bool {
    match st {
        RegistryStep::Datagram { .. } => true,
        RegistryStep::Sweep { now, threshold } => seen >= now || now - seen <= threshold,
    }
}

/// An id that no datagram of a history claims is never in the registry,
/// starting from one without it (a new node's is empty): `list_peers`
/// never shows it.
pub proof fn lemma_unobserved_never_listed(s: Seq<PeerEntryView>, steps: Seq<RegistryStep>, id: Seq<char>)
    requires
        !has_id(s, id),
        forall|i: int| 0 <= i < steps.len() ==> !claims(#[trigger] steps[i], id),
    ensures
        !has_id(run_registry(s, steps), id),
    decreases steps.len(),
{
    if steps.len() > 0 {
        let s2 = step_registry(s, steps[0]);
        assert(!claims(steps[0], id));
        match steps[0] {
            RegistryStep::Datagram { v, src, now } => {
                lemma_unobserved_id_stays_out(s, v, src, now, id);
            },
            RegistryStep::Sweep { now, threshold } => {
                let p = fresh_pred(now, threshold);
                lemma_filter_subset(s, p);
                assert forall|j: int| 0 <= j < s2.len() implies (#[trigger] s2[j]).id != id by {
                    let i = choose|i: int| 0 <= i < s.len() && s[i] == s.filter(p)[j];
                    assert(s[i].id != id);
                }
            },
        }
        assert forall|i: int| 0 <= i < steps.drop_first().len() implies !claims(
            #[trigger] steps.drop_first()[i],
            id,
        ) by {
            assert(steps.drop_first()[i] == steps[i + 1]);
        }
        lemma_unobserved_never_listed(s2, steps.drop_first(), id);
    }
}

pub open spec fn presence_record(
    r: PeerEntryView,
    id: Seq<char>,
    alias: Seq<char>,
    pubkey: Seq<char>,
    src: PeerAddr,
    now: u64,
) -> bool {
    r.id == id && r.alias == alias && r.pubkey == pubkey && r.addr == src && r.last_seen_ms == now
}

proof fn lemma_record_survives_step(
    s: Seq<PeerEntryView>,
    st: RegistryStep,
    k: int,
    id: Seq<char>,
)
    requires
        0 <= k < s.len(),
        s[k].id == id,
        !claims(st, id),
        keeps_seen(st, s[k].last_seen_ms),
    ensures
        step_registry(s, st).contains(s[k]),
{
    let r = s[k];
    match st {
        RegistryStep::Datagram { v, src, now } => {
            let u = step_registry(s, st);
            match claimed_id(v) {
                Some(other) => {
                    let pos = peer_pos(s, other);
                    lemma_peer_pos_range(s, other, 0);
                    assert(pos != k);
                    assert(u[k] == r);
                },
                None => {
                    assert(u == s);
                },
            }
            assert(u[k] == r);
        },
        RegistryStep::Sweep { now, threshold } => {
            s.lemma_filter_contains(fresh_pred(now, threshold), k);
        },
    }
}

/// After a presence announcement claiming `id` arrives from `src` at `now`,
/// the registry keeps `id` with last-known address `src`, alias and key,
/// through any later history in which no datagram claims `id` and no sweep
/// finds it stale.
pub proof fn lemma_presence_kept(
    s: Seq<PeerEntryView>,
    id: Seq<char>,
    alias: Seq<char>,
    pubkey: Seq<char>,
    src: PeerAddr,
    now: u64,
    later: Seq<RegistryStep>,
)
    requires
        forall|i: int| 0 <= i < later.len() ==> !claims(#[trigger] later[i], id),
        forall|i: int| 0 <= i < later.len() ==> keeps_seen(#[trigger] later[i], now),
    ensures
        ({
            let r = run_registry(after_datagram(s, MessageView::Peer { id, alias, pubkey }, src, now), later);
            exists|k: int| 0 <= k < r.len() && presence_record(#[trigger] r[k], id, alias, pubkey, src, now)
        }),
{
    lemma_presence_records_source(s, id, alias, pubkey, src, now);
    let s1 = after_datagram(s, MessageView::Peer { id, alias, pubkey }, src, now);
    lemma_record_kept_through(s1, later, id, alias, pubkey, src, now);
}

proof fn lemma_record_kept_through(
    s: Seq<PeerEntryView>,
    steps: Seq<RegistryStep>,
    id: Seq<char>,
    alias: Seq<char>,
    pubkey: Seq<char>,
    src: PeerAddr,
    now: u64,
)
    requires
        exists|k: int| 0 <= k < s.len() && presence_record(#[trigger] s[k], id, alias, pubkey, src, now),
        forall|i: int| 0 <= i < steps.len() ==> !claims(#[trigger] steps[i], id),
        forall|i: int| 0 <= i < steps.len() ==> keeps_seen(#[trigger] steps[i], now),
    ensures
        ({
            let r = run_registry(s, steps);
            exists|k: int| 0 <= k < r.len() && presence_record(#[trigger] r[k], id, alias, pubkey, src, now)
        }),
    decreases steps.len(),
{
    if steps.len() > 0 {
        let k = choose|k: int| 0 <= k < s.len() && presence_record(#[trigger] s[k], id, alias, pubkey, src, now);
        assert(!claims(steps[0], id));
        assert(keeps_seen(steps[0], now));
        lemma_record_survives_step(s, steps[0], k, id);
        let s2 = step_registry(s, steps[0]);
        let k2 = choose|k2: int| 0 <= k2 < s2.len() && s2[k2] == s[k];
        assert(presence_record(s2[k2], id, alias, pubkey, src, now));
        let rest = steps.drop_first();
        assert forall|i: int| 0 <= i < rest.len() implies !claims(#[trigger] rest[i], id) by {
            assert(rest[i] == steps[i + 1]);
        }
        assert forall|i: int| 0 <= i < rest.len() implies keeps_seen(#[trigger] rest[i], now) by {
            assert(rest[i] == steps[i + 1]);
        }
        assert(presence_record(s2[k2], id, alias, pubkey, src, now));
        lemma_record_kept_through(s2, rest, id, alias, pubkey, src, now);
        assert(run_registry(s, steps) == run_registry(s2, rest));
    } else {
        assert(run_registry(s, steps) == s);
        let k = choose|k: int| 0 <= k < s.len() && presence_record(#[trigger] s[k], id, alias, pubkey, src, now);
        assert(presence_record(s[k], id, alias, pubkey, src, now));
    }
}

/// Two nodes that each receive the other's presence announcement (the first
/// datagram of `announce`, which decodes to its presence message) each list
/// the other, with the address it came from.
pub proof fn lemma_mutual_discovery(a: NetworkNode, b: NetworkNode, addr_a: PeerAddr, addr_b: PeerAddr, now: u64)
    ensures
        ({
            let from_b = decode_object(b.announcement()[0].1);
            let from_a = decode_object(a.announcement()[0].1);
            &&& from_b == Ok::<MessageView, crate::wire::DecodeError>(
                MessageView::Peer { id: b.id@, alias: b.alias@, pubkey: b.pubkey@ },
            )
            &&& from_a == Ok::<MessageView, crate::wire::DecodeError>(
                MessageView::Peer { id: a.id@, alias: a.alias@, pubkey: a.pubkey@ },
            )
            &&& has_id(after_datagram(a.peer_seq(), from_b->Ok_0, addr_b, now), b.id@)
            &&& has_id(after_datagram(b.peer_seq(), from_a->Ok_0, addr_a, now), a.id@)
        }),
{
    let vb = MessageView::Peer { id: b.id@, alias: b.alias@, pubkey: b.pubkey@ };
    let va = MessageView::Peer { id: a.id@, alias: a.alias@, pubkey: a.pubkey@ };
    crate::wire::lemma_wire_round_trip(vb);
    crate::wire::lemma_wire_round_trip(va);
    lemma_presence_records_source(a.peer_seq(), b.id@, b.alias@, b.pubkey@, addr_b, now);
    lemma_presence_records_source(b.peer_seq(), a.id@, a.alias@, a.pubkey@, addr_a, now);
}

/// What happened last in one `send`.
#[derive(Debug, Clone, Copy, PartialEq, Eq, Structural)]
pub enum SendEvent {
    /// The application asked to send.
    Start,
    /// The upgrade request went out and its grace period passed.
    UpgradeSettled,
    /// Writing the stream frame failed or timed out.
    StreamWriteFailed,
    /// The stream frame was written.
    StreamWritten,
}

/// What the caller does next in one `send`.
#[derive(Debug, Clone)]
pub enum SendStep {
    /// Send the upgrade request (and connect where the plan says), wait the
    /// grace period, then report `UpgradeSettled`.
    Upgrade(UpgradePlan),
    /// Write this line on the peer's session, then report how it went.
    WriteStream { peer_id: String, frame: String },
    /// Send this datagram; the send is then over.
    SendDatagram(Outgoing),
    /// The payload was delivered on the stream.
    Done,
    /// The send failed.
    Fail(NetError),
}

impl NetworkNode {
    /// The one transport-selection strategy of every send: with no live
    /// session to a known peer, upgrade first; then prefer the stream; after a
    /// failed stream write, fall back to one datagram; with neither a session
    /// nor a known address, fail with `PeerNotFound`.
    pub fn send_step(&self, peer_id: &str, payload: &str, event: SendEvent) -> (r: SendStep)
        requires
            self.wf(),
        ensures
            (event == SendEvent::Start || event == SendEvent::UpgradeSettled) && self.connected(
                peer_id@,
            ) ==> (r matches SendStep::WriteStream { peer_id: p, frame } && p@ == peer_id@ && frame@
                == frame_text(direct_view(self.id@, peer_id@, payload@))),
            event == SendEvent::Start && !self.connected(peer_id@) && self.knows(peer_id@)
                ==> (r matches SendStep::Upgrade(plan) && ({
                let k = peer_pos(self.peer_seq(), peer_id@);
                &&& k >= 0
                &&& plan.request.to == self.peer_seq()[k].addr
                &&& plan.request.data@ == wire_text(
                    MessageView::TcpConnectionRequest {
                        from: self.id@,
                        from_alias: self.alias@,
                        tcp_port: self.tcp_port_spec(),
                    },
                )
                &&& plan.connect_to == match self.peer_seq()[k].tcp_port {
                    Some(port) => Some(PeerAddr { ip: self.peer_seq()[k].addr.ip, port }),
                    None => None,
                }
            })),
            (event == SendEvent::UpgradeSettled && !self.connected(peer_id@) || event
                == SendEvent::StreamWriteFailed) && self.knows(peer_id@) ==> (r matches SendStep::SendDatagram(
                o,
            ) && ({
                let k = peer_pos(self.peer_seq(), peer_id@);
                &&& k >= 0
                &&& o.to == self.peer_seq()[k].addr
                &&& o.data@ == wire_text(direct_view(self.id@, peer_id@, payload@))
            })),
            event != SendEvent::StreamWritten && !self.connected(peer_id@) && !self.knows(peer_id@)
                ==> (r matches SendStep::Fail(e) && e == NetError::PeerNotFound),
            event == SendEvent::StreamWriteFailed && self.connected(peer_id@) && !self.knows(peer_id@)
                ==> (r matches SendStep::Fail(e) && e == NetError::PeerNotFound),
            event == SendEvent::StreamWritten ==> r is Done,
    {
        proof {
            let k = peer_pos(self.peer_seq(), peer_id@);
            lemma_peer_pos_range(self.peer_seq(), peer_id@, 0);
            if k >= 0 {
                assert(self.peers@[k]@ == self.peer_seq()[k]);
                assert(self.knows(peer_id@));
            }
        }
        match event {
            SendEvent::Start => {
                if self.has_tcp_connection(peer_id) {
                    match self.route(peer_id, payload) {
                        Ok(Route::Stream { peer_id: p, frame }) => SendStep::WriteStream { peer_id: p, frame },
                        Ok(Route::Datagram(o)) => SendStep::SendDatagram(o),
                        Err(e) => SendStep::Fail(e),
                    }
                } else {
                    match self.upgrade_request(peer_id) {
                        Ok(plan) => SendStep::Upgrade(plan),
                        Err(e) => SendStep::Fail(e),
                    }
                }
            },
            SendEvent::UpgradeSettled => match self.route(peer_id, payload) {
                Ok(Route::Stream { peer_id: p, frame }) => SendStep::WriteStream { peer_id: p, frame },
                Ok(Route::Datagram(o)) => SendStep::SendDatagram(o),
                Err(e) => SendStep::Fail(e),
            },
            SendEvent::StreamWriteFailed => match self.datagram_route(peer_id, payload) {
                Ok(o) => SendStep::SendDatagram(o),
                Err(e) => SendStep::Fail(e),
            },
            SendEvent::StreamWritten => SendStep::Done,
        }
    }
}

} // verus!
