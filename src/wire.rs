//! The wire format: one JSON object per message, tagged by a `"type"` field,
//! as a datagram or as one line of a stream. Messages are written with their
//! fields in a fixed order and no whitespace; reading accepts the fields in
//! any order, whitespace between tokens, and other scalar fields.
use vstd::prelude::*;
use crate::json::{
    lemma_decimal_no_newline, lemma_quoted_no_newline, chars_of, read_bool, read_number, read_quoted, same_chars, string_of, write_bool,
    write_decimal, write_quoted, bool_text, decimal, is_digit, lemma_decimal_digits, lemma_scan_bool, lemma_scan_decimal, lemma_scan_quoted, quoted,
    scan_bool, scan_number, scan_quoted,
};

verus! {

/// Network messages, datagram or stream frame.
#[derive(Debug, Clone, PartialEq, Eq)]
pub enum NetworkMessage {
    /// Presence announcement.
    Peer { id: String, alias: String, pubkey: String },
    /// Liveness probe.
    Ping { id: String, alias: String },
    /// Reply to a liveness probe.
    Pong { id: String, alias: String },
    /// Legacy full-chain broadcast: still decoded, otherwise ignored.
    Block { block_json: String },
    /// Direct peer message carrying an opaque payload.
    DirectBlock { from: String, to: String, payload_json: String },
    /// Request to upgrade to a stream connection.
    TcpConnectionRequest { from: String, from_alias: String, tcp_port: u16 },
    /// Answer to an upgrade request.
    TcpConnectionResponse { from: String, to: String, accepted: bool, tcp_port: u16 },
    /// Stream keepalive.
    TcpKeepalive { from: String },
    /// Stream connection test.
    TcpConnectionTest { from: String, timestamp: u64 },
    /// Answer to a stream connection test.
    TcpConnectionTestResponse { from: String, to: String, timestamp: u64, response_time_ms: u64 },
    /// First frame of every stream connection: binds it to a peer id.
    TcpHandshake { from: String, from_alias: String, pubkey: String },
}

/// A message as a mathematical value.
pub enum MessageView {
    Peer { id: Seq<char>, alias: Seq<char>, pubkey: Seq<char> },
    Ping { id: Seq<char>, alias: Seq<char> },
    Pong { id: Seq<char>, alias: Seq<char> },
    Block { block_json: Seq<char> },
    DirectBlock { from: Seq<char>, to: Seq<char>, payload_json: Seq<char> },
    TcpConnectionRequest { from: Seq<char>, from_alias: Seq<char>, tcp_port: u16 },
    TcpConnectionResponse { from: Seq<char>, to: Seq<char>, accepted: bool, tcp_port: u16 },
    TcpKeepalive { from: Seq<char> },
    TcpConnectionTest { from: Seq<char>, timestamp: u64 },
    TcpConnectionTestResponse {
        from: Seq<char>,
        to: Seq<char>,
        timestamp: u64,
        response_time_ms: u64,
    },
    TcpHandshake { from: Seq<char>, from_alias: Seq<char>, pubkey: Seq<char> },
}

impl View for NetworkMessage {
    type V = MessageView;

    open spec fn view(&self) -> MessageView {
        match self {
            NetworkMessage::Peer { id, alias, pubkey } => MessageView::Peer {
                id: id@,
                alias: alias@,
                pubkey: pubkey@,
            },
            NetworkMessage::Ping { id, alias } => MessageView::Ping { id: id@, alias: alias@ },
            NetworkMessage::Pong { id, alias } => MessageView::Pong { id: id@, alias: alias@ },
            NetworkMessage::Block { block_json } => MessageView::Block { block_json: block_json@ },
            NetworkMessage::DirectBlock { from, to, payload_json } => MessageView::DirectBlock {
                from: from@,
                to: to@,
                payload_json: payload_json@,
            },
            NetworkMessage::TcpConnectionRequest { from, from_alias, tcp_port } =>
                MessageView::TcpConnectionRequest {
                    from: from@,
                    from_alias: from_alias@,
                    tcp_port: *tcp_port,
                },
            NetworkMessage::TcpConnectionResponse { from, to, accepted, tcp_port } =>
                MessageView::TcpConnectionResponse {
                    from: from@,
                    to: to@,
                    accepted: *accepted,
                    tcp_port: *tcp_port,
                },
            NetworkMessage::TcpKeepalive { from } => MessageView::TcpKeepalive { from: from@ },
            NetworkMessage::TcpConnectionTest { from, timestamp } =>
                MessageView::TcpConnectionTest { from: from@, timestamp: *timestamp },
            NetworkMessage::TcpConnectionTestResponse { from, to, timestamp, response_time_ms } =>
                MessageView::TcpConnectionTestResponse {
                from: from@,
                to: to@,
                timestamp: *timestamp,
                response_time_ms: *response_time_ms,
            },
            NetworkMessage::TcpHandshake { from, from_alias, pubkey } =>
                MessageView::TcpHandshake { from: from@, from_alias: from_alias@, pubkey: pubkey@ },
        }
    }
}

/// Why a text is not a message.
#[derive(Debug, Clone, Copy, PartialEq, Eq, Structural)]
pub enum DecodeError {
    /// A well-formed envelope whose `"type"` names no known variant.
    UnknownType,
    /// Anything else that is not the encoding of a message.
    Malformed,
}

/// What a field holds on the wire.
#[derive(Debug, Clone, Copy, PartialEq, Eq, Structural)]
pub enum FieldKind {
    Text,
    Port,
    Number,
    Flag,
}

/// A field's value as a mathematical value.
pub enum FieldView {
    Text(Seq<char>),
    Number(nat),
    Flag(bool),
}

/// A field's value.
pub enum FieldValue {
    Text(Vec<char>),
    Number(u64),
    Flag(bool),
}

impl View for FieldValue {
    type V = FieldView;

    open spec fn view(&self) -> FieldView {
        match self {
            FieldValue::Text(t) => FieldView::Text(t@),
            FieldValue::Number(n) => FieldView::Number(*n as nat),
            FieldValue::Flag(b) => FieldView::Flag(*b),
        }
    }
}

pub open spec fn fits(v: FieldView, k: FieldKind) -> bool {
    match (v, k) {
        (FieldView::Text(_), FieldKind::Text) => true,
        (FieldView::Number(n), FieldKind::Port) => n <= u16::MAX,
        (FieldView::Number(n), FieldKind::Number) => n <= u64::MAX,
        (FieldView::Flag(_), FieldKind::Flag) => true,
        _ => false,
    }
}

/// Number of message variants.
pub const VARIANTS: usize = 11;

/// The `"type"` tag of each variant, by index.
pub open spec fn tag_text(k: int) -> Seq<char> {
    if k == 0 {
        "Peer"@
    } else if k == 1 {
        "Ping"@
    } else if k == 2 {
        "Pong"@
    } else if k == 3 {
        "Block"@
    } else if k == 4 {
        "DirectBlock"@
    } else if k == 5 {
        "TcpConnectionRequest"@
    } else if k == 6 {
        "TcpConnectionResponse"@
    } else if k == 7 {
        "TcpKeepalive"@
    } else if k == 8 {
        "TcpConnectionTest"@
    } else if k == 9 {
        "TcpConnectionTestResponse"@
    } else {
        "TcpHandshake"@
    }
}

/// Field names of each variant, in wire order.
pub open spec fn names_of(k: int) -> Seq<Seq<char>> {
    if k == 0 {
        seq!["id"@, "alias"@, "pubkey"@]
    } else if k == 1 || k == 2 {
        seq!["id"@, "alias"@]
    } else if k == 3 {
        seq!["block_json"@]
    } else if k == 4 {
        seq!["from"@, "to"@, "payload_json"@]
    } else if k == 5 {
        seq!["from"@, "from_alias"@, "tcp_port"@]
    } else if k == 6 {
        seq!["from"@, "to"@, "accepted"@, "tcp_port"@]
    } else if k == 7 {
        seq!["from"@]
    } else if k == 8 {
        seq!["from"@, "timestamp"@]
    } else if k == 9 {
        seq!["from"@, "to"@, "timestamp"@, "response_time_ms"@]
    } else {
        seq!["from"@, "from_alias"@, "pubkey"@]
    }
}

/// Field kinds of each variant, in wire order.
pub open spec fn kinds_of(k: int) -> Seq<FieldKind> {
    if k == 0 || k == 4 || k == 10 {
        seq![FieldKind::Text, FieldKind::Text, FieldKind::Text]
    } else if k == 1 || k == 2 {
        seq![FieldKind::Text, FieldKind::Text]
    } else if k == 3 || k == 7 {
        seq![FieldKind::Text]
    } else if k == 5 {
        seq![FieldKind::Text, FieldKind::Text, FieldKind::Port]
    } else if k == 6 {
        seq![FieldKind::Text, FieldKind::Text, FieldKind::Flag, FieldKind::Port]
    } else if k == 8 {
        seq![FieldKind::Text, FieldKind::Number]
    } else {
        seq![FieldKind::Text, FieldKind::Text, FieldKind::Number, FieldKind::Number]
    }
}

/// Index of a message's variant.
pub open spec fn variant_of(v: MessageView) -> int {
    match v {
        MessageView::Peer { .. } => 0,
        MessageView::Ping { .. } => 1,
        MessageView::Pong { .. } => 2,
        MessageView::Block { .. } => 3,
        MessageView::DirectBlock { .. } => 4,
        MessageView::TcpConnectionRequest { .. } => 5,
        MessageView::TcpConnectionResponse { .. } => 6,
        MessageView::TcpKeepalive { .. } => 7,
        MessageView::TcpConnectionTest { .. } => 8,
        MessageView::TcpConnectionTestResponse { .. } => 9,
        MessageView::TcpHandshake { .. } => 10,
    }
}

/// A message's field values, in wire order.
pub open spec fn fields_of(v: MessageView) -> Seq<FieldView> {
    match v {
        MessageView::Peer { id, alias, pubkey } => seq![
            FieldView::Text(id),
            FieldView::Text(alias),
            FieldView::Text(pubkey),
        ],
        MessageView::Ping { id, alias } => seq![FieldView::Text(id), FieldView::Text(alias)],
        MessageView::Pong { id, alias } => seq![FieldView::Text(id), FieldView::Text(alias)],
        MessageView::Block { block_json } => seq![FieldView::Text(block_json)],
        MessageView::DirectBlock { from, to, payload_json } => seq![
            FieldView::Text(from),
            FieldView::Text(to),
            FieldView::Text(payload_json),
        ],
        MessageView::TcpConnectionRequest { from, from_alias, tcp_port } => seq![
            FieldView::Text(from),
            FieldView::Text(from_alias),
            FieldView::Number(tcp_port as nat),
        ],
        MessageView::TcpConnectionResponse { from, to, accepted, tcp_port } => seq![
            FieldView::Text(from),
            FieldView::Text(to),
            FieldView::Flag(accepted),
            FieldView::Number(tcp_port as nat),
        ],
        MessageView::TcpKeepalive { from } => seq![FieldView::Text(from)],
        MessageView::TcpConnectionTest { from, timestamp } => seq![
            FieldView::Text(from),
            FieldView::Number(timestamp as nat),
        ],
        MessageView::TcpConnectionTestResponse { from, to, timestamp, response_time_ms } => seq![
            FieldView::Text(from),
            FieldView::Text(to),
            FieldView::Number(timestamp as nat),
            FieldView::Number(response_time_ms as nat),
        ],
        MessageView::TcpHandshake { from, from_alias, pubkey } => seq![
            FieldView::Text(from),
            FieldView::Text(from_alias),
            FieldView::Text(pubkey),
        ],
    }
}

pub open spec fn text_at(vals: Seq<FieldView>, i: int) -> Seq<char> {
    match vals[i] {
        FieldView::Text(t) => t,
        _ => Seq::empty(),
    }
}

pub open spec fn number_at(vals: Seq<FieldView>, i: int) -> u64 {
    match vals[i] {
        FieldView::Number(n) => if n <= u64::MAX {
            n as u64
        } else {
            0
        },
        _ => 0,
    }
}

pub open spec fn port_at(vals: Seq<FieldView>, i: int) -> u16 {
    match vals[i] {
        FieldView::Number(n) => if n <= u16::MAX {
            n as u16
        } else {
            0
        },
        _ => 0,
    }
}

pub open spec fn flag_at(vals: Seq<FieldView>, i: int) -> bool {
    match vals[i] {
        FieldView::Flag(b) => b,
        _ => false,
    }
}

/// The message of variant `k` with these field values.
pub open spec fn build(k: int, vals: Seq<FieldView>) -> MessageView {
    if k == 0 {
        MessageView::Peer { id: text_at(vals, 0), alias: text_at(vals, 1), pubkey: text_at(vals, 2) }
    } else if k == 1 {
        MessageView::Ping { id: text_at(vals, 0), alias: text_at(vals, 1) }
    } else if k == 2 {
        MessageView::Pong { id: text_at(vals, 0), alias: text_at(vals, 1) }
    } else if k == 3 {
        MessageView::Block { block_json: text_at(vals, 0) }
    } else if k == 4 {
        MessageView::DirectBlock {
            from: text_at(vals, 0),
            to: text_at(vals, 1),
            payload_json: text_at(vals, 2),
        }
    } else if k == 5 {
        MessageView::TcpConnectionRequest {
            from: text_at(vals, 0),
            from_alias: text_at(vals, 1),
            tcp_port: port_at(vals, 2),
        }
    } else if k == 6 {
        MessageView::TcpConnectionResponse {
            from: text_at(vals, 0),
            to: text_at(vals, 1),
            accepted: flag_at(vals, 2),
            tcp_port: port_at(vals, 3),
        }
    } else if k == 7 {
        MessageView::TcpKeepalive { from: text_at(vals, 0) }
    } else if k == 8 {
        MessageView::TcpConnectionTest { from: text_at(vals, 0), timestamp: number_at(vals, 1) }
    } else if k == 9 {
        MessageView::TcpConnectionTestResponse {
            from: text_at(vals, 0),
            to: text_at(vals, 1),
            timestamp: number_at(vals, 2),
            response_time_ms: number_at(vals, 3),
        }
    } else {
        MessageView::TcpHandshake {
            from: text_at(vals, 0),
            from_alias: text_at(vals, 1),
            pubkey: text_at(vals, 2),
        }
    }
}

pub open spec fn value_text(v: FieldView) -> Seq<char> {
    match v {
        FieldView::Text(t) => quoted(t),
        FieldView::Number(n) => decimal(n),
        FieldView::Flag(b) => bool_text(b),
    }
}

/// `,"name":value`
pub open spec fn field_text(name: Seq<char>, v: FieldView) -> Seq<char> {
    seq![','] + quoted(name) + seq![':'] + value_text(v)
}

pub open spec fn fields_text(names: Seq<Seq<char>>, vals: Seq<FieldView>) -> Seq<char>
    decreases names.len(),
{
    if names.len() == 0 || vals.len() == 0 {
        Seq::empty()
    } else {
        field_text(names[0], vals[0]) + fields_text(names.drop_first(), vals.drop_first())
    }
}

/// `{"type":`
pub open spec fn header_text() -> Seq<char> {
    seq!['{'] + quoted("type"@) + seq![':']
}

/// The encoding of a message.
pub open spec fn wire_text(v: MessageView) -> Seq<char> {
    header_text() + quoted(tag_text(variant_of(v))) + fields_text(
        names_of(variant_of(v)),
        fields_of(v),
    ) + seq!['}']
}

/// Index of the variant with this tag, or -1.
pub open spec fn tag_index(t: Seq<char>) -> int {
    if t == tag_text(0) {
        0
    } else if t == tag_text(1) {
        1
    } else if t == tag_text(2) {
        2
    } else if t == tag_text(3) {
        3
    } else if t == tag_text(4) {
        4
    } else if t == tag_text(5) {
        5
    } else if t == tag_text(6) {
        6
    } else if t == tag_text(7) {
        7
    } else if t == tag_text(8) {
        8
    } else if t == tag_text(9) {
        9
    } else if t == tag_text(10) {
        10
    } else {
        -1
    }
}

// ---------------------------------------------------------------------------
// Round trip
// ---------------------------------------------------------------------------

pub open spec fn all_fit(vals: Seq<FieldView>, kinds: Seq<FieldKind>) -> bool {
    vals.len() == kinds.len() && forall|i: int| 0 <= i < vals.len() ==> fits(#[trigger] vals[i], kinds[i])
}

/// Length and second and fourth characters: enough to tell the tags apart.
spec fn tag_key(t: Seq<char>) -> (nat, char, char) {
    (t.len(), t[1], t[3])
}

proof fn lemma_tag_index(k: int)
    requires
        0 <= k < 11,
    ensures
        tag_index(tag_text(k)) == k,
{
    reveal_strlit("Peer");
    reveal_strlit("Ping");
    reveal_strlit("Pong");
    reveal_strlit("Block");
    reveal_strlit("DirectBlock");
    reveal_strlit("TcpConnectionRequest");
    reveal_strlit("TcpConnectionResponse");
    reveal_strlit("TcpKeepalive");
    reveal_strlit("TcpConnectionTest");
    reveal_strlit("TcpConnectionTestResponse");
    reveal_strlit("TcpHandshake");
    assert forall|m: int| 0 <= m < k implies tag_text(m) != tag_text(k) by {
        assert(tag_key(tag_text(m)) != tag_key(tag_text(k)));
    }
}

// ---------------------------------------------------------------------------
// Exactness of decoding
// ---------------------------------------------------------------------------

proof fn lemma_concat_no_newline(a: Seq<char>, b: Seq<char>)
    requires
        !a.contains('\n'),
        !b.contains('\n'),
    ensures
        !(a + b).contains('\n'),
{
    assert forall|i: int| 0 <= i < (a + b).len() implies (a + b)[i] != '\n' by {
        if i < a.len() {
            assert((a + b)[i] == a[i]);
        } else {
            assert((a + b)[i] == b[i - a.len()]);
        }
    }
}

proof fn lemma_fields_no_newline(names: Seq<Seq<char>>, vals: Seq<FieldView>)
    ensures
        !fields_text(names, vals).contains('\n'),
    decreases names.len(),
{
    if names.len() == 0 || vals.len() == 0 {
        assert(fields_text(names, vals) =~= Seq::<char>::empty());
    } else {
        lemma_fields_no_newline(names.drop_first(), vals.drop_first());
        lemma_quoted_no_newline(names[0]);
        match vals[0] {
            FieldView::Text(t) => lemma_quoted_no_newline(t),
            FieldView::Number(n) => lemma_decimal_no_newline(n),
            FieldView::Flag(b) => {
                assert(!bool_text(b).contains('\n')) by {
                    if b {
                        assert(bool_text(b) =~= seq!['t', 'r', 'u', 'e']);
                    } else {
                        assert(bool_text(b) =~= seq!['f', 'a', 'l', 's', 'e']);
                    }
                }
            },
        }
        let v = value_text(vals[0]);
        lemma_concat_no_newline(seq![','], quoted(names[0]));
        lemma_concat_no_newline(seq![','] + quoted(names[0]), seq![':']);
        lemma_concat_no_newline(seq![','] + quoted(names[0]) + seq![':'], v);
        lemma_concat_no_newline(
            field_text(names[0], vals[0]),
            fields_text(names.drop_first(), vals.drop_first()),
        );
    }
}

/// An encoded message is one line: it never holds a raw line feed, so a
/// stream frame (the encoding and one line feed) carries exactly one record.
pub proof fn lemma_wire_text_one_line(v: MessageView)
    ensures
        !wire_text(v).contains('\n'),
{
    let k = variant_of(v);
    reveal_strlit("type");
    lemma_quoted_no_newline("type"@);
    lemma_quoted_no_newline(tag_text(k));
    lemma_fields_no_newline(names_of(k), fields_of(v));
    lemma_concat_no_newline(seq!['{'], quoted("type"@));
    lemma_concat_no_newline(seq!['{'] + quoted("type"@), seq![':']);
    lemma_concat_no_newline(header_text(), quoted(tag_text(k)));
    lemma_concat_no_newline(header_text() + quoted(tag_text(k)), fields_text(names_of(k), fields_of(v)));
    lemma_concat_no_newline(
        header_text() + quoted(tag_text(k)) + fields_text(names_of(k), fields_of(v)),
        seq!['}'],
    );
}

// ---------------------------------------------------------------------------
// Encoding and decoding
// ---------------------------------------------------------------------------

pub open spec fn views(v: Seq<FieldValue>) -> Seq<FieldView> {
    v.map_values(|x: FieldValue| x@)
}

proof fn lemma_fields_text_push(
    names: Seq<Seq<char>>,
    vals: Seq<FieldView>,
    n: Seq<char>,
    v: FieldView,
)
    requires
        names.len() == vals.len(),
    ensures
        fields_text(names.push(n), vals.push(v)) == fields_text(names, vals) + field_text(n, v),
    decreases names.len(),
{
    if names.len() == 0 {
        assert(names.push(n).drop_first() =~= Seq::<Seq<char>>::empty());
        assert(vals.push(v).drop_first() =~= Seq::<FieldView>::empty());
        assert(names.push(n)[0] == n);
        assert(vals.push(v)[0] == v);
        assert(fields_text(names.push(n).drop_first(), vals.push(v).drop_first()) =~= Seq::<
            char,
        >::empty());
        assert(fields_text(names.push(n), vals.push(v)) =~= field_text(n, v));
        assert(fields_text(names, vals) =~= Seq::<char>::empty());
        assert(fields_text(names, vals) + field_text(n, v) =~= field_text(n, v));
    } else {
        lemma_fields_text_push(names.drop_first(), vals.drop_first(), n, v);
        assert(names.push(n).drop_first() =~= names.drop_first().push(n));
        assert(vals.push(v).drop_first() =~= vals.drop_first().push(v));
        assert(fields_text(names.push(n), vals.push(v)) =~= fields_text(names, vals) + field_text(
            n,
            v,
        ));
    }
}

fn write_header(out: &mut Vec<char>)
    ensures
        final(out)@ == old(out)@ + header_text(),
{
    let ghost o = old(out)@;
    out.push('{');
    let t = chars_of("type");
    write_quoted(out, &t);
    out.push(':');
    assert(out@ =~= o + header_text());
}

fn write_value(out: &mut Vec<char>, v: &FieldValue)
    ensures
        final(out)@ == old(out)@ + value_text(v@),
{
    match v {
        FieldValue::Text(t) => write_quoted(out, t),
        FieldValue::Number(n) => write_decimal(out, *n as u128),
        FieldValue::Flag(b) => write_bool(out, *b),
    }
}

fn tag_of(k: usize) -> (t: &'static str)
    requires
        k < VARIANTS,
    ensures
        t@ == tag_text(k as int),
{
    if k == 0 {
        "Peer"
    } else if k == 1 {
        "Ping"
    } else if k == 2 {
        "Pong"
    } else if k == 3 {
        "Block"
    } else if k == 4 {
        "DirectBlock"
    } else if k == 5 {
        "TcpConnectionRequest"
    } else if k == 6 {
        "TcpConnectionResponse"
    } else if k == 7 {
        "TcpKeepalive"
    } else if k == 8 {
        "TcpConnectionTest"
    } else if k == 9 {
        "TcpConnectionTestResponse"
    } else {
        "TcpHandshake"
    }
}

fn field_names(k: usize) -> (r: Vec<&'static str>)
    requires
        k < VARIANTS,
    ensures
        r@.len() == names_of(k as int).len(),
        forall|i: int| 0 <= i < r@.len() ==> (#[trigger] r@[i])@ == names_of(k as int)[i],
{
    if k == 0 {
        vec!["id", "alias", "pubkey"]
    } else if k == 1 || k == 2 {
        vec!["id", "alias"]
    } else if k == 3 {
        vec!["block_json"]
    } else if k == 4 {
        vec!["from", "to", "payload_json"]
    } else if k == 5 {
        vec!["from", "from_alias", "tcp_port"]
    } else if k == 6 {
        vec!["from", "to", "accepted", "tcp_port"]
    } else if k == 7 {
        vec!["from"]
    } else if k == 8 {
        vec!["from", "timestamp"]
    } else if k == 9 {
        vec!["from", "to", "timestamp", "response_time_ms"]
    } else {
        vec!["from", "from_alias", "pubkey"]
    }
}

fn field_kinds(k: usize) -> (r: Vec<FieldKind>)
    requires
        k < VARIANTS,
    ensures
        r@ == kinds_of(k as int),
{
    let r = if k == 0 || k == 4 || k == 10 {
        vec![FieldKind::Text, FieldKind::Text, FieldKind::Text]
    } else if k == 1 || k == 2 {
        vec![FieldKind::Text, FieldKind::Text]
    } else if k == 3 || k == 7 {
        vec![FieldKind::Text]
    } else if k == 5 {
        vec![FieldKind::Text, FieldKind::Text, FieldKind::Port]
    } else if k == 6 {
        vec![FieldKind::Text, FieldKind::Text, FieldKind::Flag, FieldKind::Port]
    } else if k == 8 {
        vec![FieldKind::Text, FieldKind::Number]
    } else {
        vec![FieldKind::Text, FieldKind::Text, FieldKind::Number, FieldKind::Number]
    };
    assert(r@ =~= kinds_of(k as int));
    r
}

fn text_value(s: &String) -> (r: FieldValue)
    ensures
        r@ == FieldView::Text(s@),
{
    FieldValue::Text(chars_of(s.as_str()))
}

fn text_field(vals: &Vec<FieldValue>, i: usize) -> (r: String)
    requires
        i < vals@.len(),
    ensures
        r@ == text_at(views(vals@), i as int),
{
    match &vals[i] {
        FieldValue::Text(t) => string_of(t),
        _ => String::new(),
    }
}

fn number_field(vals: &Vec<FieldValue>, i: usize) -> (r: u64)
    requires
        i < vals@.len(),
    ensures
        r == number_at(views(vals@), i as int),
{
    match &vals[i] {
        FieldValue::Number(n) => *n,
        _ => 0,
    }
}

fn port_field(vals: &Vec<FieldValue>, i: usize) -> (r: u16)
    requires
        i < vals@.len(),
    ensures
        r == port_at(views(vals@), i as int),
{
    match &vals[i] {
        FieldValue::Number(n) => if *n <= 65535 {
            *n as u16
        } else {
            0
        },
        _ => 0,
    }
}

fn flag_field(vals: &Vec<FieldValue>, i: usize) -> (r: bool)
    requires
        i < vals@.len(),
    ensures
        r == flag_at(views(vals@), i as int),
{
    match &vals[i] {
        FieldValue::Flag(b) => *b,
        _ => false,
    }
}

fn build_message(k: usize, vals: &Vec<FieldValue>) -> (m: NetworkMessage)
    requires
        k < VARIANTS,
        vals@.len() == names_of(k as int).len(),
    ensures
        m@ == build(k as int, views(vals@)),
{
    if k == 0 {
        NetworkMessage::Peer {
            id: text_field(vals, 0),
            alias: text_field(vals, 1),
            pubkey: text_field(vals, 2),
        }
    } else if k == 1 {
        NetworkMessage::Ping { id: text_field(vals, 0), alias: text_field(vals, 1) }
    } else if k == 2 {
        NetworkMessage::Pong { id: text_field(vals, 0), alias: text_field(vals, 1) }
    } else if k == 3 {
        NetworkMessage::Block { block_json: text_field(vals, 0) }
    } else if k == 4 {
        NetworkMessage::DirectBlock {
            from: text_field(vals, 0),
            to: text_field(vals, 1),
            payload_json: text_field(vals, 2),
        }
    } else if k == 5 {
        NetworkMessage::TcpConnectionRequest {
            from: text_field(vals, 0),
            from_alias: text_field(vals, 1),
            tcp_port: port_field(vals, 2),
        }
    } else if k == 6 {
        NetworkMessage::TcpConnectionResponse {
            from: text_field(vals, 0),
            to: text_field(vals, 1),
            accepted: flag_field(vals, 2),
            tcp_port: port_field(vals, 3),
        }
    } else if k == 7 {
        NetworkMessage::TcpKeepalive { from: text_field(vals, 0) }
    } else if k == 8 {
        NetworkMessage::TcpConnectionTest {
            from: text_field(vals, 0),
            timestamp: number_field(vals, 1),
        }
    } else if k == 9 {
        NetworkMessage::TcpConnectionTestResponse {
            from: text_field(vals, 0),
            to: text_field(vals, 1),
            timestamp: number_field(vals, 2),
            response_time_ms: number_field(vals, 3),
        }
    } else {
        NetworkMessage::TcpHandshake {
            from: text_field(vals, 0),
            from_alias: text_field(vals, 1),
            pubkey: text_field(vals, 2),
        }
    }
}

fn find_tag(t: &Vec<char>) -> (r: Option<usize>)
    ensures
        match r {
            Some(k) => k < VARIANTS && tag_index(t@) == k as int,
            None => tag_index(t@) == -1,
        },
{
    let mut k: usize = 0;
    while k < VARIANTS
        invariant
            k <= VARIANTS,
            forall|m: int| 0 <= m < k ==> t@ != tag_text(m),
        decreases VARIANTS - k,
    {
        let tag = chars_of(tag_of(k));
        if same_chars(t, &tag) {
            return Some(k);
        }
        k = k + 1;
    }
    None
}

impl NetworkMessage {
    /// Index of this message's variant.
    pub fn variant_index(&self) -> (k: usize)
        ensures
            k as int == variant_of(self@),
            k < VARIANTS,
    {
        match self {
            NetworkMessage::Peer { .. } => 0,
            NetworkMessage::Ping { .. } => 1,
            NetworkMessage::Pong { .. } => 2,
            NetworkMessage::Block { .. } => 3,
            NetworkMessage::DirectBlock { .. } => 4,
            NetworkMessage::TcpConnectionRequest { .. } => 5,
            NetworkMessage::TcpConnectionResponse { .. } => 6,
            NetworkMessage::TcpKeepalive { .. } => 7,
            NetworkMessage::TcpConnectionTest { .. } => 8,
            NetworkMessage::TcpConnectionTestResponse { .. } => 9,
            NetworkMessage::TcpHandshake { .. } => 10,
        }
    }

    fn field_values(&self) -> (r: Vec<FieldValue>)
        ensures
            views(r@) == fields_of(self@),
    {
        let r = match self {
            NetworkMessage::Peer { id, alias, pubkey } => vec![
                text_value(id),
                text_value(alias),
                text_value(pubkey),
            ],
            NetworkMessage::Ping { id, alias } => vec![text_value(id), text_value(alias)],
            NetworkMessage::Pong { id, alias } => vec![text_value(id), text_value(alias)],
            NetworkMessage::Block { block_json } => vec![text_value(block_json)],
            NetworkMessage::DirectBlock { from, to, payload_json } => vec![
                text_value(from),
                text_value(to),
                text_value(payload_json),
            ],
            NetworkMessage::TcpConnectionRequest { from, from_alias, tcp_port } => vec![
                text_value(from),
                text_value(from_alias),
                FieldValue::Number(*tcp_port as u64),
            ],
            NetworkMessage::TcpConnectionResponse { from, to, accepted, tcp_port } => vec![
                text_value(from),
                text_value(to),
                FieldValue::Flag(*accepted),
                FieldValue::Number(*tcp_port as u64),
            ],
            NetworkMessage::TcpKeepalive { from } => vec![text_value(from)],
            NetworkMessage::TcpConnectionTest { from, timestamp } => vec![
                text_value(from),
                FieldValue::Number(*timestamp),
            ],
            NetworkMessage::TcpConnectionTestResponse { from, to, timestamp, response_time_ms } =>
                vec![
                text_value(from),
                text_value(to),
                FieldValue::Number(*timestamp),
                FieldValue::Number(*response_time_ms),
            ],
            NetworkMessage::TcpHandshake { from, from_alias, pubkey } => vec![
                text_value(from),
                text_value(from_alias),
                text_value(pubkey),
            ],
        };
        assert(views(r@) =~= fields_of(self@));
        r
    }

    /// The message as JSON text: `{"type":"<Variant>",<fields in order>}`, on one line.
    pub fn encode(&self) -> (r: String)
        ensures
            r@ == wire_text(self@),
    {
        let v = self.encode_chars();
        string_of(&v)
    }

    /// The message as one line of a stream: its encoding and a line feed.
    pub fn encode_line(&self) -> (r: String)
        ensures
            r@ == wire_text(self@).push('\n'),
    {
        let mut v = self.encode_chars();
        v.push('\n');
        string_of(&v)
    }

    #[verifier::spinoff_prover]
    fn encode_chars(&self) -> (r: Vec<char>)
        ensures
            r@ == wire_text(self@),
    {
        let k = self.variant_index();
        let names = field_names(k);
        let vals = self.field_values();
        let ghost ns = names_of(k as int);
        let ghost vs = fields_of(self@);
        let mut out: Vec<char> = Vec::new();
        write_header(&mut out);
        let tag = chars_of(tag_of(k));
        write_quoted(&mut out, &tag);
        let ghost pre = out@;
        let mut i: usize = 0;
        assert(ns.take(0) =~= Seq::<Seq<char>>::empty());
        assert(vs.take(0) =~= Seq::<FieldView>::empty());
        assert(pre + fields_text(ns.take(0), vs.take(0)) =~= pre);
        assert(views(vals@).len() == vals@.len());
        while i < names.len()
            invariant
                names@.len() == ns.len(),
                vals@.len() == ns.len(),
                views(vals@) == vs,
                vs.len() == ns.len(),
                forall|m: int| 0 <= m < names@.len() ==> (#[trigger] names@[m])@ == ns[m],
                i <= names@.len(),
                out@ == pre + fields_text(ns.take(i as int), vs.take(i as int)),
            decreases names@.len() - i,
        {
            let ghost before = out@;
            out.push(',');
            let n = chars_of(names[i]);
            write_quoted(&mut out, &n);
            out.push(':');
            write_value(&mut out, &vals[i]);
            proof {
                assert(vals@[i as int]@ == vs[i as int]);
                assert(out@ =~= before + field_text(ns[i as int], vs[i as int]));
                lemma_fields_text_push(
                    ns.take(i as int),
                    vs.take(i as int),
                    ns[i as int],
                    vs[i as int],
                );
                assert(ns.take(i as int).push(ns[i as int]) =~= ns.take(i + 1));
                assert(vs.take(i as int).push(vs[i as int]) =~= vs.take(i + 1));
            }
            i = i + 1;
        }
        out.push('}');
        proof {
            assert(ns.take(i as int) =~= ns);
            assert(vs.take(i as int) =~= vs);
            assert(out@ =~= wire_text(self@));
        }
        out
    }

    /// Parses one message: a JSON object whose `"type"` names a variant and
    /// which holds that variant's fields, in any order, with whitespace
    /// between tokens and other scalar fields allowed. Any other text is an
    /// error, `UnknownType` where only the `"type"` tag is not known.
    pub fn decode(text: &str) -> (r: Result<NetworkMessage, DecodeError>)
        ensures
            match r {
                Ok(m) => decode_object(text@) == Ok::<MessageView, DecodeError>(m@),
                Err(e) => decode_object(text@) == Err::<MessageView, DecodeError>(e),
            },
    {
        parse_object(text)
    }

}

// ---------------------------------------------------------------------------
// Objects in any field order
// ---------------------------------------------------------------------------

/// JSON whitespace.
pub open spec fn is_json_ws(c: char) -> bool {
    c == ' ' || c == '\t' || c == '\n' || c == '\r'
}

/// First position at or after `i` that holds no JSON whitespace.
pub open spec fn ws_end(s: Seq<char>, i: int) -> int
    decreases s.len() - i,
{
    if 0 <= i < s.len() && is_json_ws(s[i]) {
        ws_end(s, i + 1)
    } else {
        i
    }
}

/// Reads a string, a number or a boolean at `i`.
pub open spec fn scan_scalar(s: Seq<char>, i: int) -> Option<(FieldView, int)> {
    if 0 <= i < s.len() && s[i] == '"' {
        match scan_quoted(s, i) {
            Some((t, j)) => Some((FieldView::Text(t), j)),
            None => None,
        }
    } else if 0 <= i < s.len() && is_digit(s[i]) {
        match scan_number(s, i) {
            Some((n, j)) => Some((FieldView::Number(n), j)),
            None => None,
        }
    } else {
        match scan_bool(s, i) {
            Some((b, j)) => Some((FieldView::Flag(b), j)),
            None => None,
        }
    }
}

/// Reads `"key" : value` with whitespace around each token, from `i`; the
/// position returned is past the whitespace that follows the value.
pub open spec fn scan_member(s: Seq<char>, i: int) -> Option<((Seq<char>, FieldView), int)> {
    let a = ws_end(s, i);
    match scan_quoted(s, a) {
        Some((k, b)) => {
            let c = ws_end(s, b);
            if 0 <= c < s.len() && s[c] == ':' {
                match scan_scalar(s, ws_end(s, c + 1)) {
                    Some((v, e)) => Some(((k, v), ws_end(s, e))),
                    None => None,
                }
            } else {
                None
            }
        },
        None => None,
    }
}

/// Reads members separated by `,` up to and including the closing `}`.
pub open spec fn scan_members(s: Seq<char>, i: int, acc: Seq<(Seq<char>, FieldView)>) -> Option<
    (Seq<(Seq<char>, FieldView)>, int),
>
    decreases s.len() - i,
{
    match scan_member(s, i) {
        Some((m, e)) => if i <= e < s.len() {
            if s[e] == ',' {
                scan_members(s, e + 1, acc.push(m))
            } else if s[e] == '}' {
                Some((acc.push(m), e + 1))
            } else {
                None
            }
        } else {
            None
        },
        None => None,
    }
}

/// The members of a text that is one JSON object of scalar fields, with
/// whitespace allowed around every token.
pub open spec fn scan_object(s: Seq<char>) -> Option<Seq<(Seq<char>, FieldView)>> {
    let a = ws_end(s, 0);
    if 0 <= a < s.len() && s[a] == '{' {
        let b = ws_end(s, a + 1);
        if 0 <= b < s.len() && s[b] == '}' {
            if ws_end(s, b + 1) == s.len() {
                Some(Seq::empty())
            } else {
                None
            }
        } else {
            match scan_members(s, a + 1, Seq::empty()) {
                Some((ms, e)) => if ws_end(s, e) == s.len() {
                    Some(ms)
                } else {
                    None
                },
                None => None,
            }
        }
    } else {
        None
    }
}

/// The value of the first member named `key`.
pub open spec fn lookup(ms: Seq<(Seq<char>, FieldView)>, key: Seq<char>) -> Option<FieldView>
    decreases ms.len(),
{
    if ms.len() == 0 {
        None
    } else if ms[0].0 == key {
        Some(ms[0].1)
    } else {
        lookup(ms.drop_first(), key)
    }
}

/// The values of the named fields, each of its kind, or nothing if one is
/// missing or of another kind.
pub open spec fn collect(ms: Seq<(Seq<char>, FieldView)>, names: Seq<Seq<char>>, kinds: Seq<FieldKind>) -> Option<
    Seq<FieldView>,
>
    decreases names.len(),
{
    if names.len() == 0 || kinds.len() == 0 {
        Some(Seq::empty())
    } else {
        match lookup(ms, names[0]) {
            Some(v) => if fits(v, kinds[0]) {
                match collect(ms, names.drop_first(), kinds.drop_first()) {
                    Some(vs) => Some(seq![v] + vs),
                    None => None,
                }
            } else {
                None
            },
            None => None,
        }
    }
}

/// What a text decodes to: a JSON object whose `"type"` names a variant and
/// which holds that variant's fields, in any order, with whitespace and
/// other scalar fields allowed.
pub open spec fn decode_object(s: Seq<char>) -> Result<MessageView, DecodeError> {
    match scan_object(s) {
        Some(ms) => match lookup(ms, "type"@) {
            Some(FieldView::Text(t)) => {
                let k = tag_index(t);
                if k < 0 {
                    Err(DecodeError::UnknownType)
                } else {
                    match collect(ms, names_of(k), kinds_of(k)) {
                        Some(vals) => Ok(build(k, vals)),
                        None => Err(DecodeError::Malformed),
                    }
                }
            },
            _ => Err(DecodeError::Malformed),
        },
        None => Err(DecodeError::Malformed),
    }
}

pub open spec fn zip_fields(names: Seq<Seq<char>>, vals: Seq<FieldView>) -> Seq<(Seq<char>, FieldView)> {
    Seq::new(names.len(), |i: int| (names[i], vals[i]))
}

pub open spec fn distinct_names(names: Seq<Seq<char>>) -> bool {
    forall|i: int, j: int| 0 <= i < names.len() && 0 <= j < names.len() && i != j ==> names[i] != names[j]
}

/// Length and first character: enough to tell apart the field names of one
/// variant, and each from `type`.
spec fn name_key(t: Seq<char>) -> (nat, char) {
    (t.len(), t[0])
}

proof fn lemma_names_distinct(k: int)
    requires
        0 <= k < 11,
    ensures
        distinct_names(names_of(k)),
        forall|i: int| 0 <= i < names_of(k).len() ==> #[trigger] names_of(k)[i] != "type"@,
        names_of(k).len() >= 1,
{
    reveal_strlit("type");
    reveal_strlit("id");
    reveal_strlit("alias");
    reveal_strlit("pubkey");
    reveal_strlit("block_json");
    reveal_strlit("from");
    reveal_strlit("to");
    reveal_strlit("payload_json");
    reveal_strlit("from_alias");
    reveal_strlit("tcp_port");
    reveal_strlit("accepted");
    reveal_strlit("timestamp");
    reveal_strlit("response_time_ms");
    let ns = names_of(k);
    assert forall|i: int, j: int| 0 <= i < ns.len() && 0 <= j < ns.len() && i != j implies ns[i]
        != ns[j] by {
        assert(name_key(ns[i]) != name_key(ns[j]));
    }
    assert forall|i: int| 0 <= i < ns.len() implies #[trigger] ns[i] != "type"@ by {
        assert(name_key(ns[i]) != name_key("type"@));
    }
}

proof fn lemma_value_start(v: FieldView)
    ensures
        value_text(v).len() > 0,
        !is_json_ws(value_text(v)[0]),
        value_text(v)[0] != ',' && value_text(v)[0] != '}',
        (value_text(v)[0] == '"') == (v is Text),
        is_digit(value_text(v)[0]) == (v is Number),
{
    match v {
        FieldView::Number(n) => {
            lemma_decimal_digits(n);
            assert(is_digit(decimal(n)[0]));
        },
        _ => {},
    }
}

proof fn lemma_scan_scalar(p: Seq<char>, v: FieldView, k: FieldKind, r: Seq<char>)
    requires
        fits(v, k),
        r.len() > 0,
        r[0] == ',' || r[0] == '}',
    ensures
        scan_scalar(p + value_text(v) + r, p.len() as int) == Some(
            (v, (p.len() + value_text(v).len()) as int),
        ),
{
    let s = p + value_text(v) + r;
    lemma_value_start(v);
    assert(s[p.len() as int] == value_text(v)[0]);
    match v {
        FieldView::Text(t) => lemma_scan_quoted(p, t, r),
        FieldView::Number(n) => lemma_scan_decimal(p, n, r),
        FieldView::Flag(b) => lemma_scan_bool(p, b, r),
    }
}

#[verifier::spinoff_prover]
proof fn lemma_scan_member_field(p: Seq<char>, n0: Seq<char>, v0: FieldView, k0: FieldKind, tail: Seq<char>)
    requires
        fits(v0, k0),
        tail.len() > 0,
        tail[0] == ',' || tail[0] == '}',
    ensures
        scan_member(p + field_text(n0, v0) + tail, (p.len() + 1) as int) == Some(
            ((n0, v0), (p.len() + field_text(n0, v0).len()) as int),
        ),
{
    let s = p + field_text(n0, v0) + tail;
    let i = (p.len() + 1) as int;
    let p1 = p + seq![','];
    let rest1 = seq![':'] + value_text(v0) + tail;
    assert(s =~= p1 + quoted(n0) + rest1);
    assert(s[i] == '"');
    lemma_scan_quoted(p1, n0, rest1);
    let b = (p1.len() + quoted(n0).len()) as int;
    assert(s[b] == ':');
    let p2 = p1 + quoted(n0) + seq![':'];
    assert(s =~= p2 + value_text(v0) + tail);
    lemma_value_start(v0);
    assert(s[p2.len() as int] == value_text(v0)[0]);
    lemma_scan_scalar(p2, v0, k0, tail);
    let e = (p2.len() + value_text(v0).len()) as int;
    assert(s[e] == tail[0]);
    let p3 = p + field_text(n0, v0);
    assert(p3.len() == e);
}

/// The members after the first, written as `,"name":value` each and closed
/// by `}`, are read back in order.
#[verifier::spinoff_prover]
proof fn lemma_scan_members_fields(
    p: Seq<char>,
    names: Seq<Seq<char>>,
    vals: Seq<FieldView>,
    kinds: Seq<FieldKind>,
    acc: Seq<(Seq<char>, FieldView)>,
)
    requires
        names.len() == vals.len(),
        names.len() >= 1,
        all_fit(vals, kinds),
    ensures
        ({
            let s = p + fields_text(names, vals) + seq!['}'];
            scan_members(s, p.len() + 1 as int, acc) == Some((acc + zip_fields(names, vals), s.len() as int))
        }),
    decreases names.len(),
{
    let s = p + fields_text(names, vals) + seq!['}'];
    let n0 = names[0];
    let v0 = vals[0];
    let n2 = names.drop_first();
    let v2 = vals.drop_first();
    let k2 = kinds.drop_first();
    let tail = fields_text(n2, v2) + seq!['}'];
    assert(s =~= p + field_text(n0, v0) + tail);
    if n2.len() > 0 {
        assert(fields_text(n2, v2)[0] == ',');
        assert(tail[0] == ',');
    } else {
        assert(fields_text(n2, v2) =~= Seq::<char>::empty());
        assert(tail =~= seq!['}']);
    }
    let e = (p.len() + field_text(n0, v0).len()) as int;
    assert(fits(v0, kinds[0]));
    lemma_scan_member_field(p, n0, v0, kinds[0], tail);
    let p3 = p + field_text(n0, v0);
    assert(s[e] == tail[0]);
    if n2.len() > 0 {
        assert(s =~= p3 + fields_text(n2, v2) + seq!['}']);
        assert forall|j: int| 0 <= j < v2.len() implies fits(#[trigger] v2[j], k2[j]) by {
            assert(v2[j] == vals[j + 1]);
            assert(fits(vals[j + 1], kinds[j + 1]));
        }
        lemma_scan_members_fields(p3, n2, v2, k2, acc.push((n0, v0)));
        assert(acc.push((n0, v0)) + zip_fields(n2, v2) =~= acc + zip_fields(names, vals));
    } else {
        assert(acc.push((n0, v0)) =~= acc + zip_fields(names, vals));
    }
}

proof fn lemma_lookup_zip(names: Seq<Seq<char>>, vals: Seq<FieldView>, i: int)
    requires
        names.len() == vals.len(),
        distinct_names(names),
        0 <= i < names.len(),
    ensures
        lookup(zip_fields(names, vals), names[i]) == Some(vals[i]),
    decreases names.len(),
{
    let z = zip_fields(names, vals);
    if i > 0 {
        assert(names[0] != names[i]);
        let n2 = names.drop_first();
        let v2 = vals.drop_first();
        assert(z.drop_first() =~= zip_fields(n2, v2));
        assert(distinct_names(n2)) by {
            assert forall|a: int, b: int| 0 <= a < n2.len() && 0 <= b < n2.len() && a != b implies n2[a]
                != n2[b] by {
                assert(names[a + 1] != names[b + 1]);
            }
        }
        lemma_lookup_zip(n2, v2, i - 1);
    }
}

proof fn lemma_collect(ms: Seq<(Seq<char>, FieldView)>, names: Seq<Seq<char>>, vals: Seq<FieldView>, kinds: Seq<FieldKind>)
    requires
        names.len() == vals.len(),
        all_fit(vals, kinds),
        forall|i: int| 0 <= i < names.len() ==> lookup(ms, #[trigger] names[i]) == Some(vals[i]),
    ensures
        collect(ms, names, kinds) == Some(vals),
    decreases names.len(),
{
    if names.len() == 0 {
        assert(vals =~= Seq::<FieldView>::empty());
    } else {
        let n2 = names.drop_first();
        let v2 = vals.drop_first();
        let k2 = kinds.drop_first();
        assert(lookup(ms, names[0]) == Some(vals[0]));
        assert(fits(vals[0], kinds[0]));
        assert forall|j: int| 0 <= j < v2.len() implies fits(#[trigger] v2[j], k2[j]) by {
            assert(v2[j] == vals[j + 1]);
            assert(fits(vals[j + 1], kinds[j + 1]));
        }
        assert forall|j: int| 0 <= j < n2.len() implies lookup(ms, #[trigger] n2[j]) == Some(v2[j]) by {
            assert(n2[j] == names[j + 1]);
            assert(lookup(ms, names[j + 1]) == Some(vals[j + 1]));
        }
        lemma_collect(ms, n2, v2, k2);
        assert(seq![vals[0]] + v2 =~= vals);
    }
}

/// Every message's encoding decodes to that message.
#[verifier::spinoff_prover]
#[verifier::rlimit(100)]
pub proof fn lemma_wire_round_trip(v: MessageView)
    ensures
        decode_object(wire_text(v)) == Ok::<MessageView, DecodeError>(v),
{
    let k = variant_of(v);
    let names = names_of(k);
    let vals = fields_of(v);
    let kinds = kinds_of(k);
    lemma_names_distinct(k);
    assert(all_fit(vals, kinds));
    let s = wire_text(v);
    let f = fields_text(names, vals);
    let tag = tag_text(k);
    reveal_strlit("type");
    // the `type` member
    let p0 = seq!['{'];
    let r0 = seq![':'] + quoted(tag) + f + seq!['}'];
    assert(s =~= p0 + quoted("type"@) + r0);
    assert(s[0] == '{');
    assert(s[1] == '"');
    lemma_scan_quoted(p0, "type"@, r0);
    let b = (1 + quoted("type"@).len()) as int;
    assert(s[b] == ':');
    let p1 = header_text();
    assert(s =~= p1 + quoted(tag) + (f + seq!['}']));
    assert(s[p1.len() as int] == '"');
    lemma_scan_quoted(p1, tag, f + seq!['}']);
    let e = (p1.len() + quoted(tag).len()) as int;
    assert(f[0] == ',');
    assert(s[e] == ',');
    assert(scan_scalar(s, p1.len() as int) == Some((FieldView::Text(tag), e as int)));
    assert(scan_member(s, 1) == Some((("type"@, FieldView::Text(tag)), e as int)));
    let p2 = p1 + quoted(tag);
    assert(s =~= p2 + f + seq!['}']);
    let first = seq![("type"@, FieldView::Text(tag))];
    lemma_scan_members_fields(p2, names, vals, kinds, first);
    assert(Seq::<(Seq<char>, FieldView)>::empty().push(("type"@, FieldView::Text(tag))) =~= first);
    let ms = first + zip_fields(names, vals);
    assert(scan_members(s, 1, Seq::empty()) == Some((ms, s.len() as int)));
    assert(scan_object(s) == Some(ms));
    assert(lookup(ms, "type"@) == Some(FieldView::Text(tag)));
    lemma_tag_index(k);
    assert forall|i: int| 0 <= i < names.len() implies lookup(ms, #[trigger] names[i]) == Some(vals[i]) by {
        assert(names[i] != "type"@);
        assert(ms.drop_first() =~= zip_fields(names, vals));
        lemma_lookup_zip(names, vals, i);
    }
    lemma_collect(ms, names, vals, kinds);
    assert(build(k, vals) == v);
}

/// A scalar read from an object.
pub enum Scalar {
    Text(Vec<char>),
    Number(u128),
    Flag(bool),
}

impl View for Scalar {
    type V = FieldView;

    open spec fn view(&self) -> FieldView {
        match self {
            Scalar::Text(t) => FieldView::Text(t@),
            Scalar::Number(n) => FieldView::Number(*n as nat),
            Scalar::Flag(b) => FieldView::Flag(*b),
        }
    }
}

pub open spec fn member_views(ms: Seq<(Vec<char>, Scalar)>) -> Seq<(Seq<char>, FieldView)> {
    ms.map_values(|m: (Vec<char>, Scalar)| (m.0@, m.1@))
}

proof fn lemma_ws_end_run(s: Seq<char>, i: int, k: int)
    requires
        0 <= i <= k <= s.len(),
        forall|m: int| i <= m < k ==> is_json_ws(#[trigger] s[m]),
    ensures
        ws_end(s, i) == ws_end(s, k),
    decreases k - i,
{
    if i < k {
        lemma_ws_end_run(s, i + 1, k);
    }
}

fn skip_ws(s: &Vec<char>, i: usize) -> (r: usize)
    requires
        i <= s@.len(),
    ensures
        r as int == ws_end(s@, i as int),
        i <= r <= s@.len(),
{
    let mut k = i;
    while k < s.len() && (s[k] == ' ' || s[k] == '\t' || s[k] == '\n' || s[k] == '\r')
        invariant
            i <= k <= s@.len(),
            forall|m: int| i <= m < k ==> is_json_ws(#[trigger] s@[m]),
        decreases s@.len() - k,
    {
        k = k + 1;
    }
    proof {
        lemma_ws_end_run(s@, i as int, k as int);
    }
    k
}

fn read_scalar(s: &Vec<char>, i: usize) -> (r: Option<(Scalar, usize)>)
    ensures
        match r {
            Some((v, j)) => scan_scalar(s@, i as int) == Some((v@, j as int)) && j <= s@.len(),
            None => scan_scalar(s@, i as int) is None,
        },
{
    if i < s.len() && s[i] == '"' {
        match read_quoted(s, i) {
            Some((t, j)) => Some((Scalar::Text(t), j)),
            None => None,
        }
    } else if i < s.len() && 48 <= (s[i] as u32) && (s[i] as u32) <= 57 {
        match read_number(s, i) {
            Some((n, j)) => Some((Scalar::Number(n), j)),
            None => None,
        }
    } else {
        match read_bool(s, i) {
            Some((b, j)) => Some((Scalar::Flag(b), j)),
            None => None,
        }
    }
}

fn read_member(s: &Vec<char>, i: usize) -> (r: Option<(Vec<char>, Scalar, usize)>)
    requires
        i <= s@.len(),
    ensures
        match r {
            Some((k, v, e)) => scan_member(s@, i as int) == Some(((k@, v@), e as int)) && e <= s@.len(),
            None => scan_member(s@, i as int) is None,
        },
{
    let a = skip_ws(s, i);
    match read_quoted(s, a) {
        Some((key, b)) => {
            let c = skip_ws(s, b);
            if c < s.len() && s[c] == ':' {
                let d = skip_ws(s, c + 1);
                match read_scalar(s, d) {
                    Some((v, e)) => {
                        let e2 = skip_ws(s, e);
                        Some((key, v, e2))
                    },
                    None => None,
                }
            } else {
                None
            }
        },
        None => None,
    }
}

fn read_object(s: &Vec<char>) -> (r: Option<Vec<(Vec<char>, Scalar)>>)
    ensures
        match r {
            Some(ms) => scan_object(s@) == Some(member_views(ms@)),
            None => scan_object(s@) is None,
        },
{
    let a = skip_ws(s, 0);
    if !(a < s.len() && s[a] == '{') {
        return None;
    }
    let b = skip_ws(s, a + 1);
    if b < s.len() && s[b] == '}' {
        let end = skip_ws(s, b + 1);
        if end == s.len() {
            let empty: Vec<(Vec<char>, Scalar)> = Vec::new();
            assert(member_views(empty@) =~= Seq::<(Seq<char>, FieldView)>::empty());
            return Some(empty);
        } else {
            return None;
        }
    }
    let mut acc: Vec<(Vec<char>, Scalar)> = Vec::new();
    let mut pos: usize = a + 1;
    assert(member_views(acc@) =~= Seq::<(Seq<char>, FieldView)>::empty());
    loop
        invariant
            a + 1 <= pos <= s@.len(),
            0 <= a < s@.len(),
            s@[a as int] == '{',
            a as int == ws_end(s@, 0),
            !(0 <= ws_end(s@, a + 1) < s@.len() && s@[ws_end(s@, a + 1)] == '}'),
            scan_members(s@, a + 1, Seq::empty()) == scan_members(s@, pos as int, member_views(acc@)),
        decreases s@.len() - pos,
    {
        let ghost before = acc@;
        match read_member(s, pos) {
            Some((key, v, e)) => {
                if !(pos <= e && e < s.len()) {
                    return None;
                }
                let ghost m = (key@, v@);
                let c = s[e];
                acc.push((key, v));
                assert(member_views(acc@) =~= member_views(before).push(m));
                if c == ',' {
                    pos = e + 1;
                } else if c == '}' {
                    let end = skip_ws(s, e + 1);
                    if end == s.len() {
                        return Some(acc);
                    } else {
                        return None;
                    }
                } else {
                    return None;
                }
            },
            None => {
                return None;
            },
        }
    }
}

fn lookup_member(ms: &Vec<(Vec<char>, Scalar)>, key: &Vec<char>) -> (r: Option<usize>)
    ensures
        match r {
            Some(i) => i < ms@.len() && lookup(member_views(ms@), key@) == Some(ms@[i as int].1@),
            None => lookup(member_views(ms@), key@) is None,
        },
{
    let ghost v = member_views(ms@);
    let mut i: usize = 0;
    assert(v.skip(0) =~= v);
    while i < ms.len()
        invariant
            v == member_views(ms@),
            i <= ms@.len(),
            lookup(v, key@) == lookup(v.skip(i as int), key@),
        decreases ms@.len() - i,
    {
        assert(v.skip(i as int)[0] == (ms@[i as int].0@, ms@[i as int].1@));
        assert(v.skip(i as int).drop_first() =~= v.skip(i + 1));
        if same_chars(&ms[i].0, key) {
            return Some(i);
        }
        i = i + 1;
    }
    assert(v.skip(i as int) =~= Seq::<(Seq<char>, FieldView)>::empty());
    None
}

fn copy_chars(v: &Vec<char>) -> (r: Vec<char>)
    ensures
        r@ == v@,
{
    let mut r: Vec<char> = Vec::new();
    let mut i: usize = 0;
    while i < v.len()
        invariant
            i <= v@.len(),
            r@ == v@.take(i as int),
        decreases v@.len() - i,
    {
        r.push(v[i]);
        assert(v@.take(i + 1) =~= v@.take(i as int).push(v@[i as int]));
        i = i + 1;
    }
    assert(v@.take(i as int) =~= v@);
    r
}

/// The field value of a scalar of the given kind, if it is of that kind.
fn field_of(v: &Scalar, k: FieldKind) -> (r: Option<FieldValue>)
    ensures
        match r {
            Some(f) => fits(v@, k) && f@ == v@,
            None => !fits(v@, k),
        },
{
    match (v, k) {
        (Scalar::Text(t), FieldKind::Text) => Some(FieldValue::Text(copy_chars(t))),
        (Scalar::Number(n), FieldKind::Port) => if *n <= 65535 {
            Some(FieldValue::Number(*n as u64))
        } else {
            None
        },
        (Scalar::Number(n), FieldKind::Number) => if *n <= 0xffff_ffff_ffff_ffff {
            Some(FieldValue::Number(*n as u64))
        } else {
            None
        },
        (Scalar::Flag(b), FieldKind::Flag) => Some(FieldValue::Flag(*b)),
        _ => None,
    }
}

fn collect_fields(ms: &Vec<(Vec<char>, Scalar)>, k: usize) -> (r: Option<Vec<FieldValue>>)
    requires
        k < VARIANTS,
    ensures
        match r {
            Some(vals) => collect(member_views(ms@), names_of(k as int), kinds_of(k as int)) == Some(
                views(vals@),
            ) && vals@.len() == names_of(k as int).len(),
            None => collect(member_views(ms@), names_of(k as int), kinds_of(k as int)) is None,
        },
{
    let names = field_names(k);
    let kinds = field_kinds(k);
    let ghost ns = names_of(k as int);
    let ghost ks = kinds_of(k as int);
    let ghost mv = member_views(ms@);
    let mut vals: Vec<FieldValue> = Vec::new();
    let mut i: usize = 0;
    assert(ns.skip(0) =~= ns);
    assert(ks.skip(0) =~= ks);
    assert(views(vals@) + Seq::<FieldView>::empty() =~= Seq::<FieldView>::empty());
    while i < names.len()
        invariant
            mv == member_views(ms@),
            ns == names_of(k as int),
            ks == kinds_of(k as int),
            names@.len() == ns.len(),
            kinds@ == ks,
            ks.len() == ns.len(),
            forall|m: int| 0 <= m < names@.len() ==> (#[trigger] names@[m])@ == ns[m],
            i <= names@.len(),
            vals@.len() == i,
            collect(mv, ns, ks) == match collect(mv, ns.skip(i as int), ks.skip(i as int)) {
                Some(vs) => Some(views(vals@) + vs),
                None => None,
            },
        decreases names@.len() - i,
    {
        let ghost old_vals = vals@;
        assert(ns.skip(i as int)[0] == ns[i as int]);
        assert(ks.skip(i as int)[0] == ks[i as int]);
        assert(ns.skip(i as int).drop_first() =~= ns.skip(i + 1));
        assert(ks.skip(i as int).drop_first() =~= ks.skip(i + 1));
        let key = chars_of(names[i]);
        match lookup_member(ms, &key) {
            Some(j) => match field_of(&ms[j].1, kinds[i]) {
                Some(f) => {
                    vals.push(f);
                    proof {
                        assert(views(vals@) =~= views(old_vals) + seq![f@]);
                        match collect(mv, ns.skip(i + 1), ks.skip(i + 1)) {
                            Some(vs) => {
                                assert(views(old_vals) + (seq![f@] + vs) =~= views(vals@) + vs);
                            },
                            None => {},
                        }
                    }
                },
                None => {
                    return None;
                },
            },
            None => {
                return None;
            },
        }
        i = i + 1;
    }
    assert(ns.skip(i as int) =~= Seq::<Seq<char>>::empty());
    assert(views(vals@) + Seq::<FieldView>::empty() =~= views(vals@));
    Some(vals)
}

fn parse_object(text: &str) -> (r: Result<NetworkMessage, DecodeError>)
    ensures
        match r {
            Ok(m) => decode_object(text@) == Ok::<MessageView, DecodeError>(m@),
            Err(e) => decode_object(text@) == Err::<MessageView, DecodeError>(e),
        },
{
    let s = chars_of(text);
    let ms = match read_object(&s) {
        Some(ms) => ms,
        None => {
            return Err(DecodeError::Malformed);
        },
    };
    let type_key = chars_of("type");
    let j = match lookup_member(&ms, &type_key) {
        Some(j) => j,
        None => {
            return Err(DecodeError::Malformed);
        },
    };
    let k = match &ms[j].1 {
        Scalar::Text(t) => match find_tag(t) {
            Some(k) => k,
            None => {
                return Err(DecodeError::UnknownType);
            },
        },
        _ => {
            return Err(DecodeError::Malformed);
        },
    };
    match collect_fields(&ms, k) {
        Some(vals) => Ok(build_message(k, &vals)),
        None => Err(DecodeError::Malformed),
    }
}

} // verus!
