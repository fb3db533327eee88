use wichain::{
    DecodeError, Effect, FrameOutcome, NetError, NetworkMessage, NetworkNode, PeerAddr, Route,
    SendEvent, SendStep, StreamReader,
};

fn s(x: &str) -> String {
    x.to_string()
}

fn node(id: &str, alias: &str) -> NetworkNode {
    NetworkNode::new(7000, s(id), s(alias), format!("pk-{}", id))
}

fn addr(last: u8, port: u16) -> PeerAddr {
    PeerAddr { ip: u32::from_be_bytes([192, 168, 1, last]), port }
}

fn all_variants() -> Vec<NetworkMessage> {
    vec![
        NetworkMessage::Peer { id: s("a"), alias: s("Alice"), pubkey: s("k") },
        NetworkMessage::Ping { id: s("a"), alias: s("Al\"ice") },
        NetworkMessage::Pong { id: s("b"), alias: s("B\\ob") },
        NetworkMessage::Block { block_json: s("{\"dummy\":\"block\"}") },
        NetworkMessage::DirectBlock { from: s("a"), to: s("b"), payload_json: s("line1\nline2\t\u{1}é") },
        NetworkMessage::TcpConnectionRequest { from: s("a"), from_alias: s("A"), tcp_port: 61000 },
        NetworkMessage::TcpConnectionResponse { from: s("b"), to: s("a"), accepted: false, tcp_port: 0 },
        NetworkMessage::TcpKeepalive { from: s("") },
        NetworkMessage::TcpConnectionTest { from: s("a"), timestamp: u64::MAX },
        NetworkMessage::TcpConnectionTestResponse { from: s("a"), to: s("b"), timestamp: 5, response_time_ms: 10 },
        NetworkMessage::TcpHandshake { from: s("a"), from_alias: s("A"), pubkey: s("k") },
    ]
}

#[test]
fn wire_round_trip_every_variant() {
    for m in all_variants() {
        let text = m.encode();
        assert!(!text.contains('\n'));
        assert_eq!(NetworkMessage::decode(&text), Ok(m.clone()));
    }
}

#[test]
fn wire_encoding_is_tagged_json() {
    let m = NetworkMessage::Peer { id: s("a"), alias: s("b"), pubkey: s("c") };
    assert_eq!(m.encode(), "{\"type\":\"Peer\",\"id\":\"a\",\"alias\":\"b\",\"pubkey\":\"c\"}");
    let r = NetworkMessage::TcpConnectionResponse { from: s("x"), to: s("y"), accepted: true, tcp_port: 61000 };
    assert_eq!(
        r.encode(),
        "{\"type\":\"TcpConnectionResponse\",\"from\":\"x\",\"to\":\"y\",\"accepted\":true,\"tcp_port\":61000}"
    );
    let d = NetworkMessage::DirectBlock { from: s("a"), to: s("b"), payload_json: s("q\"\n\u{1f}") };
    assert_eq!(
        d.encode(),
        "{\"type\":\"DirectBlock\",\"from\":\"a\",\"to\":\"b\",\"payload_json\":\"q\\\"\\n\\u001f\"}"
    );
}

#[test]
fn legacy_block_still_decodes() {
    let m = NetworkMessage::decode("{\"type\":\"Block\",\"block_json\":\"[]\"}");
    assert_eq!(m, Ok(NetworkMessage::Block { block_json: s("[]") }));
}

#[test]
fn unknown_tag_is_recoverable_error() {
    assert_eq!(NetworkMessage::decode("{\"type\":\"Future\",\"x\":1}"), Err(DecodeError::UnknownType));
}

#[test]
fn malformed_text_is_error() {
    assert_eq!(NetworkMessage::decode(""), Err(DecodeError::Malformed));
    assert_eq!(NetworkMessage::decode("not json"), Err(DecodeError::Malformed));
    assert_eq!(NetworkMessage::decode("{\"type\":\"Ping\",\"id\":\"a\"}"), Err(DecodeError::Malformed));
    assert_eq!(
        NetworkMessage::decode("{\"type\":\"TcpConnectionRequest\",\"from\":\"a\",\"from_alias\":\"b\",\"tcp_port\":70000}"),
        Err(DecodeError::Malformed)
    );
    assert_eq!(
        NetworkMessage::decode("{\"type\":\"Ping\",\"id\":\"a\",\"alias\":\"b\"}x"),
        Err(DecodeError::Malformed)
    );
}

#[test]
fn unobserved_peer_not_listed() {
    let mut a = node("A", "alice");
    assert!(a.list_peers().is_empty());
    let m = NetworkMessage::Peer { id: s("B"), alias: s("bob"), pubkey: s("kb") };
    a.handle_datagram(addr(2, 7000), &m.encode(), 100);
    let peers = a.list_peers();
    assert!(peers.iter().all(|p| p.id != "C"));
    assert_eq!(peers.len(), 1);
}

#[test]
fn presence_records_source_address() {
    let mut a = node("A", "alice");
    let src = addr(9, 5555);
    let m = NetworkMessage::Peer { id: s("P"), alias: s("pat"), pubkey: s("kp") };
    let effects = a.handle_datagram(src, &m.encode(), 100);
    assert_eq!(effects.len(), 1);
    assert!(matches!(&effects[0], Effect::Forward(f) if *f == m));
    let peers = a.list_peers();
    assert_eq!(peers.len(), 1);
    assert_eq!(peers[0].id, "P");
    assert_eq!(peers[0].alias, "pat");
    assert_eq!(peers[0].pubkey, "kp");
    assert_eq!(peers[0].last_seen_ms, 100);
    assert_eq!(peers[0].connection_type, "UDP");
    assert_eq!(a.peers[0].addr, src);
    // a later datagram from another address moves the peer
    let src2 = addr(10, 6000);
    a.handle_datagram(src2, &NetworkMessage::TcpKeepalive { from: s("P") }.encode(), 200);
    assert_eq!(a.peers.len(), 1);
    assert_eq!(a.peers[0].addr, src2);
    assert_eq!(a.peers[0].alias, "pat");
    assert_eq!(a.peers[0].last_seen_ms, 200);
}

#[test]
fn stale_peer_evicted_after_sweep() {
    let mut a = node("A", "alice");
    a.handle_datagram(addr(2, 7000), &NetworkMessage::Ping { id: s("old"), alias: s("o") }.encode(), 1_000);
    a.handle_datagram(addr(3, 7000), &NetworkMessage::Ping { id: s("new"), alias: s("n") }.encode(), 20_000);
    assert_eq!(a.list_peers().len(), 2);
    a.maybe_gc_stale(31_001);
    let peers = a.list_peers();
    assert_eq!(peers.len(), 1);
    assert_eq!(peers[0].id, "new");
    a.evict_stale(31_001, 30_000);
    assert_eq!(a.list_peers().len(), 1);
    a.evict_stale(50_001, 30_000);
    assert!(a.list_peers().is_empty());
}

#[test]
fn probe_answered_once_to_sender() {
    let mut a = node("A", "alice");
    let src = addr(4, 7123);
    let effects = a.handle_datagram(src, &NetworkMessage::Ping { id: s("B"), alias: s("bob") }.encode(), 5);
    let sends: Vec<_> = effects
        .iter()
        .filter_map(|e| match e {
            Effect::Send(o) => Some(o.clone()),
            _ => None,
        })
        .collect();
    assert_eq!(sends.len(), 1);
    assert_eq!(sends[0].to, src);
    assert_eq!(
        NetworkMessage::decode(&sends[0].data),
        Ok(NetworkMessage::Pong { id: s("A"), alias: s("alice") })
    );
}

#[test]
fn garbage_datagram_is_dropped() {
    let mut a = node("A", "alice");
    assert!(a.handle_datagram(addr(1, 1), "{{{", 5).is_empty());
    assert!(a.list_peers().is_empty());
}

#[test]
fn send_uses_stream_when_session_live() {
    let mut a = node("A", "alice");
    a.handle_datagram(addr(2, 7000), &NetworkMessage::Ping { id: s("P"), alias: s("p") }.encode(), 5);
    a.register_session("P", 6);
    assert!(a.has_tcp_connection("P"));
    match a.route("P", "payload").unwrap() {
        Route::Stream { peer_id, frame } => {
            assert_eq!(peer_id, "P");
            assert!(frame.ends_with('\n'));
            let m = NetworkMessage::decode(frame.trim_end_matches('\n')).unwrap();
            assert_eq!(m, NetworkMessage::DirectBlock { from: s("A"), to: s("P"), payload_json: s("payload") });
        }
        Route::Datagram(_) => panic!("expected the stream"),
    }
    assert_eq!(a.list_peers()[0].connection_type, "TCP");
}

#[test]
fn send_falls_back_to_datagram() {
    let mut a = node("A", "alice");
    let src = addr(2, 7000);
    a.handle_datagram(src, &NetworkMessage::Ping { id: s("P"), alias: s("p") }.encode(), 5);
    match a.route("P", "payload").unwrap() {
        Route::Datagram(o) => {
            assert_eq!(o.to, src);
            assert_eq!(
                NetworkMessage::decode(&o.data),
                Ok(NetworkMessage::DirectBlock { from: s("A"), to: s("P"), payload_json: s("payload") })
            );
        }
        Route::Stream { .. } => panic!("expected a datagram"),
    }
    let o = a.datagram_route("P", "x").unwrap();
    assert_eq!(o.to, src);
}

#[test]
fn send_to_unknown_peer_fails() {
    let a = node("A", "alice");
    assert!(matches!(a.route("ghost", "x"), Err(NetError::PeerNotFound)));
    assert!(matches!(a.datagram_route("ghost", "x"), Err(NetError::PeerNotFound)));
    assert!(matches!(a.upgrade_request("ghost"), Err(NetError::PeerNotFound)));
}

#[test]
fn frames_before_handshake_never_register() {
    let mut a = node("A", "alice");
    let mut reader = StreamReader::new();
    let direct = NetworkMessage::DirectBlock { from: s("X"), to: s("A"), payload_json: s("sneaky") };
    let out = reader.on_frame(&mut a, &direct.encode(), 1);
    assert!(matches!(out, FrameOutcome::Rejected));
    assert!(reader.rejected);
    assert!(!a.has_tcp_connection("X"));
    assert!(a.sessions.is_empty());
    let hs = NetworkMessage::TcpHandshake { from: s("X"), from_alias: s("x"), pubkey: s("kx") };
    let out = reader.on_frame(&mut a, &hs.encode(), 2);
    assert!(matches!(out, FrameOutcome::Discarded));
    assert!(!a.has_tcp_connection("X"));
    let out = reader.on_frame(&mut a, &direct.encode(), 3);
    assert!(matches!(out, FrameOutcome::Discarded));
    assert!(a.sessions.is_empty());
    assert!(matches!(a.route("X", "p"), Err(NetError::PeerNotFound)));
}

#[test]
fn garbage_before_handshake_is_dropped() {
    let mut a = node("A", "alice");
    let mut reader = StreamReader::new();
    assert!(matches!(reader.on_frame(&mut a, "   ", 1), FrameOutcome::Discarded));
    assert!(!reader.rejected);
    assert!(matches!(reader.on_frame(&mut a, "hello", 1), FrameOutcome::Discarded));
    assert!(!reader.rejected);
    assert!(a.sessions.is_empty());
    let hs = NetworkMessage::TcpHandshake { from: s("X"), from_alias: s("x"), pubkey: s("kx") };
    assert!(matches!(reader.on_frame(&mut a, &hs.encode(), 2), FrameOutcome::Registered(ref p) if p == "X"));
    assert!(a.has_tcp_connection("X"));
}

#[test]
fn handshake_then_frames_are_forwarded() {
    let mut a = node("A", "alice");
    let mut reader = StreamReader::new();
    let hs = NetworkMessage::TcpHandshake { from: s("X"), from_alias: s("x"), pubkey: s("kx") };
    let line = format!("{}\r", hs.encode());
    let out = reader.on_frame(&mut a, &line, 2);
    assert!(matches!(out, FrameOutcome::Registered(ref p) if p == "X"));
    assert!(a.has_tcp_connection("X"));
    let direct = NetworkMessage::DirectBlock { from: s("X"), to: s("A"), payload_json: s("hi") };
    let out = reader.on_frame(&mut a, &direct.encode(), 3);
    assert!(matches!(out, FrameOutcome::Forward(ref m) if *m == direct));
    assert!(matches!(reader.on_frame(&mut a, &hs.encode(), 4), FrameOutcome::Discarded));
    assert!(matches!(reader.on_frame(&mut a, "junk", 4), FrameOutcome::Discarded));
    let st = a.get_connection_stats("X", 10).unwrap();
    assert_eq!(st.message_count, 1);
    assert_eq!(st.last_activity_ms, 7);
    a.close_session("X");
    assert!(!a.has_tcp_connection("X"));
    assert!(a.get_connection_stats("X", 10).is_none());
}

#[test]
fn stream_reader_splits_lines() {
    let mut reader = StreamReader::new();
    reader.push_text("one\ntw");
    assert_eq!(reader.next_line(), Some(s("one")));
    assert_eq!(reader.next_line(), None);
    reader.push_text("o\n\nthree");
    assert_eq!(reader.next_line(), Some(s("two")));
    assert_eq!(reader.next_line(), Some(s("")));
    assert_eq!(reader.next_line(), None);
    assert_eq!(reader.pending.iter().collect::<String>(), "three");
}

#[test]
fn upgrade_handshake_flow() {
    let mut a = node("A", "alice");
    let mut b = NetworkNode::new(7000, s("B"), s("bob"), s("pk-B"));
    let a_addr = addr(1, 7000);
    let b_addr = addr(2, 7000);
    // discovery
    b.handle_datagram(a_addr, &NetworkMessage::Ping { id: s("A"), alias: s("alice") }.encode(), 1);
    a.handle_datagram(b_addr, &NetworkMessage::Ping { id: s("B"), alias: s("bob") }.encode(), 1);
    let plan = a.upgrade_request("B").unwrap();
    assert_eq!(plan.request.to, b_addr);
    assert_eq!(plan.connect_to, None);
    let effects = b.handle_datagram(a_addr, &plan.request.data, 2);
    let reply = match &effects[0] {
        Effect::Send(o) => o.clone(),
        _ => panic!("expected a reply"),
    };
    assert_eq!(reply.to, a_addr);
    assert_eq!(b.peers[0].tcp_port, Some(8000));
    let effects = a.handle_datagram(b_addr, &reply.data, 3);
    match &effects[0] {
        Effect::Connect { peer_id, addr: to } => {
            assert_eq!(peer_id, "B");
            assert_eq!(*to, PeerAddr { ip: b_addr.ip, port: 8000 });
        }
        _ => panic!("expected a connect"),
    }
    let frame = a.handshake_frame();
    a.register_session("B", 3);
    let mut reader = StreamReader::new();
    reader.push_text(&frame);
    let line = reader.next_line().unwrap();
    assert!(matches!(reader.on_frame(&mut b, &line, 4), FrameOutcome::Registered(ref p) if p == "A"));
    assert!(a.has_tcp_connection("B") && b.has_tcp_connection("A"));
    assert_eq!(a.get_tcp_port(), 8000);
}

#[test]
fn set_alias_announces_at_once() {
    let mut a = node("A", "alice");
    let out = a.set_alias(s("ally"));
    assert_eq!(out.len(), 2);
    assert_eq!(out[0].to, PeerAddr { ip: 0xffff_ffff, port: 7000 });
    assert_eq!(
        NetworkMessage::decode(&out[0].data),
        Ok(NetworkMessage::Peer { id: s("A"), alias: s("ally"), pubkey: s("pk-A") })
    );
    assert_eq!(NetworkMessage::decode(&out[1].data), Ok(NetworkMessage::Ping { id: s("A"), alias: s("ally") }));
}

#[test]
fn two_nodes_discover_each_other() {
    let mut a = node("A", "alice");
    let mut b = node("B", "bob");
    let a_addr = addr(1, 7000);
    let b_addr = addr(2, 7000);
    for tick in 0..2u64 {
        for o in a.announce() {
            b.handle_datagram(a_addr, &o.data, tick * 1000);
        }
        for o in b.announce() {
            a.handle_datagram(b_addr, &o.data, tick * 1000);
        }
    }
    let pa = a.list_peers();
    let pb = b.list_peers();
    assert_eq!(pa.len(), 1);
    assert_eq!(pa[0].id, "B");
    assert_eq!(pa[0].alias, "bob");
    assert_eq!(pb.len(), 1);
    assert_eq!(pb[0].id, "A");
    assert_eq!(pb[0].pubkey, "pk-A");
}

#[test]
fn direct_message_reaches_peer_by_datagram() {
    let mut a = node("A", "alice");
    let mut b = node("B", "bob");
    let a_addr = addr(1, 7000);
    let b_addr = addr(2, 7000);
    for o in b.announce() {
        a.handle_datagram(b_addr, &o.data, 0);
    }
    let o = match a.route("B", "hello").unwrap() {
        Route::Datagram(o) => o,
        Route::Stream { .. } => panic!("no upgrade was made"),
    };
    assert_eq!(o.to, b_addr);
    let effects = b.handle_datagram(a_addr, &o.data, 1);
    assert_eq!(effects.len(), 1);
    match &effects[0] {
        Effect::Forward(m) => assert_eq!(
            *m,
            NetworkMessage::DirectBlock { from: s("A"), to: s("B"), payload_json: s("hello") }
        ),
        _ => panic!("expected the message upward"),
    }
}

#[test]
fn connection_stats_for_unknown_peer() {
    let a = node("A", "alice");
    assert!(a.get_connection_stats("P", 5).is_none());
    assert!(!a.has_tcp_connection("P"));
}

#[test]
fn idle_sessions_are_reaped() {
    let mut a = node("A", "alice");
    a.register_session("old", 1_000);
    a.register_session("busy", 1_000);
    a.record_stream_activity("busy", 250_000);
    a.reap_idle_sessions(301_001, 300_000);
    assert!(!a.has_tcp_connection("old"));
    assert!(a.has_tcp_connection("busy"));
    assert_eq!(a.get_connection_stats("busy", 250_010).unwrap().message_count, 1);
}

#[test]
fn encoded_frames_are_single_lines() {
    let m = NetworkMessage::DirectBlock { from: s("a"), to: s("b"), payload_json: s("x\ny\r\nz") };
    let line = m.encode_line();
    assert_eq!(line.matches('\n').count(), 1);
    assert!(line.ends_with('\n'));
    let mut reader = StreamReader::new();
    reader.push_text(&line);
    let got = reader.next_line().unwrap();
    assert_eq!(NetworkMessage::decode(&got), Ok(m));
}

#[test]
fn send_steps_upgrade_then_fall_back() {
    let mut a = node("A", "alice");
    let src = addr(2, 7000);
    assert!(matches!(a.send_step("P", "x", SendEvent::Start), SendStep::Fail(NetError::PeerNotFound)));
    a.handle_datagram(src, &NetworkMessage::Ping { id: s("P"), alias: s("p") }.encode(), 5);
    match a.send_step("P", "x", SendEvent::Start) {
        SendStep::Upgrade(plan) => assert_eq!(plan.request.to, src),
        _ => panic!("expected an upgrade first"),
    }
    match a.send_step("P", "x", SendEvent::UpgradeSettled) {
        SendStep::SendDatagram(o) => assert_eq!(o.to, src),
        _ => panic!("expected a datagram"),
    }
    a.register_session("P", 6);
    assert!(matches!(a.send_step("P", "x", SendEvent::Start), SendStep::WriteStream { .. }));
    match a.send_step("P", "x", SendEvent::StreamWriteFailed) {
        SendStep::SendDatagram(o) => assert_eq!(
            NetworkMessage::decode(&o.data),
            Ok(NetworkMessage::DirectBlock { from: s("A"), to: s("P"), payload_json: s("x") })
        ),
        _ => panic!("expected the fallback datagram"),
    }
    assert!(matches!(a.send_step("P", "x", SendEvent::StreamWritten), SendStep::Done));
}

#[test]
fn stream_frames_refresh_last_seen() {
    let mut a = node("A", "alice");
    a.handle_datagram(addr(2, 7000), &NetworkMessage::Ping { id: s("X"), alias: s("x") }.encode(), 5);
    let mut reader = StreamReader::new();
    let hs = NetworkMessage::TcpHandshake { from: s("X"), from_alias: s("x"), pubkey: s("kx") };
    reader.on_frame(&mut a, &hs.encode(), 50);
    assert_eq!(a.peers[0].last_seen_ms, 50);
    let k = NetworkMessage::TcpKeepalive { from: s("X") };
    reader.on_frame(&mut a, &k.encode(), 90);
    assert_eq!(a.peers[0].last_seen_ms, 90);
}

#[test]
fn decode_accepts_any_field_order_and_whitespace() {
    let text = " { \"alias\" : \"bob\",\n\t\"id\":\"B\" , \"type\":\"Ping\", \"extra\": 12 } \r\n";
    assert_eq!(NetworkMessage::decode(text), Ok(NetworkMessage::Ping { id: s("B"), alias: s("bob") }));
    let text = "{\"to\":\"b\",\"accepted\":false,\"type\":\"TcpConnectionResponse\",\"tcp_port\":8000,\"from\":\"a\",\"note\":true}";
    assert_eq!(
        NetworkMessage::decode(text),
        Ok(NetworkMessage::TcpConnectionResponse { from: s("a"), to: s("b"), accepted: false, tcp_port: 8000 })
    );
}

#[test]
fn decode_accepts_general_escapes() {
    let text = "{\"type\":\"DirectBlock\",\"from\":\"a\\/b\",\"to\":\"\\u00E9\\u4e2d\",\"payload_json\":\"x\"}";
    assert_eq!(
        NetworkMessage::decode(text),
        Ok(NetworkMessage::DirectBlock { from: s("a/b"), to: s("\u{e9}\u{4e2d}"), payload_json: s("x") })
    );
    assert_eq!(NetworkMessage::decode("{\"type\":\"TcpKeepalive\",\"from\":\"\\ud800\"}"), Err(DecodeError::Malformed));
}

#[test]
fn decode_rejects_missing_or_mistyped_fields() {
    assert_eq!(NetworkMessage::decode("{\"type\":\"TcpKeepalive\"}"), Err(DecodeError::Malformed));
    assert_eq!(NetworkMessage::decode("{\"type\":\"TcpKeepalive\",\"from\":7}"), Err(DecodeError::Malformed));
    assert_eq!(NetworkMessage::decode("{\"type\":5,\"from\":\"a\"}"), Err(DecodeError::Malformed));
    assert_eq!(NetworkMessage::decode("{}"), Err(DecodeError::Malformed));
    assert_eq!(NetworkMessage::decode("[1]"), Err(DecodeError::Malformed));
}
