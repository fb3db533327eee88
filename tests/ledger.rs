use wichain::{Block, BlockSummary, Blockchain, ChainSummary, GroupManager};

#[test]
fn test_text_blocks() {
    let mut bc = Blockchain::new();
    bc.add_text_block("First");
    bc.add_text_block("Second");
    assert_eq!(bc.chain.len(), 3); // incl genesis
    assert!(bc.is_valid());
}

#[test]
fn test_direct_text_block() {
    let mut bc = Blockchain::new();
    bc.add_direct_text_block("FROM", "TO", "hello");
    assert!(bc.is_valid());
    let d = bc.all_direct_text();
    assert_eq!(d.len(), 1);
    assert_eq!(d[0].text, "hello");
}

#[test]
fn test_tamper_detect() {
    let mut bc = Blockchain::new();
    bc.add_text_block("Original");
    // tamper by editing block data *and* not recomputing hash
    if let Some(b) = bc.chain.get_mut(1) {
        b.data = "Tampered".into();
    }
    assert!(!bc.is_valid());
}

#[test]
fn genesis_block_shape() {
    let bc = Blockchain::new();
    assert_eq!(bc.chain.len(), 1);
    let g = bc.last_block();
    assert_eq!(g.index, 0);
    assert_eq!(g.previous_hash, "0");
    assert_eq!(g.raw_data(), "Genesis Block");
    assert_eq!(g.nonce, 0);
    assert_eq!(g.calculate_hash(), g.hash);
    assert!(bc.is_valid());
}

#[test]
fn block_hash_is_sha256_of_fields() {
    let b = Block::new(1, 5, "abc".to_string(), 0, "hi".to_string());
    assert_eq!(b.hash, "084158ab140c2c2292555090bceeb851acf41075ad1d34d1f54daa32efe4ec00");
    assert_eq!(b.calculate_hash(), b.hash);
}

#[test]
fn blocks_link_to_predecessor() {
    let mut bc = Blockchain::new();
    bc.add_text_block("a");
    bc.add_direct_text_block("x", "y", "z");
    assert_eq!(bc.chain[1].previous_hash, bc.chain[0].hash);
    assert_eq!(bc.chain[2].previous_hash, bc.chain[1].hash);
    assert_eq!(bc.chain[2].index, 2);
}

#[test]
fn broken_link_detected() {
    let mut bc = Blockchain::new();
    bc.add_text_block("a");
    bc.chain[1].previous_hash = "nope".to_string();
    assert!(!bc.is_valid());
}

#[test]
fn empty_chain_is_invalid() {
    let bc = Blockchain { chain: Vec::new() };
    assert!(!bc.is_valid());
}

#[test]
fn direct_block_data_and_payload() {
    let b = Block::new_direct(3, 42, "p".to_string(), "A", "B", "say \"hi\"\n");
    assert_eq!(b.data, "{\"direct\":{\"from\":\"A\",\"text\":\"say \\\"hi\\\"\\n\",\"to\":\"B\",\"ts\":42}}");
    let p = b.as_direct_text().expect("direct payload");
    assert_eq!(p.from, "A");
    assert_eq!(p.to, "B");
    assert_eq!(p.text, "say \"hi\"\n");
    assert_eq!(p.ts, 42);
}

#[test]
fn text_block_is_not_direct() {
    let b = Block::new_text(1, 1, "x".to_string(), "{\"direct\":1}".to_string());
    assert!(b.as_direct_text().is_none());
}

#[test]
fn foreign_direct_is_recorded() {
    let mut bc = Blockchain::new();
    bc.append_foreign_direct("peer", "me", "yo");
    bc.add_text_block("plain");
    let d = bc.all_direct_text();
    assert_eq!(d.len(), 1);
    assert_eq!(d[0].from, "peer");
    assert_eq!(d[0].to, "me");
    assert!(bc.is_valid());
}

#[test]
fn block_summary_previews() {
    let long = "abcdefghijklmnopqrstuvwxyz0123456789";
    let b = Block::new_text(1, 7, "h".to_string(), long.to_string());
    let s = BlockSummary::from_block(&b, 32);
    assert_eq!(s.preview, "abcdefghijklmnopqrstuvwxyz012345...");
    assert_eq!(s.message_count, 0);
    let short = Block::new_text(2, 7, "h".to_string(), "short".to_string());
    assert_eq!(BlockSummary::from_block(&short, 32).preview, "short");
    let d = Block::new_direct(3, 9, "h".to_string(), "A", "B", "direct text");
    let ds = BlockSummary::from_block(&d, 4);
    assert_eq!(ds.preview, "direct text");
    assert_eq!(ds.message_count, 1);
    assert_eq!(ds.index, 3);
}

#[test]
fn chain_summary_counts_messages() {
    let mut bc = Blockchain::new();
    bc.add_direct_text_block("a", "b", "one");
    bc.add_text_block("note");
    bc.add_direct_text_block("b", "a", "two");
    let cs = ChainSummary::from_chain(&bc);
    assert_eq!(cs.blocks.len(), 4);
    assert_eq!(cs.total_messages, 2);
    assert_eq!(cs.blocks[0].preview, "Genesis Block");
    assert_eq!(cs.blocks[3].preview, "two");
}

#[test]
fn group_id_ignores_member_order() {
    let mut gm = GroupManager::new();
    let g1 = gm.create_group(vec!["b".to_string(), "a".to_string()]);
    let g2 = gm.create_group(vec!["a".to_string(), "b".to_string()]);
    assert_eq!(g1, g2);
    assert_eq!(g1, "d3ce7916a60a4e1fc7c567ee2688c349fa2689edb2397e60effc599db5f8d5ef");
    assert_eq!(gm.list_groups().len(), 1);
    assert_eq!(gm.get_members(&g1).unwrap(), vec!["a".to_string(), "b".to_string()]);
}

#[test]
fn group_membership() {
    let mut gm = GroupManager::new();
    let g = gm.create_group(vec!["x".to_string(), "y".to_string(), "z".to_string()]);
    assert!(gm.is_member(&g, "y"));
    assert!(!gm.is_member(&g, "w"));
    assert!(!gm.is_member("unknown", "y"));
    assert!(gm.get_group("unknown").is_none());
    let info = gm.get_group(&g).unwrap();
    assert_eq!(info.id, g);
    assert_eq!(info.members.len(), 3);
}

#[test]
fn empty_group_id() {
    let mut gm = GroupManager::new();
    let g = gm.create_group(Vec::new());
    assert_eq!(g, "ddba96ad29623076cbb9a2975c38c459fcf1514599201a56fae5d4e522a88214");
}

#[test]
fn direct_block_with_large_timestamp_reads_back() {
    let ts = u128::MAX;
    let b = Block::new_direct(1, ts, "p".to_string(), "A", "B", "late");
    let p = b.as_direct_text().expect("direct payload");
    assert_eq!(p.ts, ts);
    assert_eq!(p.text, "late");
}

#[test]
fn preview_is_cut_in_utf8_bytes() {
    let b = Block::new_text(1, 1, "h".to_string(), "\u{e9}\u{e8}\u{e0}".to_string());
    assert_eq!(BlockSummary::from_block(&b, 4).preview, "\u{e9}\u{e8}...");
    assert_eq!(BlockSummary::from_block(&b, 6).preview, "\u{e9}\u{e8}\u{e0}");
    let c = Block::new_text(1, 1, "h".to_string(), "ab\u{20ac}".to_string());
    assert_eq!(BlockSummary::from_block(&c, 4).preview, "ab...");
}
