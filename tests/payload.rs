use wichain::payload::{clean_transport_payload, xor_with_key};

#[test]
fn clean_trims_and_unquotes() {
    assert_eq!(clean_transport_payload("  \"hello\"  "), "hello");
    assert_eq!(clean_transport_payload("\t plain \n"), "plain");
    assert_eq!(clean_transport_payload("\u{3000}x\u{a0}"), "x");
    assert_eq!(clean_transport_payload("\""), "\"");
    assert_eq!(clean_transport_payload("\"\""), "");
    assert_eq!(clean_transport_payload("   "), "");
}

#[test]
fn clean_strips_unreadable_marker() {
    assert_eq!(clean_transport_payload("[UNREADABLE]  abc "), "abc");
    assert_eq!(clean_transport_payload("\"[UNREADABLE] eyJ4IjoxfQ==\""), "eyJ4IjoxfQ==");
    assert_eq!(clean_transport_payload("[UNREADABLE]x"), "[UNREADABLE]x");
}

#[test]
fn xor_repeats_key() {
    assert_eq!(xor_with_key(&[1, 2, 3], &[1]), vec![0, 3, 2]);
    assert_eq!(xor_with_key(&[0xff, 0x0f, 0xf0, 0xaa], &[0x0f, 0xf0]), vec![0xf0, 0xff, 0xff, 0x5a]);
    assert!(xor_with_key(&[], &[7]).is_empty());
    assert!(xor_with_key(&[], &[]).is_empty());
    let data = b"secret".to_vec();
    let once = xor_with_key(&data, b"k3y");
    assert_ne!(once, data);
    assert_eq!(xor_with_key(&once, b"k3y"), data);
}
