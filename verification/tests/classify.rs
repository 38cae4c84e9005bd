use magma_proxy::classify::classify_login;
use magma_proxy::classify::classify_prelude;
use magma_proxy::classify::Classification;
use magma_proxy::classify::ClassifyError;
use magma_proxy::classify::StringFraming;
use magma_proxy::splice::backend_drain_len;
use magma_proxy::splice::ConnectionPlan;
use magma_proxy::tag::ProtocolTag;

fn expect_done(r: Result<Classification, ClassifyError>) -> ProtocolTag {
    match r.expect("classification should succeed") {
        Classification::Done(tag) => tag,
        Classification::NeedLogin { .. } => panic!("expected a completed classification"),
    }
}

fn expect_need_login(r: Result<Classification, ClassifyError>) -> (StringFraming, Vec<u8>) {
    match r.expect("classification should succeed") {
        Classification::Done(_) => panic!("expected the old-handshake dialect"),
        Classification::NeedLogin { framing, reply } => (framing, reply),
    }
}

#[test]
fn new_gen_handshake() {
    // Length varint 0x10, packet ID 0x00, protocol varint 754, "localhost",
    // port 25565, next state 1.
    let prelude = vec![
        0x10, 0x00, 0xF2, 0x05, 0x09, 0x6C, 0x6F, 0x63, 0x61, 0x6C, 0x68, 0x6F, 0x73, 0x74,
        0x63, 0xDD, 0x01,
    ];
    let tag = expect_done(classify_prelude(&prelude));
    assert_eq!(tag, ProtocolTag::New(754));
    assert_eq!(tag.tag_string(), "N754");

    // No synthetic reply: the whole prelude reaches the backend untouched.
    let plan = ConnectionPlan::direct(tag, prelude.clone());
    assert!(!plan.suppress_backend_handshake);
    assert_eq!(plan.prelude, prelude);
    assert!(plan.deferred_login.is_none());
}

#[test]
fn post39_list_ping() {
    let prelude = vec![0xFE, 0x01];
    let tag = expect_done(classify_prelude(&prelude));
    assert_eq!(tag, ProtocolTag::PreNettyPost39ListPing);
    assert_eq!(tag.tag_string(), "PreNettyPost39ListPing");
}

#[test]
fn mid_era_handshake() {
    // Packet ID 0x02, protocol number 78, then the username framing.
    let prelude = vec![0x02, 0x4E, 0x00, 0x03, 0x00, 0x61, 0x00, 0x62, 0x00, 0x63];
    let tag = expect_done(classify_prelude(&prelude));
    assert_eq!(tag, ProtocolTag::Legacy(78));
    assert_eq!(tag.tag_string(), "P78");
}

#[test]
fn pre39_ping() {
    let prelude = vec![0xFE];
    let tag = expect_done(classify_prelude(&prelude));
    assert_eq!(tag, ProtocolTag::PreNettyPre39ListPing);
    assert_eq!(tag.tag_string(), "PreNettyPre39ListPing");
}

#[test]
fn old_handshake_ucs2() {
    // ID 0x02, length 4, then 8 bytes of UCS-2 "hi!!": payload 8, 8/2 == 4.
    let prelude = vec![0x02, 0x00, 0x04, 0x00, 0x68, 0x00, 0x69, 0x00, 0x21, 0x00, 0x21];
    let (framing, reply) = expect_need_login(classify_prelude(&prelude));
    assert_eq!(framing, StringFraming::Ucs2);
    // The synthetic connection-hash reply: ID 0x02 and the UCS-2 string "-".
    assert_eq!(reply, vec![0x02, 0x00, 0x01, 0x00, 0x2D]);

    // The login request then carries the protocol version 17.
    let login = vec![0x01, 0x00, 0x00, 0x00, 0x11];
    let tag = classify_login(&login);
    assert_eq!(tag, ProtocolTag::Legacy(17));
    assert_eq!(tag.tag_string(), "P17");

    let plan = ConnectionPlan::with_login(prelude.clone(), framing, login.clone());
    assert!(plan.suppress_backend_handshake);
    assert_eq!(plan.tag, ProtocolTag::Legacy(17));
    assert_eq!(plan.prelude, prelude);
    assert_eq!(plan.deferred_login, Some(login));

    // The backend's own reply is a 3-byte header and str_length * 2 bytes.
    let header = vec![0x02, 0x00, 0x01];
    assert_eq!(backend_drain_len(&header, framing), Some(2));
}

#[test]
fn old_handshake_mutf8() {
    // ID 0x02, length 2, one payload byte: 1 / 2 != 2, so modified UTF-8.
    let prelude = vec![0x02, 0x00, 0x02, 0x61];
    let (framing, reply) = expect_need_login(classify_prelude(&prelude));
    assert_eq!(framing, StringFraming::Mutf8);
    assert_eq!(reply, vec![0x02, 0x00, 0x01, 0x2D]);

    let header = vec![0x02, 0x00, 0x05];
    assert_eq!(backend_drain_len(&header, framing), Some(5));
}

#[test]
fn unknown_prelude() {
    let prelude = vec![0xFF, 0xFF, 0xFF];
    let tag = expect_done(classify_prelude(&prelude));
    assert_eq!(tag, ProtocolTag::Unknown);
    assert_eq!(tag.tag_string(), "Unknown");
}

#[test]
fn new_gen_malformed_varint() {
    // Matches the first rule but the protocol varint never terminates.
    let prelude = vec![0x85, 0x00, 0xAA, 0x80, 0x80, 0x80, 0x80, 0x80];
    assert_eq!(
        classify_prelude(&prelude).err(),
        Some(ClassifyError::MalformedHandshake)
    );
}

#[test]
fn classifier_total_on_short_preludes() {
    // Every non-empty prelude up to the read size classifies without panic;
    // exhaustively for all one- and two-byte preludes.
    for b0 in 0u8..=255 {
        let one = vec![b0];
        let _ = classify_prelude(&one);
        for b1 in 0u8..=255 {
            let two = vec![b0, b1];
            let _ = classify_prelude(&two);
        }
    }
}

#[test]
fn negative_login_version() {
    let login = vec![0x01, 0xFF, 0xFF, 0xFF, 0xFE];
    let tag = classify_login(&login);
    assert_eq!(tag, ProtocolTag::Legacy(-2));
    assert_eq!(tag.tag_string(), "P-2");
}

#[test]
fn extreme_login_version() {
    let login = vec![0x01, 0x80, 0x00, 0x00, 0x00];
    let tag = classify_login(&login);
    assert_eq!(tag, ProtocolTag::Legacy(i32::MIN));
    assert_eq!(tag.tag_string(), "P-2147483648");
}

#[test]
fn drain_rejects_negative_length() {
    let header = vec![0x02, 0x80, 0x00];
    assert_eq!(backend_drain_len(&header, StringFraming::Ucs2), None);
    assert_eq!(backend_drain_len(&header, StringFraming::Mutf8), None);
}

#[test]
fn framing_favors_ucs2_on_matching_halves() {
    // Same byte count, framed so that payload / 2 equals the wire length.
    let ucs2 = vec![0x02, 0x00, 0x01, 0x00, 0x2D];
    let (framing, _) = expect_need_login(classify_prelude(&ucs2));
    assert_eq!(framing, StringFraming::Ucs2);

    // One payload byte too few: falls through to modified UTF-8.
    let mutf8 = vec![0x02, 0x00, 0x01, 0x2D];
    let (framing2, _) = expect_need_login(classify_prelude(&mutf8));
    assert_eq!(framing2, StringFraming::Mutf8);
}
