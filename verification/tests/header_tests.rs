use libdns::header::{Header, MessageType, QueryOpcode, ResponseCode};

#[test]
fn test_question_header() {
    let expected_header: [u8; 12] = [
        0x02,
        0x0F,
        // QR, OPCODE, AA, TC, RD
        0b0_0000_0_0_1,
        // RA, Z, RCODE
        0b0_000_0000,
        // QDCOUNT
        0,
        2,
        // ANCOUNT
        0,
        0,
        // NSCOUNT
        0,
        0,
        // ARCOUNT
        0,
        0,
    ];
    let header = Header::builder(MessageType::Question)
        .set_id(0x020F)
        .set_recursion_desired(true)
        .set_qdcount(2)
        .finalize();
    let header_bytes = header.to_bytes();
    assert_eq!(Vec::from(expected_header), header_bytes);
}

#[test]
fn test_answer_header() {
    let expected_header: [u8; 12] = [
        // ID
        0x13,
        0xE2,
        // QR, OPCODE, AA, TC, RD
        0b1_0000_1_0_1,
        // RA, Z, RCODE
        0b1_000_0000,
        // QDCOUNT
        0,
        1,
        // ANCOUNT
        0,
        1,
        // NSCOUNT
        0,
        0,
        // ARCOUNT
        0,
        0,
    ];
    let header = Header::builder(MessageType::Answer)
        .set_id(0x13E2)
        .set_authoritative_ans(true)
        .set_recursion_desired(true)
        .set_recursion_available(true)
        .set_qdcount(1)
        .set_ancount(1)
        .finalize();
    let header_bytes = header.to_bytes();
    assert_eq!(Vec::from(expected_header), header_bytes);
}

#[test]
fn test_header_construction() {
    let id: u16 = 0x90CB;
    let header = Header::builder(MessageType::Question)
        .set_id(id)
        .set_opcode(QueryOpcode::Query)
        .set_recursion_desired(true)
        .set_qdcount(2)
        .finalize();
    let expected_bytes: [u8; 12] = [
        // ID
        0x90,
        0xCB,
        // QR, OPCODE, AA, TC, RD
        0b0_0000_0_0_1,
        // RA, Z, RCODE
        0b0_000_0000,
        // QDCOUNT
        0,
        2,
        // ANCOUNT
        0,
        0,
        // NSCOUNT
        0,
        0,
        // ARCOUNT
        0,
        0,
    ];

    let header_bytes = header.to_bytes();
    assert_eq!(expected_bytes.to_vec(), header_bytes);

    let id: u16 = 0x2BA2;
    let header = Header::builder(MessageType::Answer)
        .set_id(id)
        .set_opcode(QueryOpcode::Query)
        .set_authoritative_ans(true)
        .set_recursion_desired(true)
        .set_recursion_available(true)
        .set_qdcount(3)
        .set_ancount(3)
        .finalize();
    let expected_bytes: [u8; 12] = [
        // ID
        0x2B,
        0xA2,
        // QR, OPCODE, AA, TC, RD
        0b1_0000_1_0_1,
        // RA, Z, RCODE
        0b1_000_0000,
        // QDCOUNT
        0,
        3,
        // ANCOUNT
        0,
        3,
        // NSCOUNT
        0,
        0,
        // ARCOUNT
        0,
        0,
    ];

    let header_bytes = header.to_bytes();
    assert_eq!(expected_bytes.to_vec(), header_bytes);
}

#[test]
fn test_header_parse() {
    let header_bytes: [u8; 12] = [
        // ID
        0x90,
        0xCB,
        // QR, OPCODE, AA, TC, RD
        0b0_0000_0_0_1,
        // RA, Z, RCODE
        0b0_000_0000,
        // QDCOUNT
        0,
        2,
        // ANCOUNT
        0,
        0,
        // NSCOUNT
        0,
        0,
        // ARCOUNT
        0,
        0,
    ];
    let (header, _) = Header::parse(&header_bytes).unwrap();
    assert_eq!(header.id, 0x90CB);
    assert_eq!(header.qr, MessageType::Question);
    assert_eq!(header.opcode, QueryOpcode::Query);
    assert!(!header.authoritative_ans);
    assert!(!header.truncation);
    assert!(header.recursion_desired);
    assert!(!header.recursion_available);
    assert_eq!(header.response_code, ResponseCode::NoError);
    assert_eq!(header.qdcount, 2);
    assert_eq!(header.ancount, 0);
    assert_eq!(header.nscount, 0);
    assert_eq!(header.arcount, 0);

    let header_bytes: [u8; 12] = [
        // ID
        0x2B,
        0xA2,
        // QR, OPCODE, AA, TC, RD
        0b1_0000_1_0_1,
        // RA, Z, RCODE
        0b1_000_0000,
        // QDCOUNT
        0,
        3,
        // ANCOUNT
        0,
        3,
        // NSCOUNT
        0,
        0,
        // ARCOUNT
        0,
        0,
    ];
    let (header, _) = Header::parse(&header_bytes).unwrap();
    assert_eq!(header.id, 0x2BA2);
    assert_eq!(header.qr, MessageType::Answer);
    assert_eq!(header.opcode, QueryOpcode::Query);
    assert!(header.authoritative_ans);
    assert!(!header.truncation);
    assert!(header.recursion_desired);
    assert!(header.recursion_available);
    assert_eq!(header.response_code, ResponseCode::NoError);
    assert_eq!(header.qdcount, 3);
    assert_eq!(header.ancount, 3);
    assert_eq!(header.nscount, 0);
    assert_eq!(header.arcount, 0);
}

#[test]
fn test_header_roundtrip_all_fields() {
    let header = Header::new(
        0xBEEF,
        MessageType::Answer,
        QueryOpcode::Status,
        true,
        true,
        false,
        true,
        ResponseCode::Refused,
        1,
        2,
        3,
        4,
    );
    let bytes = header.to_bytes();
    assert_eq!(bytes.len(), 12);
    let (parsed, consumed) = Header::parse(&bytes).unwrap();
    assert_eq!(parsed, header);
    assert_eq!(consumed, 12);

    // fewer than twelve octets is the one way header parsing fails
    assert!(Header::parse(&bytes[..11]).is_err());
}

#[test]
fn test_header_builder_defaults_draw_an_id() {
    // without a set ID, finalize draws one; every other field keeps its default
    let header = Header::builder(MessageType::Question).finalize();
    assert_eq!(header.qr, MessageType::Question);
    assert_eq!(header.opcode, QueryOpcode::Query);
    assert!(!header.authoritative_ans);
    assert!(!header.truncation);
    assert!(!header.recursion_desired);
    assert!(!header.recursion_available);
    assert_eq!(header.response_code, ResponseCode::NoError);
    assert_eq!(header.qdcount, 0);
    assert_eq!(header.ancount, 0);
    assert_eq!(header.nscount, 0);
    assert_eq!(header.arcount, 0);
}
