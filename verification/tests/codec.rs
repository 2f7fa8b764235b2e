use p2p_handshake::read_unsigned_varint;
use p2p_handshake::write_unsigned_varint;
use p2p_handshake::HandshakeMessage;
use p2p_handshake::ProtocolError;
use p2p_handshake::TinyString;
use p2p_handshake::Version;

#[test]
fn test_version_parsing() {
    assert_eq!(Version::parse("2.0.1").unwrap(), Version([2, 0, 1]));
    assert_eq!(
        Version::parse("2.A.2").unwrap_err(),
        ProtocolError::InvalidVersionComponent("A".to_string())
    );
    assert_eq!(
        Version::parse("2.3.1.3").unwrap_err(),
        ProtocolError::MalformedVersion
    );
    assert_eq!(
        Version::parse("2.3").unwrap_err(),
        ProtocolError::MalformedVersion
    )
}

#[test]
fn test_tiny_string() {
    assert_eq!(TinyString::construct("value").unwrap().to_text(), "value");

    let large_text = "x".repeat(300);
    assert_eq!(
        TinyString::construct(large_text.as_str()).unwrap_err(),
        ProtocolError::TooLong
    );
}

#[test]
fn test_encoding_decoding() {
    let handshake = HandshakeMessage {
        agent_name: TinyString("paul".to_string()),
        version: Version::parse("3.2.1").expect("should extract version"),
        peer_name: TinyString("paul-node".to_string()),
    };

    let encoded_data = handshake.encode_for_request().unwrap();
    let message = HandshakeMessage::decode_from_response(encoded_data).unwrap();

    assert_eq!(message.agent_name, TinyString("paul".to_string()));
    assert_eq!(message.version.to_text(), "3.2.1".to_string());
    assert_eq!(message.peer_name, TinyString("paul-node".to_string()));
}

#[test]
fn test_tiny_string_bounds() {
    let at_bound = "a".repeat(255);
    let t = TinyString::construct(at_bound.as_str()).unwrap();
    assert_eq!(t.to_text().len(), 255);

    let over_bound = "a".repeat(256);
    assert_eq!(
        TinyString::construct(over_bound.as_str()).unwrap_err(),
        ProtocolError::TooLong
    );
}

#[test]
fn test_truncated_before_version() {
    // timestamp 0, agent name "a", then nothing: the version read runs out
    let data = vec![0u8, 1, 97];
    assert_eq!(
        HandshakeMessage::decode_from_response(data).unwrap_err(),
        ProtocolError::UnexpectedEndOfInput
    );
}

#[test]
fn test_truncated_inside_name() {
    // length byte promises 5 bytes of agent name but only 2 follow
    let data = vec![0u8, 5, 97, 98];
    assert_eq!(
        HandshakeMessage::decode_from_response(data).unwrap_err(),
        ProtocolError::UnexpectedEndOfInput
    );
}

#[test]
fn test_invalid_utf8_agent_name() {
    // agent name region holds two bytes that are not UTF-8
    let data = vec![0u8, 2, 0xff, 0xfe, 1, 2, 3, 1, 98, 0];
    assert_eq!(
        HandshakeMessage::decode_from_response(data).unwrap_err(),
        ProtocolError::Utf8DecodeError
    );
}

#[test]
fn test_empty_buffer_is_malformed_varint() {
    assert_eq!(
        HandshakeMessage::decode_from_response(Vec::new()).unwrap_err(),
        ProtocolError::MalformedVarint
    );
    // every byte carries the continuation bit: the quantity never ends
    assert_eq!(
        HandshakeMessage::decode_from_response(vec![0x80, 0x80, 0x80]).unwrap_err(),
        ProtocolError::MalformedVarint
    );
}

#[test]
fn test_varint_round_trip() {
    let mut buf = Vec::new();
    write_unsigned_varint(624485, &mut buf);
    assert_eq!(buf, vec![0xe5, 0x8e, 0x26]);
    let (value, next) = read_unsigned_varint(buf.as_slice(), 0).unwrap();
    assert_eq!(value, 624485);
    assert_eq!(next, 3);

    let mut zero = Vec::new();
    write_unsigned_varint(0, &mut zero);
    assert_eq!(zero, vec![0]);
}

#[test]
fn test_varint_limits() {
    let mut buf = Vec::new();
    write_unsigned_varint(u64::MAX, &mut buf);
    assert_eq!(buf.len(), 10);
    let (value, next) = read_unsigned_varint(buf.as_slice(), 0).unwrap();
    assert_eq!(value, u64::MAX);
    assert_eq!(next, 10);

    // unterminated quantity
    let unterminated = [0x80u8, 0x80];
    assert_eq!(
        read_unsigned_varint(&unterminated, 0).unwrap_err(),
        ProtocolError::MalformedVarint
    );

    // a ten-byte quantity whose last byte exceeds 1 does not fit 64 bits
    let too_wide = [0x80u8, 0x80, 0x80, 0x80, 0x80, 0x80, 0x80, 0x80, 0x80, 0x02];
    assert_eq!(
        read_unsigned_varint(&too_wide, 0).unwrap_err(),
        ProtocolError::MalformedVarint
    );
}

#[test]
fn test_decode_ignores_trailing_bytes() {
    let m = HandshakeMessage {
        agent_name: TinyString::construct("agent").unwrap(),
        version: Version([1, 2, 3]),
        peer_name: TinyString::construct("peer").unwrap(),
    };
    let mut data = m.encode_for_request().unwrap();
    // an oversized read buffer leaves zero padding after the payload
    data.extend_from_slice(&[0u8; 64]);
    let out = HandshakeMessage::decode_from_response(data).unwrap();
    assert_eq!(out.agent_name, TinyString("agent".to_string()));
    assert_eq!(out.version, Version([1, 2, 3]));
    assert_eq!(out.peer_name, TinyString("peer".to_string()));
}

#[test]
fn test_round_trip_edge_messages() {
    // empty names, and a version at the byte bounds
    let m = HandshakeMessage {
        agent_name: TinyString::construct("").unwrap(),
        version: Version([0, 255, 0]),
        peer_name: TinyString::construct("").unwrap(),
    };
    let out = HandshakeMessage::decode_from_response(m.encode_for_request().unwrap()).unwrap();
    assert_eq!(out.agent_name, TinyString(String::new()));
    assert_eq!(out.version, Version([0, 255, 0]));
    assert_eq!(out.peer_name, TinyString(String::new()));

    // multi-byte UTF-8 in both names survives the byte-level round trip
    let m = HandshakeMessage {
        agent_name: TinyString::construct("agént-ø").unwrap(),
        version: Version([9, 10, 199]),
        peer_name: TinyString::construct("nœud-π").unwrap(),
    };
    let out = HandshakeMessage::decode_from_response(m.encode_for_request().unwrap()).unwrap();
    assert_eq!(out.agent_name, TinyString("agént-ø".to_string()));
    assert_eq!(out.version, Version([9, 10, 199]));
    assert_eq!(out.peer_name, TinyString("nœud-π".to_string()));
}

#[test]
fn test_version_text_round_trip() {
    let versions = [
        Version([0, 0, 0]),
        Version([255, 255, 255]),
        Version([3, 3, 6]),
        Version([10, 99, 100]),
    ];
    for v in versions {
        let text = v.to_text();
        assert_eq!(Version::parse(text.as_str()).unwrap(), v.clone());
    }
    assert_eq!(Version([2, 0, 1]).to_text(), "2.0.1");
    assert_eq!(Version([255, 0, 10]).to_text(), "255.0.10");
}

#[test]
fn test_version_parse_edges() {
    assert_eq!(
        Version::parse("").unwrap_err(),
        ProtocolError::InvalidVersionComponent(String::new())
    );
    assert_eq!(
        Version::parse("1..2").unwrap_err(),
        ProtocolError::InvalidVersionComponent(String::new())
    );
    assert_eq!(
        Version::parse("256.0.0").unwrap_err(),
        ProtocolError::InvalidVersionComponent("256".to_string())
    );
    assert_eq!(
        Version::parse("2.0.").unwrap_err(),
        ProtocolError::InvalidVersionComponent(String::new())
    );
    assert_eq!(Version::parse("+2.0.1").unwrap(), Version([2, 0, 1]));
    assert_eq!(Version::parse("0.0.0").unwrap(), Version([0, 0, 0]));
    assert_eq!(Version::parse("2.3.1.A").unwrap_err(), ProtocolError::MalformedVersion);
}

#[test]
fn test_wire_layout_exact() {
    // timestamp varint, then: len 2, "ab", version 1.2.3, len 1, "c", reserved 0
    let m = HandshakeMessage {
        agent_name: TinyString::construct("ab").unwrap(),
        version: Version([1, 2, 3]),
        peer_name: TinyString::construct("c").unwrap(),
    };
    let data = m.encode_for_request().unwrap();
    let (_ts, p) = read_unsigned_varint(data.as_slice(), 0).unwrap();
    assert_eq!(
        &data[p..],
        &[2, 97, 98, 1, 2, 3, 1, 99, 0]
    );
}

#[test]
fn test_version_binary_form() {
    let v = Version::from_bytes([7, 8, 9]);
    assert_eq!(v, Version([7, 8, 9]));
    assert_eq!(v.to_bytes(), [7, 8, 9]);
}
