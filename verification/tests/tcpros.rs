use roslibrust::tcpros::{ConnectionHeader, FormatError};

/// One encoded field: 4-byte little-endian payload length, then the payload.
fn field(payload: &[u8]) -> Vec<u8> {
    let mut out = (payload.len() as u32).to_le_bytes().to_vec();
    out.extend_from_slice(payload);
    out
}

/// A whole header buffer from already-encoded fields.
fn buffer(fields: &[Vec<u8>]) -> Vec<u8> {
    let total: usize = fields.iter().map(|f| f.len()).sum();
    let mut out = (total as u32).to_le_bytes().to_vec();
    for f in fields {
        out.extend_from_slice(f);
    }
    out
}

#[test]
fn test_header_parse() {
    let valid_header: [u8; 180] = [
        0xb0, 0x00, 0x00, 0x00, 0x20, 0x00, 0x00, 0x00, 0x6d, 0x65, 0x73, 0x73, 0x61, 0x67, 0x65,
        0x5f, 0x64, 0x65, 0x66, 0x69, 0x6e, 0x69, 0x74, 0x69, 0x6f, 0x6e, 0x3d, 0x73, 0x74, 0x72,
        0x69, 0x6e, 0x67, 0x20, 0x64, 0x61, 0x74, 0x61, 0x0a, 0x0a, 0x25, 0x00, 0x00, 0x00, 0x63,
        0x61, 0x6c, 0x6c, 0x65, 0x72, 0x69, 0x64, 0x3d, 0x2f, 0x72, 0x6f, 0x73, 0x74, 0x6f, 0x70,
        0x69, 0x63, 0x5f, 0x34, 0x37, 0x36, 0x37, 0x5f, 0x31, 0x33, 0x31, 0x36, 0x39, 0x31, 0x32,
        0x37, 0x34, 0x31, 0x35, 0x35, 0x37, 0x0a, 0x00, 0x00, 0x00, 0x6c, 0x61, 0x74, 0x63, 0x68,
        0x69, 0x6e, 0x67, 0x3d, 0x31, 0x27, 0x00, 0x00, 0x00, 0x6d, 0x64, 0x35, 0x73, 0x75, 0x6d,
        0x3d, 0x39, 0x39, 0x32, 0x63, 0x65, 0x38, 0x61, 0x31, 0x36, 0x38, 0x37, 0x63, 0x65, 0x63,
        0x38, 0x63, 0x38, 0x62, 0x64, 0x38, 0x38, 0x33, 0x65, 0x63, 0x37, 0x33, 0x63, 0x61, 0x34,
        0x31, 0x64, 0x31, 0x0e, 0x00, 0x00, 0x00, 0x74, 0x6f, 0x70, 0x69, 0x63, 0x3d, 0x2f, 0x63,
        0x68, 0x61, 0x74, 0x74, 0x65, 0x72, 0x14, 0x00, 0x00, 0x00, 0x74, 0x79, 0x70, 0x65, 0x3d,
        0x73, 0x74, 0x64, 0x5f, 0x6d, 0x73, 0x67, 0x73, 0x2f, 0x53, 0x74, 0x72, 0x69, 0x6e, 0x67,
    ];

    let parsed = ConnectionHeader::from_bytes(&valid_header).unwrap();
    let model = ConnectionHeader {
        caller_id: String::from("/rostopic_4767_1316912741557"),
        latching: true,
        msg_definition: String::from("string data\n\n"),
        md5sum: String::from("992ce8a1687cec8c8bd883ec73ca41d1"),
        topic: String::from("/chatter"),
        topic_type: String::from("std_msgs/String"),
        tcp_nodelay: false,
    };

    assert_eq!(parsed, model);
}

#[test]
fn test_header_read_write() {
    let model_1 = ConnectionHeader {
        caller_id: String::from("/rostopic_4861_131237898261"),
        latching: true,
        msg_definition: String::from("garbage data\n\n"),
        md5sum: String::from("992ce8a1687cec8c8bd883ec8862bbf3"),
        topic: String::from("/ros"),
        topic_type: String::from("std_msgs/String"),
        tcp_nodelay: true,
    };

    let bytes = model_1.to_bytes(true);
    let parsed_1 = ConnectionHeader::from_bytes(&bytes).unwrap();
    assert_eq!(model_1, parsed_1);

    let bytes = model_1.to_bytes(false);
    let model_2 = ConnectionHeader {
        tcp_nodelay: false,
        ..model_1
    };

    let parsed_2 = ConnectionHeader::from_bytes(&bytes).unwrap();

    assert_eq!(model_2, parsed_2);
}

#[test]
fn encode_exact_bytes() {
    let header = ConnectionHeader {
        caller_id: String::from("a"),
        latching: false,
        msg_definition: String::from("d"),
        md5sum: String::from("m"),
        topic: String::from("t"),
        topic_type: String::from("y"),
        tcp_nodelay: false,
    };
    let mut expected: Vec<u8> = vec![85, 0, 0, 0];
    expected.extend_from_slice(&[10, 0, 0, 0]);
    expected.extend_from_slice(b"callerid=a");
    expected.extend_from_slice(&[10, 0, 0, 0]);
    expected.extend_from_slice(b"latching=0");
    expected.extend_from_slice(&[8, 0, 0, 0]);
    expected.extend_from_slice(b"md5sum=m");
    expected.extend_from_slice(&[20, 0, 0, 0]);
    expected.extend_from_slice(b"message_definition=d");
    expected.extend_from_slice(&[7, 0, 0, 0]);
    expected.extend_from_slice(b"topic=t");
    expected.extend_from_slice(&[6, 0, 0, 0]);
    expected.extend_from_slice(b"type=y");
    assert_eq!(header.to_bytes(false), expected);
}

#[test]
fn tcp_nodelay_direction() {
    let mut header = ConnectionHeader::default();
    header.tcp_nodelay = true;
    let to_publisher = ConnectionHeader::from_bytes(&header.to_bytes(true)).unwrap();
    assert!(to_publisher.tcp_nodelay);
    let to_subscriber = ConnectionHeader::from_bytes(&header.to_bytes(false)).unwrap();
    assert!(!to_subscriber.tcp_nodelay);
}

#[test]
fn unknown_field_tolerated() {
    let bytes = buffer(&[
        field(b"some_future_field=whatever"),
        field(b"topic=/chatter"),
        field(b"latching=1"),
    ]);
    let parsed = ConnectionHeader::from_bytes(&bytes).unwrap();
    assert_eq!(parsed.topic, "/chatter");
    assert!(parsed.latching);
    assert_eq!(parsed.caller_id, "");
    assert!(!parsed.tcp_nodelay);
}

#[test]
fn boolean_leniency() {
    let bytes = buffer(&[field(b"latching=garbage"), field(b"tcp_nodelay=0")]);
    let parsed = ConnectionHeader::from_bytes(&bytes).unwrap();
    assert!(parsed.latching);
    assert!(!parsed.tcp_nodelay);
}

#[test]
fn field_length_underflow_rejected() {
    // The field declares 1 byte, but the name alone ("ab") plus the
    // separator needs 3.
    let mut bytes = vec![8u8, 0, 0, 0];
    bytes.extend_from_slice(&[1, 0, 0, 0]);
    bytes.extend_from_slice(b"ab=c");
    assert_eq!(
        ConnectionHeader::from_bytes(&bytes),
        Err(FormatError::FieldLengthUnderflow)
    );
}

#[test]
fn outer_length_overrun_rejected() {
    // The outer block claims 6 bytes, but the first field consumes 4 + 3.
    let mut bytes = vec![6u8, 0, 0, 0];
    bytes.extend_from_slice(&[3, 0, 0, 0]);
    bytes.extend_from_slice(b"a=b");
    assert_eq!(
        ConnectionHeader::from_bytes(&bytes),
        Err(FormatError::OuterLengthOverrun)
    );
}

#[test]
fn invalid_utf8_name_rejected() {
    let bytes = buffer(&[field(&[0xff, 0xfe, b'=', b'x'])]);
    assert_eq!(
        ConnectionHeader::from_bytes(&bytes),
        Err(FormatError::InvalidUtf8)
    );
}

#[test]
fn invalid_utf8_value_rejected() {
    let bytes = buffer(&[field(&[b't', b'o', b'p', b'i', b'c', b'=', 0xff, 0xfe])]);
    assert_eq!(
        ConnectionHeader::from_bytes(&bytes),
        Err(FormatError::InvalidUtf8)
    );
}

#[test]
fn truncated_buffer_rejected() {
    assert_eq!(
        ConnectionHeader::from_bytes(&[0xb0, 0x00]),
        Err(FormatError::TruncatedInput)
    );
}

#[test]
fn truncated_value_rejected() {
    // The field declares a 100-byte payload the buffer does not hold.
    let mut bytes = vec![104u8, 0, 0, 0];
    bytes.extend_from_slice(&[100, 0, 0, 0]);
    bytes.extend_from_slice(b"topic=/t");
    assert_eq!(
        ConnectionHeader::from_bytes(&bytes),
        Err(FormatError::TruncatedInput)
    );
}

#[test]
fn missing_separator_rejected() {
    let mut bytes = vec![8u8, 0, 0, 0];
    bytes.extend_from_slice(&[4, 0, 0, 0]);
    bytes.extend_from_slice(b"abcd");
    assert_eq!(
        ConnectionHeader::from_bytes(&bytes),
        Err(FormatError::MissingSeparator)
    );
}

#[test]
fn default_header_is_empty() {
    let header = ConnectionHeader::default();
    assert_eq!(header.caller_id, "");
    assert_eq!(header.msg_definition, "");
    assert_eq!(header.md5sum, "");
    assert_eq!(header.topic, "");
    assert_eq!(header.topic_type, "");
    assert!(!header.latching);
    assert!(!header.tcp_nodelay);
}

#[test]
fn round_trip_non_ascii_text() {
    let header = ConnectionHeader {
        caller_id: String::from("/caf\u{e9}"),
        latching: false,
        msg_definition: String::from("emoji \u{1f680} data"),
        md5sum: String::from("00ff"),
        topic: String::from("/t=with=equals"),
        topic_type: String::from("pkg/Ty"),
        tcp_nodelay: false,
    };
    let parsed = ConnectionHeader::from_bytes(&header.to_bytes(true)).unwrap();
    assert_eq!(parsed, header);
}
