use byteorder::{BigEndian, ReadBytesExt, WriteBytesExt};
use dsrp_core::handshake::{
    HandshakeRequest, HandshakeRequestParseError, HandshakeRequestParseErrorsKind, CURRENT_VERSION,
};
use std::io::{Cursor, Read};

const PREFIX: &[u8; 5] = b"DSRPA";

#[test]
fn can_convert_request_into_bytes() {
    const VERSION: &str = "12345";
    let request = HandshakeRequest { client_protocol_version: VERSION.to_owned() };
    let bytes = request.into_bytes();

    let prefix_length = PREFIX.len();

    assert_eq!(bytes.len(), prefix_length + 1 + VERSION.len(), "Unexpected byte length");
    assert_eq!(&bytes[..prefix_length], PREFIX, "Unexpected handshake prefix");

    let mut cursor = Cursor::new(&bytes[prefix_length..]);
    let version_length = cursor.read_u8().unwrap() as usize;
    assert_eq!(version_length, VERSION.len(), "Unexpected version string length");

    let mut buffer = Vec::new();
    buffer.resize(version_length as usize, 0);
    cursor.read_exact(&mut buffer[..]).unwrap();
    assert_eq!(&buffer[..], VERSION.as_bytes(), "Unexpected protocol version");
}

#[test]
fn new_request_has_current_handshake_version() {
    let request = HandshakeRequest::new();

    assert_eq!(request.client_protocol_version, CURRENT_VERSION, "Unexpected protocol version");
}

#[test]
fn can_read_deserialized_request() {
    const VERSION: &'static str = "abcdefg";
    let request = HandshakeRequest { client_protocol_version: VERSION.to_owned() };
    let bytes = request.into_bytes();
    let request = HandshakeRequest::from_bytes(&bytes).unwrap();

    assert_eq!(request.client_protocol_version, VERSION, "Unexpected client version");
}

#[test]
fn handshake_request_invalid_prefix_returns_error() {
    let mut bytes = Vec::with_capacity(8);
    for byte in b"abcde" {
        bytes.push(*byte);
    }
    bytes.write_u32::<BigEndian>(15).unwrap();

    match HandshakeRequest::from_bytes(&bytes) {
        Err(HandshakeRequestParseError { kind: HandshakeRequestParseErrorsKind::InvalidPrefix }) => (), // success

        Ok(_) => panic!("Expected error, received OK()"),
        Err(x) => panic!("Expected invalid prefix error, received {:?}", x),
    }
}

#[test]
fn request_wire_form_is_prefix_length_and_bytes() {
    let request = HandshakeRequest { client_protocol_version: "1.2".to_owned() };
    assert_eq!(request.into_bytes(), vec![0x44, 0x53, 0x52, 0x50, 0x41, 3, b'1', b'.', b'2']);
}

#[test]
fn request_round_trip_keeps_multibyte_version() {
    let version = "v\u{e9}rsion \u{1f600}".to_owned();
    let bytes = HandshakeRequest { client_protocol_version: version.clone() }.into_bytes();
    assert_eq!(bytes[5] as usize, version.len());
    let parsed = HandshakeRequest::from_bytes(&bytes).unwrap();
    assert_eq!(parsed.client_protocol_version, version);
}

#[test]
fn request_with_empty_version_round_trips() {
    let bytes = HandshakeRequest { client_protocol_version: String::new() }.into_bytes();
    assert_eq!(bytes, b"DSRPA\x00".to_vec());
    let parsed = HandshakeRequest::from_bytes(&bytes).unwrap();
    assert_eq!(parsed.client_protocol_version, "");
}

#[test]
fn request_of_255_bytes_round_trips() {
    let version = "x".repeat(255);
    let bytes = HandshakeRequest { client_protocol_version: version.clone() }.into_bytes();
    assert_eq!(bytes.len(), 6 + 255);
    assert_eq!(bytes[5], 255);
    assert_eq!(HandshakeRequest::from_bytes(&bytes).unwrap().client_protocol_version, version);
}

#[test]
fn too_short_request_is_invalid_number_of_bytes() {
    match HandshakeRequest::from_bytes(b"DSRP") {
        Err(HandshakeRequestParseError { kind: HandshakeRequestParseErrorsKind::InvalidNumberOfBytes }) => (),
        x => panic!("Expected invalid number of bytes, received {:?}", x.map(|r| r.client_protocol_version)),
    }
}

#[test]
fn request_with_wrong_length_byte_is_invalid_number_of_bytes() {
    let mut bytes = HandshakeRequest { client_protocol_version: "abc".to_owned() }.into_bytes();
    bytes.push(b'd');
    match HandshakeRequest::from_bytes(&bytes) {
        Err(HandshakeRequestParseError { kind: HandshakeRequestParseErrorsKind::InvalidNumberOfBytes }) => (),
        x => panic!("Expected invalid number of bytes, received {:?}", x.map(|r| r.client_protocol_version)),
    }
}

#[test]
fn request_with_bad_utf8_is_rejected() {
    let bytes = vec![0x44, 0x53, 0x52, 0x50, 0x41, 2, 0xc3, 0x28];
    match HandshakeRequest::from_bytes(&bytes) {
        Err(HandshakeRequestParseError { kind: HandshakeRequestParseErrorsKind::FromUtf8Error(_) }) => (),
        x => panic!("Expected a UTF-8 error, received {:?}", x.map(|r| r.client_protocol_version)),
    }
}
