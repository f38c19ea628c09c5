use dsrp_core::handshake::{
    HandshakeResponse, HandshakeResponseGenerationErrorKind, HandshakeResponseParseErrorKind,
};

const PREFIX: &[u8; 5] = b"DSRPB";

#[test]
fn can_convert_success_response_into_bytes() {
    let response = HandshakeResponse::Success;
    let bytes = response.into_bytes().unwrap();

    let prefix_length = PREFIX.len();
    assert_eq!(bytes.len(), prefix_length + 1, "Unexpected number of bytes");
    assert_eq!(&bytes[..prefix_length], PREFIX, "Unexpected prefix");
    assert_eq!(bytes[prefix_length], 0b10000000, "Unexpected response value");
}

#[test]
fn can_convert_failure_response_into_bytes() {
    let message = "some failure".to_owned();
    let response = HandshakeResponse::Failure { reason: message.clone() };
    let bytes = response.into_bytes().unwrap();

    let prefix_length = PREFIX.len();
    assert_eq!(bytes.len(), prefix_length + 1 + message.len(), "Unexpected number of bytes");
    assert_eq!(&bytes[..prefix_length], PREFIX, "Unexpected prefix");
    assert_eq!(bytes[prefix_length], message.len() as u8, "Unexpected message length specified");
    assert_eq!(&bytes[prefix_length + 1..], &message.into_bytes()[..], "Unexpected message bytes");
}

#[test]
fn can_read_success_bytes() {
    let response = HandshakeResponse::Success;
    let bytes = response.into_bytes().unwrap();
    let (response, _) = HandshakeResponse::from_bytes(&bytes).unwrap();

    assert_eq!(response, HandshakeResponse::Success, "Unexpected response parsed");
}

#[test]
fn can_read_failure_bytes() {
    let message = "test fail".to_owned();
    let response = HandshakeResponse::Failure { reason: message.clone() };
    let bytes = response.into_bytes().unwrap();
    let (response, _) = HandshakeResponse::from_bytes(&bytes).unwrap();

    assert_eq!(response, HandshakeResponse::Failure { reason: message.clone() }, "Unexpected response");
}

#[test]
fn parse_process_returns_extra_bytes() {
    let message = "test fail".to_owned();
    let response = HandshakeResponse::Failure { reason: message.clone() };
    let mut bytes = response.into_bytes().unwrap();
    bytes.extend_from_slice(&[1, 2, 3]);

    let (response, extra_bytes) = HandshakeResponse::from_bytes(&bytes).unwrap();

    assert_eq!(response, HandshakeResponse::Failure { reason: message.clone() }, "Unexpected response");
    assert_eq!(&extra_bytes[..], &[1, 2, 3], "Unexpected extra bytes");
}

#[test]
fn handshake_response_invalid_prefix_returns_error() {
    let mut bytes = Vec::with_capacity(8);
    bytes.extend_from_slice(b"abcde1");

    let error = HandshakeResponse::from_bytes(&bytes).unwrap_err();
    match error.kind {
        HandshakeResponseParseErrorKind::InvalidPrefix => (),
        x => panic!("Unexpected error: {:?}", x),
    }
}

#[test]
fn error_returned_when_not_enough_bytes_passed_in() {
    let message = "test fail".to_owned();
    let response = HandshakeResponse::Failure { reason: message.clone() };
    let bytes = response.into_bytes().unwrap();
    let error = HandshakeResponse::from_bytes(&bytes[..8]).unwrap_err();

    match error.kind {
        HandshakeResponseParseErrorKind::NotEnoughBytes => (),
        x => panic!("Unexpected error: {:?}", x),
    }
}

#[test]
fn success_response_returns_the_bytes_after_it() {
    let mut bytes = HandshakeResponse::Success.into_bytes().unwrap();
    bytes.extend_from_slice(&[9, 8]);
    let (response, rest) = HandshakeResponse::from_bytes(&bytes).unwrap();
    assert_eq!(response, HandshakeResponse::Success);
    assert_eq!(rest, &[9, 8]);
}

#[test]
fn failure_reason_of_127_bytes_is_accepted() {
    let reason = "r".repeat(127);
    let bytes = HandshakeResponse::Failure { reason: reason.clone() }.into_bytes().unwrap();
    assert_eq!(bytes[5], 127);
    let (response, rest) = HandshakeResponse::from_bytes(&bytes).unwrap();
    assert_eq!(response, HandshakeResponse::Failure { reason });
    assert!(rest.is_empty());
}

#[test]
fn failure_reason_of_128_bytes_is_too_long() {
    let error = HandshakeResponse::Failure { reason: "r".repeat(128) }.into_bytes().unwrap_err();
    assert_eq!(error.kind, HandshakeResponseGenerationErrorKind::FailureMessageTooLong);
}

#[test]
fn marker_above_128_is_reserved() {
    let error = HandshakeResponse::from_bytes(b"DSRPB\x81").unwrap_err();
    match error.kind {
        HandshakeResponseParseErrorKind::InvalidMarkerByte(0x81) => (),
        x => panic!("Unexpected error: {:?}", x),
    }
}

#[test]
fn failure_reason_with_bad_utf8_is_rejected() {
    let error = HandshakeResponse::from_bytes(&[0x44, 0x53, 0x52, 0x50, 0x42, 1, 0xff]).unwrap_err();
    match error.kind {
        HandshakeResponseParseErrorKind::FromUtf8Error(_) => (),
        x => panic!("Unexpected error: {:?}", x),
    }
}

#[test]
fn failure_reason_is_decoded_not_copied_raw() {
    let (response, _) = HandshakeResponse::from_bytes(&[0x44, 0x53, 0x52, 0x50, 0x42, 2, 0xc3, 0xa9]).unwrap();
    assert_eq!(response, HandshakeResponse::Failure { reason: "\u{e9}".to_owned() });
}

#[test]
fn response_of_five_bytes_is_not_enough() {
    let error = HandshakeResponse::from_bytes(b"DSRPB").unwrap_err();
    match error.kind {
        HandshakeResponseParseErrorKind::NotEnoughBytes => (),
        x => panic!("Unexpected error: {:?}", x),
    }
}
