use std::string::FromUtf8Error;
use vstd::prelude::*;
use vstd::utf8::{decode_utf8, encode_utf8, valid_utf8};

verus! {

broadcast use {vstd::utf8::encode_utf8_valid_utf8, vstd::utf8::encode_utf8_decode_utf8};

/// The protocol version that this library speaks; peers must send it byte for byte.
pub const CURRENT_VERSION: &'static str = "0.1.0";

#[verifier::external_type_specification]
#[verifier::external_body]
pub struct ExFromUtf8Error(FromUtf8Error);

/// The five bytes `"DSRP"` followed by `last`.
pub open spec fn prefix_of(last: u8) -> Seq<u8> {
    seq![0x44u8, 0x53u8, 0x52u8, 0x50u8, last]
}

/// `"DSRPA"`, which starts every handshake request.
pub open spec fn request_prefix() -> Seq<u8> {
    prefix_of(0x41)
}

/// `"DSRPB"`, which starts every handshake response.
pub open spec fn response_prefix() -> Seq<u8> {
    prefix_of(0x42)
}

/// The marker byte of a successful response.
pub open spec fn success_marker() -> u8 {
    0x80
}

/// Appends `"DSRP"` and `last` to `bytes`.
fn push_prefix(bytes: &mut Vec<u8>, last: u8)
    ensures
        final(bytes)@ == old(bytes)@ + prefix_of(last),
{
    bytes.push(0x44);
    bytes.push(0x53);
    bytes.push(0x52);
    bytes.push(0x50);
    bytes.push(last);
}

/// Appends every byte of `src` to `dst`.
pub(crate) fn append_bytes(dst: &mut Vec<u8>, src: &[u8])
    ensures
        final(dst)@ == old(dst)@ + src@,
{
    let ghost start = dst@;
    let mut i: usize = 0;
    while i < src.len()
        invariant
            i <= src@.len(),
            dst@ == start + src@.subrange(0, i as int),
        decreases src@.len() - i,
    {
        dst.push(src[i]);
        i = i + 1;
        assert(src@.subrange(0, i as int) == src@.subrange(0, i - 1) + seq![src@[i - 1]]);
    }
    assert(src@.subrange(0, i as int) == src@);
}

/// Whether `bytes` starts with `"DSRP"` followed by `last`.
fn has_prefix(bytes: &[u8], last: u8) -> (r: bool)
    requires
        bytes@.len() >= 5,
    ensures
        r == (bytes@.subrange(0, 5) == prefix_of(last)),
{
    let r = bytes[0] == 0x44 && bytes[1] == 0x53 && bytes[2] == 0x52 && bytes[3] == 0x50
        && bytes[4] == last;
    assert(r ==> bytes@.subrange(0, 5) =~= prefix_of(last));
    assert(bytes@.subrange(0, 5) == prefix_of(last) ==> r) by {
        if bytes@.subrange(0, 5) == prefix_of(last) {
            assert(bytes@.subrange(0, 5)[0] == bytes@[0]);
            assert(bytes@.subrange(0, 5)[1] == bytes@[1]);
            assert(bytes@.subrange(0, 5)[2] == bytes@[2]);
            assert(bytes@.subrange(0, 5)[3] == bytes@[3]);
            assert(bytes@.subrange(0, 5)[4] == bytes@[4]);
        }
    }
    r
}

/// Relies on `String::from_utf8`: it succeeds exactly on well-formed UTF-8, and the
/// string then holds the characters that the bytes encode.
#[verifier::external_body]
fn string_from_utf8(bytes: Vec<u8>) -> (r: Result<String, FromUtf8Error>)
    ensures
        r is Ok <==> valid_utf8(bytes@),
        r matches Ok(s) ==> s@ == decode_utf8(bytes@),
{
    String::from_utf8(bytes)
}


/// The opening message of a relay client: the protocol version it speaks.
pub struct HandshakeRequest {
    pub client_protocol_version: String,
}

#[derive(Debug)]
pub enum HandshakeRequestParseErrorsKind {
    /// Too few bytes, or a length byte that does not match the input.
    InvalidNumberOfBytes,
    /// The input does not start with `"DSRPA"`.
    InvalidPrefix,
    /// The version bytes are not UTF-8.
    FromUtf8Error(FromUtf8Error),
}

#[derive(Debug)]
pub struct HandshakeRequestParseError {
    pub kind: HandshakeRequestParseErrorsKind,
}

/// The wire form of a request for `version`: prefix, byte length, UTF-8 bytes.
pub open spec fn request_bytes(version: Seq<char>) -> Seq<u8> {
    request_prefix() + seq![encode_utf8(version).len() as u8] + encode_utf8(version)
}

/// A request can be written only when its version fits in 255 bytes.
pub open spec fn request_is_valid(version: Seq<char>) -> bool {
    encode_utf8(version).len() <= 255
}

/// The version bytes of a framed request: everything after the length byte.
pub open spec fn request_payload(b: Seq<u8>) -> Seq<u8> {
    b.subrange(6, b.len() as int)
}

/// Long enough for the prefix and the length byte.
pub open spec fn request_has_header(b: Seq<u8>) -> bool {
    b.len() >= 6
}

/// The length byte gives the exact number of bytes that follow it.
pub open spec fn request_length_matches(b: Seq<u8>) -> bool {
    b.len() == 6 + b[5]
}

/// `b` is a well-formed request.
pub open spec fn request_is_well_formed(b: Seq<u8>) -> bool {
    &&& request_has_header(b)
    &&& b.subrange(0, 5) == request_prefix()
    &&& request_length_matches(b)
    &&& valid_utf8(request_payload(b))
}

/// The version that a well-formed request carries.
pub open spec fn request_version(b: Seq<u8>) -> Seq<char> {
    decode_utf8(request_payload(b))
}

impl HandshakeRequest {
    /// A request for the version that this library speaks.
    pub fn new() -> (r: Self)
        ensures
            r.client_protocol_version@ == CURRENT_VERSION@,
    {
        HandshakeRequest { client_protocol_version: CURRENT_VERSION.to_owned() }
    }

    /// The wire form of the request.
    pub fn into_bytes(self) -> (r: Vec<u8>)
        requires
            request_is_valid(self.client_protocol_version@),
        ensures
            r@ == request_bytes(self.client_protocol_version@),
    {
        let version = self.client_protocol_version.as_str().as_bytes();
        let mut bytes: Vec<u8> = Vec::new();
        push_prefix(&mut bytes, 0x41);
        bytes.push(version.len() as u8);
        append_bytes(&mut bytes, version);
        bytes
    }

    /// Reads a request that fills `bytes` exactly.
    pub fn from_bytes(bytes: &[u8]) -> (r: Result<Self, HandshakeRequestParseError>)
        ensures
            r is Ok <==> request_is_well_formed(bytes@),
            r matches Ok(h) ==> h.client_protocol_version@ == request_version(bytes@),
            r matches Err(e) ==> match e.kind {
                HandshakeRequestParseErrorsKind::InvalidNumberOfBytes => !request_has_header(bytes@)
                    || (bytes@.subrange(0, 5) == request_prefix() && !request_length_matches(bytes@)),
                HandshakeRequestParseErrorsKind::InvalidPrefix => request_has_header(bytes@)
                    && bytes@.subrange(0, 5) != request_prefix(),
                HandshakeRequestParseErrorsKind::FromUtf8Error(_) => request_has_header(bytes@)
                    && bytes@.subrange(0, 5) == request_prefix() && request_length_matches(bytes@)
                    && !valid_utf8(request_payload(bytes@)),
            },
    {
        if bytes.len() < 6 {
            return Err(HandshakeRequestParseError { kind: HandshakeRequestParseErrorsKind::InvalidNumberOfBytes });
        }
        if !has_prefix(bytes, 0x41) {
            return Err(HandshakeRequestParseError { kind: HandshakeRequestParseErrorsKind::InvalidPrefix });
        }
        let version_length = bytes[5];
        if bytes.len() != 6 + version_length as usize {
            return Err(HandshakeRequestParseError { kind: HandshakeRequestParseErrorsKind::InvalidNumberOfBytes });
        }
        let mut buffer: Vec<u8> = Vec::new();
        append_bytes(&mut buffer, &bytes[6..bytes.len()]);
        match string_from_utf8(buffer) {
            Ok(value) => Ok(HandshakeRequest { client_protocol_version: value }),
            Err(e) => Err(HandshakeRequestParseError { kind: HandshakeRequestParseErrorsKind::FromUtf8Error(e) }),
        }
    }
}

/// Reading back the wire form of a valid request gives the same version.
pub proof fn lemma_request_round_trip(version: Seq<char>)
    requires
        request_is_valid(version),
    ensures
        request_is_well_formed(request_bytes(version)),
        request_version(request_bytes(version)) == version,
{
    let b = request_bytes(version);
    let e = encode_utf8(version);
    assert(b.subrange(0, 5) =~= request_prefix());
    assert(request_payload(b) =~= e);
}


/// The server's answer to a handshake request.
#[derive(PartialEq, Debug)]
pub enum HandshakeResponse {
    Success,
    Failure { reason: String },
}

#[derive(Debug, Clone, Copy, PartialEq, Eq, Structural)]
pub enum HandshakeResponseGenerationErrorKind {
    /// A failure reason must be shorter than 128 bytes.
    FailureMessageTooLong,
}

#[derive(Debug, Clone, Copy, PartialEq, Eq, Structural)]
pub struct HandshakeResponseGenerationError {
    pub kind: HandshakeResponseGenerationErrorKind,
}

#[derive(Debug)]
pub enum HandshakeResponseParseErrorKind {
    /// The input ends before the response does.
    NotEnoughBytes,
    /// The input does not start with `"DSRPB"`.
    InvalidPrefix,
    /// A marker byte above 128, which is reserved.
    InvalidMarkerByte(u8),
    /// The failure reason is not UTF-8.
    FromUtf8Error(FromUtf8Error),
}

#[derive(Debug)]
pub struct HandshakeResponseParseError {
    pub kind: HandshakeResponseParseErrorKind,
}

/// A response can be written unless it is a failure whose reason takes 128 bytes or more.
pub open spec fn response_is_valid(r: &HandshakeResponse) -> bool {
    match r {
        HandshakeResponse::Success => true,
        HandshakeResponse::Failure { reason } => encode_utf8(reason@).len() < 128,
    }
}

/// The wire form of a response: prefix, marker byte, and for a failure the reason's bytes,
/// whose count is the marker.
pub open spec fn response_bytes(r: &HandshakeResponse) -> Seq<u8> {
    match r {
        HandshakeResponse::Success => response_prefix() + seq![success_marker()],
        HandshakeResponse::Failure { reason } => response_prefix() + seq![
            encode_utf8(reason@).len() as u8,
        ] + encode_utf8(reason@),
    }
}

/// Where a response that starts `b` ends (meaningful once the header is there).
pub open spec fn response_end(b: Seq<u8>) -> int {
    if b[5] == success_marker() {
        6
    } else {
        6 + b[5]
    }
}

/// The reason bytes of a failure response at the start of `b`.
pub open spec fn response_reason_bytes(b: Seq<u8>) -> Seq<u8> {
    b.subrange(6, 6 + b[5])
}

/// `b` starts with a well-formed response; more bytes may follow it.
pub open spec fn response_is_well_formed(b: Seq<u8>) -> bool {
    &&& b.len() >= 6
    &&& b.subrange(0, 5) == response_prefix()
    &&& b[5] <= success_marker()
    &&& b.len() >= response_end(b)
    &&& (b[5] < success_marker() ==> valid_utf8(response_reason_bytes(b)))
}

/// `r` is the response that `b` starts with.
pub open spec fn response_decodes_to(b: Seq<u8>, r: &HandshakeResponse) -> bool {
    match r {
        HandshakeResponse::Success => b[5] == success_marker(),
        HandshakeResponse::Failure { reason } => b[5] < success_marker() && reason@ == decode_utf8(
            response_reason_bytes(b),
        ),
    }
}

impl HandshakeResponse {
    /// The wire form of the response.
    pub fn into_bytes(self) -> (r: Result<Vec<u8>, HandshakeResponseGenerationError>)
        ensures
            r is Ok <==> response_is_valid(&self),
            r matches Ok(v) ==> v@ == response_bytes(&self),
            r matches Err(e) ==> e.kind == HandshakeResponseGenerationErrorKind::FailureMessageTooLong,
    {
        let mut bytes: Vec<u8> = Vec::new();
        push_prefix(&mut bytes, 0x42);
        match self {
            HandshakeResponse::Success => {
                bytes.push(0x80);
            },
            HandshakeResponse::Failure { reason } => {
                let message = reason.as_str().as_bytes();
                if message.len() >= 0x80 {
                    return Err(HandshakeResponseGenerationError { kind: HandshakeResponseGenerationErrorKind::FailureMessageTooLong });
                }
                bytes.push(message.len() as u8);
                append_bytes(&mut bytes, message);
            },
        }
        Ok(bytes)
    }

    /// Reads the response at the start of `bytes`, and hands back what follows it.
    pub fn from_bytes(bytes: &[u8]) -> (r: Result<(Self, &[u8]), HandshakeResponseParseError>)
        ensures
            r is Ok <==> response_is_well_formed(bytes@),
            r matches Ok((resp, rest)) ==> response_decodes_to(bytes@, &resp) && rest@
                == bytes@.subrange(response_end(bytes@), bytes@.len() as int),
            r matches Err(e) ==> match e.kind {
                HandshakeResponseParseErrorKind::NotEnoughBytes => bytes@.len() < 6 || (
                bytes@.subrange(0, 5) == response_prefix() && bytes@[5] < success_marker()
                    && bytes@.len() < response_end(bytes@)),
                HandshakeResponseParseErrorKind::InvalidPrefix => bytes@.len() >= 6
                    && bytes@.subrange(0, 5) != response_prefix(),
                HandshakeResponseParseErrorKind::InvalidMarkerByte(m) => bytes@.len() >= 6
                    && bytes@.subrange(0, 5) == response_prefix() && m == bytes@[5] && m
                    > success_marker(),
                HandshakeResponseParseErrorKind::FromUtf8Error(_) => bytes@.len() >= 6
                    && bytes@.subrange(0, 5) == response_prefix() && bytes@[5] < success_marker()
                    && bytes@.len() >= response_end(bytes@) && !valid_utf8(
                    response_reason_bytes(bytes@),
                ),
            },
    {
        if bytes.len() < 6 {
            return Err(HandshakeResponseParseError { kind: HandshakeResponseParseErrorKind::NotEnoughBytes });
        }
        if !has_prefix(bytes, 0x42) {
            return Err(HandshakeResponseParseError { kind: HandshakeResponseParseErrorKind::InvalidPrefix });
        }
        let marker = bytes[5];
        if marker > 0x80 {
            return Err(HandshakeResponseParseError { kind: HandshakeResponseParseErrorKind::InvalidMarkerByte(marker) });
        }
        if marker == 0x80 {
            let (_, rest) = bytes.split_at(6);
            return Ok((HandshakeResponse::Success, rest));
        }
        let end_index = 6 + marker as usize;
        if bytes.len() < end_index {
            return Err(HandshakeResponseParseError { kind: HandshakeResponseParseErrorKind::NotEnoughBytes });
        }
        let mut reason_bytes: Vec<u8> = Vec::new();
        append_bytes(&mut reason_bytes, &bytes[6..end_index]);
        match string_from_utf8(reason_bytes) {
            Ok(reason) => {
                let (_, rest) = bytes.split_at(end_index);
                Ok((HandshakeResponse::Failure { reason }, rest))
            },
            Err(e) => Err(HandshakeResponseParseError { kind: HandshakeResponseParseErrorKind::FromUtf8Error(e) }),
        }
    }
}

/// Reading back the wire form of a valid response gives the same response, and the
/// bytes that follow it come back untouched.
pub proof fn lemma_response_round_trip(r: &HandshakeResponse, extra: Seq<u8>)
    requires
        response_is_valid(r),
    ensures
        response_is_well_formed(response_bytes(r) + extra),
        response_decodes_to(response_bytes(r) + extra, r),
        (response_bytes(r) + extra).subrange(
            response_end(response_bytes(r) + extra),
            (response_bytes(r) + extra).len() as int,
        ) == extra,
{
    let b = response_bytes(r) + extra;
    assert(b.subrange(0, 5) =~= response_prefix());
    match r {
        HandshakeResponse::Success => {
            assert(b.subrange(6, b.len() as int) =~= extra);
        },
        HandshakeResponse::Failure { reason } => {
            let e = encode_utf8(reason@);
            assert(response_reason_bytes(b) =~= e);
            assert(b.subrange(6 + e.len() as int, b.len() as int) =~= extra);
        },
    }
}

} // verus!
