use chat_relay::codec::{ChatCodec, ChatRequest, ChatResponse, ClientChatCodec};
use chat_relay::wire::{DecodeError, EncodeError};

fn encode_request(msg: ChatRequest) -> Vec<u8> {
    let mut c = ClientChatCodec;
    let mut out: Vec<u8> = Vec::new();
    c.encode(msg, &mut out).expect("request should fit a frame");
    out
}

fn encode_response(msg: ChatResponse) -> Vec<u8> {
    let mut c = ChatCodec;
    let mut out: Vec<u8> = Vec::new();
    c.encode(msg, &mut out).expect("response should fit a frame");
    out
}

fn decode_request(buf: &mut Vec<u8>) -> Result<Option<ChatRequest>, DecodeError> {
    let mut c = ChatCodec;
    c.decode(buf)
}

fn decode_response(buf: &mut Vec<u8>) -> Result<Option<ChatResponse>, DecodeError> {
    let mut c = ClientChatCodec;
    c.decode(buf)
}

fn request_round_trip(msg: ChatRequest) {
    let mut buf = encode_request(msg.clone());
    let got = decode_request(&mut buf).expect("well-formed frame");
    assert_eq!(got, Some(msg));
    assert!(buf.is_empty());
}

fn response_round_trip(msg: ChatResponse) {
    let mut buf = encode_response(msg.clone());
    let got = decode_response(&mut buf).expect("well-formed frame");
    assert_eq!(got, Some(msg));
    assert!(buf.is_empty());
}

#[test]
fn round_trip_every_request_variant() {
    request_round_trip(ChatRequest::NickName(String::from("alice")));
    request_round_trip(ChatRequest::List);
    request_round_trip(ChatRequest::Join(String::from("general")));
    request_round_trip(ChatRequest::Message(String::from("hi")));
    request_round_trip(ChatRequest::Ping);
}

#[test]
fn round_trip_every_response_variant() {
    response_round_trip(ChatResponse::Ping);
    response_round_trip(ChatResponse::Rooms(vec![
        String::from("Main"),
        String::from("general"),
    ]));
    response_round_trip(ChatResponse::Joined(String::from("general")));
    response_round_trip(ChatResponse::Message(String::from("hello there")));
    response_round_trip(ChatResponse::SetNickName(String::from("alice")));
}

#[test]
fn round_trip_edge_values() {
    request_round_trip(ChatRequest::Message(String::from("")));
    request_round_trip(ChatRequest::NickName(String::from("\u{00e9}\u{4e16}\u{1f600}")));
    response_round_trip(ChatResponse::Rooms(Vec::new()));
    response_round_trip(ChatResponse::Rooms(vec![String::from("")]));
    // a text long enough to need a 2-byte item length header
    request_round_trip(ChatRequest::Message("x".repeat(300)));
    // and one long enough for a 1-byte item length header
    request_round_trip(ChatRequest::Join("r".repeat(100)));
    // an array with enough rooms to need a 2-byte count header
    response_round_trip(ChatResponse::Rooms(
        (0..300).map(|i| format!("room{}", i)).collect(),
    ));
}

#[test]
fn ping_request_exact_bytes() {
    // 2-byte big-endian length, then {"cmd": "Ping"} as a CBOR map
    let buf = encode_request(ChatRequest::Ping);
    assert_eq!(
        buf,
        vec![
            0x00, 0x0a, 0xa1, 0x63, b'c', b'm', b'd', 0x64, b'P', b'i', b'n', b'g'
        ]
    );
}

#[test]
fn join_request_exact_bytes() {
    // {"cmd": "Join", "data": "general"}
    let buf = encode_request(ChatRequest::Join(String::from("general")));
    let mut expected: Vec<u8> = vec![0x00, 0x17, 0xa2];
    expected.extend_from_slice(&[0x63, b'c', b'm', b'd']);
    expected.extend_from_slice(&[0x64, b'J', b'o', b'i', b'n']);
    expected.extend_from_slice(&[0x64, b'd', b'a', b't', b'a']);
    expected.extend_from_slice(&[0x67, b'g', b'e', b'n', b'e', b'r', b'a', b'l']);
    assert_eq!(buf, expected);
}

#[test]
fn incremental_feed_yields_need_more_until_last_byte() {
    let frame = encode_request(ChatRequest::Message(String::from("incremental")));
    let mut buf: Vec<u8> = Vec::new();
    for (i, byte) in frame.iter().enumerate() {
        buf.push(*byte);
        let r = decode_request(&mut buf).expect("never an error on a prefix");
        if i + 1 < frame.len() {
            assert_eq!(r, None, "prefix of {} bytes must be incomplete", i + 1);
            assert_eq!(buf.len(), i + 1, "an incomplete buffer is not consumed");
        } else {
            assert_eq!(r, Some(ChatRequest::Message(String::from("incremental"))));
            assert!(buf.is_empty());
        }
    }
}

#[test]
fn oversized_payload_is_rejected_not_truncated() {
    let mut c = ChatCodec;
    let mut out: Vec<u8> = Vec::new();
    let big = ChatResponse::Message("a".repeat(70000));
    assert_eq!(c.encode(big, &mut out), Err(EncodeError::FrameTooLarge));
    assert!(out.is_empty(), "nothing may be written for a rejected message");

    // a text that fits on its own but overruns the frame with its envelope
    let mut out2: Vec<u8> = Vec::new();
    let barely_over = ChatResponse::Message("a".repeat(65530));
    assert_eq!(
        c.encode(barely_over, &mut out2),
        Err(EncodeError::FrameTooLarge)
    );
    assert!(out2.is_empty());

    let mut out3: Vec<u8> = Vec::new();
    let fits = ChatResponse::Message("a".repeat(65500));
    assert_eq!(c.encode(fits, &mut out3), Ok(()));
    assert_eq!(out3.len(), 2 + 18 + 3 + 65500);

    // the exact boundary: a payload of 65535 bytes is the largest that fits
    let mut out4: Vec<u8> = Vec::new();
    let exactly = ChatResponse::Message("a".repeat(65514));
    assert_eq!(c.encode(exactly, &mut out4), Ok(()));
    assert_eq!(out4.len(), 2 + 65535);
    let mut out5: Vec<u8> = Vec::new();
    let one_over = ChatResponse::Message("a".repeat(65515));
    assert_eq!(c.encode(one_over, &mut out5), Err(EncodeError::FrameTooLarge));
}

#[test]
fn leftover_bytes_stay_for_the_next_call() {
    let mut buf = encode_request(ChatRequest::Ping);
    buf.extend_from_slice(&encode_request(ChatRequest::List));
    buf.extend_from_slice(&[0x00]); // start of a third, incomplete frame
    assert_eq!(decode_request(&mut buf), Ok(Some(ChatRequest::Ping)));
    assert_eq!(decode_request(&mut buf), Ok(Some(ChatRequest::List)));
    assert_eq!(decode_request(&mut buf), Ok(None));
    assert_eq!(buf, vec![0x00]);
}

fn frame_of(payload: &[u8]) -> Vec<u8> {
    let mut v = vec![(payload.len() / 256) as u8, (payload.len() % 256) as u8];
    v.extend_from_slice(payload);
    v
}

#[test]
fn unknown_tag_is_a_data_error() {
    // {"cmd": "Nope"} — structurally fine, no such variant
    let payload: Vec<u8> = vec![0xa1, 0x63, b'c', b'm', b'd', 0x64, b'N', b'o', b'p', b'e'];
    let mut buf = frame_of(&payload);
    assert_eq!(decode_request(&mut buf), Err(DecodeError::Data));
    // a response-only tag on the request side is unknown there too
    let mut buf2 = encode_response(ChatResponse::Joined(String::from("general")));
    let mut c = ChatCodec;
    assert_eq!(c.decode(&mut buf2), Err(DecodeError::Data));
}

#[test]
fn payload_entry_on_a_unit_variant_is_a_data_error() {
    // {"cmd": "Ping", "data": "x"}
    let payload: Vec<u8> = vec![
        0xa2, 0x63, b'c', b'm', b'd', 0x64, b'P', b'i', b'n', b'g', 0x64, b'd', b'a', b't', b'a',
        0x61, b'x',
    ];
    let mut buf = frame_of(&payload);
    assert_eq!(decode_request(&mut buf), Err(DecodeError::Data));
}

#[test]
fn missing_payload_entry_is_a_data_error() {
    // {"cmd": "Join"} — the variant needs a room name
    let payload: Vec<u8> = vec![0xa1, 0x63, b'c', b'm', b'd', 0x64, b'J', b'o', b'i', b'n'];
    let mut buf = frame_of(&payload);
    assert_eq!(decode_request(&mut buf), Err(DecodeError::Data));
}

#[test]
fn garbled_bytes_are_a_syntax_error() {
    // not a map at all
    let mut buf = frame_of(&[0x42, 0x00, 0x01]);
    assert_eq!(decode_request(&mut buf), Err(DecodeError::Syntax));
    // right opening, wrong key
    let mut buf2 = frame_of(&[0xa1, 0x63, b'x', b'y', b'z', 0x64, b'P', b'i', b'n', b'g']);
    assert_eq!(decode_request(&mut buf2), Err(DecodeError::Syntax));
    // trailing garbage after a complete message
    let payload: Vec<u8> = vec![
        0xa1, 0x63, b'c', b'm', b'd', 0x64, b'P', b'i', b'n', b'g', 0xff,
    ];
    let mut buf3 = frame_of(&payload);
    assert_eq!(decode_request(&mut buf3), Err(DecodeError::Syntax));
}

#[test]
fn invalid_utf8_in_a_text_item_is_a_syntax_error() {
    // {"cmd": "Join", "data": <2 bytes that are not UTF-8>}
    let payload: Vec<u8> = vec![
        0xa2, 0x63, b'c', b'm', b'd', 0x64, b'J', b'o', b'i', b'n', 0x64, b'd', b'a', b't', b'a',
        0x62, 0xff, 0xfe,
    ];
    let mut buf = frame_of(&payload);
    assert_eq!(decode_request(&mut buf), Err(DecodeError::Syntax));
}

#[test]
fn non_minimal_length_header_is_a_syntax_error() {
    // "Ping" written with a needless 1-byte length header
    let payload: Vec<u8> = vec![
        0xa1, 0x63, b'c', b'm', b'd', 0x78, 0x04, b'P', b'i', b'n', b'g',
    ];
    let mut buf = frame_of(&payload);
    assert_eq!(decode_request(&mut buf), Err(DecodeError::Syntax));
}

#[test]
fn error_frame_is_consumed_and_later_frames_survive() {
    let mut buf = frame_of(&[0x42]);
    buf.extend_from_slice(&encode_request(ChatRequest::Ping));
    assert_eq!(decode_request(&mut buf), Err(DecodeError::Syntax));
    assert_eq!(decode_request(&mut buf), Ok(Some(ChatRequest::Ping)));
    assert!(buf.is_empty());
}

#[test]
fn both_directions_share_the_wire_format() {
    // the same Message text encodes to the same payload bytes in both
    // directions: the framing is symmetric
    let req = encode_request(ChatRequest::Message(String::from("same")));
    let resp = encode_response(ChatResponse::Message(String::from("same")));
    assert_eq!(req, resp);
}
