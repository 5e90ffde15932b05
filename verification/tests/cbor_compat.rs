//! Pins the wire payloads to the reference CBOR serializer: every
//! message must encode to exactly the bytes `serde_cbor` produces for
//! the equivalent tagged map, and those bytes must parse back as that
//! CBOR value.

use std::collections::BTreeMap;

use chat_relay::codec::{ChatCodec, ChatRequest, ChatResponse, ClientChatCodec};
use serde_cbor::Value;

fn tagged(tag: &str) -> Value {
    let mut m = BTreeMap::new();
    m.insert(
        Value::Text(String::from("cmd")),
        Value::Text(String::from(tag)),
    );
    Value::Map(m)
}

fn tagged_with(tag: &str, data: Value) -> Value {
    let mut m = BTreeMap::new();
    m.insert(
        Value::Text(String::from("cmd")),
        Value::Text(String::from(tag)),
    );
    m.insert(Value::Text(String::from("data")), data);
    Value::Map(m)
}

fn check_payload(frame: &[u8], reference: &Value) {
    let expected = serde_cbor::to_vec(reference).expect("reference serializer");
    assert_eq!(frame.len(), 2 + expected.len());
    assert_eq!(
        u16::from_be_bytes([frame[0], frame[1]]) as usize,
        expected.len()
    );
    assert_eq!(&frame[2..], &expected[..], "payload bytes must match");
    let parsed: Value = serde_cbor::from_slice(&frame[2..]).expect("well-formed CBOR");
    assert_eq!(&parsed, reference);
}

#[test]
fn request_payloads_match_the_reference_cbor() {
    let cases: Vec<(ChatRequest, Value)> = vec![
        (ChatRequest::Ping, tagged("Ping")),
        (ChatRequest::List, tagged("List")),
        (
            ChatRequest::NickName(String::from("alice")),
            tagged_with("NickName", Value::Text(String::from("alice"))),
        ),
        (
            ChatRequest::Join(String::from("general")),
            tagged_with("Join", Value::Text(String::from("general"))),
        ),
        (
            ChatRequest::Message(String::from("\u{00e9}\u{4e16}\u{1f600}")),
            tagged_with("Message", Value::Text(String::from("\u{00e9}\u{4e16}\u{1f600}"))),
        ),
        (
            ChatRequest::Message("m".repeat(300)),
            tagged_with("Message", Value::Text("m".repeat(300))),
        ),
    ];
    for (msg, reference) in cases {
        let mut c = ClientChatCodec;
        let mut out: Vec<u8> = Vec::new();
        c.encode(msg, &mut out).expect("fits a frame");
        check_payload(&out, &reference);
    }
}

#[test]
fn response_payloads_match_the_reference_cbor() {
    let cases: Vec<(ChatResponse, Value)> = vec![
        (ChatResponse::Ping, tagged("Ping")),
        (
            ChatResponse::Rooms(vec![String::from("Main"), String::from("general")]),
            tagged_with(
                "Rooms",
                Value::Array(vec![
                    Value::Text(String::from("Main")),
                    Value::Text(String::from("general")),
                ]),
            ),
        ),
        (
            ChatResponse::Rooms(Vec::new()),
            tagged_with("Rooms", Value::Array(Vec::new())),
        ),
        (
            ChatResponse::Joined(String::from("general")),
            tagged_with("Joined", Value::Text(String::from("general"))),
        ),
        (
            ChatResponse::Message(String::from("hi")),
            tagged_with("Message", Value::Text(String::from("hi"))),
        ),
        (
            ChatResponse::SetNickName(String::from("alice")),
            tagged_with("SetNickName", Value::Text(String::from("alice"))),
        ),
    ];
    for (msg, reference) in cases {
        let mut c = ChatCodec;
        let mut out: Vec<u8> = Vec::new();
        c.encode(msg, &mut out).expect("fits a frame");
        check_payload(&out, &reference);
    }
}
