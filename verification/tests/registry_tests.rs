use chat_relay::codec::{ChatRequest, ChatResponse};
use chat_relay::registry::{u64_to_string, Registry};
use chat_relay::session::ChatSession;

fn rooms_of(resp: &ChatResponse) -> Vec<String> {
    match resp {
        ChatResponse::Rooms(names) => names.clone(),
        other => panic!("expected Rooms, got {:?}", other),
    }
}

#[test]
fn fresh_registry_has_only_main() {
    let reg = Registry::new();
    assert_eq!(rooms_of(&reg.list_rooms()), vec![String::from("Main")]);
}

#[test]
fn connect_then_list_shows_main() {
    // connect as id=1: the default room is "Main"
    let mut reg = Registry::new();
    reg.register(1);
    let s1 = ChatSession::new(1);
    let out = s1.handle(&mut reg, ChatRequest::List);
    assert_eq!(
        out,
        vec![(1, ChatResponse::Rooms(vec![String::from("Main")]))]
    );
}

#[test]
fn join_replies_joined_and_moves_membership() {
    let mut reg = Registry::new();
    reg.register(1);
    reg.register(2);
    let s1 = ChatSession::new(1);
    let out = s1.handle(&mut reg, ChatRequest::Join(String::from("general")));
    assert_eq!(out, vec![(1, ChatResponse::Joined(String::from("general")))]);
    // id=1 is now a member of "general", not "Main": a broadcast from
    // id=2 (still in "Main") reaches nobody, and one from id=1 reaches
    // nobody either until someone else joins "general"
    assert_eq!(reg.broadcast(2, String::from("anyone?")), vec![]);
    assert_eq!(reg.broadcast(1, String::from("anyone?")), vec![]);
    // the new room shows up after "Main", creation order kept
    assert_eq!(
        rooms_of(&reg.list_rooms()),
        vec![String::from("Main"), String::from("general")]
    );
}

#[test]
fn broadcast_reaches_the_room_only() {
    let mut reg = Registry::new();
    for id in 1..=3 {
        reg.register(id);
    }
    let s1 = ChatSession::new(1);
    let s2 = ChatSession::new(2);
    s1.handle(&mut reg, ChatRequest::Join(String::from("general")));
    s2.handle(&mut reg, ChatRequest::Join(String::from("general")));
    // id=3 stays in "Main" and must not be targeted
    let out = s1.handle(&mut reg, ChatRequest::Message(String::from("hi")));
    assert_eq!(out, vec![(2, ChatResponse::Message(String::from("hi")))]);
}

#[test]
fn broadcast_does_not_echo_to_the_sender() {
    let mut reg = Registry::new();
    reg.register(1);
    reg.register(2);
    let out = reg.broadcast(1, String::from("hello"));
    assert_eq!(out, vec![(2, ChatResponse::Message(String::from("hello")))]);
    assert!(out.iter().all(|(id, _)| *id != 1));
}

#[test]
fn nickname_replies_to_caller_only() {
    let mut reg = Registry::new();
    reg.register(1);
    reg.register(2);
    let s1 = ChatSession::new(1);
    let out = s1.handle(&mut reg, ChatRequest::NickName(String::from("alice")));
    assert_eq!(
        out,
        vec![(1, ChatResponse::SetNickName(String::from("alice")))]
    );
    assert_eq!(reg.nickname(1), Some(String::from("alice")));
    // no uniqueness constraint: another session may take the same name
    let s2 = ChatSession::new(2);
    let out2 = s2.handle(&mut reg, ChatRequest::NickName(String::from("alice")));
    assert_eq!(
        out2,
        vec![(2, ChatResponse::SetNickName(String::from("alice")))]
    );
}

#[test]
fn ping_is_echoed_without_touching_the_registry() {
    let mut reg = Registry::new();
    reg.register(1);
    let s1 = ChatSession::new(1);
    let out = s1.handle(&mut reg, ChatRequest::Ping);
    assert_eq!(out, vec![(1, ChatResponse::Ping)]);
}

#[test]
fn disconnect_stops_deliveries_and_raises_no_error() {
    let mut reg = Registry::new();
    reg.register(1);
    reg.register(2);
    let s1 = ChatSession::new(1);
    let s2 = ChatSession::new(2);
    s1.handle(&mut reg, ChatRequest::Join(String::from("general")));
    s2.handle(&mut reg, ChatRequest::Join(String::from("general")));
    // id=2 disconnects; a later message from id=1 targets nobody
    reg.unregister(2);
    let out = s1.handle(&mut reg, ChatRequest::Message(String::from("hello")));
    assert_eq!(out, vec![]);
}

#[test]
fn unregister_is_idempotent() {
    let mut reg = Registry::new();
    reg.register(7);
    reg.unregister(7);
    reg.unregister(7);
    reg.unregister(99); // never registered: still a no-op
    assert_eq!(reg.nickname(7), None);
}

#[test]
fn emptied_rooms_persist() {
    // the documented policy: a room outlives its last member
    let mut reg = Registry::new();
    reg.register(1);
    let s1 = ChatSession::new(1);
    s1.handle(&mut reg, ChatRequest::Join(String::from("general")));
    s1.handle(&mut reg, ChatRequest::Join(String::from("Main")));
    assert_eq!(
        rooms_of(&reg.list_rooms()),
        vec![String::from("Main"), String::from("general")]
    );
}

#[test]
fn rejoining_an_existing_room_creates_no_duplicate() {
    let mut reg = Registry::new();
    reg.register(1);
    reg.register(2);
    let s1 = ChatSession::new(1);
    let s2 = ChatSession::new(2);
    s1.handle(&mut reg, ChatRequest::Join(String::from("general")));
    s2.handle(&mut reg, ChatRequest::Join(String::from("general")));
    s1.handle(&mut reg, ChatRequest::Join(String::from("general")));
    assert_eq!(
        rooms_of(&reg.list_rooms()),
        vec![String::from("Main"), String::from("general")]
    );
    // both are still together in "general"
    let out = s2.handle(&mut reg, ChatRequest::Message(String::from("still here")));
    assert_eq!(
        out,
        vec![(1, ChatResponse::Message(String::from("still here")))]
    );
}

#[test]
fn default_nickname_is_the_decimal_id() {
    let mut reg = Registry::new();
    reg.register(42);
    assert_eq!(reg.nickname(42), Some(String::from("42")));
    assert_eq!(reg.nickname(1), None);
}

#[test]
fn u64_to_string_spells_decimal() {
    assert_eq!(u64_to_string(0), "0");
    assert_eq!(u64_to_string(9), "9");
    assert_eq!(u64_to_string(10), "10");
    assert_eq!(u64_to_string(907), "907");
    assert_eq!(u64_to_string(u64::MAX), "18446744073709551615");
}
