use yewchat_core::bus::MessageBus;
use yewchat_core::codec::{encode, ChatMessage, Operation};
use yewchat_core::session::{make_profile, Phase, SessionState, SubmitOutcome};
use yewchat_core::transport::{Channel, SendError};

const AVATAR_ALICE: &str = "https://avatars.dicebear.com/api/adventurer-neutral/alice.svg";
const PLACEHOLDER_BOB: &str = "https://avatars.dicebear.com/api/identicon/bob.svg";

fn users_frame(names: &[&str]) -> String {
    encode(&Operation::Users(names.iter().map(|n| String::from(*n)).collect()))
}

fn message_frame(from: &str, body: &str) -> String {
    encode(&Operation::Message(ChatMessage {
        from: String::from(from),
        body: String::from(body),
    }))
}

#[test]
fn new_session_sends_register_and_subscribes() {
    let mut chan = Channel::new();
    let mut bus = MessageBus::new();
    let s = SessionState::new("alice", &mut chan, &mut bus);
    assert!(matches!(s.phase, Phase::Registered));
    assert_eq!(chan.outbound.len(), 1);
    assert_eq!(
        chan.outbound[0],
        "{\"messageType\":\"register\",\"data\":\"alice\",\"dataArray\":null}"
    );
    assert!(s.roster.is_empty());
    assert!(s.log.is_empty());
}

#[test]
fn new_session_survives_closed_channel() {
    let mut chan = Channel::new();
    chan.set_connected(false);
    let mut bus = MessageBus::new();
    let s = SessionState::new("alice", &mut chan, &mut bus);
    assert!(matches!(s.phase, Phase::Registered));
    assert!(chan.outbound.is_empty());
}

#[test]
fn users_frame_replaces_roster_wholesale() {
    let mut chan = Channel::new();
    let mut bus = MessageBus::new();
    let mut s = SessionState::new("dave", &mut chan, &mut bus);

    chan.receive(&users_frame(&["carol"]), &mut bus);
    s.pump(&mut bus);
    assert_eq!(s.roster.len(), 1);
    assert_eq!(s.roster[0].name, "carol");

    chan.receive("{\"messageType\":\"users\",\"dataArray\":[\"alice\",\"bob\"]}", &mut bus);
    s.pump(&mut bus);
    assert!(matches!(s.phase, Phase::Active));
    assert_eq!(s.roster.len(), 2);
    assert_eq!(s.roster[0].name, "alice");
    assert_eq!(s.roster[0].avatar, AVATAR_ALICE);
    assert_eq!(s.roster[1].name, "bob");
    assert_eq!(
        s.roster[1].avatar,
        "https://avatars.dicebear.com/api/adventurer-neutral/bob.svg"
    );
}

#[test]
fn users_frame_is_idempotent() {
    let mut chan = Channel::new();
    let mut bus = MessageBus::new();
    let mut s = SessionState::new("dave", &mut chan, &mut bus);
    let frame = users_frame(&["alice", "bob"]);

    chan.receive(&frame, &mut bus);
    s.pump(&mut bus);
    let once: Vec<String> = s.roster.iter().map(|p| p.name.clone()).collect();

    chan.receive(&frame, &mut bus);
    s.pump(&mut bus);
    let twice: Vec<String> = s.roster.iter().map(|p| p.name.clone()).collect();
    assert_eq!(once, twice);
}

#[test]
fn known_sender_uses_roster_avatar() {
    let mut chan = Channel::new();
    let mut bus = MessageBus::new();
    let mut s = SessionState::new("dave", &mut chan, &mut bus);
    chan.receive(&users_frame(&["alice"]), &mut bus);
    chan.receive(&message_frame("alice", "hi"), &mut bus);
    s.pump(&mut bus);
    assert_eq!(s.log.len(), 1);
    assert_eq!(s.log[0].from, "alice");
    assert_eq!(s.log[0].body, "hi");
    assert_eq!(s.log[0].avatar, AVATAR_ALICE);
}

#[test]
fn unknown_sender_gets_placeholder_profile() {
    let mut chan = Channel::new();
    let mut bus = MessageBus::new();
    let mut s = SessionState::new("dave", &mut chan, &mut bus);
    chan.receive(&users_frame(&["alice"]), &mut bus);
    chan.receive("{\"messageType\":\"message\",\"data\":\"{\\\"from\\\":\\\"bob\\\",\\\"message\\\":\\\"hi\\\"}\",\"dataArray\":null}", &mut bus);
    s.pump(&mut bus);
    assert_eq!(s.log.len(), 1);
    assert_eq!(s.log[0].from, "bob");
    assert_eq!(s.log[0].body, "hi");
    assert_eq!(s.log[0].avatar, PLACEHOLDER_BOB);
}

#[test]
fn log_grows_in_order_and_is_never_reordered() {
    let mut chan = Channel::new();
    let mut bus = MessageBus::new();
    let mut s = SessionState::new("dave", &mut chan, &mut bus);
    chan.receive(&users_frame(&["alice"]), &mut bus);
    chan.receive(&message_frame("alice", "one"), &mut bus);
    chan.receive(&message_frame("alice", "two"), &mut bus);
    s.pump(&mut bus);
    assert_eq!(s.log.len(), 2);
    assert_eq!(s.log[0].body, "one");
    assert_eq!(s.log[1].body, "two");
    chan.receive(&message_frame("alice", "three"), &mut bus);
    s.pump(&mut bus);
    assert_eq!(s.log.len(), 3);
    assert_eq!(s.log[0].body, "one");
    assert_eq!(s.log[1].body, "two");
    assert_eq!(s.log[2].body, "three");
}

#[test]
fn malformed_frames_are_dropped_and_the_stream_goes_on() {
    let mut chan = Channel::new();
    let mut bus = MessageBus::new();
    let mut s = SessionState::new("dave", &mut chan, &mut bus);
    chan.receive(&users_frame(&["alice"]), &mut bus);
    chan.receive("garbage", &mut bus);
    chan.receive(&message_frame("alice", "still here"), &mut bus);
    s.pump(&mut bus);
    assert_eq!(s.roster.len(), 1);
    assert_eq!(s.log.len(), 1);
    assert_eq!(s.log[0].body, "still here");
}

#[test]
fn submit_empty_message_is_a_no_op() {
    let mut chan = Channel::new();
    let mut bus = MessageBus::new();
    let mut s = SessionState::new("alice", &mut chan, &mut bus);
    let sent_before = chan.outbound.len();
    let outcome = s.submit_message("", &mut chan);
    assert_eq!(outcome, SubmitOutcome::EmptyInput);
    assert_eq!(chan.outbound.len(), sent_before);
    s.pump(&mut bus);
    assert!(s.log.is_empty());
}

#[test]
fn submit_message_sends_the_encoded_frame() {
    let mut chan = Channel::new();
    let mut bus = MessageBus::new();
    let s = SessionState::new("alice", &mut chan, &mut bus);
    let outcome = s.submit_message("hello", &mut chan);
    assert_eq!(outcome, SubmitOutcome::Sent);
    assert_eq!(chan.outbound.len(), 2);
    assert_eq!(chan.outbound[1], message_frame("alice", "hello"));
}

#[test]
fn submit_on_closed_channel_keeps_the_body() {
    let mut chan = Channel::new();
    let mut bus = MessageBus::new();
    let s = SessionState::new("alice", &mut chan, &mut bus);
    chan.set_connected(false);
    let body = String::from("hello");
    let outcome = s.submit_message(&body, &mut chan);
    assert_eq!(outcome, SubmitOutcome::NotConnected);
    assert_eq!(chan.outbound.len(), 1);
    // the caller still holds the body and may retry after a reconnect
    chan.set_connected(true);
    assert_eq!(s.submit_message(&body, &mut chan), SubmitOutcome::Sent);
    assert_eq!(chan.outbound[1], message_frame("alice", "hello"));
}

#[test]
fn send_on_closed_channel_reports_closed() {
    let mut chan = Channel::new();
    chan.set_connected(false);
    assert_eq!(chan.send(String::from("frame")), Err(SendError::Closed));
    assert!(chan.outbound.is_empty());
}

#[test]
fn two_sessions_observe_identical_logs() {
    let mut chan = Channel::new();
    let mut bus = MessageBus::new();
    let mut a = SessionState::new("alice", &mut chan, &mut bus);
    let mut b = SessionState::new("bob", &mut chan, &mut bus);
    chan.receive(&users_frame(&["alice", "bob"]), &mut bus);
    chan.receive(&message_frame("alice", "hi all"), &mut bus);
    a.pump(&mut bus);
    b.pump(&mut bus);
    assert_eq!(a.log.len(), 1);
    assert_eq!(b.log.len(), 1);
    assert_eq!(a.log[0].from, b.log[0].from);
    assert_eq!(a.log[0].body, b.log[0].body);
    assert_eq!(a.log[0].avatar, b.log[0].avatar);
    assert_eq!(a.roster.len(), b.roster.len());
}

#[test]
fn fan_out_reaches_every_live_subscriber_once() {
    let mut bus = MessageBus::new();
    let h1 = bus.subscribe();
    let h2 = bus.subscribe();
    let h3 = bus.subscribe();
    bus.unsubscribe(h2);
    bus.publish("frame-1");
    assert_eq!(bus.drain(h1), vec![String::from("frame-1")]);
    assert_eq!(bus.drain(h2), Vec::<String>::new());
    assert_eq!(bus.drain(h3), vec![String::from("frame-1")]);
    // a drained queue stays empty until the next publish
    assert_eq!(bus.drain(h1), Vec::<String>::new());
}

#[test]
fn unsubscribe_is_idempotent_and_tolerant() {
    let mut bus = MessageBus::new();
    let h = bus.subscribe();
    bus.unsubscribe(h);
    bus.unsubscribe(h);
    bus.unsubscribe(17);
    bus.publish("frame");
    assert_eq!(bus.drain(h), Vec::<String>::new());
}

#[test]
fn closing_a_session_stops_its_deliveries() {
    let mut chan = Channel::new();
    let mut bus = MessageBus::new();
    let mut a = SessionState::new("alice", &mut chan, &mut bus);
    let mut b = SessionState::new("bob", &mut chan, &mut bus);
    a.close(&mut bus);
    assert!(matches!(a.phase, Phase::Closed));
    chan.receive(&users_frame(&["alice", "bob"]), &mut bus);
    a.pump(&mut bus);
    b.pump(&mut bus);
    assert!(a.roster.is_empty());
    assert_eq!(b.roster.len(), 2);
}

#[test]
fn inbound_frames_are_recorded_in_arrival_order() {
    let mut chan = Channel::new();
    let mut bus = MessageBus::new();
    chan.receive("first", &mut bus);
    chan.receive("second", &mut bus);
    assert_eq!(chan.inbound, vec![String::from("first"), String::from("second")]);
}

#[test]
fn avatar_is_a_deterministic_function_of_the_name() {
    let p1 = make_profile("alice");
    let p2 = make_profile("alice");
    assert_eq!(p1.name, "alice");
    assert_eq!(p1.avatar, AVATAR_ALICE);
    assert_eq!(p1.avatar, p2.avatar);
}

#[test]
fn inbound_message_with_empty_body_is_still_logged() {
    let mut chan = Channel::new();
    let mut bus = MessageBus::new();
    let mut s = SessionState::new("dave", &mut chan, &mut bus);
    chan.receive(&message_frame("alice", ""), &mut bus);
    s.pump(&mut bus);
    assert_eq!(s.log.len(), 1);
    assert_eq!(s.log[0].body, "");
}
