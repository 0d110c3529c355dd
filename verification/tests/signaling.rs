use rcof::address::{Endpoint, Ip};
use rcof::session::SdpKind;
use rcof::signaling::{
    check_address, join_url, session_url, valid_name, ApiError, Description, Join, Rooms,
};

fn req(id: &str) -> Join {
    Join { room: "test".into(), id: id.into() }
}

const SECOND: u64 = 1_000_000_000;

#[test]
fn room_limits_and_expiry() {
    let mut r = Rooms::new();
    let now = 100 * SECOND;
    let a = r.join(req("a"), now).unwrap();
    assert_eq!(r.join(req("a"), now).err().unwrap().status(), 409);
    r.join(req("b"), now).unwrap();
    assert!(r.join(req("c"), now).is_err());
    r.members
        .iter_mut()
        .find(|m| m.token == a.token)
        .unwrap()
        .last_seen = now - 11 * SECOND;
    r.join(req("c"), now).unwrap();
    assert!(r.join(req("../invalid"), now).is_err());
}

#[test]
fn tokens_are_fresh_and_well_formed() {
    let mut r = Rooms::new();
    let a = r.join(req("a"), 0).unwrap().token;
    let b = r.join(req("b"), 0).unwrap().token;
    assert_ne!(a, b);
    assert_eq!(a.len(), 36);
    assert_eq!(a.matches('-').count(), 4);
    assert_eq!(&a[14..15], "4");
    assert!("89ab".contains(&a[19..20]));
}

fn offer(sdp: &str) -> Description {
    Description { kind: SdpKind::Offer, sdp: sdp.into() }
}

#[test]
fn messages_reach_the_other_participant_once_and_in_order() {
    let mut r = Rooms::new();
    r.join_with_token(req("a"), "ta".into(), 0).unwrap();
    assert_eq!(r.signal("ta", offer("x"), 0), Err(ApiError::PeerLeft));
    assert!(r.poll("ta", 0).unwrap().peer.is_none());
    r.join_with_token(req("b"), "tb".into(), 0).unwrap();
    assert_eq!(r.poll("ta", 0).unwrap().peer.as_deref(), Some("b"));
    r.signal("ta", offer("one"), 0).unwrap();
    r.signal("ta", offer("two"), 0).unwrap();
    assert!(r.poll("ta", 0).unwrap().messages.is_empty());
    let poll = r.poll("tb", 0).unwrap();
    assert_eq!(poll.peer.as_deref(), Some("a"));
    let texts: Vec<&str> = poll.messages.iter().map(|m| m.sdp.as_str()).collect();
    assert_eq!(texts, vec!["one", "two"]);
    assert_eq!(poll.messages[0].kind, SdpKind::Offer);
    assert!(r.poll("tb", 0).unwrap().messages.is_empty());
    for _ in 0..8 {
        r.signal("ta", offer("more"), 0).unwrap();
    }
    assert_eq!(r.signal("ta", offer("more"), 0), Err(ApiError::QueueFull));
}

#[test]
fn who_leaves_or_falls_silent_is_forgotten() {
    let mut r = Rooms::new();
    r.join_with_token(req("a"), "ta".into(), 0).unwrap();
    r.join_with_token(req("b"), "tb".into(), 0).unwrap();
    r.leave("tb");
    r.leave("nobody");
    assert!(matches!(r.poll("tb", 0), Err(ApiError::SessionGone)));
    assert_eq!(r.signal("tb", offer("x"), 0), Err(ApiError::UnknownSession));
    assert!(r.poll("ta", 10 * SECOND - 1).is_ok());
    // A poll renews the lifetime.
    assert!(r.poll("ta", 20 * SECOND - 2).is_ok());
    assert!(r.poll("ta", 30 * SECOND - 2).is_err());
    assert!(r.members.is_empty());
}

#[test]
fn server_takes_thirty_two() {
    let mut r = Rooms::new();
    for i in 0..32 {
        let join = Join { room: format!("room{i}"), id: "a".into() };
        r.join_with_token(join, format!("t{i}"), 0).unwrap();
    }
    let join = Join { room: "more".into(), id: "a".into() };
    let error = r.join_with_token(join, "t".into(), 0).err().unwrap();
    assert_eq!(error, ApiError::ServerFull);
    assert_eq!(error.status(), 503);
    assert_eq!(error.message(), "local server is full");
}

#[test]
fn names_are_plain() {
    assert!(valid_name("a-B_9"));
    assert!(valid_name(&"x".repeat(48)));
    assert!(!valid_name(&"x".repeat(49)));
    assert!(!valid_name("") && !valid_name("a b") && !valid_name("ä") && !valid_name("a/b"));
    let mut r = Rooms::new();
    let error = r.join(Join { room: "".into(), id: "a".into() }, 0).err().unwrap();
    assert_eq!(error.status(), 400);
    assert_eq!(ApiError::SessionGone.status(), 404);
    assert_eq!(ApiError::QueueFull.status(), 429);
}

#[test]
fn server_stays_on_the_host() {
    assert!(check_address(Endpoint { ip: Ip::V4(0x7f00_0001), port: 0 }).is_ok());
    assert!(check_address(Endpoint { ip: Ip::V4(0x7fff_ffff), port: 1 }).is_ok());
    assert!(check_address(Endpoint { ip: Ip::V4(0x0a00_0001), port: 1 }).is_err());
    assert!(check_address(Endpoint { ip: Ip::V6(1), port: 1 }).is_err());
    assert_eq!(join_url("127.0.0.1:8790"), "http://127.0.0.1:8790/join");
    assert_eq!(session_url("127.0.0.1:8790", "t"), "http://127.0.0.1:8790/session/t");
}

#[test]
fn eight_messages_come_in_order_whatever_else_is_asked() {
    let mut r = Rooms::new();
    r.join_with_token(req("a"), "ta".into(), 0).unwrap();
    r.join_with_token(req("b"), "tb".into(), 0).unwrap();
    r.signal("tb", offer("back"), 0).unwrap();
    for i in 0..8u64 {
        r.signal("ta", offer(&i.to_string()), i * SECOND).unwrap();
        let join = Join { room: format!("room{i}"), id: "x".into() };
        r.join_with_token(join, format!("t{i}"), i * SECOND).unwrap();
        // The sender's own inbox is handed out to the sender alone.
        assert_eq!(r.poll("ta", i * SECOND).unwrap().messages.len(), usize::from(i == 0));
    }
    let poll = r.poll("tb", 9 * SECOND).unwrap();
    assert_eq!(poll.peer.as_deref(), Some("a"));
    let texts: Vec<&str> = poll.messages.iter().map(|m| m.sdp.as_str()).collect();
    assert_eq!(texts, vec!["0", "1", "2", "3", "4", "5", "6", "7"]);
    assert!(r.poll("tb", 9 * SECOND).unwrap().messages.is_empty());
}
