use chat_relay::clock::current_time;
use chat_relay::codec::{decode, decode_meta, encode, Envelope};
use chat_relay::server::{make_guest_name, ChatServer, Session};

fn drain(server: &mut ChatServer, id: u64) -> Vec<Vec<u8>> {
    let mut out = Vec::new();
    while let Some(f) = server.next_outbound(id) {
        out.push(f);
    }
    out
}

fn register_frame(name: &[u8]) -> Vec<u8> {
    encode(&Envelope::Register { name: name.to_vec() })
}

fn message_frame(text: &[u8]) -> Vec<u8> {
    encode(&Envelope::Message { payload: text.to_vec() })
}

fn users_names(frame: &Vec<u8>) -> Option<Vec<Vec<u8>>> {
    match decode(frame) {
        Some(Envelope::Users { names }) => Some(names),
        _ => None,
    }
}

fn last_users_names(frames: &[Vec<u8>]) -> Vec<Vec<u8>> {
    frames.iter().rev().find_map(users_names).expect("no users broadcast found")
}

#[test]
fn guest_name_is_derived_from_identity() {
    let mut server = ChatServer::new(8);
    let session = server.connect(1234);
    assert_eq!(session.name, b"guest-1234".to_vec());
    assert_eq!(make_guest_name(0), b"guest-0".to_vec());
}

#[test]
fn register_broadcasts_roster_to_everyone() {
    let mut server = ChatServer::new(8);
    let mut s1 = server.connect(1);
    let _s2 = server.connect(2);
    server.handle_frame(&mut s1, &register_frame(b"alice"), 0);
    assert_eq!(s1.name, b"alice".to_vec());
    let f1 = drain(&mut server, 1);
    let f2 = drain(&mut server, 2);
    assert_eq!(last_users_names(&f1), vec![b"alice".to_vec()]);
    assert_eq!(last_users_names(&f2), vec![b"alice".to_vec()]);
}

#[test]
fn message_carries_sender_name_text_and_time() {
    let mut server = ChatServer::new(8);
    let mut s1 = server.connect(1);
    let mut s2 = server.connect(2);
    server.handle_frame(&mut s1, &register_frame(b"alice"), 0);
    drain(&mut server, 1);
    drain(&mut server, 2);
    server.handle_frame(&mut s1, &message_frame(b"hi"), 41);
    server.handle_frame(&mut s1, &message_frame(b"again"), 42);
    let delivered = drain(&mut server, 2);
    assert_eq!(delivered.len(), 2);
    let mut times = Vec::new();
    for (frame, want_text) in delivered.iter().zip([b"hi".to_vec(), b"again".to_vec()]) {
        match decode(frame) {
            Some(Envelope::Message { payload }) => {
                let meta = decode_meta(&payload).expect("nested metadata must decode");
                assert_eq!(meta.from, b"alice".to_vec());
                assert_eq!(meta.message, want_text);
                times.push(meta.time);
            }
            other => panic!("expected a message envelope, got {:?}", other),
        }
    }
    assert!(times[0] <= times[1]);
    assert_eq!(times, vec![41, 42]);
    // a message from an unregistered session carries its guest name
    server.handle_frame(&mut s2, &message_frame(b"yo"), 43);
    let f1 = drain(&mut server, 1);
    let meta = match decode(f1.last().unwrap()) {
        Some(Envelope::Message { payload }) => decode_meta(&payload).unwrap(),
        other => panic!("expected a message envelope, got {:?}", other),
    };
    assert_eq!(meta.from, b"guest-2".to_vec());
}

#[test]
fn disconnect_removes_exactly_one_entry_and_is_idempotent() {
    let mut server = ChatServer::new(8);
    let mut s1 = server.connect(1);
    let mut s2 = server.connect(2);
    server.handle_frame(&mut s1, &register_frame(b"alice"), 0);
    server.handle_frame(&mut s2, &register_frame(b"bob"), 0);
    drain(&mut server, 1);
    drain(&mut server, 2);
    server.disconnect(1);
    let after = drain(&mut server, 2);
    assert_eq!(last_users_names(&after), vec![b"bob".to_vec()]);
    // a second teardown (e.g. a receive error racing a close) changes nothing
    server.disconnect(1);
    let again = drain(&mut server, 2);
    assert_eq!(last_users_names(&again), vec![b"bob".to_vec()]);
}

#[test]
fn malformed_frame_is_ignored_and_session_stays_usable() {
    let mut server = ChatServer::new(8);
    let mut s1 = server.connect(1);
    let mut s2 = server.connect(2);
    server.handle_frame(&mut s1, &register_frame(b"alice"), 0);
    drain(&mut server, 1);
    drain(&mut server, 2);
    server.handle_frame(&mut s1, &b"}}} not a frame {{{".to_vec(), 7);
    server.handle_frame(&mut s2, &b"".to_vec(), 7);
    assert_eq!(drain(&mut server, 1), Vec::<Vec<u8>>::new());
    assert_eq!(drain(&mut server, 2), Vec::<Vec<u8>>::new());
    assert_eq!(s1.name, b"alice".to_vec());
    // both sessions still work afterwards
    server.handle_frame(&mut s1, &message_frame(b"still here"), 8);
    let got = drain(&mut server, 2);
    assert_eq!(got.len(), 1);
    assert!(matches!(decode(&got[0]), Some(Envelope::Message { .. })));
}

#[test]
fn same_display_name_twice_both_listed() {
    let mut server = ChatServer::new(8);
    let mut s1 = server.connect(1);
    let mut s2 = server.connect(2);
    server.handle_frame(&mut s1, &register_frame(b"alice"), 0);
    server.handle_frame(&mut s2, &register_frame(b"alice"), 0);
    let frames = drain(&mut server, 1);
    assert_eq!(last_users_names(&frames), vec![b"alice".to_vec(), b"alice".to_vec()]);
    drain(&mut server, 2);
    // both stay connected and can still send
    server.handle_frame(&mut s1, &message_frame(b"one"), 1);
    server.handle_frame(&mut s2, &message_frame(b"two"), 2);
    assert_eq!(drain(&mut server, 2).len(), 2);
}

#[test]
fn stalled_subscriber_drops_oldest_but_blocks_nobody() {
    let mut server = ChatServer::new(2);
    let mut s1 = server.connect(1);
    let _stalled = server.connect(2);
    server.handle_frame(&mut s1, &register_frame(b"alice"), 0);
    drain(&mut server, 1);
    // the stalled session (2) never reads; the active one keeps draining
    server.handle_frame(&mut s1, &message_frame(b"m1"), 1);
    assert_eq!(drain(&mut server, 1).len(), 1);
    server.handle_frame(&mut s1, &message_frame(b"m2"), 2);
    assert_eq!(drain(&mut server, 1).len(), 1);
    server.handle_frame(&mut s1, &message_frame(b"m3"), 3);
    assert_eq!(drain(&mut server, 1).len(), 1);
    // the stalled queue kept only the newest two, in publish order
    let left: Vec<_> = drain(&mut server, 2)
        .iter()
        .map(|f| match decode(f) {
            Some(Envelope::Message { payload }) => decode_meta(&payload).unwrap().message,
            other => panic!("expected a message envelope, got {:?}", other),
        })
        .collect();
    assert_eq!(left, vec![b"m2".to_vec(), b"m3".to_vec()]);
}

#[test]
fn roster_broadcast_tracks_every_membership_change() {
    let mut server = ChatServer::new(16);
    let mut sessions: Vec<Session> = (1..=3u64).map(|id| server.connect(id)).collect();
    let names: [&[u8]; 3] = [b"a", b"b", b"c"];
    for (s, n) in sessions.iter_mut().zip(names) {
        server.handle_frame(s, &register_frame(n), 0);
    }
    let frames = drain(&mut server, 1);
    // one users broadcast per membership change, each reflecting the roster
    let snapshots: Vec<_> = frames.iter().filter_map(users_names).collect();
    assert_eq!(
        snapshots,
        vec![
            vec![b"a".to_vec()],
            vec![b"a".to_vec(), b"b".to_vec()],
            vec![b"a".to_vec(), b"b".to_vec(), b"c".to_vec()],
        ]
    );
    server.disconnect(2);
    let final_names = last_users_names(&drain(&mut server, 1));
    assert_eq!(final_names, vec![b"a".to_vec(), b"c".to_vec()]);
}

#[test]
fn re_register_overwrites_own_entry() {
    let mut server = ChatServer::new(8);
    let mut s1 = server.connect(1);
    server.handle_frame(&mut s1, &register_frame(b"alice"), 0);
    server.handle_frame(&mut s1, &register_frame(b"alicia"), 0);
    assert_eq!(s1.name, b"alicia".to_vec());
    assert_eq!(last_users_names(&drain(&mut server, 1)), vec![b"alicia".to_vec()]);
}

#[test]
fn clock_readings_feed_message_timestamps() {
    let t = current_time();
    let mut server = ChatServer::new(8);
    let mut s1 = server.connect(1);
    let _s2 = server.connect(2);
    server.handle_frame(&mut s1, &message_frame(b"now"), t);
    let got = drain(&mut server, 2);
    match decode(&got[0]) {
        Some(Envelope::Message { payload }) => {
            assert_eq!(decode_meta(&payload).unwrap().time, t);
        }
        other => panic!("expected a message envelope, got {:?}", other),
    }
}
