use chat_relay::codec::{decode, decode_meta, encode, encode_meta, Envelope, MessageMeta};

fn reg(name: &[u8]) -> Envelope {
    Envelope::Register { name: name.to_vec() }
}

fn msg(payload: &[u8]) -> Envelope {
    Envelope::Message { payload: payload.to_vec() }
}

fn users(names: &[&[u8]]) -> Envelope {
    Envelope::Users { names: names.iter().map(|n| n.to_vec()).collect() }
}

#[test]
fn encode_register_exact() {
    let frame = encode(&reg(b"alice"));
    assert_eq!(
        frame,
        b"{\"messageType\":\"register\",\"data\":\"alice\",\"dataArray\":null}".to_vec()
    );
}

#[test]
fn encode_message_exact() {
    let frame = encode(&msg(b"hi"));
    assert_eq!(
        frame,
        b"{\"messageType\":\"message\",\"data\":\"hi\",\"dataArray\":null}".to_vec()
    );
}

#[test]
fn encode_users_exact() {
    let frame = encode(&users(&[b"alice", b"bob"]));
    assert_eq!(
        frame,
        b"{\"messageType\":\"users\",\"data\":null,\"dataArray\":[\"alice\",\"bob\"]}".to_vec()
    );
}

#[test]
fn encode_users_empty_exact() {
    let frame = encode(&users(&[]));
    assert_eq!(
        frame,
        b"{\"messageType\":\"users\",\"data\":null,\"dataArray\":[]}".to_vec()
    );
}

#[test]
fn encode_meta_exact() {
    let m = MessageMeta { from: b"alice".to_vec(), message: b"hi".to_vec(), time: 1700000000123 };
    assert_eq!(
        encode_meta(&m),
        b"{\"from\":\"alice\",\"message\":\"hi\",\"time\":1700000000123}".to_vec()
    );
}

#[test]
fn round_trip_register() {
    let e = reg(b"alice");
    assert_eq!(decode(&encode(&e)), Some(e));
}

#[test]
fn round_trip_register_empty_name() {
    let e = reg(b"");
    assert_eq!(decode(&encode(&e)), Some(e));
}

#[test]
fn round_trip_message() {
    let e = msg(b"hello there");
    assert_eq!(decode(&encode(&e)), Some(e));
}

#[test]
fn round_trip_users_variants() {
    for e in [users(&[]), users(&[b"a"]), users(&[b"a", b"b", b"c"]), users(&[b"", b""])] {
        assert_eq!(decode(&encode(&e)), Some(e));
    }
}

#[test]
fn round_trip_with_escaped_bytes() {
    let e = reg(b"quote\" back\\slash");
    assert_eq!(decode(&encode(&e)), Some(e));
    let e2 = users(&[b"a\"b", b"c\\d"]);
    assert_eq!(decode(&encode(&e2)), Some(e2));
}

#[test]
fn round_trip_meta() {
    let m = MessageMeta { from: b"bo\"b".to_vec(), message: b"hi\\there".to_vec(), time: 0 };
    assert_eq!(decode_meta(&encode_meta(&m)), Some(m));
}

#[test]
fn round_trip_meta_largest_time() {
    let m = MessageMeta { from: b"a".to_vec(), message: b"m".to_vec(), time: u64::MAX };
    assert_eq!(decode_meta(&encode_meta(&m)), Some(m));
}

#[test]
fn decode_rejects_garbage() {
    assert_eq!(decode(&b"not json at all".to_vec()), None);
    assert_eq!(decode(&b"".to_vec()), None);
    assert_eq!(decode(&b"{\"messageType\":\"banana\",\"data\":\"x\"}".to_vec()), None);
}

#[test]
fn decode_rejects_truncated() {
    let mut frame = encode(&reg(b"alice"));
    frame.pop();
    assert_eq!(decode(&frame), None);
}

#[test]
fn decode_rejects_trailing_bytes() {
    let mut frame = encode(&reg(b"alice"));
    frame.push(b' ');
    assert_eq!(decode(&frame), None);
}

#[test]
fn decode_rejects_bad_escape() {
    assert_eq!(
        decode(&b"{\"messageType\":\"register\",\"data\":\"a\\qb\",\"dataArray\":null}".to_vec()),
        None
    );
}

#[test]
fn decode_meta_rejects_overflowing_time() {
    assert_eq!(
        decode_meta(&b"{\"from\":\"a\",\"message\":\"m\",\"time\":18446744073709551616}".to_vec()),
        None
    );
}

#[test]
fn decode_meta_rejects_missing_field() {
    assert_eq!(decode_meta(&b"{\"from\":\"a\",\"time\":1}".to_vec()), None);
}
