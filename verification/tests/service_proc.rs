use direlera_rs::protocol::{KEEPALIVE, USER_LOGIN_INFO};
use direlera_rs::room::{KailleraError, UserRoom, IDLE};
use direlera_rs::service_server::service_proc;

/// A datagram of messages (sequence number, type, data), newest first.
fn datagram(msgs: &[(u16, u8, &[u8])]) -> Vec<u8> {
    let mut v = vec![msgs.len() as u8];
    for (seq, t, d) in msgs {
        v.extend_from_slice(&seq.to_le_bytes());
        v.extend_from_slice(&((d.len() + 1) as u16).to_le_bytes());
        v.push(*t);
        v.extend_from_slice(d);
    }
    v
}

#[test]
fn login_from_a_new_address_holds_the_user() {
    let mut st = UserRoom::new();
    let d = datagram(&[(0, USER_LOGIN_INFO, b"bob\0emu\0\x01")]);
    let p = service_proc(&mut st, 5, &d, 0).ok().unwrap();
    assert_eq!(p.header.header.message_type, USER_LOGIN_INFO);
    assert_eq!(p.data, b"bob\0emu\0\x01".to_vec());
    assert_eq!(st.users.len(), 1);
    assert_eq!(st.users[0].ip_addr, 5);
    assert_eq!(st.users[0].user_id, 1);
    assert_eq!(st.users[0].player_status, IDLE);
    assert_eq!(st.users[0].cur_seq, 1);
    assert_eq!(st.next_user_id, 1);
}

#[test]
fn unknown_address_needs_message_zero() {
    let mut st = UserRoom::new();
    let d = datagram(&[(1, KEEPALIVE, b"")]);
    match service_proc(&mut st, 5, &d, 0) {
        Err(KailleraError::NotFoundUser { message }) => assert_eq!(
            message,
            "Protocol { header: ProtocolSeqHeader { seq: 1, header: ProtocolPureHeader { length: 1, message_type: 9 } }, data: [] }"
        ),
        _ => panic!("expected NotFoundUser"),
    }
    let d = datagram(&[(7, KEEPALIVE, &[1, 20])]);
    match service_proc(&mut st, 5, &d, 0) {
        Err(KailleraError::NotFoundUser { message }) => assert!(message.ends_with("data: [1, 20] }")),
        _ => panic!("expected NotFoundUser"),
    }
    assert!(st.users.is_empty());
}

#[test]
fn other_message_from_a_new_address_is_not_kept() {
    let mut st = UserRoom::new();
    let d = datagram(&[(0, KEEPALIVE, b"")]);
    let p = service_proc(&mut st, 5, &d, 0).ok().unwrap();
    assert_eq!(p.header.header.message_type, KEEPALIVE);
    assert!(st.users.is_empty());
    assert_eq!(st.next_user_id, 0);
}

#[test]
fn messages_are_handled_in_sequence() {
    let mut st = UserRoom::new();
    service_proc(&mut st, 5, &datagram(&[(0, USER_LOGIN_INFO, b"a\0e\0\x01")]), 0).ok().unwrap();
    // message 2 arrives before 1: it waits
    let r = service_proc(&mut st, 5, &datagram(&[(2, KEEPALIVE, b"")]), 0);
    assert!(matches!(r, Err(KailleraError::NotFoundSeq { wanted_seq: 1, cur_seq: 9999 })));
    assert_eq!(st.users[0].in_packets.len(), 1);
    assert_eq!(st.users[0].cur_seq, 1);
    // message 1 (with 0 repeated): handled, 0 is stale and dropped
    let p = service_proc(&mut st, 5, &datagram(&[(1, KEEPALIVE, b"x"), (0, USER_LOGIN_INFO, b"a\0e\0\x01")]), 0)
        .ok()
        .unwrap();
    assert_eq!(p.header.seq, 1);
    assert_eq!(p.data, b"x".to_vec());
    assert_eq!(st.users[0].cur_seq, 2);
    // message 2 comes out of the store
    let p = service_proc(&mut st, 5, &datagram(&[(1, KEEPALIVE, b"x")]), 0).ok().unwrap();
    assert_eq!(p.header.seq, 2);
    assert_eq!(st.users[0].cur_seq, 3);
    assert_eq!(st.users[0].in_packets.len(), 0);
}
