use direlera_rs::protocol::{
    Protocol, GAME_CHAT, GLOBAL_CHAT, S2C_ACK, SERVER_INFO, USER_JOIN, USER_QUIT, USER_SERVER_STATUS,
};
use direlera_rs::room::{KailleraError, PlayerAddr, Room, ServiceError, User, UserRoom};
use direlera_rs::service_lobby::{
    ack_finish, ack_step, game_chat_step, global_chat_step, keepalive_step, user_login_step, user_quit_step,
};
use direlera_rs::service_server::Message;

fn user(addr: u64, name: &[u8], ping: u32, conn: u8) -> User {
    let mut u = User::new(addr, 0);
    u.user_id = addr as u16;
    u.name = name.to_vec();
    u.ping = ping;
    u.connect_type = conn;
    u
}

fn two_users() -> UserRoom {
    let mut st = UserRoom::new();
    st.users.push(user(1, b"a", 10, 1));
    st.users.push(user(2, b"b", 50, 2));
    st
}

fn triples(out: &[Message]) -> Vec<(u64, u8, Vec<u8>)> {
    out.iter().map(|m| (m.addr, m.message_type, m.data.clone())).collect()
}

fn is_not_found(r: &Result<(), ServiceError>) -> bool {
    matches!(r, Err(ServiceError::Kaillera(KailleraError::NotFound)))
}

fn ack_body() -> Vec<u8> {
    vec![0, 0, 0, 0, 0, 1, 0, 0, 0, 2, 0, 0, 0, 3, 0, 0, 0]
}

#[test]
fn server_status_lists_the_others_and_the_rooms() {
    let mut st = two_users();
    let mut r = Room::new();
    r.game_name = "g".to_string();
    r.game_id = 7;
    r.emul_name = "e".to_string();
    r.creator_id = "a".to_string();
    r.players = vec![PlayerAddr::Idle(1), PlayerAddr::Empty];
    st.rooms.push(r);
    let mut want = vec![0, 1, 0, 0, 0, 1, 0, 0, 0];
    want.extend_from_slice(b"b\0");
    want.extend_from_slice(&[50, 0, 0, 0, 1, 2, 0, 2]);
    want.extend_from_slice(b"g\0");
    want.extend_from_slice(&[7, 0, 0, 0]);
    want.extend_from_slice(b"e\0a\x001/4\0");
    want.push(0);
    assert_eq!(st.server_status(1), want);
}

#[test]
fn framing_resends_the_newest_messages_first() {
    let mut u = user(1, b"a", 0, 1);
    let d = u.make_send_packet(Protocol::new(7, vec![1, 2])).ok().unwrap();
    assert_eq!(d, vec![1, 0, 0, 3, 0, 7, 1, 2]);
    let d = u.make_send_packet(Protocol::new(8, vec![])).ok().unwrap();
    assert_eq!(d, vec![2, 1, 0, 1, 0, 8, 0, 0, 3, 0, 7, 1, 2]);
    assert_eq!(u.send_count, 2);
    assert_eq!(u.out_packets.len(), 2);
    u.make_send_packet(Protocol::new(9, vec![])).ok().unwrap();
    let d = u.make_send_packet(Protocol::new(10, vec![])).ok().unwrap();
    assert_eq!(d[0], 3);
    assert_eq!(&d[1..6], &[3, 0, 1, 0, 10]);
}

#[test]
fn login_takes_the_fields_and_asks_for_an_ack() {
    let mut st = two_users();
    let mut out = Vec::new();
    assert!(user_login_step(&mut st, &mut out, b"bob\0emu\0\x03", 2, 100).is_ok());
    assert_eq!(st.users[1].name, b"bob".to_vec());
    assert_eq!(st.users[1].emul_name, "emu");
    assert_eq!(st.users[1].connect_type, 3);
    assert_eq!(st.users[1].s2c_ack_time, 100);
    assert_eq!(triples(&out), vec![(2, S2C_ACK, ack_body())]);
}

#[test]
fn login_with_missing_fields_is_not_found() {
    let mut st = two_users();
    let mut out = Vec::new();
    assert!(is_not_found(&user_login_step(&mut st, &mut out, b"bob", 2, 100)));
    assert!(is_not_found(&user_login_step(&mut st, &mut out, b"bob\0emu", 2, 100)));
    assert!(is_not_found(&user_login_step(&mut st, &mut out, b"bob\0emu\0\x01", 9, 100)));
    assert!(out.is_empty());
    assert_eq!(st.users[1].name, b"b".to_vec());
}

#[test]
fn quit_tells_everyone_and_forgets_the_user() {
    let mut st = two_users();
    let mut out = Vec::new();
    assert!(user_quit_step(&mut st, &mut out, b"\0\0\0bye", 1).is_ok());
    let body = b"a\0\x01\x00bye\0".to_vec();
    assert_eq!(triples(&out), vec![(1, USER_QUIT, body.clone()), (2, USER_QUIT, body)]);
    assert_eq!(st.users.len(), 1);
    assert_eq!(st.users[0].ip_addr, 2);
    assert!(is_not_found(&user_quit_step(&mut st, &mut out, b"\0\0\0", 1)));
}

#[test]
fn keepalive_drops_users_silent_for_four_minutes() {
    let mut st = two_users();
    st.users[1].keepalive_time = 300000;
    let mut out = Vec::new();
    assert!(keepalive_step(&mut st, &mut out, 300000).is_ok());
    let body = b"a\0\x01\x00time out\0".to_vec();
    assert_eq!(triples(&out), vec![(1, USER_QUIT, body.clone()), (2, USER_QUIT, body)]);
    assert_eq!(st.users.len(), 1);
    out.clear();
    assert!(keepalive_step(&mut st, &mut out, 540000).is_ok());
    assert!(out.is_empty());
    assert_eq!(st.users.len(), 1);
}

#[test]
fn global_chat_goes_to_everyone() {
    let st = two_users();
    let mut out = Vec::new();
    assert!(global_chat_step(&st, &mut out, b"\0hi\0", 1, "state").is_ok());
    let body = b"a\0hi\0\0".to_vec();
    assert_eq!(triples(&out), vec![(1, GLOBAL_CHAT, body.clone()), (2, GLOBAL_CHAT, body)]);
    assert!(is_not_found(&global_chat_step(&st, &mut out, b"\0hi\0", 9, "state")));
}

#[test]
fn global_chat_ts_sends_the_state_lines() {
    let st = two_users();
    let mut out = Vec::new();
    assert!(global_chat_step(&st, &mut out, b"\0ts\0", 2, "x\n\ny\n").is_ok());
    let body = b"b\0ts\0\0".to_vec();
    assert_eq!(
        triples(&out),
        vec![
            (1, GLOBAL_CHAT, body.clone()),
            (2, GLOBAL_CHAT, body),
            (1, GLOBAL_CHAT, b"b\0x\0".to_vec()),
            (1, GLOBAL_CHAT, b"b\0y\0".to_vec()),
            (2, GLOBAL_CHAT, b"b\0x\0".to_vec()),
            (2, GLOBAL_CHAT, b"b\0y\0".to_vec()),
        ]
    );
}

fn in_room(players: Vec<PlayerAddr>) -> UserRoom {
    let mut st = two_users();
    st.users[0].game_room_id = Some(7);
    st.users[1].game_room_id = Some(7);
    let mut r = Room::new();
    r.game_id = 7;
    r.players = players;
    st.rooms.push(r);
    st
}

#[test]
fn game_chat_goes_to_the_seats_and_sets_same_delay() {
    let mut st = in_room(vec![PlayerAddr::Idle(1), PlayerAddr::Idle(2)]);
    let mut out = Vec::new();
    assert!(game_chat_step(&mut st, &mut out, b"\0/samedelay true\0", 1).is_ok());
    assert!(st.rooms[0].same_delay);
    let body = b"a\0/samedelay true\0\0".to_vec();
    assert_eq!(triples(&out), vec![(1, GAME_CHAT, body.clone()), (2, GAME_CHAT, body)]);
    out.clear();
    assert!(game_chat_step(&mut st, &mut out, b"\0/samedelay false\0", 2).is_ok());
    assert!(!st.rooms[0].same_delay);
    assert!(game_chat_step(&mut st, &mut out, b"\0hello\0", 2).is_ok());
    assert!(!st.rooms[0].same_delay);
}

#[test]
fn game_chat_stops_at_a_seat_no_one_holds() {
    let mut st = in_room(vec![PlayerAddr::Idle(1), PlayerAddr::Idle(5), PlayerAddr::Idle(2)]);
    let mut out = Vec::new();
    assert!(is_not_found(&game_chat_step(&mut st, &mut out, b"\0x", 1)));
    assert_eq!(triples(&out), vec![(1, GAME_CHAT, b"a\0x\0".to_vec())]);
    st.users[0].game_room_id = None;
    assert!(is_not_found(&game_chat_step(&mut st, &mut out, b"\0x", 1)));
}

#[test]
fn early_acks_ask_again() {
    let mut st = two_users();
    st.users[0].s2c_ack_time = 100;
    let mut out = Vec::new();
    assert!(ack_step(&mut st, &mut out, 1, 130, false, "", "0.1").is_ok());
    assert_eq!(st.users[0].pings, vec![30]);
    assert_eq!(st.users[0].s2c_ack_time, 130);
    assert_eq!(triples(&out), vec![(1, S2C_ACK, ack_body())]);
}

#[test]
fn later_acks_set_the_average_ping_and_welcome_the_user() {
    let mut st = two_users();
    st.users[0].send_count = 5;
    st.users[0].pings = vec![10, 20];
    let mut out = Vec::new();
    assert!(ack_step(&mut st, &mut out, 1, 30, false, "hello", "0.1").is_ok());
    assert_eq!(st.users[0].pings, vec![10, 20, 30]);
    assert_eq!(st.users[0].ping, 20);
    let mut status = vec![0, 1, 0, 0, 0, 0, 0, 0, 0];
    status.extend_from_slice(b"b\0");
    status.extend_from_slice(&[50, 0, 0, 0, 1, 2, 0, 2]);
    let join = b"a\0\x01\x00\x14\x00\x00\x00\x01".to_vec();
    let info = b"Server\0hello\ndirelera version: 0.1\0".to_vec();
    assert_eq!(
        triples(&out),
        vec![
            (1, USER_SERVER_STATUS, status),
            (1, USER_JOIN, join.clone()),
            (2, USER_JOIN, join),
            (1, SERVER_INFO, info),
        ]
    );
}

#[test]
fn a_chosen_ping_replaces_the_average() {
    let mut st = two_users();
    st.users[0].send_count = 5;
    st.users[0].pings = vec![-50];
    let mut out = Vec::new();
    assert!(ack_finish(&mut st, &mut out, 1, 0, Some(42), "", "0.1").is_ok());
    assert_eq!(st.users[0].ping, 42);
    let mut st = two_users();
    st.users[0].send_count = 5;
    st.users[0].pings = vec![-50];
    assert!(ack_finish(&mut st, &mut out, 1, 0, None, "", "0.1").is_ok());
    assert_eq!(st.users[0].ping, 0);
    let mut st = two_users();
    st.users[0].send_count = 5;
    assert!(ack_step(&mut st, &mut out, 1, 0, true, "", "0.1").is_ok());
    assert!(st.users[0].ping < 100);
    assert!(is_not_found(&ack_step(&mut st, &mut out, 9, 0, false, "", "0.1")));
}
