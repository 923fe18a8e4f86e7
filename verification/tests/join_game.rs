use direlera_rs::protocol::{GAME_STATUS_PLAYING, GLOBAL_CHAT, JOIN_GAME, PLAYER_INFO, UPDATE_GAME_STATUS};
use direlera_rs::room::{KailleraError, PlayerAddr, Room, User, UserRoom, IDLE};
use direlera_rs::service_server::{join_game_step, Message};

fn user(addr: u64, id: u16, name: &[u8], ping: u32, conn: u8, room: Option<u32>) -> User {
    let mut u = User::new(addr, 0);
    u.user_id = id;
    u.name = name.to_vec();
    u.ping = ping;
    u.connect_type = conn;
    u.game_room_id = room;
    u
}

fn room(id: u32, players: Vec<PlayerAddr>, status: u8) -> Room {
    let mut r = Room::new();
    r.game_id = id;
    r.players = players;
    r.game_status = status;
    r
}

fn world(players: Vec<PlayerAddr>, status: u8) -> UserRoom {
    let mut st = UserRoom::new();
    st.users.push(user(1, 1, b"a", 10, 1, Some(7)));
    st.users.push(user(2, 2, b"b", 20, 2, None));
    st.rooms.push(room(7, players, status));
    st
}

fn triples(out: &[Message]) -> Vec<(u64, u8, Vec<u8>)> {
    out.iter().map(|m| (m.addr, m.message_type, m.data.clone())).collect()
}

const JOIN_7: [u8; 13] = [0, 7, 0, 0, 0, 0, 0, 0, 0, 0, 0, 0, 2];

#[test]
fn join_waiting_room() {
    let mut st = world(vec![PlayerAddr::Idle(1)], 0);
    let mut out = Vec::new();
    assert!(join_game_step(&mut st, &mut out, &JOIN_7, 2).is_ok());
    assert_eq!(st.rooms[0].players, vec![PlayerAddr::Idle(1), PlayerAddr::Idle(2)]);
    assert_eq!(st.users[1].game_room_id, Some(7));
    let status = vec![0, 7, 0, 0, 0, 0, 2, 4];
    let join = vec![0, 7, 0, 0, 0, b'b', 0, 20, 0, 0, 0, 2, 0, 2];
    assert_eq!(
        triples(&out),
        vec![
            (1, UPDATE_GAME_STATUS, status.clone()),
            (2, UPDATE_GAME_STATUS, status),
            (
                2,
                PLAYER_INFO,
                vec![0, 1, 0, 0, 0, b'a', 0, 10, 0, 0, 0, 1, 0, 1, b'b', 0, 20, 0, 0, 0, 2, 0, 2]
            ),
            (1, JOIN_GAME, join.clone()),
            (2, JOIN_GAME, join),
        ]
    );
}

#[test]
fn join_reads_game_id_little_endian() {
    let mut st = world(vec![PlayerAddr::Idle(1)], 0);
    st.rooms[0].game_id = 0x0403_0201;
    let mut out = Vec::new();
    assert!(join_game_step(&mut st, &mut out, &[0, 1, 2, 3, 4], 2).is_ok());
    assert_eq!(st.users[1].game_room_id, Some(0x0403_0201));
    assert_eq!(out[0].data, vec![0, 1, 2, 3, 4, 0, 2, 4]);
}

#[test]
fn join_when_already_in_a_room() {
    let mut st = world(vec![PlayerAddr::Idle(1)], 0);
    let mut out = Vec::new();
    let r = join_game_step(&mut st, &mut out, &JOIN_7, 1);
    match r {
        Err(KailleraError::AlreadyError { message }) => assert_eq!(message, "already has room."),
        _ => panic!("expected AlreadyError"),
    }
    assert_eq!(
        triples(&out),
        vec![(1, GLOBAL_CHAT, b"Server\0You are already joining the room.\0".to_vec())]
    );
    assert_eq!(st.rooms[0].players, vec![PlayerAddr::Idle(1)]);
}

#[test]
fn join_unknown_room() {
    let mut st = world(vec![PlayerAddr::Idle(1)], 0);
    let mut out = Vec::new();
    let r = join_game_step(&mut st, &mut out, &[0, 8, 0, 0, 0], 2);
    assert!(matches!(r, Err(KailleraError::NotFound)));
    assert!(out.is_empty());
    assert_eq!(st.users[1].game_room_id, None);
    assert_eq!(r.err().unwrap().to_text(), "notfound error");
}

#[test]
fn join_room_that_is_playing() {
    let mut st = world(vec![PlayerAddr::Playing(1)], GAME_STATUS_PLAYING);
    let mut out = Vec::new();
    match join_game_step(&mut st, &mut out, &JOIN_7, 2) {
        Err(KailleraError::GameStatusError { message }) => assert_eq!(message, "game is playing"),
        _ => panic!("expected GameStatusError"),
    }
    assert!(out.is_empty());
    assert_eq!(st.rooms[0].players, vec![PlayerAddr::Playing(1)]);
}

#[test]
fn join_skips_seats_left_during_a_game() {
    let mut st = world(vec![PlayerAddr::Idle(1), PlayerAddr::Empty], 0);
    let mut out = Vec::new();
    assert!(join_game_step(&mut st, &mut out, &JOIN_7, 2).is_ok());
    assert_eq!(st.rooms[0].player_some_count(), 2);
    assert_eq!(out[0].data, vec![0, 7, 0, 0, 0, 0, 2, 4]);
    assert_eq!(out[2].data[..5], [0, 2, 0, 0, 0]);
    assert_eq!(out.iter().filter(|m| m.message_type == JOIN_GAME).count(), 2);
}

#[test]
fn join_by_address_not_logged_in() {
    let mut st = world(vec![PlayerAddr::Idle(1)], 0);
    let mut out = Vec::new();
    let r = join_game_step(&mut st, &mut out, &JOIN_7, 3);
    assert!(matches!(r, Err(KailleraError::NotFound)));
    assert_eq!(st.rooms[0].players, vec![PlayerAddr::Idle(1), PlayerAddr::Idle(3)]);
    assert_eq!(out.len(), 2);
    assert!(out.iter().all(|m| m.message_type == UPDATE_GAME_STATUS));
}

#[test]
fn new_user_and_room() {
    let u = User::new(9, 0);
    assert_eq!(u.name, vec![0u8]);
    assert_eq!(u.player_status, IDLE);
    assert_eq!(u.game_room_id, None);
    let r = Room::new();
    assert_eq!(r.player_some_count(), 0);
    let st = UserRoom::new();
    assert!(st.get_room(7).is_err());
    assert!(st.get_user(9).is_err());
    let w = world(vec![PlayerAddr::Idle(1)], 0);
    assert_eq!(w.get_user(2).ok().unwrap().user_id, 2);
    assert_eq!(w.get_room(7).ok().unwrap().players.len(), 1);
}
