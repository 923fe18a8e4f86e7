use direlera_rs::protocol::{CREATE_GAME, GAME_CHAT, GLOBAL_CHAT, JOIN_GAME, SERVER_INFO, UPDATE_GAME_STATUS};
use direlera_rs::room::{KailleraError, PlayerAddr, Room, User, UserRoom};
use direlera_rs::service_server::{create_game_step, Message};

fn world() -> UserRoom {
    let mut st = UserRoom::new();
    let mut a = User::new(1, 0);
    a.user_id = 1;
    a.name = b"a".to_vec();
    a.ping = 10;
    a.connect_type = 1;
    a.game_room_id = Some(7);
    let mut b = User::new(2, 0);
    b.user_id = 2;
    b.name = b"b".to_vec();
    b.emul_name = "emu".to_string();
    b.ping = 20;
    b.connect_type = 2;
    st.users.push(a);
    st.users.push(b);
    let mut r = Room::new();
    r.game_id = 7;
    r.players = vec![PlayerAddr::Idle(1)];
    st.rooms.push(r);
    st
}

fn triples(out: &[Message]) -> Vec<(u64, u8, Vec<u8>)> {
    out.iter().map(|m| (m.addr, m.message_type, m.data.clone())).collect()
}

#[test]
fn create_room() {
    let mut st = world();
    let mut id = 9u32;
    let mut out = Vec::new();
    assert!(create_game_step(&mut st, &mut id, &mut out, b"\0mygame\0\0\xff\xff\xff\xff", 2).is_ok());
    assert_eq!(id, 10);
    assert_eq!(st.users[1].game_room_id, Some(9));
    assert_eq!(st.rooms.len(), 2);
    let r = &st.rooms[1];
    assert_eq!(r.game_id, 9);
    assert_eq!(r.game_name, "mygame");
    assert_eq!(r.creator_id, "b");
    assert_eq!(r.emul_name, "emu");
    assert_eq!(r.players, vec![PlayerAddr::Idle(2)]);
    assert_eq!(r.game_status, 0);
    let create = b"b\0mygame\0emu\0\x09\0\0\0".to_vec();
    let status = vec![0, 9, 0, 0, 0, 0, 1, 4];
    assert_eq!(
        triples(&out),
        vec![
            (1, CREATE_GAME, create.clone()),
            (2, CREATE_GAME, create),
            (1, UPDATE_GAME_STATUS, status.clone()),
            (2, UPDATE_GAME_STATUS, status),
            (2, JOIN_GAME, vec![0, 9, 0, 0, 0, b'b', 0, 20, 0, 0, 0, 2, 0, 2]),
            (2, GAME_CHAT, b"SERVER\0direlera supports follow the options\0".to_vec()),
            (2, GAME_CHAT, b"SERVER\0/samedealy true|false\0".to_vec()),
            (2, SERVER_INFO, b"Server\0Creates Room: mygame\0".to_vec()),
        ]
    );
}

#[test]
fn create_when_already_in_a_room() {
    let mut st = world();
    let mut id = 9u32;
    let mut out = Vec::new();
    match create_game_step(&mut st, &mut id, &mut out, b"\0g\0", 1) {
        Err(KailleraError::AlreadyError { message }) => assert_eq!(message, "already has room."),
        _ => panic!("expected AlreadyError"),
    }
    assert_eq!(id, 9);
    assert_eq!(triples(&out), vec![(1, GLOBAL_CHAT, b"Server\0You are already joining the room.\0".to_vec())]);
}

#[test]
fn create_without_a_game_name_field() {
    let mut st = world();
    let mut id = 9u32;
    let mut out = Vec::new();
    assert!(matches!(create_game_step(&mut st, &mut id, &mut out, b"mygame", 2), Err(KailleraError::NotFound)));
    assert_eq!(id, 9);
    assert!(out.is_empty());
    assert_eq!(st.rooms.len(), 1);
}

#[test]
fn create_with_an_id_in_use() {
    let mut st = world();
    let mut id = 7u32;
    let mut out = Vec::new();
    match create_game_step(&mut st, &mut id, &mut out, b"\0g\0", 2) {
        Err(KailleraError::AlreadyError { message }) => assert_eq!(message, "room is already exist"),
        _ => panic!("expected AlreadyError"),
    }
    assert_eq!(id, 8);
    assert_eq!(out.len(), 8);
    assert_eq!(st.rooms.len(), 1);
    assert_eq!(st.users[1].game_room_id, Some(7));
}

#[test]
fn create_by_address_not_logged_in() {
    let mut st = world();
    let mut id = 9u32;
    let mut out = Vec::new();
    assert!(matches!(create_game_step(&mut st, &mut id, &mut out, b"\0g\0", 3), Err(KailleraError::NotFound)));
    assert_eq!(id, 10);
    assert_eq!(out.len(), 5);
    assert_eq!(out[4].addr, 3);
    assert_eq!(out[4].data, vec![0, 9, 0, 0, 0, 0, 0, 0, 0, 0, 0, 0, 0, 0]);
    assert_eq!(st.rooms.len(), 1);
}
