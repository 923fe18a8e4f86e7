use direlera_rs::protocol::{GAME_CHAT, GAME_STATUS_NET_SYNC, START_GAME, UPDATE_GAME_STATUS};
use direlera_rs::room::{KailleraError, PlayerAddr, Room, User, UserRoom, PLAYING};
use direlera_rs::service_server::{start_game_step, Message};

fn world(same_delay: bool) -> UserRoom {
    let mut st = UserRoom::new();
    for (addr, name, ping, conn) in [(1u64, b"a", 10u32, 1u8), (2, b"b", 50, 2)] {
        let mut u = User::new(addr, 0);
        u.user_id = addr as u16;
        u.name = name.to_vec();
        u.ping = ping;
        u.connect_type = conn;
        u.game_room_id = Some(7);
        st.users.push(u);
    }
    let mut r = Room::new();
    r.game_id = 7;
    r.players = vec![PlayerAddr::Idle(1), PlayerAddr::Idle(2)];
    r.same_delay = same_delay;
    st.rooms.push(r);
    st
}

fn triples(out: &[Message]) -> Vec<(u64, u8, Vec<u8>)> {
    out.iter().map(|m| (m.addr, m.message_type, m.data.clone())).collect()
}

#[test]
fn start_numbers_the_players_and_tells_their_delays() {
    let mut st = world(false);
    let mut out = Vec::new();
    assert!(start_game_step(&mut st, &mut out, 1).is_ok());
    assert_eq!(st.rooms[0].game_status, GAME_STATUS_NET_SYNC);
    assert_eq!((st.users[0].player_index, st.users[0].room_order, st.users[0].player_status), (0, 0, PLAYING));
    assert_eq!((st.users[1].player_index, st.users[1].room_order, st.users[1].player_status), (1, 1, PLAYING));
    let status = vec![0, 7, 0, 0, 0, 2, 2, 4];
    let a = b"SERVER\0a, frame delay(index): 1\0".to_vec();
    let b = b"SERVER\0b, frame delay(index): 2\0".to_vec();
    assert_eq!(
        triples(&out),
        vec![
            (1, UPDATE_GAME_STATUS, status.clone()),
            (2, UPDATE_GAME_STATUS, status),
            (1, START_GAME, vec![0, 1, 0, 1, 2]),
            (2, START_GAME, vec![0, 2, 0, 2, 2]),
            (1, GAME_CHAT, a.clone()),
            (2, GAME_CHAT, a),
            (1, GAME_CHAT, b.clone()),
            (2, GAME_CHAT, b),
        ]
    );
}

#[test]
fn start_with_same_delay_gives_everyone_the_largest() {
    let mut st = world(true);
    let mut out = Vec::new();
    assert!(start_game_step(&mut st, &mut out, 2).is_ok());
    assert_eq!(out[2].data, vec![0, 2, 0, 1, 2]);
    assert_eq!(out[3].data, vec![0, 2, 0, 2, 2]);
    assert_eq!(out[4].data, b"SERVER\0a, [samedelay mode] index 1 -> 2\0".to_vec());
}

#[test]
fn start_outside_a_room() {
    let mut st = world(false);
    st.users[0].game_room_id = None;
    let mut out = Vec::new();
    assert!(matches!(start_game_step(&mut st, &mut out, 1), Err(KailleraError::NotFound)));
    assert!(matches!(start_game_step(&mut st, &mut out, 9), Err(KailleraError::NotFound)));
    assert!(out.is_empty());
    assert_eq!(st.rooms[0].game_status, 0);
}

#[test]
fn start_with_a_seat_of_an_unknown_address() {
    let mut st = world(false);
    st.rooms[0].players.push(PlayerAddr::Idle(9));
    let mut out = Vec::new();
    assert!(matches!(start_game_step(&mut st, &mut out, 1), Err(KailleraError::NotFound)));
    assert_eq!(st.rooms[0].game_status, GAME_STATUS_NET_SYNC);
    assert_eq!(out.len(), 2);
    assert_eq!(st.users[0].player_status, direlera_rs::room::IDLE);
}
