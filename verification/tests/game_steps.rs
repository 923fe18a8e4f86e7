use direlera_rs::protocol::{
    CLOSE_GAME, DROP_GAME, GAME_CACHE, GAME_DATA, GAME_STATUS_PLAYING, QUIT_GAME, READY_TO_PLAY_SIGNAL,
    UPDATE_GAME_STATUS,
};
use direlera_rs::room::{KailleraError, PlayerAddr, Room, ServiceError, User, UserRoom, IDLE, PLAYING};
use direlera_rs::service_game::{
    drop_game_step, game_cache_step, game_data_step, input_process_step, kick_user_step, quit_game_step,
    ready_to_play_step,
};
use direlera_rs::service_server::Message;

fn user(addr: u64, name: &[u8], index: u8) -> User {
    let mut u = User::new(addr, 0);
    u.user_id = addr as u16;
    u.name = name.to_vec();
    u.connect_type = 1;
    u.game_room_id = Some(7);
    u.player_index = index;
    u.players_input = vec![Vec::new(), Vec::new()];
    u
}

fn world(players: Vec<PlayerAddr>, status: u8) -> UserRoom {
    let mut st = UserRoom::new();
    st.users.push(user(1, b"a", 0));
    st.users.push(user(2, b"b", 1));
    let mut r = Room::new();
    r.game_id = 7;
    r.players = players;
    r.game_status = status;
    st.rooms.push(r);
    st
}

fn triples(out: &[Message]) -> Vec<(u64, u8, Vec<u8>)> {
    out.iter().map(|m| (m.addr, m.message_type, m.data.clone())).collect()
}

fn is_not_found(r: &Result<(), ServiceError>) -> bool {
    matches!(r, Err(ServiceError::Kaillera(KailleraError::NotFound)))
}

fn refusal(r: &Result<(), ServiceError>) -> String {
    match r {
        Err(ServiceError::Message { message }) => message.clone(),
        _ => panic!("expected a refusal"),
    }
}

#[test]
fn ready_starts_the_game_and_signals_every_seat() {
    let mut st = world(vec![PlayerAddr::Idle(1), PlayerAddr::Idle(2)], 0);
    let mut out = Vec::new();
    assert!(ready_to_play_step(&mut st, &mut out, 1).is_ok());
    assert_eq!(st.rooms[0].game_status, GAME_STATUS_PLAYING);
    assert_eq!(st.rooms[0].players, vec![PlayerAddr::Playing(1), PlayerAddr::Idle(2)]);
    let status = vec![0, 7, 0, 0, 0, 1, 2, 4];
    assert_eq!(
        triples(&out),
        vec![
            (1, UPDATE_GAME_STATUS, status.clone()),
            (2, UPDATE_GAME_STATUS, status),
            (1, READY_TO_PLAY_SIGNAL, vec![0]),
            (2, READY_TO_PLAY_SIGNAL, vec![0]),
        ]
    );
}

#[test]
fn ready_outside_a_room_is_not_found() {
    let mut st = world(vec![], 0);
    st.users[0].game_room_id = None;
    let mut out = Vec::new();
    assert!(is_not_found(&ready_to_play_step(&mut st, &mut out, 1)));
    assert!(is_not_found(&ready_to_play_step(&mut st, &mut out, 9)));
    assert!(out.is_empty());
}

#[test]
fn drop_tells_the_seats_and_makes_the_user_idle() {
    let mut st = world(vec![PlayerAddr::Playing(1), PlayerAddr::Playing(2)], 1);
    st.users[1].player_status = PLAYING;
    let mut out = Vec::new();
    assert!(drop_game_step(&mut st, &mut out, 2).is_ok());
    assert_eq!(st.users[1].player_status, IDLE);
    assert_eq!(st.rooms[0].players, vec![PlayerAddr::Playing(1), PlayerAddr::Idle(2)]);
    let status = vec![0, 7, 0, 0, 0, 1, 2, 4];
    assert_eq!(
        triples(&out),
        vec![
            (1, UPDATE_GAME_STATUS, status.clone()),
            (2, UPDATE_GAME_STATUS, status),
            (1, DROP_GAME, b"b\0\x02".to_vec()),
            (2, DROP_GAME, b"b\0\x02".to_vec()),
        ]
    );
}

#[test]
fn kick_removes_the_player_by_id() {
    let mut st = world(vec![PlayerAddr::Idle(1), PlayerAddr::Idle(2)], 0);
    let mut out = Vec::new();
    assert!(kick_user_step(&mut st, &mut out, &[0, 2, 0], 1).is_ok());
    assert_eq!(st.users[1].game_room_id, None);
    assert_eq!(st.rooms[0].players, vec![PlayerAddr::Idle(1)]);
    assert_eq!(
        triples(&out),
        vec![
            (1, QUIT_GAME, b"b\0\x02\x00".to_vec()),
            (2, QUIT_GAME, b"b\0\x02\x00".to_vec()),
            (1, UPDATE_GAME_STATUS, vec![0, 7, 0, 0, 0, 0, 1, 4]),
            (2, UPDATE_GAME_STATUS, vec![0, 7, 0, 0, 0, 0, 1, 4]),
        ]
    );
}

#[test]
fn kick_of_an_unknown_id_is_refused() {
    let mut st = world(vec![PlayerAddr::Idle(1), PlayerAddr::Idle(2)], 0);
    let mut out = Vec::new();
    let r = kick_user_step(&mut st, &mut out, &[0, 9, 0], 1);
    assert_eq!(refusal(&r), "target user not found");
    assert!(out.is_empty());
}

#[test]
fn quit_from_a_waiting_room_frees_the_seat() {
    let mut st = world(vec![PlayerAddr::Idle(1), PlayerAddr::Idle(2)], 0);
    let mut out = Vec::new();
    assert!(quit_game_step(&mut st, &mut out, 2).is_ok());
    assert_eq!(st.users[1].game_room_id, None);
    assert_eq!(st.rooms[0].players, vec![PlayerAddr::Idle(1)]);
    assert_eq!(
        triples(&out),
        vec![
            (1, UPDATE_GAME_STATUS, vec![0, 7, 0, 0, 0, 0, 1, 4]),
            (2, UPDATE_GAME_STATUS, vec![0, 7, 0, 0, 0, 0, 1, 4]),
            (1, QUIT_GAME, b"b\0\x02\x00".to_vec()),
        ]
    );
}

#[test]
fn quit_of_the_last_player_closes_the_room() {
    let mut st = world(vec![PlayerAddr::Idle(1)], 0);
    st.users[1].game_room_id = None;
    let mut out = Vec::new();
    assert!(quit_game_step(&mut st, &mut out, 1).is_ok());
    assert!(st.rooms.is_empty());
    assert_eq!(st.users[0].game_room_id, None);
    assert_eq!(triples(&out), vec![(1, CLOSE_GAME, vec![0, 7, 0, 0, 0]), (2, CLOSE_GAME, vec![0, 7, 0, 0, 0])]);
}

#[test]
fn quit_outside_a_room_is_refused() {
    let mut st = world(vec![], 0);
    st.users[0].game_room_id = None;
    let mut out = Vec::new();
    assert_eq!(refusal(&quit_game_step(&mut st, &mut out, 1)), "not exist in room");
}

#[test]
fn game_data_waits_for_every_player_then_sends_and_caches() {
    let mut st = world(vec![PlayerAddr::Playing(1), PlayerAddr::Playing(2)], 1);
    let mut out = Vec::new();
    assert!(game_data_step(&mut st, &mut out, &[0, 2, 0, 9, 9], 1).is_ok());
    assert_eq!(st.users[0].atomic_input_size, 2);
    assert_eq!(st.users[0].cache_system.incoming_data_vec, vec![vec![9u8, 9]]);
    assert_eq!(st.users[1].players_input[0], vec![9u8, 9]);
    assert!(out.is_empty());
    assert!(game_data_step(&mut st, &mut out, &[0, 2, 0, 8, 8], 2).is_ok());
    assert_eq!(
        triples(&out),
        vec![(1, GAME_DATA, vec![0, 4, 0, 9, 9, 8, 8]), (2, GAME_DATA, vec![0, 4, 0, 9, 9, 8, 8])]
    );
    assert_eq!(st.users[0].players_input, vec![Vec::<u8>::new(), Vec::new()]);
    assert_eq!(st.users[0].put_cache.incoming_data_vec, vec![vec![9u8, 9, 8, 8]]);
    out.clear();
    // the same round again is answered from the receivers' caches
    assert!(game_cache_step(&mut st, &mut out, &[0, 0], 1).is_ok());
    assert!(out.is_empty());
    assert!(game_data_step(&mut st, &mut out, &[0, 2, 0, 8, 8], 2).is_ok());
    assert_eq!(triples(&out), vec![(1, GAME_CACHE, vec![0, 0]), (2, GAME_CACHE, vec![0, 0])]);
}

#[test]
fn game_data_shorter_than_its_length_is_refused() {
    let mut st = world(vec![PlayerAddr::Playing(1), PlayerAddr::Playing(2)], 1);
    let mut out = Vec::new();
    assert_eq!(refusal(&game_data_step(&mut st, &mut out, &[0, 5, 0, 1], 1)), "..");
    st.users[0].game_room_id = None;
    assert!(is_not_found(&game_data_step(&mut st, &mut out, &[0, 1, 0, 1], 1)));
}

#[test]
fn game_cache_checks_its_body_and_position() {
    let mut st = world(vec![PlayerAddr::Playing(1), PlayerAddr::Playing(2)], 1);
    let mut out = Vec::new();
    assert_eq!(refusal(&game_cache_step(&mut st, &mut out, &[0, 0, 0], 1)), "!= 2");
    assert!(is_not_found(&game_cache_step(&mut st, &mut out, &[0, 5], 1)));
    assert!(out.is_empty());
}

#[test]
fn input_process_answers_nothing_while_input_is_missing() {
    let mut st = world(vec![PlayerAddr::Playing(1), PlayerAddr::Playing(2)], 1);
    st.users[0].atomic_input_size = 2;
    st.users[1].atomic_input_size = 2;
    let mut out = Vec::new();
    assert!(input_process_step(&mut st, &mut out, 1).is_ok());
    assert!(out.is_empty());
}

#[test]
fn gen_input_takes_one_round_of_every_player() {
    let mut st = world(vec![PlayerAddr::Playing(1), PlayerAddr::Idle(2)], 1);
    st.users[0].atomic_input_size = 2;
    st.users[0].players_input = vec![vec![1, 2, 3], vec![4]];
    // the idle player's input is filled up with zeros
    let r = st.gen_input(0, 0);
    assert_eq!(r.ok().unwrap(), vec![1, 2, 4, 0]);
    assert_eq!(st.users[0].players_input, vec![vec![3u8], Vec::new()]);
    match st.gen_input(0, 0) {
        Err(ServiceError::Message { message }) => assert_eq!(message, "yet"),
        _ => panic!("expected yet"),
    }
}
