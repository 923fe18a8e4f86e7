use direlera_rs::handlers::chat::handle_global_chat;
use direlera_rs::handlers::game::{
    handle_create_game, handle_drop_game, handle_join_game, handle_kick_user, handle_start_game,
};
use direlera_rs::handlers::handle_client_to_server_ack;
use direlera_rs::handlers::sync::{handle_game_cache, handle_game_data};
use direlera_rs::handlers::user::handle_user_login;
use direlera_rs::simplest_game_sync::GameSyncError;
use direlera_rs::state::{AppState, GamePlayerInfo, HandlerError, Message};

fn login(st: &mut AppState, out: &mut Vec<Message>, addr: u64, name: &[u8]) {
    let mut data = name.to_vec();
    data.extend_from_slice(b"\0emu\0\x01");
    handle_user_login(st, out, &data, addr, 0).unwrap();
}

fn playing_pair() -> (AppState, Vec<Message>) {
    let mut st = AppState::new();
    let mut out = Vec::new();
    login(&mut st, &mut out, 1, b"alice");
    login(&mut st, &mut out, 2, b"bob");
    handle_create_game(&mut st, &mut out, b"\0g\0\0", 1).unwrap();
    handle_join_game(&mut st, &mut out, &[0, 1, 0, 0, 0, 0, 0, 0, 0, 0, 0, 0, 1], 2).unwrap();
    handle_start_game(&mut st, &mut out, &[0, 0xff, 0xff, 0xff, 0xff], 1).unwrap();
    (st, out)
}

#[test]
fn kicked_player_is_no_longer_in_game() {
    let (mut st, mut out) = playing_pair();
    handle_kick_user(&mut st, &mut out, &[0, 2, 0], 1).unwrap();
    let r = handle_game_data(&mut st, &mut out, &[0, 2, 0, 1, 2], 2);
    assert_eq!(r, Err(HandlerError::PlayerNotInGame));
}

#[test]
fn outputs_for_a_kicked_player_have_no_address() {
    let (mut st, mut out) = playing_pair();
    handle_game_data(&mut st, &mut out, &[0, 2, 0, 1, 2], 2).unwrap();
    handle_kick_user(&mut st, &mut out, &[0, 2, 0], 1).unwrap();
    // the frame completes; its copy for the second player has nobody to go to
    let r = handle_game_data(&mut st, &mut out, &[0, 2, 0, 3, 4], 1);
    assert_eq!(r, Err(HandlerError::NoSuchPlayer));
    assert!(!HandlerError::NoSuchPlayer.ends_session());
}

#[test]
fn unknown_cache_position_is_a_sync_error() {
    let (mut st, mut out) = playing_pair();
    let r = handle_game_cache(&mut st, &mut out, &[0, 9], 1);
    assert_eq!(
        r,
        Err(HandlerError::Sync(GameSyncError::CachePositionNotFound { player_id: 0, position: 9 }))
    );
}

#[test]
fn a_body_too_long_for_its_frame_is_refused() {
    let mut st = AppState::new();
    let mut out = Vec::new();
    login(&mut st, &mut out, 1, b"alice");
    out.clear();
    // "alice\0" + text + "\0" makes a body of 65535 bytes
    let mut data = vec![0u8];
    data.extend(vec![b'a'; 65528]);
    data.push(0);
    let r = handle_global_chat(&mut st, &mut out, &data, 1);
    assert_eq!(r, Err(HandlerError::PacketTooLong));
    assert!(out.is_empty());
    assert!(HandlerError::PacketTooLong.ends_session());
}

#[test]
fn ack_count_at_its_limit() {
    let mut st = AppState::new();
    let mut out = Vec::new();
    login(&mut st, &mut out, 1, b"alice");
    st.clients[0].info.ack_count = u16::MAX;
    let r = handle_client_to_server_ack(&mut st, &mut out, 1, 5, "Hi");
    assert_eq!(r, Err(HandlerError::CounterOverflow));
    assert!(HandlerError::CounterOverflow.ends_session());
}

#[test]
fn player_count_at_its_limit() {
    let mut st = AppState::new();
    let mut out = Vec::new();
    login(&mut st, &mut out, 1, b"alice");
    handle_create_game(&mut st, &mut out, b"\0g\0\0", 1).unwrap();
    st.games[0].num_players = 255;
    for i in 0..254u64 {
        st.games[0].players.push(GamePlayerInfo { addr: 100 + i, username: b"x".to_vec(), user_id: 0, conn_type: 1 });
    }
    login(&mut st, &mut out, 2, b"bob");
    let r = handle_join_game(&mut st, &mut out, &[0, 1, 0, 0, 0, 0, 0, 0, 0, 0, 0, 0, 1], 2);
    assert_eq!(r, Err(HandlerError::CounterOverflow));
}

#[test]
fn drop_outputs_for_a_kicked_player_end_the_session() {
    let (mut st, mut out) = playing_pair();
    handle_game_data(&mut st, &mut out, &[0, 2, 0, 1, 2], 2).unwrap();
    handle_kick_user(&mut st, &mut out, &[0, 2, 0], 1).unwrap();
    let r = handle_drop_game(&mut st, &mut out, 1);
    assert_eq!(r, Err(HandlerError::MissingPlayer));
    assert!(HandlerError::MissingPlayer.ends_session());
}

#[test]
fn sync_errors_as_text() {
    assert_eq!(
        GameSyncError::InvalidPlayerId { player_id: 7, player_count: 2 }.to_text(),
        "Invalid player_id: 7 (valid range: 0..2)".to_string()
    );
    assert_eq!(
        GameSyncError::CachePositionNotFound { player_id: 1, position: 42 }.to_text(),
        "Cache position 42 not found for player 1".to_string()
    );
    assert_eq!(
        GameSyncError::BufferInconsistency { message: "x".to_string() }.to_text(),
        "Buffer inconsistency: x".to_string()
    );
}
