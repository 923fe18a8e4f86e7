use direlera_rs::handlers::chat::{handle_game_chat, handle_global_chat};
use direlera_rs::handlers::game::{
    execute_drop_game, handle_create_game, handle_drop_game, handle_join_game, handle_kick_user,
    handle_quit_game, handle_start_game,
};
use direlera_rs::handlers::handle_client_to_server_ack;
use direlera_rs::handlers::util::{fetch_client_info, fetch_game_info};
use direlera_rs::handlers::sync::{handle_game_cache, handle_game_data, handle_ready_to_play_signal};
use direlera_rs::handlers::user::{end_session, handle_user_login, handle_user_quit, login_client};
use direlera_rs::kaillera::message_types as msg;
use direlera_rs::state::{
    AppState, HandlerError, Message, GAME_STATUS_PLAYING, GAME_STATUS_WAITING,
    PLAYER_STATUS_IDLE, PLAYER_STATUS_NET_SYNC, PLAYER_STATUS_PLAYING,
};

const ALICE: u64 = 1;
const BOB: u64 = 2;
const WELCOME: &str = "Hi";

/// The newest message of a datagram: its type and data.
fn newest(datagram: &[u8]) -> (u8, Vec<u8>) {
    let len = datagram[3] as usize + 256 * datagram[4] as usize;
    (datagram[5], datagram[6..6 + len - 1].to_vec())
}

fn types_to(out: &[Message], addr: u64) -> Vec<u8> {
    out.iter().filter(|m| m.addr == addr).map(|m| newest(&m.data).0).collect()
}

fn client<'a>(st: &'a AppState, addr: u64) -> &'a direlera_rs::state::ClientInfo {
    &st.clients.iter().find(|e| e.addr == addr).unwrap().info
}

fn login(st: &mut AppState, out: &mut Vec<Message>, addr: u64, name: &[u8], conn: u8) {
    let mut data = name.to_vec();
    data.push(0);
    data.extend_from_slice(b"emu\0");
    data.push(conn);
    handle_user_login(st, out, &data, addr, 1000).unwrap();
}

/// Alice owns game 1, Bob has joined it.
fn two_in_game() -> (AppState, Vec<Message>) {
    let mut st = AppState::new();
    let mut out = Vec::new();
    login(&mut st, &mut out, ALICE, b"alice", 1);
    login(&mut st, &mut out, BOB, b"bob", 1);
    handle_create_game(&mut st, &mut out, b"\0mygame\0\0\xff\xff\xff\xff", ALICE).unwrap();
    handle_join_game(&mut st, &mut out, &[0, 1, 0, 0, 0, 0, 0, 0, 0, 0, 0, 0, 1], BOB).unwrap();
    (st, out)
}

fn started() -> (AppState, Vec<Message>) {
    let (mut st, mut out) = two_in_game();
    handle_start_game(&mut st, &mut out, &[0, 0xff, 0xff, 0xff, 0xff], ALICE).unwrap();
    (st, out)
}

#[test]
fn login_holds_client_and_acks() {
    let mut st = AppState::new();
    let mut out = Vec::new();
    handle_user_login(&mut st, &mut out, b"alice\0emu\0\x01", ALICE, 1000).unwrap();
    assert_eq!(st.clients.len(), 1);
    let c = client(&st, ALICE);
    assert_eq!(c.username, b"alice".to_vec());
    assert_eq!(c.emulator_name, b"emu".to_vec());
    assert_eq!(c.conn_type, 1);
    assert_eq!(c.user_id, 1);
    assert_eq!(c.player_status, PLAYER_STATUS_IDLE);
    assert_eq!(c.last_ping_time, Some(1000));
    assert_eq!(c.ack_count, 0);
    // a random version-4 id
    assert_eq!((c.session_id >> 76) & 0xF, 4);
    assert_eq!((c.session_id >> 62) & 0x3, 2);
    assert_eq!(st.next_user_id, 2);
    assert_eq!(out.len(), 1);
    assert_eq!(out[0].addr, ALICE);
    assert_eq!(
        out[0].data,
        vec![1, 0, 0, 18, 0, 5, 0, 0, 0, 0, 0, 1, 0, 0, 0, 2, 0, 0, 0, 3, 0, 0, 0]
    );
}

#[test]
fn login_cuts_long_names_and_defaults_connection() {
    let mut st = AppState::new();
    let mut out = Vec::new();
    let mut data = vec![b'x'; 40];
    data.extend_from_slice(b"\0emu\0");
    login_client(&mut st, &mut out, &data, ALICE, 7, 5).unwrap();
    let c = client(&st, ALICE);
    assert_eq!(c.username.len(), 31);
    assert_eq!(c.conn_type, 0);
    assert_eq!(c.session_id, 7);
}

#[test]
fn acks_ping_then_status_and_information() {
    let mut st = AppState::new();
    let mut out = Vec::new();
    login(&mut st, &mut out, ALICE, b"alice", 1);
    out.clear();
    handle_client_to_server_ack(&mut st, &mut out, ALICE, 1010, WELCOME).unwrap();
    assert_eq!(client(&st, ALICE).ping, 10);
    assert_eq!(client(&st, ALICE).ack_count, 1);
    assert_eq!(types_to(&out, ALICE), vec![msg::SERVER_TO_CLIENT_ACK]);
    handle_client_to_server_ack(&mut st, &mut out, ALICE, 1030, WELCOME).unwrap();
    handle_client_to_server_ack(&mut st, &mut out, ALICE, 1060, WELCOME).unwrap();
    assert_eq!(client(&st, ALICE).ping, 30);
    assert_eq!(client(&st, ALICE).ack_count, 3);
    assert_eq!(
        types_to(&out, ALICE),
        vec![
            msg::SERVER_TO_CLIENT_ACK,
            msg::SERVER_TO_CLIENT_ACK,
            msg::SERVER_STATUS,
            msg::USER_JOINED,
            msg::SERVER_INFORMATION
        ]
    );
    let info = newest(&out.last().unwrap().data).1;
    assert_eq!(info, b"Server\0Hi\0".to_vec());
}

#[test]
fn ack_from_unknown_client_ends_session() {
    let mut st = AppState::new();
    let mut out = Vec::new();
    let r = handle_client_to_server_ack(&mut st, &mut out, 9, 0, WELCOME);
    assert_eq!(r, Err(HandlerError::MissingClient));
    assert!(HandlerError::MissingClient.ends_session());
    assert!(!HandlerError::GameNotFound.ends_session());
}

#[test]
fn create_game_makes_owner_the_only_player() {
    let mut st = AppState::new();
    let mut out = Vec::new();
    login(&mut st, &mut out, ALICE, b"alice", 1);
    out.clear();
    handle_create_game(&mut st, &mut out, b"\0mygame\0\0\xff\xff\xff\xff", ALICE).unwrap();
    assert_eq!(st.games.len(), 1);
    let g = &st.games[0];
    assert_eq!(g.game_id, 1);
    assert_eq!(g.game_name, b"mygame".to_vec());
    assert_eq!(g.owner, b"alice".to_vec());
    assert_eq!(g.num_players, 1);
    assert_eq!(g.max_players, 4);
    assert_eq!(g.game_status, GAME_STATUS_WAITING);
    assert_eq!(g.players.len(), 1);
    assert_eq!(g.players[0].addr, ALICE);
    assert_eq!(client(&st, ALICE).game_id, Some(1));
    assert_eq!(
        types_to(&out, ALICE),
        vec![msg::CREATE_GAME, msg::UPDATE_GAME_STATUS, msg::PLAYER_INFORMATION, msg::JOIN_GAME]
    );
    assert_eq!(newest(&out[0].data).1, b"alice\0mygame\0emu\0\x01\0\0\0".to_vec());
    assert_eq!(newest(&out[1].data).1, vec![0, 1, 0, 0, 0, 0, 1, 4]);
    // a second request while in the game is ignored
    out.clear();
    handle_create_game(&mut st, &mut out, b"\0other\0\0", ALICE).unwrap();
    assert_eq!(st.games.len(), 1);
    assert!(out.is_empty());
}

#[test]
fn create_game_cuts_long_names() {
    let mut st = AppState::new();
    let mut out = Vec::new();
    login(&mut st, &mut out, ALICE, b"alice", 1);
    let mut data = vec![0u8];
    data.extend(vec![b'g'; 200]);
    data.extend_from_slice(&[0, 0]);
    handle_create_game(&mut st, &mut out, &data, ALICE).unwrap();
    assert_eq!(st.games[0].game_name.len(), 127);
}

#[test]
fn create_game_unknown_client_takes_an_id() {
    let mut st = AppState::new();
    let mut out = Vec::new();
    let r = handle_create_game(&mut st, &mut out, b"\0g\0\0", 9);
    assert_eq!(r, Err(HandlerError::ClientNotFound));
    assert_eq!(st.next_game_id, 2);
    assert!(st.games.is_empty());
}

#[test]
fn join_game_adds_player() {
    let (st, out) = two_in_game();
    let g = &st.games[0];
    assert_eq!(g.num_players, 2);
    assert_eq!(g.players[1].addr, BOB);
    assert_eq!(client(&st, BOB).game_id, Some(1));
    // Bob: status, player list, join notification
    let bob_types = types_to(&out, BOB);
    assert_eq!(
        bob_types[bob_types.len() - 3..].to_vec(),
        vec![msg::UPDATE_GAME_STATUS, msg::PLAYER_INFORMATION, msg::JOIN_GAME]
    );
    // the player list names Alice only: count 1, "alice", ping 0, id 1, conn 1
    let info = out
        .iter()
        .filter(|m| m.addr == BOB)
        .map(|m| newest(&m.data))
        .find(|(t, _)| *t == msg::PLAYER_INFORMATION)
        .unwrap()
        .1;
    assert_eq!(info, b"\0\x01\0\0\0alice\0\0\0\0\0\x01\0\x01".to_vec());
}

#[test]
fn join_game_short_request_is_refused() {
    let (mut st, mut out) = two_in_game();
    let r = handle_join_game(&mut st, &mut out, &[0, 1, 0], BOB);
    assert_eq!(r, Err(HandlerError::MessageTooShort));
}

#[test]
fn join_missing_game_sets_game_then_fails() {
    let mut st = AppState::new();
    let mut out = Vec::new();
    login(&mut st, &mut out, BOB, b"bob", 1);
    let r = handle_join_game(&mut st, &mut out, &[0, 7, 0, 0, 0, 0, 0, 0, 0, 0, 0, 0, 1], BOB);
    assert_eq!(r, Err(HandlerError::MissingGame));
    assert_eq!(client(&st, BOB).game_id, Some(7));
}

#[test]
fn start_game_by_owner() {
    let (mut st, mut out) = two_in_game();
    out.clear();
    // not the owner: ignored
    handle_start_game(&mut st, &mut out, &[0, 0xff, 0xff, 0xff, 0xff], BOB).unwrap();
    assert!(out.is_empty());
    handle_start_game(&mut st, &mut out, &[0, 0xff, 0xff, 0xff, 0xff], ALICE).unwrap();
    let g = &st.games[0];
    assert_eq!(g.game_status, GAME_STATUS_PLAYING);
    assert!(g.sync_manager.is_some());
    assert_eq!(client(&st, ALICE).player_status, PLAYER_STATUS_NET_SYNC);
    assert_eq!(client(&st, BOB).player_status, PLAYER_STATUS_NET_SYNC);
    assert_eq!(types_to(&out, BOB), vec![msg::UPDATE_GAME_STATUS, msg::START_GAME]);
    let start = out.iter().filter(|m| m.addr == BOB).last().unwrap();
    assert_eq!(newest(&start.data).1, vec![0, 1, 0, 2, 2]);
    // started again: the players hear it already is
    out.clear();
    handle_start_game(&mut st, &mut out, &[0, 0xff, 0xff, 0xff, 0xff], ALICE).unwrap();
    assert_eq!(newest(&out[0].data), (msg::GAME_CHAT, b"alice\0Game is already started\0".to_vec()));
}

#[test]
fn start_game_with_zero_connection_type_starts() {
    let mut st = AppState::new();
    let mut out = Vec::new();
    login(&mut st, &mut out, ALICE, b"alice", 0);
    handle_create_game(&mut st, &mut out, b"\0g\0\0", ALICE).unwrap();
    handle_start_game(&mut st, &mut out, &[0, 0xff, 0xff, 0xff, 0xff], ALICE).unwrap();
    assert_eq!(st.games[0].game_status, GAME_STATUS_PLAYING);
    assert_eq!(st.games[0].sync_manager.as_ref().unwrap().get_player_delay(0), 0);
}

#[test]
fn zero_delay_player_dropping_with_input_queued_is_refused() {
    let mut st = AppState::new();
    let mut out = Vec::new();
    login(&mut st, &mut out, ALICE, b"alice", 0);
    login(&mut st, &mut out, BOB, b"bob", 1);
    handle_create_game(&mut st, &mut out, b"\0mygame\0\0\xff\xff\xff\xff", ALICE).unwrap();
    handle_join_game(&mut st, &mut out, &[0, 1, 0, 0, 0, 0, 0, 0, 0, 0, 0, 0, 1], BOB).unwrap();
    handle_start_game(&mut st, &mut out, &[0, 0xff, 0xff, 0xff, 0xff], ALICE).unwrap();
    // alice's input is skipped (delay 0); bob's waits for alice
    out.clear();
    handle_game_data(&mut st, &mut out, &[0, 2, 0, 0xAA, 0xBB], ALICE).unwrap();
    handle_game_data(&mut st, &mut out, &[0, 2, 0, 0xCC, 0xDD], BOB).unwrap();
    assert!(out.is_empty());
    // alice dropping would let a bundle form for a zero delay
    assert_eq!(handle_drop_game(&mut st, &mut out, ALICE), Err(HandlerError::SyncWouldStall));
    assert!(!st.games[0].sync_manager.as_ref().unwrap().is_player_dropped(0));
}

#[test]
fn start_game_short_request_is_refused() {
    let (mut st, mut out) = two_in_game();
    assert_eq!(handle_start_game(&mut st, &mut out, &[0, 1], ALICE), Err(HandlerError::MessageTooShort));
}

#[test]
fn ready_signal_starts_play() {
    let (mut st, mut out) = started();
    out.clear();
    handle_ready_to_play_signal(&mut st, &mut out, &[0], ALICE).unwrap();
    assert_eq!(client(&st, ALICE).player_status, PLAYER_STATUS_PLAYING);
    assert_eq!(client(&st, BOB).player_status, PLAYER_STATUS_PLAYING);
    assert_eq!(types_to(&out, BOB), vec![msg::UPDATE_GAME_STATUS, msg::READY_TO_PLAY]);
    assert_eq!(handle_ready_to_play_signal(&mut st, &mut out, &[], ALICE), Err(HandlerError::MessageTooShort));
}

#[test]
fn game_data_waits_for_every_player_then_caches() {
    let (mut st, mut out) = started();
    out.clear();
    handle_game_data(&mut st, &mut out, &[0, 2, 0, 0xAA, 0xBB], ALICE).unwrap();
    assert!(out.is_empty());
    handle_game_data(&mut st, &mut out, &[0, 2, 0, 0xCC, 0xDD], BOB).unwrap();
    assert_eq!(out.len(), 2);
    for m in &out {
        assert_eq!(newest(&m.data), (msg::GAME_DATA, vec![0, 4, 0, 0xAA, 0xBB, 0xCC, 0xDD]));
    }
    // the same inputs again come back as a cache position
    out.clear();
    handle_game_data(&mut st, &mut out, &[0, 2, 0, 0xAA, 0xBB], ALICE).unwrap();
    handle_game_cache(&mut st, &mut out, &[0, 0], BOB).unwrap();
    assert_eq!(out.len(), 2);
    for m in &out {
        assert_eq!(newest(&m.data), (msg::GAME_CACHE, vec![0, 0]));
    }
}

#[test]
fn game_data_errors() {
    let (mut st, mut out) = two_in_game();
    assert_eq!(handle_game_data(&mut st, &mut out, &[0, 5, 0, 1], ALICE), Err(HandlerError::MessageTooShort));
    assert_eq!(handle_game_data(&mut st, &mut out, &[0, 1, 0, 1], ALICE), Err(HandlerError::SyncNotStarted));
    assert_eq!(handle_game_cache(&mut st, &mut out, &[0], ALICE), Err(HandlerError::MessageTooShort));
    assert_eq!(handle_game_data(&mut st, &mut out, &[0, 1, 0, 1], 9), Err(HandlerError::ClientNotFound));
}

#[test]
fn drop_game_ends_when_all_dropped() {
    let (mut st, mut out) = started();
    out.clear();
    handle_drop_game(&mut st, &mut out, ALICE).unwrap();
    assert_eq!(st.games[0].game_status, GAME_STATUS_PLAYING);
    assert!(st.games[0].sync_manager.is_some());
    assert_eq!(client(&st, ALICE).player_status, PLAYER_STATUS_IDLE);
    assert_eq!(client(&st, BOB).player_status, PLAYER_STATUS_IDLE);
    assert_eq!(newest(&out[0].data), (msg::DROP_GAME, b"alice\0\x01".to_vec()));
    out.clear();
    assert_eq!(execute_drop_game(&mut st, &mut out, 1, BOB), Ok(true));
    assert_eq!(st.games[0].game_status, GAME_STATUS_WAITING);
    assert!(st.games[0].sync_manager.is_none());
    assert_eq!(newest(&out[0].data), (msg::UPDATE_GAME_STATUS, vec![0, 1, 0, 0, 0, 0, 2, 4]));
    // not playing any more: nothing to drop
    assert_eq!(execute_drop_game(&mut st, &mut out, 1, BOB), Ok(false));
}

#[test]
fn drop_game_errors() {
    let mut st = AppState::new();
    let mut out = Vec::new();
    assert_eq!(handle_drop_game(&mut st, &mut out, ALICE), Err(HandlerError::ClientNotFound));
    login(&mut st, &mut out, ALICE, b"alice", 1);
    assert_eq!(handle_drop_game(&mut st, &mut out, ALICE), Err(HandlerError::NotInGame));
}

#[test]
fn quit_game_by_player() {
    let (mut st, mut out) = two_in_game();
    out.clear();
    handle_quit_game(&mut st, &mut out, vec![0, 0xff, 0xff], BOB).unwrap();
    assert_eq!(st.games[0].num_players, 1);
    assert_eq!(st.games[0].players.len(), 1);
    assert_eq!(client(&st, BOB).game_id, None);
    assert_eq!(types_to(&out, ALICE), vec![msg::UPDATE_GAME_STATUS, msg::QUIT_GAME]);
    assert_eq!(types_to(&out, BOB), vec![msg::UPDATE_GAME_STATUS]);
    let quit = out.iter().filter(|m| m.addr == ALICE).last().unwrap();
    assert_eq!(newest(&quit.data).1, b"bob\0\x02\0".to_vec());
}

#[test]
fn quit_game_by_owner_closes_it() {
    let (mut st, mut out) = two_in_game();
    out.clear();
    let r = handle_quit_game(&mut st, &mut out, vec![0, 0xff, 0xff], ALICE);
    // the quit notice looks for the game just closed
    assert_eq!(r, Err(HandlerError::GameNotFound));
    assert!(st.games.is_empty());
    assert_eq!(client(&st, ALICE).game_id, None);
    assert_eq!(client(&st, BOB).game_id, None);
    assert_eq!(client(&st, BOB).player_status, PLAYER_STATUS_IDLE);
    assert_eq!(types_to(&out, BOB), vec![msg::CLOSE_GAME]);
    assert_eq!(newest(&out[0].data).1, vec![0, 1, 0, 0, 0]);
}

#[test]
fn quit_game_outside_a_game_is_ignored() {
    let mut st = AppState::new();
    let mut out = Vec::new();
    assert_eq!(handle_quit_game(&mut st, &mut out, vec![], ALICE), Ok(()));
    login(&mut st, &mut out, ALICE, b"alice", 1);
    out.clear();
    assert_eq!(handle_quit_game(&mut st, &mut out, vec![], ALICE), Ok(()));
    assert!(out.is_empty());
}

#[test]
fn kick_user_by_owner() {
    let (mut st, mut out) = two_in_game();
    out.clear();
    // not the owner: ignored
    handle_kick_user(&mut st, &mut out, &[0, 1, 0], BOB).unwrap();
    assert_eq!(st.games[0].num_players, 2);
    handle_kick_user(&mut st, &mut out, &[0, 2, 0], ALICE).unwrap();
    assert_eq!(st.games[0].num_players, 1);
    assert_eq!(st.games[0].players[0].addr, ALICE);
    // the kicked client keeps the game as its own
    assert_eq!(client(&st, BOB).game_id, Some(1));
    assert_eq!(handle_kick_user(&mut st, &mut out, &[0, 2], ALICE), Err(HandlerError::MessageTooShort));
}

#[test]
fn global_chat_reaches_everyone() {
    let (mut st, mut out) = two_in_game();
    out.clear();
    handle_global_chat(&mut st, &mut out, b"\0hello\0", ALICE).unwrap();
    assert_eq!(out.len(), 2);
    assert_eq!(newest(&out[1].data), (msg::GLOBAL_CHAT, b"alice\0hello\0".to_vec()));
    out.clear();
    handle_global_chat(&mut st, &mut out, b"\0hi\0", 9).unwrap();
    assert_eq!(newest(&out[0].data).1, b"Unknown\0hi\0".to_vec());
    // invalid UTF-8 is replaced
    out.clear();
    handle_global_chat(&mut st, &mut out, &[0, 0xff, 0], ALICE).unwrap();
    assert_eq!(newest(&out[0].data).1, vec![b'a', b'l', b'i', b'c', b'e', 0, 0xEF, 0xBF, 0xBD, 0]);
}

#[test]
fn game_chat_reaches_the_players() {
    let (mut st, mut out) = two_in_game();
    out.clear();
    handle_game_chat(&mut st, &mut out, b"\0gg\0", BOB).unwrap();
    assert_eq!(out.len(), 2);
    assert_eq!(newest(&out[0].data), (msg::GAME_CHAT, b"bob\0gg\0".to_vec()));
    out.clear();
    handle_game_chat(&mut st, &mut out, b"\0a\x11b\0", BOB).unwrap();
    assert!(out.is_empty());
    let mut st2 = AppState::new();
    login(&mut st2, &mut out, ALICE, b"alice", 1);
    assert_eq!(handle_game_chat(&mut st2, &mut out, b"\0x\0", ALICE), Err(HandlerError::NotInGame));
}

#[test]
fn user_quit_leaves_game_and_server() {
    let (mut st, mut out) = two_in_game();
    out.clear();
    handle_user_quit(&mut st, &mut out, b"\0\xff\xffbye\0", BOB).unwrap();
    assert_eq!(st.clients.len(), 1);
    assert_eq!(st.games[0].num_players, 1);
    let last = out.last().unwrap();
    assert_eq!(last.addr, ALICE);
    assert_eq!(newest(&last.data), (msg::USER_QUIT, b"bob\0\x02\0bye\0".to_vec()));
}

#[test]
fn session_end_removes_client() {
    let (mut st, mut out) = two_in_game();
    out.clear();
    end_session(&mut st, &mut out, BOB, b"timeout");
    assert_eq!(st.clients.len(), 1);
    assert_eq!(st.games[0].players.len(), 1);
    assert_eq!(newest(&out.last().unwrap().data), (msg::USER_QUIT, b"bob\0\x02\0timeout\0".to_vec()));
    // nothing happens for an address with no client
    out.clear();
    end_session(&mut st, &mut out, 9, b"timeout");
    assert!(out.is_empty());
}

#[test]
fn names_as_text_replace_invalid_bytes() {
    let mut st = AppState::new();
    let mut out = Vec::new();
    login(&mut st, &mut out, ALICE, b"al\xffce", 1);
    handle_create_game(&mut st, &mut out, b"\0g\xfe\0\0", ALICE).unwrap();
    let c = client(&st, ALICE);
    assert_eq!(c.username_str(), "al\u{FFFD}ce".to_string());
    assert_eq!(c.emulator_name_str(), "emu".to_string());
    let g = &st.games[0];
    assert_eq!(g.game_name_str(), "g\u{FFFD}".to_string());
    assert_eq!(g.owner_str(), "al\u{FFFD}ce".to_string());
    assert_eq!(g.emulator_name_str(), "emu".to_string());
    assert_eq!(g.players[0].username_str(), "al\u{FFFD}ce".to_string());
}

#[test]
fn names_for_logs_read_legacy_encodings() {
    let mut st = AppState::new();
    let mut out = Vec::new();
    let (name, _, _) = encoding_rs::EUC_KR.encode("홍길동");
    login(&mut st, &mut out, ALICE, &name, 1);
    handle_create_game(&mut st, &mut out, b"\0room\0\0", ALICE).unwrap();
    let c = client(&st, ALICE);
    assert_eq!(c.username_for_log(), "홍길동".to_string());
    assert_eq!(c.emulator_name_for_log(), "emu".to_string());
    let g = &st.games[0];
    assert_eq!(g.owner_for_log(), "홍길동".to_string());
    assert_eq!(g.game_name_for_log(), "room".to_string());
    assert_eq!(g.emulator_name_for_log(), "emu".to_string());
    assert_eq!(g.players[0].username_for_log(), "홍길동".to_string());
}

#[test]
fn lookups_by_address_and_id() {
    let (st, _) = two_in_game();
    assert_eq!(st.get_client(BOB).unwrap().user_id, 2);
    assert!(st.get_client(9).is_none());
    assert_eq!(st.get_game(1).unwrap().num_players, 2);
    assert!(st.get_game(5).is_none());
    assert_eq!(fetch_client_info(ALICE, &st), Ok((b"alice".to_vec(), b"emu".to_vec(), 1, 1)));
    assert_eq!(fetch_client_info(9, &st), Err(HandlerError::ClientNotFound));
    assert_eq!(fetch_game_info(BOB, &st).map(|g| g.game_id), Ok(1));
    let mut st2 = AppState::new();
    let mut out = Vec::new();
    login(&mut st2, &mut out, ALICE, b"alice", 1);
    assert_eq!(fetch_game_info(ALICE, &st2).map(|g| g.game_id), Err(HandlerError::NotInGame));
}

#[test]
fn adding_then_removing_restores_the_state() {
    let (mut st, _) = two_in_game();
    let before: Vec<u64> = st.clients.iter().map(|e| e.addr).collect();
    let mut out = Vec::new();
    login(&mut st, &mut out, 9, b"carol", 1);
    assert!(st.remove_client(9).is_some());
    let after: Vec<u64> = st.clients.iter().map(|e| e.addr).collect();
    assert_eq!(before, after);
    let games_before = st.games.len();
    let id = st.next_game_id();
    let game = direlera_rs::state::GameInfo {
        game_id: id,
        game_name: b"x".to_vec(),
        emulator_name: b"e".to_vec(),
        owner: b"o".to_vec(),
        owner_user_id: 1,
        num_players: 0,
        max_players: 4,
        game_status: GAME_STATUS_WAITING,
        players: Vec::new(),
        sync_manager: None,
    };
    st.add_game(id, game);
    assert_eq!(st.games.len(), games_before + 1);
    assert_eq!(st.remove_game(id).map(|g| g.game_id), Some(id));
    assert_eq!(st.games.len(), games_before);
    assert_eq!(st.games[0].game_id, 1);
}
