//! Handling of the messages a client sends, one handler per message type.
pub mod chat;
pub mod game;
pub mod sync;
pub mod user;
pub mod util;

use vstd::prelude::*;

use crate::handlers::util::{
    broadcast_out, broadcast_packet, make_server_information, make_server_status, make_user_joined,
    outcome, send_out, send_packet, server_information_spec, server_status_spec, user_joined_spec,
    Outcome,
};
use crate::kaillera::message_types::{
    CLIENT_KEEP_ALIVE, CLIENT_TO_SERVER_ACK, CREATE_GAME, DROP_GAME, GAME_CACHE, GAME_CHAT,
    GAME_DATA, GLOBAL_CHAT, JOIN_GAME, KICK_USER, QUIT_GAME, READY_TO_PLAY, SERVER_INFORMATION,
    SERVER_STATUS, SERVER_TO_CLIENT_ACK, START_GAME, USER_JOINED, USER_LOGIN, USER_QUIT,
};
use crate::kaillera::protocol::{MessageSpec, ParsedMessage};
use crate::packet_util::{build_server_to_client_ack_packet, server_ack_spec};
use crate::state::{
    ack_spec, client_index, lemma_client_index, messages_view, AppState, HandlerError, Message,
    StateSpec,
};

verus! {

/// CLIENT_TO_SERVER_ACK from `src` at time `now`: the acknowledgement is
/// recorded; from the third one on the client gets the server status,
/// everyone hears it joined, and it gets the server information with
/// `welcome`; before that it gets another SERVER_TO_CLIENT_ACK.
pub open spec fn client_ack_spec(st: StateSpec, sent: Seq<(u64, Seq<u8>)>, src: u64, now: u64, welcome: Seq<char>) -> Outcome {
    let ci = client_index(st.clients, src);
    if ci < 0 {
        outcome(st, sent, Err(HandlerError::MissingClient))
    } else {
        let a = ack_spec(st, ci, now);
        match a.1 {
            Err(e) => outcome(a.0, sent, Err(e)),
            Ok(count) => if count >= 3 {
                let s1 = send_out(a.0, sent, src, SERVER_STATUS, server_status_spec(a.0, src));
                if s1.result is Err {
                    s1
                } else {
                    let c = client_index(s1.st.clients, src);
                    if c < 0 {
                        outcome(s1.st, s1.sent, Err(HandlerError::ClientNotFound))
                    } else {
                        let b = broadcast_out(s1.st, s1.sent, USER_JOINED, user_joined_spec(s1.st.clients[c].1));
                        if b.result is Err {
                            b
                        } else {
                            send_out(b.st, b.sent, src, SERVER_INFORMATION, server_information_spec(welcome))
                        }
                    }
                }
            } else {
                send_out(a.0, sent, src, SERVER_TO_CLIENT_ACK, server_ack_spec())
            },
        }
    }
}

/// Handles CLIENT_TO_SERVER_ACK from `src` at time `now`.
pub fn handle_client_to_server_ack(
    state: &mut AppState,
    out: &mut Vec<Message>,
    src: u64,
    now: u64,
    welcome_message: &str,
) -> (r: Result<(), HandlerError>)
    requires
        old(state).wf(),
        welcome_message@.len() <= 0x1000_0000,
    ensures
        final(state).wf(),
        outcome(final(state)@, messages_view(final(out)@), r) == client_ack_spec(
            old(state)@,
            messages_view(old(out)@),
            src,
            now,
            welcome_message@,
        ),
{
    proof {
        lemma_client_index(state@.clients, src);
    }
    let ci = match state.find_client(src) {
        Some(i) => i,
        None => {
            return Err(HandlerError::MissingClient);
        },
    };
    let ack_count = match state.record_ack(ci, now) {
        Ok(n) => n,
        Err(e) => {
            return Err(e);
        },
    };
    if ack_count >= 3 {
        let data = make_server_status(src, state);
        match send_packet(state, out, src, SERVER_STATUS, data) {
            Ok(()) => {},
            Err(e) => {
                return Err(e);
            },
        }
        let data = match make_user_joined(src, state) {
            Ok(d) => d,
            Err(e) => {
                return Err(e);
            },
        };
        match broadcast_packet(state, out, USER_JOINED, data) {
            Ok(()) => {},
            Err(e) => {
                return Err(e);
            },
        }
        let data = make_server_information(welcome_message);
        send_packet(state, out, src, SERVER_INFORMATION, data)
    } else {
        let data = build_server_to_client_ack_packet();
        send_packet(state, out, src, SERVER_TO_CLIENT_ACK, data)
    }
}

/// CLIENT_KEEP_ALIVE needs nothing done.
pub fn handle_client_keep_alive(_message: &ParsedMessage, _src: u64) -> (r: Result<(), HandlerError>)
    ensures
        r == Ok::<(), HandlerError>(()),
{
    Ok(())
}

/// The message types that have a handler.
pub open spec fn handled_type(t: u8) -> bool {
    t == USER_QUIT
        || t == USER_LOGIN
        || t == CLIENT_TO_SERVER_ACK
        || t == GLOBAL_CHAT
        || t == GAME_CHAT
        || t == CREATE_GAME
        || t == QUIT_GAME
        || t == JOIN_GAME
        || t == KICK_USER
        || t == START_GAME
        || t == GAME_DATA
        || t == GAME_CACHE
        || t == DROP_GAME
        || t == READY_TO_PLAY
}

/// What a message `m` from `src` does at time `now`; a login takes session
/// id `sid`. Unknown message types are ignored.
#[verifier::opaque]
pub open spec fn message_spec(
    st: StateSpec,
    sent: Seq<(u64, Seq<u8>)>,
    m: MessageSpec,
    src: u64,
    now: u64,
    welcome: Seq<char>,
    sid: u128,
) -> Outcome {
    let t = m.kind;
    let d = m.data;
    if !handled_type(t) {
        outcome(st, sent, Ok(()))
    } else if t == USER_QUIT {
        user::user_quit_spec(st, sent, src, d)
    } else if t == USER_LOGIN {
        user::login_spec(st, sent, src, d, sid, now)
    } else if t == CLIENT_TO_SERVER_ACK {
        client_ack_spec(st, sent, src, now, welcome)
    } else if t == GLOBAL_CHAT {
        chat::global_chat_spec(st, sent, src, d)
    } else if t == GAME_CHAT {
        chat::game_chat_spec(st, sent, src, d)
    } else if t == CREATE_GAME {
        game::create_game_spec(st, sent, src, d)
    } else if t == QUIT_GAME {
        game::quit_game_spec(st, sent, src)
    } else if t == JOIN_GAME {
        game::join_game_spec(st, sent, src, d)
    } else if t == KICK_USER {
        game::kick_user_spec(st, sent, src, d)
    } else if t == START_GAME {
        game::start_request_spec(st, sent, src, d)
    } else if t == GAME_DATA {
        sync::game_data_spec_request(st, sent, src, d)
    } else if t == GAME_CACHE {
        sync::game_cache_spec_request(st, sent, src, d)
    } else if t == DROP_GAME {
        game::drop_request_spec(st, sent, src)
    } else {
        sync::ready_spec(st, sent, src, d)
    }
}

/// Handles a USER_QUIT message.
fn on_user_quit(
    state: &mut AppState,
    out: &mut Vec<Message>,
    message: &ParsedMessage,
    src: u64,
    now: u64,
    welcome_message: &str,
) -> (r: Result<(), HandlerError>)
    requires
        old(state).wf(),
        welcome_message@.len() <= 0x1000_0000,
        message.message_type == USER_QUIT,
    ensures
        final(state).wf(),
        outcome(final(state)@, messages_view(final(out)@), r) == message_spec(
            old(state)@,
            messages_view(old(out)@),
            message@,
            src,
            now,
            welcome_message@,
            0,
        ),
{
    let ghost st0 = state@;
    let ghost sent0 = messages_view(out@);
    let data = message.data.as_slice();
    let r = user::handle_user_quit(state, out, data, src);
    assert(outcome(state@, messages_view(out@), r) == message_spec(st0, sent0, message@, src, now, welcome_message@, 0)) by {
        reveal(message_spec);
    }
    r
}

/// Handles a CLIENT_TO_SERVER_ACK message.
fn on_ack(
    state: &mut AppState,
    out: &mut Vec<Message>,
    message: &ParsedMessage,
    src: u64,
    now: u64,
    welcome_message: &str,
) -> (r: Result<(), HandlerError>)
    requires
        old(state).wf(),
        welcome_message@.len() <= 0x1000_0000,
        message.message_type == CLIENT_TO_SERVER_ACK,
    ensures
        final(state).wf(),
        outcome(final(state)@, messages_view(final(out)@), r) == message_spec(
            old(state)@,
            messages_view(old(out)@),
            message@,
            src,
            now,
            welcome_message@,
            0,
        ),
{
    let ghost st0 = state@;
    let ghost sent0 = messages_view(out@);
    let data = message.data.as_slice();
    let r = handle_client_to_server_ack(state, out, src, now, welcome_message);
    assert(outcome(state@, messages_view(out@), r) == message_spec(st0, sent0, message@, src, now, welcome_message@, 0)) by {
        reveal(message_spec);
    }
    r
}

/// Handles a GLOBAL_CHAT message.
fn on_global_chat(
    state: &mut AppState,
    out: &mut Vec<Message>,
    message: &ParsedMessage,
    src: u64,
    now: u64,
    welcome_message: &str,
) -> (r: Result<(), HandlerError>)
    requires
        old(state).wf(),
        welcome_message@.len() <= 0x1000_0000,
        message.message_type == GLOBAL_CHAT,
    ensures
        final(state).wf(),
        outcome(final(state)@, messages_view(final(out)@), r) == message_spec(
            old(state)@,
            messages_view(old(out)@),
            message@,
            src,
            now,
            welcome_message@,
            0,
        ),
{
    let ghost st0 = state@;
    let ghost sent0 = messages_view(out@);
    let data = message.data.as_slice();
    let r = chat::handle_global_chat(state, out, data, src);
    assert(outcome(state@, messages_view(out@), r) == message_spec(st0, sent0, message@, src, now, welcome_message@, 0)) by {
        reveal(message_spec);
    }
    r
}

/// Handles a GAME_CHAT message.
fn on_game_chat(
    state: &mut AppState,
    out: &mut Vec<Message>,
    message: &ParsedMessage,
    src: u64,
    now: u64,
    welcome_message: &str,
) -> (r: Result<(), HandlerError>)
    requires
        old(state).wf(),
        welcome_message@.len() <= 0x1000_0000,
        message.message_type == GAME_CHAT,
    ensures
        final(state).wf(),
        outcome(final(state)@, messages_view(final(out)@), r) == message_spec(
            old(state)@,
            messages_view(old(out)@),
            message@,
            src,
            now,
            welcome_message@,
            0,
        ),
{
    let ghost st0 = state@;
    let ghost sent0 = messages_view(out@);
    let data = message.data.as_slice();
    let r = chat::handle_game_chat(state, out, data, src);
    assert(outcome(state@, messages_view(out@), r) == message_spec(st0, sent0, message@, src, now, welcome_message@, 0)) by {
        reveal(message_spec);
    }
    r
}

/// Handles a CREATE_GAME message.
fn on_create_game(
    state: &mut AppState,
    out: &mut Vec<Message>,
    message: &ParsedMessage,
    src: u64,
    now: u64,
    welcome_message: &str,
) -> (r: Result<(), HandlerError>)
    requires
        old(state).wf(),
        welcome_message@.len() <= 0x1000_0000,
        message.message_type == CREATE_GAME,
    ensures
        final(state).wf(),
        outcome(final(state)@, messages_view(final(out)@), r) == message_spec(
            old(state)@,
            messages_view(old(out)@),
            message@,
            src,
            now,
            welcome_message@,
            0,
        ),
{
    let ghost st0 = state@;
    let ghost sent0 = messages_view(out@);
    let data = message.data.as_slice();
    let r = game::handle_create_game(state, out, data, src);
    assert(outcome(state@, messages_view(out@), r) == message_spec(st0, sent0, message@, src, now, welcome_message@, 0)) by {
        reveal(message_spec);
    }
    r
}

/// Handles a QUIT_GAME message.
fn on_quit_game(
    state: &mut AppState,
    out: &mut Vec<Message>,
    message: &ParsedMessage,
    src: u64,
    now: u64,
    welcome_message: &str,
) -> (r: Result<(), HandlerError>)
    requires
        old(state).wf(),
        welcome_message@.len() <= 0x1000_0000,
        message.message_type == QUIT_GAME,
    ensures
        final(state).wf(),
        outcome(final(state)@, messages_view(final(out)@), r) == message_spec(
            old(state)@,
            messages_view(old(out)@),
            message@,
            src,
            now,
            welcome_message@,
            0,
        ),
{
    let ghost st0 = state@;
    let ghost sent0 = messages_view(out@);
    let data = message.data.as_slice();
    let r = game::handle_quit_game(state, out, crate::state::copy_vec(&message.data), src);
    assert(outcome(state@, messages_view(out@), r) == message_spec(st0, sent0, message@, src, now, welcome_message@, 0)) by {
        reveal(message_spec);
    }
    r
}

/// Handles a JOIN_GAME message.
fn on_join_game(
    state: &mut AppState,
    out: &mut Vec<Message>,
    message: &ParsedMessage,
    src: u64,
    now: u64,
    welcome_message: &str,
) -> (r: Result<(), HandlerError>)
    requires
        old(state).wf(),
        welcome_message@.len() <= 0x1000_0000,
        message.message_type == JOIN_GAME,
    ensures
        final(state).wf(),
        outcome(final(state)@, messages_view(final(out)@), r) == message_spec(
            old(state)@,
            messages_view(old(out)@),
            message@,
            src,
            now,
            welcome_message@,
            0,
        ),
{
    let ghost st0 = state@;
    let ghost sent0 = messages_view(out@);
    let data = message.data.as_slice();
    let r = game::handle_join_game(state, out, data, src);
    assert(outcome(state@, messages_view(out@), r) == message_spec(st0, sent0, message@, src, now, welcome_message@, 0)) by {
        reveal(message_spec);
    }
    r
}

/// Handles a KICK_USER message.
fn on_kick_user(
    state: &mut AppState,
    out: &mut Vec<Message>,
    message: &ParsedMessage,
    src: u64,
    now: u64,
    welcome_message: &str,
) -> (r: Result<(), HandlerError>)
    requires
        old(state).wf(),
        welcome_message@.len() <= 0x1000_0000,
        message.message_type == KICK_USER,
    ensures
        final(state).wf(),
        outcome(final(state)@, messages_view(final(out)@), r) == message_spec(
            old(state)@,
            messages_view(old(out)@),
            message@,
            src,
            now,
            welcome_message@,
            0,
        ),
{
    let ghost st0 = state@;
    let ghost sent0 = messages_view(out@);
    let data = message.data.as_slice();
    let r = game::handle_kick_user(state, out, data, src);
    assert(outcome(state@, messages_view(out@), r) == message_spec(st0, sent0, message@, src, now, welcome_message@, 0)) by {
        reveal(message_spec);
    }
    r
}

/// Handles a START_GAME message.
fn on_start_game(
    state: &mut AppState,
    out: &mut Vec<Message>,
    message: &ParsedMessage,
    src: u64,
    now: u64,
    welcome_message: &str,
) -> (r: Result<(), HandlerError>)
    requires
        old(state).wf(),
        welcome_message@.len() <= 0x1000_0000,
        message.message_type == START_GAME,
    ensures
        final(state).wf(),
        outcome(final(state)@, messages_view(final(out)@), r) == message_spec(
            old(state)@,
            messages_view(old(out)@),
            message@,
            src,
            now,
            welcome_message@,
            0,
        ),
{
    let ghost st0 = state@;
    let ghost sent0 = messages_view(out@);
    let data = message.data.as_slice();
    let r = game::handle_start_game(state, out, data, src);
    assert(outcome(state@, messages_view(out@), r) == message_spec(st0, sent0, message@, src, now, welcome_message@, 0)) by {
        reveal(message_spec);
    }
    r
}

/// Handles a GAME_DATA message.
fn on_game_data(
    state: &mut AppState,
    out: &mut Vec<Message>,
    message: &ParsedMessage,
    src: u64,
    now: u64,
    welcome_message: &str,
) -> (r: Result<(), HandlerError>)
    requires
        old(state).wf(),
        welcome_message@.len() <= 0x1000_0000,
        message.message_type == GAME_DATA,
    ensures
        final(state).wf(),
        outcome(final(state)@, messages_view(final(out)@), r) == message_spec(
            old(state)@,
            messages_view(old(out)@),
            message@,
            src,
            now,
            welcome_message@,
            0,
        ),
{
    let ghost st0 = state@;
    let ghost sent0 = messages_view(out@);
    let data = message.data.as_slice();
    let r = sync::handle_game_data(state, out, data, src);
    assert(outcome(state@, messages_view(out@), r) == message_spec(st0, sent0, message@, src, now, welcome_message@, 0)) by {
        reveal(message_spec);
    }
    r
}

/// Handles a GAME_CACHE message.
fn on_game_cache(
    state: &mut AppState,
    out: &mut Vec<Message>,
    message: &ParsedMessage,
    src: u64,
    now: u64,
    welcome_message: &str,
) -> (r: Result<(), HandlerError>)
    requires
        old(state).wf(),
        welcome_message@.len() <= 0x1000_0000,
        message.message_type == GAME_CACHE,
    ensures
        final(state).wf(),
        outcome(final(state)@, messages_view(final(out)@), r) == message_spec(
            old(state)@,
            messages_view(old(out)@),
            message@,
            src,
            now,
            welcome_message@,
            0,
        ),
{
    let ghost st0 = state@;
    let ghost sent0 = messages_view(out@);
    let data = message.data.as_slice();
    let r = sync::handle_game_cache(state, out, data, src);
    assert(outcome(state@, messages_view(out@), r) == message_spec(st0, sent0, message@, src, now, welcome_message@, 0)) by {
        reveal(message_spec);
    }
    r
}

/// Handles a DROP_GAME message.
fn on_drop_game(
    state: &mut AppState,
    out: &mut Vec<Message>,
    message: &ParsedMessage,
    src: u64,
    now: u64,
    welcome_message: &str,
) -> (r: Result<(), HandlerError>)
    requires
        old(state).wf(),
        welcome_message@.len() <= 0x1000_0000,
        message.message_type == DROP_GAME,
    ensures
        final(state).wf(),
        outcome(final(state)@, messages_view(final(out)@), r) == message_spec(
            old(state)@,
            messages_view(old(out)@),
            message@,
            src,
            now,
            welcome_message@,
            0,
        ),
{
    let ghost st0 = state@;
    let ghost sent0 = messages_view(out@);
    let data = message.data.as_slice();
    let r = game::handle_drop_game(state, out, src);
    assert(outcome(state@, messages_view(out@), r) == message_spec(st0, sent0, message@, src, now, welcome_message@, 0)) by {
        reveal(message_spec);
    }
    r
}

/// Handles a READY_TO_PLAY message.
fn on_ready(
    state: &mut AppState,
    out: &mut Vec<Message>,
    message: &ParsedMessage,
    src: u64,
    now: u64,
    welcome_message: &str,
) -> (r: Result<(), HandlerError>)
    requires
        old(state).wf(),
        welcome_message@.len() <= 0x1000_0000,
        message.message_type == READY_TO_PLAY,
    ensures
        final(state).wf(),
        outcome(final(state)@, messages_view(final(out)@), r) == message_spec(
            old(state)@,
            messages_view(old(out)@),
            message@,
            src,
            now,
            welcome_message@,
            0,
        ),
{
    let ghost st0 = state@;
    let ghost sent0 = messages_view(out@);
    let data = message.data.as_slice();
    let r = sync::handle_ready_to_play_signal(state, out, data, src);
    assert(outcome(state@, messages_view(out@), r) == message_spec(st0, sent0, message@, src, now, welcome_message@, 0)) by {
        reveal(message_spec);
    }
    r
}

/// A message of a type with no handler does nothing.
pub proof fn lemma_unhandled(
    st: StateSpec,
    sent: Seq<(u64, Seq<u8>)>,
    m: MessageSpec,
    src: u64,
    now: u64,
    welcome: Seq<char>,
    sid: u128,
)
    requires
        !handled_type(m.kind),
    ensures
        message_spec(st, sent, m, src, now, welcome, sid) == outcome(st, sent, Ok(())),
{
    reveal(message_spec);
}

/// Handles a message of a type no handler takes (CLIENT_KEEP_ALIVE among
/// them): nothing is done.
fn on_other(
    state: &mut AppState,
    out: &mut Vec<Message>,
    message: &ParsedMessage,
    src: u64,
    now: u64,
    welcome_message: &str,
) -> (r: Result<(), HandlerError>)
    requires
        old(state).wf(),
        !handled_type(message.message_type),
    ensures
        final(state).wf(),
        outcome(final(state)@, messages_view(final(out)@), r) == message_spec(
            old(state)@,
            messages_view(old(out)@),
            message@,
            src,
            now,
            welcome_message@,
            0,
        ),
{
    proof {
        lemma_unhandled(state@, messages_view(out@), message@, src, now, welcome_message@, 0);
    }
    handle_client_keep_alive(message, src)
}

/// Handles a message of a type other than USER_LOGIN.
fn dispatch(
    state: &mut AppState,
    out: &mut Vec<Message>,
    message: &ParsedMessage,
    src: u64,
    now: u64,
    welcome_message: &str,
) -> (r: Result<(), HandlerError>)
    requires
        old(state).wf(),
        welcome_message@.len() <= 0x1000_0000,
        message.message_type != USER_LOGIN,
    ensures
        final(state).wf(),
        outcome(final(state)@, messages_view(final(out)@), r) == message_spec(
            old(state)@,
            messages_view(old(out)@),
            message@,
            src,
            now,
            welcome_message@,
            0,
        ),
{
    let t = message.message_type;
    if t == USER_QUIT {
        on_user_quit(state, out, message, src, now, welcome_message)
    } else if t == CLIENT_TO_SERVER_ACK {
        on_ack(state, out, message, src, now, welcome_message)
    } else if t == GLOBAL_CHAT {
        on_global_chat(state, out, message, src, now, welcome_message)
    } else if t == GAME_CHAT {
        on_game_chat(state, out, message, src, now, welcome_message)
    } else if t == CREATE_GAME {
        on_create_game(state, out, message, src, now, welcome_message)
    } else if t == QUIT_GAME {
        on_quit_game(state, out, message, src, now, welcome_message)
    } else if t == JOIN_GAME {
        on_join_game(state, out, message, src, now, welcome_message)
    } else if t == KICK_USER {
        on_kick_user(state, out, message, src, now, welcome_message)
    } else if t == START_GAME {
        on_start_game(state, out, message, src, now, welcome_message)
    } else if t == GAME_DATA {
        on_game_data(state, out, message, src, now, welcome_message)
    } else if t == GAME_CACHE {
        on_game_cache(state, out, message, src, now, welcome_message)
    } else if t == DROP_GAME {
        on_drop_game(state, out, message, src, now, welcome_message)
    } else if t == READY_TO_PLAY {
        on_ready(state, out, message, src, now, welcome_message)
    } else {
        on_other(state, out, message, src, now, welcome_message)
    }
}

/// Handles message `message` from `src` at time `now`; a login draws a
/// random session id, so the outcome is that of some session id.
pub fn handle_message(
    state: &mut AppState,
    out: &mut Vec<Message>,
    message: &ParsedMessage,
    src: u64,
    now: u64,
    welcome_message: &str,
) -> (r: Result<(), HandlerError>)
    requires
        old(state).wf(),
        welcome_message@.len() <= 0x1000_0000,
    ensures
        final(state).wf(),
        exists|sid: u128|
            outcome(final(state)@, messages_view(final(out)@), r) == #[trigger] message_spec(
                old(state)@,
                messages_view(old(out)@),
                message@,
                src,
                now,
                welcome_message@,
                sid,
            ),
{
    let ghost st0 = state@;
    let ghost sent0 = messages_view(out@);
    let ghost m = message@;
    if message.message_type == USER_LOGIN {
        let data = message.data.as_slice();
        let r = user::handle_user_login(state, out, data, src, now);
        proof {
            let sid = choose|sid: u128| outcome(state@, messages_view(out@), r) == #[trigger] user::login_spec(st0, sent0, src, data@, sid, now);
            reveal(message_spec);
            assert(outcome(state@, messages_view(out@), r) == message_spec(st0, sent0, m, src, now, welcome_message@, sid));
        }
        r
    } else {
        let r = dispatch(state, out, message, src, now, welcome_message);
        assert(outcome(state@, messages_view(out@), r) == message_spec(st0, sent0, m, src, now, welcome_message@, 0));
        r
    }
}

} // verus!
