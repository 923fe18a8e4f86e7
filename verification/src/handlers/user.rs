//! Logging in, quitting, and the end of a session.
use vstd::prelude::*;

use crate::handlers::game::{handle_quit_game, quit_game_spec};
use crate::handlers::util::{
    broadcast_out, broadcast_packet, outcome, read_string_bytes, send_out, send_packet,
    string_field, ByteReader, Outcome,
};
use crate::kaillera::message_types::{SERVER_TO_CLIENT_ACK, USER_QUIT};
use crate::kaillera::protocol::{le16, GeneratorSpec, UDPPacketGenerator};
use crate::packet_util::{
    build_server_to_client_ack_packet, build_user_quit_packet, null_terminated, server_ack_spec,
};
use crate::state::{
    client_index, lemma_client_index, messages_view, next_u16, put_client, AppState, ClientInfo,
    ClientSpec, HandlerError, Message, StateSpec, PLAYER_STATUS_IDLE,
};

verus! {

/// A fresh random session id, from `uuid::Uuid::new_v4`: 122 random bits,
/// with the version nibble 4 and the variant bits 10, as that function's
/// source sets them. Which id comes out is chance; nothing more is stated.
#[verifier::external_body]
fn new_session_id() -> (id: u128)
    ensures
        id & 0xF000C000000000000000u128 == 0x40008000000000000000u128,
{
    uuid::Uuid::new_v4().as_u128()
}

/// The username of a USER_LOGIN request (its first string), cut to 31
/// bytes.
pub open spec fn login_username(data: Seq<u8>) -> Seq<u8> {
    let name = string_field(data).0;
    if name.len() > 31 {
        name.take(31)
    } else {
        name
    }
}

/// The connection type of a USER_LOGIN request: the byte after the two
/// strings, or 0 when there is none.
pub open spec fn login_conn_type(data: Seq<u8>) -> u8 {
    let rest = string_field(string_field(data).1).1;
    if rest.len() > 0 {
        rest[0]
    } else {
        0
    }
}

/// The client that logs in with request `data`, session id `sid` and user
/// id `uid` at time `now`: idle, in no game, nothing sent yet.
pub open spec fn login_client_spec(data: Seq<u8>, sid: u128, uid: u16, now: u64) -> ClientSpec {
    ClientSpec {
        session_id: sid,
        username: login_username(data),
        emulator_name: string_field(string_field(data).1).0,
        conn_type: login_conn_type(data),
        user_id: uid,
        ping: 0,
        player_status: PLAYER_STATUS_IDLE,
        game_id: None,
        last_ping_time: Some(now),
        ack_count: 0,
        generator: GeneratorSpec { recent: Seq::empty(), send_count: 0 },
    }
}

/// USER_LOGIN request `data` from `src` with session id `sid` at `now`: the
/// next user id is taken, the client is held at `src` (replacing one there),
/// and it gets a SERVER_TO_CLIENT_ACK.
pub open spec fn login_spec(st: StateSpec, sent: Seq<(u64, Seq<u8>)>, src: u64, data: Seq<u8>, sid: u128, now: u64) -> Outcome {
    let uid = st.next_user_id;
    let c = login_client_spec(data, sid, uid, now);
    let st2 = StateSpec { clients: put_client(st.clients, src, c), next_user_id: next_u16(uid), ..st };
    send_out(st2, sent, src, SERVER_TO_CLIENT_ACK, server_ack_spec())
}

/// Logs in the client at `src` with session id `session_id` at time `now`.
pub fn login_client(
    state: &mut AppState,
    out: &mut Vec<Message>,
    data: &[u8],
    src: u64,
    session_id: u128,
    now: u64,
) -> (r: Result<(), HandlerError>)
    requires
        old(state).wf(),
    ensures
        final(state).wf(),
        outcome(final(state)@, messages_view(final(out)@), r) == login_spec(
            old(state)@,
            messages_view(old(out)@),
            src,
            data@,
            session_id,
            now,
        ),
{
    let mut buf = ByteReader::new(data);
    let mut username = read_string_bytes(&mut buf);
    let emulator_name = read_string_bytes(&mut buf);
    let conn_type: u8 = if !buf.is_empty() {
        match buf.get_u8() {
            Ok(b) => b,
            Err(_) => 0,
        }
    } else {
        0
    };
    if username.len() > 31 {
        username.truncate(31);
    }
    let user_id = state.next_user_id();
    let client = ClientInfo {
        session_id,
        username,
        emulator_name,
        conn_type,
        user_id,
        ping: 0,
        player_status: PLAYER_STATUS_IDLE,
        game_id: None,
        last_ping_time: Some(now),
        ack_count: 0,
        packet_generator: UDPPacketGenerator::new(),
    };
    assert(client@ == login_client_spec(data@, session_id, user_id, now));
    state.add_client(src, client);
    let ack = build_server_to_client_ack_packet();
    send_packet(state, out, src, SERVER_TO_CLIENT_ACK, ack)
}

/// Handles USER_LOGIN from `src` at time `now`, under a fresh random
/// session id.
pub fn handle_user_login(state: &mut AppState, out: &mut Vec<Message>, data: &[u8], src: u64, now: u64) -> (r: Result<
    (),
    HandlerError,
>)
    requires
        old(state).wf(),
    ensures
        final(state).wf(),
        exists|sid: u128|
            sid & 0xF000C000000000000000u128 == 0x40008000000000000000u128 && outcome(
                final(state)@,
                messages_view(final(out)@),
                r,
            ) == #[trigger] login_spec(
                old(state)@,
                messages_view(old(out)@),
                src,
                data@,
                sid,
                now,
            ),
{
    let session_id = new_session_id();
    login_client(state, out, data, src, session_id, now)
}

/// The client at `src` leaves the server: when it is held, it is removed
/// and everyone hears it left with `reason`.
pub open spec fn leave_server_spec(st: StateSpec, sent: Seq<(u64, Seq<u8>)>, src: u64, reason: Seq<u8>) -> Outcome {
    let ci = client_index(st.clients, src);
    if ci < 0 {
        outcome(st, sent, Ok(()))
    } else {
        let c = st.clients[ci].1;
        let st2 = StateSpec { clients: st.clients.remove(ci), ..st };
        broadcast_out(st2, sent, USER_QUIT, null_terminated(c.username) + le16(c.user_id) + null_terminated(reason))
    }
}

/// Removes the client at `src` and tells everyone it left with `reason`.
fn leave_server(state: &mut AppState, out: &mut Vec<Message>, src: u64, reason: &[u8]) -> (r: Result<(), HandlerError>)
    requires
        old(state).wf(),
    ensures
        final(state).wf(),
        outcome(final(state)@, messages_view(final(out)@), r) == leave_server_spec(
            old(state)@,
            messages_view(old(out)@),
            src,
            reason@,
        ),
{
    proof {
        lemma_client_index(state@.clients, src);
    }
    match state.remove_client(src) {
        Some(client) => {
            let data = build_user_quit_packet(client.username.as_slice(), client.user_id, reason);
            broadcast_packet(state, out, USER_QUIT, data)
        },
        None => Ok(()),
    }
}

/// The quit message of a USER_QUIT request: after an empty string and a
/// 2-byte code (when there are two bytes), a string.
pub open spec fn quit_message(data: Seq<u8>) -> Seq<u8> {
    let r1 = string_field(data).1;
    let r2 = if r1.len() >= 2 {
        r1.skip(2)
    } else {
        r1
    };
    string_field(r2).0
}

/// USER_QUIT request `data` from `src`: the client quits its game, then
/// leaves the server with its quit message.
pub open spec fn user_quit_spec(st: StateSpec, sent: Seq<(u64, Seq<u8>)>, src: u64, data: Seq<u8>) -> Outcome {
    let q = quit_game_spec(st, sent, src);
    if q.result is Err {
        q
    } else {
        leave_server_spec(q.st, q.sent, src, quit_message(data))
    }
}

/// Handles USER_QUIT from `src`.
pub fn handle_user_quit(state: &mut AppState, out: &mut Vec<Message>, data: &[u8], src: u64) -> (r: Result<
    (),
    HandlerError,
>)
    requires
        old(state).wf(),
    ensures
        final(state).wf(),
        outcome(final(state)@, messages_view(final(out)@), r) == user_quit_spec(
            old(state)@,
            messages_view(old(out)@),
            src,
            data@,
        ),
{
    let mut buf = ByteReader::new(data);
    let _ = read_string_bytes(&mut buf);
    if buf.len() >= 2 {
        let _ = buf.get_u16_le();
    }
    let user_message = read_string_bytes(&mut buf);
    let mut code: Vec<u8> = Vec::new();
    code.push(0x00u8);
    code.push(0xFFu8);
    code.push(0xFFu8);
    match handle_quit_game(state, out, code, src) {
        Ok(()) => {},
        Err(e) => {
            return Err(e);
        },
    }
    leave_server(state, out, src, user_message.as_slice())
}

/// The end of the session at `src` (its channel closed, or it timed out),
/// with `reason`: a client in a game quits it, whatever comes of that; the
/// client leaves the server and everyone hears why. Nothing is reported.
pub open spec fn end_session_spec(st: StateSpec, sent: Seq<(u64, Seq<u8>)>, src: u64, reason: Seq<u8>) -> Outcome {
    let ci = client_index(st.clients, src);
    if ci < 0 {
        outcome(st, sent, Ok(()))
    } else {
        let q = if st.clients[ci].1.game_id is Some {
            quit_game_spec(st, sent, src)
        } else {
            outcome(st, sent, Ok(()))
        };
        let l = leave_server_spec(q.st, q.sent, src, reason);
        outcome(l.st, l.sent, Ok(()))
    }
}

/// Ends the session at `src` with `reason`.
pub fn end_session(state: &mut AppState, out: &mut Vec<Message>, src: u64, reason: &[u8])
    requires
        old(state).wf(),
    ensures
        final(state).wf(),
        outcome(final(state)@, messages_view(final(out)@), Ok(())) == end_session_spec(
            old(state)@,
            messages_view(old(out)@),
            src,
            reason@,
        ),
{
    proof {
        lemma_client_index(state@.clients, src);
    }
    let ci = match state.find_client(src) {
        Some(i) => i,
        None => {
            return;
        },
    };
    assert(state.clients@[ci as int].info@ == state@.clients[ci as int].1);
    if state.clients[ci].info.game_id.is_some() {
        let mut code: Vec<u8> = Vec::new();
        code.push(0x00u8);
        code.push(0xFFu8);
        code.push(0xFFu8);
        let _ = handle_quit_game(state, out, code, src);
    }
    let _ = leave_server(state, out, src, reason);
}

} // verus!
