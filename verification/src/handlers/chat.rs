//! Chat in the lobby and in game rooms.
use vstd::prelude::*;

use crate::handlers::util::{
    broadcast_game_out, broadcast_out, broadcast_packet, broadcast_packet_to_game, outcome,
    read_string, string_field, utf8_lossy, ByteReader, Outcome,
};
use crate::kaillera::message_types::{GAME_CHAT, GLOBAL_CHAT};
use crate::packet_util::{build_game_chat_packet, build_global_chat_packet, null_terminated};
use crate::sync_core::copy_bytes;
use crate::state::{
    client_index, copy_vec, lemma_client_index, messages_view, AppState, HandlerError, Message,
    StateSpec,
};

verus! {

/// The text of a chat message: its second string, decoded as UTF-8 with
/// invalid sequences replaced, encoded again as UTF-8.
pub open spec fn chat_text(data: Seq<u8>) -> Seq<u8> {
    vstd::utf8::encode_utf8(utf8_lossy(string_field(string_field(data).1).0))
}

/// "Unknown", the name used for a sender that is not logged in.
pub open spec fn unknown_name() -> Seq<u8> {
    seq![85u8, 110u8, 107u8, 110u8, 111u8, 119u8, 110u8]
}

/// GLOBAL_CHAT message `data` from `src`: everyone hears it, under the
/// sender's name.
pub open spec fn global_chat_spec(st: StateSpec, sent: Seq<(u64, Seq<u8>)>, src: u64, data: Seq<u8>) -> Outcome {
    let ci = client_index(st.clients, src);
    let username = if ci >= 0 {
        st.clients[ci].1.username
    } else {
        unknown_name()
    };
    broadcast_out(st, sent, GLOBAL_CHAT, null_terminated(username) + null_terminated(chat_text(data)))
}

/// Reads the chat text of a message.
fn read_chat_text(data: &[u8]) -> (text: Vec<u8>)
    ensures
        text@ == chat_text(data@),
{
    let mut buf = ByteReader::new(data);
    let _ = read_string(&mut buf);
    let chat_message = read_string(&mut buf);
    copy_bytes(chat_message.as_str().as_bytes())
}

/// Handles GLOBAL_CHAT from `src`.
pub fn handle_global_chat(state: &mut AppState, out: &mut Vec<Message>, data: &[u8], src: u64) -> (r: Result<
    (),
    HandlerError,
>)
    requires
        old(state).wf(),
    ensures
        final(state).wf(),
        outcome(final(state)@, messages_view(final(out)@), r) == global_chat_spec(
            old(state)@,
            messages_view(old(out)@),
            src,
            data@,
        ),
{
    let text = read_chat_text(data);
    proof {
        lemma_client_index(state@.clients, src);
    }
    let username: Vec<u8> = match state.find_client(src) {
        Some(i) => {
            assert(state.clients@[i as int].info@ == state@.clients[i as int].1);
            copy_vec(&state.clients[i].info.username)
        },
        None => {
            let unknown: [u8; 7] = [85u8, 110u8, 107u8, 110u8, 111u8, 119u8, 110u8];
            assert(unknown@ =~= unknown_name());
            copy_bytes(unknown.as_slice())
        },
    };
    let packet = build_global_chat_packet(username.as_slice(), text.as_slice());
    broadcast_packet(state, out, GLOBAL_CHAT, packet)
}

/// GAME_CHAT message `data` from `src`: the players of the sender's game
/// hear it, unless the text holds the byte 0x11, which is dropped.
pub open spec fn game_chat_spec(st: StateSpec, sent: Seq<(u64, Seq<u8>)>, src: u64, data: Seq<u8>) -> Outcome {
    let ci = client_index(st.clients, src);
    if ci < 0 {
        outcome(st, sent, Err(HandlerError::ClientNotFound))
    } else {
        let c = st.clients[ci].1;
        match c.game_id {
            None => outcome(st, sent, Err(HandlerError::NotInGame)),
            Some(gid) => if chat_text(data).contains(0x11u8) {
                outcome(st, sent, Ok(()))
            } else {
                broadcast_game_out(st, sent, gid, GAME_CHAT, null_terminated(c.username) + null_terminated(chat_text(data)))
            },
        }
    }
}

/// Whether `bytes` holds `b`.
fn contains_byte(bytes: &Vec<u8>, b: u8) -> (r: bool)
    ensures
        r == bytes@.contains(b),
{
    let mut i: usize = 0;
    while i < bytes.len()
        invariant
            i <= bytes@.len(),
            forall|j: int| 0 <= j < i ==> bytes@[j] != b,
        decreases bytes@.len() - i,
    {
        if bytes[i] == b {
            assert(bytes@[i as int] == b);
            return true;
        }
        i = i + 1;
    }
    false
}

/// Handles GAME_CHAT from `src`.
pub fn handle_game_chat(state: &mut AppState, out: &mut Vec<Message>, data: &[u8], src: u64) -> (r: Result<
    (),
    HandlerError,
>)
    requires
        old(state).wf(),
    ensures
        final(state).wf(),
        outcome(final(state)@, messages_view(final(out)@), r) == game_chat_spec(
            old(state)@,
            messages_view(old(out)@),
            src,
            data@,
        ),
{
    let text = read_chat_text(data);
    proof {
        lemma_client_index(state@.clients, src);
    }
    let ci = match state.find_client(src) {
        Some(i) => i,
        None => {
            return Err(HandlerError::ClientNotFound);
        },
    };
    assert(state.clients@[ci as int].info@ == state@.clients[ci as int].1);
    let game_id = match state.clients[ci].info.game_id {
        Some(g) => g,
        None => {
            return Err(HandlerError::NotInGame);
        },
    };
    if contains_byte(&text, 0x11u8) {
        return Ok(());
    }
    let packet = build_game_chat_packet(state.clients[ci].info.username.as_slice(), text.as_slice());
    broadcast_packet_to_game(state, out, game_id, GAME_CHAT, packet)
}

} // verus!
