//! Game input during play: data and cache messages handed to the game's
//! synchronisation, and the ready-to-play signal.
use vstd::prelude::*;

use crate::handlers::game::{
    addrs_of, lemma_player_index, player_addrs, player_index, player_position, send_outputs,
    send_outputs_spec, set_players_status, set_status_all,
};
use crate::handlers::util::{
    broadcast_game_out, broadcast_out, broadcast_packet, broadcast_packet_to_game,
    game_status_spec, le16_front, make_update_game_status, outcome, ByteReader, Outcome,
};
use crate::kaillera::message_types::{READY_TO_PLAY, UPDATE_GAME_STATUS};
use crate::packet_util::build_ready_to_play_packet;
use crate::state::{
    client_index, game_index, lemma_client_index, lemma_game_index, messages_view, sync_input_spec,
    with_status, AppState, ClientSpec, HandlerError, Message, PlayerSpec, StateSpec,
    PLAYER_STATUS_NET_SYNC, PLAYER_STATUS_PLAYING,
};
use crate::sync_core::{ClientInput, InputSpec};

verus! {

/// An input from the client at `src` to the synchronisation of its game;
/// the responses it lets through go to the players they name.
pub open spec fn sync_input_request(st: StateSpec, sent: Seq<(u64, Seq<u8>)>, src: u64, input: InputSpec) -> Outcome {
    let ci = client_index(st.clients, src);
    if ci < 0 {
        outcome(st, sent, Err(HandlerError::ClientNotFound))
    } else {
        match st.clients[ci].1.game_id {
            None => outcome(st, sent, Err(HandlerError::NotInGame)),
            Some(gid) => {
                let gi = game_index(st.games, gid);
                if gi < 0 {
                    outcome(st, sent, Err(HandlerError::GameNotFound))
                } else {
                    let pi = player_index(st.games[gi].players, src);
                    if pi < 0 {
                        outcome(st, sent, Err(HandlerError::PlayerNotInGame))
                    } else {
                        let d = sync_input_spec(st, gi, pi as usize, input);
                        match d.1 {
                            Err(e) => outcome(d.0, sent, Err(e)),
                            Ok(outputs) => send_outputs_spec(
                                d.0,
                                sent,
                                addrs_of(d.0.games[gi].players),
                                outputs,
                                HandlerError::NoSuchPlayer,
                            ),
                        }
                    }
                }
            },
        }
    }
}

/// Hands an input of the client at `src` to its game's synchronisation and
/// sends what comes out.
pub fn process_input(state: &mut AppState, out: &mut Vec<Message>, src: u64, input: ClientInput) -> (r: Result<
    (),
    HandlerError,
>)
    requires
        old(state).wf(),
    ensures
        final(state).wf(),
        outcome(final(state)@, messages_view(final(out)@), r) == sync_input_request(
            old(state)@,
            messages_view(old(out)@),
            src,
            input@,
        ),
{
    let ghost st0 = state@;
    proof {
        lemma_client_index(st0.clients, src);
    }
    let ci = match state.find_client(src) {
        Some(i) => i,
        None => {
            return Err(HandlerError::ClientNotFound);
        },
    };
    assert(state.clients@[ci as int].info@ == st0.clients[ci as int].1);
    let game_id = match state.clients[ci].info.game_id {
        Some(g) => g,
        None => {
            return Err(HandlerError::NotInGame);
        },
    };
    proof {
        lemma_game_index(st0.games, game_id);
    }
    let gi = match state.find_game(game_id) {
        Some(g) => g,
        None => {
            return Err(HandlerError::GameNotFound);
        },
    };
    assert(state.games@[gi as int]@ == st0.games[gi as int]);
    let pi = match player_position(&state.games[gi], src) {
        Some(p) => p,
        None => {
            return Err(HandlerError::PlayerNotInGame);
        },
    };
    let outputs = match state.sync_input(gi, pi, input) {
        Ok(v) => v,
        Err(e) => {
            return Err(e);
        },
    };
    assert(state@.games.len() == state.games@.len());
    assert(state.games@[gi as int]@ == state@.games[gi as int]);
    let addrs = player_addrs(&state.games[gi]);
    send_outputs(state, out, &addrs, outputs, HandlerError::NoSuchPlayer)
}

/// The game data of a GAME_DATA message: after an empty string (1B), the
/// length (2B) and that many bytes; `None` when the message is too short.
pub open spec fn game_data_request(data: Seq<u8>) -> Option<Seq<u8>> {
    if data.len() < 3 {
        None
    } else {
        let n = le16_front(data.drop_first());
        let rest = data.skip(3);
        if rest.len() < n {
            None
        } else {
            Some(rest.take(n as int))
        }
    }
}

/// GAME_DATA message `data` from the client at `src`.
pub open spec fn game_data_spec_request(st: StateSpec, sent: Seq<(u64, Seq<u8>)>, src: u64, data: Seq<u8>) -> Outcome {
    match game_data_request(data) {
        None => outcome(st, sent, Err(HandlerError::MessageTooShort)),
        Some(d) => sync_input_request(st, sent, src, InputSpec::Data(d)),
    }
}

/// Handles GAME_DATA from the client at `src`.
pub fn handle_game_data(state: &mut AppState, out: &mut Vec<Message>, data: &[u8], src: u64) -> (r: Result<
    (),
    HandlerError,
>)
    requires
        old(state).wf(),
    ensures
        final(state).wf(),
        outcome(final(state)@, messages_view(final(out)@), r) == game_data_spec_request(
            old(state)@,
            messages_view(old(out)@),
            src,
            data@,
        ),
{
    let mut buf = ByteReader::new(data);
    match buf.get_u8() {
        Ok(_) => {},
        Err(e) => {
            return Err(e);
        },
    }
    let data_length = match buf.get_u16_le() {
        Ok(n) => n,
        Err(e) => {
            return Err(e);
        },
    };
    assert(data@.drop_first().skip(2) =~= data@.skip(3));
    let game_data = match buf.split_to(data_length as usize) {
        Ok(v) => v,
        Err(e) => {
            return Err(e);
        },
    };
    assert(game_data_request(data@) == Some(game_data@));
    process_input(state, out, src, ClientInput::GameData(game_data))
}

/// The cache position of a GAME_CACHE message: after an empty string (1B),
/// one byte; `None` when the message is too short.
pub open spec fn game_cache_request(data: Seq<u8>) -> Option<u8> {
    if data.len() < 2 {
        None
    } else {
        Some(data[1])
    }
}

/// GAME_CACHE message `data` from the client at `src`.
pub open spec fn game_cache_spec_request(st: StateSpec, sent: Seq<(u64, Seq<u8>)>, src: u64, data: Seq<u8>) -> Outcome {
    match game_cache_request(data) {
        None => outcome(st, sent, Err(HandlerError::MessageTooShort)),
        Some(p) => sync_input_request(st, sent, src, InputSpec::Cache(p)),
    }
}

/// Handles GAME_CACHE from the client at `src`.
pub fn handle_game_cache(state: &mut AppState, out: &mut Vec<Message>, data: &[u8], src: u64) -> (r: Result<
    (),
    HandlerError,
>)
    requires
        old(state).wf(),
    ensures
        final(state).wf(),
        outcome(final(state)@, messages_view(final(out)@), r) == game_cache_spec_request(
            old(state)@,
            messages_view(old(out)@),
            src,
            data@,
        ),
{
    let mut buf = ByteReader::new(data);
    match buf.get_u8() {
        Ok(_) => {},
        Err(e) => {
            return Err(e);
        },
    }
    let cache_position = match buf.get_u8() {
        Ok(p) => p,
        Err(e) => {
            return Err(e);
        },
    };
    assert(data@.drop_first()[0] == data@[1]);
    process_input(state, out, src, ClientInput::GameCache(cache_position))
}

/// Whether every player's client is logged in and in netsync.
pub open spec fn all_net_sync(clients: Seq<(u64, ClientSpec)>, players: Seq<PlayerSpec>) -> bool {
    forall|j: int|
        0 <= j < players.len() ==> client_index(clients, #[trigger] players[j].addr) >= 0
            && clients[client_index(clients, players[j].addr)].1.player_status == PLAYER_STATUS_NET_SYNC
}

/// READY_TO_PLAY message `data` from the client at `src`: the client is in
/// netsync, everyone hears its game's status, and once every player is in
/// netsync they all play and hear that the game begins.
pub open spec fn ready_spec(st: StateSpec, sent: Seq<(u64, Seq<u8>)>, src: u64, data: Seq<u8>) -> Outcome {
    let ci = client_index(st.clients, src);
    if data.len() < 1 {
        outcome(st, sent, Err(HandlerError::MessageTooShort))
    } else if ci < 0 {
        outcome(st, sent, Err(HandlerError::MissingClient))
    } else {
        let st1 = with_status(st, ci, PLAYER_STATUS_NET_SYNC);
        match st1.clients[ci].1.game_id {
            None => outcome(st1, sent, Err(HandlerError::NotInGame)),
            Some(gid) => {
                let gi = game_index(st1.games, gid);
                if gi < 0 {
                    outcome(st1, sent, Err(HandlerError::GameNotFound))
                } else {
                    let g = st1.games[gi];
                    let b = broadcast_out(st1, sent, UPDATE_GAME_STATUS, game_status_spec(g));
                    if b.result is Err {
                        b
                    } else if all_net_sync(b.st.clients, g.players) {
                        let s = set_status_all(b.st, addrs_of(g.players), PLAYER_STATUS_PLAYING);
                        broadcast_game_out(s.0, b.sent, g.game_id, READY_TO_PLAY, seq![0u8])
                    } else {
                        b
                    }
                }
            },
        }
    }
}

/// Whether every player of the game at position `gi` is in netsync.
fn players_ready(state: &AppState, gi: usize) -> (b: bool)
    requires
        state.wf(),
        gi < state@.games.len(),
    ensures
        b == all_net_sync(state@.clients, state@.games[gi as int].players),
{
    let ghost ps = state@.games[gi as int].players;
    assert(state@.games.len() == state.games@.len());
    assert(state.games@[gi as int]@ == state@.games[gi as int]);
    let mut j: usize = 0;
    while j < state.games[gi].players.len()
        invariant
            j <= ps.len(),
            gi < state.games@.len(),
            ps == state.games@[gi as int]@.players,
            ps.len() == state.games@[gi as int].players@.len(),
            forall|q: int|
                0 <= q < j ==> client_index(state@.clients, #[trigger] ps[q].addr) >= 0
                    && state@.clients[client_index(state@.clients, ps[q].addr)].1.player_status
                    == PLAYER_STATUS_NET_SYNC,
        decreases ps.len() - j,
    {
        let addr = state.games[gi].players[j].addr;
        assert(ps[j as int].addr == addr);
        proof {
            lemma_client_index(state@.clients, addr);
        }
        match state.find_client(addr) {
            Some(c) => {
                assert(state.clients@[c as int].info@ == state@.clients[c as int].1);
                if state.clients[c].info.player_status != PLAYER_STATUS_NET_SYNC {
                    return false;
                }
            },
            None => {
                return false;
            },
        }
        j = j + 1;
    }
    true
}

/// Handles READY_TO_PLAY from the client at `src`.
pub fn handle_ready_to_play_signal(state: &mut AppState, out: &mut Vec<Message>, data: &[u8], src: u64) -> (r:
    Result<(), HandlerError>)
    requires
        old(state).wf(),
    ensures
        final(state).wf(),
        outcome(final(state)@, messages_view(final(out)@), r) == ready_spec(
            old(state)@,
            messages_view(old(out)@),
            src,
            data@,
        ),
{
    let ghost st0 = state@;
    let mut buf = ByteReader::new(data);
    match buf.get_u8() {
        Ok(_) => {},
        Err(e) => {
            return Err(e);
        },
    }
    proof {
        lemma_client_index(st0.clients, src);
    }
    let ci = match state.find_client(src) {
        Some(i) => i,
        None => {
            return Err(HandlerError::MissingClient);
        },
    };
    state.set_client_status(ci, PLAYER_STATUS_NET_SYNC);
    let ghost st1 = state@;
    assert(state.clients@[ci as int].info@ == st1.clients[ci as int].1);
    let game_id = match state.clients[ci].info.game_id {
        Some(g) => g,
        None => {
            return Err(HandlerError::NotInGame);
        },
    };
    proof {
        lemma_game_index(st1.games, game_id);
    }
    let gi = match state.find_game(game_id) {
        Some(g) => g,
        None => {
            return Err(HandlerError::GameNotFound);
        },
    };
    assert(state.games@[gi as int]@ == st1.games[gi as int]);
    let status_data = make_update_game_status(&state.games[gi]);
    let addrs = player_addrs(&state.games[gi]);
    let gid = state.games[gi].game_id;
    match broadcast_packet(state, out, UPDATE_GAME_STATUS, status_data) {
        Ok(()) => {},
        Err(e) => {
            return Err(e);
        },
    }
    assert(state@.games == st1.games);
    if players_ready(state, gi) {
        let _ = set_players_status(state, &addrs, PLAYER_STATUS_PLAYING);
        let data = build_ready_to_play_packet();
        broadcast_packet_to_game(state, out, gid, READY_TO_PLAY, data)
    } else {
        Ok(())
    }
}

} // verus!
