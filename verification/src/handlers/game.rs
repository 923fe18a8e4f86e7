//! Game rooms: creating, joining, quitting, kicking, starting and dropping.
use vstd::prelude::*;

use crate::handlers::util::{
    broadcast_game_out, broadcast_out, broadcast_packet, broadcast_packet_to_game,
    build_join_game_response, build_new_game_notification, game_status_spec, join_response_spec,
    le16_front,
    make_player_information, make_update_game_status, new_game_spec, outcome,
    le32_value, player_information_spec, read_string_bytes, send_out, send_packet, string_field,
    ByteReader,
    Outcome,
};
use crate::kaillera::message_types::{
    CLOSE_GAME, CREATE_GAME, DROP_GAME, GAME_CACHE, GAME_CHAT, GAME_DATA, JOIN_GAME,
    PLAYER_INFORMATION, QUIT_GAME, START_GAME, UPDATE_GAME_STATUS,
};
use crate::kaillera::protocol::{le16, le32};
use crate::packet_util::{
    build_close_game_packet, build_drop_game_packet, build_game_cache_packet,
    build_quit_game_packet, build_game_chat_packet, build_game_data_packet,
    build_start_game_packet, game_data_spec, start_game_spec,
    null_terminated,
};
use crate::simplest_game_sync::{delays_ok, CachedGameSync, CachedPlayerOutput, CachedSpec, SyncSpec};
use crate::state::{
    all_dropped_spec, client_index, copy_vec, game_index, lemma_client_index, lemma_game_index,
    messages_view, next_u32, players_view, put_game, sync_drop_spec, with_game, with_game_entry,
    with_status, AppState, ClientSpec, GameInfo, GamePlayerInfo, GameSpec, HandlerError, Message, PlayerSpec, StateSpec, GAME_STATUS_PLAYING,
    GAME_STATUS_WAITING, PLAYER_STATUS_IDLE, PLAYER_STATUS_NET_SYNC,
};
use crate::sync_core::{ResponseSpec, ServerResponse};

verus! {

/// Index of the first player at `addr`, or -1.
pub open spec fn player_index(players: Seq<PlayerSpec>, addr: u64) -> int
    decreases players.len(),
{
    if players.len() == 0 {
        -1
    } else if players[0].addr == addr {
        0
    } else {
        let i = player_index(players.drop_first(), addr);
        if i < 0 {
            -1
        } else {
            i + 1
        }
    }
}

pub proof fn lemma_player_index(players: Seq<PlayerSpec>, addr: u64)
    ensures
        -1 <= player_index(players, addr) < players.len(),
        player_index(players, addr) >= 0 ==> players[player_index(players, addr)].addr == addr,
        player_index(players, addr) < 0 ==> forall|j: int| 0 <= j < players.len() ==> #[trigger] players[j].addr != addr,
    decreases players.len(),
{
    if players.len() > 0 && players[0].addr != addr {
        lemma_player_index(players.drop_first(), addr);
        if player_index(players, addr) < 0 {
            assert forall|j: int| 0 <= j < players.len() implies #[trigger] players[j].addr != addr by {
                if j > 0 {
                    assert(players[j] == players.drop_first()[j - 1]);
                }
            }
        }
    }
}

/// `player_index` is the first position with `addr`.
pub proof fn lemma_player_index_first(players: Seq<PlayerSpec>, addr: u64, i: int)
    requires
        0 <= i <= players.len(),
        forall|j: int| 0 <= j < i ==> #[trigger] players[j].addr != addr,
    ensures
        i < players.len() && players[i].addr == addr ==> player_index(players, addr) == i,
        i == players.len() ==> player_index(players, addr) == -1,
    decreases i,
{
    if i > 0 {
        assert(players[0].addr != addr);
        let rest = players.drop_first();
        assert forall|j: int| 0 <= j < i - 1 implies #[trigger] rest[j].addr != addr by {
            assert(rest[j] == players[j + 1]);
        }
        if i < players.len() {
            assert(rest[i - 1] == players[i]);
        }
        lemma_player_index_first(rest, addr, i - 1);
    }
}

/// The position of the first player at `addr`.
pub fn player_position(game: &GameInfo, addr: u64) -> (r: Option<usize>)
    ensures
        r is None <==> player_index(game@.players, addr) < 0,
        r matches Some(i) ==> i == player_index(game@.players, addr),
{
    let ghost ps = game@.players;
    let mut i: usize = 0;
    while i < game.players.len()
        invariant
            i <= ps.len(),
            ps == game@.players,
            ps.len() == game.players@.len(),
            forall|j: int| 0 <= j < i ==> #[trigger] ps[j].addr != addr,
        decreases game.players@.len() - i,
    {
        assert(ps[i as int] == game.players@[i as int]@);
        if game.players[i].addr == addr {
            proof {
                lemma_player_index_first(ps, addr, i as int);
            }
            return Some(i);
        }
        i = i + 1;
    }
    proof {
        lemma_player_index_first(ps, addr, i as int);
    }
    None
}

/// The addresses of the players.
pub open spec fn addrs_of(players: Seq<PlayerSpec>) -> Seq<u64> {
    players.map_values(|p: PlayerSpec| p.addr)
}

pub fn player_addrs(game: &GameInfo) -> (v: Vec<u64>)
    ensures
        v@ == addrs_of(game@.players),
{
    let mut v: Vec<u64> = Vec::new();
    let mut i: usize = 0;
    while i < game.players.len()
        invariant
            i <= game.players@.len(),
            v@ =~= addrs_of(game@.players).take(i as int),
        decreases game.players@.len() - i,
    {
        assert(game@.players[i as int] == game.players@[i as int]@);
        v.push(game.players[i].addr);
        i = i + 1;
        assert(v@ =~= addrs_of(game@.players).take(i as int));
    }
    assert(addrs_of(game@.players).take(i as int) =~= addrs_of(game@.players));
    v
}

/// Every listed client gets `status`; a listed address with no client
/// stops there.
pub open spec fn set_status_all(st: StateSpec, addrs: Seq<u64>, status: u8) -> (StateSpec, Result<(), HandlerError>)
    decreases addrs.len(),
{
    if addrs.len() == 0 {
        (st, Ok(()))
    } else {
        let prev = set_status_all(st, addrs.drop_last(), status);
        if prev.1 is Err {
            prev
        } else {
            let i = client_index(prev.0.clients, addrs.last());
            if i < 0 {
                (prev.0, Err(HandlerError::MissingClient))
            } else {
                (with_status(prev.0, i, status), Ok(()))
            }
        }
    }
}

/// Every listed client leaves its game and becomes idle; a listed address
/// with no client stops there.
pub open spec fn leave_all(st: StateSpec, addrs: Seq<u64>) -> (StateSpec, Result<(), HandlerError>)
    decreases addrs.len(),
{
    if addrs.len() == 0 {
        (st, Ok(()))
    } else {
        let prev = leave_all(st, addrs.drop_last());
        if prev.1 is Err {
            prev
        } else {
            let i = client_index(prev.0.clients, addrs.last());
            if i < 0 {
                (prev.0, Err(HandlerError::MissingClient))
            } else {
                (with_status(with_game(prev.0, i, None), i, PLAYER_STATUS_IDLE), Ok(()))
            }
        }
    }
}

/// Once `set_status_all` fails on a prefix, longer prefixes fail the same way.
pub proof fn lemma_set_status_all_stops(st: StateSpec, addrs: Seq<u64>, status: u8, m: int, n: int)
    requires
        0 <= m <= n <= addrs.len(),
        set_status_all(st, addrs.take(m), status).1 is Err,
    ensures
        set_status_all(st, addrs.take(n), status) == set_status_all(st, addrs.take(m), status),
    decreases n - m,
{
    if n > m {
        lemma_set_status_all_stops(st, addrs, status, m, n - 1);
        assert(addrs.take(n).drop_last() =~= addrs.take(n - 1));
    }
}

/// Once `leave_all` fails on a prefix, longer prefixes fail the same way.
pub proof fn lemma_leave_all_stops(st: StateSpec, addrs: Seq<u64>, m: int, n: int)
    requires
        0 <= m <= n <= addrs.len(),
        leave_all(st, addrs.take(m)).1 is Err,
    ensures
        leave_all(st, addrs.take(n)) == leave_all(st, addrs.take(m)),
    decreases n - m,
{
    if n > m {
        lemma_leave_all_stops(st, addrs, m, n - 1);
        assert(addrs.take(n).drop_last() =~= addrs.take(n - 1));
    }
}

/// Setting statuses never changes the games.
pub proof fn lemma_set_status_all_keeps_games(st: StateSpec, addrs: Seq<u64>, status: u8)
    ensures
        set_status_all(st, addrs, status).0.games == st.games,
    decreases addrs.len(),
{
    if addrs.len() > 0 {
        lemma_set_status_all_keeps_games(st, addrs.drop_last(), status);
    }
}

/// Gives every listed client `status`.
pub fn set_players_status(state: &mut AppState, addrs: &Vec<u64>, status: u8) -> (r: Result<(), HandlerError>)
    requires
        old(state).wf(),
    ensures
        final(state).wf(),
        (final(state)@, r) == set_status_all(old(state)@, addrs@, status),
{
    let ghost st0 = state@;
    let mut k: usize = 0;
    assert(addrs@.take(0) =~= Seq::<u64>::empty());
    while k < addrs.len()
        invariant
            k <= addrs@.len(),
            state.wf(),
            st0 == old(state)@,
            (state@, Ok::<(), HandlerError>(())) == set_status_all(st0, addrs@.take(k as int), status),
        decreases addrs@.len() - k,
    {
        assert(addrs@.take(k + 1).drop_last() =~= addrs@.take(k as int));
        assert(addrs@.take(k + 1).last() == addrs@[k as int]);
        proof {
            lemma_client_index(state@.clients, addrs@[k as int]);
        }
        match state.find_client(addrs[k]) {
            Some(i) => {
                state.set_client_status(i, status);
            },
            None => {
                proof {
                    lemma_set_status_all_stops(st0, addrs@, status, k + 1, addrs@.len() as int);
                    assert(addrs@.take(addrs@.len() as int) =~= addrs@);
                }
                return Err(HandlerError::MissingClient);
            },
        }
        k = k + 1;
    }
    assert(addrs@.take(k as int) =~= addrs@);
    Ok(())
}

/// Every listed client leaves its game and becomes idle.
pub fn leave_game_all(state: &mut AppState, addrs: &Vec<u64>) -> (r: Result<(), HandlerError>)
    requires
        old(state).wf(),
    ensures
        final(state).wf(),
        (final(state)@, r) == leave_all(old(state)@, addrs@),
{
    let ghost st0 = state@;
    let mut k: usize = 0;
    assert(addrs@.take(0) =~= Seq::<u64>::empty());
    while k < addrs.len()
        invariant
            k <= addrs@.len(),
            state.wf(),
            st0 == old(state)@,
            (state@, Ok::<(), HandlerError>(())) == leave_all(st0, addrs@.take(k as int)),
        decreases addrs@.len() - k,
    {
        assert(addrs@.take(k + 1).drop_last() =~= addrs@.take(k as int));
        assert(addrs@.take(k + 1).last() == addrs@[k as int]);
        proof {
            lemma_client_index(state@.clients, addrs@[k as int]);
        }
        match state.find_client(addrs[k]) {
            Some(i) => {
                state.set_client_game(i, None);
                state.set_client_status(i, PLAYER_STATUS_IDLE);
            },
            None => {
                proof {
                    lemma_leave_all_stops(st0, addrs@, k + 1, addrs@.len() as int);
                    assert(addrs@.take(addrs@.len() as int) =~= addrs@);
                }
                return Err(HandlerError::MissingClient);
            },
        }
        k = k + 1;
    }
    assert(addrs@.take(k as int) =~= addrs@);
    Ok(())
}

/// The message that carries a synchronisation response.
pub open spec fn output_message(r: ResponseSpec) -> (u8, Seq<u8>) {
    match r {
        ResponseSpec::Data(d) => (GAME_DATA, game_data_spec(d)),
        ResponseSpec::Cache(p) => (GAME_CACHE, seq![0u8, p]),
    }
}

/// Each response sent to the player it names (an address of `addrs`, by
/// player number); a number past the list stops there.
pub open spec fn send_outputs_spec(
    st: StateSpec,
    sent: Seq<(u64, Seq<u8>)>,
    addrs: Seq<u64>,
    outputs: Seq<(usize, ResponseSpec)>,
    missing: HandlerError,
) -> Outcome
    decreases outputs.len(),
{
    if outputs.len() == 0 {
        outcome(st, sent, Ok(()))
    } else {
        let prev = send_outputs_spec(st, sent, addrs, outputs.drop_last(), missing);
        if prev.result is Err {
            prev
        } else {
            let o = outputs.last();
            if o.0 >= addrs.len() {
                outcome(prev.st, prev.sent, Err(missing))
            } else {
                let m = output_message(o.1);
                send_out(prev.st, prev.sent, addrs[o.0 as int], m.0, m.1)
            }
        }
    }
}

/// Once `send_outputs_spec` fails on a prefix, longer prefixes fail the
/// same way.
pub proof fn lemma_send_outputs_stops(
    st: StateSpec,
    sent: Seq<(u64, Seq<u8>)>,
    addrs: Seq<u64>,
    outputs: Seq<(usize, ResponseSpec)>,
    missing: HandlerError,
    m: int,
    n: int,
)
    requires
        0 <= m <= n <= outputs.len(),
        send_outputs_spec(st, sent, addrs, outputs.take(m), missing).result is Err,
    ensures
        send_outputs_spec(st, sent, addrs, outputs.take(n), missing) == send_outputs_spec(
            st,
            sent,
            addrs,
            outputs.take(m),
            missing,
        ),
    decreases n - m,
{
    if n > m {
        lemma_send_outputs_stops(st, sent, addrs, outputs, missing, m, n - 1);
        assert(outputs.take(n).drop_last() =~= outputs.take(n - 1));
    }
}

/// Sends each response to the player it names.
pub fn send_outputs(
    state: &mut AppState,
    out: &mut Vec<Message>,
    addrs: &Vec<u64>,
    outputs: Vec<CachedPlayerOutput>,
    missing: HandlerError,
) -> (r: Result<(), HandlerError>)
    requires
        old(state).wf(),
    ensures
        final(state).wf(),
        outcome(final(state)@, messages_view(final(out)@), r) == send_outputs_spec(
            old(state)@,
            messages_view(old(out)@),
            addrs@,
            crate::sync_core::responses_view(outputs@),
            missing,
        ),
{
    let ghost st0 = state@;
    let ghost sent0 = messages_view(out@);
    let ghost os = crate::sync_core::responses_view(outputs@);
    let mut k: usize = 0;
    assert(os.take(0) =~= Seq::<(usize, ResponseSpec)>::empty());
    while k < outputs.len()
        invariant
            k <= outputs@.len(),
            os == crate::sync_core::responses_view(outputs@),
            state.wf(),
            st0 == old(state)@,
            sent0 == messages_view(old(out)@),
            outcome(state@, messages_view(out@), Ok(())) == send_outputs_spec(st0, sent0, addrs@, os.take(k as int), missing),
        decreases outputs@.len() - k,
    {
        assert(os.take(k + 1).drop_last() =~= os.take(k as int));
        assert(os.take(k + 1).last() == os[k as int]);
        let output = &outputs[k];
        assert(os[k as int] == (output.player_id, output.response@));
        if output.player_id >= addrs.len() {
            proof {
                lemma_send_outputs_stops(st0, sent0, addrs@, os, missing, k + 1, os.len() as int);
                assert(os.take(os.len() as int) =~= os);
            }
            return Err(missing);
        }
        let target = addrs[output.player_id];
        let (message_type, data_to_send) = match &output.response {
            ServerResponse::GameData(data) => (GAME_DATA, build_game_data_packet(data.as_slice())),
            ServerResponse::GameCache(position) => (GAME_CACHE, build_game_cache_packet(*position)),
        };
        assert((message_type, data_to_send@) == output_message(output.response@));
        match send_packet(state, out, target, message_type, data_to_send) {
            Ok(()) => {},
            Err(e) => {
                proof {
                    lemma_send_outputs_stops(st0, sent0, addrs@, os, missing, k + 1, os.len() as int);
                    assert(os.take(os.len() as int) =~= os);
                }
                return Err(e);
            },
        }
        k = k + 1;
    }
    assert(os.take(k as int) =~= os);
    Ok(())
}

/// DROP_GAME notification: who dropped and its player number.
pub open spec fn drop_payload(username: Seq<u8>, number: u8) -> Seq<u8> {
    null_terminated(username).push(number)
}

/// When every player of the game at position `gi` has dropped, the game goes
/// back to waiting, everyone hears of it, and its synchronisation ends.
pub open spec fn end_if_all_dropped(st: StateSpec, sent: Seq<(u64, Seq<u8>)>, gi: int) -> Outcome {
    let g = st.games[gi];
    if all_dropped_spec(g.sync.unwrap()) {
        let st_a = with_game_entry(st, gi, GameSpec { game_status: GAME_STATUS_WAITING, ..g });
        let b = broadcast_out(st_a, sent, UPDATE_GAME_STATUS, game_status_spec(st_a.games[gi]));
        if b.result is Ok {
            outcome(with_game_entry(b.st, gi, GameSpec { sync: None, ..b.st.games[gi] }), b.sent, Ok(()))
        } else {
            b
        }
    } else {
        outcome(st, sent, Ok(()))
    }
}

/// After a drop: every player of the game at position `gi` becomes idle,
/// the players of game `gid` hear who dropped, and the outputs the drop let
/// through go out.
pub open spec fn announce_drop(
    st: StateSpec,
    sent: Seq<(u64, Seq<u8>)>,
    gi: int,
    gid: u32,
    username: Seq<u8>,
    number: u8,
    outputs: Seq<(usize, ResponseSpec)>,
) -> Outcome {
    let addrs = addrs_of(st.games[gi].players);
    let idle = set_status_all(st, addrs, PLAYER_STATUS_IDLE);
    if idle.1 is Err {
        outcome(idle.0, sent, idle.1)
    } else {
        let b = broadcast_game_out(idle.0, sent, gid, DROP_GAME, drop_payload(username, number));
        if b.result is Err {
            b
        } else {
            send_outputs_spec(b.st, b.sent, addrs, outputs, HandlerError::MissingPlayer)
        }
    }
}

/// What `execute_drop_game` does, and whether the game was dropped.
///
/// The client at `src` drops out of game `gid` when the game is playing and
/// the client is among its players: the synchronisation marks it dropped,
/// the game ends when all have dropped (`end_if_all_dropped`), and the drop
/// is announced (`announce_drop`).
pub open spec fn drop_game_spec(st: StateSpec, sent: Seq<(u64, Seq<u8>)>, gid: u32, src: u64) -> (Outcome, bool) {
    let ci = client_index(st.clients, src);
    let gi = game_index(st.games, gid);
    if ci < 0 {
        (outcome(st, sent, Err(HandlerError::ClientNotFound)), false)
    } else if gi < 0 || st.games[gi].game_status != GAME_STATUS_PLAYING || player_index(
        st.games[gi].players,
        src,
    ) < 0 {
        (outcome(st, sent, Ok(())), false)
    } else {
        let username = st.clients[ci].1.username;
        let pi = player_index(st.games[gi].players, src);
        let d = sync_drop_spec(st, gi, pi as usize);
        match d.1 {
            Err(e) => (outcome(d.0, sent, Err(e)), false),
            Ok(outputs) => {
                let a = end_if_all_dropped(d.0, sent, gi);
                let w = if a.result is Err {
                    a
                } else {
                    announce_drop(a.st, a.sent, gi, gid, username, (pi + 1) as u8, outputs)
                };
                (w, w.result is Ok)
            },
        }
    }
}

/// Ends the game at position `gi` when every player has dropped.
fn finish_if_all_dropped(state: &mut AppState, out: &mut Vec<Message>, gi: usize) -> (r: Result<(), HandlerError>)
    requires
        old(state).wf(),
        gi < old(state)@.games.len(),
        old(state)@.games[gi as int].sync is Some,
    ensures
        final(state).wf(),
        final(state)@.games.len() == old(state)@.games.len(),
        outcome(final(state)@, messages_view(final(out)@), r) == end_if_all_dropped(
            old(state)@,
            messages_view(old(out)@),
            gi as int,
        ),
{
    if state.all_dropped(gi) {
        state.set_game_status(gi, GAME_STATUS_WAITING);
        assert(state@.games.len() == state.games@.len());
        assert(state.games@[gi as int]@ == state@.games[gi as int]);
        let status_data = make_update_game_status(&state.games[gi]);
        let ghost st_a = state@;
        match broadcast_packet(state, out, UPDATE_GAME_STATUS, status_data) {
            Ok(()) => {},
            Err(e) => {
                return Err(e);
            },
        }
        assert(state@.games == st_a.games);
        state.clear_sync(gi);
    }
    Ok(())
}

/// Announces a drop to the players of the game at position `gi` (id `gid`).
fn announce_drop_exec(
    state: &mut AppState,
    out: &mut Vec<Message>,
    gi: usize,
    gid: u32,
    username: &[u8],
    number: u8,
    outputs: Vec<CachedPlayerOutput>,
) -> (r: Result<(), HandlerError>)
    requires
        old(state).wf(),
        gi < old(state)@.games.len(),
    ensures
        final(state).wf(),
        outcome(final(state)@, messages_view(final(out)@), r) == announce_drop(
            old(state)@,
            messages_view(old(out)@),
            gi as int,
            gid,
            username@,
            number,
            crate::sync_core::responses_view(outputs@),
        ),
{
    assert(state.games@[gi as int]@ == state@.games[gi as int]);
    let addrs = player_addrs(&state.games[gi]);
    match set_players_status(state, &addrs, PLAYER_STATUS_IDLE) {
        Ok(()) => {},
        Err(e) => {
            return Err(e);
        },
    }
    let data = build_drop_game_packet(username, number);
    match broadcast_packet_to_game(state, out, gid, DROP_GAME, data) {
        Ok(()) => {},
        Err(e) => {
            return Err(e);
        },
    }
    send_outputs(state, out, &addrs, outputs, HandlerError::MissingPlayer)
}

/// The result without its value.
pub open spec fn unit_of(r: Result<bool, HandlerError>) -> Result<(), HandlerError> {
    match r {
        Ok(_) => Ok(()),
        Err(e) => Err(e),
    }
}

/// Drops the client at `src` out of game `game_id`: ends the game session
/// but keeps the room open. Returns whether the game was dropped; it is not
/// when the game is missing, not playing, or the client is not among its
/// players.
pub fn execute_drop_game(state: &mut AppState, out: &mut Vec<Message>, game_id: u32, src: u64) -> (r: Result<
    bool,
    HandlerError,
>)
    requires
        old(state).wf(),
    ensures
        final(state).wf(),
        outcome(final(state)@, messages_view(final(out)@), unit_of(r)) == drop_game_spec(
            old(state)@,
            messages_view(old(out)@),
            game_id,
            src,
        ).0,
        r matches Ok(b) ==> b == drop_game_spec(old(state)@, messages_view(old(out)@), game_id, src).1,
{
    let ghost st0 = state@;
    let ghost sent0 = messages_view(out@);
    proof {
        lemma_client_index(st0.clients, src);
        lemma_game_index(st0.games, game_id);
    }
    let ci = match state.find_client(src) {
        Some(i) => i,
        None => {
            return Err(HandlerError::ClientNotFound);
        },
    };
    assert(state.clients@[ci as int].info@ == st0.clients[ci as int].1);
    let username = copy_vec(&state.clients[ci].info.username);
    let gi = match state.find_game(game_id) {
        Some(g) => g,
        None => {
            return Ok(false);
        },
    };
    assert(state.games@[gi as int]@ == st0.games[gi as int]);
    assert(state.games@[gi as int].wf());
    if state.games[gi].game_status != GAME_STATUS_PLAYING {
        return Ok(false);
    }
    let pi = match player_position(&state.games[gi], src) {
        Some(p) => p,
        None => {
            return Ok(false);
        },
    };
    let outputs = match state.sync_drop(gi, pi) {
        Ok(v) => v,
        Err(e) => {
            return Err(e);
        },
    };
    let ghost st1 = state@;
    assert(st1.games[gi as int].sync is Some);
    match finish_if_all_dropped(state, out, gi) {
        Ok(()) => {},
        Err(e) => {
            return Err(e);
        },
    }
    proof {
        lemma_player_index(st0.games[gi as int].players, src);
    }
    assert(pi < 255);
    let number: u8 = (pi + 1) as u8;
    match announce_drop_exec(state, out, gi, game_id, username.as_slice(), number, outputs) {
        Ok(()) => {},
        Err(e) => {
            return Err(e);
        },
    }
    Ok(true)
}

/// Drop request: the client drops out of the game it is in.
pub open spec fn drop_request_spec(st: StateSpec, sent: Seq<(u64, Seq<u8>)>, src: u64) -> Outcome {
    let ci = client_index(st.clients, src);
    if ci < 0 {
        outcome(st, sent, Err(HandlerError::ClientNotFound))
    } else {
        match st.clients[ci].1.game_id {
            None => outcome(st, sent, Err(HandlerError::NotInGame)),
            Some(gid) => drop_game_spec(st, sent, gid, src).0,
        }
    }
}

/// Handles DROP_GAME from the client at `src`.
pub fn handle_drop_game(state: &mut AppState, out: &mut Vec<Message>, src: u64) -> (r: Result<(), HandlerError>)
    requires
        old(state).wf(),
    ensures
        final(state).wf(),
        outcome(final(state)@, messages_view(final(out)@), r) == drop_request_spec(
            old(state)@,
            messages_view(old(out)@),
            src,
        ),
{
    proof {
        lemma_client_index(state@.clients, src);
    }
    let ci = match state.find_client(src) {
        Some(i) => i,
        None => {
            return Err(HandlerError::ClientNotFound);
        },
    };
    assert(state.clients@[ci as int].info@ == state@.clients[ci as int].1);
    let game_id = match state.clients[ci].info.game_id {
        Some(g) => g,
        None => {
            return Err(HandlerError::NotInGame);
        },
    };
    match execute_drop_game(state, out, game_id, src) {
        Ok(_) => Ok(()),
        Err(e) => Err(e),
    }
}

/// QUIT_GAME notification: username and user id.
pub open spec fn quit_payload(username: Seq<u8>, user_id: u16) -> Seq<u8> {
    null_terminated(username) + le16(user_id)
}

/// The owner left: game `gid` closes, its players (`g`'s) leave it, everyone
/// hears it closed, and then its players hear who quit, which finds the game
/// gone.
pub open spec fn close_stage(
    st: StateSpec,
    sent: Seq<(u64, Seq<u8>)>,
    gid: u32,
    g: GameSpec,
    username: Seq<u8>,
    user_id: u16,
) -> Outcome {
    let st4 = StateSpec { games: st.games.remove(game_index(st.games, gid)), ..st };
    let l = leave_all(st4, addrs_of(g.players));
    if l.1 is Err {
        outcome(l.0, sent, l.1)
    } else {
        let b = broadcast_out(l.0, sent, CLOSE_GAME, seq![0u8] + le32(gid));
        if b.result is Err {
            b
        } else {
            broadcast_game_out(b.st, b.sent, gid, QUIT_GAME, quit_payload(username, user_id))
        }
    }
}

/// A player other than the owner left: everyone hears the game's status,
/// and its players hear who quit.
pub open spec fn leave_stage(
    st: StateSpec,
    sent: Seq<(u64, Seq<u8>)>,
    gid: u32,
    g: GameSpec,
    username: Seq<u8>,
    user_id: u16,
) -> Outcome {
    let b = broadcast_out(st, sent, UPDATE_GAME_STATUS, game_status_spec(g));
    if b.result is Err {
        b
    } else {
        broadcast_game_out(b.st, b.sent, gid, QUIT_GAME, quit_payload(username, user_id))
    }
}

/// After the drop: the client at `src` (`username`, `user_id`) leaves game
/// `gid`, becomes idle, and the game closes when the client owned it.
pub open spec fn quit_stage(
    st: StateSpec,
    sent: Seq<(u64, Seq<u8>)>,
    gid: u32,
    src: u64,
    username: Seq<u8>,
    user_id: u16,
) -> Outcome {
    let gi = game_index(st.games, gid);
    if gi < 0 {
        outcome(st, sent, Ok(()))
    } else {
        let g0 = st.games[gi];
        let pi = player_index(g0.players, src);
        let st2 = if pi >= 0 {
            with_game_entry(
                st,
                gi,
                GameSpec { players: g0.players.remove(pi), num_players: (g0.num_players - 1) as u8, ..g0 },
            )
        } else {
            st
        };
        let g = st2.games[gi];
        let ci = client_index(st2.clients, src);
        if ci < 0 {
            outcome(st2, sent, Err(HandlerError::MissingClient))
        } else {
            let st3 = with_status(with_game(st2, ci, None), ci, PLAYER_STATUS_IDLE);
            if g.owner_user_id == user_id {
                close_stage(st3, sent, gid, g, username, user_id)
            } else {
                leave_stage(st3, sent, gid, g, username, user_id)
            }
        }
    }
}

/// Quit request: a client in a game first drops out of it (whatever comes
/// of that), then leaves it (`quit_stage`). A client that is not logged in
/// or in no game is ignored.
pub open spec fn quit_game_spec(st: StateSpec, sent: Seq<(u64, Seq<u8>)>, src: u64) -> Outcome {
    let ci = client_index(st.clients, src);
    if ci < 0 {
        outcome(st, sent, Ok(()))
    } else {
        let c = st.clients[ci].1;
        match c.game_id {
            None => outcome(st, sent, Ok(())),
            Some(gid) => {
                let d = drop_game_spec(st, sent, gid, src).0;
                quit_stage(d.st, d.sent, gid, src, c.username, c.user_id)
            },
        }
    }
}

/// Closes game `gid` after its owner left.
fn close_game_exec(
    state: &mut AppState,
    out: &mut Vec<Message>,
    gid: u32,
    g: Ghost<GameSpec>,
    addrs: &Vec<u64>,
    username: &[u8],
    user_id: u16,
) -> (r: Result<(), HandlerError>)
    requires
        old(state).wf(),
        addrs@ == addrs_of(g@.players),
        game_index(old(state)@.games, gid) >= 0,
    ensures
        final(state).wf(),
        outcome(final(state)@, messages_view(final(out)@), r) == close_stage(
            old(state)@,
            messages_view(old(out)@),
            gid,
            g@,
            username@,
            user_id,
        ),
{
    let _ = state.remove_game(gid);
    match leave_game_all(state, addrs) {
        Ok(()) => {},
        Err(e) => {
            return Err(e);
        },
    }
    let data = build_close_game_packet(gid);
    match broadcast_packet(state, out, CLOSE_GAME, data) {
        Ok(()) => {},
        Err(e) => {
            return Err(e);
        },
    }
    let data = build_quit_game_packet(username, user_id);
    broadcast_packet_to_game(state, out, gid, QUIT_GAME, data)
}

/// The client at `src` leaves game `gid` after dropping out of it.
fn quit_after_drop(
    state: &mut AppState,
    out: &mut Vec<Message>,
    gid: u32,
    src: u64,
    username: &[u8],
    user_id: u16,
) -> (r: Result<(), HandlerError>)
    requires
        old(state).wf(),
    ensures
        final(state).wf(),
        outcome(final(state)@, messages_view(final(out)@), r) == quit_stage(
            old(state)@,
            messages_view(old(out)@),
            gid,
            src,
            username@,
            user_id,
        ),
{
    let ghost st0 = state@;
    proof {
        lemma_game_index(st0.games, gid);
    }
    let gi = match state.find_game(gid) {
        Some(g) => g,
        None => {
            return Ok(());
        },
    };
    assert(state.games@[gi as int]@ == st0.games[gi as int]);
    match player_position(&state.games[gi], src) {
        Some(pi) => {
            proof {
                lemma_player_index(st0.games[gi as int].players, src);
            }
            state.remove_player(gi, pi);
        },
        None => {},
    }
    let ghost st2 = state@;
    assert(st2.games.len() == st0.games.len());
    assert(state@.games.len() == state.games@.len());
    assert(state.games@[gi as int]@ == st2.games[gi as int]);
    let ghost g = st2.games[gi as int];
    let addrs = player_addrs(&state.games[gi]);
    let owner = state.games[gi].owner_user_id;
    let status_data = make_update_game_status(&state.games[gi]);
    proof {
        lemma_client_index(st2.clients, src);
    }
    let ci = match state.find_client(src) {
        Some(i) => i,
        None => {
            return Err(HandlerError::MissingClient);
        },
    };
    state.set_client_game(ci, None);
    state.set_client_status(ci, PLAYER_STATUS_IDLE);
    if owner == user_id {
        proof {
            lemma_game_index(state@.games, gid);
        }
        assert(state@.games == st2.games);
        close_game_exec(state, out, gid, Ghost(g), &addrs, username, user_id)
    } else {
        match broadcast_packet(state, out, UPDATE_GAME_STATUS, status_data) {
            Ok(()) => {},
            Err(e) => {
                return Err(e);
            },
        }
        let data = build_quit_game_packet(username, user_id);
        broadcast_packet_to_game(state, out, gid, QUIT_GAME, data)
    }
}

/// Handles QUIT_GAME from the client at `src`.
pub fn handle_quit_game(state: &mut AppState, out: &mut Vec<Message>, _message: Vec<u8>, src: u64) -> (r: Result<
    (),
    HandlerError,
>)
    requires
        old(state).wf(),
    ensures
        final(state).wf(),
        outcome(final(state)@, messages_view(final(out)@), r) == quit_game_spec(
            old(state)@,
            messages_view(old(out)@),
            src,
        ),
{
    proof {
        lemma_client_index(state@.clients, src);
    }
    let ci = match state.find_client(src) {
        Some(i) => i,
        None => {
            return Ok(());
        },
    };
    assert(state.clients@[ci as int].info@ == state@.clients[ci as int].1);
    let game_id = match state.clients[ci].info.game_id {
        Some(g) => g,
        None => {
            return Ok(());
        },
    };
    let username = copy_vec(&state.clients[ci].info.username);
    let user_id = state.clients[ci].info.user_id;
    let _ = execute_drop_game(state, out, game_id, src);
    quit_after_drop(state, out, game_id, src, username.as_slice(), user_id)
}

/// The game a client at `src` creates: game `gid` named `name`, waiting,
/// with the client as owner and only player, for up to four players.
pub open spec fn created_game(gid: u32, name: Seq<u8>, c: ClientSpec, src: u64) -> GameSpec {
    GameSpec {
        game_id: gid,
        game_name: name,
        emulator_name: c.emulator_name,
        owner: c.username,
        owner_user_id: c.user_id,
        num_players: 1,
        max_players: 4,
        game_status: GAME_STATUS_WAITING,
        players: seq![PlayerSpec { addr: src, username: c.username, user_id: c.user_id, conn_type: c.conn_type }],
        sync: None,
    }
}

/// The game name of a CREATE_GAME request (the second string), cut to 127
/// bytes.
pub open spec fn requested_game_name(data: Seq<u8>) -> Seq<u8> {
    let name = string_field(string_field(data).1).0;
    if name.len() > 127 {
        name.take(127)
    } else {
        name
    }
}

/// Creating game `gid` named `name` for the client at position `ci`: the
/// game is added and the client is in it; everyone hears of the new game
/// and its status; the client gets the player list and its join
/// notification.
pub open spec fn create_stage(st: StateSpec, sent: Seq<(u64, Seq<u8>)>, ci: int, src: u64, name: Seq<u8>, gid: u32) -> Outcome {
    let c = st.clients[ci].1;
    let g = created_game(gid, name, c, src);
    let st4 = with_game(StateSpec { games: put_game(st.games, g), ..st }, ci, Some(gid));
    let b1 = broadcast_out(st4, sent, CREATE_GAME, new_game_spec(c.username, name, c.emulator_name, gid));
    if b1.result is Err {
        b1
    } else {
        let b2 = broadcast_out(b1.st, b1.sent, UPDATE_GAME_STATUS, game_status_spec(g));
        if b2.result is Err {
            b2
        } else {
            let b3 = send_out(b2.st, b2.sent, src, PLAYER_INFORMATION, player_information_spec(b2.st.clients, g, src));
            if b3.result is Err {
                b3
            } else {
                let c5 = client_index(b3.st.clients, src);
                if c5 < 0 {
                    outcome(b3.st, b3.sent, Err(HandlerError::ClientNotFound))
                } else {
                    send_out(b3.st, b3.sent, src, JOIN_GAME, join_response_spec(b3.st.clients[c5].1))
                }
            }
        }
    }
}

/// Whether the client at position `ci` is in a game that holds it.
pub open spec fn in_live_game(st: StateSpec, ci: int, src: u64) -> bool {
    match st.clients[ci].1.game_id {
        Some(gid) => {
            let gi = game_index(st.games, gid);
            gi >= 0 && player_index(st.games[gi].players, src) >= 0
        },
        None => false,
    }
}

/// CREATE_GAME request `data` from the client at `src`. A client already in
/// a game that holds it is ignored; a stale game of the client is cleared.
/// The next game id is taken even when the client turns out not to be
/// logged in.
pub open spec fn create_game_spec(st: StateSpec, sent: Seq<(u64, Seq<u8>)>, src: u64, data: Seq<u8>) -> Outcome {
    let ci = client_index(st.clients, src);
    if ci >= 0 && in_live_game(st, ci, src) {
        outcome(st, sent, Ok(()))
    } else {
        let st1 = if ci >= 0 && st.clients[ci].1.game_id is Some {
            with_game(st, ci, None)
        } else {
            st
        };
        let gid = st1.next_game_id;
        let st2 = StateSpec { next_game_id: next_u32(gid), ..st1 };
        if ci < 0 {
            outcome(st2, sent, Err(HandlerError::ClientNotFound))
        } else {
            create_stage(st2, sent, ci, src, requested_game_name(data), gid)
        }
    }
}

/// Whether the client at position `ci` is in a game that holds it.
fn client_in_live_game(state: &AppState, ci: usize, src: u64) -> (b: bool)
    requires
        state.wf(),
        ci < state@.clients.len(),
    ensures
        b == in_live_game(state@, ci as int, src),
{
    assert(state.clients@[ci as int].info@ == state@.clients[ci as int].1);
    match state.clients[ci].info.game_id {
        Some(gid) => {
            proof {
                lemma_game_index(state@.games, gid);
            }
            match state.find_game(gid) {
                Some(gi) => {
                    assert(state.games@[gi as int]@ == state@.games[gi as int]);
                    player_position(&state.games[gi], src).is_some()
                },
                None => false,
            }
        },
        None => false,
    }
}

/// Creates game `gid` named `name` for the client at position `ci`.
fn create_game_exec(
    state: &mut AppState,
    out: &mut Vec<Message>,
    ci: usize,
    src: u64,
    name: Vec<u8>,
    gid: u32,
) -> (r: Result<(), HandlerError>)
    requires
        old(state).wf(),
        ci < old(state)@.clients.len(),
        old(state)@.clients[ci as int].0 == src,
    ensures
        final(state).wf(),
        outcome(final(state)@, messages_view(final(out)@), r) == create_stage(
            old(state)@,
            messages_view(old(out)@),
            ci as int,
            src,
            name@,
            gid,
        ),
{
    let ghost st0 = state@;
    let ghost c = st0.clients[ci as int].1;
    assert(state.clients@[ci as int].info@ == c);
    let username = copy_vec(&state.clients[ci].info.username);
    let emulator_name = copy_vec(&state.clients[ci].info.emulator_name);
    let user_id = state.clients[ci].info.user_id;
    let conn_type = state.clients[ci].info.conn_type;
    let mut players: Vec<GamePlayerInfo> = Vec::new();
    players.push(GamePlayerInfo { addr: src, username: copy_vec(&username), user_id, conn_type });
    let game_info = GameInfo {
        game_id: gid,
        game_name: copy_vec(&name),
        emulator_name: copy_vec(&emulator_name),
        owner: copy_vec(&username),
        owner_user_id: user_id,
        num_players: 1,
        max_players: 4,
        game_status: GAME_STATUS_WAITING,
        players,
        sync_manager: None,
    };
    assert(players_view(game_info.players@) =~= created_game(gid, name@, c, src).players);
    assert(game_info@ == created_game(gid, name@, c, src));
    let status_data = make_update_game_status(&game_info);
    let data = build_new_game_notification(username.as_slice(), name.as_slice(), emulator_name.as_slice(), gid);
    proof {
        lemma_game_index(st0.games, gid);
    }
    let pos = state.find_game(gid);
    state.add_game(gid, game_info);
    assert(state@.games.len() == state.games@.len());
    let gi: usize = match pos {
        Some(i) => i,
        None => state.games.len() - 1,
    };
    assert(state@.games[gi as int] == created_game(gid, name@, c, src));
    state.set_client_game(ci, Some(gid));
    let ghost games1 = state@.games;
    match broadcast_packet(state, out, CREATE_GAME, data) {
        Ok(()) => {},
        Err(e) => {
            return Err(e);
        },
    }
    match broadcast_packet(state, out, UPDATE_GAME_STATUS, status_data) {
        Ok(()) => {},
        Err(e) => {
            return Err(e);
        },
    }
    let ghost g = created_game(gid, name@, c, src);
    assert(state@.games == games1);
    assert(state@.games.len() == state.games@.len());
    assert(state.games@[gi as int]@ == state@.games[gi as int]);
    assert(state@.games[gi as int] == g);
    assert(state.games@[gi as int].wf());
    let players_info = make_player_information(src, state, &state.games[gi]);
    match send_packet(state, out, src, PLAYER_INFORMATION, players_info) {
        Ok(()) => {},
        Err(e) => {
            return Err(e);
        },
    }
    proof {
        lemma_client_index(state@.clients, src);
    }
    let c5 = match state.find_client(src) {
        Some(i) => i,
        None => {
            return Err(HandlerError::ClientNotFound);
        },
    };
    assert(state.clients@[c5 as int].info@ == state@.clients[c5 as int].1);
    let response_data = build_join_game_response(&state.clients[c5].info);
    send_packet(state, out, src, JOIN_GAME, response_data)
}

/// Handles CREATE_GAME from the client at `src`.
pub fn handle_create_game(state: &mut AppState, out: &mut Vec<Message>, data: &[u8], src: u64) -> (r: Result<
    (),
    HandlerError,
>)
    requires
        old(state).wf(),
    ensures
        final(state).wf(),
        outcome(final(state)@, messages_view(final(out)@), r) == create_game_spec(
            old(state)@,
            messages_view(old(out)@),
            src,
            data@,
        ),
{
    proof {
        lemma_client_index(state@.clients, src);
    }
    let found = state.find_client(src);
    match found {
        Some(ci) => {
            if client_in_live_game(state, ci, src) {
                return Ok(());
            }
            assert(state.clients@[ci as int].info@ == state@.clients[ci as int].1);
            if state.clients[ci].info.game_id.is_some() {
                state.set_client_game(ci, None);
            }
        },
        None => {},
    }
    let mut buf = ByteReader::new(data);
    let _ = read_string_bytes(&mut buf);
    let mut game_name = read_string_bytes(&mut buf);
    let _ = read_string_bytes(&mut buf);
    if game_name.len() > 127 {
        game_name.truncate(127);
    }
    assert(game_name@ == requested_game_name(data@));
    let game_id = state.next_game_id();
    match found {
        Some(ci) => create_game_exec(state, out, ci, src, game_name, game_id),
        None => Err(HandlerError::ClientNotFound),
    }
}

/// One message to each listed address in turn; a send that fails stops
/// there.
pub open spec fn send_each_spec(st: StateSpec, sent: Seq<(u64, Seq<u8>)>, addrs: Seq<u64>, t: u8, payload: Seq<u8>) -> Outcome
    decreases addrs.len(),
{
    if addrs.len() == 0 {
        outcome(st, sent, Ok(()))
    } else {
        let prev = send_each_spec(st, sent, addrs.drop_last(), t, payload);
        if prev.result is Err {
            prev
        } else {
            send_out(prev.st, prev.sent, addrs.last(), t, payload)
        }
    }
}

/// Once `send_each_spec` fails on a prefix, longer prefixes fail the same
/// way.
pub proof fn lemma_send_each_stops(
    st: StateSpec,
    sent: Seq<(u64, Seq<u8>)>,
    addrs: Seq<u64>,
    t: u8,
    payload: Seq<u8>,
    m: int,
    n: int,
)
    requires
        0 <= m <= n <= addrs.len(),
        send_each_spec(st, sent, addrs.take(m), t, payload).result is Err,
    ensures
        send_each_spec(st, sent, addrs.take(n), t, payload) == send_each_spec(st, sent, addrs.take(m), t, payload),
    decreases n - m,
{
    if n > m {
        lemma_send_each_stops(st, sent, addrs, t, payload, m, n - 1);
        assert(addrs.take(n).drop_last() =~= addrs.take(n - 1));
    }
}

/// Sends one message to each listed address in turn.
pub fn send_each(state: &mut AppState, out: &mut Vec<Message>, addrs: &Vec<u64>, packet_type: u8, data: &Vec<u8>) -> (r:
    Result<(), HandlerError>)
    requires
        old(state).wf(),
    ensures
        final(state).wf(),
        outcome(final(state)@, messages_view(final(out)@), r) == send_each_spec(
            old(state)@,
            messages_view(old(out)@),
            addrs@,
            packet_type,
            data@,
        ),
{
    let ghost st0 = state@;
    let ghost sent0 = messages_view(out@);
    let mut k: usize = 0;
    assert(addrs@.take(0) =~= Seq::<u64>::empty());
    while k < addrs.len()
        invariant
            k <= addrs@.len(),
            state.wf(),
            st0 == old(state)@,
            sent0 == messages_view(old(out)@),
            outcome(state@, messages_view(out@), Ok(())) == send_each_spec(st0, sent0, addrs@.take(k as int), packet_type, data@),
        decreases addrs@.len() - k,
    {
        assert(addrs@.take(k + 1).drop_last() =~= addrs@.take(k as int));
        assert(addrs@.take(k + 1).last() == addrs@[k as int]);
        match send_packet(state, out, addrs[k], packet_type, copy_vec(data)) {
            Ok(()) => {},
            Err(e) => {
                proof {
                    lemma_send_each_stops(st0, sent0, addrs@, packet_type, data@, k + 1, addrs@.len() as int);
                    assert(addrs@.take(addrs@.len() as int) =~= addrs@);
                }
                return Err(e);
            },
        }
        k = k + 1;
    }
    assert(addrs@.take(k as int) =~= addrs@);
    Ok(())
}

/// The game id of a JOIN_GAME request (empty string, game id (4B), empty
/// string, 4B, 2B, connection type (1B)); `None` when the request is too
/// short for these fields.
pub open spec fn join_request(data: Seq<u8>) -> Option<u32> {
    let r1 = string_field(data).1;
    if r1.len() < 4 {
        None
    } else {
        let r3 = string_field(r1.skip(4)).1;
        if r3.len() < 7 {
            None
        } else {
            Some(le32_value(r1))
        }
    }
}

/// After a client joined game `gid` (at position `gi`): everyone hears the
/// game's status, one message each; the client gets the player list; the
/// players hear who joined.
pub open spec fn join_stage(st: StateSpec, sent: Seq<(u64, Seq<u8>)>, src: u64, gi: int, gid: u32) -> Outcome {
    let g = st.games[gi];
    let addrs = st.clients.map_values(|e: (u64, ClientSpec)| e.0);
    let s1 = send_each_spec(st, sent, addrs, UPDATE_GAME_STATUS, game_status_spec(g));
    if s1.result is Err {
        s1
    } else {
        let s2 = send_out(s1.st, s1.sent, src, PLAYER_INFORMATION, player_information_spec(s1.st.clients, g, src));
        if s2.result is Err {
            s2
        } else {
            let c = client_index(s2.st.clients, src);
            if c < 0 {
                outcome(s2.st, s2.sent, Err(HandlerError::ClientNotFound))
            } else {
                broadcast_game_out(s2.st, s2.sent, gid, JOIN_GAME, join_response_spec(s2.st.clients[c].1))
            }
        }
    }
}

/// JOIN_GAME request `data` from the client at `src`. A client already in
/// a game is ignored; otherwise it is in game `gid` from then on, and joins
/// its players unless it is among them already.
pub open spec fn join_game_spec(st: StateSpec, sent: Seq<(u64, Seq<u8>)>, src: u64, data: Seq<u8>) -> Outcome {
    match join_request(data) {
        None => outcome(st, sent, Err(HandlerError::MessageTooShort)),
        Some(gid) => {
            let ci = client_index(st.clients, src);
            if ci < 0 {
                outcome(st, sent, Err(HandlerError::ClientNotFound))
            } else if st.clients[ci].1.game_id is Some {
                outcome(st, sent, Ok(()))
            } else {
                let c = st.clients[ci].1;
                let st1 = with_game(st, ci, Some(gid));
                let gi = game_index(st1.games, gid);
                if gi < 0 {
                    outcome(st1, sent, Err(HandlerError::MissingGame))
                } else {
                    let g0 = st1.games[gi];
                    let fresh = player_index(g0.players, src) < 0;
                    if fresh && g0.num_players == 255 {
                        outcome(st1, sent, Err(HandlerError::CounterOverflow))
                    } else {
                        let player = PlayerSpec { addr: src, username: c.username, user_id: c.user_id, conn_type: c.conn_type };
                        let st2 = if fresh {
                            with_game_entry(
                                st1,
                                gi,
                                GameSpec { players: g0.players.push(player), num_players: (g0.num_players + 1) as u8, ..g0 },
                            )
                        } else {
                            st1
                        };
                        join_stage(st2, sent, src, gi, gid)
                    }
                }
            }
        },
    }
}

/// Announces a join in game `gid`, at position `gi`.
fn join_stage_exec(state: &mut AppState, out: &mut Vec<Message>, src: u64, gi: usize, gid: u32) -> (r: Result<
    (),
    HandlerError,
>)
    requires
        old(state).wf(),
        gi < old(state)@.games.len(),
    ensures
        final(state).wf(),
        outcome(final(state)@, messages_view(final(out)@), r) == join_stage(
            old(state)@,
            messages_view(old(out)@),
            src,
            gi as int,
            gid,
        ),
{
    let ghost st0 = state@;
    assert(state@.games.len() == state.games@.len());
    assert(state.games@[gi as int]@ == st0.games[gi as int]);
    assert(state.games@[gi as int].wf());
    let status_data = make_update_game_status(&state.games[gi]);
    let addrs = state.get_all_client_addrs();
    match send_each(state, out, &addrs, UPDATE_GAME_STATUS, &status_data) {
        Ok(()) => {},
        Err(e) => {
            return Err(e);
        },
    }
    assert(state@.games == st0.games) by {
        lemma_send_each_keeps_games(st0, messages_view(old(out)@), addrs@, UPDATE_GAME_STATUS, status_data@);
    }
    assert(state.games@[gi as int]@ == st0.games[gi as int]);
    let players_info = make_player_information(src, state, &state.games[gi]);
    match send_packet(state, out, src, PLAYER_INFORMATION, players_info) {
        Ok(()) => {},
        Err(e) => {
            return Err(e);
        },
    }
    proof {
        lemma_client_index(state@.clients, src);
    }
    let c = match state.find_client(src) {
        Some(i) => i,
        None => {
            return Err(HandlerError::ClientNotFound);
        },
    };
    assert(state.clients@[c as int].info@ == state@.clients[c as int].1);
    let response_data = build_join_game_response(&state.clients[c].info);
    broadcast_packet_to_game(state, out, gid, JOIN_GAME, response_data)
}

/// Sending never changes the games.
pub proof fn lemma_send_each_keeps_games(
    st: StateSpec,
    sent: Seq<(u64, Seq<u8>)>,
    addrs: Seq<u64>,
    t: u8,
    payload: Seq<u8>,
)
    ensures
        send_each_spec(st, sent, addrs, t, payload).st.games == st.games,
    decreases addrs.len(),
{
    if addrs.len() > 0 {
        lemma_send_each_keeps_games(st, sent, addrs.drop_last(), t, payload);
    }
}

/// Handles JOIN_GAME from the client at `src`.
pub fn handle_join_game(state: &mut AppState, out: &mut Vec<Message>, data: &[u8], src: u64) -> (r: Result<
    (),
    HandlerError,
>)
    requires
        old(state).wf(),
    ensures
        final(state).wf(),
        outcome(final(state)@, messages_view(final(out)@), r) == join_game_spec(
            old(state)@,
            messages_view(old(out)@),
            src,
            data@,
        ),
{
    let ghost st0 = state@;
    let mut buf = ByteReader::new(data);
    let _ = read_string_bytes(&mut buf);
    let game_id = match buf.get_u32_le() {
        Ok(v) => v,
        Err(e) => {
            return Err(e);
        },
    };
    let _ = read_string_bytes(&mut buf);
    let ghost r3 = buf@;
    match buf.get_u32_le() {
        Ok(_) => {},
        Err(e) => {
            return Err(e);
        },
    }
    match buf.get_u16_le() {
        Ok(_) => {},
        Err(e) => {
            return Err(e);
        },
    }
    match buf.get_u8() {
        Ok(_) => {},
        Err(e) => {
            return Err(e);
        },
    }
    assert(join_request(data@) == Some(game_id));
    proof {
        lemma_client_index(st0.clients, src);
    }
    let ci = match state.find_client(src) {
        Some(i) => i,
        None => {
            return Err(HandlerError::ClientNotFound);
        },
    };
    assert(state.clients@[ci as int].info@ == st0.clients[ci as int].1);
    if state.clients[ci].info.game_id.is_some() {
        return Ok(());
    }
    let player = GamePlayerInfo {
        addr: src,
        username: copy_vec(&state.clients[ci].info.username),
        user_id: state.clients[ci].info.user_id,
        conn_type: state.clients[ci].info.conn_type,
    };
    state.set_client_game(ci, Some(game_id));
    proof {
        lemma_game_index(state@.games, game_id);
    }
    let gi = match state.find_game(game_id) {
        Some(g) => g,
        None => {
            return Err(HandlerError::MissingGame);
        },
    };
    assert(state.games@[gi as int]@ == state@.games[gi as int]);
    if player_position(&state.games[gi], src).is_none() {
        match state.add_player(gi, player) {
            Ok(()) => {},
            Err(e) => {
                return Err(e);
            },
        }
    }
    join_stage_exec(state, out, src, gi, game_id)
}

/// "Game is already started".
pub open spec fn already_started_text() -> Seq<u8> {
    seq![
        71u8, 97u8, 109u8, 101u8, 32u8, 105u8, 115u8, 32u8, 97u8, 108u8, 114u8, 101u8, 97u8, 100u8,
        121u8, 32u8, 115u8, 116u8, 97u8, 114u8, 116u8, 101u8, 100u8,
    ]
}

/// The frame delay of each player: its connection type.
pub open spec fn delays_of(players: Seq<PlayerSpec>) -> Seq<usize> {
    players.map_values(|p: PlayerSpec| p.conn_type as usize)
}

/// A synchronisation that has seen nothing yet, for players with `delays`.
pub open spec fn fresh_sync(delays: Seq<usize>) -> CachedSpec {
    let n = delays.len();
    CachedSpec {
        sync: SyncSpec {
            inputs: Seq::new(n, |i: int| Seq::<Seq<u8>>::empty()),
            senders: Seq::new(n, |i: int| Seq::<Seq<u8>>::empty()),
            delays,
            dropped: Seq::new(n, |i: int| false),
            game_data_size: 0,
        },
        input_caches: Seq::new(n, |i: int| Seq::<Seq<u8>>::empty()),
        output_caches: Seq::new(n, |i: int| Seq::<Seq<u8>>::empty()),
    }
}

/// START_GAME notifications to the first `k` players: each its frame delay
/// (its connection type), its number and the player count.
pub open spec fn start_notices_spec(
    st: StateSpec,
    sent: Seq<(u64, Seq<u8>)>,
    players: Seq<PlayerSpec>,
    k: nat,
) -> Outcome
    decreases k,
{
    if k == 0 {
        outcome(st, sent, Ok(()))
    } else {
        let prev = start_notices_spec(st, sent, players, (k - 1) as nat);
        if prev.result is Err {
            prev
        } else {
            let p = players[k - 1];
            send_out(
                prev.st,
                prev.sent,
                p.addr,
                START_GAME,
                start_game_spec(p.conn_type as u16, k as u8, players.len() as u8),
            )
        }
    }
}

/// Once `start_notices_spec` fails, later counts fail the same way.
pub proof fn lemma_start_notices_stops(
    st: StateSpec,
    sent: Seq<(u64, Seq<u8>)>,
    players: Seq<PlayerSpec>,
    m: nat,
    n: nat,
)
    requires
        m <= n,
        start_notices_spec(st, sent, players, m).result is Err,
    ensures
        start_notices_spec(st, sent, players, n) == start_notices_spec(st, sent, players, m),
    decreases n - m,
{
    if n > m {
        lemma_start_notices_stops(st, sent, players, m, (n - 1) as nat);
    }
}

/// The game at position `gi` starts: it is playing with a fresh
/// synchronisation, its players are in netsync, everyone hears the game's
/// status, and each player gets its start notification.
pub open spec fn start_stage(st: StateSpec, sent: Seq<(u64, Seq<u8>)>, gi: int) -> Outcome {
    let g = st.games[gi];
    let st1 = with_game_entry(
        st,
        gi,
        GameSpec { game_status: GAME_STATUS_PLAYING, sync: Some(fresh_sync(delays_of(g.players))), ..g },
    );
    let n = set_status_all(st1, addrs_of(g.players), PLAYER_STATUS_NET_SYNC);
    if n.1 is Err {
        outcome(n.0, sent, n.1)
    } else {
        let g2 = n.0.games[gi];
        let b = broadcast_out(n.0, sent, UPDATE_GAME_STATUS, game_status_spec(g2));
        if b.result is Err {
            b
        } else {
            start_notices_spec(b.st, b.sent, g2.players, g2.players.len())
        }
    }
}

/// START_GAME request `data` from the client at `src`. Only the owner of
/// the game, among its players, starts it; a game already running answers
/// its players with a chat line instead. Each player's frame delay is its
/// connection type.
pub open spec fn start_request_spec(st: StateSpec, sent: Seq<(u64, Seq<u8>)>, src: u64, data: Seq<u8>) -> Outcome {
    let ci = client_index(st.clients, src);
    if string_field(data).1.len() < 4 {
        outcome(st, sent, Err(HandlerError::MessageTooShort))
    } else if ci < 0 {
        outcome(st, sent, Err(HandlerError::ClientNotFound))
    } else {
        let c = st.clients[ci].1;
        match c.game_id {
            None => outcome(st, sent, Err(HandlerError::NotInGame)),
            Some(gid) => {
                let gi = game_index(st.games, gid);
                if gi < 0 {
                    outcome(st, sent, Err(HandlerError::GameNotFound))
                } else {
                    let g = st.games[gi];
                    if player_index(g.players, src) < 0 {
                        outcome(st, sent, Ok(()))
                    } else if g.sync is Some {
                        broadcast_game_out(
                            st,
                            sent,
                            gid,
                            GAME_CHAT,
                            null_terminated(c.username) + null_terminated(already_started_text()),
                        )
                    } else if g.owner_user_id != c.user_id {
                        outcome(st, sent, Ok(()))
                    } else {
                        start_stage(st, sent, gi)
                    }
                }
            },
        }
    }
}

/// The frame delays of the players, each its connection type.
fn player_delays(game: &GameInfo) -> (v: Vec<usize>)
    ensures
        v@ == delays_of(game@.players),
{
    let ghost ps = game@.players;
    let mut v: Vec<usize> = Vec::new();
    let mut i: usize = 0;
    while i < game.players.len()
        invariant
            i <= game.players@.len(),
            ps == game@.players,
            ps.len() == game.players@.len(),
            v@ =~= delays_of(ps).take(i as int),
        decreases game.players@.len() - i,
    {
        assert(ps[i as int] == game.players@[i as int]@);
        v.push(game.players[i].conn_type as usize);
        i = i + 1;
        assert(v@ =~= delays_of(ps).take(i as int));
    }
    assert(delays_of(ps).take(i as int) =~= delays_of(ps));
    v
}

/// Sends each player of the game at position `gi` its start notification.
fn send_start_notices(state: &mut AppState, out: &mut Vec<Message>, gi: usize) -> (r: Result<(), HandlerError>)
    requires
        old(state).wf(),
        gi < old(state)@.games.len(),
    ensures
        final(state).wf(),
        outcome(final(state)@, messages_view(final(out)@), r) == start_notices_spec(
            old(state)@,
            messages_view(old(out)@),
            old(state)@.games[gi as int].players,
            old(state)@.games[gi as int].players.len(),
        ),
{
    let ghost st0 = state@;
    let ghost sent0 = messages_view(out@);
    assert(state@.games.len() == state.games@.len());
    assert(state.games@[gi as int]@ == st0.games[gi as int]);
    assert(state.games@[gi as int].wf());
    let ghost ps = st0.games[gi as int].players;
    let addrs = player_addrs(&state.games[gi]);
    let mut conns: Vec<u8> = Vec::new();
    let mut j: usize = 0;
    while j < state.games[gi].players.len()
        invariant
            j <= ps.len(),
            gi < state.games@.len(),
            ps.len() == state.games@[gi as int].players@.len(),
            ps == state.games@[gi as int]@.players,
            conns@.len() == j,
            forall|q: int| 0 <= q < j ==> conns@[q] == #[trigger] ps[q].conn_type,
        decreases ps.len() - j,
    {
        assert(ps[j as int] == state.games@[gi as int].players@[j as int]@);
        conns.push(state.games[gi].players[j].conn_type);
        j = j + 1;
    }
    let total = state.games[gi].num_players;
    assert(total == ps.len());
    let mut k: usize = 0;
    while k < addrs.len()
        invariant
            k <= addrs@.len(),
            addrs@ == addrs_of(ps),
            addrs@.len() == ps.len(),
            conns@.len() == ps.len(),
            forall|q: int| 0 <= q < ps.len() ==> conns@[q] == #[trigger] ps[q].conn_type,
            total == ps.len(),
            ps.len() <= 255,
            state.wf(),
            st0 == old(state)@,
            sent0 == messages_view(old(out)@),
            ps == st0.games[gi as int].players,
            outcome(state@, messages_view(out@), Ok(())) == start_notices_spec(st0, sent0, ps, k as nat),
        decreases addrs@.len() - k,
    {
        assert(addrs@[k as int] == ps[k as int].addr);
        let data = build_start_game_packet(conns[k] as u16, (k + 1) as u8, total);
        match send_packet(state, out, addrs[k], START_GAME, data) {
            Ok(()) => {},
            Err(e) => {
                proof {
                    lemma_start_notices_stops(st0, sent0, ps, (k + 1) as nat, ps.len());
                }
                return Err(e);
            },
        }
        k = k + 1;
    }
    Ok(())
}

/// Starts the game at position `gi` for its players.
fn start_game_exec(state: &mut AppState, out: &mut Vec<Message>, gi: usize, delays: Vec<usize>) -> (r: Result<
    (),
    HandlerError,
>)
    requires
        old(state).wf(),
        gi < old(state)@.games.len(),
        delays@ == delays_of(old(state)@.games[gi as int].players),
        delays_ok(delays@),
    ensures
        final(state).wf(),
        outcome(final(state)@, messages_view(final(out)@), r) == start_stage(
            old(state)@,
            messages_view(old(out)@),
            gi as int,
        ),
{
    let ghost st0 = state@;
    let ghost g = st0.games[gi as int];
    assert(state@.games.len() == state.games@.len());
    assert(state.games@[gi as int]@ == g);
    let addrs = player_addrs(&state.games[gi]);
    let sync = CachedGameSync::new(delays);
    assert(sync@.sync =~= fresh_sync(delays_of(g.players)).sync);
    assert(sync@ =~= fresh_sync(delays_of(g.players)));
    state.start_sync(gi, sync);
    let ghost st1 = state@;
    match set_players_status(state, &addrs, PLAYER_STATUS_NET_SYNC) {
        Ok(()) => {},
        Err(e) => {
            return Err(e);
        },
    }
    proof {
        lemma_set_status_all_keeps_games(st1, addrs@, PLAYER_STATUS_NET_SYNC);
    }
    assert(state@.games.len() == state.games@.len());
    assert(state.games@[gi as int]@ == state@.games[gi as int]);
    let status_data = make_update_game_status(&state.games[gi]);
    match broadcast_packet(state, out, UPDATE_GAME_STATUS, status_data) {
        Ok(()) => {},
        Err(e) => {
            return Err(e);
        },
    }
    send_start_notices(state, out, gi)
}

/// Handles START_GAME from the client at `src`.
pub fn handle_start_game(state: &mut AppState, out: &mut Vec<Message>, data: &[u8], src: u64) -> (r: Result<
    (),
    HandlerError,
>)
    requires
        old(state).wf(),
    ensures
        final(state).wf(),
        outcome(final(state)@, messages_view(final(out)@), r) == start_request_spec(
            old(state)@,
            messages_view(old(out)@),
            src,
            data@,
        ),
{
    let ghost st0 = state@;
    let mut buf = ByteReader::new(data);
    let _ = read_string_bytes(&mut buf);
    match buf.get_u32_le() {
        Ok(_) => {},
        Err(e) => {
            return Err(e);
        },
    }
    proof {
        lemma_client_index(st0.clients, src);
    }
    let ci = match state.find_client(src) {
        Some(i) => i,
        None => {
            return Err(HandlerError::ClientNotFound);
        },
    };
    assert(state.clients@[ci as int].info@ == st0.clients[ci as int].1);
    let game_id = match state.clients[ci].info.game_id {
        Some(g) => g,
        None => {
            return Err(HandlerError::NotInGame);
        },
    };
    proof {
        lemma_game_index(st0.games, game_id);
    }
    let gi = match state.find_game(game_id) {
        Some(g) => g,
        None => {
            return Err(HandlerError::GameNotFound);
        },
    };
    assert(state.games@[gi as int]@ == st0.games[gi as int]);
    assert(state.games@[gi as int].wf());
    if player_position(&state.games[gi], src).is_none() {
        return Ok(());
    }
    if state.games[gi].sync_manager.is_some() {
        let text: [u8; 23] = [
            71u8, 97u8, 109u8, 101u8, 32u8, 105u8, 115u8, 32u8, 97u8, 108u8, 114u8, 101u8, 97u8,
            100u8, 121u8, 32u8, 115u8, 116u8, 97u8, 114u8, 116u8, 101u8, 100u8,
        ];
        assert(text@ =~= already_started_text());
        let chat_message = build_game_chat_packet(state.clients[ci].info.username.as_slice(), text.as_slice());
        return broadcast_packet_to_game(state, out, game_id, GAME_CHAT, chat_message);
    }
    if state.games[gi].owner_user_id != state.clients[ci].info.user_id {
        return Ok(());
    }
    let delays = player_delays(&state.games[gi]);
    proof {
        let ps = st0.games[gi as int].players;
        assert forall|p: int| 0 <= p < delays@.len() implies #[trigger] delays@[p] * delays@.len() <= usize::MAX by {
            assert(delays@[p] == ps[p].conn_type as usize);
            assert(delays@.len() <= 255);
            assert(delays@[p] * delays@.len() <= 255 * 255) by (nonlinear_arith)
                requires delays@[p] <= 255, delays@.len() <= 255;
        }
    }
    start_game_exec(state, out, gi, delays)
}

/// Index of the first client with user id `uid`, or -1.
pub open spec fn user_index(clients: Seq<(u64, ClientSpec)>, uid: u16) -> int
    decreases clients.len(),
{
    if clients.len() == 0 {
        -1
    } else if clients[0].1.user_id == uid {
        0
    } else {
        let i = user_index(clients.drop_first(), uid);
        if i < 0 {
            -1
        } else {
            i + 1
        }
    }
}

/// `user_index` is the first position with `uid`.
pub proof fn lemma_user_index_first(clients: Seq<(u64, ClientSpec)>, uid: u16, i: int)
    requires
        0 <= i <= clients.len(),
        forall|j: int| 0 <= j < i ==> #[trigger] clients[j].1.user_id != uid,
    ensures
        i < clients.len() && clients[i].1.user_id == uid ==> user_index(clients, uid) == i,
        i == clients.len() ==> user_index(clients, uid) == -1,
    decreases i,
{
    if i > 0 {
        assert(clients[0].1.user_id != uid);
        let rest = clients.drop_first();
        assert forall|j: int| 0 <= j < i - 1 implies #[trigger] rest[j].1.user_id != uid by {
            assert(rest[j] == clients[j + 1]);
        }
        if i < clients.len() {
            assert(rest[i - 1] == clients[i]);
        }
        lemma_user_index_first(rest, uid, i - 1);
    }
}

/// The position of the first client with user id `uid`.
fn find_user(state: &AppState, uid: u16) -> (r: Option<usize>)
    ensures
        r is None <==> user_index(state@.clients, uid) < 0,
        r matches Some(i) ==> i == user_index(state@.clients, uid) && i < state@.clients.len(),
{
    let ghost cs = state@.clients;
    let mut i: usize = 0;
    while i < state.clients.len()
        invariant
            i <= cs.len(),
            cs == state@.clients,
            cs.len() == state.clients@.len(),
            forall|j: int| 0 <= j < i ==> #[trigger] cs[j].1.user_id != uid,
        decreases state.clients@.len() - i,
    {
        assert(cs[i as int].1 == state.clients@[i as int].info@);
        if state.clients[i].info.user_id == uid {
            proof {
                lemma_user_index_first(cs, uid, i as int);
            }
            return Some(i);
        }
        i = i + 1;
    }
    proof {
        lemma_user_index_first(cs, uid, i as int);
    }
    None
}

/// The client at `kaddr` (`username`, `uid`) is taken out of the players of
/// game `gid`, at position `gi`; everyone hears the game's status and its
/// players hear who left. The client keeps the game as its own.
pub open spec fn kick_stage(
    st: StateSpec,
    sent: Seq<(u64, Seq<u8>)>,
    gi: int,
    gid: u32,
    kaddr: u64,
    username: Seq<u8>,
    uid: u16,
) -> Outcome {
    let g0 = st.games[gi];
    let pi = player_index(g0.players, kaddr);
    let st2 = if pi >= 0 {
        with_game_entry(
            st,
            gi,
            GameSpec { players: g0.players.remove(pi), num_players: (g0.num_players - 1) as u8, ..g0 },
        )
    } else {
        st
    };
    leave_stage(st2, sent, gid, st2.games[gi], username, uid)
}

/// KICK_USER request `data` (empty string, user id (2B)) from the client at
/// `src`. Only the owner of its game, among the game's players, kicks; the
/// first client with the user id is kicked when it is in the same game.
pub open spec fn kick_user_spec(st: StateSpec, sent: Seq<(u64, Seq<u8>)>, src: u64, data: Seq<u8>) -> Outcome {
    let rest = string_field(data).1;
    let ci = client_index(st.clients, src);
    if rest.len() < 2 {
        outcome(st, sent, Err(HandlerError::MessageTooShort))
    } else if ci < 0 {
        outcome(st, sent, Err(HandlerError::ClientNotFound))
    } else {
        let c = st.clients[ci].1;
        match c.game_id {
            None => outcome(st, sent, Err(HandlerError::NotInGame)),
            Some(gid) => {
                let gi = game_index(st.games, gid);
                if gi < 0 {
                    outcome(st, sent, Err(HandlerError::GameNotFound))
                } else if player_index(st.games[gi].players, src) < 0 || st.games[gi].owner_user_id != c.user_id {
                    outcome(st, sent, Ok(()))
                } else {
                    let ki = user_index(st.clients, le16_front(rest));
                    if ki < 0 {
                        outcome(st, sent, Ok(()))
                    } else {
                        let k = st.clients[ki];
                        if k.1.game_id == Some(gid) {
                            kick_stage(st, sent, gi, gid, k.0, k.1.username, k.1.user_id)
                        } else {
                            outcome(st, sent, Ok(()))
                        }
                    }
                }
            },
        }
    }
}

/// Handles KICK_USER from the client at `src`.
pub fn handle_kick_user(state: &mut AppState, out: &mut Vec<Message>, data: &[u8], src: u64) -> (r: Result<
    (),
    HandlerError,
>)
    requires
        old(state).wf(),
    ensures
        final(state).wf(),
        outcome(final(state)@, messages_view(final(out)@), r) == kick_user_spec(
            old(state)@,
            messages_view(old(out)@),
            src,
            data@,
        ),
{
    let ghost st0 = state@;
    let mut buf = ByteReader::new(data);
    let _ = read_string_bytes(&mut buf);
    let user_id = match buf.get_u16_le() {
        Ok(v) => v,
        Err(e) => {
            return Err(e);
        },
    };
    proof {
        lemma_client_index(st0.clients, src);
    }
    let ci = match state.find_client(src) {
        Some(i) => i,
        None => {
            return Err(HandlerError::ClientNotFound);
        },
    };
    assert(state.clients@[ci as int].info@ == st0.clients[ci as int].1);
    let game_id = match state.clients[ci].info.game_id {
        Some(g) => g,
        None => {
            return Err(HandlerError::NotInGame);
        },
    };
    proof {
        lemma_game_index(st0.games, game_id);
    }
    let gi = match state.find_game(game_id) {
        Some(g) => g,
        None => {
            return Err(HandlerError::GameNotFound);
        },
    };
    assert(state.games@[gi as int]@ == st0.games[gi as int]);
    if player_position(&state.games[gi], src).is_none() {
        return Ok(());
    }
    if state.games[gi].owner_user_id != state.clients[ci].info.user_id {
        return Ok(());
    }
    let ki = match find_user(state, user_id) {
        Some(k) => k,
        None => {
            return Ok(());
        },
    };
    assert(state.clients@[ki as int].info@ == st0.clients[ki as int].1);
    if state.clients[ki].info.game_id != Some(game_id) {
        return Ok(());
    }
    let kaddr = state.clients[ki].addr;
    let kname = copy_vec(&state.clients[ki].info.username);
    let kuid = state.clients[ki].info.user_id;
    match player_position(&state.games[gi], kaddr) {
        Some(pi) => {
            proof {
                lemma_player_index(st0.games[gi as int].players, kaddr);
            }
            state.remove_player(gi, pi);
        },
        None => {},
    }
    assert(state@.games.len() == state.games@.len());
    assert(state.games@[gi as int]@ == state@.games[gi as int]);
    let status_data = make_update_game_status(&state.games[gi]);
    match broadcast_packet(state, out, UPDATE_GAME_STATUS, status_data) {
        Ok(()) => {},
        Err(e) => {
            return Err(e);
        },
    }
    let data = build_quit_game_packet(kname.as_slice(), kuid);
    broadcast_packet_to_game(state, out, game_id, QUIT_GAME, data)
}


/// Starting a game numbers its players in order: the START_GAME notice of
/// the `j`-th player (from 1) carries an empty string, its frame delay (its
/// connection type, two bytes), the number `j` and the number of players
/// in the game, the same in every notice of the start.
pub proof fn law_start_notices_numbering(
    st: StateSpec,
    sent: Seq<(u64, Seq<u8>)>,
    players: Seq<PlayerSpec>,
    j: nat,
)
    requires
        1 <= j <= players.len() <= 255,
        start_notices_spec(st, sent, players, (j - 1) as nat).result is Ok,
    ensures
        ({
            let prev = start_notices_spec(st, sent, players, (j - 1) as nat);
            let p = players[j - 1];
            start_notices_spec(st, sent, players, j) == send_out(
                prev.st,
                prev.sent,
                p.addr,
                START_GAME,
                seq![0u8, p.conn_type, 0u8, j as u8, players.len() as u8],
            )
        }),
{
    let p = players[j - 1];
    assert(start_game_spec(p.conn_type as u16, j as u8, players.len() as u8) =~= seq![
        0u8,
        p.conn_type,
        0u8,
        j as u8,
        players.len() as u8,
    ]);
}

/// A kick by the owner of a game removes the first client whose user id is
/// the one requested, when it is in the same game, and the players hear
/// that this client left: its username and the requested user id, never
/// the requester's.
pub proof fn law_kick_names_the_kicked(
    st: StateSpec,
    sent: Seq<(u64, Seq<u8>)>,
    src: u64,
    data: Seq<u8>,
    gid: u32,
    ki: int,
)
    requires
        string_field(data).1.len() >= 2,
        client_index(st.clients, src) >= 0,
        st.clients[client_index(st.clients, src)].1.game_id == Some(gid),
        game_index(st.games, gid) >= 0,
        player_index(st.games[game_index(st.games, gid)].players, src) >= 0,
        st.games[game_index(st.games, gid)].owner_user_id == st.clients[client_index(st.clients, src)].1.user_id,
        0 <= ki < st.clients.len(),
        st.clients[ki].1.user_id == le16_front(string_field(data).1),
        forall|x: int| 0 <= x < ki ==> #[trigger] st.clients[x].1.user_id != le16_front(string_field(data).1),
        st.clients[ki].1.game_id == Some(gid),
    ensures
        kick_user_spec(st, sent, src, data) == kick_stage(
            st,
            sent,
            game_index(st.games, gid),
            gid,
            st.clients[ki].0,
            st.clients[ki].1.username,
            le16_front(string_field(data).1),
        ),
{
    lemma_user_index_first(st.clients, le16_front(string_field(data).1), ki);
}

/// The notice that a player left reads its username, a null byte, then the
/// user id as two little-endian bytes, and nothing more.
pub proof fn law_quit_notice_layout(username: Seq<u8>, user_id: u16)
    ensures
        ({
            let d = quit_payload(username, user_id);
            let n = username.len() as int;
            &&& d.len() == n + 3
            &&& d.subrange(0, n) == username
            &&& d[n] == 0u8
            &&& d[n + 1] + 256 * d[n + 2] == user_id
        }),
{
    let d = quit_payload(username, user_id);
    let n = username.len() as int;
    crate::handlers::util::lemma_le16_reads_back(user_id);
    let u = le16(user_id);
    assert(d =~= username.push(0u8) + u);
    assert(d.subrange(0, n) =~= username);
    assert(d[n + 1] == u[0] && d[n + 2] == u[1]);
}

/// The players of a game in which someone left hear it as QUIT_GAME with
/// the leaver's username and user id, once everyone has heard the game's
/// status.
pub proof fn law_leave_notice(
    st: StateSpec,
    sent: Seq<(u64, Seq<u8>)>,
    gid: u32,
    g: GameSpec,
    username: Seq<u8>,
    user_id: u16,
)
    requires
        broadcast_out(st, sent, UPDATE_GAME_STATUS, game_status_spec(g)).result is Ok,
    ensures
        ({
            let b = broadcast_out(st, sent, UPDATE_GAME_STATUS, game_status_spec(g));
            leave_stage(st, sent, gid, g, username, user_id) == broadcast_game_out(
                b.st,
                b.sent,
                gid,
                QUIT_GAME,
                username.push(0u8) + le16(user_id),
            )
        }),
{
}

/// A drop from a running game names the dropper's seat: the player number
/// in the DROP_GAME notice is one more than the dropper's position among
/// the game's players.
pub proof fn law_drop_number_is_seat(st: StateSpec, sent: Seq<(u64, Seq<u8>)>, gid: u32, src: u64, pi: int)
    requires
        client_index(st.clients, src) >= 0,
        game_index(st.games, gid) >= 0,
        st.games[game_index(st.games, gid)].game_status == GAME_STATUS_PLAYING,
        0 <= pi < st.games[game_index(st.games, gid)].players.len(),
        st.games[game_index(st.games, gid)].players[pi].addr == src,
        forall|x: int| 0 <= x < pi ==> #[trigger] st.games[game_index(st.games, gid)].players[x].addr != src,
        sync_drop_spec(st, game_index(st.games, gid), pi as usize).1 is Ok,
        end_if_all_dropped(
            sync_drop_spec(st, game_index(st.games, gid), pi as usize).0,
            sent,
            game_index(st.games, gid),
        ).result is Ok,
    ensures
        ({
            let gi = game_index(st.games, gid);
            let d = sync_drop_spec(st, gi, pi as usize);
            let a = end_if_all_dropped(d.0, sent, gi);
            drop_game_spec(st, sent, gid, src).0 == announce_drop(
                a.st,
                a.sent,
                gi,
                gid,
                st.clients[client_index(st.clients, src)].1.username,
                (pi + 1) as u8,
                d.1->Ok_0,
            )
        }),
{
    lemma_player_index_first(st.games[game_index(st.games, gid)].players, src, pi);
}

/// The DROP_GAME notice reads the dropper's username, a null byte and its
/// player number, and nothing more.
pub proof fn law_drop_notice_layout(username: Seq<u8>, number: u8)
    ensures
        drop_payload(username, number).len() == username.len() + 2,
        drop_payload(username, number).subrange(0, username.len() as int) == username,
        drop_payload(username, number)[username.len() as int] == 0u8,
        drop_payload(username, number)[username.len() + 1int] == number,
{
    assert(drop_payload(username, number).subrange(0, username.len() as int) =~= username);
}

/// The kick stage tells the players who left by the name and user id it is
/// given: it ends as the leave of that username and user id, whatever state
/// the removal leads to.
pub proof fn law_kick_stage_names(
    st: StateSpec,
    sent: Seq<(u64, Seq<u8>)>,
    gi: int,
    gid: u32,
    kaddr: u64,
    username: Seq<u8>,
    uid: u16,
)
    ensures
        exists|st2: StateSpec, g: GameSpec|
            kick_stage(st, sent, gi, gid, kaddr, username, uid) == #[trigger] leave_stage(
                st2,
                sent,
                gid,
                g,
                username,
                uid,
            ),
{
    let g0 = st.games[gi];
    let pi = player_index(g0.players, kaddr);
    let st2 = if pi >= 0 {
        with_game_entry(
            st,
            gi,
            GameSpec { players: g0.players.remove(pi), num_players: (g0.num_players - 1) as u8, ..g0 },
        )
    } else {
        st
    };
    assert(kick_stage(st, sent, gi, gid, kaddr, username, uid) == leave_stage(st2, sent, gid, st2.games[gi], username, uid));
}

/// Announcing a drop: once the players are idle, the players of the game
/// hear DROP_GAME with the dropper's username, a null byte and the player
/// number given, and then the outputs the drop let through go out.
pub proof fn law_announce_drop_notice(
    st: StateSpec,
    sent: Seq<(u64, Seq<u8>)>,
    gi: int,
    gid: u32,
    username: Seq<u8>,
    number: u8,
    outputs: Seq<(usize, ResponseSpec)>,
)
    requires
        set_status_all(st, addrs_of(st.games[gi].players), PLAYER_STATUS_IDLE).1 is Ok,
    ensures
        ({
            let addrs = addrs_of(st.games[gi].players);
            let idle = set_status_all(st, addrs, PLAYER_STATUS_IDLE);
            let b = broadcast_game_out(idle.0, sent, gid, DROP_GAME, username.push(0u8).push(number));
            announce_drop(st, sent, gi, gid, username, number, outputs) == if b.result is Err {
                b
            } else {
                send_outputs_spec(b.st, b.sent, addrs, outputs, HandlerError::MissingPlayer)
            }
        }),
{
}

} // verus!
