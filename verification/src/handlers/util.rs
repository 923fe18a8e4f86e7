//! Reading message fields, building message bodies from the server state,
//! and sending them through the clients' packet generators.
use vstd::prelude::*;

use crate::kaillera::protocol::{extend_bytes, le16, le32, u16_le_bytes, u32_le_bytes};
use crate::packet_util::{decimal_digits, null_terminated, push_decimal, put_bytes_with_null};
use crate::state::{
    broadcast_game_spec, broadcast_spec, client_index, lemma_client_index, messages_view,
    send_spec, AppState, ClientInfo, ClientSpec, GameInfo, GameSpec, HandlerError, Message,
    PlayerSpec, StateSpec,
};

verus! {

/// A cursor over a message body: the bytes not read yet.
pub struct ByteReader {
    data: Vec<u8>,
    pos: usize,
}

impl View for ByteReader {
    type V = Seq<u8>;

    closed spec fn view(&self) -> Seq<u8> {
        self.data@.skip(self.pos as int)
    }
}

/// The string at the front of `s`: the bytes before the first null byte, and
/// what follows that null byte (nothing when there is none).
pub open spec fn string_field(s: Seq<u8>) -> (Seq<u8>, Seq<u8>)
    decreases s.len(),
{
    if s.len() == 0 {
        (Seq::empty(), Seq::empty())
    } else if s[0] == 0 {
        (Seq::empty(), s.drop_first())
    } else {
        let r = string_field(s.drop_first());
        (seq![s[0]] + r.0, r.1)
    }
}

/// The little-endian `u32` at the front of `s`.
pub open spec fn le32_value(s: Seq<u8>) -> u32 {
    (s[0] + 256 * s[1] + 65536 * s[2] + 16777216 * s[3]) as u32
}

/// The little-endian `u16` at the front of `s`.
pub open spec fn le16_front(s: Seq<u8>) -> u16 {
    (s[0] + 256 * s[1]) as u16
}

impl ByteReader {
    pub closed spec fn wf(&self) -> bool {
        self.pos <= self.data@.len()
    }

    pub fn new(data: &[u8]) -> (r: Self)
        ensures
            r.wf(),
            r@ == data@,
    {
        let r = ByteReader { data: crate::sync_core::copy_bytes(data), pos: 0 };
        assert(r@ =~= data@);
        r
    }

    /// How many bytes are left.
    pub fn len(&self) -> (n: usize)
        requires
            self.wf(),
        ensures
            n == self@.len(),
    {
        self.data.len() - self.pos
    }

    pub fn is_empty(&self) -> (b: bool)
        requires
            self.wf(),
        ensures
            b == (self@.len() == 0),
    {
        self.pos >= self.data.len()
    }

    /// The next byte.
    pub fn get_u8(&mut self) -> (r: Result<u8, HandlerError>)
        requires
            old(self).wf(),
        ensures
            final(self).wf(),
            old(self)@.len() >= 1 ==> r == Ok::<u8, HandlerError>(old(self)@[0]) && final(self)@
                == old(self)@.drop_first(),
            old(self)@.len() < 1 ==> r == Err::<u8, HandlerError>(HandlerError::MessageTooShort)
                && final(self)@ == old(self)@,
    {
        if self.pos >= self.data.len() {
            return Err(HandlerError::MessageTooShort);
        }
        let b = self.data[self.pos];
        self.pos = self.pos + 1;
        assert(self@ =~= old(self)@.drop_first());
        Ok(b)
    }

    /// The next two bytes, little-endian.
    pub fn get_u16_le(&mut self) -> (r: Result<u16, HandlerError>)
        requires
            old(self).wf(),
        ensures
            final(self).wf(),
            old(self)@.len() >= 2 ==> r == Ok::<u16, HandlerError>(le16_front(old(self)@)) && final(self)@ == old(self)@.skip(2),
            old(self)@.len() < 2 ==> r == Err::<u16, HandlerError>(HandlerError::MessageTooShort)
                && final(self)@ == old(self)@,
    {
        if self.data.len() - self.pos < 2 {
            return Err(HandlerError::MessageTooShort);
        }
        let lo = self.data[self.pos] as u16;
        let hi = self.data[self.pos + 1] as u16;
        self.pos = self.pos + 2;
        assert(self@ =~= old(self)@.skip(2));
        Ok(lo + hi * 256)
    }

    /// The next four bytes, little-endian.
    pub fn get_u32_le(&mut self) -> (r: Result<u32, HandlerError>)
        requires
            old(self).wf(),
        ensures
            final(self).wf(),
            old(self)@.len() >= 4 ==> r == Ok::<u32, HandlerError>(le32_value(old(self)@)) && final(self)@ == old(self)@.skip(4),
            old(self)@.len() < 4 ==> r == Err::<u32, HandlerError>(HandlerError::MessageTooShort)
                && final(self)@ == old(self)@,
    {
        if self.data.len() - self.pos < 4 {
            return Err(HandlerError::MessageTooShort);
        }
        let b0 = self.data[self.pos] as u32;
        let b1 = self.data[self.pos + 1] as u32;
        let b2 = self.data[self.pos + 2] as u32;
        let b3 = self.data[self.pos + 3] as u32;
        self.pos = self.pos + 4;
        assert(self@ =~= old(self)@.skip(4));
        Ok(b0 + b1 * 256 + b2 * 65536 + b3 * 16777216)
    }

    /// The next `n` bytes.
    pub fn split_to(&mut self, n: usize) -> (r: Result<Vec<u8>, HandlerError>)
        requires
            old(self).wf(),
        ensures
            final(self).wf(),
            old(self)@.len() >= n ==> (r matches Ok(v) && v@ == old(self)@.take(n as int)) && final(self)@ == old(self)@.skip(n as int),
            old(self)@.len() < n ==> r == Err::<Vec<u8>, HandlerError>(HandlerError::MessageTooShort)
                && final(self)@ == old(self)@,
    {
        if self.data.len() - self.pos < n {
            return Err(HandlerError::MessageTooShort);
        }
        let mut v: Vec<u8> = Vec::new();
        let mut k: usize = 0;
        while k < n
            invariant
                k <= n,
                self.pos + n <= self.data@.len(),
                self.data@.len() <= usize::MAX,
                self.data == old(self).data,
                self.pos == old(self).pos,
                v@ == self@.take(k as int),
            decreases n - k,
        {
            v.push(self.data[self.pos + k]);
            k = k + 1;
            assert(v@ =~= self@.take(k as int));
        }
        self.pos = self.pos + n;
        assert(self@ =~= old(self)@.skip(n as int));
        Ok(v)
    }
}

/// Read a null-terminated string as bytes (keeping the sender's encoding)
pub fn read_string_bytes(buf: &mut ByteReader) -> (s: Vec<u8>)
    requires
        old(buf).wf(),
    ensures
        final(buf).wf(),
        (s@, final(buf)@) == string_field(old(buf)@),
    decreases old(buf)@.len(),
{
    let mut s: Vec<u8> = Vec::new();
    let ghost start = buf@;
    loop
        invariant_except_break
            buf.wf(),
            string_field(start) == (s@ + string_field(buf@).0, string_field(buf@).1),
        ensures
            buf.wf(),
            string_field(start) == (s@, buf@),
        decreases buf@.len(),
    {
        let ghost before = buf@;
        match buf.get_u8() {
            Ok(b) => {
                if b == 0 {
                    assert(s@ + Seq::<u8>::empty() =~= s@);
                    assert(string_field(before) == (Seq::<u8>::empty(), buf@));
                    break;
                }
                let ghost s0 = s@;
                s.push(b);
                assert(string_field(before).0 == seq![b] + string_field(buf@).0);
                assert(s0 + (seq![b] + string_field(buf@).0) =~= s@ + string_field(buf@).0);
            },
            Err(_) => {
                assert(s@ + Seq::<u8>::empty() =~= s@);
                assert(string_field(before) == (Seq::<u8>::empty(), Seq::<u8>::empty()));
                break;
            },
        }
    }
    s
}

/// The characters `String::from_utf8_lossy` makes of some bytes: the UTF-8
/// decoding, each invalid sequence replaced by U+FFFD.
pub uninterp spec fn utf8_lossy(bytes: Seq<u8>) -> Seq<char>;

/// `String::from_utf8_lossy`, made an owned `String`; its characters are
/// named `utf8_lossy` above. As its documentation says, bytes that are
/// valid UTF-8 are decoded as they are; of invalid input nothing more is
/// stated.
#[verifier::external_body]
pub(crate) fn from_utf8_lossy(bytes: &[u8]) -> (s: String)
    ensures
        s@ == utf8_lossy(bytes@),
        vstd::utf8::valid_utf8(bytes@) ==> s@ == vstd::utf8::decode_utf8(bytes@),
{
    String::from_utf8_lossy(bytes).to_string()
}

/// Read a null-terminated string as String (lossy UTF-8 conversion)
pub fn read_string(buf: &mut ByteReader) -> (s: String)
    requires
        old(buf).wf(),
    ensures
        final(buf).wf(),
        s@ == utf8_lossy(string_field(old(buf)@).0),
        final(buf)@ == string_field(old(buf)@).1,
{
    let bytes = read_string_bytes(buf);
    from_utf8_lossy(bytes.as_slice())
}

/// What sending leaves: the state, the datagrams so far, and whether it
/// went through.
pub struct Outcome {
    pub st: StateSpec,
    pub sent: Seq<(u64, Seq<u8>)>,
    pub result: Result<(), HandlerError>,
}

pub open spec fn outcome(st: StateSpec, sent: Seq<(u64, Seq<u8>)>, result: Result<(), HandlerError>) -> Outcome {
    Outcome { st, sent, result }
}

/// A message to the client at `addr`, after the datagrams `sent`.
pub open spec fn send_out(st: StateSpec, sent: Seq<(u64, Seq<u8>)>, addr: u64, t: u8, payload: Seq<u8>) -> Outcome {
    let s = send_spec(st, addr, t, payload);
    match s.1 {
        Ok(m) => outcome(s.0, sent.push(m), Ok(())),
        Err(e) => outcome(s.0, sent, Err(e)),
    }
}

/// A message to every client, after the datagrams `sent`.
pub open spec fn broadcast_out(st: StateSpec, sent: Seq<(u64, Seq<u8>)>, t: u8, payload: Seq<u8>) -> Outcome {
    let s = broadcast_spec(st, t, payload);
    match s.1 {
        Ok(ms) => outcome(s.0, sent + ms, Ok(())),
        Err(e) => outcome(s.0, sent, Err(e)),
    }
}

/// A message to the players of game `gid`, after the datagrams `sent`.
pub open spec fn broadcast_game_out(
    st: StateSpec,
    sent: Seq<(u64, Seq<u8>)>,
    gid: u32,
    t: u8,
    payload: Seq<u8>,
) -> Outcome {
    let s = broadcast_game_spec(st, gid, t, payload);
    match s.1 {
        Ok(ms) => outcome(s.0, sent + ms, Ok(())),
        Err(e) => outcome(s.0, sent, Err(e)),
    }
}

/// Sends a message to the client at `addr`.
pub fn send_packet(state: &mut AppState, out: &mut Vec<Message>, addr: u64, packet_type: u8, data: Vec<u8>) -> (r: Result<
    (),
    HandlerError,
>)
    requires
        old(state).wf(),
    ensures
        final(state).wf(),
        outcome(final(state)@, messages_view(final(out)@), r) == send_out(
            old(state)@,
            messages_view(old(out)@),
            addr,
            packet_type,
            data@,
        ),
{
    match state.send_packet(addr, packet_type, data) {
        Ok(m) => {
            out.push(m);
            assert(messages_view(out@) =~= messages_view(old(out)@).push(m@));
            Ok(())
        },
        Err(e) => Err(e),
    }
}

/// Appends `v` to `out`.
fn append_messages(out: &mut Vec<Message>, v: Vec<Message>)
    ensures
        messages_view(final(out)@) == messages_view(old(out)@) + messages_view(v@),
{
    let ghost v0 = v@;
    let mut v = v;
    out.append(&mut v);
    assert(messages_view(out@) =~= messages_view(old(out)@) + messages_view(v0));
}

/// Sends a message to every client.
pub fn broadcast_packet(state: &mut AppState, out: &mut Vec<Message>, packet_type: u8, data: Vec<u8>) -> (r: Result<
    (),
    HandlerError,
>)
    requires
        old(state).wf(),
    ensures
        final(state).wf(),
        outcome(final(state)@, messages_view(final(out)@), r) == broadcast_out(
            old(state)@,
            messages_view(old(out)@),
            packet_type,
            data@,
        ),
{
    match state.broadcast_packet(packet_type, data) {
        Ok(v) => {
            append_messages(out, v);
            Ok(())
        },
        Err(e) => Err(e),
    }
}

/// Broadcasts a packet to all players in a specific game
pub fn broadcast_packet_to_game(
    state: &mut AppState,
    out: &mut Vec<Message>,
    game_id: u32,
    packet_type: u8,
    data: Vec<u8>,
) -> (r: Result<(), HandlerError>)
    requires
        old(state).wf(),
    ensures
        final(state).wf(),
        outcome(final(state)@, messages_view(final(out)@), r) == broadcast_game_out(
            old(state)@,
            messages_view(old(out)@),
            game_id,
            packet_type,
            data@,
        ),
{
    match state.broadcast_packet_to_game(game_id, packet_type, data) {
        Ok(v) => {
            append_messages(out, v);
            Ok(())
        },
        Err(e) => Err(e),
    }
}

/// JOIN_GAME body for a player: empty string, 0 (4B), username
/// (null-terminated), ping (4B), user id (2B), connection type (1B).
pub open spec fn join_response_spec(user: ClientSpec) -> Seq<u8> {
    seq![0u8] + le32(0) + null_terminated(user.username) + le32(user.ping) + le16(user.user_id)
        + seq![user.conn_type]
}

pub fn build_join_game_response(user: &ClientInfo) -> (data: Vec<u8>)
    ensures
        data@ == join_response_spec(user@),
{
    let mut data: Vec<u8> = Vec::new();
    data.push(0u8);
    extend_bytes(&mut data, u32_le_bytes(0).as_slice());
    put_bytes_with_null(&mut data, user.username.as_slice());
    extend_bytes(&mut data, u32_le_bytes(user.ping).as_slice());
    extend_bytes(&mut data, u16_le_bytes(user.user_id).as_slice());
    data.push(user.conn_type);
    assert(data@ =~= join_response_spec(user@));
    data
}

/// CREATE_GAME notification: username, game name, emulator name (each
/// null-terminated), game id (4B).
pub open spec fn new_game_spec(username: Seq<u8>, game_name: Seq<u8>, emulator_name: Seq<u8>, game_id: u32) -> Seq<u8> {
    null_terminated(username) + null_terminated(game_name) + null_terminated(emulator_name) + le32(
        game_id,
    )
}

pub fn build_new_game_notification(username: &[u8], game_name: &[u8], emulator_name: &[u8], game_id: u32) -> (data:
    Vec<u8>)
    ensures
        data@ == new_game_spec(username@, game_name@, emulator_name@, game_id),
{
    let mut data: Vec<u8> = Vec::new();
    put_bytes_with_null(&mut data, username);
    put_bytes_with_null(&mut data, game_name);
    put_bytes_with_null(&mut data, emulator_name);
    extend_bytes(&mut data, u32_le_bytes(game_id).as_slice());
    assert(data@ =~= new_game_spec(username@, game_name@, emulator_name@, game_id));
    data
}

/// UPDATE_GAME_STATUS body: empty string, game id (4B), status, player
/// count, player limit (1B each).
pub open spec fn game_status_spec(g: GameSpec) -> Seq<u8> {
    seq![0u8] + le32(g.game_id) + seq![g.game_status, g.num_players, g.max_players]
}

pub fn make_update_game_status(game_info: &GameInfo) -> (data: Vec<u8>)
    ensures
        data@ == game_status_spec(game_info@),
{
    let mut data: Vec<u8> = Vec::new();
    data.push(0u8);
    extend_bytes(&mut data, u32_le_bytes(game_info.game_id).as_slice());
    data.push(game_info.game_status);
    data.push(game_info.num_players);
    data.push(game_info.max_players);
    assert(data@ =~= game_status_spec(game_info@));
    data
}

/// The ping of the client at `addr`, or 0 when it is not logged in.
pub open spec fn ping_of(clients: Seq<(u64, ClientSpec)>, addr: u64) -> u32 {
    let i = client_index(clients, addr);
    if i >= 0 {
        clients[i].1.ping
    } else {
        0
    }
}

/// The entries of the players other than the one at `src`: username
/// (null-terminated), current ping (4B), user id (2B), connection type (1B).
pub open spec fn player_entries(clients: Seq<(u64, ClientSpec)>, players: Seq<PlayerSpec>, src: u64) -> Seq<u8>
    decreases players.len(),
{
    if players.len() == 0 {
        Seq::empty()
    } else {
        let p = players.last();
        let prev = player_entries(clients, players.drop_last(), src);
        if p.addr != src {
            prev + null_terminated(p.username) + le32(ping_of(clients, p.addr)) + le16(p.user_id)
                + seq![p.conn_type]
        } else {
            prev
        }
    }
}

/// PLAYER_INFORMATION body: empty string, the number of other players
/// (4B), their entries.
pub open spec fn player_information_spec(clients: Seq<(u64, ClientSpec)>, g: GameSpec, src: u64) -> Seq<u8> {
    let others = if g.players.len() >= 1 {
        (g.players.len() - 1) as u32
    } else {
        0u32
    };
    seq![0u8] + le32(others) + player_entries(clients, g.players, src)
}

/// The ping of the client at `addr`, or 0.
fn client_ping(state: &AppState, addr: u64) -> (p: u32)
    ensures
        p == ping_of(state@.clients, addr),
{
    proof {
        lemma_client_index(state@.clients, addr);
    }
    match state.find_client(addr) {
        Some(i) => state.clients[i].info.ping,
        None => 0,
    }
}

pub fn make_player_information(src: u64, state: &AppState, game_info: &GameInfo) -> (data: Vec<u8>)
    requires
        game_info.players@.len() <= u32::MAX,
    ensures
        data@ == player_information_spec(state@.clients, game_info@, src),
{
    let mut data: Vec<u8> = Vec::new();
    data.push(0u8);
    let n = game_info.players.len();
    let player_count: u32 = if n >= 1 {
        (n - 1) as u32
    } else {
        0
    };
    extend_bytes(&mut data, u32_le_bytes(player_count).as_slice());
    let ghost head = data@;
    let ghost ps = game_info@.players;
    let mut k: usize = 0;
    assert(ps.take(0) =~= Seq::<PlayerSpec>::empty());
    assert(data@ =~= head + player_entries(state@.clients, ps.take(0), src));
    while k < n
        invariant
            k <= n,
            n == game_info.players@.len(),
            ps == game_info@.players,
            data@ == head + player_entries(state@.clients, ps.take(k as int), src),
        decreases n - k,
    {
        let player = &game_info.players[k];
        assert(ps[k as int] == player@);
        assert(ps.take(k + 1).drop_last() =~= ps.take(k as int));
        assert(ps.take(k + 1).last() == ps[k as int]);
        if player.addr != src {
            let ping = client_ping(state, player.addr);
            let ghost d0 = data@;
            put_bytes_with_null(&mut data, player.username.as_slice());
            extend_bytes(&mut data, u32_le_bytes(ping).as_slice());
            extend_bytes(&mut data, u16_le_bytes(player.user_id).as_slice());
            data.push(player.conn_type);
            assert(data@ =~= d0 + null_terminated(player.username@) + le32(ping) + le16(player.user_id)
                + seq![player.conn_type]);
        }
        k = k + 1;
    }
    assert(ps.take(n as int) =~= ps);
    data
}

/// USER_JOINED body: username (null-terminated), user id (2B), ping (4B),
/// connection type (1B).
pub open spec fn user_joined_spec(c: ClientSpec) -> Seq<u8> {
    null_terminated(c.username) + le16(c.user_id) + le32(c.ping) + seq![c.conn_type]
}

pub fn make_user_joined(src: u64, state: &AppState) -> (r: Result<Vec<u8>, HandlerError>)
    ensures
        client_index(state@.clients, src) < 0 ==> r == Err::<Vec<u8>, HandlerError>(HandlerError::ClientNotFound),
        client_index(state@.clients, src) >= 0 ==> (r matches Ok(d) && d@ == user_joined_spec(
            state@.clients[client_index(state@.clients, src)].1,
        )),
{
    proof {
        lemma_client_index(state@.clients, src);
    }
    let i = match state.find_client(src) {
        Some(i) => i,
        None => {
            return Err(HandlerError::ClientNotFound);
        },
    };
    let c = &state.clients[i].info;
    let mut data: Vec<u8> = Vec::new();
    put_bytes_with_null(&mut data, c.username.as_slice());
    extend_bytes(&mut data, u16_le_bytes(c.user_id).as_slice());
    extend_bytes(&mut data, u32_le_bytes(c.ping).as_slice());
    data.push(c.conn_type);
    assert(data@ =~= user_joined_spec(c@));
    Ok(data)
}

/// The username, emulator name, connection type and user id of the client
/// at `src`.
pub fn fetch_client_info(src: u64, state: &AppState) -> (r: Result<(Vec<u8>, Vec<u8>, u8, u16), HandlerError>)
    ensures
        client_index(state@.clients, src) < 0 ==> r == Err::<(Vec<u8>, Vec<u8>, u8, u16), HandlerError>(
            HandlerError::ClientNotFound,
        ),
        client_index(state@.clients, src) >= 0 ==> (r matches Ok(t) && {
            let c = state@.clients[client_index(state@.clients, src)].1;
            t.0@ == c.username && t.1@ == c.emulator_name && t.2 == c.conn_type && t.3 == c.user_id
        }),
{
    match state.get_client(src) {
        Some(c) => Ok((
            crate::state::copy_vec(&c.username),
            crate::state::copy_vec(&c.emulator_name),
            c.conn_type,
            c.user_id,
        )),
        None => Err(HandlerError::ClientNotFound),
    }
}

/// The game of the client at `src`.
pub fn fetch_game_info(src: u64, state: &AppState) -> (r: Result<&GameInfo, HandlerError>)
    ensures
        ({
            let ci = client_index(state@.clients, src);
            if ci < 0 {
                r == Err::<&GameInfo, HandlerError>(HandlerError::ClientNotFound)
            } else {
                match state@.clients[ci].1.game_id {
                    None => r == Err::<&GameInfo, HandlerError>(HandlerError::NotInGame),
                    Some(gid) => {
                        let gi = crate::state::game_index(state@.games, gid);
                        if gi < 0 {
                            r == Err::<&GameInfo, HandlerError>(HandlerError::GameNotFound)
                        } else {
                            r matches Ok(g) && g@ == state@.games[gi]
                        }
                    },
                }
            }
        }),
{
    let client = match state.get_client(src) {
        Some(c) => c,
        None => {
            return Err(HandlerError::ClientNotFound);
        },
    };
    let game_id = match client.game_id {
        Some(g) => g,
        None => {
            return Err(HandlerError::NotInGame);
        },
    };
    match state.get_game(game_id) {
        Some(g) => Ok(g),
        None => Err(HandlerError::GameNotFound),
    }
}

/// The status byte sent for a game status: the status itself for waiting,
/// playing and netsync, waiting for anything else.
pub open spec fn status_byte(status: u8) -> u8 {
    if status <= 2 {
        status
    } else {
        0
    }
}

fn game_status_to_byte(status: u8) -> (b: u8)
    ensures
        b == status_byte(status),
{
    match status {
        0 => 0,
        1 => 1,
        2 => 2,
        _ => 0,
    }
}

/// The entries of the clients other than the one at `src`: username
/// (null-terminated), ping (4B), player status (1B), user id (2B),
/// connection type (1B).
pub open spec fn user_entries(clients: Seq<(u64, ClientSpec)>, src: u64) -> Seq<u8>
    decreases clients.len(),
{
    if clients.len() == 0 {
        Seq::empty()
    } else {
        let e = clients.last();
        let prev = user_entries(clients.drop_last(), src);
        if e.0 != src {
            prev + null_terminated(e.1.username) + le32(e.1.ping) + seq![e.1.player_status] + le16(
                e.1.user_id,
            ) + seq![e.1.conn_type]
        } else {
            prev
        }
    }
}

/// The entries of the games: name (null-terminated), id (4B), emulator and
/// owner (null-terminated), "players/limit" in decimal (null-terminated),
/// status byte.
pub open spec fn game_entries(games: Seq<GameSpec>) -> Seq<u8>
    decreases games.len(),
{
    if games.len() == 0 {
        Seq::empty()
    } else {
        let g = games.last();
        game_entries(games.drop_last()) + null_terminated(g.game_name) + le32(g.game_id)
            + null_terminated(g.emulator_name) + null_terminated(g.owner) + decimal_digits(
            g.num_players as nat,
        ) + seq![47u8] + decimal_digits(g.max_players as nat) + seq![0u8, status_byte(g.game_status)]
    }
}

/// SERVER_STATUS body: empty string, the number of other clients (4B), the
/// number of games (4B, modulo 2^32), the other clients' entries, the
/// games' entries.
pub open spec fn server_status_spec(st: StateSpec, src: u64) -> Seq<u8> {
    let users = if st.clients.len() >= 1 {
        ((st.clients.len() - 1) % 4294967296) as u32
    } else {
        0u32
    };
    seq![0u8] + le32(users) + le32((st.games.len() % 4294967296) as u32) + user_entries(st.clients, src)
        + game_entries(st.games)
}

pub fn make_server_status(src: u64, state: &AppState) -> (data: Vec<u8>)
    ensures
        data@ == server_status_spec(state@, src),
{
    let mut data: Vec<u8> = Vec::new();
    data.push(0u8);
    let nc = state.clients.len();
    let num_users: u32 = if nc >= 1 {
        ((nc - 1) as u64 % 4294967296u64) as u32
    } else {
        0
    };
    extend_bytes(&mut data, u32_le_bytes(num_users).as_slice());
    let num_games: u32 = (state.games.len() as u64 % 4294967296u64) as u32;
    extend_bytes(&mut data, u32_le_bytes(num_games).as_slice());
    let ghost head = data@;
    let ghost cs = state@.clients;
    let mut k: usize = 0;
    assert(cs.take(0) =~= Seq::<(u64, ClientSpec)>::empty());
    assert(data@ =~= head + user_entries(cs.take(0), src));
    while k < nc
        invariant
            k <= nc,
            nc == state.clients@.len(),
            cs == state@.clients,
            data@ == head + user_entries(cs.take(k as int), src),
        decreases nc - k,
    {
        let e = &state.clients[k];
        assert(cs[k as int] == (e.addr, e.info@));
        assert(cs.take(k + 1).drop_last() =~= cs.take(k as int));
        assert(cs.take(k + 1).last() == cs[k as int]);
        if e.addr != src {
            let c = &e.info;
            let ghost d0 = data@;
            put_bytes_with_null(&mut data, c.username.as_slice());
            extend_bytes(&mut data, u32_le_bytes(c.ping).as_slice());
            data.push(c.player_status);
            extend_bytes(&mut data, u16_le_bytes(c.user_id).as_slice());
            data.push(c.conn_type);
            assert(data@ =~= d0 + null_terminated(c.username@) + le32(c.ping) + seq![c.player_status]
                + le16(c.user_id) + seq![c.conn_type]);
        }
        k = k + 1;
    }
    assert(cs.take(nc as int) =~= cs);
    let ghost mid = data@;
    let ghost gs = state@.games;
    let ng = state.games.len();
    let mut j: usize = 0;
    assert(gs.take(0) =~= Seq::<GameSpec>::empty());
    assert(data@ =~= mid + game_entries(gs.take(0)));
    while j < ng
        invariant
            j <= ng,
            ng == state.games@.len(),
            gs == state@.games,
            data@ == mid + game_entries(gs.take(j as int)),
        decreases ng - j,
    {
        let g = &state.games[j];
        assert(gs[j as int] == g@);
        assert(gs.take(j + 1).drop_last() =~= gs.take(j as int));
        assert(gs.take(j + 1).last() == gs[j as int]);
        let ghost d0 = data@;
        put_bytes_with_null(&mut data, g.game_name.as_slice());
        extend_bytes(&mut data, u32_le_bytes(g.game_id).as_slice());
        put_bytes_with_null(&mut data, g.emulator_name.as_slice());
        put_bytes_with_null(&mut data, g.owner.as_slice());
        push_decimal(&mut data, g.num_players as usize);
        data.push(47u8);
        push_decimal(&mut data, g.max_players as usize);
        data.push(0u8);
        data.push(game_status_to_byte(g.game_status));
        assert(data@ =~= d0 + null_terminated(g.game_name@) + le32(g.game_id) + null_terminated(
            g.emulator_name@,
        ) + null_terminated(g.owner@) + decimal_digits(g.num_players as nat) + seq![47u8]
            + decimal_digits(g.max_players as nat) + seq![0u8, status_byte(g.game_status)]);
        j = j + 1;
    }
    assert(gs.take(ng as int) =~= gs);
    data
}

/// A text encoding the server can send its welcome message in.
#[derive(Debug, Clone, Copy, PartialEq, Eq)]
pub enum TextEncoding {
    Utf8,
    EucKr,
    ShiftJis,
    Gbk,
}

/// The number that stands for an encoding in `encoded`.
pub open spec fn encoding_code(e: TextEncoding) -> u8 {
    match e {
        TextEncoding::Utf8 => 0,
        TextEncoding::EucKr => 1,
        TextEncoding::ShiftJis => 2,
        TextEncoding::Gbk => 3,
    }
}

/// A Hangul syllable or jamo.
pub open spec fn is_korean(c: char) -> bool {
    let code = c as u32;
    (0xAC00 <= code <= 0xD7AF) || (0x1100 <= code <= 0x11FF) || (0x3130 <= code <= 0x318F)
}

/// Hiragana or katakana.
pub open spec fn is_japanese(c: char) -> bool {
    let code = c as u32;
    (0x3040 <= code <= 0x309F) || (0x30A0 <= code <= 0x30FF)
}

/// A CJK unified ideograph.
pub open spec fn is_chinese(c: char) -> bool {
    let code = c as u32;
    0x4E00 <= code <= 0x9FFF
}

/// Which languages a text has characters of: Korean, Japanese, Chinese.
pub struct LanguageDetection {
    pub has_korean: bool,
    pub has_japanese: bool,
    pub has_chinese: bool,
}

/// Finds which languages `text` has characters of.
pub fn detect_language(text: &str) -> (d: LanguageDetection)
    ensures
        d.has_korean == exists|i: int| 0 <= i < text@.len() && is_korean(#[trigger] text@[i]),
        d.has_japanese == exists|i: int| 0 <= i < text@.len() && is_japanese(#[trigger] text@[i]),
        d.has_chinese == exists|i: int| 0 <= i < text@.len() && is_chinese(#[trigger] text@[i]),
{
    let n = text.unicode_len();
    let mut korean = false;
    let mut japanese = false;
    let mut chinese = false;
    let mut i: usize = 0;
    while i < n
        invariant
            i <= n,
            n == text@.len(),
            korean == exists|j: int| 0 <= j < i && is_korean(#[trigger] text@[j]),
            japanese == exists|j: int| 0 <= j < i && is_japanese(#[trigger] text@[j]),
            chinese == exists|j: int| 0 <= j < i && is_chinese(#[trigger] text@[j]),
        decreases n - i,
    {
        let ch = text.get_char(i);
        let code = ch as u32;
        if (0xAC00 <= code && code <= 0xD7AF) || (0x1100 <= code && code <= 0x11FF) || (0x3130 <= code && code <= 0x318F) {
            korean = true;
        } else if (0x3040 <= code && code <= 0x309F) || (0x30A0 <= code && code <= 0x30FF) {
            japanese = true;
        } else if 0x4E00 <= code && code <= 0x9FFF {
            chinese = true;
        }
        assert(is_korean(text@[i as int]) == ((0xAC00 <= code && code <= 0xD7AF) || (0x1100 <= code && code <= 0x11FF) || (0x3130 <= code && code <= 0x318F)));
        i = i + 1;
        assert(korean == exists|j: int| 0 <= j < i && is_korean(#[trigger] text@[j]));
        assert(japanese == exists|j: int| 0 <= j < i && is_japanese(#[trigger] text@[j]));
        assert(chinese == exists|j: int| 0 <= j < i && is_chinese(#[trigger] text@[j]));
    }
    LanguageDetection { has_korean: korean, has_japanese: japanese, has_chinese: chinese }
}

/// The encoding a welcome message goes out in: UTF-8 when it is all ASCII;
/// else EUC-KR when it has Korean, Shift-JIS when it has Japanese, GBK when
/// it has Chinese (in that order); else UTF-8.
pub open spec fn message_encoding(text: Seq<char>) -> TextEncoding {
    if forall|i: int| 0 <= i < text.len() ==> (#[trigger] text[i] as u32) < 128 {
        TextEncoding::Utf8
    } else if exists|i: int| 0 <= i < text.len() && is_korean(#[trigger] text[i]) {
        TextEncoding::EucKr
    } else if exists|i: int| 0 <= i < text.len() && is_japanese(#[trigger] text[i]) {
        TextEncoding::ShiftJis
    } else if exists|i: int| 0 <= i < text.len() && is_chinese(#[trigger] text[i]) {
        TextEncoding::Gbk
    } else {
        TextEncoding::Utf8
    }
}

/// Picks the encoding for a welcome message.
pub fn detect_encoding_from_message(message: &str) -> (e: TextEncoding)
    ensures
        e == message_encoding(message@),
{
    let n = message.unicode_len();
    let mut i: usize = 0;
    let mut ascii = true;
    while i < n
        invariant
            i <= n,
            n == message@.len(),
            ascii == forall|j: int| 0 <= j < i ==> (#[trigger] message@[j] as u32) < 128,
        decreases n - i,
    {
        let ch = message.get_char(i);
        if (ch as u32) >= 128 {
            ascii = false;
        }
        i = i + 1;
    }
    if ascii {
        return TextEncoding::Utf8;
    }
    let d = detect_language(message);
    if d.has_korean {
        TextEncoding::EucKr
    } else if d.has_japanese {
        TextEncoding::ShiftJis
    } else if d.has_chinese {
        TextEncoding::Gbk
    } else {
        TextEncoding::Utf8
    }
}

/// What `encoding_rs::Encoding::encode` makes of `text` in the encoding
/// numbered `encoding` (see `encoding_code`).
pub uninterp spec fn encoded(encoding: u8, text: Seq<char>) -> Seq<u8>;

/// Whether every character is ASCII.
pub open spec fn all_ascii(text: Seq<char>) -> bool {
    forall|i: int| 0 <= i < text.len() ==> (#[trigger] text[i] as u32) < 128
}

/// `encoding_rs::Encoding::encode` for the encoding `encoding`, its bytes
/// taken as owned (unmappable characters become numeric character
/// references, as the crate documents). Its source hands back the UTF-8
/// bytes of the text as they are when the encoding is UTF-8, and when the
/// text is all ASCII for these three legacy encodings; the other results
/// are named `encoded` and nothing more is stated of them. Very long texts,
/// on which the crate's buffer arithmetic could overflow, are left out.
#[verifier::external_body]
pub(crate) fn encode_text(encoding: TextEncoding, text: &str) -> (bytes: Vec<u8>)
    requires
        text@.len() <= 0x1000_0000,
    ensures
        bytes@ == encoded(encoding_code(encoding), text@),
        encoding == TextEncoding::Utf8 || all_ascii(text@) ==> bytes@ == vstd::utf8::encode_utf8(text@),
{
    let e = match encoding {
        TextEncoding::Utf8 => encoding_rs::UTF_8,
        TextEncoding::EucKr => encoding_rs::EUC_KR,
        TextEncoding::ShiftJis => encoding_rs::SHIFT_JIS,
        TextEncoding::Gbk => encoding_rs::GBK,
    };
    e.encode(text).0.into_owned()
}

/// SERVER_INFORMATION body: "Server" (null-terminated), the welcome message
/// in its encoding (null-terminated).
pub open spec fn server_information_spec(welcome: Seq<char>) -> Seq<u8> {
    null_terminated(seq![83u8, 101u8, 114u8, 118u8, 101u8, 114u8]) + null_terminated(
        encoded(encoding_code(message_encoding(welcome)), welcome),
    )
}

pub fn make_server_information(welcome_message: &str) -> (data: Vec<u8>)
    requires
        welcome_message@.len() <= 0x1000_0000,
    ensures
        data@ == server_information_spec(welcome_message@),
{
    let server: [u8; 6] = [83u8, 101u8, 114u8, 118u8, 101u8, 114u8];
    let encoding = detect_encoding_from_message(welcome_message);
    let welcome_bytes = encode_text(encoding, welcome_message);
    let mut data: Vec<u8> = Vec::new();
    put_bytes_with_null(&mut data, server.as_slice());
    put_bytes_with_null(&mut data, welcome_bytes.as_slice());
    assert(server@ =~= seq![83u8, 101u8, 114u8, 118u8, 101u8, 114u8]);
    assert(data@ =~= server_information_spec(welcome_message@));
    data
}

// ---------------------------------------------------------------------------
// Bytes of an unknown encoding as text
// ---------------------------------------------------------------------------

/// A control character (Unicode general category Cc).
pub open spec fn is_control_char(c: char) -> bool {
    let v = c as u32;
    v <= 0x1F || (0x7F <= v && v <= 0x9F)
}

/// A character worth counting: no control character and no U+FFFD.
pub open spec fn printable(c: char) -> bool {
    !is_control_char(c) && (c as u32) != 0xFFFD
}

/// How many characters of `s` are printable.
pub open spec fn printable_count(s: Seq<char>) -> nat
    decreases s.len(),
{
    if s.len() == 0 {
        0
    } else {
        printable_count(s.drop_last()) + if printable(s.last()) {
            1nat
        } else {
            0nat
        }
    }
}

/// Whether `s` has a character outside ASCII that is no control character.
pub open spec fn has_foreign(s: Seq<char>) -> bool {
    exists|i: int| 0 <= i < s.len() && (#[trigger] s[i] as u32) >= 128 && !is_control_char(s[i])
}

/// Whether `s` has Korean, Japanese or Chinese characters.
pub open spec fn has_language(s: Seq<char>) -> bool {
    ||| exists|i: int| 0 <= i < s.len() && is_korean(#[trigger] s[i])
    ||| exists|i: int| 0 <= i < s.len() && is_japanese(#[trigger] s[i])
    ||| exists|i: int| 0 <= i < s.len() && is_chinese(#[trigger] s[i])
}

/// What `encoding_rs::Encoding::decode` makes of `bytes` in the encoding
/// numbered `encoding` (see `encoding_code`): the text, and whether some
/// bytes were malformed.
pub uninterp spec fn decoded(encoding: u8, bytes: Seq<u8>) -> (Seq<char>, bool);

/// `encoding_rs::Encoding::decode` for `encoding`: the text (malformed
/// sequences replaced by U+FFFD, a byte order mark honoured as the crate
/// documents) and whether there were malformed sequences. Its source hands
/// back ASCII input as it is, without errors, for these ASCII-compatible
/// encodings; the other results are named `decoded` and nothing more is
/// stated of them. Inputs long enough to overflow its buffer size
/// calculation, on which it panics, are left out.
#[verifier::external_body]
fn decode_with(encoding: TextEncoding, bytes: &[u8]) -> (r: (String, bool))
    requires
        bytes@.len() <= 0x1000_0000,
    ensures
        (r.0@, r.1) == decoded(encoding_code(encoding), bytes@),
        (forall|i: int| 0 <= i < bytes@.len() ==> #[trigger] bytes@[i] < 128) ==> r.0@ == bytes@.map_values(
            |b: u8| b as char,
        ) && !r.1,
{
    let e = match encoding {
        TextEncoding::Utf8 => encoding_rs::UTF_8,
        TextEncoding::EucKr => encoding_rs::EUC_KR,
        TextEncoding::ShiftJis => encoding_rs::SHIFT_JIS,
        TextEncoding::Gbk => encoding_rs::GBK,
    };
    let (text, _, had_errors) = e.decode(bytes);
    (text.into_owned(), had_errors)
}

/// `std::str::from_utf8`, made an owned `String`: the text when the bytes
/// are valid UTF-8, as the standard library documents.
#[verifier::external_body]
fn utf8_text(bytes: &[u8]) -> (r: Option<String>)
    ensures
        r is Some <==> vstd::utf8::valid_utf8(bytes@),
        r matches Some(s) ==> s@ == vstd::utf8::decode_utf8(bytes@),
{
    std::str::from_utf8(bytes).ok().map(|s| s.to_string())
}

/// The legacy encodings tried, in order: EUC-KR, Shift-JIS, GBK.
pub open spec fn legacy_encoding(k: int) -> TextEncoding {
    if k == 0 {
        TextEncoding::EucKr
    } else if k == 1 {
        TextEncoding::ShiftJis
    } else {
        TextEncoding::Gbk
    }
}

pub open spec fn legacy_name(k: int) -> Seq<char> {
    if k == 0 {
        "EUC-KR"@
    } else if k == 1 {
        "Shift-JIS"@
    } else {
        "GBK"@
    }
}

/// Whether decoding in legacy encoding `k` looks right: no malformed
/// bytes, something printable, something outside ASCII.
pub open spec fn candidate_good(k: int, bytes: Seq<u8>) -> bool {
    let d = decoded(encoding_code(legacy_encoding(k)), bytes);
    !d.1 && printable_count(d.0) > 0 && has_foreign(d.0)
}

/// The score of decoding in legacy encoding `k`: the printable count, plus
/// 100 when it looks right and has characters of a language, plus 200 more
/// for Korean text in EUC-KR or Japanese text in Shift-JIS.
pub open spec fn candidate_score(k: int, bytes: Seq<u8>) -> int {
    let t = decoded(encoding_code(legacy_encoding(k)), bytes).0;
    let count = printable_count(t) as int;
    if has_language(t) && candidate_good(k, bytes) {
        let extra = if k == 0 && (exists|i: int| 0 <= i < t.len() && is_korean(#[trigger] t[i])) {
            200int
        } else if k == 1 && (exists|i: int| 0 <= i < t.len() && is_japanese(#[trigger] t[i])) {
            200int
        } else {
            0int
        };
        count + 100 + extra
    } else {
        count
    }
}

/// Among the first `n` legacy encodings, the one that looks right with the
/// highest score (the earliest on a tie), and its score.
pub open spec fn best_candidate(bytes: Seq<u8>, n: int) -> Option<(int, int)>
    decreases n,
{
    if n <= 0 {
        None
    } else {
        let prev = best_candidate(bytes, n - 1);
        let k = n - 1;
        if !candidate_good(k, bytes) {
            prev
        } else {
            match prev {
                None => Some((k, candidate_score(k, bytes))),
                Some(p) => if candidate_score(k, bytes) > p.1 {
                    Some((k, candidate_score(k, bytes)))
                } else {
                    prev
                },
            }
        }
    }
}

/// The ASCII digit of a value below 16, lowercase.
pub open spec fn hex_digit(d: u8) -> u8 {
    if d < 10 {
        (48 + d) as u8
    } else {
        (87 + d) as u8
    }
}

/// Printable ASCII bytes as they are, any other byte as `\xNN`.
pub open spec fn hex_bytes(bytes: Seq<u8>) -> Seq<u8>
    decreases bytes.len(),
{
    if bytes.len() == 0 {
        Seq::empty()
    } else {
        let b = bytes.last();
        hex_bytes(bytes.drop_last()) + if 0x20 <= b <= 0x7E {
            seq![b]
        } else {
            seq![92u8, 120u8, hex_digit(b / 16), hex_digit(b % 16)]
        }
    }
}

/// Bytes of an unknown encoding as readable text, and the name of how they
/// were read: valid UTF-8 with non-ASCII text as UTF-8; else the legacy
/// encoding that reads best; else lossy UTF-8 when something is printable;
/// else printable ASCII with `\xNN` for the other bytes.
pub open spec fn try_decode_spec(bytes: Seq<u8>) -> (Seq<char>, Seq<char>) {
    let utf8 = vstd::utf8::decode_utf8(bytes);
    if bytes.len() == 0 {
        (Seq::empty(), "empty"@)
    } else if vstd::utf8::valid_utf8(bytes) && has_foreign(utf8) && printable_count(utf8) > 0 {
        (utf8, "UTF-8"@)
    } else {
        match best_candidate(bytes, 3) {
            Some(b) => (decoded(encoding_code(legacy_encoding(b.0)), bytes).0, legacy_name(b.0)),
            None => if exists|i: int| 0 <= i < utf8_lossy(bytes).len() && printable(#[trigger] utf8_lossy(bytes)[i]) {
                (utf8_lossy(bytes), "UTF-8 (lossy)"@)
            } else {
                (vstd::utf8::decode_utf8(hex_bytes(bytes)), "hex"@)
            },
        }
    }
}

fn char_is_control(c: char) -> (b: bool)
    ensures
        b == is_control_char(c),
{
    let v = c as u32;
    v <= 0x1F || (0x7F <= v && v <= 0x9F)
}

/// Printable count, foreign characters, and any printable character of a
/// text.
fn text_facts(text: &str) -> (r: (usize, bool, bool))
    ensures
        r.0 as nat == printable_count(text@),
        r.1 == has_foreign(text@),
        r.2 == exists|i: int| 0 <= i < text@.len() && printable(#[trigger] text@[i]),
{
    let n = text.unicode_len();
    let mut count: usize = 0;
    let mut foreign = false;
    let mut i: usize = 0;
    while i < n
        invariant
            i <= n,
            n == text@.len(),
            count as nat == printable_count(text@.take(i as int)),
            count <= i,
            foreign == exists|j: int| 0 <= j < i && (#[trigger] text@[j] as u32) >= 128 && !is_control_char(text@[j]),
        decreases n - i,
    {
        let c = text.get_char(i);
        assert(text@.take(i + 1).drop_last() =~= text@.take(i as int));
        assert(text@.take(i + 1).last() == c);
        let control = char_is_control(c);
        if !control && (c as u32) != 0xFFFD {
            count = count + 1;
        }
        if (c as u32) >= 128 && !control {
            foreign = true;
        }
        i = i + 1;
    }
    assert(text@.take(n as int) =~= text@);
    proof {
        lemma_printable_count_positive(text@);
    }
    (count, foreign, count > 0)
}

/// Something is printable exactly when the count is positive.
pub proof fn lemma_printable_count_positive(s: Seq<char>)
    ensures
        (printable_count(s) > 0) == exists|i: int| 0 <= i < s.len() && printable(#[trigger] s[i]),
    decreases s.len(),
{
    if s.len() > 0 {
        let t = s.drop_last();
        lemma_printable_count_positive(t);
        if exists|i: int| 0 <= i < t.len() && printable(#[trigger] t[i]) {
            let i = choose|i: int| 0 <= i < t.len() && printable(#[trigger] t[i]);
            assert(s[i] == t[i]);
        }
        if exists|i: int| 0 <= i < s.len() && printable(#[trigger] s[i]) {
            let i = choose|i: int| 0 <= i < s.len() && printable(#[trigger] s[i]);
            if i < s.len() - 1 {
                assert(t[i] == s[i]);
            }
        }
    }
}

/// Whether `text` has Korean, Japanese, Chinese characters.
fn language_facts(text: &str) -> (r: (bool, bool, bool))
    ensures
        r.0 == exists|i: int| 0 <= i < text@.len() && is_korean(#[trigger] text@[i]),
        r.1 == exists|i: int| 0 <= i < text@.len() && is_japanese(#[trigger] text@[i]),
        r.2 == exists|i: int| 0 <= i < text@.len() && is_chinese(#[trigger] text@[i]),
{
    let d = detect_language(text);
    (d.has_korean, d.has_japanese, d.has_chinese)
}

/// ASCII bytes are valid UTF-8.
pub proof fn lemma_ascii_valid_utf8(bytes: Seq<u8>)
    requires
        forall|i: int| 0 <= i < bytes.len() ==> #[trigger] bytes[i] < 128,
    ensures
        vstd::utf8::valid_utf8(bytes),
    decreases bytes.len(),
{
    if bytes.len() > 0 {
        let b = bytes[0];
        assert(b & 0x7F <= 0x7F) by (bit_vector);
        assert(vstd::utf8::valid_first_scalar(bytes));
        let rest = vstd::utf8::pop_first_scalar(bytes);
        assert(rest =~= bytes.subrange(1, bytes.len() as int));
        assert forall|i: int| 0 <= i < rest.len() implies #[trigger] rest[i] < 128 by {
            assert(rest[i] == bytes[i + 1]);
        }
        lemma_ascii_valid_utf8(rest);
    }
}

pub proof fn lemma_hex_bytes_ascii(bytes: Seq<u8>)
    ensures
        forall|i: int| 0 <= i < hex_bytes(bytes).len() ==> #[trigger] hex_bytes(bytes)[i] < 128,
    decreases bytes.len(),
{
    if bytes.len() > 0 {
        lemma_hex_bytes_ascii(bytes.drop_last());
        let prev = hex_bytes(bytes.drop_last());
        let h = hex_bytes(bytes);
        assert forall|i: int| 0 <= i < h.len() implies #[trigger] h[i] < 128 by {
            if i < prev.len() {
                assert(h[i] == prev[i]);
            }
        }
    }
}

/// Printable ASCII bytes as they are, any other byte as `\xNN`.
fn hex_text(bytes: &[u8]) -> (s: String)
    ensures
        s@ == vstd::utf8::decode_utf8(hex_bytes(bytes@)),
{
    let mut v: Vec<u8> = Vec::new();
    let mut i: usize = 0;
    while i < bytes.len()
        invariant
            i <= bytes@.len(),
            v@ == hex_bytes(bytes@.take(i as int)),
        decreases bytes@.len() - i,
    {
        let b = bytes[i];
        assert(bytes@.take(i + 1).drop_last() =~= bytes@.take(i as int));
        assert(bytes@.take(i + 1).last() == b);
        if 0x20 <= b && b <= 0x7E {
            v.push(b);
        } else {
            let hi = b / 16;
            let lo = b % 16;
            v.push(92u8);
            v.push(120u8);
            v.push(if hi < 10 { 48 + hi } else { 87 + hi });
            v.push(if lo < 10 { 48 + lo } else { 87 + lo });
        }
        i = i + 1;
        assert(v@ =~= hex_bytes(bytes@.take(i as int)));
    }
    assert(bytes@.take(i as int) =~= bytes@);
    proof {
        lemma_hex_bytes_ascii(bytes@);
        lemma_ascii_valid_utf8(v@);
    }
    match utf8_text(v.as_slice()) {
        Some(s) => s,
        None => String::new(),
    }
}

/// The score of a legacy decoding, as `candidate_score` says.
fn score_candidate(k: usize, text: &str, had_errors: bool) -> (r: (bool, u128))
    requires
        k < 3,
    ensures
        r.0 == (!had_errors && printable_count(text@) > 0 && has_foreign(text@)),
        r.1 as int == ({
            let count = printable_count(text@) as int;
            if has_language(text@) && r.0 {
                let extra = if k == 0 && (exists|i: int| 0 <= i < text@.len() && is_korean(#[trigger] text@[i])) {
                    200int
                } else if k == 1 && (exists|i: int| 0 <= i < text@.len() && is_japanese(#[trigger] text@[i])) {
                    200int
                } else {
                    0int
                };
                count + 100 + extra
            } else {
                count
            }
        }),
{
    let (count, foreign, _) = text_facts(text);
    let (korean, japanese, chinese) = language_facts(text);
    let good = !had_errors && count > 0 && foreign;
    if (korean || japanese || chinese) && good {
        let extra: u128 = if k == 0 && korean {
            200
        } else if k == 1 && japanese {
            200
        } else {
            0
        };
        (good, count as u128 + 100 + extra)
    } else {
        (good, count as u128)
    }
}

/// Tries to read bytes of an unknown encoding as text; the text and the
/// name of how it was read (see `try_decode_spec`).
pub fn try_decode_bytes(bytes: &[u8]) -> (r: (String, &'static str))
    requires
        bytes@.len() <= 0x1000_0000,
    ensures
        (r.0@, r.1@) == try_decode_spec(bytes@),
{
    if bytes.len() == 0 {
        return (String::new(), "empty");
    }
    match utf8_text(bytes) {
        Some(text) => {
            let (count, foreign, _) = text_facts(text.as_str());
            if foreign && count > 0 {
                return (text, "UTF-8");
            }
        },
        None => {},
    }
    let mut best: Option<(String, &'static str, u128)> = None;
    let mut k: usize = 0;
    while k < 3
        invariant
            k <= 3,
            bytes@.len() <= 0x1000_0000,
            match best_candidate(bytes@, k as int) {
                None => best is None,
                Some(b) => best matches Some(x) && x.0@ == decoded(encoding_code(legacy_encoding(b.0)), bytes@).0
                    && x.1@ == legacy_name(b.0) && x.2 as int == b.1,
            },
        decreases 3 - k,
    {
        let (encoding, name): (TextEncoding, &'static str) = if k == 0 {
            (TextEncoding::EucKr, "EUC-KR")
        } else if k == 1 {
            (TextEncoding::ShiftJis, "Shift-JIS")
        } else {
            (TextEncoding::Gbk, "GBK")
        };
        assert(encoding == legacy_encoding(k as int));
        let (text, had_errors) = decode_with(encoding, bytes);
        let (good, score) = score_candidate(k, text.as_str(), had_errors);
        if good {
            let better = match &best {
                None => true,
                Some(b) => score > b.2,
            };
            if better {
                best = Some((text, name, score));
            }
        }
        k = k + 1;
    }
    match best {
        Some((text, name, _)) => (text, name),
        None => {
            let lossy = from_utf8_lossy(bytes);
            let (_, _, any) = text_facts(lossy.as_str());
            if any {
                (lossy, "UTF-8 (lossy)")
            } else {
                (hex_text(bytes), "hex")
            }
        },
    }
}

/// Bytes as text for a log line (see `try_decode_spec`).
pub fn bytes_for_log(bytes: &[u8]) -> (s: String)
    requires
        bytes@.len() <= 0x1000_0000,
    ensures
        s@ == try_decode_spec(bytes@).0,
{
    let (decoded, _encoding) = try_decode_bytes(bytes);
    decoded
}

/// Bytes as readable text (see `try_decode_spec`).
pub fn bytes_to_string(bytes: &[u8]) -> (s: String)
    requires
        bytes@.len() <= 0x1000_0000,
    ensures
        s@ == try_decode_spec(bytes@).0,
{
    let (decoded, _encoding) = try_decode_bytes(bytes);
    decoded
}


/// Four little-endian bytes read back as a number.
pub open spec fn read_le32(b: Seq<u8>, at: int) -> int {
    b[at] + 256 * b[at + 1] + 65536 * b[at + 2] + 16777216 * b[at + 3]
}

/// Two little-endian bytes read back as a number.
pub open spec fn read_le16(b: Seq<u8>, at: int) -> int {
    b[at] + 256 * b[at + 1]
}

/// The four bytes of a `u32` read back give the number.
pub proof fn lemma_le32_reads_back(v: u32)
    ensures
        le32(v).len() == 4,
        read_le32(le32(v), 0) == v,
{
    let x = v as int;
    assert(x == x % 256 + 256 * ((x / 256) % 256) + 65536 * ((x / 65536) % 256) + 16777216 * (x / 16777216))
        by (nonlinear_arith)
        requires
            0 <= x < 4294967296,
    ;
}

/// The two bytes of a `u16` read back give the number.
pub proof fn lemma_le16_reads_back(v: u16)
    ensures
        le16(v).len() == 2,
        read_le16(le16(v), 0) == v,
{
    let x = v as int;
    assert(x == x % 256 + 256 * (x / 256)) by (nonlinear_arith)
        requires
            0 <= x < 65536,
    ;
}

/// The JOIN_GAME notice about a player reads, in order: an empty string,
/// four zero bytes, the player's username and a null byte, its ping as four
/// little-endian bytes, its user id as two, and its connection type, and
/// nothing more.
pub proof fn law_join_response_layout(user: ClientSpec)
    ensures
        ({
            let d = join_response_spec(user);
            let n = user.username.len() as int;
            &&& d.len() == n + 13
            &&& d[0] == 0u8
            &&& d[1] == 0u8 && d[2] == 0u8 && d[3] == 0u8 && d[4] == 0u8
            &&& d.subrange(5, 5 + n) == user.username
            &&& d[5 + n] == 0u8
            &&& read_le32(d, 6 + n) == user.ping
            &&& read_le16(d, 10 + n) == user.user_id
            &&& d[12 + n] == user.conn_type
        }),
{
    let d = join_response_spec(user);
    let n = user.username.len() as int;
    lemma_le32_reads_back(0);
    lemma_le32_reads_back(user.ping);
    lemma_le16_reads_back(user.user_id);
    let z = le32(0);
    let p = le32(user.ping);
    let u = le16(user.user_id);
    assert(d =~= seq![0u8] + z + user.username.push(0u8) + p + u + seq![user.conn_type]);
    assert(z[0] == 0 && z[1] == 0 && z[2] == 0 && z[3] == 0);
    assert(d.subrange(5, 5 + n) =~= user.username);
    assert(d[6 + n] == p[0] && d[7 + n] == p[1] && d[8 + n] == p[2] && d[9 + n] == p[3]);
    assert(d[10 + n] == u[0] && d[11 + n] == u[1]);
}

/// One user line of the server status: username and a null byte, ping,
/// player status, user id and connection type.
pub open spec fn status_line(c: ClientSpec) -> Seq<u8> {
    c.username.push(0u8) + le32(c.ping) + seq![c.player_status] + le16(c.user_id) + seq![c.conn_type]
}

/// Whether no two clients share an address.
pub open spec fn addrs_distinct(clients: Seq<(u64, ClientSpec)>) -> bool {
    forall|i: int, j: int| 0 <= i < j < clients.len() ==> clients[i].0 != clients[j].0
}

/// The clients other than the one at `src`, in the order they are held.
pub open spec fn others_of(clients: Seq<(u64, ClientSpec)>, src: u64) -> Seq<(u64, ClientSpec)> {
    clients.filter(not_at(src))
}

/// Whether a client entry is at an address other than `src`.
pub open spec fn not_at(src: u64) -> spec_fn((u64, ClientSpec)) -> bool {
    |e: (u64, ClientSpec)| e.0 != src
}

proof fn lemma_user_entries_others(clients: Seq<(u64, ClientSpec)>, src: u64)
    ensures
        user_entries(clients, src) == others_of(clients, src).map_values(|e: (u64, ClientSpec)| status_line(e.1)).flatten(),
    decreases clients.len(),
{
    reveal_with_fuel(Seq::filter, 2);
    if clients.len() > 0 {
        lemma_user_entries_others(clients.drop_last(), src);
        let prev = others_of(clients.drop_last(), src);
        let f = |e: (u64, ClientSpec)| status_line(e.1);
        if clients.last().0 != src {
            assert(others_of(clients, src) == prev.push(clients.last()));
            assert(prev.push(clients.last()).map_values(f) =~= prev.map_values(f).push(status_line(clients.last().1)));
            prev.map_values(f).lemma_flatten_push(status_line(clients.last().1));
            let e = clients.last().1;
            assert(status_line(e) =~= null_terminated(e.username) + le32(e.ping) + seq![e.player_status] + le16(e.user_id)
                + seq![e.conn_type]);
        } else {
            assert(others_of(clients, src) == prev);
        }
    }
}

proof fn lemma_others_len(clients: Seq<(u64, ClientSpec)>, src: u64)
    requires
        addrs_distinct(clients),
    ensures
        (exists|i: int| 0 <= i < clients.len() && clients[i].0 == src) ==> others_of(clients, src).len() + 1 == clients.len(),
        (forall|i: int| 0 <= i < clients.len() ==> clients[i].0 != src) ==> others_of(clients, src).len() == clients.len(),
    decreases clients.len(),
{
    reveal_with_fuel(Seq::filter, 2);
    if clients.len() > 0 {
        let front = clients.drop_last();
        assert(addrs_distinct(front)) by {
            assert forall|i: int, j: int| 0 <= i < j < front.len() implies front[i].0 != front[j].0 by {
                assert(front[i] == clients[i] && front[j] == clients[j]);
            }
        }
        lemma_others_len(front, src);
        if clients.last().0 == src {
            assert forall|i: int| 0 <= i < front.len() implies front[i].0 != src by {
                assert(front[i] == clients[i]);
                assert(clients[i].0 != clients[clients.len() - 1].0);
            }
        } else {
            if exists|i: int| 0 <= i < clients.len() && clients[i].0 == src {
                let i = choose|i: int| 0 <= i < clients.len() && clients[i].0 == src;
                assert(i < clients.len() - 1);
                assert(front[i] == clients[i]);
            }
            if forall|i: int| 0 <= i < clients.len() ==> clients[i].0 != src {
                assert forall|i: int| 0 <= i < front.len() implies front[i].0 != src by {
                    assert(front[i] == clients[i]);
                }
            }
        }
    }
}

/// One game line of the server status: name and a null byte, id, emulator
/// and owner each with a null byte, "players/limit" in decimal, a null byte
/// and the status byte.
pub open spec fn game_line(g: GameSpec) -> Seq<u8> {
    g.game_name.push(0u8) + le32(g.game_id) + g.emulator_name.push(0u8) + g.owner.push(0u8) + decimal_digits(
        g.num_players as nat,
    ) + seq![47u8] + decimal_digits(g.max_players as nat) + seq![0u8, status_byte(g.game_status)]
}

proof fn lemma_game_entries_lines(games: Seq<GameSpec>)
    ensures
        game_entries(games) == games.map_values(|g: GameSpec| game_line(g)).flatten(),
    decreases games.len(),
{
    if games.len() > 0 {
        lemma_game_entries_lines(games.drop_last());
        let f = |g: GameSpec| game_line(g);
        let prev = games.drop_last().map_values(f);
        assert(games.map_values(f) =~= prev.push(game_line(games.last())));
        prev.lemma_flatten_push(game_line(games.last()));
        let g = games.last();
        assert(game_line(g) =~= null_terminated(g.game_name) + le32(g.game_id) + null_terminated(g.emulator_name)
            + null_terminated(g.owner) + decimal_digits(g.num_players as nat) + seq![47u8] + decimal_digits(
            g.max_players as nat,
        ) + seq![0u8, status_byte(g.game_status)]);
    }
}

/// The server status sent to the client at `src` lists exactly the other
/// clients: its user count (bytes 1 to 4) is their number, and after the
/// game count come their lines, one per other client in the order they are
/// held; no line belongs to the requester. The game count (bytes 5 to
/// 8) is the number of games, whose lines follow, one per game in order.
pub proof fn law_server_status_lists_others(st: StateSpec, src: u64)
    requires
        addrs_distinct(st.clients),
        exists|i: int| 0 <= i < st.clients.len() && st.clients[i].0 == src,
        st.clients.len() <= u32::MAX,
        st.games.len() <= u32::MAX,
    ensures
        ({
            let d = server_status_spec(st, src);
            let others = others_of(st.clients, src);
            let lines = others.map_values(|e: (u64, ClientSpec)| status_line(e.1)).flatten();
            let glines = st.games.map_values(|g: GameSpec| game_line(g)).flatten();
            &&& d[0] == 0u8
            &&& d.len() == 9 + lines.len() + glines.len()
            &&& read_le32(d, 5) == st.games.len()
            &&& d.subrange(9 + lines.len() as int, d.len() as int) == glines
            &&& read_le32(d, 1) == others.len()
            &&& d.subrange(9, 9 + lines.len() as int) == lines
            &&& forall|k: int| 0 <= k < others.len() ==> (#[trigger] others[k]).0 != src
            &&& forall|i: int| 0 <= i < st.clients.len() && st.clients[i].0 != src ==> others.contains(st.clients[i])
        }),
{
    let d = server_status_spec(st, src);
    let others = others_of(st.clients, src);
    let f = |e: (u64, ClientSpec)| status_line(e.1);
    let lines = others.map_values(f).flatten();
    lemma_others_len(st.clients, src);
    lemma_user_entries_others(st.clients, src);
    let users = ((st.clients.len() - 1) % 4294967296) as u32;
    assert(users == st.clients.len() - 1);
    lemma_le32_reads_back(users);
    let g = le32((st.games.len() % 4294967296) as u32);
    lemma_le32_reads_back((st.games.len() % 4294967296) as u32);
    let u = le32(users);
    assert(d =~= seq![0u8] + u + g + lines + game_entries(st.games));
    assert(d[1] == u[0] && d[2] == u[1] && d[3] == u[2] && d[4] == u[3]);
    assert(d[5] == g[0] && d[6] == g[1] && d[7] == g[2] && d[8] == g[3]);
    assert(((st.games.len() % 4294967296) as u32) == st.games.len());
    lemma_game_entries_lines(st.games);
    assert(d.subrange(9, 9 + lines.len() as int) =~= lines);
    assert(d.subrange(9 + lines.len() as int, d.len() as int) =~= game_entries(st.games));
    assert forall|k: int| 0 <= k < others.len() implies (#[trigger] others[k]).0 != src by {
        st.clients.lemma_filter_pred(not_at(src), k);
    }
    assert forall|i: int| 0 <= i < st.clients.len() && st.clients[i].0 != src implies others.contains(st.clients[i]) by {
        st.clients.lemma_filter_contains(not_at(src), i);
    }
}
} // verus!
