//! The server's shared state: the logged-in clients, keyed by their address,
//! and the game rooms, keyed by game id; and the framing of outgoing
//! messages through each client's packet generator.
//!
//! A client address is a `u64` that stands for a socket address. Clients and
//! games are held in the order they were added; no address and no game id
//! occurs twice. Where handling cannot go on (an entry that should be there
//! is not, a counter is at its limit), the operations return a
//! `HandlerError` and leave the state as it was at that point.
use vstd::prelude::*;

use crate::handlers::util::{bytes_for_log, from_utf8_lossy, try_decode_spec, utf8_lossy};
use crate::kaillera::protocol::{send_step, GeneratorSpec, UDPPacketGenerator};
use crate::simplest_game_sync::{
    cached_mark_dropped_spec, cached_process_spec, cached_result_view, drop_stalls, input_stalls,
    CachedGameSync, CachedPlayerOutput, CachedSpec, ClientInput, GameSyncError,
};
use crate::sync_core::{InputSpec, ResponseSpec};

verus! {

pub type PlayerStatus = u8;

pub const PLAYER_STATUS_PLAYING: PlayerStatus = 0;
pub const PLAYER_STATUS_IDLE: PlayerStatus = 1;
pub const PLAYER_STATUS_NET_SYNC: PlayerStatus = 2;

pub const GAME_STATUS_WAITING: u8 = 0;
pub const GAME_STATUS_PLAYING: u8 = 1;
pub const GAME_STATUS_NET_SYNC: u8 = 2;

/// Why handling a message stopped.
#[derive(Debug, Clone, PartialEq)]
pub enum HandlerError {
    /// No client is logged in at the address.
    ClientNotFound,
    /// The client is in no game.
    NotInGame,
    /// No game has the id.
    GameNotFound,
    /// The client is not among the game's players.
    PlayerNotInGame,
    /// The game has no synchronisation running.
    SyncNotStarted,
    /// The synchronisation refused the input.
    Sync(GameSyncError),
    /// A field of the message runs past its end.
    MessageTooShort,
    /// A framed message would not fit its 16-bit length field.
    PacketTooLong,
    /// A message sequence number would pass 65535.
    SequenceOverflow,
    /// A counter would pass its largest value.
    CounterOverflow,
    /// A client that the state must hold is gone.
    MissingClient,
    /// A game that the state must hold is gone.
    MissingGame,
    /// An output names a player the game no longer has.
    NoSuchPlayer,
    /// An output of a drop names a player the game no longer has; the drop
    /// cannot go on.
    MissingPlayer,
    /// The step would let a player whose frame delay is 0 receive empty
    /// outputs without end; it is refused and nothing changes.
    SyncWouldStall,
}

impl HandlerError {
    /// Whether the error ends the client's session (a malformed message,
    /// a counter at its limit, or state that should be there and is not);
    /// the others are reported and the session goes on.
    pub fn ends_session(&self) -> (b: bool)
        ensures
            b == (*self is MessageTooShort || *self is PacketTooLong
                || *self is SequenceOverflow || *self is CounterOverflow || *self is MissingClient
                || *self is MissingGame || *self is MissingPlayer),
    {
        match self {
            HandlerError::MessageTooShort => true,
            HandlerError::PacketTooLong => true,
            HandlerError::SequenceOverflow => true,
            HandlerError::CounterOverflow => true,
            HandlerError::MissingClient => true,
            HandlerError::MissingGame => true,
            HandlerError::MissingPlayer => true,
            _ => false,
        }
    }
}

/// A logged-in client.
pub struct ClientInfo {
    pub session_id: u128,
    pub username: Vec<u8>,
    pub emulator_name: Vec<u8>,
    pub conn_type: u8,
    pub user_id: u16,
    pub ping: u32,
    pub player_status: PlayerStatus,
    pub game_id: Option<u32>,
    /// When the last SERVER_TO_CLIENT_ACK went out (milliseconds of a
    /// monotonic clock).
    pub last_ping_time: Option<u64>,
    pub ack_count: u16,
    /// Packet generator for this client (handles sequence numbers and redundancy)
    pub packet_generator: UDPPacketGenerator,
}

pub struct ClientSpec {
    pub session_id: u128,
    pub username: Seq<u8>,
    pub emulator_name: Seq<u8>,
    pub conn_type: u8,
    pub user_id: u16,
    pub ping: u32,
    pub player_status: u8,
    pub game_id: Option<u32>,
    pub last_ping_time: Option<u64>,
    pub ack_count: u16,
    pub generator: GeneratorSpec,
}

impl View for ClientInfo {
    type V = ClientSpec;

    open spec fn view(&self) -> ClientSpec {
        ClientSpec {
            session_id: self.session_id,
            username: self.username@,
            emulator_name: self.emulator_name@,
            conn_type: self.conn_type,
            user_id: self.user_id,
            ping: self.ping,
            player_status: self.player_status,
            game_id: self.game_id,
            last_ping_time: self.last_ping_time,
            ack_count: self.ack_count,
            generator: self.packet_generator@,
        }
    }
}

impl ClientInfo {
    /// The username as text, invalid UTF-8 replaced.
    pub fn username_str(&self) -> (s: String)
        ensures
            s@ == utf8_lossy(self.username@),
    {
        from_utf8_lossy(self.username.as_slice())
    }

    /// The emulator name as text, invalid UTF-8 replaced.
    pub fn emulator_name_str(&self) -> (s: String)
        ensures
            s@ == utf8_lossy(self.emulator_name@),
    {
        from_utf8_lossy(self.emulator_name.as_slice())
    }

    /// The username for a log line (see `try_decode_spec`).
    pub fn username_for_log(&self) -> (s: String)
        requires
            self.username@.len() <= 0x1000_0000,
        ensures
            s@ == try_decode_spec(self.username@).0,
    {
        bytes_for_log(self.username.as_slice())
    }

    /// The emulator name for a log line (see `try_decode_spec`).
    pub fn emulator_name_for_log(&self) -> (s: String)
        requires
            self.emulator_name@.len() <= 0x1000_0000,
        ensures
            s@ == try_decode_spec(self.emulator_name@).0,
    {
        bytes_for_log(self.emulator_name.as_slice())
    }
}

/// Player information stored in GameInfo (immutable after joining)
pub struct GamePlayerInfo {
    pub addr: u64,
    pub username: Vec<u8>,
    pub user_id: u16,
    pub conn_type: u8,
}

pub struct PlayerSpec {
    pub addr: u64,
    pub username: Seq<u8>,
    pub user_id: u16,
    pub conn_type: u8,
}

impl View for GamePlayerInfo {
    type V = PlayerSpec;

    open spec fn view(&self) -> PlayerSpec {
        PlayerSpec {
            addr: self.addr,
            username: self.username@,
            user_id: self.user_id,
            conn_type: self.conn_type,
        }
    }
}

impl GamePlayerInfo {
    /// The username as text, invalid UTF-8 replaced.
    pub fn username_str(&self) -> (s: String)
        ensures
            s@ == utf8_lossy(self.username@),
    {
        from_utf8_lossy(self.username.as_slice())
    }

    /// The username for a log line (see `try_decode_spec`).
    pub fn username_for_log(&self) -> (s: String)
        requires
            self.username@.len() <= 0x1000_0000,
        ensures
            s@ == try_decode_spec(self.username@).0,
    {
        bytes_for_log(self.username.as_slice())
    }
}

/// A game room.
pub struct GameInfo {
    pub game_id: u32,
    pub game_name: Vec<u8>,
    pub emulator_name: Vec<u8>,
    pub owner: Vec<u8>,
    pub owner_user_id: u16,
    pub num_players: u8,
    pub max_players: u8,
    pub game_status: u8,
    pub players: Vec<GamePlayerInfo>,
    pub sync_manager: Option<CachedGameSync>,
}

pub struct GameSpec {
    pub game_id: u32,
    pub game_name: Seq<u8>,
    pub emulator_name: Seq<u8>,
    pub owner: Seq<u8>,
    pub owner_user_id: u16,
    pub num_players: u8,
    pub max_players: u8,
    pub game_status: u8,
    pub players: Seq<PlayerSpec>,
    pub sync: Option<CachedSpec>,
}

pub open spec fn players_view(v: Seq<GamePlayerInfo>) -> Seq<PlayerSpec> {
    v.map_values(|p: GamePlayerInfo| p@)
}

pub open spec fn sync_view(s: Option<CachedGameSync>) -> Option<CachedSpec> {
    match s {
        Some(m) => Some(m@),
        None => None,
    }
}

impl View for GameInfo {
    type V = GameSpec;

    open spec fn view(&self) -> GameSpec {
        GameSpec {
            game_id: self.game_id,
            game_name: self.game_name@,
            emulator_name: self.emulator_name@,
            owner: self.owner@,
            owner_user_id: self.owner_user_id,
            num_players: self.num_players,
            max_players: self.max_players,
            game_status: self.game_status,
            players: players_view(self.players@),
            sync: sync_view(self.sync_manager),
        }
    }
}

impl GameInfo {
    /// The game name as text, invalid UTF-8 replaced.
    pub fn game_name_str(&self) -> (s: String)
        ensures
            s@ == utf8_lossy(self.game_name@),
    {
        from_utf8_lossy(self.game_name.as_slice())
    }

    /// The emulator name as text, invalid UTF-8 replaced.
    pub fn emulator_name_str(&self) -> (s: String)
        ensures
            s@ == utf8_lossy(self.emulator_name@),
    {
        from_utf8_lossy(self.emulator_name.as_slice())
    }

    /// The owner's name as text, invalid UTF-8 replaced.
    pub fn owner_str(&self) -> (s: String)
        ensures
            s@ == utf8_lossy(self.owner@),
    {
        from_utf8_lossy(self.owner.as_slice())
    }

    /// The game name for a log line (see `try_decode_spec`).
    pub fn game_name_for_log(&self) -> (s: String)
        requires
            self.game_name@.len() <= 0x1000_0000,
        ensures
            s@ == try_decode_spec(self.game_name@).0,
    {
        bytes_for_log(self.game_name.as_slice())
    }

    /// The emulator name for a log line (see `try_decode_spec`).
    pub fn emulator_name_for_log(&self) -> (s: String)
        requires
            self.emulator_name@.len() <= 0x1000_0000,
        ensures
            s@ == try_decode_spec(self.emulator_name@).0,
    {
        bytes_for_log(self.emulator_name.as_slice())
    }

    /// The owner's name for a log line (see `try_decode_spec`).
    pub fn owner_for_log(&self) -> (s: String)
        requires
            self.owner@.len() <= 0x1000_0000,
        ensures
            s@ == try_decode_spec(self.owner@).0,
    {
        bytes_for_log(self.owner.as_slice())
    }

    /// The player count matches the player list, and the game's
    /// synchronisation, when running, is well formed.
    pub open spec fn wf(&self) -> bool {
        &&& self.players@.len() == self.num_players
        &&& (self.sync_manager matches Some(m) ==> m.wf())
    }
}

/// A client entry: its address and information.
pub struct ClientEntry {
    pub addr: u64,
    pub info: ClientInfo,
}

/// Mathematical state of the server.
pub struct StateSpec {
    pub clients: Seq<(u64, ClientSpec)>,
    pub games: Seq<GameSpec>,
    pub next_game_id: u32,
    pub next_user_id: u16,
}

/// Index of the client at `addr`, or -1.
pub open spec fn client_index(clients: Seq<(u64, ClientSpec)>, addr: u64) -> int
    decreases clients.len(),
{
    if clients.len() == 0 {
        -1
    } else if clients.last().0 == addr {
        clients.len() - 1
    } else {
        client_index(clients.drop_last(), addr)
    }
}

/// Index of the game with `id`, or -1.
pub open spec fn game_index(games: Seq<GameSpec>, id: u32) -> int
    decreases games.len(),
{
    if games.len() == 0 {
        -1
    } else if games.last().game_id == id {
        games.len() - 1
    } else {
        game_index(games.drop_last(), id)
    }
}

pub proof fn lemma_client_index(clients: Seq<(u64, ClientSpec)>, addr: u64)
    ensures
        -1 <= client_index(clients, addr) < clients.len(),
        client_index(clients, addr) >= 0 ==> clients[client_index(clients, addr)].0 == addr,
        client_index(clients, addr) < 0 ==> forall|j: int| 0 <= j < clients.len() ==> #[trigger] clients[j].0 != addr,
    decreases clients.len(),
{
    if clients.len() > 0 && clients.last().0 != addr {
        lemma_client_index(clients.drop_last(), addr);
        if client_index(clients, addr) < 0 {
            assert forall|j: int| 0 <= j < clients.len() implies #[trigger] clients[j].0 != addr by {
                if j < clients.len() - 1 {
                    assert(clients[j] == clients.drop_last()[j]);
                }
            }
        }
    }
}

pub proof fn lemma_game_index(games: Seq<GameSpec>, id: u32)
    ensures
        -1 <= game_index(games, id) < games.len(),
        game_index(games, id) >= 0 ==> games[game_index(games, id)].game_id == id,
        game_index(games, id) < 0 ==> forall|j: int| 0 <= j < games.len() ==> #[trigger] games[j].game_id != id,
    decreases games.len(),
{
    if games.len() > 0 && games.last().game_id != id {
        lemma_game_index(games.drop_last(), id);
        if game_index(games, id) < 0 {
            assert forall|j: int| 0 <= j < games.len() implies #[trigger] games[j].game_id != id by {
                if j < games.len() - 1 {
                    assert(games[j] == games.drop_last()[j]);
                }
            }
        }
    }
}

/// No address occurs twice.
pub open spec fn unique_addrs(clients: Seq<(u64, ClientSpec)>) -> bool {
    forall|i: int, j: int| 0 <= i < j < clients.len() ==> clients[i].0 != clients[j].0
}

/// No game id occurs twice.
pub open spec fn unique_ids(games: Seq<GameSpec>) -> bool {
    forall|i: int, j: int| 0 <= i < j < games.len() ==> games[i].game_id != games[j].game_id
}

pub open spec fn entries_view(v: Seq<ClientEntry>) -> Seq<(u64, ClientSpec)> {
    v.map_values(|e: ClientEntry| (e.addr, e.info@))
}

pub open spec fn games_view(v: Seq<GameInfo>) -> Seq<GameSpec> {
    v.map_values(|g: GameInfo| g@)
}

/// The server's shared state.
pub struct AppState {
    pub clients: Vec<ClientEntry>,
    pub games: Vec<GameInfo>,
    pub next_game_id: u32,
    pub next_user_id: u16,
}

impl View for AppState {
    type V = StateSpec;

    open spec fn view(&self) -> StateSpec {
        StateSpec {
            clients: entries_view(self.clients@),
            games: games_view(self.games@),
            next_game_id: self.next_game_id,
            next_user_id: self.next_user_id,
        }
    }
}

/// The value after `v` of a counter that wraps round.
pub open spec fn next_u32(v: u32) -> u32 {
    if v == u32::MAX {
        0
    } else {
        (v + 1) as u32
    }
}

pub open spec fn next_u16(v: u16) -> u16 {
    if v == u16::MAX {
        0
    } else {
        (v + 1) as u16
    }
}

impl AppState {
    /// Unique addresses and game ids; every packet generator and every
    /// running synchronisation well formed.
    pub open spec fn wf(&self) -> bool {
        &&& unique_addrs(self@.clients)
        &&& unique_ids(self@.games)
        &&& forall|i: int| 0 <= i < self.clients@.len() ==> (#[trigger] self.clients@[i]).info.packet_generator.wf()
        &&& forall|i: int| 0 <= i < self.games@.len() ==> (#[trigger] self.games@[i]).wf()
    }

    pub fn new() -> (s: Self)
        ensures
            s.wf(),
            s@.clients.len() == 0,
            s@.games.len() == 0,
            s@.next_game_id == 1,
            s@.next_user_id == 1,
    {
        let s = Self { clients: Vec::new(), games: Vec::new(), next_game_id: 1, next_user_id: 1 };
        assert(s@.clients =~= Seq::<(u64, ClientSpec)>::empty());
        assert(s@.games =~= Seq::<GameSpec>::empty());
        s
    }

    /// The next game id; the counter moves on, wrapping round.
    pub fn next_game_id(&mut self) -> (id: u32)
        requires
            old(self).wf(),
        ensures
            final(self).wf(),
            id == old(self)@.next_game_id,
            final(self)@ == (StateSpec { next_game_id: next_u32(id), ..old(self)@ }),
    {
        let id = self.next_game_id;
        self.next_game_id = self.next_game_id.wrapping_add(1);
        id
    }

    /// The next user id; the counter moves on, wrapping round.
    pub fn next_user_id(&mut self) -> (id: u16)
        requires
            old(self).wf(),
        ensures
            final(self).wf(),
            id == old(self)@.next_user_id,
            final(self)@ == (StateSpec { next_user_id: next_u16(id), ..old(self)@ }),
    {
        let id = self.next_user_id;
        self.next_user_id = self.next_user_id.wrapping_add(1);
        id
    }

    /// The position of the client at `addr`.
    pub fn find_client(&self, addr: u64) -> (r: Option<usize>)
        ensures
            r is None <==> client_index(self@.clients, addr) < 0,
            r matches Some(i) ==> i == client_index(self@.clients, addr),
    {
        proof {
            lemma_client_index(self@.clients, addr);
        }
        let mut i = self.clients.len();
        assert(self@.clients.take(i as int) =~= self@.clients);
        while i > 0
            invariant
                i <= self.clients@.len(),
                self@.clients.len() == self.clients@.len(),
                client_index(self@.clients, addr) == client_index(self@.clients.take(i as int), addr),
            decreases i,
        {
            let ghost t = self@.clients.take(i as int);
            assert(t.last() == self@.clients[i - 1]);
            assert(t.drop_last() =~= self@.clients.take(i - 1));
            if self.clients[i - 1].addr == addr {
                return Some(i - 1);
            }
            i = i - 1;
        }
        assert(self@.clients.take(0) =~= Seq::<(u64, ClientSpec)>::empty());
        None
    }

    /// The client at `addr`.
    pub fn get_client(&self, addr: u64) -> (r: Option<&ClientInfo>)
        ensures
            r is None <==> client_index(self@.clients, addr) < 0,
            r matches Some(c) ==> c@ == self@.clients[client_index(self@.clients, addr)].1,
    {
        proof {
            lemma_client_index(self@.clients, addr);
        }
        match self.find_client(addr) {
            Some(i) => {
                assert(self@.clients.len() == self.clients@.len());
                assert(self@.clients[i as int].1 == self.clients@[i as int].info@);
                Some(&self.clients[i].info)
            },
            None => None,
        }
    }

    /// The game with `game_id`.
    pub fn get_game(&self, game_id: u32) -> (r: Option<&GameInfo>)
        ensures
            r is None <==> game_index(self@.games, game_id) < 0,
            r matches Some(g) ==> g@ == self@.games[game_index(self@.games, game_id)],
    {
        proof {
            lemma_game_index(self@.games, game_id);
        }
        match self.find_game(game_id) {
            Some(i) => {
                assert(self@.games.len() == self.games@.len());
                assert(self@.games[i as int] == self.games@[i as int]@);
                Some(&self.games[i])
            },
            None => None,
        }
    }

    /// The position of the game with `id`.
    pub fn find_game(&self, id: u32) -> (r: Option<usize>)
        ensures
            r is None <==> game_index(self@.games, id) < 0,
            r matches Some(i) ==> i == game_index(self@.games, id),
    {
        proof {
            lemma_game_index(self@.games, id);
        }
        let mut i = self.games.len();
        assert(self@.games.take(i as int) =~= self@.games);
        while i > 0
            invariant
                i <= self.games@.len(),
                self@.games.len() == self.games@.len(),
                game_index(self@.games, id) == game_index(self@.games.take(i as int), id),
            decreases i,
        {
            let ghost t = self@.games.take(i as int);
            assert(t.last() == self@.games[i - 1]);
            assert(t.drop_last() =~= self@.games.take(i - 1));
            if self.games[i - 1].game_id == id {
                return Some(i - 1);
            }
            i = i - 1;
        }
        assert(self@.games.take(0) =~= Seq::<GameSpec>::empty());
        None
    }
}

/// A datagram to send.
pub struct Message {
    pub addr: u64,
    pub data: Vec<u8>,
}

impl View for Message {
    type V = (u64, Seq<u8>);

    open spec fn view(&self) -> (u64, Seq<u8>) {
        (self.addr, self.data@)
    }
}

pub open spec fn messages_view(v: Seq<Message>) -> Seq<(u64, Seq<u8>)> {
    v.map_values(|m: Message| m@)
}

/// Whether a message body fits the 16-bit length field of its frame.
pub open spec fn payload_fits(payload: Seq<u8>) -> bool {
    payload.len() % 65536 != 65535
}

/// The client after its generator framed a message.
pub open spec fn advance(c: ClientSpec, t: u8, payload: Seq<u8>) -> ClientSpec {
    ClientSpec { generator: send_step(c.generator, t, payload).0, ..c }
}

/// The datagram a client's generator frames for a message.
pub open spec fn datagram(c: ClientSpec, t: u8, payload: Seq<u8>) -> Seq<u8> {
    send_step(c.generator, t, payload).1
}

/// One message to the client at `addr`.
pub open spec fn send_spec(st: StateSpec, addr: u64, t: u8, payload: Seq<u8>) -> (
    StateSpec,
    Result<(u64, Seq<u8>), HandlerError>,
) {
    let i = client_index(st.clients, addr);
    if i < 0 {
        (st, Err(HandlerError::ClientNotFound))
    } else if !payload_fits(payload) {
        (st, Err(HandlerError::PacketTooLong))
    } else {
        let c = st.clients[i].1;
        (
            StateSpec { clients: st.clients.update(i, (addr, advance(c, t, payload))), ..st },
            Ok((addr, datagram(c, t, payload))),
        )
    }
}

/// One message to every client, in the order they are held; a body too
/// long for its frame stops at the first client.
pub open spec fn broadcast_spec(st: StateSpec, t: u8, payload: Seq<u8>) -> (
    StateSpec,
    Result<Seq<(u64, Seq<u8>)>, HandlerError>,
) {
    if st.clients.len() > 0 && !payload_fits(payload) {
        (st, Err(HandlerError::PacketTooLong))
    } else {
        (
            StateSpec {
                clients: st.clients.map_values(|e: (u64, ClientSpec)| (e.0, advance(e.1, t, payload))),
                ..st
            },
            Ok(st.clients.map_values(|e: (u64, ClientSpec)| (e.0, datagram(e.1, t, payload)))),
        )
    }
}

/// Whether the player at `addr` receives a message to game `gid`: it is a
/// client and still in that game.
pub open spec fn in_game(clients: Seq<(u64, ClientSpec)>, addr: u64, gid: u32) -> bool {
    let i = client_index(clients, addr);
    i >= 0 && clients[i].1.game_id == Some(gid)
}

/// One message to each listed player that is still in game `gid`, in list
/// order.
pub open spec fn game_fold(
    clients: Seq<(u64, ClientSpec)>,
    players: Seq<PlayerSpec>,
    gid: u32,
    t: u8,
    payload: Seq<u8>,
) -> (Seq<(u64, ClientSpec)>, Seq<(u64, Seq<u8>)>)
    decreases players.len(),
{
    if players.len() == 0 {
        (clients, Seq::empty())
    } else {
        let prev = game_fold(clients, players.drop_last(), gid, t, payload);
        let addr = players.last().addr;
        if in_game(prev.0, addr, gid) {
            let i = client_index(prev.0, addr);
            let c = prev.0[i].1;
            (prev.0.update(i, (addr, advance(c, t, payload))), prev.1.push((addr, datagram(c, t, payload))))
        } else {
            prev
        }
    }
}

/// Whether any listed player is still in game `gid`.
pub open spec fn any_in_game(clients: Seq<(u64, ClientSpec)>, players: Seq<PlayerSpec>, gid: u32) -> bool {
    exists|k: int| 0 <= k < players.len() && in_game(clients, #[trigger] players[k].addr, gid)
}

/// One message to the players of game `gid` that are still in it; a body
/// too long for its frame stops at the first of them.
pub open spec fn broadcast_game_spec(st: StateSpec, gid: u32, t: u8, payload: Seq<u8>) -> (
    StateSpec,
    Result<Seq<(u64, Seq<u8>)>, HandlerError>,
) {
    let g = game_index(st.games, gid);
    if g < 0 {
        (st, Err(HandlerError::GameNotFound))
    } else if any_in_game(st.clients, st.games[g].players, gid) && !payload_fits(payload) {
        (st, Err(HandlerError::PacketTooLong))
    } else {
        let f = game_fold(st.clients, st.games[g].players, gid, t, payload);
        (StateSpec { clients: f.0, ..st }, Ok(f.1))
    }
}

impl AppState {
    /// Frames a message for the client at `addr` with its packet generator.
    pub fn send_packet(&mut self, addr: u64, packet_type: u8, data: Vec<u8>) -> (r: Result<
        Message,
        HandlerError,
    >)
        requires
            old(self).wf(),
        ensures
            final(self).wf(),
            (final(self)@, message_result_view(r)) == send_spec(old(self)@, addr, packet_type, data@),
    {
        let ghost st0 = self@;
        let ghost d = data@;
        let i = match self.find_client(addr) {
            Some(i) => i,
            None => {
                return Err(HandlerError::ClientNotFound);
            },
        };
        if data.len() % 65536 == 65535 {
            return Err(HandlerError::PacketTooLong);
        }
        proof {
            lemma_client_index(st0.clients, addr);
        }
        assert(self.clients@[i as int].info.packet_generator.wf());
        let packet = self.clients[i].info.packet_generator.make_send_packet(packet_type, data);
        proof {
            assert(self@.clients =~= st0.clients.update(
                i as int,
                (addr, advance(st0.clients[i as int].1, packet_type, d)),
            )) by {
                assert forall|k: int| 0 <= k < st0.clients.len() implies #[trigger] self@.clients[k]
                    == st0.clients.update(
                    i as int,
                    (addr, advance(st0.clients[i as int].1, packet_type, d)),
                )[k] by {}
            }
            assert(unique_addrs(self@.clients)) by {
                assert forall|a: int, b: int| 0 <= a < b < self@.clients.len() implies self@.clients[a].0
                    != self@.clients[b].0 by {
                    assert(self@.clients[a].0 == st0.clients[a].0);
                    assert(self@.clients[b].0 == st0.clients[b].0);
                }
            }
        }
        Ok(Message { addr, data: packet })
    }
}

pub open spec fn message_result_view(r: Result<Message, HandlerError>) -> Result<(u64, Seq<u8>), HandlerError> {
    match r {
        Ok(m) => Ok(m@),
        Err(e) => Err(e),
    }
}

pub open spec fn messages_result_view(r: Result<Vec<Message>, HandlerError>) -> Result<
    Seq<(u64, Seq<u8>)>,
    HandlerError,
> {
    match r {
        Ok(v) => Ok(messages_view(v@)),
        Err(e) => Err(e),
    }
}

impl AppState {
    /// Frames a message for every client, in the order they are held.
    pub fn broadcast_packet(&mut self, packet_type: u8, data: Vec<u8>) -> (r: Result<
        Vec<Message>,
        HandlerError,
    >)
        requires
            old(self).wf(),
        ensures
            final(self).wf(),
            (final(self)@, messages_result_view(r)) == broadcast_spec(old(self)@, packet_type, data@),
    {
        let ghost st0 = self@;
        let n = self.clients.len();
        if n > 0 && data.len() % 65536 == 65535 {
            return Err(HandlerError::PacketTooLong);
        }
        let mut packets: Vec<Message> = Vec::new();
        let mut i: usize = 0;
        while i < n
            invariant
                i <= n,
                n == self.clients@.len(),
                st0.clients.len() == n,
                payload_fits(data@) || n == 0,
                self.wf(),
                self@.games == st0.games,
                self@.next_game_id == st0.next_game_id,
                self@.next_user_id == st0.next_user_id,
                forall|k: int| 0 <= k < n ==> #[trigger] self@.clients[k] == if k < i {
                    (st0.clients[k].0, advance(st0.clients[k].1, packet_type, data@))
                } else {
                    st0.clients[k]
                },
                messages_view(packets@) =~= st0.clients.take(i as int).map_values(
                    |e: (u64, ClientSpec)| (e.0, datagram(e.1, packet_type, data@)),
                ),
            decreases n - i,
        {
            let ghost before = self@.clients;
            let ghost pv = messages_view(packets@);
            let ghost raw = self.clients@;
            assert(before[i as int] == st0.clients[i as int]);
            assert(self.clients@[i as int].info.packet_generator.wf());
            let addr = self.clients[i].addr;
            let packet = self.clients[i].info.packet_generator.make_send_packet(
                packet_type,
                copy_vec(&data),
            );
            packets.push(Message { addr, data: packet });
            proof {
                assert(before[i as int] == (raw[i as int].addr, raw[i as int].info@));
                assert(self@.clients[i as int] == (self.clients@[i as int].addr, self.clients@[i as int].info@));
                assert(self@.clients[i as int] == (st0.clients[i as int].0, advance(st0.clients[i as int].1, packet_type, data@)));
                assert forall|k: int| 0 <= k < n && k != i implies #[trigger] self@.clients[k] == before[k] by {
                    assert(self.clients@[k] == raw[k]);
                }
                assert forall|k: int| 0 <= k < n implies #[trigger] self@.clients[k] == if k < i + 1 {
                    (st0.clients[k].0, advance(st0.clients[k].1, packet_type, data@))
                } else {
                    st0.clients[k]
                } by {}
                assert(unique_addrs(self@.clients)) by {
                    assert forall|a: int, b: int| 0 <= a < b < self@.clients.len() implies self@.clients[a].0
                        != self@.clients[b].0 by {
                        assert(self@.clients[a].0 == st0.clients[a].0);
                        assert(self@.clients[b].0 == st0.clients[b].0);
                    }
                }
                assert(st0.clients.take(i + 1) =~= st0.clients.take(i as int).push(st0.clients[i as int]));
                assert(messages_view(packets@) =~= pv.push((addr, datagram(st0.clients[i as int].1, packet_type, data@))));
            }
            i = i + 1;
        }
        proof {
            assert(st0.clients.take(n as int) =~= st0.clients);
            assert(self@.clients =~= st0.clients.map_values(
                |e: (u64, ClientSpec)| (e.0, advance(e.1, packet_type, data@)),
            ));
        }
        Ok(packets)
    }
}

/// A copy of `v`.
pub fn copy_vec(v: &Vec<u8>) -> (out: Vec<u8>)
    ensures
        out@ == v@,
{
    crate::sync_core::copy_bytes(v.as_slice())
}

/// Two client lists with the same addresses in the same order.
pub open spec fn same_addrs(c1: Seq<(u64, ClientSpec)>, c2: Seq<(u64, ClientSpec)>) -> bool {
    c1.len() == c2.len() && forall|k: int| 0 <= k < c1.len() ==> #[trigger] c1[k].0 == c2[k].0
}

/// Two client lists that differ at most in packet generators.
pub open spec fn same_but_generators(c1: Seq<(u64, ClientSpec)>, c2: Seq<(u64, ClientSpec)>) -> bool {
    c1.len() == c2.len() && forall|k: int|
        0 <= k < c1.len() ==> (#[trigger] c1[k]).0 == c2[k].0 && (ClientSpec {
            generator: c2[k].1.generator,
            ..c1[k].1
        }) == c2[k].1
}

pub proof fn lemma_client_index_same_addrs(c1: Seq<(u64, ClientSpec)>, c2: Seq<(u64, ClientSpec)>, a: u64)
    requires
        same_addrs(c1, c2),
    ensures
        client_index(c1, a) == client_index(c2, a),
    decreases c1.len(),
{
    if c1.len() > 0 {
        assert(c1.last().0 == c2.last().0);
        lemma_client_index_same_addrs(c1.drop_last(), c2.drop_last(), a);
    }
}

pub proof fn lemma_game_fold(
    clients: Seq<(u64, ClientSpec)>,
    players: Seq<PlayerSpec>,
    gid: u32,
    t: u8,
    payload: Seq<u8>,
)
    ensures
        same_but_generators(clients, game_fold(clients, players, gid, t, payload).0),
        !any_in_game(clients, players, gid) ==> game_fold(clients, players, gid, t, payload).0 == clients
            && game_fold(clients, players, gid, t, payload).1.len() == 0,
    decreases players.len(),
{
    if players.len() > 0 {
        let prev = game_fold(clients, players.drop_last(), gid, t, payload);
        lemma_game_fold(clients, players.drop_last(), gid, t, payload);
        let addr = players.last().addr;
        assert(same_addrs(clients, prev.0));
        lemma_client_index_same_addrs(clients, prev.0, addr);
        lemma_client_index(prev.0, addr);
        if !any_in_game(clients, players, gid) {
            assert(!any_in_game(clients, players.drop_last(), gid)) by {
                if any_in_game(clients, players.drop_last(), gid) {
                    let k = choose|k: int| 0 <= k < players.drop_last().len() && in_game(
                        clients,
                        #[trigger] players.drop_last()[k].addr,
                        gid,
                    );
                    assert(players[k] == players.drop_last()[k]);
                }
            }
            assert(!in_game(clients, players[players.len() - 1].addr, gid));
        }
    }
}

impl AppState {
    /// Frames a message for each player of game `game_id` that is still in
    /// it, in player order.
    pub fn broadcast_packet_to_game(&mut self, game_id: u32, packet_type: u8, data: Vec<u8>) -> (r:
        Result<Vec<Message>, HandlerError>)
        requires
            old(self).wf(),
        ensures
            final(self).wf(),
            (final(self)@, messages_result_view(r)) == broadcast_game_spec(
                old(self)@,
                game_id,
                packet_type,
                data@,
            ),
    {
        let ghost st0 = self@;
        let g = match self.find_game(game_id) {
            Some(g) => g,
            None => {
                return Err(HandlerError::GameNotFound);
            },
        };
        proof {
            lemma_game_index(st0.games, game_id);
        }
        let ghost ps = st0.games[g as int].players;
        let fits = data.len() % 65536 != 65535;
        let np = self.games[g].players.len();
        let mut packets: Vec<Message> = Vec::new();
        let mut k: usize = 0;
        assert(ps.take(0) =~= Seq::<PlayerSpec>::empty());
        while k < np
            invariant
                k <= np,
                g < self.games@.len(),
                np == self.games@[g as int].players@.len(),
                ps == players_view(self.games@[g as int].players@),
                ps == st0.games[g as int].players,
                game_index(st0.games, game_id) == g as int,
                st0 == old(self)@,
                fits == payload_fits(data@),
                self.wf(),
                self@.games == st0.games,
                self@.next_game_id == st0.next_game_id,
                self@.next_user_id == st0.next_user_id,
                (self@.clients, messages_view(packets@)) == game_fold(st0.clients, ps.take(k as int), game_id, packet_type, data@),
                !fits ==> !any_in_game(st0.clients, ps.take(k as int), game_id),
            decreases np - k,
        {
            let ghost before = self@.clients;
            let ghost pv = messages_view(packets@);
            proof {
                lemma_game_fold(st0.clients, ps.take(k as int), game_id, packet_type, data@);
                assert(ps.take(k + 1).drop_last() =~= ps.take(k as int));
                assert(ps.take(k + 1).last() == ps[k as int]);
                assert(ps[k as int] == self.games@[g as int].players@[k as int]@);
            }
            let addr = self.games[g].players[k].addr;
            match self.find_client(addr) {
                Some(j) => {
                    proof {
                        lemma_client_index(before, addr);
                    }
                    if self.clients[j].info.game_id == Some(game_id) {
                        if !fits {
                            proof {
                                assert(same_addrs(st0.clients, before));
                                lemma_client_index_same_addrs(st0.clients, before, addr);
                                let idx = client_index(st0.clients, addr);
                                assert(st0.clients[idx].1.game_id == before[idx].1.game_id);
                                assert(in_game(st0.clients, ps[k as int].addr, game_id));
                                assert(any_in_game(st0.clients, ps, game_id));
                                assert(self@.clients == st0.clients);
                                assert(self@ == st0);
                            }
                            return Err(HandlerError::PacketTooLong);
                        }
                        let ghost raw = self.clients@;
                        assert(self.clients@[j as int].info.packet_generator.wf());
                        let packet = self.clients[j].info.packet_generator.make_send_packet(
                            packet_type,
                            copy_vec(&data),
                        );
                        packets.push(Message { addr, data: packet });
                        proof {
                            let c = before[j as int].1;
                            assert(before[j as int] == (raw[j as int].addr, raw[j as int].info@));
                            assert forall|x: int| 0 <= x < before.len() implies #[trigger] self@.clients[x]
                                == before.update(j as int, (addr, advance(c, packet_type, data@)))[x] by {
                                if x != j {
                                    assert(self.clients@[x] == raw[x]);
                                }
                            }
                            assert(self@.clients =~= before.update(j as int, (addr, advance(c, packet_type, data@))));
                            assert(messages_view(packets@) =~= pv.push((addr, datagram(c, packet_type, data@))));
                            assert(unique_addrs(self@.clients)) by {
                                assert forall|a: int, b: int| 0 <= a < b < self@.clients.len() implies self@.clients[a].0
                                    != self@.clients[b].0 by {
                                    assert(self@.clients[a].0 == before[a].0);
                                    assert(self@.clients[b].0 == before[b].0);
                                }
                            }
                        }
                    } else {
                        proof {
                            if !fits {
                                assert(same_addrs(st0.clients, before));
                                lemma_client_index_same_addrs(st0.clients, before, addr);
                                assert(!any_in_game(st0.clients, ps.take(k + 1), game_id)) by {
                                    if any_in_game(st0.clients, ps.take(k + 1), game_id) {
                                        let q = choose|q: int| 0 <= q < ps.take(k + 1).len() && in_game(
                                            st0.clients,
                                            #[trigger] ps.take(k + 1)[q].addr,
                                            game_id,
                                        );
                                        if q < k {
                                            assert(ps.take(k as int)[q] == ps.take(k + 1)[q]);
                                        }
                                    }
                                }
                            }
                        }
                    }
                },
                None => {
                    proof {
                        if !fits {
                            assert(same_addrs(st0.clients, before));
                            lemma_client_index_same_addrs(st0.clients, before, addr);
                            assert(!any_in_game(st0.clients, ps.take(k + 1), game_id)) by {
                                if any_in_game(st0.clients, ps.take(k + 1), game_id) {
                                    let q = choose|q: int| 0 <= q < ps.take(k + 1).len() && in_game(
                                        st0.clients,
                                        #[trigger] ps.take(k + 1)[q].addr,
                                        game_id,
                                    );
                                    if q < k {
                                        assert(ps.take(k as int)[q] == ps.take(k + 1)[q]);
                                    }
                                }
                            }
                        }
                    }
                },
            }
            k = k + 1;
        }
        proof {
            assert(ps.take(np as int) =~= ps);
        }
        Ok(packets)
    }
}

/// The clients after `c` logs in at `addr`: it replaces a client held at
/// that address, else joins at the end.
pub open spec fn put_client(clients: Seq<(u64, ClientSpec)>, addr: u64, c: ClientSpec) -> Seq<(u64, ClientSpec)> {
    let i = client_index(clients, addr);
    if i >= 0 {
        clients.update(i, (addr, c))
    } else {
        clients.push((addr, c))
    }
}

/// The games after `g` is added: it replaces a game with its id, else joins
/// at the end.
pub open spec fn put_game(games: Seq<GameSpec>, g: GameSpec) -> Seq<GameSpec> {
    let i = game_index(games, g.game_id);
    if i >= 0 {
        games.update(i, g)
    } else {
        games.push(g)
    }
}

/// Logging in at a new address and then leaving gives back the clients as
/// they were.
pub proof fn law_add_then_remove_client(clients: Seq<(u64, ClientSpec)>, addr: u64, c: ClientSpec)
    requires
        client_index(clients, addr) < 0,
    ensures
        client_index(put_client(clients, addr, c), addr) == clients.len(),
        put_client(clients, addr, c).remove(client_index(put_client(clients, addr, c), addr)) == clients,
{
    let after = clients.push((addr, c));
    assert(after.last().0 == addr);
    assert(after.remove(clients.len() as int) =~= clients);
}

/// Adding a game with a new id and then removing it gives back the games
/// as they were.
pub proof fn law_add_then_remove_game(games: Seq<GameSpec>, g: GameSpec)
    requires
        game_index(games, g.game_id) < 0,
    ensures
        game_index(put_game(games, g), g.game_id) == games.len(),
        put_game(games, g).remove(game_index(put_game(games, g), g.game_id)) == games,
{
    let after = games.push(g);
    assert(after.last().game_id == g.game_id);
    assert(after.remove(games.len() as int) =~= games);
}

impl AppState {
    /// Adds a client at `addr`, replacing one held there.
    pub fn add_client(&mut self, addr: u64, client: ClientInfo)
        requires
            old(self).wf(),
            client.packet_generator.wf(),
        ensures
            final(self).wf(),
            final(self)@ == (StateSpec { clients: put_client(old(self)@.clients, addr, client@), ..old(self)@ }),
    {
        let ghost st0 = self@;
        let ghost cv = client@;
        proof {
            lemma_client_index(st0.clients, addr);
        }
        match self.find_client(addr) {
            Some(i) => {
                self.clients.set(i, ClientEntry { addr, info: client });
            },
            None => {
                self.clients.push(ClientEntry { addr, info: client });
            },
        }
        proof {
            assert(self@.clients =~= put_client(st0.clients, addr, cv));
            assert(unique_addrs(self@.clients)) by {
                assert forall|a: int, b: int| 0 <= a < b < self@.clients.len() implies self@.clients[a].0
                    != self@.clients[b].0 by {
                    if a < st0.clients.len() && b < st0.clients.len() {
                        if client_index(st0.clients, addr) >= 0 && (a == client_index(st0.clients, addr) || b == client_index(st0.clients, addr)) {
                        } else {
                            assert(self@.clients[a] == st0.clients[a]);
                            assert(self@.clients[b] == st0.clients[b]);
                        }
                    } else {
                        assert(self@.clients[a] == st0.clients[a]);
                    }
                }
            }
        }
    }

    /// Removes the client at `addr`; the client removed.
    pub fn remove_client(&mut self, addr: u64) -> (r: Option<ClientInfo>)
        requires
            old(self).wf(),
        ensures
            final(self).wf(),
            client_index(old(self)@.clients, addr) < 0 ==> r is None && final(self)@ == old(self)@,
            client_index(old(self)@.clients, addr) >= 0 ==> (r matches Some(c) && c@ == old(self)@.clients[client_index(
                old(self)@.clients,
                addr,
            )].1) && final(self)@ == (StateSpec {
                clients: old(self)@.clients.remove(client_index(old(self)@.clients, addr)),
                ..old(self)@
            }),
    {
        let ghost st0 = self@;
        proof {
            lemma_client_index(st0.clients, addr);
        }
        match self.find_client(addr) {
            Some(i) => {
                let e = self.clients.remove(i);
                proof {
                    assert(self@.clients =~= st0.clients.remove(i as int));
                    assert(unique_addrs(self@.clients)) by {
                        assert forall|a: int, b: int| 0 <= a < b < self@.clients.len() implies self@.clients[a].0
                            != self@.clients[b].0 by {
                            let a0 = if a < i { a } else { a + 1 };
                            let b0 = if b < i { b } else { b + 1 };
                            assert(self@.clients[a] == st0.clients[a0]);
                            assert(self@.clients[b] == st0.clients[b0]);
                        }
                    }
                }
                Some(e.info)
            },
            None => None,
        }
    }

    /// Get all client addresses
    pub fn get_all_client_addrs(&self) -> (v: Vec<u64>)
        ensures
            v@ == self@.clients.map_values(|e: (u64, ClientSpec)| e.0),
    {
        let mut v: Vec<u64> = Vec::new();
        let mut i: usize = 0;
        while i < self.clients.len()
            invariant
                i <= self.clients@.len(),
                v@ =~= self@.clients.take(i as int).map_values(|e: (u64, ClientSpec)| e.0),
            decreases self.clients@.len() - i,
        {
            v.push(self.clients[i].addr);
            assert(self@.clients.take(i + 1) =~= self@.clients.take(i as int).push(self@.clients[i as int]));
            i = i + 1;
        }
        assert(self@.clients.take(i as int) =~= self@.clients);
        v
    }

    /// Adds a game, replacing one with its id.
    pub fn add_game(&mut self, game_id: u32, game: GameInfo)
        requires
            old(self).wf(),
            game.game_id == game_id,
            game.wf(),
        ensures
            final(self).wf(),
            final(self)@ == (StateSpec { games: put_game(old(self)@.games, game@), ..old(self)@ }),
    {
        let ghost st0 = self@;
        let ghost gv = game@;
        proof {
            lemma_game_index(st0.games, game_id);
        }
        match self.find_game(game_id) {
            Some(i) => {
                self.games.set(i, game);
            },
            None => {
                self.games.push(game);
            },
        }
        proof {
            assert(self@.games =~= put_game(st0.games, gv));
            assert(unique_ids(self@.games)) by {
                assert forall|a: int, b: int| 0 <= a < b < self@.games.len() implies self@.games[a].game_id
                    != self@.games[b].game_id by {
                    if a < st0.games.len() && b < st0.games.len() {
                        if game_index(st0.games, game_id) >= 0 && (a == game_index(st0.games, game_id) || b == game_index(st0.games, game_id)) {
                        } else {
                            assert(self@.games[a] == st0.games[a]);
                            assert(self@.games[b] == st0.games[b]);
                        }
                    } else {
                        assert(self@.games[a] == st0.games[a]);
                    }
                }
            }
        }
    }

    /// Removes the game with `game_id`; the game removed.
    pub fn remove_game(&mut self, game_id: u32) -> (r: Option<GameInfo>)
        requires
            old(self).wf(),
        ensures
            final(self).wf(),
            game_index(old(self)@.games, game_id) < 0 ==> r is None && final(self)@ == old(self)@,
            game_index(old(self)@.games, game_id) >= 0 ==> (r matches Some(g) && g@ == old(self)@.games[game_index(
                old(self)@.games,
                game_id,
            )]) && final(self)@ == (StateSpec {
                games: old(self)@.games.remove(game_index(old(self)@.games, game_id)),
                ..old(self)@
            }),
    {
        let ghost st0 = self@;
        proof {
            lemma_game_index(st0.games, game_id);
        }
        match self.find_game(game_id) {
            Some(i) => {
                let g = self.games.remove(i);
                proof {
                    assert(self@.games =~= st0.games.remove(i as int));
                    assert(unique_ids(self@.games)) by {
                        assert forall|a: int, b: int| 0 <= a < b < self@.games.len() implies self@.games[a].game_id
                            != self@.games[b].game_id by {
                            let a0 = if a < i { a } else { a + 1 };
                            let b0 = if b < i { b } else { b + 1 };
                            assert(self@.games[a] == st0.games[a0]);
                            assert(self@.games[b] == st0.games[b0]);
                        }
                    }
                    assert forall|k: int| 0 <= k < self.games@.len() implies (#[trigger] self.games@[k]).wf() by {
                        let k0 = if k < i { k } else { k + 1 };
                        assert(self.games@[k] == old(self).games@[k0]);
                    }
                }
                Some(g)
            },
            None => None,
        }
    }
}

/// The client at position `i` with a new game and status.
pub open spec fn with_game(st: StateSpec, i: int, game_id: Option<u32>) -> StateSpec {
    StateSpec {
        clients: st.clients.update(i, (st.clients[i].0, ClientSpec { game_id, ..st.clients[i].1 })),
        ..st
    }
}

pub open spec fn with_status(st: StateSpec, i: int, status: u8) -> StateSpec {
    StateSpec {
        clients: st.clients.update(
            i,
            (st.clients[i].0, ClientSpec { player_status: status, ..st.clients[i].1 }),
        ),
        ..st
    }
}

pub open spec fn with_client(st: StateSpec, i: int, c: ClientSpec) -> StateSpec {
    StateSpec { clients: st.clients.update(i, (st.clients[i].0, c)), ..st }
}

pub open spec fn with_game_entry(st: StateSpec, i: int, g: GameSpec) -> StateSpec {
    StateSpec { games: st.games.update(i, g), ..st }
}

impl AppState {
    proof fn lemma_update_client_keeps_wf(&self, old_state: AppState, i: int)
        requires
            old_state.wf(),
            0 <= i < old_state.clients@.len(),
            self.clients@.len() == old_state.clients@.len(),
            self.games == old_state.games,
            forall|k: int| 0 <= k < self.clients@.len() && k != i ==> #[trigger] self.clients@[k] == old_state.clients@[k],
            self.clients@[i].addr == old_state.clients@[i].addr,
            self.clients@[i].info.packet_generator.wf(),
        ensures
            self.wf(),
            self@.clients =~= old_state@.clients.update(i, (self.clients@[i].addr, self.clients@[i].info@)),
    {
        assert forall|a: int, b: int| 0 <= a < b < self@.clients.len() implies self@.clients[a].0
            != self@.clients[b].0 by {
            assert(self@.clients[a].0 == old_state@.clients[a].0);
            assert(self@.clients[b].0 == old_state@.clients[b].0);
        }
    }

    /// Sets the game of the client at position `i`.
    pub fn set_client_game(&mut self, i: usize, game_id: Option<u32>)
        requires
            old(self).wf(),
            i < old(self)@.clients.len(),
        ensures
            final(self).wf(),
            final(self)@ == with_game(old(self)@, i as int, game_id),
    {
        self.clients[i].info.game_id = game_id;
        proof {
            self.lemma_update_client_keeps_wf(*old(self), i as int);
        }
    }

    /// Sets the status of the client at position `i`.
    pub fn set_client_status(&mut self, i: usize, status: u8)
        requires
            old(self).wf(),
            i < old(self)@.clients.len(),
        ensures
            final(self).wf(),
            final(self)@ == with_status(old(self)@, i as int, status),
    {
        self.clients[i].info.player_status = status;
        proof {
            self.lemma_update_client_keeps_wf(*old(self), i as int);
        }
    }

    /// Records an acknowledgement of the client at position `i` at time
    /// `now`: when a ping went out before, the round trip becomes its ping,
    /// the clock restarts and the count goes up.
    pub fn record_ack(&mut self, i: usize, now: u64) -> (r: Result<u16, HandlerError>)
        requires
            old(self).wf(),
            i < old(self)@.clients.len(),
        ensures
            final(self).wf(),
            (final(self)@, r) == ack_spec(old(self)@, i as int, now),
    {
        match self.clients[i].info.last_ping_time {
            Some(t) => {
                if self.clients[i].info.ack_count == u16::MAX {
                    return Err(HandlerError::CounterOverflow);
                }
                let elapsed: u64 = if now >= t {
                    now - t
                } else {
                    0
                };
                self.clients[i].info.ping = (elapsed % 4294967296u64) as u32;
                self.clients[i].info.last_ping_time = Some(now);
                self.clients[i].info.ack_count = self.clients[i].info.ack_count + 1;
                proof {
                    self.lemma_update_client_keeps_wf(*old(self), i as int);
                }
                Ok(self.clients[i].info.ack_count)
            },
            None => Ok(self.clients[i].info.ack_count),
        }
    }

    proof fn lemma_update_game_keeps_wf(&self, old_state: AppState, i: int)
        requires
            old_state.wf(),
            0 <= i < old_state.games@.len(),
            self.games@.len() == old_state.games@.len(),
            self.clients == old_state.clients,
            forall|k: int| 0 <= k < self.games@.len() && k != i ==> #[trigger] self.games@[k] == old_state.games@[k],
            self.games@[i].game_id == old_state.games@[i].game_id,
            self.games@[i].wf(),
        ensures
            self.wf(),
            self@.games =~= old_state@.games.update(i, self.games@[i]@),
    {
        assert forall|a: int, b: int| 0 <= a < b < self@.games.len() implies self@.games[a].game_id
            != self@.games[b].game_id by {
            assert(self@.games[a].game_id == old_state@.games[a].game_id);
            assert(self@.games[b].game_id == old_state@.games[b].game_id);
        }
        assert forall|k: int| 0 <= k < self.games@.len() implies (#[trigger] self.games@[k]).wf() by {
            if k != i {
                assert(self.games@[k] == old_state.games@[k]);
            }
        }
    }

    /// Sets the status of the game at position `gi`.
    pub fn set_game_status(&mut self, gi: usize, status: u8)
        requires
            old(self).wf(),
            gi < old(self)@.games.len(),
        ensures
            final(self).wf(),
            final(self)@ == with_game_entry(old(self)@, gi as int, GameSpec { game_status: status, ..old(self)@.games[gi as int] }),
    {
        self.games[gi].game_status = status;
        proof {
            self.lemma_update_game_keeps_wf(*old(self), gi as int);
            assert(self.games@[gi as int]@ =~= GameSpec { game_status: status, ..old(self)@.games[gi as int] });
        }
    }

    /// Ends the synchronisation of the game at position `gi`.
    pub fn clear_sync(&mut self, gi: usize)
        requires
            old(self).wf(),
            gi < old(self)@.games.len(),
        ensures
            final(self).wf(),
            final(self)@ == with_game_entry(old(self)@, gi as int, GameSpec { sync: None, ..old(self)@.games[gi as int] }),
    {
        self.games[gi].sync_manager = None;
        proof {
            self.lemma_update_game_keeps_wf(*old(self), gi as int);
            assert(self.games@[gi as int]@ =~= GameSpec { sync: None, ..old(self)@.games[gi as int] });
        }
    }

    /// Starts the game at position `gi`: playing, with `sync`.
    pub fn start_sync(&mut self, gi: usize, sync: CachedGameSync)
        requires
            old(self).wf(),
            gi < old(self)@.games.len(),
            sync.wf(),
        ensures
            final(self).wf(),
            final(self)@ == with_game_entry(old(self)@, gi as int, GameSpec {
                game_status: GAME_STATUS_PLAYING,
                sync: Some(sync@),
                ..old(self)@.games[gi as int]
            }),
    {
        let ghost sv = sync@;
        self.games[gi].game_status = GAME_STATUS_PLAYING;
        self.games[gi].sync_manager = Some(sync);
        proof {
            self.lemma_update_game_keeps_wf(*old(self), gi as int);
            assert(self.games@[gi as int]@ =~= GameSpec {
                game_status: GAME_STATUS_PLAYING,
                sync: Some(sv),
                ..old(self)@.games[gi as int]
            });
        }
    }

    /// Removes the player at position `pi` of the game at position `gi`.
    pub fn remove_player(&mut self, gi: usize, pi: usize)
        requires
            old(self).wf(),
            gi < old(self)@.games.len(),
            pi < old(self)@.games[gi as int].players.len(),
        ensures
            final(self).wf(),
            final(self)@ == with_game_entry(old(self)@, gi as int, GameSpec {
                players: old(self)@.games[gi as int].players.remove(pi as int),
                num_players: (old(self)@.games[gi as int].num_players - 1) as u8,
                ..old(self)@.games[gi as int]
            }),
    {
        assert(self.games@[gi as int].wf());
        self.games[gi].players.remove(pi);
        self.games[gi].num_players = self.games[gi].num_players - 1;
        proof {
            self.lemma_update_game_keeps_wf(*old(self), gi as int);
            assert(players_view(self.games@[gi as int].players@) =~= old(self)@.games[gi as int].players.remove(pi as int));
            assert(self.games@[gi as int]@ =~= GameSpec {
                players: old(self)@.games[gi as int].players.remove(pi as int),
                num_players: (old(self)@.games[gi as int].num_players - 1) as u8,
                ..old(self)@.games[gi as int]
            });
        }
    }

    /// Adds a player to the game at position `gi`; refused when the count
    /// would pass 255.
    pub fn add_player(&mut self, gi: usize, player: GamePlayerInfo) -> (r: Result<(), HandlerError>)
        requires
            old(self).wf(),
            gi < old(self)@.games.len(),
        ensures
            final(self).wf(),
            old(self)@.games[gi as int].num_players == 255 ==> r == Err::<(), HandlerError>(HandlerError::CounterOverflow)
                && final(self)@ == old(self)@,
            old(self)@.games[gi as int].num_players < 255 ==> r is Ok && final(self)@ == with_game_entry(
                old(self)@,
                gi as int,
                GameSpec {
                    players: old(self)@.games[gi as int].players.push(player@),
                    num_players: (old(self)@.games[gi as int].num_players + 1) as u8,
                    ..old(self)@.games[gi as int]
                },
            ),
    {
        if self.games[gi].num_players == 255 {
            return Err(HandlerError::CounterOverflow);
        }
        let ghost pv = player@;
        assert(self.games@[gi as int].wf());
        self.games[gi].num_players = self.games[gi].num_players + 1;
        self.games[gi].players.push(player);
        proof {
            self.lemma_update_game_keeps_wf(*old(self), gi as int);
            assert(players_view(self.games@[gi as int].players@) =~= old(self)@.games[gi as int].players.push(pv));
            assert(self.games@[gi as int]@ =~= GameSpec {
                players: old(self)@.games[gi as int].players.push(pv),
                num_players: (old(self)@.games[gi as int].num_players + 1) as u8,
                ..old(self)@.games[gi as int]
            });
        }
        Ok(())
    }

    /// Hands an input to the synchronisation of the game at position `gi`.
    pub fn sync_input(&mut self, gi: usize, player_id: usize, input: ClientInput) -> (r: Result<
        Vec<CachedPlayerOutput>,
        HandlerError,
    >)
        requires
            old(self).wf(),
            gi < old(self)@.games.len(),
        ensures
            final(self).wf(),
            (final(self)@, sync_result_view(r)) == sync_input_spec(old(self)@, gi as int, player_id, input@),
    {
        let ghost inv = input@;
        assert(self.games@[gi as int].wf());
        let taken = self.games[gi].sync_manager.take();
        match taken {
            None => {
                proof {
                    assert(self.games@[gi as int] == old(self).games@[gi as int]);
                    self.lemma_update_game_keeps_wf(*old(self), gi as int);
                    assert(self@.games =~= old(self)@.games);
                    assert(self@ == old(self)@);
                }
                Err(HandlerError::SyncNotStarted)
            },
            Some(mut m) => {
                let ghost m0 = m@;
                assert(old(self)@.games[gi as int].sync == Some(m0));
                if m.input_would_stall(player_id, &input) {
                    self.games[gi].sync_manager = Some(m);
                    proof {
                        self.lemma_update_game_keeps_wf(*old(self), gi as int);
                        assert(self.games@[gi as int]@ == old(self).games@[gi as int]@);
                        assert(self@.games =~= old(self)@.games);
                        assert(self@ == old(self)@);
                    }
                    return Err(HandlerError::SyncWouldStall);
                }
                let r = m.process_client_input(player_id, input);
                let ghost mv = m@;
                self.games[gi].sync_manager = Some(m);
                proof {
                    self.lemma_update_game_keeps_wf(*old(self), gi as int);
                    assert(self.games@[gi as int]@ =~= GameSpec { sync: Some(mv), ..old(self)@.games[gi as int] });
                    assert(self@ == with_game_entry(old(self)@, gi as int, GameSpec { sync: Some(mv), ..old(self)@.games[gi as int] }));
                }
                let res = match r {
                    Ok(v) => Ok(v),
                    Err(e) => Err(HandlerError::Sync(e)),
                };
                proof {
                    assert(sync_result_view(res) == sync_input_spec(old(self)@, gi as int, player_id, inv).1);
                }
                res
            },
        }
    }

    /// Marks a player of the game at position `gi` dropped.
    pub fn sync_drop(&mut self, gi: usize, player_id: usize) -> (r: Result<
        Vec<CachedPlayerOutput>,
        HandlerError,
    >)
        requires
            old(self).wf(),
            gi < old(self)@.games.len(),
        ensures
            final(self).wf(),
            (final(self)@, sync_result_view(r)) == sync_drop_spec(old(self)@, gi as int, player_id),
    {
        assert(self.games@[gi as int].wf());
        let taken = self.games[gi].sync_manager.take();
        match taken {
            None => {
                proof {
                    assert(self.games@[gi as int] == old(self).games@[gi as int]);
                    self.lemma_update_game_keeps_wf(*old(self), gi as int);
                    assert(self@.games =~= old(self)@.games);
                    assert(self@ == old(self)@);
                }
                Err(HandlerError::SyncNotStarted)
            },
            Some(mut m) => {
                let ghost m0 = m@;
                assert(old(self)@.games[gi as int].sync == Some(m0));
                if m.drop_would_stall(player_id) {
                    self.games[gi].sync_manager = Some(m);
                    proof {
                        self.lemma_update_game_keeps_wf(*old(self), gi as int);
                        assert(self.games@[gi as int]@ == old(self).games@[gi as int]@);
                        assert(self@.games =~= old(self)@.games);
                        assert(self@ == old(self)@);
                    }
                    return Err(HandlerError::SyncWouldStall);
                }
                let r = m.mark_player_dropped(player_id);
                let ghost mv = m@;
                self.games[gi].sync_manager = Some(m);
                proof {
                    self.lemma_update_game_keeps_wf(*old(self), gi as int);
                    assert(self.games@[gi as int]@ =~= GameSpec { sync: Some(mv), ..old(self)@.games[gi as int] });
                    assert(self@ == with_game_entry(old(self)@, gi as int, GameSpec { sync: Some(mv), ..old(self)@.games[gi as int] }));
                }
                let res = match r {
                    Ok(v) => Ok(v),
                    Err(e) => Err(HandlerError::Sync(e)),
                };
                proof {
                    assert(sync_result_view(res) == sync_drop_spec(old(self)@, gi as int, player_id).1);
                }
                res
            },
        }
    }

    /// Whether every player of the game at position `gi` has dropped.
    pub fn all_dropped(&self, gi: usize) -> (b: bool)
        requires
            self.wf(),
            gi < self@.games.len(),
            self@.games[gi as int].sync is Some,
        ensures
            b == all_dropped_spec(self@.games[gi as int].sync.unwrap()),
    {
        assert(self.games@[gi as int].wf());
        match &self.games[gi].sync_manager {
            Some(m) => m.all_players_dropped(),
            None => false,
        }
    }
}

/// Whether every player has dropped.
pub open spec fn all_dropped_spec(s: CachedSpec) -> bool {
    forall|i: int| 0 <= i < s.sync.dropped.len() ==> #[trigger] s.sync.dropped[i]
}

/// An acknowledgement at `now` of the client at position `i`.
pub open spec fn ack_spec(st: StateSpec, i: int, now: u64) -> (StateSpec, Result<u16, HandlerError>) {
    let c = st.clients[i].1;
    match c.last_ping_time {
        Some(t) => if c.ack_count == u16::MAX {
            (st, Err(HandlerError::CounterOverflow))
        } else {
            let elapsed: int = if now >= t { now - t } else { 0 };
            let c2 = ClientSpec {
                ping: (elapsed % 4294967296) as u32,
                last_ping_time: Some(now),
                ack_count: (c.ack_count + 1) as u16,
                ..c
            };
            (with_client(st, i, c2), Ok(c2.ack_count))
        },
        None => (st, Ok(c.ack_count)),
    }
}

pub open spec fn sync_result_view(r: Result<Vec<CachedPlayerOutput>, HandlerError>) -> Result<
    Seq<(usize, ResponseSpec)>,
    HandlerError,
> {
    match r {
        Ok(v) => Ok(crate::sync_core::responses_view(v@)),
        Err(e) => Err(e),
    }
}

/// An input to the synchronisation of the game at position `gi`.
pub open spec fn sync_input_spec(st: StateSpec, gi: int, pid: usize, input: InputSpec) -> (
    StateSpec,
    Result<Seq<(usize, ResponseSpec)>, HandlerError>,
) {
    let g = st.games[gi];
    match g.sync {
        None => (st, Err(HandlerError::SyncNotStarted)),
        Some(s) if input_stalls(s, pid, input) => (st, Err(HandlerError::SyncWouldStall)),
        Some(s) => {
            let p = cached_process_spec(s, pid, input);
            (
                with_game_entry(st, gi, GameSpec { sync: Some(p.0), ..g }),
                match p.1 {
                    Ok(v) => Ok(v),
                    Err(e) => Err(HandlerError::Sync(e)),
                },
            )
        },
    }
}

/// A drop in the synchronisation of the game at position `gi`.
pub open spec fn sync_drop_spec(st: StateSpec, gi: int, pid: usize) -> (
    StateSpec,
    Result<Seq<(usize, ResponseSpec)>, HandlerError>,
) {
    let g = st.games[gi];
    match g.sync {
        None => (st, Err(HandlerError::SyncNotStarted)),
        Some(s) if drop_stalls(s, pid) => (st, Err(HandlerError::SyncWouldStall)),
        Some(s) => {
            let p = cached_mark_dropped_spec(s, pid);
            (
                with_game_entry(st, gi, GameSpec { sync: Some(p.0), ..g }),
                match p.1 {
                    Ok(v) => Ok(v),
                    Err(e) => Err(HandlerError::Sync(e)),
                },
            )
        },
    }
}

} // verus!
