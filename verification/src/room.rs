//! Users, rooms and errors of the first server generation. Users are held
//! in the order they logged in, rooms in the order they were opened; a user
//! is found by address, a room by game id.
use vstd::prelude::*;

use crate::packet_util::{decimal_chars, decimal_string};
use crate::cache_system::{entries_view, CacheSystem};
use crate::kaillera::protocol::MessageSpec;
use crate::protocol::{protocols_view, PacketsSpec, Protocol, ProtocolPackets};

verus! {

/// A user's status while playing.
pub const PLAYING: u8 = 0;

/// A user's status while not playing.
pub const IDLE: u8 = 1;

/// A seat of a room: a user playing, a user waiting, or the seat of a user
/// who left during a game.
#[derive(Debug, Clone, Copy, PartialEq, Eq, Structural)]
pub enum PlayerAddr {
    Playing(u64),
    Idle(u64),
    Empty,
}

/// The address in a seat, if any.
pub open spec fn seat_addr(p: PlayerAddr) -> Option<u64> {
    match p {
        PlayerAddr::Playing(a) => Some(a),
        PlayerAddr::Idle(a) => Some(a),
        PlayerAddr::Empty => None,
    }
}

/// A user as the room logic reads it.
pub struct User {
    pub ip_addr: u64,
    pub user_id: u16,
    pub name: Vec<u8>,
    pub emul_name: String,
    pub ping: u32,
    pub connect_type: u8,
    pub player_status: u8,
    pub game_room_id: Option<u32>,
    /// The user's seat number in its game.
    pub player_index: u8,
    /// The user's place in its room.
    pub room_order: u8,
    /// The sequence number of the next message to handle.
    pub cur_seq: u16,
    /// Messages received and not yet handled.
    pub in_packets: ProtocolPackets,
    /// Bytes of one frame of input of this user.
    pub atomic_input_size: u8,
    /// Messages framed for this user, oldest first.
    pub out_packets: Vec<Protocol>,
    /// The sequence number of the next message framed for this user.
    pub send_count: u16,
    /// Input of each player not yet sent to this user.
    pub players_input: Vec<Vec<u8>>,
    /// What this user's client caches of its own input.
    pub cache_system: CacheSystem,
    /// What this user's client caches of what it receives.
    pub put_cache: CacheSystem,
    /// Round trip times measured, in milliseconds.
    pub pings: Vec<i32>,
    /// When the last acknowledgement request went out, in milliseconds.
    pub s2c_ack_time: u64,
    /// When the user was last heard from, in milliseconds.
    pub keepalive_time: u64,
}

pub struct UserSpec {
    pub ip_addr: u64,
    pub user_id: u16,
    pub name: Seq<u8>,
    pub emul_name: Seq<char>,
    pub ping: u32,
    pub connect_type: u8,
    pub player_status: u8,
    pub game_room_id: Option<u32>,
    pub player_index: u8,
    pub room_order: u8,
    pub cur_seq: u16,
    pub in_packets: PacketsSpec,
    pub atomic_input_size: u8,
    pub out_packets: Seq<MessageSpec>,
    pub send_count: u16,
    pub players_input: Seq<Seq<u8>>,
    pub cache_system: Seq<Seq<u8>>,
    pub put_cache: Seq<Seq<u8>>,
    pub pings: Seq<i32>,
    pub s2c_ack_time: u64,
    pub keepalive_time: u64,
}

/// A user at `addr` that has not logged in, first heard from at `now`: name
/// a single null byte, idle, in no room, expecting message 0, holding and
/// having framed none.
pub open spec fn fresh_user(addr: u64, now: u64) -> UserSpec {
    UserSpec {
        ip_addr: addr,
        user_id: 0,
        name: seq![0u8],
        emul_name: Seq::empty(),
        ping: 0,
        connect_type: 0,
        player_status: IDLE,
        game_room_id: None,
        player_index: 0,
        room_order: 0,
        cur_seq: 0,
        in_packets: PacketsSpec { matched_seq: None, packets: Map::empty() },
        atomic_input_size: 0,
        out_packets: Seq::empty(),
        send_count: 0,
        players_input: Seq::empty(),
        cache_system: Seq::empty(),
        put_cache: Seq::empty(),
        pings: Seq::empty(),
        s2c_ack_time: now,
        keepalive_time: now,
    }
}

impl View for User {
    type V = UserSpec;

    open spec fn view(&self) -> UserSpec {
        UserSpec {
            ip_addr: self.ip_addr,
            user_id: self.user_id,
            name: self.name@,
            emul_name: self.emul_name@,
            ping: self.ping,
            connect_type: self.connect_type,
            player_status: self.player_status,
            game_room_id: self.game_room_id,
            player_index: self.player_index,
            room_order: self.room_order,
            cur_seq: self.cur_seq,
            in_packets: self.in_packets@,
            atomic_input_size: self.atomic_input_size,
            out_packets: protocols_view(self.out_packets@),
            send_count: self.send_count,
            players_input: entries_view(self.players_input@),
            cache_system: entries_view(self.cache_system.incoming_data_vec@),
            put_cache: entries_view(self.put_cache.incoming_data_vec@),
            pings: self.pings@,
            s2c_ack_time: self.s2c_ack_time,
            keepalive_time: self.keepalive_time,
        }
    }
}

impl User {
    /// A user at `ip_addr` that has not logged in, first heard from at
    /// `now`.
    pub fn new(ip_addr: u64, now: u64) -> (u: User)
        ensures
            u@ == fresh_user(ip_addr, now),
    {
        let mut name: Vec<u8> = Vec::new();
        name.push(0u8);
        let u = User {
            ip_addr,
            user_id: 0,
            name,
            emul_name: String::new(),
            ping: 0,
            connect_type: 0,
            player_status: IDLE,
            game_room_id: None,
            player_index: 0,
            room_order: 0,
            cur_seq: 0,
            in_packets: ProtocolPackets::new(),
            atomic_input_size: 0,
            out_packets: Vec::new(),
            send_count: 0,
            players_input: Vec::new(),
            cache_system: CacheSystem::new(),
            put_cache: CacheSystem::new(),
            pings: Vec::new(),
            s2c_ack_time: now,
            keepalive_time: now,
        };
        assert(u@.in_packets.packets =~= Map::<u16, MessageSpec>::empty());
        assert(u@.name =~= seq![0u8]);
        assert(u@.players_input =~= Seq::<Seq<u8>>::empty());
        assert(u@.cache_system =~= Seq::<Seq<u8>>::empty());
        assert(u@.put_cache =~= Seq::<Seq<u8>>::empty());
        assert(u@.out_packets =~= Seq::<MessageSpec>::empty());
        assert(u@.pings =~= Seq::<i32>::empty());
        assert(u@.emul_name =~= Seq::<char>::empty());
        assert(u@ =~= fresh_user(ip_addr, now));
        u
    }
}

/// A game room.
pub struct Room {
    pub game_name: String,
    pub game_id: u32,
    pub emul_name: String,
    pub creator_id: String,
    pub players: Vec<PlayerAddr>,
    pub game_status: u8,
    pub same_delay: bool,
}

pub struct RoomSpec {
    pub game_name: Seq<char>,
    pub game_id: u32,
    pub emul_name: Seq<char>,
    pub creator_id: Seq<char>,
    pub players: Seq<PlayerAddr>,
    pub game_status: u8,
    pub same_delay: bool,
}

impl View for Room {
    type V = RoomSpec;

    open spec fn view(&self) -> RoomSpec {
        RoomSpec {
            game_name: self.game_name@,
            game_id: self.game_id,
            emul_name: self.emul_name@,
            creator_id: self.creator_id@,
            players: self.players@,
            game_status: self.game_status,
            same_delay: self.same_delay,
        }
    }
}

/// The number of occupied seats.
pub open spec fn seats_taken(players: Seq<PlayerAddr>) -> nat
    decreases players.len(),
{
    if players.len() == 0 {
        0
    } else {
        seats_taken(players.drop_last()) + if players.last() is Empty {
            0nat
        } else {
            1nat
        }
    }
}

impl Room {
    /// An empty room: no name, id 0, no players, waiting.
    pub fn new() -> (r: Room)
        ensures
            r@ == (RoomSpec {
                game_name: Seq::empty(),
                game_id: 0,
                emul_name: Seq::empty(),
                creator_id: Seq::empty(),
                players: Seq::empty(),
                game_status: 0,
                same_delay: false,
            }),
    {
        Room {
            game_name: String::new(),
            game_id: 0,
            emul_name: String::new(),
            creator_id: String::new(),
            players: Vec::new(),
            game_status: 0,
            same_delay: false,
        }
    }

    /// The number of occupied seats.
    pub fn player_some_count(&self) -> (n: usize)
        ensures
            n == seats_taken(self.players@),
    {
        count_seats(&self.players)
    }
}

/// The number of occupied seats of `players`.
pub fn count_seats(players: &Vec<PlayerAddr>) -> (n: usize)
    ensures
        n == seats_taken(players@),
{
    let mut n: usize = 0;
    let mut i: usize = 0;
    while i < players.len()
        invariant
            i <= players@.len(),
            n == seats_taken(players@.take(i as int)),
            n <= i,
        decreases players@.len() - i,
    {
        assert(players@.take(i + 1).drop_last() =~= players@.take(i as int));
        match players[i] {
            PlayerAddr::Empty => {},
            _ => {
                n = n + 1;
            },
        }
        i = i + 1;
    }
    assert(players@.take(i as int) =~= players@);
    n
}

/// Position of the user at `addr`, or -1.
pub open spec fn user_pos(users: Seq<UserSpec>, addr: u64) -> int
    decreases users.len(),
{
    if users.len() == 0 {
        -1
    } else if users.last().ip_addr == addr {
        users.len() - 1
    } else {
        user_pos(users.drop_last(), addr)
    }
}

/// Position of the room with `game_id`, or -1.
pub open spec fn room_pos(rooms: Seq<RoomSpec>, game_id: u32) -> int
    decreases rooms.len(),
{
    if rooms.len() == 0 {
        -1
    } else if rooms.last().game_id == game_id {
        rooms.len() - 1
    } else {
        room_pos(rooms.drop_last(), game_id)
    }
}

pub proof fn lemma_user_pos(users: Seq<UserSpec>, addr: u64)
    ensures
        -1 <= user_pos(users, addr) < users.len(),
        user_pos(users, addr) >= 0 ==> users[user_pos(users, addr)].ip_addr == addr,
        user_pos(users, addr) < 0 ==> forall|j: int|
            0 <= j < users.len() ==> #[trigger] users[j].ip_addr != addr,
    decreases users.len(),
{
    if users.len() > 0 && users.last().ip_addr != addr {
        lemma_user_pos(users.drop_last(), addr);
        if user_pos(users, addr) < 0 {
            assert forall|j: int| 0 <= j < users.len() implies #[trigger] users[j].ip_addr != addr by {
                if j < users.len() - 1 {
                    assert(users[j] == users.drop_last()[j]);
                }
            }
        }
    }
}

pub proof fn lemma_room_pos(rooms: Seq<RoomSpec>, game_id: u32)
    ensures
        -1 <= room_pos(rooms, game_id) < rooms.len(),
        room_pos(rooms, game_id) >= 0 ==> rooms[room_pos(rooms, game_id)].game_id == game_id,
        room_pos(rooms, game_id) < 0 ==> forall|j: int|
            0 <= j < rooms.len() ==> #[trigger] rooms[j].game_id != game_id,
    decreases rooms.len(),
{
    if rooms.len() > 0 && rooms.last().game_id != game_id {
        lemma_room_pos(rooms.drop_last(), game_id);
        if room_pos(rooms, game_id) < 0 {
            assert forall|j: int| 0 <= j < rooms.len() implies #[trigger] rooms[j].game_id != game_id by {
                if j < rooms.len() - 1 {
                    assert(rooms[j] == rooms.drop_last()[j]);
                }
            }
        }
    }
}

/// Users and rooms of the first server generation.
pub struct UserRoom {
    pub users: Vec<User>,
    pub rooms: Vec<Room>,
    pub next_user_id: u16,
}

pub struct UserRoomSpec {
    pub users: Seq<UserSpec>,
    pub rooms: Seq<RoomSpec>,
    pub next_user_id: u16,
}

impl View for UserRoom {
    type V = UserRoomSpec;

    open spec fn view(&self) -> UserRoomSpec {
        UserRoomSpec {
            users: self.users@.map_values(|u: User| u@),
            rooms: self.rooms@.map_values(|r: Room| r@),
            next_user_id: self.next_user_id,
        }
    }
}

/// No address is held twice and no game id is held twice.
pub open spec fn user_room_wf(st: UserRoomSpec) -> bool {
    &&& forall|i: int, j: int|
        0 <= i < j < st.users.len() ==> st.users[i].ip_addr != st.users[j].ip_addr
    &&& forall|i: int, j: int|
        0 <= i < j < st.rooms.len() ==> st.rooms[i].game_id != st.rooms[j].game_id
}

impl UserRoom {
    pub open spec fn wf(&self) -> bool {
        user_room_wf(self@)
    }

    /// No users and no rooms.
    pub fn new() -> (s: UserRoom)
        ensures
            s.wf(),
            s@.users.len() == 0,
            s@.rooms.len() == 0,
            s@.next_user_id == 0,
    {
        UserRoom { users: Vec::new(), rooms: Vec::new(), next_user_id: 0 }
    }

    /// Position of the user at `addr`.
    pub fn find_user(&self, addr: u64) -> (r: Option<usize>)
        ensures
            match r {
                Some(i) => i == user_pos(self@.users, addr) && i < self.users@.len(),
                None => user_pos(self@.users, addr) < 0,
            },
    {
        let ghost users = self@.users;
        proof {
            lemma_user_pos(users, addr);
            assert(users.take(users.len() as int) =~= users);
        }
        let mut i: usize = self.users.len();
        while i > 0
            invariant
                i <= self.users@.len(),
                users == self@.users,
                user_pos(users, addr) == user_pos(users.take(i as int), addr),
            decreases i,
        {
            assert(users.take(i as int).drop_last() =~= users.take(i - 1));
            if self.users[i - 1].ip_addr == addr {
                return Some(i - 1);
            }
            i = i - 1;
        }
        None
    }

    /// Position of the room with `game_id`.
    pub fn find_room(&self, game_id: u32) -> (r: Option<usize>)
        ensures
            match r {
                Some(i) => i == room_pos(self@.rooms, game_id) && i < self.rooms@.len(),
                None => room_pos(self@.rooms, game_id) < 0,
            },
    {
        let ghost rooms = self@.rooms;
        proof {
            lemma_room_pos(rooms, game_id);
            assert(rooms.take(rooms.len() as int) =~= rooms);
        }
        let mut i: usize = self.rooms.len();
        while i > 0
            invariant
                i <= self.rooms@.len(),
                rooms == self@.rooms,
                room_pos(rooms, game_id) == room_pos(rooms.take(i as int), game_id),
            decreases i,
        {
            assert(rooms.take(i as int).drop_last() =~= rooms.take(i - 1));
            if self.rooms[i - 1].game_id == game_id {
                return Some(i - 1);
            }
            i = i - 1;
        }
        None
    }

    /// The room with `game_id`; `NotFound` when there is none.
    pub fn get_room(&self, game_id: u32) -> (r: Result<&Room, KailleraError>)
        ensures
            room_pos(self@.rooms, game_id) < 0 ==> r matches Err(KailleraError::NotFound),
            room_pos(self@.rooms, game_id) >= 0 ==> (r matches Ok(room) && room@ == self@.rooms[room_pos(self@.rooms, game_id)]),
    {
        match self.find_room(game_id) {
            Some(i) => Ok(&self.rooms[i]),
            None => Err(KailleraError::NotFound),
        }
    }

    /// The user at `addr`; `NotFound` when there is none.
    pub fn get_user(&self, addr: u64) -> (r: Result<&User, KailleraError>)
        ensures
            user_pos(self@.users, addr) < 0 ==> r matches Err(KailleraError::NotFound),
            user_pos(self@.users, addr) >= 0 ==> (r matches Ok(u) && u@ == self@.users[user_pos(self@.users, addr)]),
    {
        match self.find_user(addr) {
            Some(i) => Ok(&self.users[i]),
            None => Err(KailleraError::NotFound),
        }
    }
}

pub enum KailleraError {
    InvalidInput { message: String, pos: usize },
    TokenError,
    AlreadyError { message: String },
    GameStatusError { message: String },
    NotFoundSeq { wanted_seq: u16, cur_seq: u16 },
    NotFound,
    NotFoundUser { message: String },
}

/// Why a step of the first generation stopped: a `KailleraError`, or a
/// refusal that carries only its message.
pub enum ServiceError {
    Kaillera(KailleraError),
    Message { message: String },
}

pub enum ServiceErrorSpec {
    Kaillera(KailleraErrorSpec),
    Message { message: Seq<char> },
}

impl View for ServiceError {
    type V = ServiceErrorSpec;

    open spec fn view(&self) -> ServiceErrorSpec {
        match self {
            ServiceError::Kaillera(e) => ServiceErrorSpec::Kaillera(e@),
            ServiceError::Message { message } => ServiceErrorSpec::Message { message: message@ },
        }
    }
}

/// An error as the contracts see it.
pub enum KailleraErrorSpec {
    InvalidInput { message: Seq<char>, pos: usize },
    TokenError,
    AlreadyError { message: Seq<char> },
    GameStatusError { message: Seq<char> },
    NotFoundSeq { wanted_seq: u16, cur_seq: u16 },
    NotFound,
    NotFoundUser { message: Seq<char> },
}

impl View for KailleraError {
    type V = KailleraErrorSpec;

    open spec fn view(&self) -> KailleraErrorSpec {
        match self {
            KailleraError::InvalidInput { message, pos } => KailleraErrorSpec::InvalidInput {
                message: message@,
                pos: *pos,
            },
            KailleraError::TokenError => KailleraErrorSpec::TokenError,
            KailleraError::AlreadyError { message } => KailleraErrorSpec::AlreadyError {
                message: message@,
            },
            KailleraError::GameStatusError { message } => KailleraErrorSpec::GameStatusError {
                message: message@,
            },
            KailleraError::NotFoundSeq { wanted_seq, cur_seq } => KailleraErrorSpec::NotFoundSeq {
                wanted_seq: *wanted_seq,
                cur_seq: *cur_seq,
            },
            KailleraError::NotFound => KailleraErrorSpec::NotFound,
            KailleraError::NotFoundUser { message } => KailleraErrorSpec::NotFoundUser {
                message: message@,
            },
        }
    }
}

/// The text of an error.
pub open spec fn error_text(e: KailleraError) -> Seq<char> {
    match e {
        KailleraError::InvalidInput { message, pos } => message@ + ", pos: "@ + decimal_chars(
            pos as nat,
        ),
        KailleraError::TokenError => "token error"@,
        KailleraError::AlreadyError { message } => message@,
        KailleraError::GameStatusError { .. } => "gamestatus error"@,
        KailleraError::NotFoundSeq { .. } => "notfound seq"@,
        KailleraError::NotFound => "notfound error"@,
        KailleraError::NotFoundUser { .. } => "notfound user"@,
    }
}

impl KailleraError {
    /// The text of the error.
    pub fn to_text(&self) -> (s: String)
        ensures
            s@ == error_text(*self),
    {
        match self {
            KailleraError::InvalidInput { message, pos } => {
                let mut s = message.clone();
                s.append(", pos: ");
                let digits = decimal_string(*pos);
                s.append(digits.as_str());
                s
            },
            KailleraError::TokenError => String::from_str("token error"),
            KailleraError::AlreadyError { message } => message.clone(),
            KailleraError::GameStatusError { .. } => String::from_str("gamestatus error"),
            KailleraError::NotFoundSeq { .. } => String::from_str("notfound seq"),
            KailleraError::NotFound => String::from_str("notfound error"),
            KailleraError::NotFoundUser { .. } => String::from_str("notfound user"),
        }
    }
}

} // verus!
