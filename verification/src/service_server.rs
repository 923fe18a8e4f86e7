//! Steps of the first server generation: the frame delay from a client's
//! connection type and ping, and joining a room. A step changes the users
//! and rooms and lists the messages to send; framing and sending them is the
//! caller's work.
use vstd::prelude::*;
use vstd::slice::{slice_subrange, slice_to_vec};
use vstd::string::StringSliceAdditionalSpecFns;

use crate::kaillera::protocol::{le16, le32};
use crate::handlers::util::{
    from_utf8_lossy, read_string_bytes, string_field, utf8_lossy, ByteReader,
};
use crate::protocol::{
    bincode_deserialize_u32, le32_value, CreateGame2Client, GlobalChat2Client, JoinGame2Client,
    UpdateGameStatus2Client, CREATE_GAME, GAME_CHAT, GAME_STATUS_WAITING, GLOBAL_CHAT, JOIN_GAME,
    PLAYER_INFO, SERVER_INFO, UPDATE_GAME_STATUS,
};
use crate::kaillera::protocol::MessageSpec;
use crate::protocol::{
    add_spec, frames_ok, frames_spec, get_protocol_from_bytes, PacketsSpec, Protocol, USER_LOGIN_INFO,
};
use crate::room::{fresh_user, Room, IDLE, PLAYING};
use crate::cache_system::entries_view;
use crate::packet_util::{
    build_start_game_packet, decimal_chars, decimal_digits, decimal_string, push_decimal,
    start_game_spec,
};
use crate::protocol::{GAME_STATUS_NET_SYNC, START_GAME};
use vstd::utf8::encode_utf8;
use crate::room::{
    room_pos, seat_addr, seats_taken, user_pos, user_room_wf, KailleraError, KailleraErrorSpec,
    PlayerAddr, RoomSpec, User, UserRoom, UserRoomSpec, UserSpec, lemma_room_pos, lemma_user_pos,
};
use crate::state::copy_vec;

verus! {

/// A message for the user at `addr`: its type and body.
pub struct Message {
    pub addr: u64,
    pub message_type: u8,
    pub data: Vec<u8>,
}

impl View for Message {
    type V = (u64, u8, Seq<u8>);

    open spec fn view(&self) -> (u64, u8, Seq<u8>) {
        (self.addr, self.message_type, self.data@)
    }
}

pub open spec fn messages_view(v: Seq<Message>) -> Seq<(u64, u8, Seq<u8>)> {
    v.map_values(|m: Message| m@)
}

pub open spec fn result_view(r: Result<(), KailleraError>) -> Result<(), KailleraErrorSpec> {
    match r {
        Ok(()) => Ok(()),
        Err(e) => Err(e@),
    }
}

/// Whether the user at `addr` is held and in a room.
pub open spec fn in_a_room(st: UserRoomSpec, addr: u64) -> bool {
    user_pos(st.users, addr) >= 0 && st.users[user_pos(st.users, addr)].game_room_id is Some
}

/// A server chat line: "Server" and the text, each null-terminated.
pub open spec fn server_chat(text: Seq<u8>) -> Seq<u8> {
    "Server".spec_bytes().push(0u8) + text.push(0u8)
}

/// The same body to every user, in the order they are held.
pub open spec fn to_all(users: Seq<UserSpec>, t: u8, data: Seq<u8>) -> Seq<(u64, u8, Seq<u8>)> {
    users.map_values(|u: UserSpec| (u.ip_addr, t, data))
}

/// The same body to every occupied seat, in seat order.
pub open spec fn to_seats(players: Seq<PlayerAddr>, t: u8, data: Seq<u8>) -> Seq<(u64, u8, Seq<u8>)>
    decreases players.len(),
{
    if players.len() == 0 {
        Seq::empty()
    } else {
        let prev = to_seats(players.drop_last(), t, data);
        match seat_addr(players.last()) {
            Some(a) => prev.push((a, t, data)),
            None => prev,
        }
    }
}

/// One entry per occupied seat, in seat order: the seated user's name,
/// null-terminated, ping, user id and connection type; `None` when a seated
/// address is not a held user.
pub open spec fn seat_entries(users: Seq<UserSpec>, players: Seq<PlayerAddr>) -> Option<Seq<u8>>
    decreases players.len(),
{
    if players.len() == 0 {
        Some(Seq::empty())
    } else {
        let prev = seat_entries(users, players.drop_last());
        match seat_addr(players.last()) {
            None => prev,
            Some(a) => {
                let i = user_pos(users, a);
                if prev is None || i < 0 {
                    None
                } else {
                    let u = users[i];
                    Some(prev.unwrap() + u.name.push(0u8) + le32(u.ping) + le16(u.user_id) + seq![
                        u.connect_type,
                    ])
                }
            }
        }
    }
}

/// The body announcing a user's entry into game `game_id`.
pub open spec fn join_body(game_id: u32, u: UserSpec) -> Seq<u8> {
    seq![0u8] + le32(game_id) + u.name.push(0u8) + le32(u.ping) + le16(u.user_id) + seq![
        u.connect_type,
    ]
}

/// A join request of the user at `user`, its body `buf` holding the game id
/// in bytes 1 to 4. A user already in a room is told so and refused; a game
/// id of no room is `NotFound`; a room not waiting refuses. Otherwise the
/// user takes a waiting seat at the end of the room, and every user learns
/// the room's status and seat count; when every seated address is a held
/// user, the joining user gets the seats' entries and every seat the news
/// of the join, and else the step ends in `NotFound` after the status.
pub open spec fn join_game_spec(st: UserRoomSpec, out: Seq<(u64, u8, Seq<u8>)>, buf: Seq<u8>, user: u64) -> (
    UserRoomSpec,
    Seq<(u64, u8, Seq<u8>)>,
    Result<(), KailleraErrorSpec>,
) {
    let ui = user_pos(st.users, user);
    if in_a_room(st, user) {
        (
            st,
            out.push((user, GLOBAL_CHAT, server_chat("You are already joining the room.".spec_bytes()))),
            Err(KailleraErrorSpec::AlreadyError { message: "already has room."@ }),
        )
    } else {
        let game_id = le32_value(buf.subrange(1, 5));
        let ri = room_pos(st.rooms, game_id);
        if ri < 0 {
            (st, out, Err(KailleraErrorSpec::NotFound))
        } else if st.rooms[ri].game_status != GAME_STATUS_WAITING {
            (st, out, Err(KailleraErrorSpec::GameStatusError { message: "game is playing"@ }))
        } else {
            let room = st.rooms[ri];
            let players = room.players.push(PlayerAddr::Idle(user));
            let users = if ui >= 0 {
                st.users.update(ui, UserSpec { game_room_id: Some(game_id), ..st.users[ui] })
            } else {
                st.users
            };
            let st1 = UserRoomSpec {
                users,
                rooms: st.rooms.update(ri, RoomSpec { players, ..room }),
                ..st
            };
            let status = seq![0u8] + le32(game_id) + seq![
                room.game_status,
                seats_taken(players) as u8,
                4u8,
            ];
            let out1 = out + to_all(users, UPDATE_GAME_STATUS, status);
            match seat_entries(users, players) {
                None => (st1, out1, Err(KailleraErrorSpec::NotFound)),
                Some(entries) => {
                    let info = seq![0u8] + le32((players.len() - 1) as u32) + entries;
                    let body = join_body(game_id, users[ui]);
                    (
                        st1,
                        out1.push((user, PLAYER_INFO, info)) + to_seats(players, JOIN_GAME, body),
                        Ok(()),
                    )
                }
            }
        }
    }
}

/// The user at `addr` as the step sees it: the held one, or one that has not
/// logged in (whose clocks the steps do not read).
pub open spec fn acting_user(st: UserRoomSpec, addr: u64) -> UserSpec {
    let i = user_pos(st.users, addr);
    if i >= 0 {
        st.users[i]
    } else {
        fresh_user(addr, 0)
    }
}

/// The users once the user at `addr`, if held, is in room `game_id`.
pub open spec fn users_in_room(users: Seq<UserSpec>, addr: u64, game_id: u32) -> Seq<UserSpec> {
    let i = user_pos(users, addr);
    if i >= 0 {
        users.update(i, UserSpec { game_room_id: Some(game_id), ..users[i] })
    } else {
        users
    }
}

/// A chat line from the server to a room.
pub open spec fn room_chat(text: Seq<u8>) -> Seq<u8> {
    "SERVER".spec_bytes().push(0u8) + text
}

/// A create request of the user at `user` whose body `buf` holds, after a
/// first null-terminated string, the game name; `game_id` is the id the new
/// room takes. A user already in a room is told so and refused; a body with
/// no null byte is `NotFound`. Otherwise every user learns of the new room
/// and its status, the user its entry, and the id counter advances; when
/// the user is held, its room hears two option lines and the user a
/// notice, and the room is held unless its id is taken
/// (`AlreadyError`); a user not held ends the step in `NotFound`.
pub open spec fn create_game_spec(
    st: UserRoomSpec,
    game_id: u32,
    out: Seq<(u64, u8, Seq<u8>)>,
    buf: Seq<u8>,
    user: u64,
) -> (UserRoomSpec, u32, Seq<(u64, u8, Seq<u8>)>, Result<(), KailleraErrorSpec>) {
    if in_a_room(st, user) {
        (
            st,
            game_id,
            out.push((user, GLOBAL_CHAT, server_chat("You are already joining the room.".spec_bytes()))),
            Err(KailleraErrorSpec::AlreadyError { message: "already has room."@ }),
        )
    } else if !buf.contains(0u8) {
        (st, game_id, out, Err(KailleraErrorSpec::NotFound))
    } else {
        let me = acting_user(st, user);
        let name = string_field(string_field(buf).1).0;
        let create = me.name.push(0u8) + name.push(0u8) + encode_utf8(me.emul_name).push(0u8) + le32(
            game_id,
        );
        let users = users_in_room(st.users, user, game_id);
        let status = seq![0u8] + le32(game_id) + seq![GAME_STATUS_WAITING, 1u8, 4u8];
        let out1 = out + to_all(st.users, CREATE_GAME, create) + to_all(users, UPDATE_GAME_STATUS, status)
            + seq![(user, JOIN_GAME, join_body(game_id, me))];
        let st1 = UserRoomSpec { users, ..st };
        let next = (game_id + 1) as u32;
        if user_pos(st.users, user) < 0 {
            (st1, next, out1, Err(KailleraErrorSpec::NotFound))
        } else {
            let info = "Server\0".spec_bytes() + "Creates Room: ".spec_bytes() + encode_utf8(
                utf8_lossy(name),
            ).push(0u8);
            let out2 = out1 + seq![
                (user, GAME_CHAT, room_chat("direlera supports follow the options\0".spec_bytes())),
                (user, GAME_CHAT, room_chat("/samedealy true|false\0".spec_bytes())),
                (user, SERVER_INFO, info),
            ];
            if room_pos(st.rooms, game_id) >= 0 {
                (st1, next, out2, Err(KailleraErrorSpec::AlreadyError { message: "room is already exist"@ }))
            } else {
                let room = RoomSpec {
                    game_name: utf8_lossy(name),
                    game_id,
                    emul_name: me.emul_name,
                    creator_id: utf8_lossy(me.name),
                    players: seq![PlayerAddr::Idle(user)],
                    game_status: GAME_STATUS_WAITING,
                    same_delay: false,
                };
                (UserRoomSpec { rooms: st.rooms.push(room), ..st1 }, next, out2, Ok(()))
            }
        }
    }
}

/// Every message of `ps` added in turn.
pub open spec fn add_all(st: PacketsSpec, ps: Seq<MessageSpec>) -> PacketsSpec
    decreases ps.len(),
{
    if ps.len() == 0 {
        st
    } else {
        add_spec(add_all(st, ps.drop_last()), ps.last())
    }
}

/// The numbers of `d` in decimal, separated by ", ".
pub open spec fn byte_list(d: Seq<u8>) -> Seq<char>
    decreases d.len(),
{
    if d.len() == 0 {
        Seq::empty()
    } else if d.len() == 1 {
        decimal_chars(d[0] as nat)
    } else {
        byte_list(d.drop_last()) + ", "@ + decimal_chars(d.last() as nat)
    }
}

/// The debug text of a message: its header and data fields as Rust prints
/// the structures that hold them.
pub open spec fn protocol_debug(p: MessageSpec) -> Seq<char> {
    "Protocol { header: ProtocolSeqHeader { seq: "@ + decimal_chars(p.number as nat)
        + ", header: ProtocolPureHeader { length: "@ + decimal_chars(p.length as nat)
        + ", message_type: "@ + decimal_chars(p.kind as nat) + " } }, data: ["@ + byte_list(p.data)
        + "] }"@
}

/// The debug text of a message.
fn debug_text(p: &Protocol) -> (s: String)
    ensures
        s@ == protocol_debug(p@),
{
    let mut s = String::from_str("Protocol { header: ProtocolSeqHeader { seq: ");
    s.append(decimal_string(p.header.seq as usize).as_str());
    s.append(", header: ProtocolPureHeader { length: ");
    s.append(decimal_string(p.header.header.length as usize).as_str());
    s.append(", message_type: ");
    s.append(decimal_string(p.header.header.message_type as usize).as_str());
    s.append(" } }, data: [");
    let ghost head = s@;
    let mut i: usize = 0;
    while i < p.data.len()
        invariant
            i <= p.data@.len(),
            s@ == head + byte_list(p.data@.take(i as int)),
        decreases p.data@.len() - i,
    {
        let ghost before = s@;
        if i > 0 {
            s.append(", ");
        }
        s.append(decimal_string(p.data[i] as usize).as_str());
        assert(p.data@.take(i + 1).drop_last() =~= p.data@.take(i as int));
        if i == 0 {
            assert(p.data@.take(1).len() == 1);
        }
        assert(s@ =~= head + byte_list(p.data@.take(i + 1)));
        i = i + 1;
    }
    assert(p.data@.take(i as int) =~= p.data@);
    s.append("] }");
    s
}

/// The user a datagram from `peer` is handled for: the held one, or a new
/// one when the datagram is a single message numbered 0.
pub open spec fn service_user(st: UserRoomSpec, peer: u64, r: Seq<MessageSpec>, now: u64) -> Option<UserSpec> {
    let ui = user_pos(st.users, peer);
    if ui >= 0 {
        Some(st.users[ui])
    } else if r.len() == 1 && r[0].number == 0 {
        Some(fresh_user(peer, now))
    } else {
        None
    }
}

/// What a datagram from `peer` may not hold: malformed framing, no message
/// at all from an unknown address, or a message to handle when the expected
/// sequence number, or for a login the user id counter, is at its limit.
pub open spec fn service_ok(st: UserRoomSpec, peer: u64, data: Seq<u8>, now: u64) -> bool {
    let r = frames_spec(data, 1);
    &&& frames_ok(data, 1)
    &&& (user_pos(st.users, peer) < 0 ==> r.len() >= 1)
    &&& (service_user(st, peer, r, now) matches Some(u) ==> {
        let pk = add_all(u.in_packets, r);
        pk.packets.contains_key(u.cur_seq) ==> {
            &&& u.cur_seq < u16::MAX
            &&& (pk.packets[u.cur_seq].kind == USER_LOGIN_INFO ==> st.next_user_id < u16::MAX)
        }
    })
}

/// A datagram `data` from `peer`. An unknown address is refused unless the
/// datagram is a single message numbered 0. Its messages join the user's
/// store; the one numbered as expected is taken out and handed back, and
/// the expected number advances; when it is missing, `NotFoundSeq`. A login
/// holds the user (a new one is added) with the next user id, idle. A user
/// not held and not logging in is not kept. A user whose message is taken
/// is marked heard from at `now`.
pub open spec fn service_spec(st: UserRoomSpec, peer: u64, data: Seq<u8>, now: u64) -> (
    UserRoomSpec,
    Result<MessageSpec, KailleraErrorSpec>,
) {
    let r = frames_spec(data, 1);
    let ui = user_pos(st.users, peer);
    match service_user(st, peer, r, now) {
        None => (st, Err(KailleraErrorSpec::NotFoundUser { message: protocol_debug(r[0]) })),
        Some(u) => {
            let pk = add_all(u.in_packets, r);
            let keep = |v: UserSpec|
                if ui >= 0 {
                    UserRoomSpec { users: st.users.update(ui, v), ..st }
                } else {
                    st
                };
            if !pk.packets.contains_key(u.cur_seq) {
                (
                    keep(UserSpec { in_packets: pk, ..u }),
                    Err(KailleraErrorSpec::NotFoundSeq { wanted_seq: u.cur_seq, cur_seq: 9999 }),
                )
            } else {
                let m = pk.packets[u.cur_seq];
                let u2 = UserSpec {
                    in_packets: PacketsSpec {
                        matched_seq: Some(u.cur_seq),
                        packets: pk.packets.remove(u.cur_seq),
                    },
                    cur_seq: (u.cur_seq + 1) as u16,
                    keepalive_time: now,
                    ..u
                };
                if m.kind == USER_LOGIN_INFO {
                    let id = (st.next_user_id + 1) as u16;
                    let u3 = UserSpec { user_id: id, player_status: IDLE, ..u2 };
                    let users = if ui >= 0 {
                        st.users.update(ui, u3)
                    } else {
                        st.users.push(u3)
                    };
                    (UserRoomSpec { users, next_user_id: id, ..st }, Ok(m))
                } else {
                    (keep(u2), Ok(m))
                }
            }
        },
    }
}

pub open spec fn protocol_result_view(r: Result<Protocol, KailleraError>) -> Result<
    MessageSpec,
    KailleraErrorSpec,
> {
    match r {
        Ok(p) => Ok(p@),
        Err(e) => Err(e@),
    }
}

/// The largest frame delay of the seated users, starting from 0; `None`
/// when a seated address is not a held user.
pub open spec fn max_seat_delay(users: Seq<UserSpec>, players: Seq<PlayerAddr>) -> Option<int>
    decreases players.len(),
{
    if players.len() == 0 {
        Some(0)
    } else {
        let prev = max_seat_delay(users, players.drop_last());
        match seat_addr(players.last()) {
            None => prev,
            Some(a) => {
                let i = user_pos(users, a);
                if prev is None || i < 0 {
                    None
                } else {
                    let d = frame_delay_spec(users[i].connect_type, users[i].ping);
                    Some(
                        if prev.unwrap() < d {
                            d
                        } else {
                            prev.unwrap()
                        },
                    )
                }
            },
        }
    }
}

/// The chat line that tells a room a player's frame delay.
pub open spec fn delay_notice(name: Seq<u8>, own: int, max: int, same: bool) -> Seq<u8> {
    if same {
        name + ", [samedelay mode] index ".spec_bytes() + decimal_digits(own as nat) + " -> ".spec_bytes()
            + decimal_digits(max as nat) + seq![0u8]
    } else {
        name + ", frame delay(index): ".spec_bytes() + decimal_digits(own as nat) + seq![0u8]
    }
}

/// Each seated user in turn, numbered from 0, becomes playing with that
/// number, its caches emptied and one empty input per seat, and is told its
/// frame delay (the largest when `same`), its
/// number from 1 and the seat count; the users, the messages, the delay
/// notices, and how many were numbered.
pub open spec fn start_seats(
    users: Seq<UserSpec>,
    players: Seq<PlayerAddr>,
    same: bool,
    max: int,
    total: u8,
    seats: nat,
) -> (Seq<UserSpec>, Seq<(u64, u8, Seq<u8>)>, Seq<Seq<u8>>, nat)
    decreases players.len(),
{
    if players.len() == 0 {
        (users, Seq::empty(), Seq::empty(), 0)
    } else {
        let prev = start_seats(users, players.drop_last(), same, max, total, seats);
        match seat_addr(players.last()) {
            None => prev,
            Some(a) => {
                let i = user_pos(prev.0, a);
                if i < 0 {
                    prev
                } else {
                    let u = prev.0[i];
                    let order = prev.3;
                    let own = frame_delay_spec(u.connect_type, u.ping);
                    let fd = if same {
                        max
                    } else {
                        own
                    };
                    let u2 = UserSpec {
                        player_index: order as u8,
                        room_order: order as u8,
                        player_status: PLAYING,
                        cache_system: Seq::empty(),
                        put_cache: Seq::empty(),
                        players_input: Seq::new(seats, |k: int| Seq::<u8>::empty()),
                        ..u
                    };
                    (
                        prev.0.update(i, u2),
                        prev.1.push((a, START_GAME, start_game_spec(fd as u16, (order + 1) as u8, total))),
                        prev.2.push(delay_notice(u.name, own, max, same)),
                        order + 1,
                    )
                }
            },
        }
    }
}

/// Each notice, in turn, to every occupied seat.
pub open spec fn notices_to_seats(players: Seq<PlayerAddr>, notices: Seq<Seq<u8>>) -> Seq<
    (u64, u8, Seq<u8>),
>
    decreases notices.len(),
{
    if notices.len() == 0 {
        Seq::empty()
    } else {
        notices_to_seats(players, notices.drop_last()) + to_seats(
            players,
            GAME_CHAT,
            room_chat(notices.last()),
        )
    }
}

/// A start request of the user at `user`. A user not held or in no room,
/// or a room that is not held, is `NotFound`. Otherwise the room is in net
/// sync and every user learns it; when every seated address is a held
/// user, each seated user is numbered and told its start (see
/// `start_seats`), and every delay notice goes to every seat; else the step
/// ends in `NotFound` after the status.
pub open spec fn room_start_spec(st: UserRoomSpec, out: Seq<(u64, u8, Seq<u8>)>, user: u64) -> (
    UserRoomSpec,
    Seq<(u64, u8, Seq<u8>)>,
    Result<(), KailleraErrorSpec>,
) {
    let ui = user_pos(st.users, user);
    if ui < 0 || st.users[ui].game_room_id is None {
        (st, out, Err(KailleraErrorSpec::NotFound))
    } else {
        let gid = st.users[ui].game_room_id.unwrap();
        let ri = room_pos(st.rooms, gid);
        if ri < 0 {
            (st, out, Err(KailleraErrorSpec::NotFound))
        } else {
            let room = st.rooms[ri];
            let st1 = UserRoomSpec {
                rooms: st.rooms.update(ri, RoomSpec { game_status: GAME_STATUS_NET_SYNC, ..room }),
                ..st
            };
            let total = room.players.len() as u8;
            let status = seq![0u8] + le32(gid) + seq![GAME_STATUS_NET_SYNC, total, 4u8];
            let out1 = out + to_all(st.users, UPDATE_GAME_STATUS, status);
            match max_seat_delay(st.users, room.players) {
                None => (st1, out1, Err(KailleraErrorSpec::NotFound)),
                Some(m) => {
                    let s = start_seats(st.users, room.players, room.same_delay, m, total, room.players.len());
                    (
                        UserRoomSpec { users: s.0, ..st1 },
                        out1 + s.1 + notices_to_seats(room.players, s.2),
                        Ok(()),
                    )
                },
            }
        }
    }
}

/// Whether a start request of the user at `user` numbers its room's seats
/// within the byte the numbers are written in.
pub open spec fn start_ok(st: UserRoomSpec, user: u64) -> bool {
    let ui = user_pos(st.users, user);
    ui >= 0 && st.users[ui].game_room_id is Some && room_pos(
        st.rooms,
        st.users[ui].game_room_id.unwrap(),
    ) >= 0 ==> seats_taken(
        st.rooms[room_pos(st.rooms, st.users[ui].game_room_id.unwrap())].players,
    ) <= 255
}

/// Appends a message with body `data` for every user, in the order they are
/// held.
pub fn send_to_all(users: &Vec<User>, out: &mut Vec<Message>, t: u8, data: &Vec<u8>)
    ensures
        messages_view(final(out)@) == messages_view(old(out)@) + to_all(
            users@.map_values(|u: User| u@),
            t,
            data@,
        ),
{
    let ghost start = messages_view(out@);
    let ghost us = users@.map_values(|u: User| u@);
    let mut i: usize = 0;
    while i < users.len()
        invariant
            i <= users@.len(),
            us == users@.map_values(|u: User| u@),
            messages_view(out@) == start + to_all(us.take(i as int), t, data@),
        decreases users@.len() - i,
    {
        let d = copy_vec(data);
        let ghost before = out@;
        out.push(Message { addr: users[i].ip_addr, message_type: t, data: d });
        assert(messages_view(out@) =~= messages_view(before).push((users@[i as int].ip_addr, t, data@)));
        assert(to_all(us.take(i + 1), t, data@) =~= to_all(us.take(i as int), t, data@).push(
            (users@[i as int].ip_addr, t, data@),
        ));
        assert(messages_view(out@) =~= start + to_all(us.take(i + 1), t, data@));
        i = i + 1;
    }
    assert(us.take(i as int) =~= us);
}

/// Appends a message with body `data` for every occupied seat.
pub fn send_to_seats(players: &Vec<PlayerAddr>, out: &mut Vec<Message>, t: u8, data: &Vec<u8>)
    ensures
        messages_view(final(out)@) == messages_view(old(out)@) + to_seats(players@, t, data@),
{
    let ghost start = messages_view(out@);
    let mut i: usize = 0;
    while i < players.len()
        invariant
            i <= players@.len(),
            messages_view(out@) == start + to_seats(players@.take(i as int), t, data@),
        decreases players@.len() - i,
    {
        assert(players@.take(i + 1).drop_last() =~= players@.take(i as int));
        match players[i] {
            PlayerAddr::Playing(a) | PlayerAddr::Idle(a) => {
                let d = copy_vec(data);
                let ghost before = out@;
                out.push(Message { addr: a, message_type: t, data: d });
                assert(messages_view(out@) =~= messages_view(before).push((a, t, data@)));
            },
            PlayerAddr::Empty => {},
        }
        assert(messages_view(out@) =~= start + to_seats(players@.take(i + 1), t, data@));
        i = i + 1;
    }
    assert(players@.take(i as int) =~= players@);
}

/// A server chat line from `text`.
pub fn server_chat_of(text: &str) -> (r: Vec<u8>)
    ensures
        r@ == server_chat(text.spec_bytes()),
{
    let body = GlobalChat2Client::new(slice_to_vec("Server".as_bytes()), slice_to_vec(text.as_bytes()));
    match body.packetize() {
        Ok(v) => v,
        Err(_) => Vec::new(),
    }
}

/// Handles a join request of the user at `user` whose body is `buf` (see
/// `join_game_spec`). The body must hold the game id unless the user is
/// already in a room.
#[verifier::rlimit(30)]
pub fn join_game_step(rooms: &mut UserRoom, out: &mut Vec<Message>, buf: &[u8], user: u64) -> (r:
    Result<(), KailleraError>)
    requires
        old(rooms).wf(),
        buf@.len() >= 5 || in_a_room(old(rooms)@, user),
    ensures
        final(rooms).wf(),
        (final(rooms)@, messages_view(final(out)@), result_view(r)) == join_game_spec(
            old(rooms)@,
            messages_view(old(out)@),
            buf@,
            user,
        ),
{
    let ghost st = rooms@;
    let ghost out0 = messages_view(out@);
    proof {
        lemma_user_pos(st.users, user);
    }
    let ui = rooms.find_user(user);
    let has_room = match ui {
        Some(i) => rooms.users[i].game_room_id.is_some(),
        None => false,
    };
    if has_room {
        let data = server_chat_of("You are already joining the room.");
        let ghost before = out@;
        out.push(Message { addr: user, message_type: GLOBAL_CHAT, data });
        assert(messages_view(out@) =~= messages_view(before).push(
            (user, GLOBAL_CHAT, server_chat("You are already joining the room.".spec_bytes())),
        ));
        return Err(KailleraError::AlreadyError { message: String::from_str("already has room.") });
    }
    let game_id = match bincode_deserialize_u32(slice_subrange(buf, 1, 5)) {
        Ok(v) => v,
        Err(_) => {
            return Err(KailleraError::NotFound);
        },
    };
    proof {
        lemma_room_pos(st.rooms, game_id);
    }
    let ri = match rooms.find_room(game_id) {
        Some(i) => i,
        None => {
            return Err(KailleraError::NotFound);
        },
    };
    if rooms.rooms[ri].game_status != GAME_STATUS_WAITING {
        return Err(KailleraError::GameStatusError { message: String::from_str("game is playing") });
    }
    let mut room = rooms.rooms.remove(ri);
    room.players.push(PlayerAddr::Idle(user));
    rooms.rooms.insert(ri, room);
    match ui {
        Some(i) => {
            rooms.users[i].game_room_id = Some(game_id);
        },
        None => {},
    }
    let ghost players = st.rooms[ri as int].players.push(PlayerAddr::Idle(user));
    let ghost users1 = if ui is Some {
        st.users.update(ui.unwrap() as int, UserSpec { game_room_id: Some(game_id), ..st.users[ui.unwrap() as int] })
    } else {
        st.users
    };
    let ghost st1 = UserRoomSpec {
        users: users1,
        rooms: st.rooms.update(ri as int, RoomSpec { players, ..st.rooms[ri as int] }),
        ..st
    };
    assert(rooms@.rooms =~= st1.rooms);
    assert(rooms@.users =~= st1.users);
    assert(rooms@ == st1);
    assert(rooms.rooms@[ri as int].players@ == players);
    let count = rooms.rooms[ri].player_some_count();
    let status = UpdateGameStatus2Client::new(
        0,
        game_id,
        rooms.rooms[ri].game_status,
        count as u8,
        4,
    );
    let status_data = match status.packetize() {
        Ok(v) => v,
        Err(_) => Vec::new(),
    };
    send_to_all(&rooms.users, out, UPDATE_GAME_STATUS, &status_data);
    let entries = match seat_entries_of(rooms, &rooms.rooms[ri].players) {
        Some(v) => v,
        None => {
            return Err(KailleraError::NotFound);
        },
    };
    let n = rooms.rooms[ri].players.len();
    let mut info: Vec<u8> = Vec::new();
    info.push(0u8);
    crate::kaillera::protocol::extend_bytes(
        &mut info,
        crate::kaillera::protocol::u32_le_bytes((n - 1) as u32).as_slice(),
    );
    crate::kaillera::protocol::extend_bytes(&mut info, entries.as_slice());
    let ghost before = out@;
    let ghost info_view = info@;
    out.push(Message { addr: user, message_type: PLAYER_INFO, data: info });
    assert(messages_view(out@) =~= messages_view(before).push((user, PLAYER_INFO, info_view)));
    proof {
        lemma_user_pos(st1.users, user);
    }
    let j = match rooms.find_user(user) {
        Some(j) => j,
        None => {
            return Err(KailleraError::NotFound);
        },
    };
    let me = &rooms.users[j];
    let join = JoinGame2Client::new(game_id, copy_vec(&me.name), me.ping, me.user_id, me.connect_type);
    let join_data = match join.packetize() {
        Ok(v) => v,
        Err(_) => Vec::new(),
    };
    send_to_seats(&rooms.rooms[ri].players, out, JOIN_GAME, &join_data);
    Ok(())
}

/// Appends one message.
pub fn push_message(out: &mut Vec<Message>, addr: u64, t: u8, data: Vec<u8>)
    ensures
        messages_view(final(out)@) == messages_view(old(out)@).push((addr, t, data@)),
{
    let ghost before = out@;
    let ghost d = data@;
    out.push(Message { addr, message_type: t, data });
    assert(messages_view(out@) =~= messages_view(before).push((addr, t, d)));
}

/// Whether `buf` holds a null byte.
fn has_null(buf: &[u8]) -> (b: bool)
    ensures
        b == buf@.contains(0u8),
{
    let mut i: usize = 0;
    while i < buf.len()
        invariant
            i <= buf@.len(),
            forall|j: int| 0 <= j < i ==> buf@[j] != 0u8,
        decreases buf@.len() - i,
    {
        if buf[i] == 0 {
            assert(buf@[i as int] == 0u8);
            return true;
        }
        i = i + 1;
    }
    false
}

/// The name, emulator name, ping, user id and connection type of a user.
pub fn user_fields(u: &User) -> (r: (Vec<u8>, String, u32, u16, u8))
    ensures
        r.0@ == u@.name && r.1@ == u@.emul_name && r.2 == u@.ping && r.3 == u@.user_id && r.4
            == u@.connect_type,
{
    (copy_vec(&u.name), u.emul_name.clone(), u.ping, u.user_id, u.connect_type)
}

/// `prefix` followed by `text`.
pub fn bytes_of(prefix: &str, text: &str) -> (v: Vec<u8>)
    ensures
        v@ == prefix.spec_bytes() + text.spec_bytes(),
{
    let mut v = slice_to_vec(prefix.as_bytes());
    crate::kaillera::protocol::extend_bytes(&mut v, text.as_bytes());
    v
}

/// Handles a create request of the user at `user` whose body is `buf`,
/// the new room taking id `next_game_id` (see `create_game_spec`).
#[verifier::rlimit(40)]
pub fn create_game_step(
    rooms: &mut UserRoom,
    next_game_id: &mut u32,
    out: &mut Vec<Message>,
    buf: &[u8],
    user: u64,
) -> (r: Result<(), KailleraError>)
    requires
        old(rooms).wf(),
        in_a_room(old(rooms)@, user) || !buf@.contains(0u8) || *old(next_game_id) < u32::MAX,
    ensures
        final(rooms).wf(),
        (final(rooms)@, *final(next_game_id), messages_view(final(out)@), result_view(r))
            == create_game_spec(
            old(rooms)@,
            *old(next_game_id),
            messages_view(old(out)@),
            buf@,
            user,
        ),
{
    let ghost st = rooms@;
    let ghost out0 = messages_view(out@);
    proof {
        lemma_user_pos(st.users, user);
    }
    let ui = rooms.find_user(user);
    let has_room = match ui {
        Some(i) => rooms.users[i].game_room_id.is_some(),
        None => false,
    };
    if has_room {
        let data = server_chat_of("You are already joining the room.");
        push_message(out, user, GLOBAL_CHAT, data);
        return Err(KailleraError::AlreadyError { message: String::from_str("already has room.") });
    }
    if !has_null(buf) {
        return Err(KailleraError::NotFound);
    }
    let mut reader = ByteReader::new(buf);
    let _first = read_string_bytes(&mut reader);
    let name = read_string_bytes(&mut reader);
    let game_id = *next_game_id;
    let me = match ui {
        Some(i) => user_fields(&rooms.users[i]),
        None => user_fields(&User::new(user, 0)),
    };
    let ghost mev = acting_user(st, user);
    assert(me.0@ == mev.name && me.1@ == mev.emul_name && me.2 == mev.ping && me.3 == mev.user_id
        && me.4 == mev.connect_type);
    let emul = slice_to_vec(me.1.as_str().as_bytes());
    let create = CreateGame2Client::new(copy_vec(&me.0), copy_vec(&name), emul, game_id);
    let create_data = match create.packetize() {
        Ok(v) => v,
        Err(_) => Vec::new(),
    };
    send_to_all(&rooms.users, out, CREATE_GAME, &create_data);
    let ghost out_a = messages_view(out@);
    match ui {
        Some(i) => {
            rooms.users[i].game_room_id = Some(game_id);
        },
        None => {},
    }
    let ghost users1 = users_in_room(st.users, user, game_id);
    assert(rooms@.users =~= users1);
    assert(rooms@.rooms == st.rooms);
    *next_game_id = game_id + 1;
    let status = UpdateGameStatus2Client::new(0, game_id, GAME_STATUS_WAITING, 1, 4);
    let status_data = match status.packetize() {
        Ok(v) => v,
        Err(_) => Vec::new(),
    };
    send_to_all(&rooms.users, out, UPDATE_GAME_STATUS, &status_data);
    let join = JoinGame2Client::new(game_id, copy_vec(&me.0), me.2, me.3, me.4);
    let join_data = match join.packetize() {
        Ok(v) => v,
        Err(_) => Vec::new(),
    };
    push_message(out, user, JOIN_GAME, join_data);
    let ghost out1 = messages_view(out@);
    assert(out1 =~= out0 + to_all(st.users, CREATE_GAME, create_data@) + to_all(
        users1,
        UPDATE_GAME_STATUS,
        status_data@,
    ) + seq![(user, JOIN_GAME, join_body(game_id, mev))]);
    assert(rooms@ == UserRoomSpec { users: users1, ..st });
    if ui.is_none() {
        return Err(KailleraError::NotFound);
    }
    let mut chat1 = bytes_of("SERVER", "");
    chat1.push(0u8);
    crate::kaillera::protocol::extend_bytes(&mut chat1, "direlera supports follow the options\0".as_bytes());
    push_message(out, user, GAME_CHAT, chat1);
    let mut chat2 = bytes_of("SERVER", "");
    chat2.push(0u8);
    crate::kaillera::protocol::extend_bytes(&mut chat2, "/samedealy true|false\0".as_bytes());
    push_message(out, user, GAME_CHAT, chat2);
    let game_name = from_utf8_lossy(name.as_slice());
    let mut info = bytes_of("Server\0", "Creates Room: ");
    crate::kaillera::protocol::extend_bytes(&mut info, game_name.as_str().as_bytes());
    info.push(0u8);
    push_message(out, user, SERVER_INFO, info);
    proof {
        reveal_strlit("");
        lemma_room_pos(st.rooms, game_id);
    }
    assert(messages_view(out@) =~= out1 + seq![
        (user, GAME_CHAT, room_chat("direlera supports follow the options\0".spec_bytes())),
        (user, GAME_CHAT, room_chat("/samedealy true|false\0".spec_bytes())),
        (user, SERVER_INFO, "Server\0".spec_bytes() + "Creates Room: ".spec_bytes() + encode_utf8(utf8_lossy(name@)).push(0u8)),
    ]);
    if rooms.find_room(game_id).is_some() {
        return Err(KailleraError::AlreadyError { message: String::from_str("room is already exist") });
    }
    let creator = from_utf8_lossy(me.0.as_slice());
    let mut players: Vec<PlayerAddr> = Vec::new();
    players.push(PlayerAddr::Idle(user));
    let room = Room {
        game_name,
        game_id,
        emul_name: me.1,
        creator_id: creator,
        players,
        game_status: GAME_STATUS_WAITING,
        same_delay: false,
    };
    let ghost rv = room@;
    rooms.rooms.push(room);
    assert(rooms@.rooms =~= st.rooms.push(rv));
    Ok(())
}

/// Adds the messages of `ps` to the store of `u`, in order.
fn add_protocols(u: &mut User, ps: Vec<Protocol>)
    ensures
        final(u)@ == (UserSpec {
            in_packets: add_all(old(u)@.in_packets, ps@.map_values(|p: Protocol| p@)),
            ..old(u)@
        }),
{
    let ghost start = u@;
    let ghost all = ps@.map_values(|p: Protocol| p@);
    let n0 = ps.len();
    let mut rest = ps;
    let mut k: usize = 0;
    while rest.len() > 0
        invariant
            k <= all.len(),
            all.len() == n0,
            rest@.map_values(|p: Protocol| p@) == all.skip(k as int),
            u@ == (UserSpec { in_packets: add_all(start.in_packets, all.take(k as int)), ..start }),
        decreases rest@.len(),
    {
        let ghost before = rest@;
        assert(before.map_values(|p: Protocol| p@).len() > 0);
        assert(k < all.len());
        let p = rest.remove(0);
        assert(rest@ =~= before.drop_first());
        assert(all.skip(k as int)[0] == p@);
        assert(rest@.map_values(|p: Protocol| p@) =~= before.map_values(|p: Protocol| p@).drop_first());
        assert(all.skip(k as int).drop_first() =~= all.skip(k + 1));
        u.in_packets.add(p);
        assert(all.take(k + 1).drop_last() =~= all.take(k as int));
        assert(all.take(k + 1).last() == all[k as int]);
        k = k + 1;
    }
    assert(all.take(k as int) =~= all);
}

/// Handles datagram `data` from `peer` up to the message to act on, which
/// it hands back (see `service_spec`).
#[verifier::rlimit(40)]
pub fn service_proc(rooms: &mut UserRoom, peer: u64, data: &Vec<u8>, now: u64) -> (r: Result<
    Protocol,
    KailleraError,
>)
    requires
        old(rooms).wf(),
        service_ok(old(rooms)@, peer, data@, now),
    ensures
        final(rooms).wf(),
        (final(rooms)@, protocol_result_view(r)) == service_spec(old(rooms)@, peer, data@, now),
{
    let ghost st = rooms@;
    let ghost rv = frames_spec(data@, 1);
    let r = match get_protocol_from_bytes(data) {
        Ok(v) => v,
        Err(_) => {
            return Err(KailleraError::NotFound);
        },
    };
    assert(r@.map_values(|p: Protocol| p@) =~= rv);
    proof {
        lemma_user_pos(st.users, peer);
    }
    let ui = rooms.find_user(peer);
    let mut u = match ui {
        Some(i) => rooms.users.remove(i),
        None => {
            if r.len() == 1 && r[0].header.seq == 0 {
                User::new(peer, now)
            } else {
                let message = debug_text(&r[0]);
                return Err(KailleraError::NotFoundUser { message });
            }
        },
    };
    let ghost u0 = u@;
    assert(service_user(st, peer, rv, now) == Some(u0));
    let ghost users_rest = rooms@.users;
    add_protocols(&mut u, r);
    let ghost pk = u@.in_packets;
    let want = u.cur_seq;
    let message = u.in_packets.fetch_protocol(want);
    let m = match message {
        None => {
            assert(u@.in_packets.packets =~= pk.packets);
            assert(u@.in_packets == pk);
            match ui {
                Some(i) => {
                    rooms.users.insert(i, u);
                    assert(rooms@.users =~= st.users.update(i as int, rooms@.users[i as int]));
                },
                None => {},
            }
            return Err(KailleraError::NotFoundSeq { wanted_seq: want, cur_seq: 9999 });
        },
        Some(m) => m,
    };
    u.cur_seq = u.cur_seq + 1;
    u.keepalive_time = now;
    if m.header.header.message_type == USER_LOGIN_INFO {
        rooms.next_user_id = rooms.next_user_id + 1;
        u.user_id = rooms.next_user_id;
        u.player_status = IDLE;
        match ui {
            Some(i) => {
                rooms.users.insert(i, u);
                assert(rooms@.users =~= st.users.update(i as int, rooms@.users[i as int]));
            },
            None => {
                rooms.users.push(u);
                assert(rooms@.users =~= st.users.push(rooms@.users[st.users.len() as int]));
            },
        }
    } else {
        match ui {
            Some(i) => {
                rooms.users.insert(i, u);
                assert(rooms@.users =~= st.users.update(i as int, rooms@.users[i as int]));
            },
            None => {},
        }
    }
    Ok(m)
}

proof fn lemma_max_seat_none(users: Seq<UserSpec>, players: Seq<PlayerAddr>, i: int)
    requires
        0 <= i <= players.len(),
        max_seat_delay(users, players.take(i)) is None,
    ensures
        max_seat_delay(users, players) is None,
    decreases players.len() - i,
{
    if i < players.len() {
        assert(players.take(i + 1).drop_last() =~= players.take(i));
        lemma_max_seat_none(users, players, i + 1);
    } else {
        assert(players.take(i) =~= players);
    }
}

proof fn lemma_max_seat_found(users: Seq<UserSpec>, players: Seq<PlayerAddr>)
    requires
        max_seat_delay(users, players) is Some,
    ensures
        forall|k: int|
            0 <= k < players.len() ==> (#[trigger] seat_addr(players[k]) matches Some(a) ==> user_pos(
                users,
                a,
            ) >= 0),
        max_seat_delay(users, players).unwrap() <= 22,
    decreases players.len(),
{
    if players.len() > 0 {
        lemma_max_seat_found(users, players.drop_last());
        assert forall|k: int| 0 <= k < players.len() implies (#[trigger] seat_addr(players[k]) matches Some(
            a,
        ) ==> user_pos(users, a) >= 0) by {
            if k < players.len() - 1 {
                assert(players[k] == players.drop_last()[k]);
            }
        }
        match seat_addr(players.last()) {
            Some(a) => {
                let i = user_pos(users, a);
                lemma_frame_delay_bounds(users[i].connect_type, users[i].ping);
            },
            None => {},
        }
    }
}

proof fn lemma_frame_delay_bounds(connection_type: u8, ping: u32)
    ensures
        1 <= frame_delay_spec(connection_type, ping) <= 22,
{
    if 1 <= connection_type <= 6 {
        let d = (ping as int * 60) / (connection_type as int * 1000) + 1;
        assert(d >= 1) by (nonlinear_arith)
            requires
                d == (ping as int * 60) / (connection_type as int * 1000) + 1,
                1 <= connection_type,
        ;
    }
}

/// The largest frame delay of the seated users.
fn max_delay_of(st: &UserRoom, players: &Vec<PlayerAddr>) -> (r: Option<u16>)
    ensures
        match r {
            Some(m) => max_seat_delay(st@.users, players@) == Some(m as int),
            None => max_seat_delay(st@.users, players@) is None,
        },
{
    let ghost users = st@.users;
    let mut m: u16 = 0;
    let mut i: usize = 0;
    while i < players.len()
        invariant
            i <= players@.len(),
            users == st@.users,
            max_seat_delay(users, players@.take(i as int)) == Some(m as int),
        decreases players@.len() - i,
    {
        assert(players@.take(i + 1).drop_last() =~= players@.take(i as int));
        match players[i] {
            PlayerAddr::Playing(a) | PlayerAddr::Idle(a) => {
                match st.find_user(a) {
                    Some(j) => {
                        let d = cal_frame_delay(st.users[j].connect_type, st.users[j].ping);
                        if m < d {
                            m = d;
                        }
                    },
                    None => {
                        proof {
                            lemma_max_seat_none(users, players@, i + 1);
                        }
                        return None;
                    },
                }
            },
            PlayerAddr::Empty => {},
        }
        assert(max_seat_delay(users, players@.take(i + 1)) == Some(m as int));
        i = i + 1;
    }
    assert(players@.take(i as int) =~= players@);
    Some(m)
}

proof fn lemma_seats_taken_prefix(players: Seq<PlayerAddr>, i: int)
    requires
        0 <= i <= players.len(),
    ensures
        seats_taken(players.take(i)) <= seats_taken(players),
    decreases players.len() - i,
{
    if i < players.len() {
        assert(players.take(i + 1).drop_last() =~= players.take(i));
        lemma_seats_taken_prefix(players, i + 1);
    } else {
        assert(players.take(i) =~= players);
    }
}

pub proof fn lemma_user_pos_same_addr(users: Seq<UserSpec>, i: int, u: UserSpec, a: u64)
    requires
        0 <= i < users.len(),
        u.ip_addr == users[i].ip_addr,
    ensures
        user_pos(users.update(i, u), a) == user_pos(users, a),
    decreases users.len(),
{
    if i < users.len() - 1 {
        assert(users.update(i, u).drop_last() =~= users.drop_last().update(i, u));
        lemma_user_pos_same_addr(users.drop_last(), i, u, a);
    } else {
        assert(users.update(i, u).drop_last() =~= users.drop_last());
    }
}

/// `n` empty inputs.
pub fn empty_inputs(n: usize) -> (v: Vec<Vec<u8>>)
    ensures
        entries_view(v@) == Seq::new(n as nat, |k: int| Seq::<u8>::empty()),
{
    let mut v: Vec<Vec<u8>> = Vec::new();
    let mut i: usize = 0;
    while i < n
        invariant
            i <= n,
            entries_view(v@) == Seq::new(i as nat, |k: int| Seq::<u8>::empty()),
        decreases n - i,
    {
        let ghost before = entries_view(v@);
        let e: Vec<u8> = Vec::new();
        assert(e@ =~= Seq::<u8>::empty());
        v.push(e);
        assert(entries_view(v@) =~= before.push(Seq::<u8>::empty()));
        i = i + 1;
        assert(entries_view(v@) =~= Seq::new(i as nat, |k: int| Seq::<u8>::empty()));
    }
    v
}

/// A copy of a seat list.
pub fn copy_seats(players: &Vec<PlayerAddr>) -> (v: Vec<PlayerAddr>)
    ensures
        v@ == players@,
{
    let mut v: Vec<PlayerAddr> = Vec::new();
    let mut i: usize = 0;
    while i < players.len()
        invariant
            i <= players@.len(),
            v@ == players@.take(i as int),
        decreases players@.len() - i,
    {
        v.push(players[i]);
        i = i + 1;
        assert(v@ =~= players@.take(i as int));
    }
    assert(players@.take(i as int) =~= players@);
    v
}

pub open spec fn notices_view(v: Seq<Vec<u8>>) -> Seq<Seq<u8>> {
    v.map_values(|n: Vec<u8>| n@)
}

/// Numbers the seated users and tells each its start (see `start_seats`).
#[verifier::rlimit(40)]
fn start_seats_exec(
    rooms: &mut UserRoom,
    out: &mut Vec<Message>,
    players: &Vec<PlayerAddr>,
    same: bool,
    max: u16,
    total: u8,
) -> (notices: Vec<Vec<u8>>)
    requires
        old(rooms).wf(),
        max_seat_delay(old(rooms)@.users, players@) is Some,
        seats_taken(players@) <= 255,
    ensures
        final(rooms).wf(),
        final(rooms)@ == (UserRoomSpec {
            users: start_seats(old(rooms)@.users, players@, same, max as int, total, players@.len()).0,
            ..old(rooms)@
        }),
        messages_view(final(out)@) == messages_view(old(out)@) + start_seats(
            old(rooms)@.users,
            players@,
            same,
            max as int,
            total,
            players@.len(),
        ).1,
        notices_view(notices@) == start_seats(old(rooms)@.users, players@, same, max as int, total, players@.len()).2,
{
    let ghost st0 = rooms@;
    let ghost out0 = messages_view(out@);
    proof {
        lemma_max_seat_found(st0.users, players@);
    }
    let mut notices: Vec<Vec<u8>> = Vec::new();
    let mut order: u8 = 0;
    let mut i: usize = 0;
    while i < players.len()
        invariant
            i <= players@.len(),
            rooms.wf(),
            user_room_wf(st0),
            seats_taken(players@) <= 255,
            forall|k: int|
                0 <= k < players@.len() ==> (#[trigger] seat_addr(players@[k]) matches Some(a)
                    ==> user_pos(st0.users, a) >= 0),
            rooms@ == (UserRoomSpec {
                users: start_seats(st0.users, players@.take(i as int), same, max as int, total, players@.len()).0,
                ..st0
            }),
            messages_view(out@) == out0 + start_seats(st0.users, players@.take(i as int), same, max as int, total, players@.len()).1,
            notices_view(notices@) == start_seats(st0.users, players@.take(i as int), same, max as int, total, players@.len()).2,
            order as nat == start_seats(st0.users, players@.take(i as int), same, max as int, total, players@.len()).3,
            start_seats(st0.users, players@.take(i as int), same, max as int, total, players@.len()).3 <= seats_taken(
                players@.take(i as int),
            ),
            forall|a: u64| user_pos(rooms@.users, a) == user_pos(st0.users, a),
        decreases players@.len() - i,
    {
        let ghost pre = start_seats(st0.users, players@.take(i as int), same, max as int, total, players@.len());
        assert(players@.take(i + 1).drop_last() =~= players@.take(i as int));
        proof {
            lemma_seats_taken_prefix(players@, i + 1);
        }
        match players[i] {
            PlayerAddr::Playing(a) | PlayerAddr::Idle(a) => {
                assert(seat_addr(players@[i as int]) == Some(a));
                let j = match rooms.find_user(a) {
                    Some(j) => j,
                    None => {
                        return notices;
                    },
                };
                let ghost u = rooms@.users[j as int];
                let own = cal_frame_delay(rooms.users[j].connect_type, rooms.users[j].ping);
                let fd = if same {
                    max
                } else {
                    own
                };
                rooms.users[j].player_index = order;
                rooms.users[j].room_order = order;
                rooms.users[j].player_status = PLAYING;
                rooms.users[j].cache_system.reset();
                rooms.users[j].put_cache.reset();
                rooms.users[j].players_input = empty_inputs(players.len());
                let ghost u2 = UserSpec {
                    player_index: order,
                    room_order: order,
                    player_status: PLAYING,
                    cache_system: Seq::empty(),
                    put_cache: Seq::empty(),
                    players_input: Seq::new(players@.len(), |k: int| Seq::<u8>::empty()),
                    ..u
                };
                assert(rooms@.users[j as int].cache_system =~= Seq::<Seq<u8>>::empty());
                assert(rooms@.users[j as int].put_cache =~= Seq::<Seq<u8>>::empty());
                assert(rooms@.users[j as int].players_input =~= u2.players_input);
                assert(rooms@.users =~= pre.0.update(j as int, u2));
                assert forall|x: int, y: int| 0 <= x < y < rooms@.users.len() implies rooms@.users[x].ip_addr
                    != rooms@.users[y].ip_addr by {
                    assert(rooms@.users[x].ip_addr == pre.0[x].ip_addr);
                    assert(rooms@.users[y].ip_addr == pre.0[y].ip_addr);
                }
                assert(rooms@.rooms == st0.rooms);
                proof {
                    assert forall|b: u64| user_pos(rooms@.users, b) == user_pos(st0.users, b) by {
                        lemma_user_pos_same_addr(pre.0, j as int, u2, b);
                    }
                    lemma_frame_delay_bounds(u.connect_type, u.ping);
                }
                let data = build_start_game_packet(fd, order + 1, total);
                push_message(out, a, START_GAME, data);
                let mut notice = copy_vec(&rooms.users[j].name);
                if same {
                    crate::kaillera::protocol::extend_bytes(&mut notice, ", [samedelay mode] index ".as_bytes());
                    push_decimal(&mut notice, own as usize);
                    crate::kaillera::protocol::extend_bytes(&mut notice, " -> ".as_bytes());
                    push_decimal(&mut notice, max as usize);
                } else {
                    crate::kaillera::protocol::extend_bytes(&mut notice, ", frame delay(index): ".as_bytes());
                    push_decimal(&mut notice, own as usize);
                }
                notice.push(0u8);
                let ghost nv = notice@;
                assert(nv == delay_notice(u.name, own as int, max as int, same));
                let ghost nb = notices@;
                notices.push(notice);
                assert(notices_view(notices@) =~= notices_view(nb).push(nv));
                order = order + 1;
            },
            PlayerAddr::Empty => {},
        }
        i = i + 1;
    }
    assert(players@.take(i as int) =~= players@);
    notices
}

/// Sends each notice, in turn, to every occupied seat.
fn notices_exec(players: &Vec<PlayerAddr>, out: &mut Vec<Message>, notices: &Vec<Vec<u8>>)
    ensures
        messages_view(final(out)@) == messages_view(old(out)@) + notices_to_seats(
            players@,
            notices_view(notices@),
        ),
{
    let ghost out0 = messages_view(out@);
    let ghost nv = notices_view(notices@);
    let mut k: usize = 0;
    while k < notices.len()
        invariant
            k <= notices@.len(),
            nv == notices_view(notices@),
            messages_view(out@) == out0 + notices_to_seats(players@, nv.take(k as int)),
        decreases notices@.len() - k,
    {
        let mut chat = bytes_of("SERVER", "");
        chat.push(0u8);
        crate::kaillera::protocol::extend_bytes(&mut chat, notices[k].as_slice());
        proof {
            reveal_strlit("");
        }
        assert(chat@ == room_chat(nv[k as int]));
        send_to_seats(players, out, GAME_CHAT, &chat);
        assert(nv.take(k + 1).drop_last() =~= nv.take(k as int));
        k = k + 1;
    }
    assert(nv.take(k as int) =~= nv);
}

/// Handles a start request of the user at `user` (see `room_start_spec`).
#[verifier::rlimit(40)]
pub fn start_game_step(rooms: &mut UserRoom, out: &mut Vec<Message>, user: u64) -> (r: Result<
    (),
    KailleraError,
>)
    requires
        old(rooms).wf(),
        start_ok(old(rooms)@, user),
    ensures
        final(rooms).wf(),
        (final(rooms)@, messages_view(final(out)@), result_view(r)) == room_start_spec(
            old(rooms)@,
            messages_view(old(out)@),
            user,
        ),
{
    let ghost st = rooms@;
    proof {
        lemma_user_pos(st.users, user);
    }
    let ui = match rooms.find_user(user) {
        Some(i) => i,
        None => {
            return Err(KailleraError::NotFound);
        },
    };
    let gid = match rooms.users[ui].game_room_id {
        Some(g) => g,
        None => {
            return Err(KailleraError::NotFound);
        },
    };
    proof {
        lemma_room_pos(st.rooms, gid);
    }
    let ri = match rooms.find_room(gid) {
        Some(i) => i,
        None => {
            return Err(KailleraError::NotFound);
        },
    };
    rooms.rooms[ri].game_status = GAME_STATUS_NET_SYNC;
    let ghost room = st.rooms[ri as int];
    let ghost st1 = UserRoomSpec {
        rooms: st.rooms.update(ri as int, RoomSpec { game_status: GAME_STATUS_NET_SYNC, ..room }),
        ..st
    };
    assert(rooms@.rooms =~= st1.rooms);
    assert(rooms@ == st1);
    let total = rooms.rooms[ri].players.len() as u8;
    let status = UpdateGameStatus2Client::new(0, gid, GAME_STATUS_NET_SYNC, total, 4);
    let status_data = match status.packetize() {
        Ok(v) => v,
        Err(_) => Vec::new(),
    };
    send_to_all(&rooms.users, out, UPDATE_GAME_STATUS, &status_data);
    let players = copy_seats(&rooms.rooms[ri].players);
    let same = rooms.rooms[ri].same_delay;
    let max = match max_delay_of(rooms, &players) {
        Some(m) => m,
        None => {
            return Err(KailleraError::NotFound);
        },
    };
    let notices = start_seats_exec(rooms, out, &players, same, max, total);
    notices_exec(&players, out, &notices);
    Ok(())
}

proof fn lemma_seat_entries_none(users: Seq<UserSpec>, players: Seq<PlayerAddr>, i: int)
    requires
        0 <= i <= players.len(),
        seat_entries(users, players.take(i)) is None,
    ensures
        seat_entries(users, players) is None,
    decreases players.len() - i,
{
    if i < players.len() {
        assert(players.take(i + 1).drop_last() =~= players.take(i));
        lemma_seat_entries_none(users, players, i + 1);
    } else {
        assert(players.take(i) =~= players);
    }
}

/// The seats' entries of `players`, or `None` when a seated address is not
/// a held user.
fn seat_entries_of(st: &UserRoom, players: &Vec<PlayerAddr>) -> (r: Option<Vec<u8>>)
    ensures
        match r {
            Some(v) => seat_entries(st@.users, players@) == Some(v@),
            None => seat_entries(st@.users, players@) is None,
        },
{
    let ghost users = st@.users;
    let mut acc: Vec<u8> = Vec::new();
    let mut i: usize = 0;
    while i < players.len()
        invariant
            i <= players@.len(),
            users == st@.users,
            seat_entries(users, players@.take(i as int)) == Some(acc@),
        decreases players@.len() - i,
    {
        assert(players@.take(i + 1).drop_last() =~= players@.take(i as int));
        match players[i] {
            PlayerAddr::Playing(a) | PlayerAddr::Idle(a) => {
                match st.find_user(a) {
                    Some(j) => {
                        let u = &st.users[j];
                        crate::packet_util::put_bytes_with_null(&mut acc, u.name.as_slice());
                        crate::kaillera::protocol::extend_bytes(
                            &mut acc,
                            &crate::kaillera::protocol::u32_le_bytes(u.ping),
                        );
                        crate::kaillera::protocol::extend_bytes(
                            &mut acc,
                            &crate::kaillera::protocol::u16_le_bytes(u.user_id),
                        );
                        acc.push(u.connect_type);
                    },
                    None => {
                        proof {
                            lemma_seat_entries_none(users, players@, i + 1);
                        }
                        return None;
                    },
                }
            },
            PlayerAddr::Empty => {},
        }
        assert(seat_entries(users, players@.take(i + 1)) == Some(acc@));
        i = i + 1;
    }
    assert(players@.take(i as int) =~= players@);
    Some(acc)
}


/// The most frames of delay for each connection type 1 to 6.
pub open spec fn delay_cap(connection_type: u8) -> int {
    if connection_type == 1 {
        22
    } else if connection_type == 2 {
        11
    } else if connection_type == 3 {
        8
    } else if connection_type == 4 {
        6
    } else {
        5
    }
}

/// The frame delay for a ping of `ping` milliseconds: a connection of type
/// `c` (1 to 6) sends every `c` frames of 1/60 s, and the delay is one more
/// than the number of whole such periods the ping spans, up to a cap; any
/// other connection type gets 1.
pub open spec fn frame_delay_spec(connection_type: u8, ping: u32) -> int {
    if 1 <= connection_type <= 6 {
        let d = (ping as int * 60) / (connection_type as int * 1000) + 1;
        if d < delay_cap(connection_type) {
            d
        } else {
            delay_cap(connection_type)
        }
    } else {
        1
    }
}

/// The first `d` in `1..=cap` with `ping < hi(d)`, where `hi(d)` is the
/// first ping of delay `d + 1`, stepping through the table of one
/// connection type.
fn table_delay(ping: u32, period: u32, cap: u16) -> (d: u16)
    requires
        1 <= period <= 6,
        1 <= cap <= 22,
    ensures
        d as int == (if (ping as int * 60) / (period as int * 1000) + 1 < cap {
            (ping as int * 60) / (period as int * 1000) + 1
        } else {
            cap as int
        }),
{
    let mut d: u16 = 1;
    while d < cap
        invariant
            1 <= d <= cap,
            1 <= period <= 6,
            cap <= 22,
            (ping as int * 60) / (period as int * 1000) + 1 >= d,
        decreases cap - d,
    {
        // the pings of delay `d` are those below `d * period * 1000 / 60`
        assert((d as u64) * (period as u64) <= 132) by (nonlinear_arith)
            requires
                d <= 22,
                period <= 6,
        ;
        let bound: u64 = (d as u64) * (period as u64) * 1000;
        assert(bound as int == d * (period as int * 1000)) by (nonlinear_arith)
            requires
                bound == (d as u64) * (period as u64) * 1000,
        ;
        if (ping as u64) * 60 < bound {
            proof {
                let q = (ping as int * 60) / (period as int * 1000);
                assert(q * (period as int * 1000) <= ping as int * 60) by (nonlinear_arith)
                    requires
                        q == (ping as int * 60) / (period as int * 1000),
                        period >= 1,
                        ping as int * 60 >= 0,
                ;
                assert(q < d) by (nonlinear_arith)
                    requires
                        q * (period as int * 1000) <= ping as int * 60,
                        ping as int * 60 < d * (period as int * 1000),
                        period >= 1,
                ;
            }
            return d;
        }
        proof {
            let q = (ping as int * 60) / (period as int * 1000);
            assert(ping as int * 60 < (q + 1) * (period as int * 1000)) by (nonlinear_arith)
                requires
                    q == (ping as int * 60) / (period as int * 1000),
                    period >= 1,
                    ping as int * 60 >= 0,
            ;
            assert(q >= d) by (nonlinear_arith)
                requires
                    ping as int * 60 < (q + 1) * (period as int * 1000),
                    ping as int * 60 >= d * (period as int * 1000),
                    period >= 1,
            ;
        }
        d = d + 1;
    }
    d
}

/// Calculates the frame delay of a client from its connection type and
/// ping.
pub fn cal_frame_delay(connection_type: u8, ping: u32) -> (d: u16)
    ensures
        d as int == frame_delay_spec(connection_type, ping),
{
    if 1 <= connection_type && connection_type <= 6 {
        let cap: u16 = if connection_type == 1 {
            22
        } else if connection_type == 2 {
            11
        } else if connection_type == 3 {
            8
        } else if connection_type == 4 {
            6
        } else {
            5
        };
        table_delay(ping, connection_type as u32, cap)
    } else {
        1
    }
}

} // verus!
