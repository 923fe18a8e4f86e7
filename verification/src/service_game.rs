//! In-game steps of the first server generation: leaving, dropping,
//! kicking, readiness, and game input, which is gathered per receiving user
//! and answered from that user's cache. Each step changes the users and
//! rooms and lists the messages to send.
use vstd::prelude::*;

use crate::kaillera::protocol::{le16, le32};
use crate::cache_system::{entries_view, put_spec};
use crate::game_cache::first_index_of;
use crate::protocol::{
    bincode_deserialize_u16, GAME_CACHE, GAME_DATA, CLOSE_GAME, DROP_GAME, GAME_STATUS_PLAYING, GAME_STATUS_WAITING,
    QUIT_GAME, READY_TO_PLAY_SIGNAL, UPDATE_GAME_STATUS,
};
use crate::room::{
    lemma_room_pos, lemma_user_pos, room_pos, seat_addr, seats_taken, user_pos, user_room_wf,
    count_seats, KailleraError, KailleraErrorSpec, PlayerAddr, RoomSpec, ServiceError, ServiceErrorSpec, User,
    UserRoom, UserRoomSpec, UserSpec, IDLE,
};
use crate::service_server::{
    copy_seats, messages_view, push_message, send_to_all, to_all, Message,
};
use crate::state::copy_vec;

verus! {

pub type Sent = Seq<(u64, u8, Seq<u8>)>;

pub open spec fn step_view(r: Result<(), ServiceError>) -> Result<(), ServiceErrorSpec> {
    match r {
        Ok(()) => Ok(()),
        Err(e) => Err(e@),
    }
}

/// A `KailleraError` as a step's outcome.
pub open spec fn failed(e: KailleraErrorSpec) -> Result<(), ServiceErrorSpec> {
    Err(ServiceErrorSpec::Kaillera(e))
}

/// A refusal with `message` as a step's outcome.
pub open spec fn refused(message: Seq<char>) -> Result<(), ServiceErrorSpec> {
    Err(ServiceErrorSpec::Message { message })
}

/// The status line of game `gid`: its status, a player count and the
/// player limit 4.
pub open spec fn status_body(gid: u32, status: u8, count: u8) -> Seq<u8> {
    seq![0u8] + le32(gid) + seq![status, count, 4u8]
}

/// The same body to every occupied seat whose user is held, in seat order,
/// stopping at the first seat whose address is not a held user; whether
/// every seat was reached.
pub open spec fn to_held_seats(users: Seq<UserSpec>, players: Seq<PlayerAddr>, t: u8, data: Seq<u8>) -> (
    Sent,
    bool,
)
    decreases players.len(),
{
    if players.len() == 0 {
        (Seq::empty(), true)
    } else {
        let prev = to_held_seats(users, players.drop_last(), t, data);
        if !prev.1 {
            prev
        } else {
            match seat_addr(players.last()) {
                None => prev,
                Some(a) => if user_pos(users, a) < 0 {
                    (prev.0, false)
                } else {
                    (prev.0.push((a, t, data)), true)
                },
            }
        }
    }
}

/// Where the user at `user` plays: its position, its room id and the room's
/// position; 0 when the user is not held or in no room, 1 when the room is
/// not held.
pub open spec fn locate(st: UserRoomSpec, user: u64) -> Result<(int, u32, int), u8> {
    let ui = user_pos(st.users, user);
    if ui < 0 {
        Err(0u8)
    } else {
        match st.users[ui].game_room_id {
            None => Err(0u8),
            Some(g) => {
                let ri = room_pos(st.rooms, g);
                if ri < 0 {
                    Err(1u8)
                } else {
                    Ok((ui, g, ri))
                }
            },
        }
    }
}

pub open spec fn with_user(st: UserRoomSpec, i: int, u: UserSpec) -> UserRoomSpec {
    UserRoomSpec { users: st.users.update(i, u), ..st }
}

pub open spec fn with_room(st: UserRoomSpec, i: int, r: RoomSpec) -> UserRoomSpec {
    UserRoomSpec { rooms: st.rooms.update(i, r), ..st }
}

/// The seats with every seat of address `a` taken out.
pub open spec fn without_addr(players: Seq<PlayerAddr>, a: u64) -> Seq<PlayerAddr>
    decreases players.len(),
{
    if players.len() == 0 {
        Seq::empty()
    } else {
        let prev = without_addr(players.drop_last(), a);
        if seat_addr(players.last()) == Some(a) {
            prev
        } else {
            prev.push(players.last())
        }
    }
}

/// A readiness signal of the user at `user`: its room becomes playing and
/// its seat playing; every user learns the room's status and every seat
/// gets the signal.
pub open spec fn ready_spec(st: UserRoomSpec, out: Sent, user: u64) -> (UserRoomSpec, Sent, Result<
    (),
    ServiceErrorSpec,
>) {
    match locate(st, user) {
        Err(_) => (st, out, failed(KailleraErrorSpec::NotFound)),
        Ok((ui, gid, ri)) => {
            let room = st.rooms[ri];
            let players = room.players.update(
                st.users[ui].player_index as int,
                PlayerAddr::Playing(user),
            );
            let st1 = with_room(st, ri, RoomSpec { game_status: GAME_STATUS_PLAYING, players, ..room });
            let s = to_held_seats(st.users, players, READY_TO_PLAY_SIGNAL, seq![0u8]);
            (
                st1,
                out + to_all(st.users, UPDATE_GAME_STATUS, status_body(gid, GAME_STATUS_PLAYING, players.len() as u8))
                    + s.0,
                if s.1 {
                    Ok(())
                } else {
                    failed(KailleraErrorSpec::NotFound)
                },
            )
        },
    }
}

/// What a readiness signal may not meet: a seat number past the seats.
pub open spec fn ready_ok(st: UserRoomSpec, user: u64) -> bool {
    locate(st, user) matches Ok((ui, gid, ri)) ==> (st.users[ui].player_index as int)
        < st.rooms[ri].players.len()
}

/// A drop of the user at `user`: every user learns the room's status, every
/// seat hears who dropped (name and seat number from 1); then the user is
/// idle and its seat, if taken, waiting.
pub open spec fn drop_spec(st: UserRoomSpec, out: Sent, user: u64) -> (UserRoomSpec, Sent, Result<
    (),
    ServiceErrorSpec,
>) {
    match locate(st, user) {
        Err(_) => (st, out, failed(KailleraErrorSpec::NotFound)),
        Ok((ui, gid, ri)) => {
            let room = st.rooms[ri];
            let u = st.users[ui];
            let out1 = out + to_all(
                st.users,
                UPDATE_GAME_STATUS,
                status_body(gid, room.game_status, room.players.len() as u8),
            );
            let s = to_held_seats(
                st.users,
                room.players,
                DROP_GAME,
                u.name.push(0u8).push((u.player_index + 1) as u8),
            );
            if !s.1 {
                (st, out1 + s.0, failed(KailleraErrorSpec::NotFound))
            } else {
                let pi = u.player_index as int;
                let players = if pi < room.players.len() && seat_addr(room.players[pi]) is Some {
                    room.players.update(pi, PlayerAddr::Idle(seat_addr(room.players[pi]).unwrap()))
                } else {
                    room.players
                };
                let st1 = with_user(st, ui, UserSpec { player_status: IDLE, ..u });
                (with_room(st1, ri, RoomSpec { players, ..room }), out1 + s.0, Ok(()))
            }
        },
    }
}

/// What a drop may not meet: a seat number of 255.
pub open spec fn drop_ok(st: UserRoomSpec, user: u64) -> bool {
    locate(st, user) matches Ok((ui, gid, ri)) ==> st.users[ui].player_index < 255
}

/// The first seat whose held user has id `id`, or -1; false when a seat
/// before it holds an address that is not a held user.
pub open spec fn find_seat(users: Seq<UserSpec>, players: Seq<PlayerAddr>, id: u16) -> (int, bool)
    decreases players.len(),
{
    if players.len() == 0 {
        (-1, true)
    } else {
        let prev = find_seat(users, players.drop_last(), id);
        if !prev.1 || prev.0 >= 0 {
            prev
        } else {
            match seat_addr(players.last()) {
                None => prev,
                Some(a) => {
                    let i = user_pos(users, a);
                    if i < 0 {
                        (-1, false)
                    } else if users[i].user_id == id {
                        (players.len() - 1, true)
                    } else {
                        prev
                    }
                },
            }
        }
    }
}

/// A kick by the user at `user` of the player whose id is in bytes 1 and 2
/// of `buf`: the player leaves the room; every seat hears it (name and id),
/// the player's seats are taken out, and every user learns the room's
/// status.
pub open spec fn kick_spec(st: UserRoomSpec, out: Sent, buf: Seq<u8>, user: u64) -> (
    UserRoomSpec,
    Sent,
    Result<(), ServiceErrorSpec>,
) {
    match locate(st, user) {
        Err(_) => (st, out, failed(KailleraErrorSpec::NotFound)),
        Ok((ui, gid, ri)) => {
            let room = st.rooms[ri];
            let id = (buf[1] + 256 * buf[2]) as u16;
            let f = find_seat(st.users, room.players, id);
            if !f.1 {
                (st, out, failed(KailleraErrorSpec::NotFound))
            } else if f.0 < 0 {
                (st, out, refused("target user not found"@))
            } else {
                let a = seat_addr(room.players[f.0]).unwrap();
                let ti = user_pos(st.users, a);
                let target = st.users[ti];
                let st1 = with_user(st, ti, UserSpec { game_room_id: None, ..target });
                let s = to_held_seats(st1.users, room.players, QUIT_GAME, target.name.push(0u8) + le16(id));
                if !s.1 {
                    (st1, out + s.0, failed(KailleraErrorSpec::NotFound))
                } else {
                    let players = without_addr(room.players, a);
                    (
                        with_room(st1, ri, RoomSpec { players, ..room }),
                        out + s.0 + to_all(
                            st1.users,
                            UPDATE_GAME_STATUS,
                            status_body(gid, room.game_status, players.len() as u8),
                        ),
                        Ok(()),
                    )
                }
            }
        },
    }
}

/// What a kick may not meet: a body too short for the player id.
pub open spec fn kick_ok(st: UserRoomSpec, buf: Seq<u8>, user: u64) -> bool {
    locate(st, user) is Ok ==> buf.len() >= 3
}

/// The user at `user` leaves its room. A running game keeps the user's seat
/// empty; a waiting room loses the user's seats. A room left with no one is
/// closed and every user hears it; else every user learns its status. Every
/// remaining seat hears who left (name and id), and the user is in no room.
pub open spec fn quit_spec(st: UserRoomSpec, out: Sent, user: u64) -> (UserRoomSpec, Sent, Result<
    (),
    ServiceErrorSpec,
>) {
    match locate(st, user) {
        Err(0u8) => (st, out, refused("not exist in room"@)),
        Err(_) => (st, out, failed(KailleraErrorSpec::NotFound)),
        Ok((ui, gid, ri)) => {
            let room = st.rooms[ri];
            let u = st.users[ui];
            let pi = u.player_index as int;
            let players = if room.game_status != GAME_STATUS_WAITING {
                if pi < room.players.len() {
                    room.players.update(pi, PlayerAddr::Empty)
                } else {
                    room.players
                }
            } else {
                without_addr(room.players, user)
            };
            let closed = seats_taken(players) == 0;
            let rooms = if closed {
                st.rooms.remove(ri)
            } else {
                st.rooms.update(ri, RoomSpec { players, ..room })
            };
            let note = if closed {
                to_all(st.users, CLOSE_GAME, seq![0u8] + le32(room.game_id))
            } else {
                to_all(
                    st.users,
                    UPDATE_GAME_STATUS,
                    status_body(room.game_id, room.game_status, players.len() as u8),
                )
            };
            let st1 = UserRoomSpec { rooms, ..st };
            let s = to_held_seats(st.users, players, QUIT_GAME, u.name.push(0u8) + le16(u.user_id));
            if !s.1 {
                (st1, out + note + s.0, failed(KailleraErrorSpec::NotFound))
            } else {
                (with_user(st1, ui, UserSpec { game_room_id: None, ..u }), out + note + s.0, Ok(()))
            }
        },
    }
}


pub proof fn lemma_with_user_wf(st: UserRoomSpec, i: int, u: UserSpec)
    requires
        user_room_wf(st),
        0 <= i < st.users.len(),
        u.ip_addr == st.users[i].ip_addr,
    ensures
        user_room_wf(with_user(st, i, u)),
        forall|a: u64| user_pos(with_user(st, i, u).users, a) == user_pos(st.users, a),
{
    let st1 = with_user(st, i, u);
    assert forall|x: int, y: int| 0 <= x < y < st1.users.len() implies st1.users[x].ip_addr
        != st1.users[y].ip_addr by {
        assert(st1.users[x].ip_addr == st.users[x].ip_addr);
        assert(st1.users[y].ip_addr == st.users[y].ip_addr);
    }
    assert forall|a: u64| user_pos(with_user(st, i, u).users, a) == user_pos(st.users, a) by {
        crate::service_server::lemma_user_pos_same_addr(st.users, i, u, a);
    }
}

pub proof fn lemma_with_room_wf(st: UserRoomSpec, i: int, r: RoomSpec)
    requires
        user_room_wf(st),
        0 <= i < st.rooms.len(),
        r.game_id == st.rooms[i].game_id,
    ensures
        user_room_wf(with_room(st, i, r)),
{
    let st1 = with_room(st, i, r);
    assert forall|x: int, y: int| 0 <= x < y < st1.rooms.len() implies st1.rooms[x].game_id
        != st1.rooms[y].game_id by {
        assert(st1.rooms[x].game_id == st.rooms[x].game_id);
        assert(st1.rooms[y].game_id == st.rooms[y].game_id);
    }
}

/// Where the user at `user` plays (see `locate`).
pub fn locate_exec(rooms: &UserRoom, user: u64) -> (r: Result<(usize, u32, usize), u8>)
    ensures
        match r {
            Ok((ui, g, ri)) => locate(rooms@, user) == Ok::<(int, u32, int), u8>((ui as int, g, ri as int))
                && ui < rooms@.users.len() && ri < rooms@.rooms.len(),
            Err(e) => locate(rooms@, user) == Err::<(int, u32, int), u8>(e),
        },
{
    proof {
        lemma_user_pos(rooms@.users, user);
    }
    let ui = match rooms.find_user(user) {
        Some(i) => i,
        None => {
            return Err(0u8);
        },
    };
    let g = match rooms.users[ui].game_room_id {
        Some(g) => g,
        None => {
            return Err(0u8);
        },
    };
    proof {
        lemma_room_pos(rooms@.rooms, g);
    }
    match rooms.find_room(g) {
        Some(ri) => Ok((ui, g, ri)),
        None => Err(1u8),
    }
}

/// The status line of game `gid`.
pub fn status_bytes(gid: u32, status: u8, count: u8) -> (v: Vec<u8>)
    ensures
        v@ == status_body(gid, status, count),
{
    let mut v: Vec<u8> = Vec::new();
    v.push(0u8);
    crate::kaillera::protocol::extend_bytes(&mut v, crate::kaillera::protocol::u32_le_bytes(gid).as_slice());
    v.push(status);
    v.push(count);
    v.push(4u8);
    assert(v@ =~= status_body(gid, status, count));
    v
}

proof fn lemma_held_false(users: Seq<UserSpec>, players: Seq<PlayerAddr>, t: u8, data: Seq<u8>, i: int)
    requires
        0 <= i <= players.len(),
        !to_held_seats(users, players.take(i), t, data).1,
    ensures
        to_held_seats(users, players, t, data) == to_held_seats(users, players.take(i), t, data),
    decreases players.len() - i,
{
    if i < players.len() {
        assert(players.take(i + 1).drop_last() =~= players.take(i));
        lemma_held_false(users, players, t, data, i + 1);
    } else {
        assert(players.take(i) =~= players);
    }
}

/// Sends `data` to every occupied seat whose user is held, stopping at the
/// first that is not (see `to_held_seats`).
pub fn send_to_held_seats(rooms: &UserRoom, players: &Vec<PlayerAddr>, out: &mut Vec<Message>, t: u8, data: &Vec<u8>) -> (ok: bool)
    ensures
        messages_view(final(out)@) == messages_view(old(out)@) + to_held_seats(rooms@.users, players@, t, data@).0,
        ok == to_held_seats(rooms@.users, players@, t, data@).1,
{
    let ghost start = messages_view(out@);
    let ghost users = rooms@.users;
    let mut i: usize = 0;
    while i < players.len()
        invariant
            i <= players@.len(),
            users == rooms@.users,
            start == messages_view(old(out)@),
            to_held_seats(users, players@.take(i as int), t, data@).1,
            messages_view(out@) == start + to_held_seats(users, players@.take(i as int), t, data@).0,
        decreases players@.len() - i,
    {
        assert(players@.take(i + 1).drop_last() =~= players@.take(i as int));
        match players[i] {
            PlayerAddr::Playing(a) | PlayerAddr::Idle(a) => {
                proof {
                    lemma_user_pos(users, a);
                }
                if rooms.find_user(a).is_none() {
                    proof {
                        assert(players@.take(i + 1).last() == players@[i as int]);
                        assert(seat_addr(players@[i as int]) == Some(a));
                        assert(to_held_seats(users, players@.take(i + 1), t, data@) == (
                            to_held_seats(users, players@.take(i as int), t, data@).0,
                            false,
                        ));
                        lemma_held_false(users, players@, t, data@, i + 1);
                    }
                    assert(messages_view(out@) == start + to_held_seats(users, players@, t, data@).0);
                    return false;
                }
                push_message(out, a, t, copy_vec(data));
            },
            PlayerAddr::Empty => {},
        }
        i = i + 1;
    }
    assert(players@.take(i as int) =~= players@);
    true
}

/// The seats with every seat of address `a` taken out.
pub fn without_addr_exec(players: &Vec<PlayerAddr>, a: u64) -> (v: Vec<PlayerAddr>)
    ensures
        v@ == without_addr(players@, a),
{
    let mut v: Vec<PlayerAddr> = Vec::new();
    let mut i: usize = 0;
    while i < players.len()
        invariant
            i <= players@.len(),
            v@ == without_addr(players@.take(i as int), a),
        decreases players@.len() - i,
    {
        assert(players@.take(i + 1).drop_last() =~= players@.take(i as int));
        let p = players[i];
        let drop = match p {
            PlayerAddr::Playing(b) | PlayerAddr::Idle(b) => b == a,
            PlayerAddr::Empty => false,
        };
        if !drop {
            v.push(p);
        }
        i = i + 1;
    }
    assert(players@.take(i as int) =~= players@);
    v
}

pub fn not_found() -> (e: ServiceError)
    ensures
        e@ == ServiceErrorSpec::Kaillera(KailleraErrorSpec::NotFound),
{
    ServiceError::Kaillera(KailleraError::NotFound)
}

/// Handles a readiness signal of the user at `user` (see `ready_spec`).
pub fn ready_to_play_step(rooms: &mut UserRoom, out: &mut Vec<Message>, user: u64) -> (r: Result<(), ServiceError>)
    requires
        old(rooms).wf(),
        ready_ok(old(rooms)@, user),
    ensures
        final(rooms).wf(),
        (final(rooms)@, messages_view(final(out)@), step_view(r)) == ready_spec(old(rooms)@, messages_view(old(out)@), user),
{
    let ghost st = rooms@;
    let (ui, gid, ri) = match locate_exec(rooms, user) {
        Ok(x) => x,
        Err(_) => {
            return Err(not_found());
        },
    };
    let pi = rooms.users[ui].player_index as usize;
    rooms.rooms[ri].game_status = GAME_STATUS_PLAYING;
    rooms.rooms[ri].players.set(pi, PlayerAddr::Playing(user));
    let ghost room = st.rooms[ri as int];
    let ghost players = room.players.update(pi as int, PlayerAddr::Playing(user));
    let ghost r1 = RoomSpec { game_status: GAME_STATUS_PLAYING, players, ..room };
    assert(rooms@.rooms =~= st.rooms.update(ri as int, r1));
    assert(rooms@ == with_room(st, ri as int, r1));
    proof {
        lemma_with_room_wf(st, ri as int, r1);
    }
    let status = status_bytes(gid, GAME_STATUS_PLAYING, rooms.rooms[ri].players.len() as u8);
    send_to_all(&rooms.users, out, UPDATE_GAME_STATUS, &status);
    let seats = copy_seats(&rooms.rooms[ri].players);
    let mut sig: Vec<u8> = Vec::new();
    sig.push(0u8);
    assert(sig@ =~= seq![0u8]);
    if send_to_held_seats(rooms, &seats, out, READY_TO_PLAY_SIGNAL, &sig) {
        Ok(())
    } else {
        Err(not_found())
    }
}

/// Handles a drop of the user at `user` (see `drop_spec`).
pub fn drop_game_step(rooms: &mut UserRoom, out: &mut Vec<Message>, user: u64) -> (r: Result<(), ServiceError>)
    requires
        old(rooms).wf(),
        drop_ok(old(rooms)@, user),
    ensures
        final(rooms).wf(),
        (final(rooms)@, messages_view(final(out)@), step_view(r)) == drop_spec(old(rooms)@, messages_view(old(out)@), user),
{
    let ghost st = rooms@;
    let (ui, gid, ri) = match locate_exec(rooms, user) {
        Ok(x) => x,
        Err(_) => {
            return Err(not_found());
        },
    };
    let status = status_bytes(gid, rooms.rooms[ri].game_status, rooms.rooms[ri].players.len() as u8);
    send_to_all(&rooms.users, out, UPDATE_GAME_STATUS, &status);
    let mut body = copy_vec(&rooms.users[ui].name);
    body.push(0u8);
    body.push(rooms.users[ui].player_index + 1);
    let seats = copy_seats(&rooms.rooms[ri].players);
    if !send_to_held_seats(rooms, &seats, out, DROP_GAME, &body) {
        return Err(not_found());
    }
    let ghost u = st.users[ui as int];
    rooms.users[ui].player_status = IDLE;
    let ghost u1 = UserSpec { player_status: IDLE, ..u };
    assert(rooms@.users =~= st.users.update(ui as int, u1));
    let ghost st1 = with_user(st, ui as int, u1);
    assert(rooms@ == st1);
    proof {
        lemma_with_user_wf(st, ui as int, u1);
    }
    let pi = rooms.users[ui].player_index as usize;
    if pi < rooms.rooms[ri].players.len() {
        match rooms.rooms[ri].players[pi] {
            PlayerAddr::Playing(a) | PlayerAddr::Idle(a) => {
                rooms.rooms[ri].players.set(pi, PlayerAddr::Idle(a));
            },
            PlayerAddr::Empty => {},
        }
    }
    let ghost room = st.rooms[ri as int];
    let ghost players = if (pi as int) < room.players.len() && seat_addr(room.players[pi as int]) is Some {
        room.players.update(pi as int, PlayerAddr::Idle(seat_addr(room.players[pi as int]).unwrap()))
    } else {
        room.players
    };
    assert(rooms@.rooms =~= st1.rooms.update(ri as int, RoomSpec { players, ..room }));
    proof {
        lemma_with_room_wf(st1, ri as int, RoomSpec { players, ..room });
    }
    Ok(())
}

/// The first seat whose held user has id `id` (see `find_seat`).
fn find_seat_exec(rooms: &UserRoom, players: &Vec<PlayerAddr>, id: u16) -> (r: (Option<usize>, bool))
    ensures
        find_seat(rooms@.users, players@, id).1 == r.1,
        match r.0 {
            Some(k) => find_seat(rooms@.users, players@, id).0 == k && k < players@.len(),
            None => find_seat(rooms@.users, players@, id).0 == -1,
        },
{
    let ghost users = rooms@.users;
    let mut i: usize = 0;
    while i < players.len()
        invariant
            i <= players@.len(),
            users == rooms@.users,
            find_seat(users, players@.take(i as int), id) == (-1int, true),
        decreases players@.len() - i,
    {
        assert(players@.take(i + 1).drop_last() =~= players@.take(i as int));
        match players[i] {
            PlayerAddr::Playing(a) | PlayerAddr::Idle(a) => {
                proof {
                    lemma_user_pos(users, a);
                }
                match rooms.find_user(a) {
                    None => {
                        proof {
                            lemma_find_seat_done(users, players@, id, i + 1);
                        }
                        return (None, false);
                    },
                    Some(j) => {
                        if rooms.users[j].user_id == id {
                            proof {
                                lemma_find_seat_done(users, players@, id, i + 1);
                            }
                            return (Some(i), true);
                        }
                    },
                }
            },
            PlayerAddr::Empty => {},
        }
        i = i + 1;
    }
    assert(players@.take(i as int) =~= players@);
    (None, true)
}

proof fn lemma_find_seat_done(users: Seq<UserSpec>, players: Seq<PlayerAddr>, id: u16, i: int)
    requires
        0 <= i <= players.len(),
        !find_seat(users, players.take(i), id).1 || find_seat(users, players.take(i), id).0 >= 0,
    ensures
        find_seat(users, players, id) == find_seat(users, players.take(i), id),
    decreases players.len() - i,
{
    if i < players.len() {
        assert(players.take(i + 1).drop_last() =~= players.take(i));
        lemma_find_seat_done(users, players, id, i + 1);
    } else {
        assert(players.take(i) =~= players);
    }
}

proof fn lemma_find_seat_valid(users: Seq<UserSpec>, players: Seq<PlayerAddr>, id: u16)
    ensures
        -1 <= find_seat(users, players, id).0 < players.len(),
        find_seat(users, players, id).0 >= 0 ==> find_seat(users, players, id).1,
        find_seat(users, players, id).0 >= 0 ==> (seat_addr(players[find_seat(users, players, id).0]) matches Some(a)
            && user_pos(users, a) >= 0),
    decreases players.len(),
{
    if players.len() > 0 {
        lemma_find_seat_valid(users, players.drop_last(), id);
        let prev = find_seat(users, players.drop_last(), id);
        if prev.0 >= 0 {
            assert(players[prev.0] == players.drop_last()[prev.0]);
        }
    }
}

/// Handles a kick by the user at `user` (see `kick_spec`).
#[verifier::rlimit(30)]
pub fn kick_user_step(rooms: &mut UserRoom, out: &mut Vec<Message>, buf: &[u8], user: u64) -> (r: Result<(), ServiceError>)
    requires
        old(rooms).wf(),
        kick_ok(old(rooms)@, buf@, user),
    ensures
        final(rooms).wf(),
        (final(rooms)@, messages_view(final(out)@), step_view(r)) == kick_spec(old(rooms)@, messages_view(old(out)@), buf@, user),
{
    let ghost st = rooms@;
    let (ui, gid, ri) = match locate_exec(rooms, user) {
        Ok(x) => x,
        Err(_) => {
            return Err(not_found());
        },
    };
    let id = match bincode_deserialize_u16(vstd::slice::slice_subrange(buf, 1, 3)) {
        Ok(v) => v,
        Err(_) => {
            return Err(not_found());
        },
    };
    let seats = copy_seats(&rooms.rooms[ri].players);
    let (found, ok) = find_seat_exec(rooms, &seats, id);
    if !ok {
        return Err(not_found());
    }
    let k = match found {
        Some(k) => k,
        None => {
            return Err(ServiceError::Message { message: String::from_str("target user not found") });
        },
    };
    proof {
        lemma_find_seat_valid(st.users, seats@, id);
    }
    let a = match seats[k] {
        PlayerAddr::Playing(a) | PlayerAddr::Idle(a) => a,
        PlayerAddr::Empty => {
            return Err(not_found());
        },
    };
    proof {
        lemma_user_pos(st.users, a);
    }
    let ti = match rooms.find_user(a) {
        Some(t) => t,
        None => {
            return Err(not_found());
        },
    };
    rooms.users[ti].game_room_id = None;
    let ghost target = st.users[ti as int];
    let ghost t1 = UserSpec { game_room_id: None, ..target };
    assert(rooms@.users =~= st.users.update(ti as int, t1));
    let ghost st1 = with_user(st, ti as int, t1);
    assert(rooms@ == st1);
    proof {
        lemma_with_user_wf(st, ti as int, t1);
    }
    let mut body = copy_vec(&rooms.users[ti].name);
    body.push(0u8);
    crate::kaillera::protocol::extend_bytes(&mut body, crate::kaillera::protocol::u16_le_bytes(id).as_slice());
    assert(body@ =~= target.name.push(0u8) + le16(id));
    if !send_to_held_seats(rooms, &seats, out, QUIT_GAME, &body) {
        return Err(not_found());
    }
    let players = without_addr_exec(&seats, a);
    let count = players.len() as u8;
    let ghost room = st.rooms[ri as int];
    rooms.rooms[ri].players = players;
    assert(rooms@.rooms =~= st1.rooms.update(ri as int, RoomSpec { players: without_addr(room.players, a), ..room }));
    proof {
        lemma_with_room_wf(st1, ri as int, RoomSpec { players: without_addr(room.players, a), ..room });
    }
    let status = status_bytes(gid, rooms.rooms[ri].game_status, count);
    send_to_all(&rooms.users, out, UPDATE_GAME_STATUS, &status);
    Ok(())
}


pub proof fn lemma_remove_room_wf(st: UserRoomSpec, i: int)
    requires
        user_room_wf(st),
        0 <= i < st.rooms.len(),
    ensures
        user_room_wf(UserRoomSpec { rooms: st.rooms.remove(i), ..st }),
{
    let r = st.rooms.remove(i);
    assert forall|x: int, y: int| 0 <= x < y < r.len() implies r[x].game_id != r[y].game_id by {
        let x0 = if x < i { x } else { x + 1 };
        let y0 = if y < i { y } else { y + 1 };
        assert(r[x] == st.rooms[x0]);
        assert(r[y] == st.rooms[y0]);
    }
}

fn quit_refusal() -> (e: ServiceError)
    ensures
        e@ == (ServiceErrorSpec::Message { message: "not exist in room"@ }),
{
    ServiceError::Message { message: String::from_str("not exist in room") }
}

/// The user at `user` leaves its room (see `quit_spec`).
#[verifier::rlimit(30)]
pub fn quit_game_step(rooms: &mut UserRoom, out: &mut Vec<Message>, user: u64) -> (r: Result<(), ServiceError>)
    requires
        old(rooms).wf(),
    ensures
        final(rooms).wf(),
        (final(rooms)@, messages_view(final(out)@), step_view(r)) == quit_spec(old(rooms)@, messages_view(old(out)@), user),
{
    let ghost st = rooms@;
    let ghost out0 = messages_view(out@);
    let (ui, gid, ri) = match locate_exec(rooms, user) {
        Ok(x) => x,
        Err(0u8) => {
            return Err(quit_refusal());
        },
        Err(_) => {
            return Err(not_found());
        },
    };
    let ghost room = st.rooms[ri as int];
    let ghost u = st.users[ui as int];
    let pi = rooms.users[ui].player_index as usize;
    let mut players = copy_seats(&rooms.rooms[ri].players);
    if rooms.rooms[ri].game_status != GAME_STATUS_WAITING {
        if pi < players.len() {
            players.set(pi, PlayerAddr::Empty);
        }
    } else {
        players = without_addr_exec(&players, user);
    }
    let ghost pv = players@;
    let game_id = rooms.rooms[ri].game_id;
    let status = rooms.rooms[ri].game_status;
    if count_seats(&players) == 0 {
        rooms.rooms.remove(ri);
        assert(rooms@.rooms =~= st.rooms.remove(ri as int));
        proof {
            lemma_remove_room_wf(st, ri as int);
        }
        let mut note: Vec<u8> = Vec::new();
        note.push(0u8);
        crate::kaillera::protocol::extend_bytes(&mut note, crate::kaillera::protocol::u32_le_bytes(game_id).as_slice());
        assert(note@ =~= seq![0u8] + le32(game_id));
        send_to_all(&rooms.users, out, CLOSE_GAME, &note);
    } else {
        let note = status_bytes(game_id, status, players.len() as u8);
        rooms.rooms[ri].players = copy_seats(&players);
        assert(rooms@.rooms =~= st.rooms.update(ri as int, RoomSpec { players: pv, ..room }));
        proof {
            lemma_with_room_wf(st, ri as int, RoomSpec { players: pv, ..room });
        }
        send_to_all(&rooms.users, out, UPDATE_GAME_STATUS, &note);
    }
    let ghost st1 = rooms@;
    let mut body = copy_vec(&rooms.users[ui].name);
    body.push(0u8);
    crate::kaillera::protocol::extend_bytes(&mut body, crate::kaillera::protocol::u16_le_bytes(rooms.users[ui].user_id).as_slice());
    assert(body@ =~= u.name.push(0u8) + le16(u.user_id));
    if !send_to_held_seats(rooms, &players, out, QUIT_GAME, &body) {
        return Err(not_found());
    }
    rooms.users[ui].game_room_id = None;
    assert(rooms@.users =~= st1.users.update(ui as int, UserSpec { game_room_id: None, ..u }));
    proof {
        lemma_with_user_wf(st1, ui as int, UserSpec { game_room_id: None, ..u });
    }
    Ok(())
}


/// Bytes of input a user takes from each player per frame round: its
/// connection type times its frame input size.
pub open spec fn need(u: UserSpec) -> int {
    u.connect_type * u.atomic_input_size
}

/// `v`, filled with zeros up to `k` bytes.
pub open spec fn pad_to(v: Seq<u8>, k: int) -> Seq<u8> {
    if v.len() < k {
        v + Seq::new((k - v.len()) as nat, |j: int| 0u8)
    } else {
        v
    }
}

/// Player `i`'s input for `u` once a player that is not playing is filled
/// up with zeros.
pub open spec fn after_pad(u: UserSpec, players: Seq<PlayerAddr>, i: int) -> Seq<u8> {
    if players[i] is Playing {
        u.players_input[i]
    } else {
        pad_to(u.players_input[i], need(u))
    }
}

/// Whether player `i`'s input falls short: its length, as one byte, is
/// less than the need.
pub open spec fn short(u: UserSpec, players: Seq<PlayerAddr>, i: int) -> bool {
    (after_pad(u, players, i).len() % 256) < need(u)
}

/// The first of players `0..k` whose input falls short, or `k`.
pub open spec fn first_short(u: UserSpec, players: Seq<PlayerAddr>, k: int) -> int
    decreases k,
{
    if k <= 0 {
        0
    } else {
        let f = first_short(u, players, k - 1);
        if f < k - 1 {
            f
        } else if short(u, players, k - 1) {
            k - 1
        } else {
            k
        }
    }
}

/// The inputs once every player up to the first that falls short is
/// filled up.
pub open spec fn padded(u: UserSpec, players: Seq<PlayerAddr>) -> Seq<Seq<u8>> {
    let f = first_short(u, players, players.len() as int);
    Seq::new(
        u.players_input.len(),
        |i: int|
            if i < players.len() && i <= f {
                after_pad(u, players, i)
            } else {
                u.players_input[i]
            },
    )
}

/// Round `r`: bytes `r * a .. r * a + a` of each of the first `n` inputs.
pub open spec fn round_bytes(inputs: Seq<Seq<u8>>, n: int, a: int, r: int) -> Seq<u8> {
    Seq::new(n as nat, |i: int| inputs[i].subrange(r * a, r * a + a)).flatten()
}

/// Rounds `0..rounds`, one after another.
pub open spec fn gen_bytes(inputs: Seq<Seq<u8>>, n: int, a: int, rounds: int) -> Seq<u8>
    decreases rounds,
{
    if rounds <= 0 {
        Seq::empty()
    } else {
        gen_bytes(inputs, n, a, rounds - 1) + round_bytes(inputs, n, a, rounds - 1)
    }
}

/// What `u` is sent of the seats' input: players that are not playing are
/// filled up with zeros; when every player has what `u` needs, one frame
/// input of each player per round, as many rounds as `u`'s connection type,
/// taken from the inputs; else nothing yet (`Err`).
pub open spec fn gen_input_spec(u: UserSpec, players: Seq<PlayerAddr>) -> (UserSpec, Result<Seq<u8>, ()>) {
    let n = players.len() as int;
    let p = padded(u, players);
    if first_short(u, players, n) < n {
        (UserSpec { players_input: p, ..u }, Err(()))
    } else {
        let c = u.connect_type as int;
        let a = u.atomic_input_size as int;
        (
            UserSpec {
                players_input: Seq::new(
                    p.len(),
                    |i: int|
                        if i < n {
                            p[i].skip(c * a)
                        } else {
                            p[i]
                        },
                ),
                ..u
            },
            Ok(gen_bytes(p, n, a, c)),
        )
    }
}

/// What `gen_input` may not meet: fewer inputs than seats, or a need past
/// one byte.
pub open spec fn gen_ok(u: UserSpec, players: Seq<PlayerAddr>) -> bool {
    players.len() <= u.players_input.len() && (players.len() == 0 || need(u) <= 255)
}

/// `gen_ok` for every held user on a seat.
pub open spec fn seats_gen_ok(users: Seq<UserSpec>, players: Seq<PlayerAddr>) -> bool {
    forall|k: int|
        0 <= k < players.len() ==> (#[trigger] seat_addr(players[k]) matches Some(a) ==> (user_pos(users, a)
            >= 0 ==> gen_ok(users[user_pos(users, a)], players)))
}

/// The user at position `j` answered: what it is sent of the seats' input,
/// as a cache position when its cache holds the bytes, else the bytes,
/// which its cache then stores.
pub open spec fn answer_user(st: UserRoomSpec, out: Sent, j: int, players: Seq<PlayerAddr>) -> (
    UserRoomSpec,
    Sent,
) {
    let a = st.users[j].ip_addr;
    let g = gen_input_spec(st.users[j], players);
    let u1 = g.0;
    match g.1 {
        Err(_) => (with_user(st, j, u1), out),
        Ok(d) => if d.len() == 0 {
            (with_user(st, j, u1), out)
        } else {
            let i = first_index_of(u1.put_cache, d);
            if i >= 0 {
                (with_user(st, j, u1), out.push((a, GAME_CACHE, seq![0u8, (i % 256) as u8])))
            } else {
                (
                    with_user(st, j, UserSpec { put_cache: put_spec(u1.put_cache, d).0, ..u1 }),
                    out.push((a, GAME_DATA, seq![0u8] + le16(d.len() as u16) + d)),
                )
            }
        },
    }
}

/// Every seat of `players[0..k]` in turn answered; false when a seat's
/// address is not a held user, which stops the walk.
pub open spec fn answer_seats(st: UserRoomSpec, out: Sent, players: Seq<PlayerAddr>, k: int) -> (
    UserRoomSpec,
    Sent,
    bool,
)
    decreases k,
{
    if k <= 0 {
        (st, out, true)
    } else {
        let prev = answer_seats(st, out, players, k - 1);
        if !prev.2 {
            prev
        } else {
            match seat_addr(players[k - 1]) {
                None => prev,
                Some(a) => {
                    let j = user_pos(prev.0.users, a);
                    if j < 0 {
                        (prev.0, prev.1, false)
                    } else {
                        let r = answer_user(prev.0, prev.1, j, players);
                        (r.0, r.1, true)
                    }
                },
            }
        }
    }
}

/// The seats of the room of the user at `user` are answered in turn.
pub open spec fn input_spec(st: UserRoomSpec, out: Sent, user: u64) -> (UserRoomSpec, Sent, Result<
    (),
    ServiceErrorSpec,
>) {
    match locate(st, user) {
        Err(_) => (st, out, failed(KailleraErrorSpec::NotFound)),
        Ok((ui, gid, ri)) => {
            let players = st.rooms[ri].players;
            let r = answer_seats(st, out, players, players.len() as int);
            (
                r.0,
                r.1,
                if r.2 {
                    Ok(())
                } else {
                    failed(KailleraErrorSpec::NotFound)
                },
            )
        },
    }
}

/// `d` appended, at position `target`, to the inputs of every held user on
/// a seat, in seat order; false when a seat's address is not a held user.
pub open spec fn append_seats(users: Seq<UserSpec>, players: Seq<PlayerAddr>, target: int, d: Seq<u8>) -> (
    Seq<UserSpec>,
    bool,
)
    decreases players.len(),
{
    if players.len() == 0 {
        (users, true)
    } else {
        let prev = append_seats(users, players.drop_last(), target, d);
        if !prev.1 {
            prev
        } else {
            match seat_addr(players.last()) {
                None => prev,
                Some(a) => {
                    let j = user_pos(prev.0, a);
                    if j < 0 {
                        (prev.0, false)
                    } else {
                        let v = prev.0[j];
                        (
                            prev.0.update(
                                j,
                                UserSpec {
                                    players_input: v.players_input.update(target, v.players_input[target] + d),
                                    ..v
                                },
                            ),
                            true,
                        )
                    }
                },
            }
        }
    }
}

/// Input `d` of the user at position `ui`, player `target` of room position
/// `ri`, reaches every seat; then the seats are answered.
pub open spec fn spread_spec(st: UserRoomSpec, out: Sent, ri: int, target: int, d: Seq<u8>, user: u64) -> (
    UserRoomSpec,
    Sent,
    Result<(), ServiceErrorSpec>,
) {
    let ap = append_seats(st.users, st.rooms[ri].players, target, d);
    let st1 = UserRoomSpec { users: ap.0, ..st };
    if !ap.1 {
        (st1, out, failed(KailleraErrorSpec::NotFound))
    } else {
        input_spec(st1, out, user)
    }
}

/// Game data `buf` of the user at `user`: after an empty string, a length
/// (two bytes) and that many bytes of input. The user's frame input size
/// becomes the input's length (as one byte) over its connection type; the
/// input is cached for the user, reaches every seat's inputs at the user's
/// seat number, and the seats are answered.
pub open spec fn game_data_spec(st: UserRoomSpec, out: Sent, buf: Seq<u8>, user: u64) -> (
    UserRoomSpec,
    Sent,
    Result<(), ServiceErrorSpec>,
) {
    let ui = user_pos(st.users, user);
    if ui < 0 || st.users[ui].game_room_id is None {
        (st, out, failed(KailleraErrorSpec::NotFound))
    } else {
        let len = buf[1] + 256 * buf[2];
        if buf.len() < 3 + len {
            (st, out, refused(".."@))
        } else {
            let d = buf.subrange(3, 3 + len);
            let u = st.users[ui];
            let u1 = UserSpec { atomic_input_size: ((d.len() % 256) as u8 / u.connect_type) as u8, ..u };
            let st1 = with_user(st, ui, u1);
            let ri = room_pos(st.rooms, u.game_room_id.unwrap());
            if ri < 0 {
                (st1, out, failed(KailleraErrorSpec::NotFound))
            } else {
                let st2 = with_user(st1, ui, UserSpec { cache_system: put_spec(u.cache_system, d).0, ..u1 });
                spread_spec(st2, out, ri, u.player_index as int, d, user)
            }
        }
    }
}

/// A cache reference `buf` of the user at `user`: an empty string and a
/// position in the user's input cache, whose input then reaches the seats
/// as game data does.
pub open spec fn game_cache_spec(st: UserRoomSpec, out: Sent, buf: Seq<u8>, user: u64) -> (
    UserRoomSpec,
    Sent,
    Result<(), ServiceErrorSpec>,
) {
    let ui = user_pos(st.users, user);
    if ui < 0 || st.users[ui].game_room_id is None {
        (st, out, failed(KailleraErrorSpec::NotFound))
    } else if buf.len() != 2 {
        (st, out, refused("!= 2"@))
    } else {
        let u = st.users[ui];
        let pos = buf[1] as int;
        if pos >= u.cache_system.len() {
            (st, out, failed(KailleraErrorSpec::NotFound))
        } else {
            let ri = room_pos(st.rooms, u.game_room_id.unwrap());
            if ri < 0 {
                (st, out, failed(KailleraErrorSpec::NotFound))
            } else {
                spread_spec(st, out, ri, u.player_index as int, u.cache_system[pos], user)
            }
        }
    }
}

/// What spreading input may not meet: a seat number past a seated user's
/// inputs, or a seated user `gen_input` cannot serve.
pub open spec fn spread_ok(users: Seq<UserSpec>, players: Seq<PlayerAddr>, target: int) -> bool {
    &&& seats_gen_ok(users, players)
    &&& forall|k: int|
        0 <= k < players.len() ==> (#[trigger] seat_addr(players[k]) matches Some(a) ==> (user_pos(users, a)
            >= 0 ==> target < users[user_pos(users, a)].players_input.len()))
}

/// What game data may not meet: a body too short for its length, a
/// connection type of 0, or seats `spread_ok` refuses (with the user's new
/// frame input size).
pub open spec fn game_data_ok(st: UserRoomSpec, buf: Seq<u8>, user: u64) -> bool {
    let ui = user_pos(st.users, user);
    ui >= 0 && st.users[ui].game_room_id is Some ==> {
        &&& buf.len() >= 3
        &&& (buf.len() >= 3 + buf[1] + 256 * buf[2] ==> {
            let u = st.users[ui];
            let ri = room_pos(st.rooms, u.game_room_id.unwrap());
            &&& u.connect_type != 0
            &&& (ri >= 0 ==> spread_ok(
                with_user(st, ui, UserSpec {
                    atomic_input_size: ((buf[1] + 256 * buf[2]) % 256) as u8 / u.connect_type,
                    cache_system: put_spec(u.cache_system, buf.subrange(3, 3 + buf[1] + 256 * buf[2])).0,
                    ..u
                }).users,
                st.rooms[ri].players,
                u.player_index as int,
            ))
        })
    }
}

/// What a cache reference may not meet: seats `spread_ok` refuses.
pub open spec fn game_cache_ok(st: UserRoomSpec, user: u64) -> bool {
    let ui = user_pos(st.users, user);
    ui >= 0 && st.users[ui].game_room_id is Some && room_pos(st.rooms, st.users[ui].game_room_id.unwrap()) >= 0
        ==> spread_ok(
        st.users,
        st.rooms[room_pos(st.rooms, st.users[ui].game_room_id.unwrap())].players,
        st.users[ui].player_index as int,
    )
}


proof fn lemma_first_short_stays(u: UserSpec, players: Seq<PlayerAddr>, m: int, k: int)
    requires
        0 <= m <= k,
        first_short(u, players, m) < m,
    ensures
        first_short(u, players, k) == first_short(u, players, m),
    decreases k - m,
{
    if k > m {
        lemma_first_short_stays(u, players, m, k - 1);
    }
}

proof fn lemma_first_short_none(u: UserSpec, players: Seq<PlayerAddr>, k: int, i: int)
    requires
        0 <= i < k,
        first_short(u, players, k) == k,
    ensures
        !short(u, players, i),
    decreases k,
{
    if first_short(u, players, k - 1) < k - 1 {
        lemma_first_short_stays(u, players, k - 1, k);
    } else if i < k - 1 {
        assert(first_short(u, players, k - 1) == k - 1);
        lemma_first_short_none(u, players, k - 1, i);
    }
}

fn yet() -> (e: ServiceError)
    ensures
        e@ == (ServiceErrorSpec::Message { message: "yet"@ }),
{
    ServiceError::Message { message: String::from_str("yet") }
}

/// `v` filled with zeros up to `k` bytes.
fn pad_exec(v: &Vec<u8>, k: usize) -> (w: Vec<u8>)
    ensures
        w@ == pad_to(v@, k as int),
{
    let mut w = copy_vec(v);
    if w.len() < k {
        let ghost n0 = v@.len();
        while w.len() < k
            invariant
                n0 == v@.len(),
                n0 < k,
                n0 <= w@.len() <= k,
                w@ == v@ + Seq::new((w@.len() - n0) as nat, |j: int| 0u8),
            decreases k - w@.len(),
        {
            w.push(0u8);
            assert(w@ =~= v@ + Seq::new((w@.len() - n0) as nat, |j: int| 0u8));
        }
    }
    w
}

/// Bytes `r * a .. r * a + a` of each of the first `n` inputs.
pub open spec fn round_pieces(inputs: Seq<Seq<u8>>, n: int, a: int, r: int) -> Seq<Seq<u8>> {
    Seq::new(n as nat, |i: int| inputs[i].subrange(r * a, r * a + a))
}

/// The frames of round `r` of the inputs `p`, for `n` players of `a`
/// bytes each, appended to `ret`.
fn push_round(ret: &mut Vec<u8>, p: &Vec<Vec<u8>>, n: usize, a: usize, r: usize)
    requires
        n <= p@.len(),
        forall|i: int| 0 <= i < n ==> r * a + a <= (#[trigger] p@[i]).len(),
    ensures
        final(ret)@ == old(ret)@ + round_bytes(entries_view(p@), n as int, a as int, r as int),
{
    let ghost pv = entries_view(p@);
    let ghost start = ret@;
    let mut k: usize = 0;
    while k < n
        invariant
            k <= n,
            n <= p@.len(),
            pv == entries_view(p@),
            forall|i: int| 0 <= i < n ==> r * a + a <= (#[trigger] p@[i]).len(),
            ret@ == start + round_pieces(pv, k as int, a as int, r as int).flatten(),
            start == old(ret)@,
        decreases n - k,
    {
        assert(r * a + a <= p@[k as int].len());
        let lo = r * a;
        let piece = vstd::slice::slice_subrange(p[k].as_slice(), lo, lo + a);
        crate::kaillera::protocol::extend_bytes(ret, piece);
        proof {
            let e = pv[k as int].subrange(r * a, r * a + a);
            assert(pv[k as int] == p@[k as int]@);
            assert(piece@ =~= e);
            assert(round_pieces(pv, k + 1, a as int, r as int) =~= round_pieces(pv, k as int, a as int, r as int).push(e));
            round_pieces(pv, k as int, a as int, r as int).lemma_flatten_push(e);
        }
        k = k + 1;
    }
}

impl User {
    /// What this user is sent of the seats' input (see `gen_input_spec`);
    /// `yet` when a player falls short.
    pub fn gen_input(&mut self, players: &Vec<PlayerAddr>) -> (r: Result<Vec<u8>, ServiceError>)
        requires
            gen_ok(old(self)@, players@),
        ensures
            final(self)@ == gen_input_spec(old(self)@, players@).0,
            match r {
                Ok(v) => gen_input_spec(old(self)@, players@).1 == Ok::<Seq<u8>, ()>(v@),
                Err(e) => gen_input_spec(old(self)@, players@).1 is Err && e@ == (ServiceErrorSpec::Message {
                    message: "yet"@,
                }),
            },
    {
        let ghost u0 = self@;
        let ghost ps = players@;
        let n = players.len();
        let c = self.connect_type;
        let a = self.atomic_input_size;
        let mut i: usize = 0;
        assert(self@.players_input =~= Seq::new(
            u0.players_input.len(),
            |j: int|
                if j < 0 {
                    after_pad(u0, ps, j)
                } else {
                    u0.players_input[j]
                },
        ));
        while i < n
            invariant
                i <= n,
                n == ps.len(),
                ps == players@,
                u0 == old(self)@,
                self.players_input@.len() == u0.players_input.len(),
                gen_ok(u0, ps),
                c == u0.connect_type,
                a == u0.atomic_input_size,
                first_short(u0, ps, i as int) == i,
                self@ == (UserSpec {
                    players_input: Seq::new(
                        u0.players_input.len(),
                        |j: int|
                            if j < i {
                                after_pad(u0, ps, j)
                            } else {
                                u0.players_input[j]
                            },
                    ),
                    ..u0
                }),
            decreases n - i,
        {
            assert(c * a <= 255);
            let need: u8 = c * a;
            let playing = match players[i] {
                PlayerAddr::Playing(_) => true,
                _ => false,
            };
            let ghost before = self@.players_input;
            assert(before[i as int] == u0.players_input[i as int]);
            assert(self.players_input@[i as int]@ == before[i as int]);
            if !playing {
                let v = pad_exec(&self.players_input[i], need as usize);
                let ghost vv = v@;
                self.players_input.set(i, v);
                assert(self@.players_input =~= before.update(i as int, vv));
            }
            assert(self@.players_input =~= before.update(i as int, after_pad(u0, ps, i as int)));
            let l = (self.players_input[i].len() % 256) as u8;
            if l < need {
                proof {
                    assert(short(u0, ps, i as int));
                    assert(first_short(u0, ps, i + 1) == i);
                    lemma_first_short_stays(u0, ps, i + 1, n as int);
                    assert(self@.players_input =~= padded(u0, ps));
                }
                return Err(yet());
            }
            assert(first_short(u0, ps, i + 1) == i + 1);
            i = i + 1;
            assert(self@.players_input =~= Seq::new(
                u0.players_input.len(),
                |j: int|
                    if j < i {
                        after_pad(u0, ps, j)
                    } else {
                        u0.players_input[j]
                    },
            ));
        }
        let ghost p = self@.players_input;
        assert(p =~= padded(u0, ps));
        proof {
            assert forall|k: int| 0 <= k < n implies c * a <= (#[trigger] p[k]).len() by {
                lemma_first_short_none(u0, ps, n as int, k);
            }
        }
        let mut ret: Vec<u8> = Vec::new();
        let mut r: u8 = 0;
        while r < c
            invariant
                r <= c,
                n == ps.len(),
                n <= self.players_input@.len(),
                p == entries_view(self.players_input@),
                forall|k: int| 0 <= k < n ==> c * a <= (#[trigger] p[k]).len(),
                ret@ == gen_bytes(p, n as int, a as int, r as int),
            decreases c - r,
        {
            proof {
                assert forall|k: int| 0 <= k < n implies r * a + a <= (#[trigger] self.players_input@[k]).len() by {
                    assert(self.players_input@[k]@ == p[k]);
                    assert(r * a + a <= c * a) by (nonlinear_arith)
                        requires
                            r < c,
                    ;
                }
            }
            push_round(&mut ret, &self.players_input, n, a as usize, r as usize);
            r = r + 1;
        }
        assert((c as usize) * (a as usize) <= 65025) by (nonlinear_arith)
            requires
                c <= 255,
                a <= 255,
        ;
        let ca = (c as usize) * (a as usize);
        let mut k: usize = 0;
        while k < n
            invariant
                k <= n,
                n == ps.len(),
                n <= p.len(),
                ca == c * a,
                p.len() == self.players_input@.len(),
                forall|j: int| 0 <= j < n ==> ca <= (#[trigger] p[j]).len(),
                entries_view(self.players_input@) == Seq::new(
                    p.len(),
                    |j: int|
                        if j < k {
                            p[j].skip(ca as int)
                        } else {
                            p[j]
                        },
                ),
                self@ == (UserSpec { players_input: entries_view(self.players_input@), ..u0 }),
            decreases n - k,
        {
            assert(entries_view(self.players_input@)[k as int] == p[k as int]);
            assert(self.players_input@[k as int]@ == p[k as int]);
            let len = self.players_input[k].len();
            let rest = vstd::slice::slice_to_vec(
                vstd::slice::slice_subrange(self.players_input[k].as_slice(), ca, len),
            );
            let ghost before = entries_view(self.players_input@);
            assert(rest@ =~= p[k as int].skip(ca as int));
            let ghost rv = rest@;
            self.players_input.set(k, rest);
            assert(entries_view(self.players_input@) =~= before.update(k as int, rv));
            k = k + 1;
            assert(entries_view(self.players_input@) =~= Seq::new(
                p.len(),
                |j: int|
                    if j < k {
                        p[j].skip(ca as int)
                    } else {
                        p[j]
                    },
            ));
        }
        Ok(ret)
    }
}

impl UserRoom {
    /// What the user at position `user` is sent of the seats' input of the
    /// room at position `room` (see `gen_input_spec`).
    pub fn gen_input(&mut self, user: usize, room: usize) -> (r: Result<Vec<u8>, ServiceError>)
        requires
            user < old(self)@.users.len(),
            room < old(self)@.rooms.len(),
            gen_ok(old(self)@.users[user as int], old(self)@.rooms[room as int].players),
        ensures
            final(self)@ == with_user(
                old(self)@,
                user as int,
                gen_input_spec(old(self)@.users[user as int], old(self)@.rooms[room as int].players).0,
            ),
            match r {
                Ok(v) => gen_input_spec(old(self)@.users[user as int], old(self)@.rooms[room as int].players).1
                    == Ok::<Seq<u8>, ()>(v@),
                Err(e) => gen_input_spec(old(self)@.users[user as int], old(self)@.rooms[room as int].players).1 is Err
                    && e@ == (ServiceErrorSpec::Message { message: "yet"@ }),
            },
    {
        let players = copy_seats(&self.rooms[room].players);
        let r = self.users[user].gen_input(&players);
        assert(self@.users =~= old(self)@.users.update(
            user as int,
            gen_input_spec(old(self)@.users[user as int], old(self)@.rooms[room as int].players).0,
        ));
        r
    }
}


proof fn lemma_gen_keeps(u: UserSpec, players: Seq<PlayerAddr>)
    requires
        gen_ok(u, players),
    ensures
        gen_input_spec(u, players).0.ip_addr == u.ip_addr,
        gen_input_spec(u, players).0.connect_type == u.connect_type,
        gen_input_spec(u, players).0.atomic_input_size == u.atomic_input_size,
        gen_input_spec(u, players).0.players_input.len() == u.players_input.len(),
        gen_ok(gen_input_spec(u, players).0, players),
{
}

/// Two user lists with the same addresses, connection types, frame input
/// sizes and input counts.
pub open spec fn same_shape(a: Seq<UserSpec>, b: Seq<UserSpec>) -> bool {
    &&& a.len() == b.len()
    &&& forall|i: int|
        0 <= i < a.len() ==> (#[trigger] a[i]).ip_addr == b[i].ip_addr && a[i].connect_type
            == b[i].connect_type && a[i].atomic_input_size == b[i].atomic_input_size
            && a[i].players_input.len() == b[i].players_input.len()
}

proof fn lemma_same_shape_pos(a: Seq<UserSpec>, b: Seq<UserSpec>, x: u64)
    requires
        same_shape(a, b),
    ensures
        user_pos(a, x) == user_pos(b, x),
    decreases a.len(),
{
    if a.len() > 0 {
        assert(same_shape(a.drop_last(), b.drop_last())) by {
            assert forall|i: int| 0 <= i < a.drop_last().len() implies (#[trigger] a.drop_last()[i]).ip_addr
                == b.drop_last()[i].ip_addr && a.drop_last()[i].connect_type == b.drop_last()[i].connect_type
                && a.drop_last()[i].atomic_input_size == b.drop_last()[i].atomic_input_size
                && a.drop_last()[i].players_input.len() == b.drop_last()[i].players_input.len() by {
                assert(a.drop_last()[i] == a[i]);
                assert(b.drop_last()[i] == b[i]);
            }
        }
        lemma_same_shape_pos(a.drop_last(), b.drop_last(), x);
        assert(a.last() == a[a.len() - 1]);
    }
}

proof fn lemma_same_shape_keeps(a: Seq<UserSpec>, b: Seq<UserSpec>, players: Seq<PlayerAddr>, target: int)
    requires
        same_shape(a, b),
    ensures
        seats_gen_ok(a, players) ==> seats_gen_ok(b, players),
        spread_ok(a, players, target) ==> spread_ok(b, players, target),
        forall|i: int, j: int|
            0 <= i < j < a.len() && a[i].ip_addr != a[j].ip_addr ==> b[i].ip_addr != b[j].ip_addr,
{
    assert forall|x: u64| user_pos(a, x) == user_pos(b, x) by {
        lemma_same_shape_pos(a, b, x);
    }
    assert forall|x: u64| user_pos(a, x) >= 0 ==> user_pos(a, x) < a.len() by {
        lemma_user_pos(a, x);
    }
}

proof fn lemma_answer_false(st: UserRoomSpec, out: Sent, players: Seq<PlayerAddr>, k: int, n: int)
    requires
        0 <= k <= n,
        !answer_seats(st, out, players, k).2,
    ensures
        answer_seats(st, out, players, n) == answer_seats(st, out, players, k),
    decreases n - k,
{
    if k < n {
        lemma_answer_false(st, out, players, k + 1, n);
    }
}

/// Answers the user at position `j` (see `answer_user`).
fn answer_user_exec(rooms: &mut UserRoom, out: &mut Vec<Message>, j: usize, players: &Vec<PlayerAddr>)
    requires
        old(rooms).wf(),
        j < old(rooms)@.users.len(),
        gen_ok(old(rooms)@.users[j as int], players@),
    ensures
        final(rooms).wf(),
        same_shape(old(rooms)@.users, final(rooms)@.users),
        (final(rooms)@, messages_view(final(out)@)) == answer_user(old(rooms)@, messages_view(old(out)@), j as int, players@),
{
    let ghost st = rooms@;
    let a = rooms.users[j].ip_addr;
    let g = rooms.users[j].gen_input(players);
    proof {
        lemma_gen_keeps(st.users[j as int], players@);
    }
    let ghost u1 = gen_input_spec(st.users[j as int], players@).0;
    assert(rooms@.users =~= st.users.update(j as int, u1));
    assert(rooms@ == with_user(st, j as int, u1));
    proof {
        lemma_with_user_wf(st, j as int, u1);
    }
    match g {
        Err(_) => {},
        Ok(d) => {
            if d.len() > 0 {
                match rooms.users[j].put_cache.get_cache_position(copy_vec(&d)) {
                    Ok(pos) => {
                        let mut body: Vec<u8> = Vec::new();
                        body.push(0u8);
                        body.push(pos);
                        assert(body@ =~= seq![0u8, pos]);
                        push_message(out, a, GAME_CACHE, body);
                    },
                    Err(_) => {
                        let ghost pc = u1.put_cache;
                        let _ = rooms.users[j].put_cache.put_data(copy_vec(&d));
                        let ghost u2 = UserSpec { put_cache: put_spec(pc, d@).0, ..u1 };
                        assert(rooms@.users =~= st.users.update(j as int, u2));
                        proof {
                            lemma_with_user_wf(st, j as int, u2);
                        }
                        let mut body: Vec<u8> = Vec::new();
                        body.push(0u8);
                        crate::kaillera::protocol::extend_bytes(
                            &mut body,
                            crate::kaillera::protocol::u16_le_bytes(d.len() as u16).as_slice(),
                        );
                        crate::kaillera::protocol::extend_bytes(&mut body, d.as_slice());
                        assert(body@ =~= seq![0u8] + le16(d@.len() as u16) + d@);
                        push_message(out, a, GAME_DATA, body);
                    },
                }
            }
        },
    }
}

/// Answers every seat of the room of the user at `user` (see `input_spec`).
pub fn input_process_step(rooms: &mut UserRoom, out: &mut Vec<Message>, user: u64) -> (r: Result<(), ServiceError>)
    requires
        old(rooms).wf(),
        locate(old(rooms)@, user) matches Ok((ui, g, ri)) ==> seats_gen_ok(
            old(rooms)@.users,
            old(rooms)@.rooms[ri].players,
        ),
    ensures
        final(rooms).wf(),
        (final(rooms)@, messages_view(final(out)@), step_view(r)) == input_spec(old(rooms)@, messages_view(old(out)@), user),
{
    let ghost st = rooms@;
    let ghost out0 = messages_view(out@);
    let (ui, gid, ri) = match locate_exec(rooms, user) {
        Ok(x) => x,
        Err(_) => {
            return Err(not_found());
        },
    };
    let players = copy_seats(&rooms.rooms[ri].players);
    let n = players.len();
    let mut k: usize = 0;
    while k < n
        invariant
            k <= n,
            n == players@.len(),
            players@ == st.rooms[ri as int].players,
            rooms.wf(),
            seats_gen_ok(rooms@.users, players@),
            answer_seats(st, out0, players@, k as int) == (rooms@, messages_view(out@), true),
            locate(st, user) == Ok::<(int, u32, int), u8>((ui as int, gid, ri as int)),
            st == old(rooms)@,
            out0 == messages_view(old(out)@),
        decreases n - k,
    {
        match players[k] {
            PlayerAddr::Playing(a) | PlayerAddr::Idle(a) => {
                assert(seat_addr(players@[k as int]) == Some(a));
                proof {
                    lemma_user_pos(rooms@.users, a);
                }
                match rooms.find_user(a) {
                    None => {
                        proof {
                            lemma_answer_false(st, out0, players@, k + 1, n as int);
                        }
                        return Err(not_found());
                    },
                    Some(j) => {
                        assert(gen_ok(rooms@.users[j as int], players@));
                        let ghost before = rooms@.users;
                        answer_user_exec(rooms, out, j, &players);
                        proof {
                            lemma_same_shape_keeps(before, rooms@.users, players@, 0);
                        }
                    },
                }
            },
            PlayerAddr::Empty => {},
        }
        k = k + 1;
    }
    Ok(())
}

proof fn lemma_append_false(users: Seq<UserSpec>, players: Seq<PlayerAddr>, target: int, d: Seq<u8>, i: int)
    requires
        0 <= i <= players.len(),
        !append_seats(users, players.take(i), target, d).1,
    ensures
        append_seats(users, players, target, d) == append_seats(users, players.take(i), target, d),
    decreases players.len() - i,
{
    if i < players.len() {
        assert(players.take(i + 1).drop_last() =~= players.take(i));
        lemma_append_false(users, players, target, d, i + 1);
    } else {
        assert(players.take(i) =~= players);
    }
}

/// Appends `d` at position `target` to the inputs of every seated user
/// (see `append_seats`).
fn append_seats_exec(rooms: &mut UserRoom, players: &Vec<PlayerAddr>, target: usize, d: &Vec<u8>) -> (ok: bool)
    requires
        old(rooms).wf(),
        spread_ok(old(rooms)@.users, players@, target as int),
    ensures
        final(rooms).wf(),
        final(rooms)@ == (UserRoomSpec { users: append_seats(old(rooms)@.users, players@, target as int, d@).0, ..old(rooms)@ }),
        ok == append_seats(old(rooms)@.users, players@, target as int, d@).1,
        same_shape(old(rooms)@.users, final(rooms)@.users),
{
    let ghost st = rooms@;
    let mut k: usize = 0;
    proof {
        assert forall|i: int| 0 <= i < st.users.len() implies (#[trigger] st.users[i]).ip_addr == st.users[i].ip_addr
            && st.users[i].connect_type == st.users[i].connect_type && st.users[i].atomic_input_size
            == st.users[i].atomic_input_size && st.users[i].players_input.len()
            == st.users[i].players_input.len() by {}
    }
    while k < players.len()
        invariant
            k <= players@.len(),
            rooms.wf(),
            st == old(rooms)@,
            spread_ok(rooms@.users, players@, target as int),
            same_shape(st.users, rooms@.users),
            rooms@ == (UserRoomSpec { users: append_seats(st.users, players@.take(k as int), target as int, d@).0, ..st }),
            append_seats(st.users, players@.take(k as int), target as int, d@).1,
        decreases players@.len() - k,
    {
        assert(players@.take(k + 1).drop_last() =~= players@.take(k as int));
        match players[k] {
            PlayerAddr::Playing(a) | PlayerAddr::Idle(a) => {
                assert(seat_addr(players@[k as int]) == Some(a));
                proof {
                    lemma_user_pos(rooms@.users, a);
                }
                match rooms.find_user(a) {
                    None => {
                        proof {
                            assert(append_seats(st.users, players@.take(k + 1), target as int, d@) == (rooms@.users, false));
                            lemma_append_false(st.users, players@, target as int, d@, k + 1);
                        }
                        return false;
                    },
                    Some(j) => {
                        let ghost before = rooms@;
                        let ghost v = before.users[j as int];
                        assert(target < v.players_input.len());
                        assert(rooms.users@[j as int].players_input@[target as int]@ == v.players_input[target as int]);
                        let mut w = copy_vec(&rooms.users[j].players_input[target]);
                        crate::kaillera::protocol::extend_bytes(&mut w, d.as_slice());
                        let ghost wv = w@;
                        rooms.users[j].players_input.set(target, w);
                        let ghost v2 = UserSpec { players_input: v.players_input.update(target as int, wv), ..v };
                        assert(entries_view(rooms.users@[j as int].players_input@) =~= v.players_input.update(target as int, wv));
                        assert(rooms@.users[j as int] == v2);
                        assert(rooms@.users =~= before.users.update(j as int, v2));
                        proof {
                            lemma_with_user_wf(before, j as int, v2);
                            assert(same_shape(before.users, rooms@.users));
                            lemma_same_shape_keeps(before.users, rooms@.users, players@, target as int);
                            assert forall|i: int| 0 <= i < st.users.len() implies (#[trigger] st.users[i]).ip_addr
                                == rooms@.users[i].ip_addr && st.users[i].connect_type == rooms@.users[i].connect_type
                                && st.users[i].atomic_input_size == rooms@.users[i].atomic_input_size
                                && st.users[i].players_input.len() == rooms@.users[i].players_input.len() by {
                                assert(before.users[i].ip_addr == rooms@.users[i].ip_addr);
                            }
                        }
                    },
                }
            },
            PlayerAddr::Empty => {},
        }
        k = k + 1;
    }
    assert(players@.take(k as int) =~= players@);
    true
}


proof fn lemma_append_fields(users: Seq<UserSpec>, players: Seq<PlayerAddr>, target: int, d: Seq<u8>)
    ensures
        append_seats(users, players, target, d).0.len() == users.len(),
        forall|i: int|
            0 <= i < users.len() ==> (#[trigger] append_seats(users, players, target, d).0[i]) == (UserSpec {
                players_input: append_seats(users, players, target, d).0[i].players_input,
                ..users[i]
            }),
    decreases players.len(),
{
    if players.len() > 0 {
        lemma_append_fields(users, players.drop_last(), target, d);
        let prev = append_seats(users, players.drop_last(), target, d);
        if prev.1 {
            if let Some(a) = seat_addr(players.last()) {
                lemma_user_pos(prev.0, a);
            }
        }
    }
}

/// After input reached the seats (`st` to `st1`), the seats of the user's
/// room can still be answered.
proof fn lemma_spread_then_answer(st: UserRoomSpec, ri: int, target: int, d: Seq<u8>, user: u64)
    requires
        user_room_wf(st),
        0 <= ri < st.rooms.len(),
        spread_ok(st.users, st.rooms[ri].players, target),
        locate(st, user) == Ok::<(int, u32, int), u8>((user_pos(st.users, user), st.rooms[ri].game_id, ri)),
    ensures
        ({
            let st1 = UserRoomSpec { users: append_seats(st.users, st.rooms[ri].players, target, d).0, ..st };
            &&& same_shape(st.users, st1.users) ==> locate(st1, user) == locate(st, user)
            &&& same_shape(st.users, st1.users) ==> seats_gen_ok(st1.users, st1.rooms[ri].players)
        }),
{
    let users1 = append_seats(st.users, st.rooms[ri].players, target, d).0;
    lemma_append_fields(st.users, st.rooms[ri].players, target, d);
    if same_shape(st.users, users1) {
        lemma_same_shape_pos(st.users, users1, user);
        lemma_same_shape_keeps(st.users, users1, st.rooms[ri].players, target);
        let ui = user_pos(st.users, user);
        lemma_user_pos(st.users, user);
        assert(users1[ui] == (UserSpec { players_input: users1[ui].players_input, ..st.users[ui] }));
    }
}

/// Handles game data from the user at `user` (see `game_data_spec`).
#[verifier::rlimit(40)]
pub fn game_data_step(rooms: &mut UserRoom, out: &mut Vec<Message>, buf: &[u8], user: u64) -> (r: Result<(), ServiceError>)
    requires
        old(rooms).wf(),
        game_data_ok(old(rooms)@, buf@, user),
    ensures
        final(rooms).wf(),
        (final(rooms)@, messages_view(final(out)@), step_view(r)) == game_data_spec(old(rooms)@, messages_view(old(out)@), buf@, user),
{
    let ghost st = rooms@;
    proof {
        lemma_user_pos(st.users, user);
    }
    let ui = match rooms.find_user(user) {
        Some(i) => i,
        None => {
            return Err(not_found());
        },
    };
    let gid = match rooms.users[ui].game_room_id {
        Some(g) => g,
        None => {
            return Err(not_found());
        },
    };
    let len = match bincode_deserialize_u16(vstd::slice::slice_subrange(buf, 1, 3)) {
        Ok(v) => v as usize,
        Err(_) => {
            return Err(not_found());
        },
    };
    if buf.len() < 3 + len {
        return Err(ServiceError::Message { message: String::from_str("..") });
    }
    let d = vstd::slice::slice_to_vec(vstd::slice::slice_subrange(buf, 3, 3 + len));
    assert(d@ =~= buf@.subrange(3, 3 + buf@[1] + 256 * buf@[2]));
    let ghost u = st.users[ui as int];
    let ct = rooms.users[ui].connect_type;
    rooms.users[ui].atomic_input_size = ((d.len() % 256) as u8) / ct;
    let ghost u1 = UserSpec { atomic_input_size: ((d@.len() % 256) as u8 / u.connect_type) as u8, ..u };
    assert(rooms@.users =~= st.users.update(ui as int, u1));
    let ghost st1 = with_user(st, ui as int, u1);
    proof {
        lemma_with_user_wf(st, ui as int, u1);
    }
    proof {
        lemma_room_pos(st.rooms, gid);
    }
    let ri = match rooms.find_room(gid) {
        Some(x) => x,
        None => {
            return Err(not_found());
        },
    };
    let _ = rooms.users[ui].cache_system.put_data(copy_vec(&d));
    let ghost u2 = UserSpec { cache_system: put_spec(u.cache_system, d@).0, ..u1 };
    assert(rooms@.users =~= st1.users.update(ui as int, u2));
    let ghost st2 = with_user(st1, ui as int, u2);
    proof {
        lemma_with_user_wf(st1, ui as int, u2);
        assert(st2.users =~= st.users.update(ui as int, u2));
        assert(st2 == with_user(st, ui as int, u2));
        assert(st2.users[ui as int] == (UserSpec {
            atomic_input_size: ((buf@[1] + 256 * buf@[2]) % 256) as u8 / u.connect_type,
            cache_system: put_spec(u.cache_system, buf@.subrange(3, 3 + buf@[1] + 256 * buf@[2])).0,
            ..u
        }));
        assert(rooms@ == st2);
    }
    let players = copy_seats(&rooms.rooms[ri].players);
    let target = rooms.users[ui].player_index as usize;
    proof {
        lemma_spread_then_answer(st2, ri as int, target as int, d@, user);
    }
    if !append_seats_exec(rooms, &players, target, &d) {
        return Err(not_found());
    }
    input_process_step(rooms, out, user)
}

/// Handles a cache reference from the user at `user` (see `game_cache_spec`).
#[verifier::rlimit(30)]
pub fn game_cache_step(rooms: &mut UserRoom, out: &mut Vec<Message>, buf: &[u8], user: u64) -> (r: Result<(), ServiceError>)
    requires
        old(rooms).wf(),
        game_cache_ok(old(rooms)@, user),
    ensures
        final(rooms).wf(),
        (final(rooms)@, messages_view(final(out)@), step_view(r)) == game_cache_spec(old(rooms)@, messages_view(old(out)@), buf@, user),
{
    let ghost st = rooms@;
    proof {
        lemma_user_pos(st.users, user);
    }
    let ui = match rooms.find_user(user) {
        Some(i) => i,
        None => {
            return Err(not_found());
        },
    };
    let gid = match rooms.users[ui].game_room_id {
        Some(g) => g,
        None => {
            return Err(not_found());
        },
    };
    if buf.len() != 2 {
        return Err(ServiceError::Message { message: String::from_str("!= 2") });
    }
    let pos = buf[1];
    let d = match rooms.users[ui].cache_system.get_data(pos) {
        Ok(v) => v,
        Err(_) => {
            return Err(not_found());
        },
    };
    assert(d@ == st.users[ui as int].cache_system[pos as int]);
    proof {
        lemma_room_pos(st.rooms, gid);
    }
    let ri = match rooms.find_room(gid) {
        Some(x) => x,
        None => {
            return Err(not_found());
        },
    };
    let players = copy_seats(&rooms.rooms[ri].players);
    let target = rooms.users[ui].player_index as usize;
    proof {
        lemma_spread_then_answer(st, ri as int, target as int, d@, user);
    }
    if !append_seats_exec(rooms, &players, target, &d) {
        return Err(not_found());
    }
    input_process_step(rooms, out, user)
}

} // verus!
