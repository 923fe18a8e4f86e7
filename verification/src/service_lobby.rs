//! The lobby of the first server generation: logging in and out, the server
//! status list, acknowledgements and pings, chat, the keepalive sweep, and
//! the framing of what is sent to a user.
use rand::Rng;
use vstd::prelude::*;
use vstd::string::StringSliceAdditionalSpecFns;
use vstd::utf8::encode_utf8;

use crate::kaillera::protocol::{le16, le32, length_field, MessageSpec};
use crate::packet_util::{decimal_digits, push_decimal};
use crate::handlers::util::{encode_text, encoded, encoding_code, from_utf8_lossy, utf8_lossy, TextEncoding};
use crate::protocol::{
    header_bytes, AckProtocol, Protocol, ProtocolError, GAME_CHAT, GLOBAL_CHAT, S2C_ACK, SERVER_INFO,
    USER_JOIN, USER_QUIT, USER_SERVER_STATUS,
};
use crate::room::{
    lemma_user_pos, seats_taken, user_pos, user_room_wf, KailleraErrorSpec, Room, RoomSpec, ServiceError,
    ServiceErrorSpec, User, UserRoom, UserRoomSpec, UserSpec,
};
use crate::service_game::{
    failed, lemma_with_room_wf, lemma_with_user_wf, locate, locate_exec, not_found, quit_game_step, quit_spec,
    send_to_held_seats, step_view, to_held_seats, with_room, with_user, Sent,
};
use crate::service_server::{copy_seats, messages_view, push_message, send_to_all, to_all, Message};
use crate::state::copy_vec;

verus! {

/// One user's line of the server status: name, ping, status, id and
/// connection type.
pub open spec fn user_entry(u: UserSpec) -> Seq<u8> {
    u.name.push(0u8) + le32(u.ping) + seq![u.player_status] + le16(u.user_id) + seq![u.connect_type]
}

/// The lines of every user but the one at `exclude`, in the order they are
/// held.
pub open spec fn user_entries(users: Seq<UserSpec>, exclude: u64) -> Seq<u8>
    decreases users.len(),
{
    if users.len() == 0 {
        Seq::empty()
    } else {
        let prev = user_entries(users.drop_last(), exclude);
        if users.last().ip_addr == exclude {
            prev
        } else {
            prev + user_entry(users.last())
        }
    }
}

/// One room's line of the server status: game name, id, emulator, creator,
/// "taken/4" and status.
pub open spec fn room_entry(r: RoomSpec) -> Seq<u8> {
    encode_utf8(r.game_name).push(0u8) + le32(r.game_id) + encode_utf8(r.emul_name).push(0u8) + encode_utf8(
        r.creator_id,
    ).push(0u8) + decimal_digits(seats_taken(r.players)) + seq![47u8, 52u8, 0u8] + seq![r.game_status]
}

/// The lines of every room, in the order they were opened.
pub open spec fn room_entries(rooms: Seq<RoomSpec>) -> Seq<u8>
    decreases rooms.len(),
{
    if rooms.len() == 0 {
        Seq::empty()
    } else {
        room_entries(rooms.drop_last()) + room_entry(rooms.last())
    }
}

/// The server status sent to the user at `exclude`: the number of other
/// users, the number of rooms, the other users' lines and the rooms' lines.
pub open spec fn server_status_body(st: UserRoomSpec, exclude: u64) -> Seq<u8> {
    seq![0u8] + le32((st.users.len() - 1) as u32) + le32(st.rooms.len() as u32) + user_entries(
        st.users,
        exclude,
    ) + room_entries(st.rooms)
}

/// What the server status may not meet: no user at all, or more users or
/// rooms than a count field holds.
pub open spec fn status_ok(st: UserRoomSpec) -> bool {
    1 <= st.users.len() <= u32::MAX && st.rooms.len() <= u32::MAX
}

impl UserRoom {
    /// The server status for the user at `exclude` (see
    /// `server_status_body`).
    pub fn server_status(&self, exclude: u64) -> (r: Vec<u8>)
        requires
            status_ok(self@),
        ensures
            r@ == server_status_body(self@, exclude),
    {
        let ghost us = self@.users;
        let ghost rs = self@.rooms;
        let mut data: Vec<u8> = Vec::new();
        data.push(0u8);
        let nu = (self.users.len() - 1) as u32;
        let nr = self.rooms.len() as u32;
        crate::kaillera::protocol::extend_bytes(&mut data, crate::kaillera::protocol::u32_le_bytes(nu).as_slice());
        crate::kaillera::protocol::extend_bytes(&mut data, crate::kaillera::protocol::u32_le_bytes(nr).as_slice());
        let ghost head = data@;
        assert(head =~= seq![0u8] + le32((us.len() - 1) as u32) + le32(rs.len() as u32));
        let mut i: usize = 0;
        while i < self.users.len()
            invariant
                i <= self.users@.len(),
                us == self@.users,
                data@ == head + user_entries(us.take(i as int), exclude),
            decreases self.users@.len() - i,
        {
            assert(us.take(i + 1).drop_last() =~= us.take(i as int));
            assert(us.take(i + 1).last() == us[i as int]);
            let u = &self.users[i];
            if u.ip_addr != exclude {
                let ghost before = data@;
                crate::kaillera::protocol::extend_bytes(&mut data, u.name.as_slice());
                data.push(0u8);
                crate::kaillera::protocol::extend_bytes(&mut data, crate::kaillera::protocol::u32_le_bytes(u.ping).as_slice());
                data.push(u.player_status);
                crate::kaillera::protocol::extend_bytes(&mut data, crate::kaillera::protocol::u16_le_bytes(u.user_id).as_slice());
                data.push(u.connect_type);
                assert(data@ =~= before + user_entry(us[i as int]));
            }
            i = i + 1;
        }
        assert(us.take(i as int) =~= us);
        let ghost mid = data@;
        let mut k: usize = 0;
        while k < self.rooms.len()
            invariant
                k <= self.rooms@.len(),
                rs == self@.rooms,
                data@ == mid + room_entries(rs.take(k as int)),
            decreases self.rooms@.len() - k,
        {
            assert(rs.take(k + 1).drop_last() =~= rs.take(k as int));
            assert(rs.take(k + 1).last() == rs[k as int]);
            let r: &Room = &self.rooms[k];
            let ghost before = data@;
            crate::kaillera::protocol::extend_bytes(&mut data, r.game_name.as_str().as_bytes());
            data.push(0u8);
            crate::kaillera::protocol::extend_bytes(&mut data, crate::kaillera::protocol::u32_le_bytes(r.game_id).as_slice());
            crate::kaillera::protocol::extend_bytes(&mut data, r.emul_name.as_str().as_bytes());
            data.push(0u8);
            crate::kaillera::protocol::extend_bytes(&mut data, r.creator_id.as_str().as_bytes());
            data.push(0u8);
            let taken = r.player_some_count();
            push_decimal(&mut data, taken);
            data.push(47u8);
            data.push(52u8);
            data.push(0u8);
            data.push(r.game_status);
            assert(data@ =~= before + room_entry(rs[k as int]));
            k = k + 1;
        }
        assert(rs.take(k as int) =~= rs);
        data
    }
}

/// Whether a user is at an address other than `exclude`.
pub open spec fn not_user_at(exclude: u64) -> spec_fn(UserSpec) -> bool {
    |u: UserSpec| u.ip_addr != exclude
}

proof fn lemma_user_entries_filter(users: Seq<UserSpec>, exclude: u64)
    ensures
        user_entries(users, exclude) == users.filter(not_user_at(exclude)).map_values(|u: UserSpec| user_entry(u)).flatten(),
    decreases users.len(),
{
    reveal_with_fuel(Seq::filter, 2);
    if users.len() > 0 {
        lemma_user_entries_filter(users.drop_last(), exclude);
        let f = |u: UserSpec| user_entry(u);
        let prev = users.drop_last().filter(not_user_at(exclude));
        if users.last().ip_addr != exclude {
            assert(prev.push(users.last()).map_values(f) =~= prev.map_values(f).push(user_entry(users.last())));
            prev.map_values(f).lemma_flatten_push(user_entry(users.last()));
        }
    }
}

proof fn lemma_users_filter_len(users: Seq<UserSpec>, exclude: u64, i: int)
    requires
        forall|x: int, y: int| 0 <= x < y < users.len() ==> users[x].ip_addr != users[y].ip_addr,
        0 <= i < users.len(),
        users[i].ip_addr == exclude,
    ensures
        users.filter(not_user_at(exclude)).len() + 1 == users.len(),
    decreases users.len(),
{
    reveal_with_fuel(Seq::filter, 2);
    let front = users.drop_last();
    if i == users.len() - 1 {
        assert(front.filter(not_user_at(exclude)) =~= front) by {
            lemma_filter_all(front, exclude);
            assert forall|x: int| 0 <= x < front.len() implies front[x].ip_addr != exclude by {
                assert(front[x] == users[x]);
            }
        }
    } else {
        assert(front[i] == users[i]);
        lemma_users_filter_len(front, exclude, i);
    }
}

proof fn lemma_filter_all(users: Seq<UserSpec>, exclude: u64)
    requires
        forall|x: int| 0 <= x < users.len() ==> users[x].ip_addr != exclude,
    ensures
        users.filter(not_user_at(exclude)) == users,
    decreases users.len(),
{
    reveal_with_fuel(Seq::filter, 2);
    if users.len() > 0 {
        let front = users.drop_last();
        assert forall|x: int| 0 <= x < front.len() implies front[x].ip_addr != exclude by {
            assert(front[x] == users[x]);
        }
        lemma_filter_all(front, exclude);
        assert(front.push(users.last()) =~= users);
    }
}

/// The server status for the user at `exclude` lists exactly the other
/// users: the user count (bytes 1 to 4) is their number, the room count
/// (bytes 5 to 8) the number of rooms, and then come one line per other
/// user, in the order they are held, and one line per room.
pub proof fn law_status_lists_other_users(st: UserRoomSpec, exclude: u64, i: int)
    requires
        user_room_wf(st),
        status_ok(st),
        0 <= i < st.users.len(),
        st.users[i].ip_addr == exclude,
    ensures
        ({
            let d = server_status_body(st, exclude);
            let others = st.users.filter(not_user_at(exclude));
            let lines = others.map_values(|u: UserSpec| user_entry(u)).flatten();
            &&& d[0] == 0u8
            &&& crate::handlers::util::read_le32(d, 1) == others.len()
            &&& crate::handlers::util::read_le32(d, 5) == st.rooms.len()
            &&& d.subrange(9, 9 + lines.len() as int) == lines
            &&& d.subrange(9 + lines.len() as int, d.len() as int) == room_entries(st.rooms)
            &&& forall|k: int| 0 <= k < others.len() ==> (#[trigger] others[k]).ip_addr != exclude
        }),
{
    let d = server_status_body(st, exclude);
    let others = st.users.filter(not_user_at(exclude));
    let lines = others.map_values(|u: UserSpec| user_entry(u)).flatten();
    lemma_user_entries_filter(st.users, exclude);
    lemma_users_filter_len(st.users, exclude, i);
    let nu = (st.users.len() - 1) as u32;
    let nr = st.rooms.len() as u32;
    crate::handlers::util::lemma_le32_reads_back(nu);
    crate::handlers::util::lemma_le32_reads_back(nr);
    let a = le32(nu);
    let b = le32(nr);
    assert(d =~= seq![0u8] + a + b + lines + room_entries(st.rooms));
    assert(d[1] == a[0] && d[2] == a[1] && d[3] == a[2] && d[4] == a[3]);
    assert(d[5] == b[0] && d[6] == b[1] && d[7] == b[2] && d[8] == b[3]);
    assert(d.subrange(9, 9 + lines.len() as int) =~= lines);
    assert(d.subrange(9 + lines.len() as int, d.len() as int) =~= room_entries(st.rooms));
    assert forall|k: int| 0 <= k < others.len() implies (#[trigger] others[k]).ip_addr != exclude by {
        st.users.lemma_filter_pred(not_user_at(exclude), k);
    }
}

/// A message framed for sending: its header (with the length recomputed
/// from the data) and its data.
pub open spec fn packet_of(m: MessageSpec) -> Seq<u8> {
    header_bytes(m.number, length_field(m.data.len()), m.kind) + m.data
}

/// The last `k` messages of `ps`, newest first, framed one after another.
pub open spec fn newest_packets(ps: Seq<MessageSpec>, k: int) -> Seq<u8>
    decreases k,
{
    if k <= 0 {
        Seq::empty()
    } else {
        newest_packets(ps, k - 1) + packet_of(ps[ps.len() - k])
    }
}

/// Whether every message of `ps` has a data length the length field can
/// announce.
pub open spec fn framable(ps: Seq<MessageSpec>) -> bool {
    forall|i: int| 0 <= i < ps.len() ==> (#[trigger] ps[i]).data.len() % 65536 != 65535
}

/// `u` after framing `p`: `p` joins the framed messages with the next
/// sequence number, which then advances (wrapping); the datagram holds the
/// count of the newest messages resent, at most 3, then those messages,
/// newest first.
pub open spec fn send_spec(u: UserSpec, p: MessageSpec) -> (UserSpec, Seq<u8>) {
    let ps = u.out_packets.push(MessageSpec { number: u.send_count, ..p });
    let k = if ps.len() < 3 {
        ps.len() as int
    } else {
        3
    };
    (
        UserSpec { out_packets: ps, send_count: (if u.send_count == u16::MAX { 0 } else { u.send_count + 1 }) as u16, ..u },
        seq![k as u8] + newest_packets(ps, k),
    )
}

impl User {
    /// Frames `p` for this user (see `send_spec`); the datagram to send.
    pub fn make_send_packet(&mut self, p: Protocol) -> (r: Result<Vec<u8>, ProtocolError>)
        requires
            framable(old(self)@.out_packets),
            p@.data.len() % 65536 != 65535,
        ensures
            framable(final(self)@.out_packets),
            r matches Ok(v) && (final(self)@, v@) == send_spec(old(self)@, p@),
    {
        let ghost u0 = self@;
        let mut p = p;
        p.header.seq = self.send_count;
        self.out_packets.push(p);
        let ghost ps = u0.out_packets.push(MessageSpec { number: u0.send_count, ..p@ });
        assert(crate::protocol::protocols_view(self.out_packets@) =~= ps);
        assert forall|j: int| 0 <= j < ps.len() implies (#[trigger] ps[j]).data.len() % 65536 != 65535 by {
            if j < u0.out_packets.len() {
                assert(ps[j] == u0.out_packets[j]);
            }
        }
        let len = self.out_packets.len();
        let extra: usize = if len < 3 {
            len
        } else {
            3
        };
        let mut packet: Vec<u8> = Vec::new();
        packet.push(extra as u8);
        let mut i: usize = 0;
        while i < extra
            invariant
                i <= extra,
                extra <= len,
                len == self.out_packets@.len(),
                crate::protocol::protocols_view(self.out_packets@) == ps,
                framable(ps),
                packet@ == seq![extra as u8] + newest_packets(ps, i as int),
            decreases extra - i,
        {
            let q = &self.out_packets[len - 1 - i];
            assert(q@ == ps[len - 1 - i]);
            assert(ps[len - 1 - i].data.len() % 65536 != 65535);
            let b = q.make_packet()?;
            crate::kaillera::protocol::extend_bytes(&mut packet, b.as_slice());
            assert(packet@ =~= seq![extra as u8] + newest_packets(ps, i + 1));
            i = i + 1;
        }
        self.send_count = self.send_count.wrapping_add(1);
        Ok(packet)
    }
}


/// The first null byte of `s` at or after `i`, or the length.
pub open spec fn null_from(s: Seq<u8>, i: int) -> int
    decreases s.len() - i,
{
    if i >= s.len() {
        s.len() as int
    } else if i >= 0 && s[i] == 0 {
        i
    } else {
        null_from(s, i + 1)
    }
}

proof fn lemma_null_from(s: Seq<u8>, i: int)
    requires
        0 <= i,
    ensures
        i <= null_from(s, i) <= s.len() || (i > s.len() && null_from(s, i) == s.len()),
        null_from(s, i) < s.len() ==> s[null_from(s, i)] == 0,
        forall|j: int| i <= j < null_from(s, i) ==> s[j] != 0,
    decreases s.len() - i,
{
    if i < s.len() && s[i] != 0 {
        lemma_null_from(s, i + 1);
    }
}

/// Position of the first null byte at or after `from`, or the length.
fn find_null(buf: &[u8], from: usize) -> (e: usize)
    requires
        from <= buf@.len(),
    ensures
        e == null_from(buf@, from as int),
        from <= e <= buf@.len(),
{
    let mut i = from;
    while i < buf.len()
        invariant
            from <= i <= buf@.len(),
            null_from(buf@, from as int) == null_from(buf@, i as int),
        decreases buf@.len() - i,
    {
        if buf[i] == 0 {
            return i;
        }
        i = i + 1;
    }
    i
}

/// The acknowledgement request body: a zero byte and the numbers 0, 1, 2
/// and 3.
pub open spec fn ack_body() -> Seq<u8> {
    seq![0u8] + le32(0) + le32(1) + le32(2) + le32(3)
}

fn ack_bytes() -> (v: Vec<u8>)
    ensures
        v@ == ack_body(),
{
    match AckProtocol::new().to_bytes() {
        Ok(v) => v,
        Err(_) => Vec::new(),
    }
}

/// What a login may not hold: a third null-separated field that is empty
/// (its first byte is the connection type).
pub open spec fn login_ok(st: UserRoomSpec, buf: Seq<u8>, user: u64) -> bool {
    let n0 = null_from(buf, 0);
    let n1 = null_from(buf, n0 + 1);
    user_pos(st.users, user) >= 0 && n0 < buf.len() && n1 < buf.len() ==> n1 + 1 < buf.len() && buf[n1 + 1]
        != 0
}

/// A login `buf` of the user at `user`, at time `now`: the null-separated
/// name, emulator name and connection type (a `NotFound` when a field is
/// missing); the user takes them, is asked to acknowledge, and the request
/// time is kept.
pub open spec fn login_spec(st: UserRoomSpec, out: Sent, buf: Seq<u8>, user: u64, now: u64) -> (
    UserRoomSpec,
    Sent,
    Result<(), ServiceErrorSpec>,
) {
    let ui = user_pos(st.users, user);
    let n0 = null_from(buf, 0);
    let n1 = null_from(buf, n0 + 1);
    if ui < 0 || n0 >= buf.len() || n1 >= buf.len() {
        (st, out, failed(KailleraErrorSpec::NotFound))
    } else {
        let u = st.users[ui];
        let u1 = UserSpec {
            name: buf.subrange(0, n0),
            emul_name: utf8_lossy(buf.subrange(n0 + 1, n1)),
            connect_type: buf[n1 + 1],
            s2c_ack_time: now,
            ..u
        };
        (with_user(st, ui, u1), out.push((user, S2C_ACK, ack_body())), Ok(()))
    }
}

/// Handles a login of the user at `user` at time `now` (see `login_spec`).
pub fn user_login_step(rooms: &mut UserRoom, out: &mut Vec<Message>, buf: &[u8], user: u64, now: u64) -> (r:
    Result<(), ServiceError>)
    requires
        old(rooms).wf(),
        login_ok(old(rooms)@, buf@, user),
    ensures
        final(rooms).wf(),
        (final(rooms)@, messages_view(final(out)@), step_view(r)) == login_spec(old(rooms)@, messages_view(old(out)@), buf@, user, now),
{
    let ghost st = rooms@;
    proof {
        lemma_user_pos(st.users, user);
        lemma_null_from(buf@, 0);
    }
    let ui = match rooms.find_user(user) {
        Some(i) => i,
        None => {
            return Err(not_found());
        },
    };
    let n0 = find_null(buf, 0);
    if n0 >= buf.len() {
        return Err(not_found());
    }
    proof {
        lemma_null_from(buf@, n0 + 1);
    }
    let n1 = find_null(buf, n0 + 1);
    if n1 >= buf.len() {
        return Err(not_found());
    }
    let name = vstd::slice::slice_to_vec(vstd::slice::slice_subrange(buf, 0, n0));
    let emul = from_utf8_lossy(vstd::slice::slice_subrange(buf, n0 + 1, n1));
    let conn = buf[n1 + 1];
    let ghost u = st.users[ui as int];
    let ghost u1 = UserSpec {
        name: buf@.subrange(0, n0 as int),
        emul_name: utf8_lossy(buf@.subrange(n0 + 1, n1 as int)),
        connect_type: buf@[n1 + 1],
        s2c_ack_time: now,
        ..u
    };
    rooms.users[ui].name = name;
    rooms.users[ui].emul_name = emul;
    rooms.users[ui].connect_type = conn;
    rooms.users[ui].s2c_ack_time = now;
    assert(rooms@.users =~= st.users.update(ui as int, u1));
    proof {
        lemma_with_user_wf(st, ui as int, u1);
    }
    push_message(out, user, S2C_ACK, ack_bytes());
    Ok(())
}

proof fn lemma_remove_user_wf(st: UserRoomSpec, j: int)
    requires
        user_room_wf(st),
        0 <= j < st.users.len(),
    ensures
        user_room_wf(UserRoomSpec { users: st.users.remove(j), ..st }),
{
    let r = st.users.remove(j);
    assert forall|x: int, y: int| 0 <= x < y < r.len() implies r[x].ip_addr != r[y].ip_addr by {
        let x0 = if x < j { x } else { x + 1 };
        let y0 = if y < j { y } else { y + 1 };
        assert(r[x] == st.users[x0]);
        assert(r[y] == st.users[y0]);
    }
}

/// The user at `a` leaves with `message`: it quits its room as
/// `quit_spec` says, whatever that gives; every user, itself included,
/// hears who left (name, id and message), and the user is no longer held.
pub open spec fn leave_spec(st: UserRoomSpec, out: Sent, a: u64, message: Seq<u8>) -> (
    UserRoomSpec,
    Sent,
    Result<(), ServiceErrorSpec>,
) {
    let q = quit_spec(st, out, a);
    let j = user_pos(q.0.users, a);
    if j < 0 {
        (q.0, q.1, failed(KailleraErrorSpec::NotFound))
    } else {
        let u = q.0.users[j];
        let body = u.name.push(0u8) + le16(u.user_id) + message.push(0u8);
        (UserRoomSpec { users: q.0.users.remove(j), ..q.0 }, q.1 + to_all(q.0.users, USER_QUIT, body), Ok(()))
    }
}

/// The user at `a` leaves with `message` (see `leave_spec`).
fn leave_exec(rooms: &mut UserRoom, out: &mut Vec<Message>, a: u64, message: &[u8]) -> (r: Result<(), ServiceError>)
    requires
        old(rooms).wf(),
    ensures
        final(rooms).wf(),
        (final(rooms)@, messages_view(final(out)@), step_view(r)) == leave_spec(old(rooms)@, messages_view(old(out)@), a, message@),
{
    let _ = quit_game_step(rooms, out, a);
    let ghost st1 = rooms@;
    proof {
        lemma_user_pos(st1.users, a);
    }
    let j = match rooms.find_user(a) {
        Some(j) => j,
        None => {
            return Err(not_found());
        },
    };
    let mut body = copy_vec(&rooms.users[j].name);
    body.push(0u8);
    crate::kaillera::protocol::extend_bytes(&mut body, crate::kaillera::protocol::u16_le_bytes(rooms.users[j].user_id).as_slice());
    crate::kaillera::protocol::extend_bytes(&mut body, message);
    body.push(0u8);
    assert(body@ =~= st1.users[j as int].name.push(0u8) + le16(st1.users[j as int].user_id) + message@.push(0u8));
    send_to_all(&rooms.users, out, USER_QUIT, &body);
    let _ = rooms.users.remove(j);
    assert(rooms@.users =~= st1.users.remove(j as int));
    proof {
        lemma_remove_user_wf(st1, j as int);
    }
    Ok(())
}

/// A quit of the user at `user` whose body is `buf`: the user leaves with
/// the message after the first three bytes.
pub open spec fn user_quit_spec(st: UserRoomSpec, out: Sent, buf: Seq<u8>, user: u64) -> (
    UserRoomSpec,
    Sent,
    Result<(), ServiceErrorSpec>,
) {
    if user_pos(st.users, user) < 0 {
        (st, out, failed(KailleraErrorSpec::NotFound))
    } else {
        leave_spec(st, out, user, buf.skip(3))
    }
}

/// Handles a quit of the user at `user` (see `user_quit_spec`).
pub fn user_quit_step(rooms: &mut UserRoom, out: &mut Vec<Message>, buf: &[u8], user: u64) -> (r: Result<(), ServiceError>)
    requires
        old(rooms).wf(),
        buf@.len() >= 3,
    ensures
        final(rooms).wf(),
        (final(rooms)@, messages_view(final(out)@), step_view(r)) == user_quit_spec(old(rooms)@, messages_view(old(out)@), buf@, user),
{
    if rooms.find_user(user).is_none() {
        return Err(not_found());
    }
    leave_exec(rooms, out, user, vstd::slice::slice_subrange(buf, 3, buf.len()))
}

/// Whether `u` was last heard from more than 240 seconds before `now`.
pub open spec fn timed_out(u: UserSpec, now: u64) -> bool {
    now > u.keepalive_time + 240000
}

/// The addresses of the users that timed out, in the order they are held.
pub open spec fn timed_out_addrs(users: Seq<UserSpec>, now: u64) -> Seq<u64>
    decreases users.len(),
{
    if users.len() == 0 {
        Seq::empty()
    } else {
        let prev = timed_out_addrs(users.drop_last(), now);
        if timed_out(users.last(), now) {
            prev.push(users.last().ip_addr)
        } else {
            prev
        }
    }
}

/// The users at `addrs` leave in turn with "time out", stopping at the
/// first failure.
pub open spec fn leave_all(st: UserRoomSpec, out: Sent, addrs: Seq<u64>) -> (
    UserRoomSpec,
    Sent,
    Result<(), ServiceErrorSpec>,
)
    decreases addrs.len(),
{
    if addrs.len() == 0 {
        (st, out, Ok(()))
    } else {
        let p = leave_all(st, out, addrs.drop_last());
        if p.2 is Err {
            p
        } else {
            leave_spec(p.0, p.1, addrs.last(), "time out".spec_bytes())
        }
    }
}

/// The keepalive sweep at `now`: every user that timed out leaves.
pub open spec fn keepalive_spec(st: UserRoomSpec, out: Sent, now: u64) -> (
    UserRoomSpec,
    Sent,
    Result<(), ServiceErrorSpec>,
) {
    leave_all(st, out, timed_out_addrs(st.users, now))
}

/// Runs the keepalive sweep at `now` (see `keepalive_spec`).
pub fn keepalive_step(rooms: &mut UserRoom, out: &mut Vec<Message>, now: u64) -> (r: Result<(), ServiceError>)
    requires
        old(rooms).wf(),
    ensures
        final(rooms).wf(),
        (final(rooms)@, messages_view(final(out)@), step_view(r)) == keepalive_spec(old(rooms)@, messages_view(old(out)@), now),
{
    let ghost st = rooms@;
    let ghost out0 = messages_view(out@);
    let mut addrs: Vec<u64> = Vec::new();
    let mut i: usize = 0;
    while i < rooms.users.len()
        invariant
            i <= rooms@.users.len(),
            rooms@ == st,
            addrs@ == timed_out_addrs(st.users.take(i as int), now),
        decreases rooms@.users.len() - i,
    {
        assert(st.users.take(i + 1).drop_last() =~= st.users.take(i as int));
        assert(st.users.take(i + 1).last() == st.users[i as int]);
        let kt = rooms.users[i].keepalive_time;
        if now > kt && now - kt > 240000 {
            addrs.push(rooms.users[i].ip_addr);
        }
        i = i + 1;
    }
    assert(st.users.take(i as int) =~= st.users);
    let message: &str = "time out";
    let mut k: usize = 0;
    while k < addrs.len()
        invariant
            k <= addrs@.len(),
            rooms.wf(),
            (rooms@, messages_view(out@), Ok::<(), ServiceErrorSpec>(())) == leave_all(st, out0, addrs@.take(k as int)),
            message.spec_bytes() == "time out".spec_bytes(),
            st == old(rooms)@,
            out0 == messages_view(old(out)@),
            addrs@ == timed_out_addrs(st.users, now),
        decreases addrs@.len() - k,
    {
        assert(addrs@.take(k + 1).drop_last() =~= addrs@.take(k as int));
        assert(addrs@.take(k + 1).last() == addrs@[k as int]);
        let r = leave_exec(rooms, out, addrs[k], message.as_bytes());
        if r.is_err() {
            proof {
                lemma_leave_all_err(st, out0, addrs@, k + 1);
            }
            return r;
        }
        k = k + 1;
    }
    assert(addrs@.take(k as int) =~= addrs@);
    Ok(())
}

proof fn lemma_leave_all_err(st: UserRoomSpec, out: Sent, addrs: Seq<u64>, k: int)
    requires
        0 <= k <= addrs.len(),
        leave_all(st, out, addrs.take(k)).2 is Err,
    ensures
        leave_all(st, out, addrs) == leave_all(st, out, addrs.take(k)),
    decreases addrs.len() - k,
{
    if k < addrs.len() {
        assert(addrs.take(k + 1).drop_last() =~= addrs.take(k));
        lemma_leave_all_err(st, out, addrs, k + 1);
    } else {
        assert(addrs.take(k) =~= addrs);
    }
}


/// The first newline byte of `s` at or after `i`, or the length.
pub open spec fn newline_from(s: Seq<u8>, i: int) -> int
    decreases s.len() - i,
{
    if i >= s.len() {
        s.len() as int
    } else if i >= 0 && s[i] == 10 {
        i
    } else {
        newline_from(s, i + 1)
    }
}

/// The nonempty lines of `s` from position `i` on, in order.
pub open spec fn lines_from(s: Seq<u8>, i: int) -> Seq<Seq<u8>>
    decreases s.len() + 1 - i,
{
    if i < 0 || i >= s.len() {
        Seq::empty()
    } else {
        let e = newline_from(s, i);
        if e < i || e > s.len() {
            Seq::empty()
        } else if e > i {
            seq![s.subrange(i, e)] + lines_from(s, e + 1)
        } else {
            lines_from(s, e + 1)
        }
    }
}

proof fn lemma_newline_from(s: Seq<u8>, i: int)
    requires
        0 <= i < s.len(),
    ensures
        i <= newline_from(s, i) <= s.len(),
        newline_from(s, i) < s.len() ==> s[newline_from(s, i)] == 10,
    decreases s.len() - i,
{
    if s[i] != 10 {
        if i + 1 < s.len() {
            lemma_newline_from(s, i + 1);
        } else {
            assert(newline_from(s, i + 1) == s.len());
        }
    }
}

/// The nonempty lines of `s`, each as owned bytes.
fn lines_exec(s: &[u8]) -> (v: Vec<Vec<u8>>)
    ensures
        v@.map_values(|l: Vec<u8>| l@) == lines_from(s@, 0),
{
    let mut v: Vec<Vec<u8>> = Vec::new();
    let mut i: usize = 0;
    while i < s.len()
        invariant
            i <= s@.len(),
            v@.map_values(|l: Vec<u8>| l@) + lines_from(s@, i as int) == lines_from(s@, 0),
        decreases s@.len() - i,
    {
        proof {
            lemma_newline_from(s@, i as int);
        }
        let mut e = i;
        while e < s.len() && s[e] != 10
            invariant
                i <= e <= s@.len(),
                newline_from(s@, i as int) == newline_from(s@, e as int),
            decreases s@.len() - e,
        {
            e = e + 1;
        }
        let ghost before = v@.map_values(|l: Vec<u8>| l@);
        if e > i {
            let piece = vstd::slice::slice_to_vec(vstd::slice::slice_subrange(s, i, e));
            v.push(piece);
            assert(v@.map_values(|l: Vec<u8>| l@) =~= before.push(s@.subrange(i as int, e as int)));
            assert(before + lines_from(s@, i as int) =~= v@.map_values(|l: Vec<u8>| l@) + lines_from(s@, e + 1));
        }
        if e < s.len() {
            i = e + 1;
        } else {
            assert(lines_from(s@, e + 1) =~= Seq::<Seq<u8>>::empty());
            i = e;
        }
    }
    assert(lines_from(s@, i as int) =~= Seq::<Seq<u8>>::empty());
    assert(v@.map_values(|l: Vec<u8>| l@) + Seq::<Seq<u8>>::empty() =~= v@.map_values(|l: Vec<u8>| l@));
    v
}

/// Each line, as a chat line of `name`, to the user at `a`.
pub open spec fn lines_to(a: u64, name: Seq<u8>, lines: Seq<Seq<u8>>) -> Sent {
    lines.map_values(|l: Seq<u8>| (a, GLOBAL_CHAT, name.push(0u8) + l.push(0u8)))
}

/// Every line to every user, user by user.
pub open spec fn lines_to_all(users: Seq<UserSpec>, name: Seq<u8>, lines: Seq<Seq<u8>>) -> Sent
    decreases users.len(),
{
    if users.len() == 0 {
        Seq::empty()
    } else {
        lines_to_all(users.drop_last(), name, lines) + lines_to(users.last().ip_addr, name, lines)
    }
}

/// A lobby chat `buf` of the user at `user`: every user hears the message
/// after the first byte under the user's name. A message that reads "ts"
/// and a null byte also sends every user each nonempty line of `text`, the
/// server's state, under the user's name.
pub open spec fn global_chat_spec(st: UserRoomSpec, out: Sent, buf: Seq<u8>, user: u64, text: Seq<char>) -> (
    UserRoomSpec,
    Sent,
    Result<(), ServiceErrorSpec>,
) {
    let ui = user_pos(st.users, user);
    if ui < 0 {
        (st, out, failed(KailleraErrorSpec::NotFound))
    } else {
        let name = st.users[ui].name;
        let message = buf.skip(1);
        let out1 = out + to_all(st.users, GLOBAL_CHAT, name.push(0u8) + message.push(0u8));
        if utf8_lossy(message) == "ts\0"@ {
            (st, out1 + lines_to_all(st.users, name, lines_from(encode_utf8(text), 0)), Ok(()))
        } else {
            (st, out1, Ok(()))
        }
    }
}

/// Handles a lobby chat of the user at `user`; `text` is the server's state
/// as text (see `global_chat_spec`).
pub fn global_chat_step(rooms: &UserRoom, out: &mut Vec<Message>, buf: &[u8], user: u64, text: &str) -> (r: Result<(), ServiceError>)
    requires
        buf@.len() >= 1,
    ensures
        (rooms@, messages_view(final(out)@), step_view(r)) == global_chat_spec(rooms@, messages_view(old(out)@), buf@, user, text@),
{
    let ghost out0 = messages_view(out@);
    let ui = match rooms.find_user(user) {
        Some(i) => i,
        None => {
            return Err(not_found());
        },
    };
    let message = vstd::slice::slice_subrange(buf, 1, buf.len());
    let name = copy_vec(&rooms.users[ui].name);
    let mut data = copy_vec(&name);
    data.push(0u8);
    crate::kaillera::protocol::extend_bytes(&mut data, message);
    data.push(0u8);
    assert(data@ =~= name@.push(0u8) + message@.push(0u8));
    send_to_all(&rooms.users, out, GLOBAL_CHAT, &data);
    let said = from_utf8_lossy(message);
    let ts = String::from_str("ts\0");
    if said == ts {
        let lines = lines_exec(text.as_bytes());
        let ghost ls = lines@.map_values(|l: Vec<u8>| l@);
        let ghost us = rooms@.users;
        let ghost start = messages_view(out@);
        let mut i: usize = 0;
        while i < rooms.users.len()
            invariant
                i <= us.len(),
                us == rooms@.users,
                ls == lines@.map_values(|l: Vec<u8>| l@),
                messages_view(out@) == start + lines_to_all(us.take(i as int), name@, ls),
            decreases us.len() - i,
        {
            assert(us.take(i + 1).drop_last() =~= us.take(i as int));
            let a = rooms.users[i].ip_addr;
            let ghost mid = messages_view(out@);
            let mut j: usize = 0;
            while j < lines.len()
                invariant
                    j <= ls.len(),
                    ls == lines@.map_values(|l: Vec<u8>| l@),
                    messages_view(out@) == mid + lines_to(a, name@, ls.take(j as int)),
                decreases ls.len() - j,
            {
                let mut body = copy_vec(&name);
                body.push(0u8);
                crate::kaillera::protocol::extend_bytes(&mut body, lines[j].as_slice());
                body.push(0u8);
                assert(body@ =~= name@.push(0u8) + ls[j as int].push(0u8));
                push_message(out, a, GLOBAL_CHAT, body);
                assert(lines_to(a, name@, ls.take(j + 1)) =~= lines_to(a, name@, ls.take(j as int)).push(
                    (a, GLOBAL_CHAT, name@.push(0u8) + ls[j as int].push(0u8)),
                ));
                j = j + 1;
            }
            assert(ls.take(j as int) =~= ls);
            assert(us.take(i + 1).last().ip_addr == a);
            i = i + 1;
        }
        assert(us.take(i as int) =~= us);
        proof {
            reveal_strlit("ts\0");
        }
    }
    Ok(())
}

/// A room chat `buf` of the user at `user`: the message after the first
/// byte, under the user's name, goes to every seat of the user's room whose
/// user is held, stopping at the first that is not (`NotFound`). The
/// messages "/samedelay true" and "/samedelay false" (with a null byte) set
/// the room's same-delay mode first.
pub open spec fn game_chat_spec(st: UserRoomSpec, out: Sent, buf: Seq<u8>, user: u64) -> (
    UserRoomSpec,
    Sent,
    Result<(), ServiceErrorSpec>,
) {
    match locate(st, user) {
        Err(_) => (st, out, failed(KailleraErrorSpec::NotFound)),
        Ok((ui, gid, ri)) => {
            let room = st.rooms[ri];
            let content = buf.skip(1);
            let same = if content == "/samedelay true\0".spec_bytes() {
                true
            } else if content == "/samedelay false\0".spec_bytes() {
                false
            } else {
                room.same_delay
            };
            let st1 = with_room(st, ri, RoomSpec { same_delay: same, ..room });
            let s = to_held_seats(st.users, room.players, GAME_CHAT, st.users[ui].name.push(0u8) + content.push(0u8));
            (st1, out + s.0, if s.1 { Ok(()) } else { failed(KailleraErrorSpec::NotFound) })
        },
    }
}

/// Handles a room chat of the user at `user` (see `game_chat_spec`).
pub fn game_chat_step(rooms: &mut UserRoom, out: &mut Vec<Message>, buf: &[u8], user: u64) -> (r: Result<(), ServiceError>)
    requires
        old(rooms).wf(),
        buf@.len() >= 1,
    ensures
        final(rooms).wf(),
        (final(rooms)@, messages_view(final(out)@), step_view(r)) == game_chat_spec(old(rooms)@, messages_view(old(out)@), buf@, user),
{
    let ghost st = rooms@;
    let (ui, gid, ri) = match locate_exec(rooms, user) {
        Ok(x) => x,
        Err(_) => {
            return Err(not_found());
        },
    };
    let players = copy_seats(&rooms.rooms[ri].players);
    let content = vstd::slice::slice_subrange(buf, 1, buf.len());
    let mut data = copy_vec(&rooms.users[ui].name);
    data.push(0u8);
    crate::kaillera::protocol::extend_bytes(&mut data, content);
    data.push(0u8);
    assert(data@ =~= st.users[ui as int].name.push(0u8) + content@.push(0u8));
    let ghost room = st.rooms[ri as int];
    if crate::sync_core::bytes_equal(content, "/samedelay true\0".as_bytes()) {
        rooms.rooms[ri].same_delay = true;
    } else if crate::sync_core::bytes_equal(content, "/samedelay false\0".as_bytes()) {
        rooms.rooms[ri].same_delay = false;
    }
    let ghost same = rooms@.rooms[ri as int].same_delay;
    assert(rooms@.rooms =~= st.rooms.update(ri as int, RoomSpec { same_delay: same, ..room }));
    proof {
        lemma_with_room_wf(st, ri as int, RoomSpec { same_delay: same, ..room });
    }
    if !send_to_held_seats(rooms, &players, out, GAME_CHAT, &data) {
        return Err(not_found());
    }
    Ok(())
}


/// The sum of `p`.
pub open spec fn seq_sum(p: Seq<i32>) -> int
    decreases p.len(),
{
    if p.len() == 0 {
        0
    } else {
        seq_sum(p.drop_last()) + p.last()
    }
}

/// Whether every running sum of `p` is an `i32`.
pub open spec fn sums_fit(p: Seq<i32>) -> bool {
    forall|k: int| 0 <= k <= p.len() ==> i32::MIN <= #[trigger] seq_sum(p.take(k)) <= i32::MAX
}

/// The average of the measured pings, rounded down, and 0 when the sum is
/// not positive.
pub open spec fn average_ping(p: Seq<i32>) -> u32 {
    if seq_sum(p) <= 0 || p.len() == 0 {
        0
    } else {
        (seq_sum(p) / (p.len() as int)) as u32
    }
}

/// Milliseconds from the last acknowledgement request of `u` to `now`,
/// and 0 when `now` is earlier.
pub open spec fn elapsed_ms(u: UserSpec, now: u64) -> u64 {
    if now >= u.s2c_ack_time {
        (now - u.s2c_ack_time) as u64
    } else {
        0
    }
}

/// The server information line: "Server", the notice in EUC-KR, and the
/// server version.
pub open spec fn info_body(notice: Seq<char>, version: Seq<char>) -> Seq<u8> {
    "Server\0".spec_bytes() + encoded(encoding_code(TextEncoding::EucKr), notice) + "\ndirelera version: ".spec_bytes()
        + encode_utf8(version) + seq![0u8]
}

/// The user joining as every user hears it: name, id, ping and connection
/// type.
pub open spec fn join_body(u: UserSpec) -> Seq<u8> {
    u.name.push(0u8) + le16(u.user_id) + le32(u.ping) + seq![u.connect_type]
}

/// An acknowledgement of the user at `user` at time `now`. The round trip
/// since the last request joins the user's pings. While the user has been
/// sent at most 4 messages it is asked again. Then its ping becomes
/// `chosen`, or when there is none the average of its pings; it is sent the
/// server status, every user hears it joined, and it is sent the server
/// information with `notice` and `version`.
pub open spec fn ack_spec(
    st: UserRoomSpec,
    out: Sent,
    user: u64,
    now: u64,
    chosen: Option<u32>,
    notice: Seq<char>,
    version: Seq<char>,
) -> (UserRoomSpec, Sent, Result<(), ServiceErrorSpec>) {
    let ui = user_pos(st.users, user);
    if ui < 0 {
        (st, out, failed(KailleraErrorSpec::NotFound))
    } else {
        let u = st.users[ui];
        let pings = u.pings.push(elapsed_ms(u, now) as i32);
        if u.send_count <= 4 {
            (with_user(st, ui, UserSpec { pings, s2c_ack_time: now, ..u }), out.push((user, S2C_ACK, ack_body())), Ok(()))
        } else {
            let ping = match chosen {
                Some(r) => r,
                None => average_ping(pings),
            };
            let u1 = UserSpec { pings, ping, ..u };
            let st1 = with_user(st, ui, u1);
            (
                st1,
                out.push((user, USER_SERVER_STATUS, server_status_body(st1, user))) + to_all(
                    st1.users,
                    USER_JOIN,
                    join_body(u1),
                ).push((user, SERVER_INFO, info_body(notice, version))),
                Ok(()),
            )
        }
    }
}

/// What an acknowledgement may not meet: a notice too long to encode, and
/// once pings are averaged, a running sum past `i32`, 2^22 pings or more, or
/// a status list past its count fields.
pub open spec fn ack_ok(st: UserRoomSpec, user: u64, now: u64, notice: Seq<char>) -> bool {
    let ui = user_pos(st.users, user);
    &&& notice.len() <= 0x1000_0000
    &&& (ui >= 0 && st.users[ui].send_count > 4 ==> {
        let p = st.users[ui].pings.push(elapsed_ms(st.users[ui], now) as i32);
        &&& sums_fit(p)
        &&& p.len() < 0x40_0000
        &&& status_ok(st)
    })
}

/// The average of `p` (see `average_ping`).
fn average_exec(p: &Vec<i32>) -> (a: u32)
    requires
        sums_fit(p@),
        p@.len() < 0x40_0000,
    ensures
        a == average_ping(p@),
{
    let mut sum: i32 = 0;
    let mut k: usize = 0;
    while k < p.len()
        invariant
            k <= p@.len(),
            sums_fit(p@),
            sum == seq_sum(p@.take(k as int)),
        decreases p@.len() - k,
    {
        assert(p@.take(k + 1).drop_last() =~= p@.take(k as int));
        assert(i32::MIN <= seq_sum(p@.take(k + 1)) <= i32::MAX);
        sum = sum + p[k];
        k = k + 1;
    }
    assert(p@.take(k as int) =~= p@);
    if sum <= 0 || p.len() == 0 {
        0
    } else {
        (sum as u32) / (p.len() as u32)
    }
}

/// Handles an acknowledgement of the user at `user` at time `now`, the
/// ping set to `chosen` when there is one (see `ack_spec`).
#[verifier::rlimit(40)]
pub fn ack_finish(
    rooms: &mut UserRoom,
    out: &mut Vec<Message>,
    user: u64,
    now: u64,
    chosen: Option<u32>,
    notice: &str,
    version: &str,
) -> (r: Result<(), ServiceError>)
    requires
        old(rooms).wf(),
        ack_ok(old(rooms)@, user, now, notice@),
    ensures
        final(rooms).wf(),
        (final(rooms)@, messages_view(final(out)@), step_view(r)) == ack_spec(
            old(rooms)@,
            messages_view(old(out)@),
            user,
            now,
            chosen,
            notice@,
            version@,
        ),
{
    let ghost st = rooms@;
    proof {
        lemma_user_pos(st.users, user);
    }
    let ui = match rooms.find_user(user) {
        Some(i) => i,
        None => {
            return Err(not_found());
        },
    };
    let ghost u = st.users[ui as int];
    let t0 = rooms.users[ui].s2c_ack_time;
    let e: u64 = if now >= t0 {
        now - t0
    } else {
        0
    };
    rooms.users[ui].pings.push(e as i32);
    let ghost pings = u.pings.push(elapsed_ms(u, now) as i32);
    if rooms.users[ui].send_count <= 4 {
        rooms.users[ui].s2c_ack_time = now;
        assert(rooms@.users =~= st.users.update(ui as int, UserSpec { pings, s2c_ack_time: now, ..u }));
        proof {
            lemma_with_user_wf(st, ui as int, UserSpec { pings, s2c_ack_time: now, ..u });
        }
        push_message(out, user, S2C_ACK, ack_bytes());
        return Ok(());
    }
    let ping = match chosen {
        Some(x) => x,
        None => average_exec(&rooms.users[ui].pings),
    };
    rooms.users[ui].ping = ping;
    let ghost u1 = UserSpec { pings, ping, ..u };
    assert(rooms@.users =~= st.users.update(ui as int, u1));
    proof {
        lemma_with_user_wf(st, ui as int, u1);
    }
    let status = rooms.server_status(user);
    push_message(out, user, USER_SERVER_STATUS, status);
    let mut join = copy_vec(&rooms.users[ui].name);
    join.push(0u8);
    crate::kaillera::protocol::extend_bytes(&mut join, crate::kaillera::protocol::u16_le_bytes(rooms.users[ui].user_id).as_slice());
    crate::kaillera::protocol::extend_bytes(&mut join, crate::kaillera::protocol::u32_le_bytes(ping).as_slice());
    join.push(rooms.users[ui].connect_type);
    assert(join@ =~= join_body(u1));
    send_to_all(&rooms.users, out, USER_JOIN, &join);
    let mut info = vstd::slice::slice_to_vec("Server\0".as_bytes());
    let euc = encode_text(TextEncoding::EucKr, notice);
    crate::kaillera::protocol::extend_bytes(&mut info, euc.as_slice());
    crate::kaillera::protocol::extend_bytes(&mut info, "\ndirelera version: ".as_bytes());
    crate::kaillera::protocol::extend_bytes(&mut info, version.as_bytes());
    info.push(0u8);
    assert(info@ =~= info_body(notice@, version@));
    push_message(out, user, SERVER_INFO, info);
    Ok(())
}

/// A random ping from `rand::Rng::gen_range(0..100)` on the thread-local
/// generator: a number below 100; which one is left to chance.
#[verifier::external_body]
fn random_ping() -> (r: u32)
    ensures
        r < 100,
{
    rand::thread_rng().gen_range(0..100)
}

/// Handles an acknowledgement of the user at `user` at time `now`: with
/// `random` set, a user whose ping is due gets a random ping below 100,
/// else the average of its pings (see `ack_spec`).
pub fn ack_step(
    rooms: &mut UserRoom,
    out: &mut Vec<Message>,
    user: u64,
    now: u64,
    random: bool,
    notice: &str,
    version: &str,
) -> (r: Result<(), ServiceError>)
    requires
        old(rooms).wf(),
        ack_ok(old(rooms)@, user, now, notice@),
    ensures
        final(rooms).wf(),
        !random ==> (final(rooms)@, messages_view(final(out)@), step_view(r)) == ack_spec(
            old(rooms)@,
            messages_view(old(out)@),
            user,
            now,
            None,
            notice@,
            version@,
        ),
        random ==> exists|x: u32|
            x < 100 && (final(rooms)@, messages_view(final(out)@), step_view(r)) == #[trigger] ack_spec(
                old(rooms)@,
                messages_view(old(out)@),
                user,
                now,
                Some(x),
                notice@,
                version@,
            ),
{
    let chosen = if random {
        Some(random_ping())
    } else {
        None
    };
    ack_finish(rooms, out, user, now, chosen, notice, version)
}

} // verus!
