//! Datagram parsing, the control socket's replies and the builders of the
//! message bodies that the server sends.
use vstd::prelude::*;

use crate::kaillera::protocol::{
    datagram_spec, extend_bytes, keep_recent, le16, le16_value, le32, length_field, packet_spec,
    send_step, u16_le_bytes, u32_le_bytes, GeneratorSpec, MessageSpec, ParsedMessage,
    MAX_RECENT_PACKETS,
};
use crate::sync_core::bytes_equal;
use vstd::string::StringSliceAdditionalSpecFns;

verus! {

/// The ASCII digit of `d` (d < 10).
pub open spec fn digit_byte(d: nat) -> u8 {
    (48 + d) as u8
}

/// The decimal representation of `n`, in ASCII.
pub open spec fn decimal_digits(n: nat) -> Seq<u8>
    decreases n,
{
    if n < 10 {
        seq![digit_byte(n)]
    } else {
        decimal_digits(n / 10).push(digit_byte(n % 10))
    }
}

/// The decimal representation of `n`, as characters.
pub open spec fn decimal_chars(n: nat) -> Seq<char> {
    decimal_digits(n).map_values(|b: u8| b as char)
}

/// Appends the decimal representation of `n`.
pub fn push_decimal(out: &mut Vec<u8>, n: usize)
    ensures
        final(out)@ == old(out)@ + decimal_digits(n as nat),
    decreases n,
{
    if n >= 10 {
        push_decimal(out, n / 10);
    }
    out.push(48u8 + (n % 10) as u8);
}

/// The one-character string of the digit `d`.
fn digit_string(d: usize) -> (s: String)
    requires
        d < 10,
    ensures
        s@ == seq![digit_byte(d as nat) as char],
{
    let digits: &str = "0123456789";
    proof {
        reveal_strlit("0123456789");
    }
    let s = digits.substring_ascii(d, d + 1);
    assert(s@ =~= seq![digit_byte(d as nat) as char]);
    String::from_str(s)
}

/// The decimal representation of `n`.
pub fn decimal_string(n: usize) -> (s: String)
    ensures
        s@ == decimal_chars(n as nat),
    decreases n,
{
    if n < 10 {
        let s = digit_string(n);
        assert(s@ =~= decimal_chars(n as nat));
        s
    } else {
        let mut s = decimal_string(n / 10);
        let d = digit_string(n % 10);
        s.append(d.as_str());
        assert(s@ =~= decimal_chars(n as nat));
        s
    }
}

/// Why a datagram cannot be read.
pub enum PacketError {
    /// The datagram holds no byte.
    Empty,
    /// Fewer than five bytes are left where a message header is due; the
    /// number of bytes left.
    IncompleteHeader(usize),
    /// A message's data runs past the end of the datagram.
    IncompleteData,
}

/// The text of an error.
pub open spec fn error_text(e: PacketError) -> Seq<char> {
    match e {
        PacketError::Empty => "Packet is empty."@,
        PacketError::IncompleteHeader(n) => "Incomplete message header. Buffer size: "@ + decimal_chars(
            n as nat,
        ),
        PacketError::IncompleteData => "Incomplete message data."@,
    }
}

/// The data length that a length field announces (the type byte is not
/// data); a zero field wraps round to 65535.
pub open spec fn data_len_of(length: u16) -> int {
    if length == 0 {
        65535
    } else {
        length - 1
    }
}

/// `count` messages read from the front of `rest`.
pub open spec fn parse_messages(count: nat, rest: Seq<u8>) -> Result<Seq<MessageSpec>, PacketError>
    decreases count,
{
    if count == 0 {
        Ok(Seq::empty())
    } else if rest.len() < 5 {
        Err(PacketError::IncompleteHeader(rest.len() as usize))
    } else {
        let length = le16_value(rest[2], rest[3]);
        let dl = data_len_of(length);
        if rest.len() - 5 < dl {
            Err(PacketError::IncompleteData)
        } else {
            let m = MessageSpec {
                number: le16_value(rest[0], rest[1]),
                length,
                kind: rest[4],
                data: rest.subrange(5, 5 + dl),
            };
            match parse_messages((count - 1) as nat, rest.skip(5 + dl)) {
                Ok(ms) => Ok(seq![m] + ms),
                Err(e) => Err(e),
            }
        }
    }
}

/// A datagram: a message count, then that many messages.
pub open spec fn parse_spec(data: Seq<u8>) -> Result<Seq<MessageSpec>, PacketError> {
    if data.len() == 0 {
        Err(PacketError::Empty)
    } else {
        parse_messages(data[0] as nat, data.skip(1))
    }
}

/// `done` messages read, then the outcome of reading the rest.
pub open spec fn after(done: Seq<MessageSpec>, r: Result<Seq<MessageSpec>, PacketError>) -> Result<
    Seq<MessageSpec>,
    PacketError,
> {
    match r {
        Ok(ms) => Ok(done + ms),
        Err(e) => Err(e),
    }
}

pub open spec fn messages_view(v: Seq<ParsedMessage>) -> Seq<MessageSpec> {
    v.map_values(|m: ParsedMessage| m@)
}

/// The little-endian `u16` at `data[i..i + 2]`.
fn read_u16_le(data: &[u8], i: usize) -> (v: u16)
    requires
        i + 2 <= data@.len(),
    ensures
        v == le16_value(data@[i as int], data@[i + 1]),
{
    let lo = data[i] as u16;
    let hi = data[i + 1] as u16;
    lo + hi * 256
}

/// The text of an error, as a `String`.
pub fn error_string(e: &PacketError) -> (s: String)
    ensures
        s@ == error_text(*e),
{
    match e {
        PacketError::Empty => String::from_str("Packet is empty."),
        PacketError::IncompleteHeader(n) => {
            let mut s = String::from_str("Incomplete message header. Buffer size: ");
            let digits = decimal_string(*n);
            s.append(digits.as_str());
            s
        },
        PacketError::IncompleteData => String::from_str("Incomplete message data."),
    }
}

/// Reads the messages of a datagram.
pub fn parse_packet(data: &[u8]) -> (r: Result<Vec<ParsedMessage>, String>)
    ensures
        match (r, parse_spec(data@)) {
            (Ok(v), Ok(ms)) => messages_view(v@) == ms,
            (Err(s), Err(e)) => s@ == error_text(e),
            _ => false,
        },
{
    if data.len() == 0 {
        return Err(error_string(&PacketError::Empty));
    }
    let num_messages = data[0];
    let mut messages: Vec<ParsedMessage> = Vec::new();
    let mut pos: usize = 1;
    let mut i: u8 = 0;
    assert(messages_view(messages@) + Seq::<MessageSpec>::empty() =~= Seq::<MessageSpec>::empty());
    assert(after(messages_view(messages@), parse_messages(num_messages as nat, data@.skip(1)))
        == parse_spec(data@)) by {
        match parse_messages(num_messages as nat, data@.skip(1)) {
            Ok(ms) => {
                assert(messages_view(messages@) + ms =~= ms);
            },
            Err(e) => {},
        }
    }
    while i < num_messages
        invariant
            1 <= pos <= data@.len(),
            i <= num_messages,
            num_messages == data@[0],
            data@.len() >= 1,
            after(messages_view(messages@), parse_messages((num_messages - i) as nat, data@.skip(pos as int)))
                == parse_spec(data@),
        decreases num_messages - i,
    {
        let ghost rest = data@.skip(pos as int);
        let remaining = data.len() - pos;
        if remaining < 5 {
            return Err(error_string(&PacketError::IncompleteHeader(remaining)));
        }
        let message_number = read_u16_le(data, pos);
        let message_length = read_u16_le(data, pos + 2);
        let message_type = data[pos + 4];
        let data_len: usize = message_length.wrapping_sub(1) as usize;
        assert(data_len == data_len_of(message_length));
        if remaining - 5 < data_len {
            return Err(error_string(&PacketError::IncompleteData));
        }
        let mut message_data: Vec<u8> = Vec::new();
        let start = pos + 5;
        let mut k: usize = 0;
        while k < data_len
            invariant
                k <= data_len,
                start + data_len <= data@.len(),
                data@.len() <= usize::MAX,
                message_data@ == data@.subrange(start as int, start + k),
            decreases data_len - k,
        {
            message_data.push(data[start + k]);
            k = k + 1;
            assert(message_data@ =~= data@.subrange(start as int, start + k));
        }
        let ghost before = messages_view(messages@);
        let msg = ParsedMessage { message_number, message_length, message_type, data: message_data };
        let ghost mv = msg@;
        messages.push(msg);
        proof {
            assert(rest[0] == data@[pos as int]);
            assert(rest[1] == data@[pos + 1]);
            assert(rest[2] == data@[pos + 2]);
            assert(rest[3] == data@[pos + 3]);
            assert(rest[4] == data@[pos + 4]);
            assert(rest.subrange(5, 5 + data_len) =~= data@.subrange(start as int, start + data_len));
            assert(rest.skip(5 + data_len) =~= data@.skip(pos + 5 + data_len));
            assert(messages_view(messages@) =~= before.push(mv));
            match parse_messages((num_messages - i - 1) as nat, data@.skip(pos + 5 + data_len)) {
                Ok(ms) => {
                    assert(before + (seq![mv] + ms) =~= before.push(mv) + ms);
                },
                Err(e) => {},
            }
        }
        pos = pos + 5 + data_len;
        i = i + 1;
    }
    assert(messages_view(messages@) + Seq::<MessageSpec>::empty() =~= messages_view(messages@));
    Ok(messages)
}

// ---------------------------------------------------------------------------
// The control socket
// ---------------------------------------------------------------------------

/// The greeting a client sends to the control socket: "HELLO0.83" and a
/// null byte.
pub open spec fn hello_request() -> Seq<u8> {
    seq![72u8, 69u8, 76u8, 76u8, 79u8, 48u8, 46u8, 56u8, 51u8, 0u8]
}

/// The keep-alive request a client sends to the control socket: "PING" and
/// a null byte.
pub open spec fn ping_request() -> Seq<u8> {
    seq![80u8, 73u8, 78u8, 71u8, 0u8]
}

/// The reply to a ping: "PONG" and a null byte.
pub open spec fn pong_reply() -> Seq<u8> {
    seq![80u8, 79u8, 78u8, 71u8, 0u8]
}

/// The reply to a greeting: "HELLOD00D", the port of the main socket in
/// decimal, and a null byte.
pub open spec fn hello_reply(main_port: u16) -> Seq<u8> {
    seq![72u8, 69u8, 76u8, 76u8, 79u8, 68u8, 48u8, 48u8, 68u8] + decimal_digits(main_port as nat)
        + seq![0u8]
}

/// The control socket answers a greeting and a ping; anything else gets no
/// reply.
pub open spec fn control_reply_spec(data: Seq<u8>, main_port: u16) -> Option<Seq<u8>> {
    if data == hello_request() {
        Some(hello_reply(main_port))
    } else if data == ping_request() {
        Some(pong_reply())
    } else {
        None
    }
}

/// The reply of the control socket to a datagram, if it gets one.
pub fn control_reply(data: &[u8], main_port: u16) -> (reply: Option<Vec<u8>>)
    ensures
        match reply {
            Some(r) => control_reply_spec(data@, main_port) == Some(r@),
            None => control_reply_spec(data@, main_port).is_none(),
        },
{
    let hello: [u8; 10] = [72u8, 69u8, 76u8, 76u8, 79u8, 48u8, 46u8, 56u8, 51u8, 0u8];
    let ping: [u8; 5] = [80u8, 73u8, 78u8, 71u8, 0u8];
    assert(hello@ =~= hello_request());
    assert(ping@ =~= ping_request());
    if bytes_equal(data, hello.as_slice()) {
        let mut response: Vec<u8> = Vec::new();
        let prefix: [u8; 9] = [72u8, 69u8, 76u8, 76u8, 79u8, 68u8, 48u8, 48u8, 68u8];
        extend_bytes(&mut response, prefix.as_slice());
        push_decimal(&mut response, main_port as usize);
        response.push(0u8);
        assert(response@ =~= hello_reply(main_port));
        Some(response)
    } else if bytes_equal(data, ping.as_slice()) {
        let response: [u8; 5] = [80u8, 79u8, 78u8, 71u8, 0u8];
        let mut out: Vec<u8> = Vec::new();
        extend_bytes(&mut out, response.as_slice());
        assert(out@ =~= pong_reply());
        Some(out)
    } else {
        None
    }
}

// ---------------------------------------------------------------------------
// Packet building utilities
// ---------------------------------------------------------------------------

/// Bytes and a null terminator.
pub open spec fn null_terminated(s: Seq<u8>) -> Seq<u8> {
    s.push(0u8)
}

/// The null-terminated strings, one after the other.
pub open spec fn null_terminated_all(strings: Seq<&str>) -> Seq<u8>
    decreases strings.len(),
{
    if strings.len() == 0 {
        Seq::empty()
    } else {
        null_terminated_all(strings.drop_last()) + null_terminated(strings.last().spec_bytes())
    }
}

/// Appends a string with null terminator to the buffer
pub fn put_string_with_null(buf: &mut Vec<u8>, s: &str)
    ensures
        final(buf)@ == old(buf)@ + null_terminated(s.spec_bytes()),
{
    put_bytes_with_null(buf, s.as_bytes());
}

/// Appends bytes with a null terminator to the buffer
pub fn put_bytes_with_null(buf: &mut Vec<u8>, s: &[u8])
    ensures
        final(buf)@ == old(buf)@ + null_terminated(s@),
{
    extend_bytes(buf, s);
    buf.push(0);
    assert(final(buf)@ =~= old(buf)@ + null_terminated(s@));
}

/// Appends an empty string (just null terminator) to the buffer
pub fn put_empty_string(buf: &mut Vec<u8>)
    ensures
        final(buf)@ == old(buf)@.push(0u8),
{
    buf.push(0);
}

/// Appends multiple strings with null terminators to the buffer
pub fn put_strings_with_null(buf: &mut Vec<u8>, strings: &[&str])
    ensures
        final(buf)@ == old(buf)@ + null_terminated_all(strings@),
{
    let ghost start = buf@;
    let mut i: usize = 0;
    while i < strings.len()
        invariant
            i <= strings@.len(),
            start == old(buf)@,
            buf@ == start + null_terminated_all(strings@.take(i as int)),
        decreases strings@.len() - i,
    {
        put_string_with_null(buf, strings[i]);
        assert(strings@.take(i + 1).drop_last() =~= strings@.take(i as int));
        i = i + 1;
        assert(buf@ =~= start + null_terminated_all(strings@.take(i as int)));
    }
    assert(strings@.take(strings@.len() as int) =~= strings@);
}

/// Body of a START_GAME message: empty string, frame delay (2B), player
/// number (1B), total players (1B).
pub open spec fn start_game_spec(frame_delay: u16, player_number: u8, total_players: u8) -> Seq<u8> {
    seq![0u8] + le16(frame_delay) + seq![player_number, total_players]
}

/// Builds a START_GAME packet
/// Format: Empty String [00], Frame Delay (2B), Player Number (1B), Total Players (1B)
pub fn build_start_game_packet(frame_delay: u16, player_number: u8, total_players: u8) -> (data:
    Vec<u8>)
    ensures
        data@ == start_game_spec(frame_delay, player_number, total_players),
{
    let mut data: Vec<u8> = Vec::new();
    put_empty_string(&mut data);
    extend_bytes(&mut data, u16_le_bytes(frame_delay).as_slice());
    data.push(player_number);
    data.push(total_players);
    assert(data@ =~= start_game_spec(frame_delay, player_number, total_players));
    data
}

/// Builds a GAME_CHAT packet
/// Format: Username (NB), Message (NB)
pub fn build_game_chat_packet(username: &[u8], message: &[u8]) -> (data: Vec<u8>)
    ensures
        data@ == null_terminated(username@) + null_terminated(message@),
{
    let mut data: Vec<u8> = Vec::new();
    put_bytes_with_null(&mut data, username);
    put_bytes_with_null(&mut data, message);
    assert(data@ =~= null_terminated(username@) + null_terminated(message@));
    data
}

/// Builds a GLOBAL_CHAT packet
/// Format: Username (NB), Message (NB)
pub fn build_global_chat_packet(username: &[u8], message: &[u8]) -> (data: Vec<u8>)
    ensures
        data@ == null_terminated(username@) + null_terminated(message@),
{
    let mut data: Vec<u8> = Vec::new();
    put_bytes_with_null(&mut data, username);
    put_bytes_with_null(&mut data, message);
    assert(data@ =~= null_terminated(username@) + null_terminated(message@));
    data
}

/// Builds a USER_QUIT packet
/// Format: Username (NB), UserID (2B), Message (NB)
pub fn build_user_quit_packet(username: &[u8], user_id: u16, message: &[u8]) -> (data: Vec<u8>)
    ensures
        data@ == null_terminated(username@) + le16(user_id) + null_terminated(message@),
{
    let mut data: Vec<u8> = Vec::new();
    put_bytes_with_null(&mut data, username);
    extend_bytes(&mut data, u16_le_bytes(user_id).as_slice());
    put_bytes_with_null(&mut data, message);
    assert(data@ =~= null_terminated(username@) + le16(user_id) + null_terminated(message@));
    data
}

/// Builds a QUIT_GAME packet
/// Format: Username (NB), UserID (2B)
pub fn build_quit_game_packet(username: &[u8], user_id: u16) -> (data: Vec<u8>)
    ensures
        data@ == null_terminated(username@) + le16(user_id),
{
    let mut data: Vec<u8> = Vec::new();
    put_bytes_with_null(&mut data, username);
    extend_bytes(&mut data, u16_le_bytes(user_id).as_slice());
    assert(data@ =~= null_terminated(username@) + le16(user_id));
    data
}

/// Builds a CLOSE_GAME packet
/// Format: Empty String [00], GameID (4B)
pub fn build_close_game_packet(game_id: u32) -> (data: Vec<u8>)
    ensures
        data@ == seq![0u8] + le32(game_id),
{
    let mut data: Vec<u8> = Vec::new();
    put_empty_string(&mut data);
    extend_bytes(&mut data, u32_le_bytes(game_id).as_slice());
    assert(data@ =~= seq![0u8] + le32(game_id));
    data
}

/// Builds a READY_TO_PLAY packet
/// Format: Empty String [00]
pub fn build_ready_to_play_packet() -> (data: Vec<u8>)
    ensures
        data@ == seq![0u8],
{
    let mut data: Vec<u8> = Vec::new();
    put_empty_string(&mut data);
    assert(data@ =~= seq![0u8]);
    data
}

/// Body of a SERVER_TO_CLIENT_ACK message.
pub open spec fn server_ack_spec() -> Seq<u8> {
    seq![0u8] + le32(0) + le32(1) + le32(2) + le32(3)
}

/// Builds a SERVER_TO_CLIENT_ACK packet
/// Format: Empty String [00], 0 (4B), 1 (4B), 2 (4B), 3 (4B)
pub fn build_server_to_client_ack_packet() -> (data: Vec<u8>)
    ensures
        data@ == server_ack_spec(),
{
    let mut data: Vec<u8> = Vec::new();
    put_empty_string(&mut data);
    extend_bytes(&mut data, u32_le_bytes(0).as_slice());
    extend_bytes(&mut data, u32_le_bytes(1).as_slice());
    extend_bytes(&mut data, u32_le_bytes(2).as_slice());
    extend_bytes(&mut data, u32_le_bytes(3).as_slice());
    assert(data@ =~= server_ack_spec());
    data
}

/// Builds a DROP_GAME packet
/// Format: Username (NB), Player Number (1B)
pub fn build_drop_game_packet(username: &[u8], player_number: u8) -> (data: Vec<u8>)
    ensures
        data@ == null_terminated(username@).push(player_number),
{
    let mut data: Vec<u8> = Vec::new();
    put_bytes_with_null(&mut data, username);
    data.push(player_number);
    assert(data@ =~= null_terminated(username@).push(player_number));
    data
}

/// Body of a GAME_DATA message: empty string, the data length modulo 2^16
/// (2B), the data.
pub open spec fn game_data_spec(game_data: Seq<u8>) -> Seq<u8> {
    seq![0u8] + le16((game_data.len() % 65536) as u16) + game_data
}

/// Builds a GAME_DATA packet
/// Format: Empty String [00], Data Length (2B), Game Data (NB)
pub fn build_game_data_packet(game_data: &[u8]) -> (data: Vec<u8>)
    ensures
        data@ == game_data_spec(game_data@),
{
    let mut data: Vec<u8> = Vec::new();
    put_empty_string(&mut data);
    let len = (game_data.len() % 65536) as u16;
    extend_bytes(&mut data, u16_le_bytes(len).as_slice());
    extend_bytes(&mut data, game_data);
    assert(data@ =~= game_data_spec(game_data@));
    data
}

/// Builds a GAME_CACHE packet
/// Format: Empty String [00], Position (1B)
pub fn build_game_cache_packet(position: u8) -> (data: Vec<u8>)
    ensures
        data@ == seq![0u8, position],
{
    let mut data: Vec<u8> = Vec::new();
    data.push(0x00);
    data.push(position);
    assert(data@ =~= seq![0u8, position]);
    data
}

// ---------------------------------------------------------------------------
// What a reader gets back of what was framed
// ---------------------------------------------------------------------------

/// The bytes of a message (type, number, data) as it is framed.
pub open spec fn framed(m: (u8, u16, Seq<u8>)) -> Seq<u8> {
    packet_spec(m.0, m.1, m.2)
}

/// The message a reader gets back of a framed message.
pub open spec fn read_back(m: (u8, u16, Seq<u8>)) -> MessageSpec {
    MessageSpec { number: m.1, length: length_field(m.2.len()), kind: m.0, data: m.2 }
}

/// Reading a framed message off the front gives it back and leaves what
/// follows it.
pub proof fn lemma_parse_framed(m: (u8, u16, Seq<u8>), count: nat, rest: Seq<u8>)
    requires
        m.2.len() < 65536,
    ensures
        parse_messages(count + 1, framed(m) + rest) == after(seq![read_back(m)], parse_messages(count, rest)),
{
    let p = framed(m) + rest;
    let n: int = m.2.len() as int;
    let lf = length_field(m.2.len());
    assert(p[0] == (m.1 % 256) as u8 && p[1] == (m.1 / 256) as u8);
    assert(le16_value(p[0], p[1]) == m.1);
    assert(p[2] == (lf % 256) as u8 && p[3] == (lf / 256) as u8);
    assert(le16_value(p[2], p[3]) == lf);
    if n == 65535 {
        let x: u32 = 65536;
        assert(x as u16 == 0) by (bit_vector)
            requires x == 65536u32;
        assert(length_field(m.2.len()) == x as u16);
    } else {
        assert(m.2.len() % 65536 == n);
    }
    assert(data_len_of(lf) == n);
    assert(p[4] == m.0);
    assert(p.subrange(5, 5 + n) =~= m.2);
    assert(p.skip(5 + n) =~= rest);
    assert((count + 1 - 1) as nat == count);
}

/// Framed messages one after another read back as those messages.
pub proof fn lemma_parse_flatten(ms: Seq<(u8, u16, Seq<u8>)>)
    requires
        forall|i: int| 0 <= i < ms.len() ==> (#[trigger] ms[i]).2.len() < 65536,
    ensures
        parse_messages(ms.len(), ms.map_values(|m: (u8, u16, Seq<u8>)| framed(m)).flatten()) == Ok::<
            Seq<MessageSpec>,
            PacketError,
        >(ms.map_values(|m: (u8, u16, Seq<u8>)| read_back(m))),
    decreases ms.len(),
{
    let fs = ms.map_values(|m: (u8, u16, Seq<u8>)| framed(m));
    if ms.len() == 0 {
        assert(ms.map_values(|m: (u8, u16, Seq<u8>)| read_back(m)) =~= Seq::<MessageSpec>::empty());
    } else {
        let rest = ms.drop_first();
        assert(forall|i: int| 0 <= i < rest.len() ==> #[trigger] rest[i] == ms[i + 1]);
        lemma_parse_flatten(rest);
        assert(fs.drop_first() =~= rest.map_values(|m: (u8, u16, Seq<u8>)| framed(m)));
        assert(fs.first() == framed(ms[0]));
        assert(ms[0].2.len() < 65536);
        lemma_parse_framed(ms[0], (ms.len() - 1) as nat, fs.drop_first().flatten());
        assert((ms.len() - 1) as nat + 1 == ms.len());
        assert(seq![read_back(ms[0])] + rest.map_values(|m: (u8, u16, Seq<u8>)| read_back(m)) =~= ms.map_values(
            |m: (u8, u16, Seq<u8>)| read_back(m),
        ));
    }
}

/// A datagram of framed messages (as a packet generator keeps them, oldest
/// first) reads back as those messages, newest first.
pub proof fn law_datagram_round_trip(ms: Seq<(u8, u16, Seq<u8>)>)
    requires
        ms.len() <= 255,
        forall|i: int| 0 <= i < ms.len() ==> (#[trigger] ms[i]).2.len() < 65536,
    ensures
        parse_spec(datagram_spec(ms.map_values(|m: (u8, u16, Seq<u8>)| framed(m)))) == Ok::<
            Seq<MessageSpec>,
            PacketError,
        >(ms.reverse().map_values(|m: (u8, u16, Seq<u8>)| read_back(m))),
{
    let fs = ms.map_values(|m: (u8, u16, Seq<u8>)| framed(m));
    let rv = ms.reverse();
    assert forall|i: int| 0 <= i < rv.len() implies (#[trigger] rv[i]).2.len() < 65536 by {
        assert(rv[i] == ms[ms.len() - 1 - i]);
    }
    lemma_parse_flatten(rv);
    assert(fs.reverse() =~= rv.map_values(|m: (u8, u16, Seq<u8>)| framed(m)));
    let d = datagram_spec(fs);
    assert(d[0] as nat == ms.len());
    assert(d.skip(1) =~= fs.reverse().flatten());
}

/// What a client reads of a datagram its packet generator sent: when the
/// generator held framed messages `kept` (oldest first), sending `data`
/// with type `t` gives a datagram that reads back as the new message,
/// numbered with the generator's count, followed by the kept ones that
/// remain, newest first.
pub proof fn law_send_then_read(kept: Seq<(u8, u16, Seq<u8>)>, count: u16, t: u8, data: Seq<u8>)
    requires
        kept.len() <= MAX_RECENT_PACKETS,
        data.len() < 65536,
        forall|i: int| 0 <= i < kept.len() ==> (#[trigger] kept[i]).2.len() < 65536,
    ensures
        ({
            let g = GeneratorSpec { recent: kept.map_values(|m: (u8, u16, Seq<u8>)| framed(m)), send_count: count };
            let now = if kept.len() >= MAX_RECENT_PACKETS {
                kept.drop_first().push((t, count, data))
            } else {
                kept.push((t, count, data))
            };
            &&& parse_spec(send_step(g, t, data).1) == Ok::<Seq<MessageSpec>, PacketError>(
                now.reverse().map_values(|m: (u8, u16, Seq<u8>)| read_back(m)),
            )
            &&& now.reverse()[0] == (t, count, data)
            &&& send_step(g, t, data).0.send_count == ((count + 1) % 65536) as u16
        }),
{
    let g = GeneratorSpec { recent: kept.map_values(|m: (u8, u16, Seq<u8>)| framed(m)), send_count: count };
    let now = if kept.len() >= MAX_RECENT_PACKETS {
        kept.drop_first().push((t, count, data))
    } else {
        kept.push((t, count, data))
    };
    assert(now.map_values(|m: (u8, u16, Seq<u8>)| framed(m)) =~= keep_recent(g.recent, packet_spec(t, count, data)));
    assert forall|i: int| 0 <= i < now.len() implies (#[trigger] now[i]).2.len() < 65536 by {
        if kept.len() >= MAX_RECENT_PACKETS {
            if i < now.len() - 1 {
                assert(now[i] == kept[i + 1]);
            }
        } else {
            if i < now.len() - 1 {
                assert(now[i] == kept[i]);
            }
        }
    }
    law_datagram_round_trip(now);
}

} // verus!
