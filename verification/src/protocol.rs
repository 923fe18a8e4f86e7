//! Message records of the first server generation: each integer field is
//! written with bincode (little-endian, fixed width), strings as their bytes
//! and a null byte. A datagram holds a count byte, then messages, each a
//! five-byte header (sequence number, length, type) and its data. Received
//! messages wait in a store keyed by sequence number.
use std::collections::HashMap;
use vstd::prelude::*;

use crate::kaillera::protocol::{le16, le16_value, le32, length_field, MessageSpec};

verus! {

pub type MessageT = u8;

pub const USER_QUIT: MessageT = 1;
pub const USER_JOIN: MessageT = 2;
pub const USER_LOGIN_INFO: MessageT = 3;
pub const USER_SERVER_STATUS: MessageT = 4;
pub const S2C_ACK: MessageT = 5;
pub const C2S_ACK: MessageT = 6;
pub const GLOBAL_CHAT: MessageT = 7;
pub const GAME_CHAT: MessageT = 8;
pub const KEEPALIVE: MessageT = 9;
pub const CREATE_GAME: MessageT = 0xa;
pub const QUIT_GAME: MessageT = 0xb;
pub const JOIN_GAME: MessageT = 0xc;
pub const PLAYER_INFO: MessageT = 0xd;
pub const UPDATE_GAME_STATUS: MessageT = 0x0e;
pub const KICK_USER_FROM_GAME: MessageT = 0xf;
pub const CLOSE_GAME: MessageT = 0x10;
pub const START_GAME: MessageT = 0x11;
pub const GAME_DATA: MessageT = 0x12;
pub const GAME_CACHE: MessageT = 0x13;
pub const DROP_GAME: MessageT = 0x14;
pub const READY_TO_PLAY_SIGNAL: MessageT = 0x15;
pub const CONNECTION_REJECT: MessageT = 0x16;
pub const SERVER_INFO: MessageT = 0x17;

pub type GameStatus = u8;

pub const GAME_STATUS_WAITING: GameStatus = 0;
pub const GAME_STATUS_PLAYING: GameStatus = 1;
pub const GAME_STATUS_NET_SYNC: GameStatus = 2;

#[verifier::external_type_specification]
#[verifier::external_body]
pub struct ExBincodeErrorKind(bincode::ErrorKind);

/// `bincode::serialize` of a `u8`: the byte itself. Serialising into a
/// `Vec` under bincode's default options (no size limit) does not fail.
#[verifier::external_body]
fn bincode_serialize_u8(v: u8) -> (r: Result<Vec<u8>, Box<bincode::ErrorKind>>)
    ensures
        r is Ok,
        r matches Ok(b) ==> b@ == seq![v],
{
    bincode::serialize(&v)
}

/// `bincode::serialize` of a `u16`: its two little-endian bytes (fixed-width
/// integers, little-endian, no size limit); it does not fail.
#[verifier::external_body]
fn bincode_serialize_u16(v: u16) -> (r: Result<Vec<u8>, Box<bincode::ErrorKind>>)
    ensures
        r is Ok,
        r matches Ok(b) ==> b@ == le16(v),
{
    bincode::serialize(&v)
}

/// `bincode::serialize` of a `u32`: its four little-endian bytes; it does
/// not fail.
#[verifier::external_body]
fn bincode_serialize_u32(v: u32) -> (r: Result<Vec<u8>, Box<bincode::ErrorKind>>)
    ensures
        r is Ok,
        r matches Ok(b) ==> b@ == le32(v),
{
    bincode::serialize(&v)
}

/// `bincode::deserialize` of a `u8`: the first byte; an error when there is
/// none. Trailing bytes are allowed.
#[verifier::external_body]
fn bincode_deserialize_u8(bytes: &[u8]) -> (r: Result<u8, Box<bincode::ErrorKind>>)
    ensures
        r is Ok <==> bytes@.len() >= 1,
        r matches Ok(x) ==> x == bytes@[0],
{
    bincode::deserialize::<u8>(bytes)
}

/// `bincode::deserialize` of a `u16`: the first two bytes, little-endian; an
/// error when there are fewer. Trailing bytes are allowed.
#[verifier::external_body]
pub(crate) fn bincode_deserialize_u16(bytes: &[u8]) -> (r: Result<u16, Box<bincode::ErrorKind>>)
    ensures
        r is Ok <==> bytes@.len() >= 2,
        r matches Ok(x) ==> x == bytes@[0] + 256 * bytes@[1],
{
    bincode::deserialize::<u16>(bytes)
}

/// The value of four little-endian bytes.
pub open spec fn le32_value(b: Seq<u8>) -> u32 {
    (b[0] + 256 * b[1] + 65536 * b[2] + 16777216 * b[3]) as u32
}

/// `bincode::deserialize` of a `u32`: the first four bytes, little-endian;
/// an error when there are fewer. Trailing bytes are allowed.
#[verifier::external_body]
pub(crate) fn bincode_deserialize_u32(bytes: &[u8]) -> (r: Result<u32, Box<bincode::ErrorKind>>)
    ensures
        r is Ok <==> bytes@.len() >= 4,
        r matches Ok(x) ==> x == le32_value(bytes@),
{
    bincode::deserialize::<u32>(bytes)
}

/// Why a record could not be written or read.
#[derive(Debug, Clone, PartialEq, Eq)]
pub enum ProtocolError {
    /// bincode reported an error.
    Bincode,
}

/// Appends `src` to `v`.
fn append_bytes(v: &mut Vec<u8>, src: Vec<u8>)
    ensures
        final(v)@ == old(v)@ + src@,
{
    let mut src = src;
    v.append(&mut src);
}

/// Appends the bincode form of a `u8`.
fn put_u8(v: &mut Vec<u8>, x: u8) -> (r: Result<(), ProtocolError>)
    ensures
        r is Ok,
        final(v)@ == old(v)@.push(x),
{
    match bincode_serialize_u8(x) {
        Ok(b) => {
            append_bytes(v, b);
            assert(final(v)@ =~= old(v)@.push(x));
            Ok(())
        },
        Err(_) => Err(ProtocolError::Bincode),
    }
}

/// Appends the bincode form of a `u16`.
fn put_u16(v: &mut Vec<u8>, x: u16) -> (r: Result<(), ProtocolError>)
    ensures
        r is Ok,
        final(v)@ == old(v)@ + le16(x),
{
    match bincode_serialize_u16(x) {
        Ok(b) => {
            append_bytes(v, b);
            Ok(())
        },
        Err(_) => Err(ProtocolError::Bincode),
    }
}

/// Appends the bincode form of a `u32`.
fn put_u32(v: &mut Vec<u8>, x: u32) -> (r: Result<(), ProtocolError>)
    ensures
        r is Ok,
        final(v)@ == old(v)@ + le32(x),
{
    match bincode_serialize_u32(x) {
        Ok(b) => {
            append_bytes(v, b);
            Ok(())
        },
        Err(_) => Err(ProtocolError::Bincode),
    }
}

/// Appends bytes and a null terminator.
fn put_bytes_with_null(v: &mut Vec<u8>, s: &Vec<u8>)
    ensures
        final(v)@ == old(v)@ + s@.push(0u8),
{
    append_bytes(v, s.clone());
    v.push(0u8);
    assert(final(v)@ =~= old(v)@ + s@.push(0u8));
}

#[derive(Debug, Clone)]
pub struct ProtocolPureHeader {
    pub length: u16,
    pub message_type: MessageT,
}

#[derive(Debug, Clone)]
pub struct ProtocolSeqHeader {
    pub seq: u16,
    pub header: ProtocolPureHeader,
}

/// The five header bytes: sequence number and length little-endian, then the
/// type.
pub open spec fn header_bytes(seq: u16, length: u16, message_type: u8) -> Seq<u8> {
    le16(seq) + le16(length) + seq![message_type]
}

impl ProtocolSeqHeader {
    /// The bincode form of the header: its fields in order.
    pub fn to_bytes(&self) -> (r: Result<Vec<u8>, ProtocolError>)
        ensures
            r is Ok,
        r matches Ok(b) ==> b@ == header_bytes(self.seq, self.header.length, self.header.message_type),
    {
        let mut v: Vec<u8> = Vec::new();
        put_u16(&mut v, self.seq)?;
        put_u16(&mut v, self.header.length)?;
        put_u8(&mut v, self.header.message_type)?;
        assert(v@ =~= header_bytes(self.seq, self.header.length, self.header.message_type));
        Ok(v)
    }

    /// Reads a header from the bincode form of its fields; an error when
    /// fewer than five bytes are given.
    pub fn from_bytes(bytes: &[u8]) -> (r: Result<ProtocolSeqHeader, ProtocolError>)
        ensures
            bytes@.len() >= 5 ==> (r matches Ok(h) && h.seq == le16_value(bytes@[0], bytes@[1])
                && h.header.length == le16_value(bytes@[2], bytes@[3]) && h.header.message_type
                == bytes@[4]),
            bytes@.len() < 5 ==> r is Err,
    {
        if bytes.len() < 5 {
            return Err(ProtocolError::Bincode);
        }
        let seq = match bincode_deserialize_u16(slice_range(bytes, 0, 2)) {
            Ok(x) => x,
            Err(_) => {
                return Err(ProtocolError::Bincode);
            },
        };
        let length = match bincode_deserialize_u16(slice_range(bytes, 2, 4)) {
            Ok(x) => x,
            Err(_) => {
                return Err(ProtocolError::Bincode);
            },
        };
        let message_type = match bincode_deserialize_u8(slice_range(bytes, 4, 5)) {
            Ok(x) => x,
            Err(_) => {
                return Err(ProtocolError::Bincode);
            },
        };
        Ok(ProtocolSeqHeader { seq, header: ProtocolPureHeader { length, message_type } })
    }
}

/// `bytes[from..to]`.
fn slice_range(bytes: &[u8], from: usize, to: usize) -> (s: &[u8])
    requires
        from <= to <= bytes@.len(),
    ensures
        s@ == bytes@.subrange(from as int, to as int),
{
    vstd::slice::slice_subrange(bytes, from, to)
}

#[derive(Debug)]
pub struct AckProtocol {
    dummy0: u8,
    dummy1: u32,
    dummy2: u32,
    dummy3: u32,
    dummy4: u32,
}

impl View for AckProtocol {
    type V = (u8, u32, u32, u32, u32);

    closed spec fn view(&self) -> (u8, u32, u32, u32, u32) {
        (self.dummy0, self.dummy1, self.dummy2, self.dummy3, self.dummy4)
    }
}

impl AckProtocol {
    pub fn new() -> (a: AckProtocol)
        ensures
            a@ == (0u8, 0u32, 1u32, 2u32, 3u32),
    {
        AckProtocol { dummy0: 0, dummy1: 0, dummy2: 1, dummy3: 2, dummy4: 3 }
    }

    /// The bincode form: its fields in order.
    pub fn to_bytes(&self) -> (r: Result<Vec<u8>, ProtocolError>)
        ensures
            r matches Ok(v) && v@ == seq![self@.0] + le32(self@.1) + le32(self@.2) + le32(self@.3) + le32(self@.4),
    {
        let mut v: Vec<u8> = Vec::new();
        put_u8(&mut v, self.dummy0)?;
        put_u32(&mut v, self.dummy1)?;
        put_u32(&mut v, self.dummy2)?;
        put_u32(&mut v, self.dummy3)?;
        put_u32(&mut v, self.dummy4)?;
        assert(v@ =~= seq![self@.0] + le32(self@.1) + le32(self@.2) + le32(self@.3) + le32(self@.4));
        Ok(v)
    }
}

#[derive(Debug, Clone)]
pub struct Protocol {
    pub header: ProtocolSeqHeader,
    pub data: Vec<u8>,
}

impl View for Protocol {
    type V = MessageSpec;

    open spec fn view(&self) -> MessageSpec {
        MessageSpec {
            number: self.header.seq,
            length: self.header.header.length,
            kind: self.header.header.message_type,
            data: self.data@,
        }
    }
}

impl Protocol {
    pub fn new(message_type: MessageT, data: Vec<u8>) -> (p: Protocol)
        requires
            data@.len() % 65536 != 65535,
        ensures
            p@ == (MessageSpec {
                number: 0,
                length: length_field(data@.len()),
                kind: message_type,
                data: data@,
            }),
    {
        let length = (data.len() % 65536) as u16 + 1;
        Protocol {
            header: ProtocolSeqHeader { seq: 0, header: ProtocolPureHeader { length, message_type } },
            data,
        }
    }

    /// The framed message: header (with the length recomputed from the data)
    /// and data.
    pub fn make_packet(&self) -> (r: Result<Vec<u8>, ProtocolError>)
        requires
            self.data@.len() % 65536 != 65535,
        ensures
            r matches Ok(b) && b@ == header_bytes(
                self.header.seq,
                length_field(self.data@.len()),
                self.header.header.message_type,
            ) + self.data@,
    {
        let mut v: Vec<u8> = Vec::new();
        let prob = ProtocolSeqHeader {
            seq: self.header.seq,
            header: ProtocolPureHeader {
                length: (self.data.len() % 65536) as u16 + 1,
                message_type: self.header.header.message_type,
            },
        };
        let s = prob.to_bytes()?;
        append_bytes(&mut v, s);
        append_bytes(&mut v, self.data.clone());
        Ok(v)
    }
}

/// Whether every message of a datagram from `pos` on announces a length in
/// `1..=65530` and fits in the datagram; a tail shorter than a header ends
/// the datagram.
pub open spec fn frames_ok(data: Seq<u8>, pos: int) -> bool
    decreases data.len() - pos,
{
    if pos < 0 || pos + 5 > data.len() {
        true
    } else {
        let length = le16_value(data[pos + 2], data[pos + 3]);
        if 1 <= length <= 65530 && pos + 4 + length <= data.len() {
            frames_ok(data, pos + 4 + length)
        } else {
            false
        }
    }
}

/// The messages of a datagram from `pos` on.
pub open spec fn frames_spec(data: Seq<u8>, pos: int) -> Seq<MessageSpec>
    decreases data.len() - pos,
{
    if pos < 0 || pos + 5 > data.len() {
        Seq::empty()
    } else {
        let length = le16_value(data[pos + 2], data[pos + 3]);
        if 1 <= length <= 65530 && pos + 4 + length <= data.len() {
            seq![
                MessageSpec {
                    number: le16_value(data[pos], data[pos + 1]),
                    length,
                    kind: data[pos + 4],
                    data: data.subrange(pos + 5, pos + 4 + length),
                },
            ] + frames_spec(data, pos + 4 + length)
        } else {
            Seq::empty()
        }
    }
}

pub open spec fn protocols_view(v: Seq<Protocol>) -> Seq<MessageSpec> {
    v.map_values(|p: Protocol| p@)
}

/// Whether every message of the datagram `data` (read from byte 1 on)
/// announces a length in `1..=65530` and fits in it: the inputs that
/// `get_protocol_from_bytes` reads.
pub fn frames_valid(data: &Vec<u8>) -> (b: bool)
    ensures
        b == frames_ok(data@, 1),
{
    let mut pos: usize = 1;
    while pos <= data.len() && 5 <= data.len() - pos
        invariant
            1 <= pos,
            frames_ok(data@, pos as int) == frames_ok(data@, 1),
        decreases data@.len() - pos,
    {
        let lo: u8 = data[pos + 2];
        let hi: u8 = data[pos + 3];
        let length: u16 = lo as u16 + 256 * (hi as u16);
        assert(length == le16_value(lo, hi));
        if length < 1 || length > 65530 || data.len() - pos - 4 < length as usize {
            return false;
        }
        pos = pos + 4 + length as usize;
    }
    true
}

/// The messages of a datagram, read from byte 1 on (byte 0 is the count).
pub fn get_protocol_from_bytes(data: &Vec<u8>) -> (r: Result<Vec<Protocol>, ProtocolError>)
    requires
        frames_ok(data@, 1),
    ensures
        r matches Ok(v) && protocols_view(v@) == frames_spec(data@, 1),
{
    let mut v: Vec<Protocol> = Vec::new();
    let mut cur_pos: usize = 1;
    assert(protocols_view(v@) + frames_spec(data@, 1) =~= frames_spec(data@, 1));
    while cur_pos <= data.len() && 5 <= data.len() - cur_pos
        invariant
            1 <= cur_pos,
            frames_ok(data@, cur_pos as int),
            protocols_view(v@) + frames_spec(data@, cur_pos as int) == frames_spec(data@, 1),
        decreases data@.len() - cur_pos,
    {
        let hdr = slice_range(data.as_slice(), cur_pos, cur_pos + 5);
        assert(hdr@[0] == data@[cur_pos as int] && hdr@[1] == data@[cur_pos + 1]);
        assert(hdr@[2] == data@[cur_pos + 2] && hdr@[3] == data@[cur_pos + 3]);
        assert(hdr@[4] == data@[cur_pos + 4]);
        let protocol = ProtocolSeqHeader::from_bytes(hdr)?;
        let length = protocol.header.length;
        assert(length == le16_value(data@[cur_pos + 2], data@[cur_pos + 3]));
        assert(1 <= length <= 65530 && cur_pos + 4 + length <= data@.len());
        let end = cur_pos + 4 + length as usize;
        let d = slice_range(data.as_slice(), cur_pos + 5, end);
        let mut dv: Vec<u8> = Vec::new();
        let mut k: usize = 0;
        while k < d.len()
            invariant
                k <= d@.len(),
                dv@ == d@.take(k as int),
            decreases d@.len() - k,
        {
            dv.push(d[k]);
            k = k + 1;
            assert(dv@ =~= d@.take(k as int));
        }
        assert(d@.take(d@.len() as int) =~= d@);
        let ghost before = protocols_view(v@);
        let ghost pos = cur_pos as int;
        cur_pos = cur_pos + (5 + length - 1) as usize;
        let p = Protocol { header: protocol, data: dv };
        let ghost pv = p@;
        v.push(p);
        proof {
            assert(protocols_view(v@) =~= before.push(pv));
            let rest = frames_spec(data@, cur_pos as int);
            assert(frames_spec(data@, pos) == seq![pv] + rest);
            assert(before + (seq![pv] + rest) =~= before.push(pv) + rest);
        }
    }
    proof {
        assert(frames_spec(data@, cur_pos as int) =~= Seq::<MessageSpec>::empty());
        assert(protocols_view(v@) + Seq::<MessageSpec>::empty() =~= protocols_view(v@));
    }
    Ok(v)
}

/// Mathematical state of the store: the sequence number last fetched, and
/// the messages waiting.
pub struct PacketsSpec {
    pub matched_seq: Option<u16>,
    pub packets: Map<u16, MessageSpec>,
}

/// Adding a message: one not newer than the last fetched one is dropped, and
/// a sequence number already waiting keeps its first message.
pub open spec fn add_spec(st: PacketsSpec, p: MessageSpec) -> PacketsSpec {
    if add_stores(st, p) {
        PacketsSpec { packets: st.packets.insert(p.number, p), ..st }
    } else {
        st
    }
}

/// Whether adding `p` stores it: it is newer than the last fetched message
/// and its sequence number is not waiting already.
pub open spec fn add_stores(st: PacketsSpec, p: MessageSpec) -> bool {
    let seq = p.number;
    let stale = match st.matched_seq {
        Some(m) => seq <= m,
        None => false,
    };
    !stale && !st.packets.contains_key(seq)
}

// Sequence to Protocol Store
pub struct ProtocolPackets {
    matched_seq: Option<u16>,
    pub packets: HashMap<u16, Protocol>,
}

impl View for ProtocolPackets {
    type V = PacketsSpec;

    closed spec fn view(&self) -> PacketsSpec {
        PacketsSpec {
            matched_seq: self.matched_seq,
            packets: self.packets@.map_values(|p: Protocol| p@),
        }
    }
}

impl ProtocolPackets {
    pub fn new() -> (s: ProtocolPackets)
        ensures
            s@.matched_seq.is_none(),
            s@.packets == Map::<u16, MessageSpec>::empty(),
    {
        let s = ProtocolPackets { packets: HashMap::new(), matched_seq: None };
        assert(s@.packets =~= Map::<u16, MessageSpec>::empty());
        s
    }

    pub fn add(&mut self, protocol: Protocol)
        ensures
            final(self)@ == add_spec(old(self)@, protocol@),
            final(self)@.packets.len() == old(self)@.packets.len() + if add_stores(
                old(self)@,
                protocol@,
            ) {
                1int
            } else {
                0int
            },
    {
        broadcast use vstd::std_specs::hash::group_hash_axioms;

        let ghost pv = protocol@;
        let ghost h0 = self.packets@;
        // don't add old packet
        match self.matched_seq {
            Some(seq) => {
                if protocol.header.seq > seq {
                    self.packets.entry(protocol.header.seq).or_insert(protocol);
                }
            },
            None => {
                self.packets.entry(protocol.header.seq).or_insert(protocol);
            },
        }
        proof {
            let m0 = old(self)@.packets;
            assert(m0.dom() =~= h0.dom());
            assert(h0.dom().finite());
            if add_stores(old(self)@, pv) {
                assert(self.packets@ =~= h0.insert(pv.number, self.packets@[pv.number]));
                assert(self@.packets =~= m0.insert(pv.number, pv));
                assert(self@.packets.dom() =~= m0.dom().insert(pv.number));
            } else {
                assert(self.packets@ =~= h0);
                assert(self@.packets =~= m0);
            }
        }
    }

    pub fn fetch_protocol(&mut self, seq: u16) -> (t: Option<Protocol>)
        ensures
            t is Some <==> old(self)@.packets.contains_key(seq),
            t matches Some(p) ==> p@ == old(self)@.packets[seq],
            final(self)@.packets == old(self)@.packets.remove(seq),
            final(self)@.matched_seq == if t is Some {
                Some(seq)
            } else {
                old(self)@.matched_seq
            },
    {
        broadcast use vstd::std_specs::hash::group_hash_axioms;

        let ghost h0 = self.packets@;
        let t = self.packets.remove(&seq);
        if t.is_some() {
            self.matched_seq = Some(seq);
        }
        assert(self@.packets =~= old(self)@.packets.remove(seq));
        t
    }

    pub fn len(&self) -> (n: usize)
        ensures
            n == self@.packets.len(),
    {
        broadcast use vstd::std_specs::hash::group_hash_axioms;

        assert(self@.packets.dom() =~= self.packets@.dom());
        self.packets.len()
    }
}

#[derive(Debug, Clone)]
pub struct UserJoinPacket2Client {
    pub user_name: Vec<u8>,
    pub user_id: u16,
    pub ping: u32,
    pub connection_type: u8,
}

impl UserJoinPacket2Client {
    pub fn new(user_name: Vec<u8>, user_id: u16, ping: u32, connection_type: u8) -> (p:
        UserJoinPacket2Client)
        ensures
            p.user_name@ == user_name@ && p.user_id == user_id && p.ping == ping
                && p.connection_type == connection_type,
    {
        UserJoinPacket2Client { user_name, user_id, ping, connection_type }
    }

    /// User name (null-terminated), user id (2B), ping (4B), connection type (1B).
    pub fn packetize(&self) -> (r: Result<Vec<u8>, ProtocolError>)
        ensures
            r matches Ok(v) && v@ == self.user_name@.push(0u8) + le16(self.user_id) + le32(self.ping)
                + seq![self.connection_type],
    {
        let mut v: Vec<u8> = Vec::new();
        put_bytes_with_null(&mut v, &self.user_name);
        put_u16(&mut v, self.user_id)?;
        put_u32(&mut v, self.ping)?;
        put_u8(&mut v, self.connection_type)?;
        Ok(v)
    }
}

#[derive(Debug, Clone)]
pub struct UserQuitPacket2Client {
    pub user_name: Vec<u8>,
    pub user_id: u16,
    pub message: Vec<u8>,
}

impl UserQuitPacket2Client {
    pub fn new(user_name: Vec<u8>, user_id: u16, message: Vec<u8>) -> (p: UserQuitPacket2Client)
        ensures
            p.user_name@ == user_name@ && p.user_id == user_id && p.message@ == message@,
    {
        UserQuitPacket2Client { user_name, user_id, message }
    }

    /// User name (null-terminated), user id (2B), message (null-terminated).
    pub fn packetize(&self) -> (r: Result<Vec<u8>, ProtocolError>)
        ensures
            r matches Ok(v) && v@ == self.user_name@.push(0u8) + le16(self.user_id)
                + self.message@.push(0u8),
    {
        let mut v: Vec<u8> = Vec::new();
        put_bytes_with_null(&mut v, &self.user_name);
        put_u16(&mut v, self.user_id)?;
        put_bytes_with_null(&mut v, &self.message);
        Ok(v)
    }
}

pub struct AckPacket2Client {
    pub n: u8,
    pub p0: u32,
    pub p1: u32,
    pub p2: u32,
    pub p3: u32,
}

impl AckPacket2Client {
    pub fn new(n: u8, p0: u32, p1: u32, p2: u32, p3: u32) -> (a: AckPacket2Client)
        ensures
            a.n == n && a.p0 == p0 && a.p1 == p1 && a.p2 == p2 && a.p3 == p3,
    {
        AckPacket2Client { n, p0, p1, p2, p3 }
    }

    /// n (1B), then the four values (4B each).
    pub fn packetize(&self) -> (r: Result<Vec<u8>, ProtocolError>)
        ensures
            r matches Ok(v) && v@ == seq![self.n] + le32(self.p0) + le32(self.p1) + le32(self.p2)
                + le32(self.p3),
    {
        let mut v: Vec<u8> = Vec::new();
        put_u8(&mut v, self.n)?;
        put_u32(&mut v, self.p0)?;
        put_u32(&mut v, self.p1)?;
        put_u32(&mut v, self.p2)?;
        put_u32(&mut v, self.p3)?;
        assert(v@ =~= seq![self.n] + le32(self.p0) + le32(self.p1) + le32(self.p2) + le32(self.p3));
        Ok(v)
    }
}

pub struct GlobalChat2Client {
    pub user_name: Vec<u8>,
    pub message: Vec<u8>,
}

impl GlobalChat2Client {
    pub fn new(user_name: Vec<u8>, message: Vec<u8>) -> (c: GlobalChat2Client)
        ensures
            c.user_name@ == user_name@ && c.message@ == message@,
    {
        GlobalChat2Client { user_name, message }
    }

    /// User name and message, each null-terminated.
    pub fn packetize(&self) -> (r: Result<Vec<u8>, ProtocolError>)
        ensures
            r matches Ok(v) && v@ == self.user_name@.push(0u8) + self.message@.push(0u8),
    {
        let mut v: Vec<u8> = Vec::new();
        put_bytes_with_null(&mut v, &self.user_name);
        put_bytes_with_null(&mut v, &self.message);
        assert(v@ =~= self.user_name@.push(0u8) + self.message@.push(0u8));
        Ok(v)
    }
}

pub struct GameChat2Client {
    pub user_name: Vec<u8>,
    pub message: Vec<u8>,
}

impl GameChat2Client {
    pub fn new(user_name: Vec<u8>, message: Vec<u8>) -> (c: GameChat2Client)
        ensures
            c.user_name@ == user_name@ && c.message@ == message@,
    {
        GameChat2Client { user_name, message }
    }

    /// User name and message, each null-terminated.
    pub fn packetize(&self) -> (r: Result<Vec<u8>, ProtocolError>)
        ensures
            r matches Ok(v) && v@ == self.user_name@.push(0u8) + self.message@.push(0u8),
    {
        let mut v: Vec<u8> = Vec::new();
        put_bytes_with_null(&mut v, &self.user_name);
        put_bytes_with_null(&mut v, &self.message);
        assert(v@ =~= self.user_name@.push(0u8) + self.message@.push(0u8));
        Ok(v)
    }
}

pub struct CreateGame2Client {
    pub user_name: Vec<u8>,
    pub game_name: Vec<u8>,
    pub emul_name: Vec<u8>,
    pub game_id: u32,
}

impl CreateGame2Client {
    pub fn new(user_name: Vec<u8>, game_name: Vec<u8>, emul_name: Vec<u8>, game_id: u32) -> (c:
        CreateGame2Client)
        ensures
            c.user_name@ == user_name@ && c.game_name@ == game_name@ && c.emul_name@ == emul_name@
                && c.game_id == game_id,
    {
        CreateGame2Client { user_name, game_name, emul_name, game_id }
    }

    /// User, game and emulator names (each null-terminated), game id (4B).
    pub fn packetize(&self) -> (r: Result<Vec<u8>, ProtocolError>)
        ensures
            r matches Ok(v) && v@ == self.user_name@.push(0u8) + self.game_name@.push(0u8)
                + self.emul_name@.push(0u8) + le32(self.game_id),
    {
        let mut v: Vec<u8> = Vec::new();
        put_bytes_with_null(&mut v, &self.user_name);
        put_bytes_with_null(&mut v, &self.game_name);
        put_bytes_with_null(&mut v, &self.emul_name);
        put_u32(&mut v, self.game_id)?;
        assert(v@ =~= self.user_name@.push(0u8) + self.game_name@.push(0u8) + self.emul_name@.push(0u8)
            + le32(self.game_id));
        Ok(v)
    }
}

pub struct JoinGame2Client {
    pub n: u8,
    pub game_id: u32,
    pub user_name: Vec<u8>,
    pub ping: u32,
    pub user_id: u16,
    pub connection_type: u8,
}

impl JoinGame2Client {
    pub fn new(game_id: u32, user_name: Vec<u8>, ping: u32, user_id: u16, connection_type: u8) -> (j:
        JoinGame2Client)
        ensures
            j.n == 0 && j.game_id == game_id && j.user_name@ == user_name@ && j.ping == ping
                && j.user_id == user_id && j.connection_type == connection_type,
    {
        JoinGame2Client { n: 0, game_id, user_name, ping, user_id, connection_type }
    }

    /// n (1B), game id (4B), user name (null-terminated), ping (4B), user id
    /// (2B), connection type (1B).
    pub fn packetize(&self) -> (r: Result<Vec<u8>, ProtocolError>)
        ensures
            r matches Ok(v) && v@ == seq![self.n] + le32(self.game_id) + self.user_name@.push(0u8)
                + le32(self.ping) + le16(self.user_id) + seq![self.connection_type],
    {
        let mut v: Vec<u8> = Vec::new();
        put_u8(&mut v, self.n)?;
        put_u32(&mut v, self.game_id)?;
        put_bytes_with_null(&mut v, &self.user_name);
        put_u32(&mut v, self.ping)?;
        put_u16(&mut v, self.user_id)?;
        put_u8(&mut v, self.connection_type)?;
        assert(v@ =~= seq![self.n] + le32(self.game_id) + self.user_name@.push(0u8) + le32(self.ping)
            + le16(self.user_id) + seq![self.connection_type]);
        Ok(v)
    }
}

pub struct UpdateGameStatus2Client {
    pub n: u8,
    pub game_id: u32,
    pub game_status: u8,
    pub num_of_players: u8,
    pub max_players: u8,
}

impl UpdateGameStatus2Client {
    pub fn new(n: u8, game_id: u32, game_status: u8, num_of_players: u8, max_players: u8) -> (u:
        UpdateGameStatus2Client)
        ensures
            u.n == n && u.game_id == game_id && u.game_status == game_status && u.num_of_players
                == num_of_players && u.max_players == max_players,
    {
        UpdateGameStatus2Client { n, game_id, game_status, num_of_players, max_players }
    }

    /// n (1B), game id (4B), status, player count and player limit (1B each).
    pub fn packetize(&self) -> (r: Result<Vec<u8>, ProtocolError>)
        ensures
            r matches Ok(v) && v@ == seq![self.n] + le32(self.game_id) + seq![
                self.game_status,
                self.num_of_players,
                self.max_players,
            ],
    {
        let mut v: Vec<u8> = Vec::new();
        put_u8(&mut v, self.n)?;
        put_u32(&mut v, self.game_id)?;
        put_u8(&mut v, self.game_status)?;
        put_u8(&mut v, self.num_of_players)?;
        put_u8(&mut v, self.max_players)?;
        assert(v@ =~= seq![self.n] + le32(self.game_id) + seq![
            self.game_status,
            self.num_of_players,
            self.max_players,
        ]);
        Ok(v)
    }
}

pub struct GameData2Client {
    pub unused: u8,
    pub len: u16,
    pub game_data: Vec<u8>,
}

impl GameData2Client {
    pub fn new(len: u16, game_data: Vec<u8>) -> (g: GameData2Client)
        ensures
            g.unused == 0 && g.len == len && g.game_data@ == game_data@,
    {
        GameData2Client { unused: 0, len, game_data }
    }

    /// unused (1B), length (2B), the data.
    pub fn packetize(&self) -> (r: Result<Vec<u8>, ProtocolError>)
        ensures
            r matches Ok(v) && v@ == seq![self.unused] + le16(self.len) + self.game_data@,
    {
        let mut v: Vec<u8> = Vec::new();
        put_u8(&mut v, self.unused)?;
        put_u16(&mut v, self.len)?;
        append_bytes(&mut v, self.game_data.clone());
        assert(v@ =~= seq![self.unused] + le16(self.len) + self.game_data@);
        Ok(v)
    }
}

pub struct GameCache2Client {
    pub unused: u8,
    pub cache_position: u8,
}

impl GameCache2Client {
    pub fn new(cache_position: u8) -> (g: GameCache2Client)
        ensures
            g.unused == 0 && g.cache_position == cache_position,
    {
        GameCache2Client { unused: 0, cache_position }
    }

    /// unused (1B), cache position (1B).
    pub fn packetize(&self) -> (r: Result<Vec<u8>, ProtocolError>)
        ensures
            r matches Ok(v) && v@ == seq![self.unused, self.cache_position],
    {
        let mut v: Vec<u8> = Vec::new();
        put_u8(&mut v, self.unused)?;
        put_u8(&mut v, self.cache_position)?;
        assert(v@ =~= seq![self.unused, self.cache_position]);
        Ok(v)
    }
}

pub struct GameDrop2Client {
    pub user_name: Vec<u8>,
    pub player_number: u8,
}

impl GameDrop2Client {
    pub fn new(user_name: Vec<u8>, player_number: u8) -> (g: GameDrop2Client)
        ensures
            g.user_name@ == user_name@ && g.player_number == player_number,
    {
        GameDrop2Client { user_name, player_number }
    }

    /// User name (null-terminated), player number (1B).
    pub fn packetize(&self) -> (r: Result<Vec<u8>, ProtocolError>)
        ensures
            r matches Ok(v) && v@ == self.user_name@.push(0u8).push(self.player_number),
    {
        let mut v: Vec<u8> = Vec::new();
        put_bytes_with_null(&mut v, &self.user_name);
        put_u8(&mut v, self.player_number)?;
        assert(v@ =~= self.user_name@.push(0u8).push(self.player_number));
        Ok(v)
    }
}

pub struct ConnectionReject2Client {
    pub user_name: Vec<u8>,
    pub user_id: u16,
}

impl ConnectionReject2Client {
    pub fn new(user_name: Vec<u8>, user_id: u16) -> (c: ConnectionReject2Client)
        ensures
            c.user_name@ == user_name@ && c.user_id == user_id,
    {
        ConnectionReject2Client { user_name, user_id }
    }

    /// User name (null-terminated), user id (2B).
    pub fn packetize(&self) -> (r: Result<Vec<u8>, ProtocolError>)
        ensures
            r matches Ok(v) && v@ == self.user_name@.push(0u8) + le16(self.user_id),
    {
        let mut v: Vec<u8> = Vec::new();
        put_bytes_with_null(&mut v, &self.user_name);
        put_u16(&mut v, self.user_id)?;
        Ok(v)
    }
}

} // verus!
