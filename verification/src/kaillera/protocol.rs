//! Kaillera message framing: one message is a little-endian sequence
//! number, a little-endian length (type byte plus data), the type byte and
//! the data. A UDP datagram carries a message count followed by the newest
//! message and up to two earlier ones, newest first.
use std::collections::VecDeque;
use vstd::prelude::*;

verus! {

/// The two little-endian bytes of `v`.
pub open spec fn le16(v: u16) -> Seq<u8> {
    seq![(v % 256) as u8, (v / 256) as u8]
}

/// The value of two little-endian bytes.
pub open spec fn le16_value(lo: u8, hi: u8) -> u16 {
    (lo + 256 * hi) as u16
}

/// The four little-endian bytes of `v`.
pub open spec fn le32(v: u32) -> Seq<u8> {
    seq![
        (v % 256) as u8,
        ((v / 256) % 256) as u8,
        ((v / 65536) % 256) as u8,
        (v / 16777216) as u8,
    ]
}

/// The length field of a message: the type byte plus the data length, the
/// data length taken modulo 2^16.
pub open spec fn length_field(data_len: nat) -> u16 {
    ((data_len % 65536) + 1) as u16
}

/// A framed message.
pub open spec fn packet_spec(message_type: u8, seq: u16, data: Seq<u8>) -> Seq<u8> {
    le16(seq) + le16(length_field(data.len())) + seq![message_type] + data
}

/// The two little-endian bytes of a `u16`.
pub fn u16_le_bytes(v: u16) -> (b: [u8; 2])
    ensures
        b@ == le16(v),
{
    let lo = (v % 256) as u8;
    let hi = (v / 256) as u8;
    let b = [lo, hi];
    assert(b@ =~= le16(v));
    b
}

/// The four little-endian bytes of a `u32`.
pub fn u32_le_bytes(v: u32) -> (b: [u8; 4])
    ensures
        b@ == le32(v),
{
    let b0 = (v % 256) as u8;
    let b1 = ((v / 256) % 256) as u8;
    let b2 = ((v / 65536) % 256) as u8;
    let b3 = (v / 16777216) as u8;
    let b = [b0, b1, b2, b3];
    assert(b@ =~= le32(v));
    b
}

/// Appends `bytes` to `out`.
pub fn extend_bytes(out: &mut Vec<u8>, bytes: &[u8])
    ensures
        final(out)@ == old(out)@ + bytes@,
{
    let ghost start = out@;
    let mut i: usize = 0;
    while i < bytes.len()
        invariant
            i <= bytes@.len(),
            out@ == start + bytes@.take(i as int),
            start == old(out)@,
        decreases bytes@.len() - i,
    {
        out.push(bytes[i]);
        i = i + 1;
        assert(out@ =~= start + bytes@.take(i as int));
    }
    assert(bytes@.take(bytes@.len() as int) =~= bytes@);
}

pub struct ParsedMessage {
    pub message_number: u16,
    pub message_length: u16,
    pub message_type: u8,
    pub data: Vec<u8>,
}

/// Mathematical form of a parsed message.
pub struct MessageSpec {
    pub number: u16,
    pub length: u16,
    pub kind: u8,
    pub data: Seq<u8>,
}

impl View for ParsedMessage {
    type V = MessageSpec;

    open spec fn view(&self) -> MessageSpec {
        MessageSpec {
            number: self.message_number,
            length: self.message_length,
            kind: self.message_type,
            data: self.data@,
        }
    }
}

/// The framed message with type `message_type`, sequence number `seq` and
/// `data`.
pub fn make_packet(message_type: u8, seq: u16, data: Vec<u8>) -> (packet: Vec<u8>)
    requires
        data@.len() % 65536 != 65535,
    ensures
        packet@ == packet_spec(message_type, seq, data@),
{
    let mut packet: Vec<u8> = Vec::new();
    extend_bytes(&mut packet, &u16_le_bytes(seq));
    let len_field = (data.len() % 65536) as u16 + 1;
    extend_bytes(&mut packet, &u16_le_bytes(len_field));
    packet.push(message_type);
    extend_bytes(&mut packet, data.as_slice());
    assert(packet@ =~= packet_spec(message_type, seq, data@));
    packet
}

/// Most packets a datagram carries.
pub const MAX_RECENT_PACKETS: usize = 3;

/// Mathematical state of a generator: the packets kept, oldest first, and
/// the next sequence number.
pub struct GeneratorSpec {
    pub recent: Seq<Seq<u8>>,
    pub send_count: u16,
}

/// The packets kept after `packet`: the newest three.
pub open spec fn keep_recent(recent: Seq<Seq<u8>>, packet: Seq<u8>) -> Seq<Seq<u8>> {
    if recent.len() >= MAX_RECENT_PACKETS {
        recent.drop_first().push(packet)
    } else {
        recent.push(packet)
    }
}

/// The datagram for the kept packets: their number, then the packets newest
/// first.
pub open spec fn datagram_spec(recent: Seq<Seq<u8>>) -> Seq<u8> {
    seq![recent.len() as u8] + recent.reverse().flatten()
}

/// One call of `make_send_packet`: the new packet carries the current
/// sequence number, which then advances modulo 2^16.
pub open spec fn send_step(st: GeneratorSpec, message_type: u8, data: Seq<u8>) -> (
    GeneratorSpec,
    Seq<u8>,
) {
    let recent = keep_recent(st.recent, packet_spec(message_type, st.send_count, data));
    (
        GeneratorSpec {
            recent,
            send_count: ((st.send_count + 1) % 65536) as u16,
        },
        datagram_spec(recent),
    )
}

/// The generator after sending `msgs` (type and data of each), in order,
/// from a new one.
pub open spec fn sends_from_start(msgs: Seq<(u8, Seq<u8>)>) -> GeneratorSpec
    decreases msgs.len(),
{
    if msgs.len() == 0 {
        GeneratorSpec { recent: Seq::empty(), send_count: 0 }
    } else {
        send_step(sends_from_start(msgs.drop_last()), msgs.last().0, msgs.last().1).0
    }
}

/// The packets of the newest `min(msgs.len(), 3)` messages, oldest first,
/// message `j` carrying sequence number `j` modulo 2^16.
pub open spec fn newest_packets(msgs: Seq<(u8, Seq<u8>)>) -> Seq<Seq<u8>> {
    let n = msgs.len();
    let m = if n < 3 {
        n
    } else {
        3
    };
    Seq::new(
        m,
        |i: int| packet_spec(msgs[n - m + i].0, ((n - m + i) % 65536) as u16, msgs[n - m + i].1),
    )
}

proof fn lemma_seq_step(n: int)
    requires
        n >= 1,
    ensures
        ((((n - 1) % 65536) as u16 + 1) % 65536) as u16 == (n % 65536) as u16,
{
    let a = (n - 1) % 65536;
    assert(0 <= a < 65536);
    if a == 65535 {
        assert(n % 65536 == 0);
    } else {
        assert(n % 65536 == a + 1);
    }
}

proof fn lemma_newest_step(msgs: Seq<(u8, Seq<u8>)>, recent: Seq<Seq<u8>>, sc: u16)
    requires
        msgs.len() >= 1,
        recent == newest_packets(msgs.drop_last()),
        sc == ((msgs.len() - 1) % 65536) as u16,
    ensures
        keep_recent(recent, packet_spec(msgs.last().0, sc, msgs.last().1)) == newest_packets(msgs),
{
    let n = msgs.len() as int;
    let prev = msgs.drop_last();
    let next = keep_recent(recent, packet_spec(msgs.last().0, sc, msgs.last().1));
    let want = newest_packets(msgs);
    assert(next.len() == want.len());
    assert forall|i: int| 0 <= i < want.len() implies #[trigger] next[i] == want[i] by {
        let m = want.len() as int;
        let j = n - m + i;
        if j < n - 1 {
            assert(prev[j] == msgs[j]);
        }
    }
    assert(next =~= want);
}

/// After `k` sends from a new generator, the next send carries sequence
/// number `k` modulo 2^16, and its datagram holds the newest
/// `min(k + 1, 3)` packets, newest first, behind their count.
pub proof fn law_generator_after_sends(msgs: Seq<(u8, Seq<u8>)>)
    ensures
        sends_from_start(msgs).recent == newest_packets(msgs),
        sends_from_start(msgs).send_count == (msgs.len() % 65536) as u16,
        msgs.len() > 0 ==> send_step(sends_from_start(msgs.drop_last()), msgs.last().0, msgs.last().1).1
            == datagram_spec(newest_packets(msgs)),
    decreases msgs.len(),
{
    if msgs.len() > 0 {
        let prev = msgs.drop_last();
        law_generator_after_sends(prev);
        let st = sends_from_start(prev);
        lemma_newest_step(msgs, st.recent, st.send_count);
        lemma_seq_step(msgs.len() as int);
    } else {
        assert(newest_packets(msgs) =~= Seq::<Seq<u8>>::empty());
    }
}

/// Generates UDP packets with reliability: sends the last N packets together
/// to handle packet loss. Each transmission includes the newest packet plus
/// up to 2 previous packets for redundancy.
#[derive(Debug, Clone)]
pub struct UDPPacketGenerator {
    recent_packets: VecDeque<Vec<u8>>,
    send_count: u16,
}

impl View for UDPPacketGenerator {
    type V = GeneratorSpec;

    closed spec fn view(&self) -> GeneratorSpec {
        GeneratorSpec {
            recent: self.recent_packets@.map_values(|p: Vec<u8>| p@),
            send_count: self.send_count,
        }
    }
}

impl UDPPacketGenerator {
    /// At most three packets are kept.
    pub open spec fn wf(&self) -> bool {
        self@.recent.len() <= MAX_RECENT_PACKETS
    }

    pub fn new() -> (g: Self)
        ensures
            g.wf(),
            g@.recent == Seq::<Seq<u8>>::empty(),
            g@.send_count == 0,
    {
        let g = Self { recent_packets: VecDeque::with_capacity(MAX_RECENT_PACKETS), send_count: 0 };
        assert(g@.recent =~= Seq::<Seq<u8>>::empty());
        g
    }

    /// Creates a new packet and bundles it with recent packets for reliability.
    /// Returns: [packet_count][newest_packet][second_newest][oldest]
    pub fn make_send_packet(&mut self, message_type: u8, data: Vec<u8>) -> (datagram: Vec<u8>)
        requires
            old(self).wf(),
            data@.len() % 65536 != 65535,
        ensures
            final(self).wf(),
            (final(self)@, datagram@) == send_step(old(self)@, message_type, data@),
    {
        let ghost st0 = self@;
        // Create and store new packet
        let new_packet = make_packet(message_type, self.send_count, data);
        let ghost np = new_packet@;
        // Maintain only last N packets in memory
        if self.recent_packets.len() >= MAX_RECENT_PACKETS {
            self.recent_packets.pop_front();
        }
        self.recent_packets.push_back(new_packet);
        let ghost recent = keep_recent(st0.recent, np);
        assert(self@.recent =~= recent);
        // Build final packet with redundancy
        let count = self.recent_packets.len();
        let packet_count: usize = if count < MAX_RECENT_PACKETS {
            count
        } else {
            MAX_RECENT_PACKETS
        };
        let mut result: Vec<u8> = Vec::new();
        result.push(packet_count as u8);
        // Add packets in reverse order (newest first)
        let mut k: usize = count;
        let ghost rev = recent.reverse();
        while k > 0
            invariant
                k <= count,
                count == self.recent_packets@.len(),
                count <= MAX_RECENT_PACKETS,
                self@.recent == recent,
                rev == recent.reverse(),
                result@ == seq![count as u8] + rev.take(count - k).flatten(),
            decreases k,
        {
            k = k - 1;
            let ghost before = result@;
            let packet = &self.recent_packets[k];
            assert(packet@ == recent[k as int]);
            extend_bytes(&mut result, packet.as_slice());
            proof {
                assert(rev[count - k - 1] == recent[k as int]);
                assert(rev.take(count - k) =~= rev.take(count - k - 1).push(recent[k as int]));
                rev.take(count - k - 1).lemma_flatten_push(recent[k as int]);
                assert(result@ =~= seq![count as u8] + rev.take(count - k).flatten());
            }
        }
        assert(rev.take(count as int) =~= rev);
        self.send_count = self.send_count.wrapping_add(1);
        assert(self@.recent == recent);
        result
    }
}

} // verus!
