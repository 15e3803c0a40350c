//! Framing of H.264 access units into the fixed-size USB bulk packets that
//! the panel's video endpoint expects.

use vstd::prelude::*;
use byteorder::{BigEndian, ByteOrder};

verus! {

/// Report id that opens every video packet.
pub const REPORT_ID_VIDEO: u8 = 0x02;
/// Command byte for "H.264 data follows".
pub const CMD_SEND_H264: u8 = 0x0D;
/// Largest number of frame bytes carried by one packet.
pub const MAX_PAYLOAD_VIDEO: usize = 501;
/// Size of every packet sent to the panel.
pub const PKT_SIZE_VIDEO: usize = 512;
/// Size of the packet header.
pub const HEADER_SIZE: usize = 11;

/// The four bytes of `n`, most significant first.
pub open spec fn be_u32(n: u32) -> Seq<u8> {
    seq![(n >> 24u32) as u8, (n >> 16u32) as u8, (n >> 8u32) as u8, n as u8]
}

/// The two bytes of `n`, most significant first.
pub open spec fn be_u16(n: u16) -> Seq<u8> {
    seq![(n >> 8u16) as u8, n as u8]
}

/// `byteorder`'s `BigEndian::write_u32` into a fresh four-byte buffer.
/// Claimed: the buffer then holds `n` most significant byte first
/// (the crate's source copies `n.to_be_bytes()` into it).
#[verifier::external_body]
fn be_u32_bytes(n: u32) -> (bytes: [u8; 4])
    ensures
        bytes@ == be_u32(n),
{
    let mut bytes = [0u8; 4];
    BigEndian::write_u32(&mut bytes, n);
    bytes
}

/// `byteorder`'s `BigEndian::write_u16` into a fresh two-byte buffer.
/// Claimed: the buffer then holds `n` most significant byte first
/// (the crate's source copies `n.to_be_bytes()` into it).
#[verifier::external_body]
fn be_u16_bytes(n: u16) -> (bytes: [u8; 2])
    ensures
        bytes@ == be_u16(n),
{
    let mut bytes = [0u8; 2];
    BigEndian::write_u16(&mut bytes, n);
    bytes
}

/// The eleven header bytes: report id, command, the frame's total size
/// (32 bits, big endian), the packet's sequence number (its low 24 bits,
/// big endian) and the number of payload bytes (16 bits, big endian).
pub open spec fn video_header(total_len: u32, index: u32, chunk_len: u16) -> Seq<u8> {
    seq![REPORT_ID_VIDEO, CMD_SEND_H264] + be_u32(total_len) + be_u32(index).subrange(1, 4)
        + be_u16(chunk_len)
}

/// Number of frame bytes carried by the packet that starts at `offset`.
pub open spec fn chunk_len_at(frame_len: nat, offset: int) -> int {
    if frame_len - offset < MAX_PAYLOAD_VIDEO {
        frame_len - offset
    } else {
        MAX_PAYLOAD_VIDEO as int
    }
}

/// `n` zero bytes.
pub open spec fn zeros(n: int) -> Seq<u8> {
    Seq::new(n as nat, |i: int| 0u8)
}

/// The packet that carries the bytes of `frame` from `offset` on, with
/// sequence number `index`: header, payload, then zero padding up to
/// `PKT_SIZE_VIDEO` bytes.
pub open spec fn video_packet(frame: Seq<u8>, offset: int, index: u32) -> Seq<u8> {
    let chunk = chunk_len_at(frame.len(), offset);
    video_header(frame.len() as u32, index, chunk as u16) + frame.subrange(offset, offset + chunk)
        + zeros(PKT_SIZE_VIDEO - HEADER_SIZE - chunk)
}

/// Builds the packet that carries `frame[offset..]` (at most
/// `MAX_PAYLOAD_VIDEO` bytes of it) with sequence number `index`.
pub fn build_video_packet(frame: &[u8], offset: usize, index: u32) -> (packet: Vec<u8>)
    requires
        offset < frame@.len(),
    ensures
        packet@ == video_packet(frame@, offset as int, index),
        packet@.len() == PKT_SIZE_VIDEO,
{
    let total = frame.len();
    let remaining = total - offset;
    let chunk_len: usize = if remaining < MAX_PAYLOAD_VIDEO {
        remaining
    } else {
        MAX_PAYLOAD_VIDEO
    };
    let mut packet: Vec<u8> = Vec::with_capacity(PKT_SIZE_VIDEO);
    packet.push(REPORT_ID_VIDEO);
    packet.push(CMD_SEND_H264);
    let size_bytes = be_u32_bytes(#[verifier::truncate] (total as u32));
    packet.push(size_bytes[0]);
    packet.push(size_bytes[1]);
    packet.push(size_bytes[2]);
    packet.push(size_bytes[3]);
    let index_bytes = be_u32_bytes(index);
    packet.push(index_bytes[1]);
    packet.push(index_bytes[2]);
    packet.push(index_bytes[3]);
    let len_bytes = be_u16_bytes(chunk_len as u16);
    packet.push(len_bytes[0]);
    packet.push(len_bytes[1]);
    let ghost header = video_header(#[verifier::truncate] (total as u32), index, chunk_len as u16);
    assert(packet@ =~= header);

    let mut i: usize = 0;
    while i < chunk_len
        invariant
            i <= chunk_len,
            total == frame@.len(),
            chunk_len == chunk_len_at(frame@.len(), offset as int),
            offset + chunk_len <= frame@.len(),
            packet@ =~= header + frame@.subrange(offset as int, offset + i),
        decreases chunk_len - i,
    {
        packet.push(frame[offset + i]);
        i = i + 1;
    }
    let ghost body = packet@;
    while packet.len() < PKT_SIZE_VIDEO
        invariant
            body.len() == HEADER_SIZE + chunk_len,
            chunk_len <= MAX_PAYLOAD_VIDEO,
            body.len() <= packet@.len() <= PKT_SIZE_VIDEO,
            packet@ =~= body + zeros(packet@.len() - body.len()),
        decreases PKT_SIZE_VIDEO - packet.len(),
    {
        packet.push(0u8);
    }
    packet
}

/// Number of packets a frame of `frame_len` bytes is cut into: the frame
/// length divided by `MAX_PAYLOAD_VIDEO`, rounded up.
pub open spec fn packet_count(frame_len: nat) -> nat {
    ((frame_len + 500) / 501) as nat
}

/// The `k`-th packet of `frame`: it carries the bytes from `k * 501` on and
/// its sequence number is `k`, counted modulo 2^32.
pub open spec fn frame_packet(frame: Seq<u8>, k: int) -> Seq<u8> {
    video_packet(frame, k * 501, (k % 0x1_0000_0000) as u32)
}

/// Cuts `frame` into the packets that send it to the panel, in the order
/// in which they are sent. An empty frame gives no packet.
pub fn frame_to_packets(frame: &[u8]) -> (packets: Vec<Vec<u8>>)
    ensures
        packets@.len() == packet_count(frame@.len()),
        forall|k: int| 0 <= k < packets@.len() ==> #[trigger] packets@[k]@ == frame_packet(frame@, k),
{
    let total = frame.len();
    let mut packets: Vec<Vec<u8>> = Vec::new();
    let mut bytes_sent: usize = 0;
    let mut index: u32 = 0;
    while bytes_sent < total
        invariant
            total == frame@.len(),
            bytes_sent <= total,
            bytes_sent < total ==> bytes_sent == packets@.len() * 501,
            bytes_sent == total ==> packets@.len() == packet_count(total as nat),
            index as int == packets@.len() % 0x1_0000_0000,
            forall|k: int| 0 <= k < packets@.len() ==> #[trigger] packets@[k]@ == frame_packet(frame@, k),
        decreases total - bytes_sent,
    {
        let ghost k = packets@.len() as int;
        let remaining = total - bytes_sent;
        let chunk_len: usize = if remaining < MAX_PAYLOAD_VIDEO {
            remaining
        } else {
            MAX_PAYLOAD_VIDEO
        };
        let packet = build_video_packet(frame, bytes_sent, index);
        packets.push(packet);
        index = index.wrapping_add(1);
        bytes_sent = bytes_sent + chunk_len;
        proof {
            assert(packets@[k]@ == frame_packet(frame@, k));
            if bytes_sent == total {
                assert((total as int + 500) / 501 == k + 1) by (nonlinear_arith)
                    requires
                        k * 501 < total as int,
                        total as int <= k * 501 + 501,
                ;
            }
        }
    }
    packets
}

/// Value of a byte string read most significant byte first.
pub open spec fn be_value(bytes: Seq<u8>) -> nat
    decreases bytes.len(),
{
    if bytes.len() == 0 {
        0
    } else {
        be_value(bytes.drop_last()) * 256 + bytes.last() as nat
    }
}

/// The payload of a packet as its own header declares it: the bytes that
/// follow the header, as many as its length field says.
pub open spec fn packet_payload(packet: Seq<u8>) -> Seq<u8> {
    packet.subrange(HEADER_SIZE as int, HEADER_SIZE + be_value(packet.subrange(9, 11)))
}

proof fn lemma_be_value_u16(n: u16)
    ensures
        be_value(be_u16(n)) == n,
{
    reveal_with_fuel(be_value, 3);
    let s = be_u16(n);
    assert(s.drop_last() =~= seq![(n >> 8u16) as u8]);
    assert(s.drop_last().drop_last() =~= Seq::<u8>::empty());
    assert(be_value(s) == ((n >> 8u16) as u8) as int * 256 + (n as u8) as int);
    assert(((n >> 8u16) as u8) as int * 256 + (n as u8) as int == n) by (bit_vector);
}

proof fn lemma_be_value_u32(n: u32)
    ensures
        be_value(be_u32(n)) == n,
        be_value(be_u32(n).subrange(1, 4)) == n % 0x100_0000,
{
    reveal_with_fuel(be_value, 5);
    let s = be_u32(n);
    let t = s.subrange(1, 4);
    assert(s.drop_last() =~= seq![(n >> 24u32) as u8, (n >> 16u32) as u8, (n >> 8u32) as u8]);
    assert(s.drop_last().drop_last() =~= seq![(n >> 24u32) as u8, (n >> 16u32) as u8]);
    assert(s.drop_last().drop_last().drop_last() =~= seq![(n >> 24u32) as u8]);
    assert(s.drop_last().drop_last().drop_last().drop_last() =~= Seq::<u8>::empty());
    assert(t.drop_last() =~= seq![(n >> 16u32) as u8, (n >> 8u32) as u8]);
    assert(t.drop_last().drop_last() =~= seq![(n >> 16u32) as u8]);
    assert(t.drop_last().drop_last().drop_last() =~= Seq::<u8>::empty());
    assert((((n >> 24u32) as u8) as int * 256 + ((n >> 16u32) as u8) as int) * 256 * 256
        + ((n >> 8u32) as u8) as int * 256 + (n as u8) as int == n) by (bit_vector);
    assert(((n >> 16u32) as u8) as int * 256 * 256 + ((n >> 8u32) as u8) as int * 256
        + (n as u8) as int == n % 0x100_0000) by (bit_vector);
}

proof fn lemma_packet_offset_in_frame(frame_len: nat, k: int)
    requires
        0 <= k < packet_count(frame_len),
    ensures
        0 <= k * 501 < frame_len,
{
    assert(0 <= k * 501 < frame_len) by (nonlinear_arith)
        requires
            0 <= k,
            k < (frame_len + 500) / 501,
    ;
}

/// What the `k`-th packet of a frame holds, read back from its bytes: it is
/// `PKT_SIZE_VIDEO` bytes long; it opens with the report id and the command;
/// its size field holds the frame length (cut to 32 bits); its sequence
/// field holds `k` modulo 2^24; its length field holds the number of frame
/// bytes it carries, which is `MAX_PAYLOAD_VIDEO` but for the last packet;
/// the payload that field declares is the frame's bytes from `k * 501` on;
/// and the rest of the packet is zero.
pub proof fn lemma_frame_packet_fields(frame: Seq<u8>, k: int)
    requires
        0 <= k < packet_count(frame.len()),
    ensures
        ({
            let p = frame_packet(frame, k);
            let chunk = chunk_len_at(frame.len(), k * 501);
            &&& p.len() == PKT_SIZE_VIDEO
            &&& p[0] == REPORT_ID_VIDEO
            &&& p[1] == CMD_SEND_H264
            &&& be_value(p.subrange(2, 6)) == (frame.len() as u32)
            &&& be_value(p.subrange(6, 9)) == k % 0x100_0000
            &&& be_value(p.subrange(9, 11)) == chunk
            &&& 0 < chunk <= MAX_PAYLOAD_VIDEO
            &&& (k + 1 < packet_count(frame.len()) ==> chunk == MAX_PAYLOAD_VIDEO)
            &&& packet_payload(p) == frame.subrange(k * 501, k * 501 + chunk)
            &&& p.subrange(HEADER_SIZE + chunk, PKT_SIZE_VIDEO as int) == zeros(
                PKT_SIZE_VIDEO - HEADER_SIZE - chunk,
            )
        }),
{
    lemma_packet_offset_in_frame(frame.len(), k);
    let p = frame_packet(frame, k);
    let offset = k * 501;
    let chunk = chunk_len_at(frame.len(), offset);
    let index = (k % 0x1_0000_0000) as u32;
    let header = video_header(frame.len() as u32, index, chunk as u16);
    assert(header.len() == HEADER_SIZE);
    assert(p.subrange(2, 6) =~= be_u32(frame.len() as u32));
    assert(p.subrange(6, 9) =~= be_u32(index).subrange(1, 4));
    assert(p.subrange(9, 11) =~= be_u16(chunk as u16));
    lemma_be_value_u32(frame.len() as u32);
    lemma_be_value_u32(index);
    lemma_be_value_u16(chunk as u16);
    assert(index as int % 0x100_0000 == k % 0x100_0000) by (nonlinear_arith)
        requires
            index as int == k % 0x1_0000_0000,
            0 <= k,
    ;
    if k + 1 < packet_count(frame.len()) {
        lemma_packet_offset_in_frame(frame.len(), k + 1);
    }
    assert(packet_payload(p) =~= frame.subrange(offset, offset + chunk));
    assert(p.subrange(HEADER_SIZE + chunk, PKT_SIZE_VIDEO as int) =~= zeros(
        PKT_SIZE_VIDEO - HEADER_SIZE - chunk,
    ));
}

/// The declared payloads of the first `m` packets of `frame`, in order.
pub open spec fn packet_payloads(frame: Seq<u8>, m: nat) -> Seq<Seq<u8>> {
    Seq::new(m, |k: int| packet_payload(frame_packet(frame, k)))
}

proof fn lemma_payloads_prefix(frame: Seq<u8>, m: nat)
    requires
        m <= packet_count(frame.len()),
    ensures
        packet_payloads(frame, m).flatten_alt() == frame.subrange(
            0,
            if m * 501 < frame.len() {
                (m * 501) as int
            } else {
                frame.len() as int
            },
        ),
    decreases m,
{
    if m == 0 {
        assert(packet_payloads(frame, m).flatten_alt() =~= Seq::<u8>::empty());
        assert(frame.subrange(0, 0) =~= Seq::<u8>::empty());
    } else {
        let k = m - 1;
        lemma_payloads_prefix(frame, k as nat);
        lemma_frame_packet_fields(frame, k);
        lemma_packet_offset_in_frame(frame.len(), k);
        let s = packet_payloads(frame, m);
        assert(s.drop_last() =~= packet_payloads(frame, k as nat));
        let chunk = chunk_len_at(frame.len(), k * 501);
        assert(s.last() == frame.subrange(k * 501, k * 501 + chunk));
        assert(k * 501 + 501 == m * 501);
        assert(s.flatten_alt() =~= frame.subrange(0, k * 501 + chunk));
    }
}

/// Cutting a frame into packets loses nothing and adds nothing: the
/// payloads that the packets' own headers declare, taken in sending order,
/// are the frame again.
pub proof fn lemma_packets_reassemble_frame(frame: Seq<u8>)
    ensures
        packet_payloads(frame, packet_count(frame.len())).flatten() == frame,
{
    let m = packet_count(frame.len());
    lemma_payloads_prefix(frame, m);
    packet_payloads(frame, m).lemma_flatten_and_flatten_alt_are_equivalent();
    assert(m * 501 >= frame.len()) by (nonlinear_arith)
        requires
            m == (frame.len() + 500) / 501,
    ;
    assert(frame.subrange(0, frame.len() as int) =~= frame);
}

} // verus!
