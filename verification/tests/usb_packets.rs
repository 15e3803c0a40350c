use galahad2lcd::usb::{
    build_video_packet, frame_to_packets, CMD_SEND_H264, HEADER_SIZE, MAX_PAYLOAD_VIDEO,
    PKT_SIZE_VIDEO, REPORT_ID_VIDEO,
};

fn frame_of(len: usize) -> Vec<u8> {
    (0..len).map(|i| (i * 7 + 3) as u8).collect()
}

fn declared_payload(packet: &[u8]) -> &[u8] {
    let len = ((packet[9] as usize) << 8) | packet[10] as usize;
    &packet[HEADER_SIZE..HEADER_SIZE + len]
}

#[test]
fn first_packet_of_a_thousand_byte_frame() {
    let frame = frame_of(1000);
    let packet = build_video_packet(&frame, 0, 0);
    assert_eq!(packet.len(), PKT_SIZE_VIDEO);
    assert_eq!(&packet[..HEADER_SIZE], &[0x02, 0x0D, 0, 0, 0x03, 0xE8, 0, 0, 0, 0x01, 0xF5]);
    assert_eq!(&packet[HEADER_SIZE..HEADER_SIZE + 501], &frame[..501]);
    assert!(packet[HEADER_SIZE + 501..].iter().all(|b| *b == 0));
}

#[test]
fn last_packet_is_padded_with_zeros() {
    let frame = frame_of(1000);
    let packet = build_video_packet(&frame, 501, 1);
    assert_eq!(&packet[..HEADER_SIZE], &[0x02, 0x0D, 0, 0, 0x03, 0xE8, 0, 0, 1, 0x01, 0xF3]);
    assert_eq!(&packet[HEADER_SIZE..HEADER_SIZE + 499], &frame[501..]);
    assert_eq!(&packet[HEADER_SIZE + 499..], &[0, 0]);
}

#[test]
fn sequence_number_keeps_its_low_three_bytes() {
    let frame = frame_of(10);
    let packet = build_video_packet(&frame, 0, 0x0102_0304);
    assert_eq!(&packet[6..9], &[0x02, 0x03, 0x04]);
    assert_eq!(&packet[9..11], &[0, 10]);
}

#[test]
fn empty_frame_gives_no_packet() {
    assert!(frame_to_packets(&[]).is_empty());
}

#[test]
fn packet_counts_round_up() {
    assert_eq!(frame_to_packets(&frame_of(1)).len(), 1);
    assert_eq!(frame_to_packets(&frame_of(MAX_PAYLOAD_VIDEO)).len(), 1);
    assert_eq!(frame_to_packets(&frame_of(MAX_PAYLOAD_VIDEO + 1)).len(), 2);
    assert_eq!(frame_to_packets(&frame_of(3 * MAX_PAYLOAD_VIDEO)).len(), 3);
}

#[test]
fn packets_carry_consecutive_sequence_numbers_and_the_whole_frame() {
    let frame = frame_of(2600);
    let packets = frame_to_packets(&frame);
    assert_eq!(packets.len(), 6);
    let mut joined = Vec::new();
    for (k, packet) in packets.iter().enumerate() {
        assert_eq!(packet.len(), PKT_SIZE_VIDEO);
        assert_eq!(packet[0], REPORT_ID_VIDEO);
        assert_eq!(packet[1], CMD_SEND_H264);
        assert_eq!(&packet[2..6], &(2600u32).to_be_bytes());
        assert_eq!(&packet[6..9], &(k as u32).to_be_bytes()[1..4]);
        assert_eq!(*packet, build_video_packet(&frame, k * MAX_PAYLOAD_VIDEO, k as u32));
        joined.extend_from_slice(declared_payload(packet));
    }
    assert_eq!(joined, frame);
}
