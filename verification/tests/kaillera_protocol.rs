use direlera_rs::kaillera::protocol::{make_packet, UDPPacketGenerator};

#[test]
fn test_make_packet() {
    let sample_data = vec![1u8, 2, 3, 4];
    let packet = make_packet(0x10, 2, sample_data);
    assert_eq!(packet, vec![2, 0, 5, 0, 0x10, 1, 2, 3, 4]);
}

#[test]
fn test_udp_generator() {
    let sample_data = vec![1u8, 2, 3, 4];
    let mut udp_generator = UDPPacketGenerator::new();
    let result = udp_generator.make_send_packet(0x10, sample_data.clone());
    assert_eq!(
        result,
        vec![
            1, // messages
            0, 0, // seq
            5, 0, // length
            0x10, 1, 2, 3, 4
        ]
    );
    let result = udp_generator.make_send_packet(0x11, sample_data.clone());
    assert_eq!(
        result,
        vec![
            2, // messages
            1, 0, // seq
            5, 0, // length
            0x11, 1, 2, 3, 4, // message type, data
            0, 0, // seq
            5, 0, // length
            0x10, 1, 2, 3, 4, // message type, data
        ]
    );
    let result = udp_generator.make_send_packet(0x12, sample_data.clone());
    assert_eq!(
        result,
        vec![
            3, // messages
            2, 0, // seq
            5, 0, // length
            0x12, 1, 2, 3, 4, // message type, data
            1, 0, // seq
            5, 0, // length
            0x11, 1, 2, 3, 4, // message type, data
            0, 0, // seq
            5, 0, // length
            0x10, 1, 2, 3, 4, // message type, data
        ]
    );
    let result = udp_generator.make_send_packet(0x13, sample_data.clone());
    assert_eq!(
        result,
        vec![
            3, // messages
            3, 0, // seq
            5, 0, // length
            0x13, 1, 2, 3, 4, // message type, data
            2, 0, // seq
            5, 0, // length
            0x12, 1, 2, 3, 4, // message type, data
            1, 0, // seq
            5, 0, // length
            0x11, 1, 2, 3, 4, // message type, data
        ]
    );
}
