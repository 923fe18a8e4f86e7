use direlera_rs::service_server::cal_frame_delay;

/// The delay table, one row per connection type.
fn table(connection_type: u8, ping: u32) -> u16 {
    let rows: [&[u32]; 6] = [
        &[16, 33, 49, 66, 83, 99, 116, 133, 149, 166, 183, 199, 216, 233, 249, 266, 283, 299, 316, 333, 349],
        &[33, 66, 99, 133, 166, 199, 233, 266, 299, 333],
        &[49, 99, 149, 199, 249, 299, 349],
        &[66, 133, 199, 266, 333],
        &[83, 166, 249, 333],
        &[99, 199, 299, 399],
    ];
    if !(1..=6).contains(&connection_type) {
        return 1;
    }
    let row = rows[(connection_type - 1) as usize];
    for (i, hi) in row.iter().enumerate() {
        if ping <= *hi {
            return (i + 1) as u16;
        }
    }
    (row.len() + 1) as u16
}

#[test]
fn frame_delay_matches_the_table() {
    for c in 0u8..9 {
        for ping in 0u32..1200 {
            assert_eq!(cal_frame_delay(c, ping), table(c, ping), "type {} ping {}", c, ping);
        }
    }
    assert_eq!(cal_frame_delay(1, u32::MAX), 22);
    assert_eq!(cal_frame_delay(6, 400), 5);
    assert_eq!(cal_frame_delay(2, 34), 2);
}
