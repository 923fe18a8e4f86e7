use direlera_rs::simple_game_sync::{ClientInput, ServerResponse, SimpleGameSync};

#[test]
fn simple_game_sync_test_equal_delays() {
    let mut manager = SimpleGameSync::new(vec![1, 1]);

    // Frame 1: P0 sends input
    let outputs = manager.process_client_input(0, ClientInput::GameData(vec![0x01, 0x02]));
    assert_eq!(outputs.len(), 0);

    // Frame 1: P1 sends input
    let outputs = manager.process_client_input(1, ClientInput::GameData(vec![0x03, 0x04]));
    assert_eq!(outputs.len(), 2);

    assert_eq!(outputs[0].player_id, 0);
    assert_eq!(outputs[1].player_id, 1);

    match &outputs[0].response {
        ServerResponse::GameData(data) => {
            assert_eq!(data, &vec![0x01, 0x02, 0x03, 0x04]);
        }
        _ => panic!("P0's first output should be GameData"),
    }

    match &outputs[1].response {
        ServerResponse::GameData(data) => {
            assert_eq!(data, &vec![0x01, 0x02, 0x03, 0x04]);
        }
        _ => panic!("P1's first output should be GameData"),
    }

    // Frame 2: Both send same inputs via cache
    manager.process_client_input(0, ClientInput::GameCache(0));
    let outputs = manager.process_client_input(1, ClientInput::GameCache(0));

    assert_eq!(outputs.len(), 2);
    assert!(matches!(outputs[0].response, ServerResponse::GameCache(_)));
    assert!(matches!(outputs[1].response, ServerResponse::GameCache(_)));
}

#[test]
fn simple_game_sync_test_different_delays() {
    let mut manager = SimpleGameSync::new(vec![1, 2]);

    // P0 sends first input
    let outputs = manager.process_client_input(0, ClientInput::GameData(vec![0x01, 0x00]));
    assert_eq!(outputs.len(), 1);
    assert_eq!(outputs[0].player_id, 0);

    // P0 sends second and third
    manager.process_client_input(0, ClientInput::GameData(vec![0x02, 0x00]));
    let outputs = manager.process_client_input(0, ClientInput::GameData(vec![0x03, 0x00]));
    assert_eq!(outputs.len(), 0);

    // P1 sends 4 bytes
    let outputs =
        manager.process_client_input(1, ClientInput::GameData(vec![0xAA, 0xBB, 0xCC, 0xDD]));
    assert!(outputs.len() >= 2);

    let p0_outputs: Vec<_> = outputs.iter().filter(|o| o.player_id == 0).collect();
    let p1_outputs: Vec<_> = outputs.iter().filter(|o| o.player_id == 1).collect();

    assert_eq!(p0_outputs.len(), 2);
    assert_eq!(p1_outputs.len(), 1);
}

#[test]
fn simple_game_sync_test_cache_mechanism() {
    let mut manager = SimpleGameSync::new(vec![1, 1]);

    manager.process_client_input(0, ClientInput::GameData(vec![0x00, 0x00]));
    let outputs = manager.process_client_input(1, ClientInput::GameData(vec![0x00, 0x00]));

    assert_eq!(outputs.len(), 2);
    assert!(matches!(outputs[0].response, ServerResponse::GameData(_)));

    manager.process_client_input(0, ClientInput::GameCache(0));
    let outputs = manager.process_client_input(1, ClientInput::GameCache(0));

    let has_cache = outputs
        .iter()
        .any(|o| matches!(o.response, ServerResponse::GameCache(_)));
    assert!(has_cache);
}

#[test]
fn simple_game_sync_test_three_players() {
    let mut manager = SimpleGameSync::new(vec![1, 1, 2]);

    manager.process_client_input(0, ClientInput::GameData(vec![0x01, 0x00]));
    let outputs = manager.process_client_input(1, ClientInput::GameData(vec![0x02, 0x00]));

    assert_eq!(outputs.len(), 2);
    assert_eq!(outputs[0].player_id, 0);
    assert_eq!(outputs[1].player_id, 1);
}

#[test]
fn simple_game_sync_test_preemptive_padding() {
    let mut manager = SimpleGameSync::new(vec![1, 3]);

    let outputs = manager.process_client_input(0, ClientInput::GameData(vec![0x01, 0x00]));
    assert_eq!(outputs.len(), 1);

    let outputs = manager.process_client_input(0, ClientInput::GameData(vec![0x02, 0x00]));
    assert_eq!(outputs.len(), 1);
}

#[test]
fn simple_game_sync_test_gd_gc_pattern_delay_1() {
    let mut manager = SimpleGameSync::new(vec![1, 1]);

    // Frame 1
    manager.process_client_input(0, ClientInput::GameData(vec![0xAA, 0xBB]));
    let outputs = manager.process_client_input(1, ClientInput::GameData(vec![0xCC, 0xDD]));
    assert_eq!(outputs.len(), 2);

    // Frame 2
    manager.process_client_input(0, ClientInput::GameCache(0));
    let outputs = manager.process_client_input(1, ClientInput::GameCache(0));
    assert!(matches!(outputs[0].response, ServerResponse::GameCache(_)));

    // Frame 3
    manager.process_client_input(0, ClientInput::GameCache(0));
    let outputs = manager.process_client_input(1, ClientInput::GameCache(0));
    assert!(matches!(outputs[0].response, ServerResponse::GameCache(_)));

    // Frame 4
    manager.process_client_input(0, ClientInput::GameData(vec![0x11, 0x22]));
    let outputs = manager.process_client_input(1, ClientInput::GameData(vec![0x33, 0x44]));
    assert!(matches!(outputs[0].response, ServerResponse::GameData(_)));
}

#[test]
fn simple_game_sync_test_gd_gc_pattern_delay_2() {
    let mut manager = SimpleGameSync::new(vec![2, 2]);

    manager.process_client_input(0, ClientInput::GameData(vec![0xAA, 0xBB, 0xAA, 0xBB]));
    let outputs =
        manager.process_client_input(1, ClientInput::GameData(vec![0xCC, 0xDD, 0xCC, 0xDD]));
    assert_eq!(outputs.len(), 2);

    manager.process_client_input(0, ClientInput::GameCache(0));
    let outputs = manager.process_client_input(1, ClientInput::GameCache(0));
    assert!(matches!(outputs[0].response, ServerResponse::GameCache(_)));
}

#[test]
fn simple_game_sync_test_gd_gc_creates_new_combined() {
    let mut manager = SimpleGameSync::new(vec![1, 1]);

    manager.process_client_input(0, ClientInput::GameData(vec![0x01, 0x02]));
    manager.process_client_input(1, ClientInput::GameData(vec![0x03, 0x04]));

    manager.process_client_input(0, ClientInput::GameData(vec![0x05, 0x06]));
    let outputs = manager.process_client_input(1, ClientInput::GameCache(0));

    match &outputs[0].response {
        ServerResponse::GameData(data) => {
            assert_eq!(data, &vec![0x05, 0x06, 0x03, 0x04]);
        }
        _ => panic!("Should be GameData"),
    }
}

#[test]
fn simple_game_sync_test_gc_gc_creates_new_combined() {
    let mut manager = SimpleGameSync::new(vec![1, 1]);

    manager.process_client_input(0, ClientInput::GameData(vec![0x01, 0x02]));
    manager.process_client_input(1, ClientInput::GameData(vec![0x03, 0x04]));

    manager.process_client_input(0, ClientInput::GameCache(0));
    manager.process_client_input(1, ClientInput::GameData(vec![0x05, 0x06]));

    manager.process_client_input(0, ClientInput::GameData(vec![0x07, 0x08]));
    manager.process_client_input(1, ClientInput::GameCache(0));

    manager.process_client_input(0, ClientInput::GameCache(0));
    let outputs = manager.process_client_input(1, ClientInput::GameCache(1));
    assert!(matches!(outputs[0].response, ServerResponse::GameCache(_)));

    manager.process_client_input(0, ClientInput::GameCache(1));
    let outputs = manager.process_client_input(1, ClientInput::GameCache(1));
    match &outputs[0].response {
        ServerResponse::GameData(_) => {}
        _ => panic!("Should be GameData (new combination)"),
    }
}

#[test]
fn simple_game_sync_test_delay_2_with_4_bytes_succeeds() {
    let mut manager = SimpleGameSync::new(vec![2, 2]);

    manager.process_client_input(0, ClientInput::GameData(vec![0xAA, 0xBB, 0xCC, 0xDD]));
    let outputs =
        manager.process_client_input(1, ClientInput::GameData(vec![0x11, 0x22, 0x33, 0x44]));

    assert_eq!(outputs.len(), 2);
}

#[test]
fn test_without_preemptive_padding() {
    // Create manager without padding
    let mut manager = SimpleGameSync::new_without_padding(vec![1, 2]);

    // P0 sends first input - no output (P1 has no data yet, not even padding)
    let outputs = manager.process_client_input(0, ClientInput::GameData(vec![0x01, 0x00]));
    assert_eq!(outputs.len(), 0);

    // P0 sends second input - still no output
    let outputs = manager.process_client_input(0, ClientInput::GameData(vec![0x02, 0x00]));
    assert_eq!(outputs.len(), 0);

    // P1 finally sends input (4 bytes for delay 2)
    let outputs =
        manager.process_client_input(1, ClientInput::GameData(vec![0xAA, 0xBB, 0xCC, 0xDD]));

    // Now both players can receive
    let p0_outputs: Vec<_> = outputs.iter().filter(|o| o.player_id == 0).collect();
    let p1_outputs: Vec<_> = outputs.iter().filter(|o| o.player_id == 1).collect();

    // P0 should get 2 frames (frames 1-2)
    assert_eq!(p0_outputs.len(), 2);
    // P1 should get 1 batch (frames 1-2 combined)
    assert_eq!(p1_outputs.len(), 1);

    // Verify P0's frames
    match &p0_outputs[0].response {
        ServerResponse::GameData(data) => {
            // [P0_F1][P1_F1] = [01 00][AA BB]
            assert_eq!(data, &vec![0x01, 0x00, 0xAA, 0xBB]);
        }
        _ => panic!("Should be GameData"),
    }
    match &p0_outputs[1].response {
        ServerResponse::GameData(data) => {
            // [P0_F2][P1_F2] = [02 00][CC DD]
            assert_eq!(data, &vec![0x02, 0x00, 0xCC, 0xDD]);
        }
        _ => panic!("Should be GameData"),
    }

    // Verify P1's combined frames
    match &p1_outputs[0].response {
        ServerResponse::GameData(data) => {
            // [P0_F1][P1_F1][P0_F2][P1_F2] = [01 00][AA BB][02 00][CC DD]
            assert_eq!(data, &vec![0x01, 0x00, 0xAA, 0xBB, 0x02, 0x00, 0xCC, 0xDD]);
        }
        _ => panic!("Should be GameData"),
    }
}

#[test]
fn test_with_vs_without_padding_difference() {
    // WITH padding: P0 gets output immediately
    let mut with_padding = SimpleGameSync::new(vec![1, 2]);
    let outputs = with_padding.process_client_input(0, ClientInput::GameData(vec![0x01, 0x00]));
    assert_eq!(
        outputs.len(),
        1,
        "With padding: P0 should get immediate output"
    );

    // WITHOUT padding: P0 waits for P1
    let mut without_padding = SimpleGameSync::new_without_padding(vec![1, 2]);
    let outputs =
        without_padding.process_client_input(0, ClientInput::GameData(vec![0x01, 0x00]));
    assert_eq!(
        outputs.len(),
        0,
        "Without padding: P0 must wait for P1's first input"
    );
}
