use direlera_rs::simplest_game_sync::{
    CachedGameSync, CachedPlayerOutput, ClientInput, GameSyncError, ServerResponse, SimplestGameSync,
};

#[test]
fn simplest_game_sync_test_equal_delays() {
    let mut manager = CachedGameSync::new(vec![1, 1]);

    // Frame 1: P0 sends input
    let outputs = manager
        .process_client_input(0, ClientInput::GameData(vec![0x01, 0x02]))
        .unwrap();
    assert_eq!(outputs.len(), 0);

    // Frame 1: P1 sends input
    let outputs = manager
        .process_client_input(1, ClientInput::GameData(vec![0x03, 0x04]))
        .unwrap();
    assert_eq!(outputs.len(), 2);

    assert_eq!(outputs[0].player_id, 0);
    assert_eq!(outputs[1].player_id, 1);

    match &outputs[0].response {
        ServerResponse::GameData(data) => {
            assert_eq!(data, &vec![0x01, 0x02, 0x03, 0x04]);
        }
        _ => panic!("P0's first output should be GameData"),
    }

    match &outputs[1].response {
        ServerResponse::GameData(data) => {
            assert_eq!(data, &vec![0x01, 0x02, 0x03, 0x04]);
        }
        _ => panic!("P1's first output should be GameData"),
    }

    // Frame 2: Both send same inputs via cache
    manager
        .process_client_input(0, ClientInput::GameCache(0))
        .unwrap();
    let outputs = manager
        .process_client_input(1, ClientInput::GameCache(0))
        .unwrap();

    assert_eq!(outputs.len(), 2);
    assert!(matches!(outputs[0].response, ServerResponse::GameCache(_)));
    assert!(matches!(outputs[1].response, ServerResponse::GameCache(_)));
}
#[test]
fn test_equal_delays_drop() {
    let mut manager = CachedGameSync::new(vec![1, 1]);
    manager
        .process_client_input(0, ClientInput::GameData(vec![0x01, 0x02, 0x03]))
        .unwrap();
    let outputs = manager
        .process_client_input(1, ClientInput::GameData(vec![0x04, 0x05, 0x06]))
        .unwrap();
    assert_eq!(
        outputs,
        vec![
            CachedPlayerOutput {
                player_id: 0,
                response: ServerResponse::GameData(vec![0x01, 0x02, 0x03, 0x04, 0x05, 0x06])
            },
            CachedPlayerOutput {
                player_id: 1,
                response: ServerResponse::GameData(vec![0x01, 0x02, 0x03, 0x04, 0x05, 0x06])
            },
        ]
    )
}

#[test]
fn simplest_game_sync_test_different_delays() {
    let mut manager = CachedGameSync::new(vec![1, 2]);

    // P0 sends first input
    let outputs = manager
        .process_client_input(0, ClientInput::GameData(vec![0x01, 0x00]))
        .unwrap();
    assert_eq!(outputs.len(), 0);

    // P0 sends second and third
    manager
        .process_client_input(0, ClientInput::GameData(vec![0x02, 0x00]))
        .unwrap();
    let outputs = manager
        .process_client_input(0, ClientInput::GameData(vec![0x03, 0x00]))
        .unwrap();
    assert_eq!(outputs.len(), 0);

    // P1 sends 4 bytes (2 frames)
    // When P1 sends input, bundles are created from accumulated P0 frames
    // P0 needs: delay 1 * 2 players * 2 bytes = 4 bytes
    // P1 needs: delay 2 * 2 players * 2 bytes = 8 bytes
    // Bundle size: 2 players * 2 bytes = 4 bytes per bundle
    let outputs = manager
        .process_client_input(1, ClientInput::GameData(vec![0xAA, 0xBB, 0xCC, 0xDD]))
        .unwrap();

    // Check that we got outputs
    // With the fixed logic:
    // - Bundle 1: [0x01, 0x00] + [0xAA, 0xBB] → P0 gets output immediately (4 bytes >= 4)
    // - Bundle 2: [0x02, 0x00] + [0xCC, 0xDD] → P0 gets another output (4 bytes >= 4), P1 gets output (8 bytes >= 8)
    let p0_outputs: Vec<_> = outputs.iter().filter(|o| o.player_id == 0).collect();
    let p1_outputs: Vec<_> = outputs.iter().filter(|o| o.player_id == 1).collect();

    // P0 should get 2 outputs (one after each bundle, since delay 1 needs 4 bytes = 1 bundle)
    assert_eq!(
        p0_outputs.len(),
        2,
        "P0 should get 2 outputs (one per bundle)"
    );

    // Verify P0's first output (after Bundle 1)
    match &p0_outputs[0].response {
        ServerResponse::GameData(data) => {
            assert_eq!(
                data,
                &vec![0x01, 0x00, 0xAA, 0xBB],
                "P0's first output should be Bundle 1"
            );
        }
        _ => panic!("P0's first output should be GameData"),
    }

    // Verify P0's second output (after Bundle 2)
    match &p0_outputs[1].response {
        ServerResponse::GameData(data) => {
            assert_eq!(
                data,
                &vec![0x02, 0x00, 0xCC, 0xDD],
                "P0's second output should be Bundle 2"
            );
        }
        _ => panic!("P0's second output should be GameData"),
    }

    // P1 should get 1 output (after 2 bundles, since delay 2 needs 8 bytes = 2 bundles)
    assert_eq!(
        p1_outputs.len(),
        1,
        "P1 should get 1 output (after 2 bundles)"
    );

    // Verify P1's output (after Bundle 2, contains both bundles)
    match &p1_outputs[0].response {
        ServerResponse::GameData(data) => {
            assert_eq!(
                data,
                &vec![0x01, 0x00, 0xAA, 0xBB, 0x02, 0x00, 0xCC, 0xDD],
                "P1's output should contain both bundles"
            );
        }
        _ => panic!("P1's output should be GameData"),
    }
}

#[test]
fn simplest_game_sync_test_cache_mechanism() {
    let mut manager = CachedGameSync::new(vec![1, 1]);

    manager
        .process_client_input(0, ClientInput::GameData(vec![0x00, 0x00]))
        .unwrap();
    let outputs = manager
        .process_client_input(1, ClientInput::GameData(vec![0x00, 0x00]))
        .unwrap();

    assert_eq!(outputs.len(), 2);
    assert!(matches!(outputs[0].response, ServerResponse::GameData(_)));

    manager
        .process_client_input(0, ClientInput::GameCache(0))
        .unwrap();
    let outputs = manager
        .process_client_input(1, ClientInput::GameCache(0))
        .unwrap();

    let has_cache = outputs
        .iter()
        .any(|o| matches!(o.response, ServerResponse::GameCache(_)));
    assert!(has_cache);
}

#[test]
fn simplest_game_sync_test_three_players() {
    let mut manager = CachedGameSync::new(vec![1, 1, 2]);

    manager
        .process_client_input(0, ClientInput::GameData(vec![0x01, 0x00]))
        .unwrap();
    let outputs = manager
        .process_client_input(1, ClientInput::GameData(vec![0x02, 0x00]))
        .unwrap();

    assert_eq!(outputs.len(), 0); // P2 hasn't sent input yet

    // P2 sends input
    let outputs = manager
        .process_client_input(2, ClientInput::GameData(vec![0x03, 0x00, 0x04, 0x00]))
        .unwrap();

    assert!(outputs.len() >= 2);
    let p0_outputs: Vec<_> = outputs.iter().filter(|o| o.player_id == 0).collect();
    let p1_outputs: Vec<_> = outputs.iter().filter(|o| o.player_id == 1).collect();

    assert_eq!(p0_outputs.len(), 1);
    assert_eq!(p1_outputs.len(), 1);
}

#[test]
fn simplest_game_sync_test_gd_gc_pattern_delay_1() {
    let mut manager = CachedGameSync::new(vec![1, 1]);

    // Frame 1
    manager
        .process_client_input(0, ClientInput::GameData(vec![0xAA, 0xBB]))
        .unwrap();
    let outputs = manager
        .process_client_input(1, ClientInput::GameData(vec![0xCC, 0xDD]))
        .unwrap();
    assert_eq!(outputs.len(), 2);

    // Frame 2
    manager
        .process_client_input(0, ClientInput::GameCache(0))
        .unwrap();
    let outputs = manager
        .process_client_input(1, ClientInput::GameCache(0))
        .unwrap();
    assert!(matches!(outputs[0].response, ServerResponse::GameCache(_)));

    // Frame 3
    manager
        .process_client_input(0, ClientInput::GameCache(0))
        .unwrap();
    let outputs = manager
        .process_client_input(1, ClientInput::GameCache(0))
        .unwrap();
    assert!(matches!(outputs[0].response, ServerResponse::GameCache(_)));

    // Frame 4
    manager
        .process_client_input(0, ClientInput::GameData(vec![0x11, 0x22]))
        .unwrap();
    let outputs = manager
        .process_client_input(1, ClientInput::GameData(vec![0x33, 0x44]))
        .unwrap();
    assert!(matches!(outputs[0].response, ServerResponse::GameData(_)));
}

#[test]
fn simplest_game_sync_test_gd_gc_pattern_delay_2() {
    let mut manager = CachedGameSync::new(vec![2, 2]);

    manager
        .process_client_input(0, ClientInput::GameData(vec![0xAA, 0xBB, 0xAA, 0xBB]))
        .unwrap();
    let outputs = manager
        .process_client_input(1, ClientInput::GameData(vec![0xCC, 0xDD, 0xCC, 0xDD]))
        .unwrap();
    assert_eq!(outputs.len(), 2);

    manager
        .process_client_input(0, ClientInput::GameCache(0))
        .unwrap();
    let outputs = manager
        .process_client_input(1, ClientInput::GameCache(0))
        .unwrap();
    assert!(matches!(outputs[0].response, ServerResponse::GameCache(_)));
}

#[test]
fn simplest_game_sync_test_gd_gc_creates_new_combined() {
    let mut manager = CachedGameSync::new(vec![1, 1]);

    manager
        .process_client_input(0, ClientInput::GameData(vec![0x01, 0x02]))
        .unwrap();
    manager
        .process_client_input(1, ClientInput::GameData(vec![0x03, 0x04]))
        .unwrap();

    manager
        .process_client_input(0, ClientInput::GameData(vec![0x05, 0x06]))
        .unwrap();
    let outputs = manager
        .process_client_input(1, ClientInput::GameCache(0))
        .unwrap();

    match &outputs[0].response {
        ServerResponse::GameData(data) => {
            assert_eq!(data, &vec![0x05, 0x06, 0x03, 0x04]);
        }
        _ => panic!("Should be GameData"),
    }
}

#[test]
fn simplest_game_sync_test_gc_gc_creates_new_combined() {
    let mut manager = CachedGameSync::new(vec![1, 1]);

    manager
        .process_client_input(0, ClientInput::GameData(vec![0x01, 0x02]))
        .unwrap();
    manager
        .process_client_input(1, ClientInput::GameData(vec![0x03, 0x04]))
        .unwrap();

    manager
        .process_client_input(0, ClientInput::GameCache(0))
        .unwrap();
    manager
        .process_client_input(1, ClientInput::GameData(vec![0x05, 0x06]))
        .unwrap();

    manager
        .process_client_input(0, ClientInput::GameData(vec![0x07, 0x08]))
        .unwrap();
    manager
        .process_client_input(1, ClientInput::GameCache(0))
        .unwrap();

    manager
        .process_client_input(0, ClientInput::GameCache(0))
        .unwrap();
    let outputs = manager
        .process_client_input(1, ClientInput::GameCache(1))
        .unwrap();
    assert!(matches!(outputs[0].response, ServerResponse::GameCache(_)));

    manager
        .process_client_input(0, ClientInput::GameCache(1))
        .unwrap();
    let outputs = manager
        .process_client_input(1, ClientInput::GameCache(1))
        .unwrap();
    match &outputs[0].response {
        ServerResponse::GameData(_) => {}
        _ => panic!("Should be GameData (new combination)"),
    }
}

#[test]
fn simplest_game_sync_test_delay_2_with_4_bytes_succeeds() {
    let mut manager = CachedGameSync::new(vec![2, 2]);

    manager
        .process_client_input(0, ClientInput::GameData(vec![0xAA, 0xBB, 0xCC, 0xDD]))
        .unwrap();
    let outputs = manager
        .process_client_input(1, ClientInput::GameData(vec![0x11, 0x22, 0x33, 0x44]))
        .unwrap();

    assert_eq!(outputs.len(), 2);
}

#[test]
fn test_invalid_player_id() {
    let mut manager = CachedGameSync::new(vec![1, 1]);
    let result = manager.process_client_input(2, ClientInput::GameData(vec![0x01, 0x02]));

    assert!(result.is_err());
    assert!(matches!(
        result.unwrap_err(),
        GameSyncError::InvalidPlayerId { .. }
    ));
}

#[test]
fn test_cache_position_not_found() {
    let mut manager = CachedGameSync::new(vec![1, 1]);
    let result = manager.process_client_input(0, ClientInput::GameCache(0));

    assert!(result.is_err());
    assert!(matches!(
        result.unwrap_err(),
        GameSyncError::CachePositionNotFound { .. }
    ));
}

#[test]
fn test_player_delay() {
    let manager = CachedGameSync::new(vec![1, 2, 3]);
    assert_eq!(manager.get_player_delay(0), 1);
    assert_eq!(manager.get_player_delay(1), 2);
    assert_eq!(manager.get_player_delay(2), 3);
}

#[test]
fn test_player_count() {
    let manager = CachedGameSync::new(vec![1, 1, 1]);
    assert_eq!(manager.player_count(), 3);
}

#[test]
fn test_game_data_size() {
    let mut manager = CachedGameSync::new(vec![1, 1]);
    manager
        .process_client_input(0, ClientInput::GameData(vec![0x01, 0x02]))
        .unwrap();
    assert_eq!(manager.sync.game_data_size(), 2);
}

#[test]
fn test_game_data_size_with_different_delays() {
    let mut manager = CachedGameSync::new(vec![1, 2]);
    manager
        .process_client_input(0, ClientInput::GameData(vec![0x01, 0x02]))
        .unwrap();
    let result = manager
        .process_client_input(1, ClientInput::GameData(vec![0x03, 0x04, 0x05, 0x06]))
        .unwrap();
    assert_eq!(
        result,
        vec![CachedPlayerOutput {
            player_id: 0,
            response: ServerResponse::GameData(vec![0x01, 0x02, 0x03, 0x04])
        }]
    );
    let result = manager
        .process_client_input(0, ClientInput::GameData(vec![0x07, 0x08]))
        .unwrap();
    assert_eq!(
        result,
        vec![
            CachedPlayerOutput {
                player_id: 0,
                response: ServerResponse::GameData(vec![0x07, 0x08, 0x05, 0x06])
            },
            CachedPlayerOutput {
                player_id: 1,
                response: ServerResponse::GameData(vec![
                    0x01, 0x02, 0x03, 0x04, 0x07, 0x08, 0x05, 0x06
                ])
            },
        ]
    );
}
#[test]
fn test_game_data_size_drop() {
    let mut manager = CachedGameSync::new(vec![1, 1]);
    manager
        .process_client_input(0, ClientInput::GameData(vec![0x01, 0x02]))
        .unwrap();
    manager.mark_player_dropped(0).unwrap();
    let result = manager
        .process_client_input(1, ClientInput::GameData(vec![0x03, 0x04]))
        .unwrap();
    assert_eq!(
        result,
        vec![
            CachedPlayerOutput {
                player_id: 0,
                response: ServerResponse::GameData(vec![0x01, 0x02, 0x03, 0x04])
            },
            CachedPlayerOutput {
                player_id: 1,
                response: ServerResponse::GameData(vec![0x01, 0x02, 0x03, 0x04])
            },
        ]
    );
    let result = manager
        .process_client_input(1, ClientInput::GameData(vec![0x05, 0x06]))
        .unwrap();
    assert_eq!(
        result,
        vec![
            CachedPlayerOutput {
                player_id: 0,
                response: ServerResponse::GameData(vec![0, 0, 5, 6]),
            },
            CachedPlayerOutput {
                player_id: 1,
                response: ServerResponse::GameData(vec![0, 0, 5, 6])
            },
        ]
    )
}

#[test]
fn zero_delays_are_accepted() {
    let mut s = SimplestGameSync::new(vec![0, 2]);
    assert!(!s.is_player_dropped(0));
    assert!(!s.is_player_dropped(1));
    assert!(!s.all_players_dropped());
    assert_eq!(s.drain_ready_inputs(), vec![]);
    // a zero-delay player's input is not queued
    assert_eq!(s.process_client_input(0, vec![1, 2]), Ok(vec![]));
    assert!(!s.input_stalls(1, &vec![3, 4, 5, 6]));
    assert_eq!(s.process_client_input(1, vec![3, 4, 5, 6]), Ok(vec![]));
    // dropping the zero-delay player would form a round it can never leave
    assert!(s.drop_stalls(0));
    assert!(!s.drop_stalls(1));
}

#[test]
fn cached_sync_with_zero_delay_reports_stalls() {
    let mut m = CachedGameSync::new(vec![0, 1]);
    assert_eq!(m.get_player_delay(0), 0);
    assert!(!m.input_would_stall(1, &ClientInput::GameData(vec![1, 2])));
    assert_eq!(m.process_client_input(1, ClientInput::GameData(vec![1, 2])), Ok(vec![]));
    assert!(m.drop_would_stall(0));
    assert!(!m.drop_would_stall(5));
}

#[test]
fn a_player_is_dropped_exactly_after_its_drop() {
    let mut s = SimplestGameSync::new(vec![1, 1, 1]);
    assert!(!s.all_players_dropped());
    s.process_client_input(0, vec![1, 2]).unwrap();
    assert!(!s.is_player_dropped(0));
    s.mark_player_dropped(1).unwrap();
    assert!(s.is_player_dropped(1));
    assert!(!s.is_player_dropped(0) && !s.is_player_dropped(2));
    s.process_client_input(1, vec![3, 4]).unwrap();
    assert!(s.is_player_dropped(1));
    assert!(!s.is_player_dropped(3));
}

#[test]
fn dropping_a_player_past_the_count_is_refused() {
    let mut c = CachedGameSync::new(vec![1, 1]);
    assert!(matches!(
        c.mark_player_dropped(2),
        Err(GameSyncError::InvalidPlayerId { player_id: 2, player_count: 2 })
    ));
    assert!(c.mark_player_dropped(1).is_ok());
    assert!(c.is_player_dropped(1));
    assert!(!c.all_players_dropped());
    assert!(c.mark_player_dropped(0).is_ok());
    assert!(c.all_players_dropped());
}
