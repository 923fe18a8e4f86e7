use direlera_rs::game_cache::GameCache;
use direlera_rs::kaillera::protocol::UDPPacketGenerator;
use direlera_rs::simple_game_sync::SimpleGameSync;
use direlera_rs::logger::{LogFormat, LogLevel};
use direlera_rs::simplest_game_sync::{CachedGameSync, SimplestGameSync};
use direlera_rs::sync_core::{ClientInput, ServerResponse};

#[test]
fn blocked_input_sends_nothing() {
    let mut s = SimplestGameSync::new(vec![1, 1, 1]);
    assert!(s.process_client_input(0, vec![1, 2]).unwrap().is_empty());
    assert!(s.process_client_input(1, vec![3, 4]).unwrap().is_empty());
    // the third player completes the frame: everyone gets it, in player order
    let out = s.process_client_input(2, vec![5, 6]).unwrap();
    assert_eq!(out.len(), 3);
    for o in &out {
        assert_eq!(o.output, vec![1, 2, 3, 4, 5, 6]);
    }
}

#[test]
fn nothing_ready_is_left_behind() {
    let mut s = CachedGameSync::new(vec![1, 1]);
    assert!(s.process_client_input(0, ClientInput::GameData(vec![1, 1])).unwrap().is_empty());
    assert!(s.process_client_input(0, ClientInput::GameData(vec![2, 2])).unwrap().is_empty());
    // player 1's first frame lets exactly the first frame out
    let out = s.process_client_input(1, ClientInput::GameData(vec![7, 7])).unwrap();
    assert_eq!(out.len(), 2);
    for o in &out {
        assert_eq!(o.response, ServerResponse::GameData(vec![1, 1, 7, 7]));
    }
    let out = s.process_client_input(1, ClientInput::GameData(vec![8, 8])).unwrap();
    assert_eq!(out.len(), 2);
    for o in &out {
        assert_eq!(o.response, ServerResponse::GameData(vec![2, 2, 8, 8]));
    }
}

#[test]
fn cache_finds_what_was_added() {
    let mut c = GameCache::new();
    let p = c.add(vec![1, 2, 3]);
    assert_eq!(c.find(&vec![1, 2, 3]), Some(p));
    assert_eq!(c.get(p), Some(&vec![1, 2, 3]));
    assert_eq!(c.find(&vec![4]), None);
}

#[test]
fn level_names_select_their_level() {
    for l in [LogLevel::Trace, LogLevel::Debug, LogLevel::Info, LogLevel::Warn, LogLevel::Error] {
        assert_eq!(LogLevel::from_str(l.as_str()), l);
    }
    // names are matched without regard to case
    assert_eq!(LogLevel::from_str("DEBUG"), LogLevel::Debug);
    assert_eq!(LogLevel::from_str("WaRn"), LogLevel::Warn);
    assert_eq!(LogLevel::from_str("verbose"), LogLevel::Info);
    assert_eq!(LogFormat::from_str("JSON"), LogFormat::Json);
    assert_eq!(LogFormat::from_str("other"), LogFormat::Compact);
}

#[test]
fn generator_keeps_the_newest_three_with_their_sequence_numbers() {
    let mut g = UDPPacketGenerator::new();
    for k in 0..4u8 {
        g.make_send_packet(0x20 + k, vec![k]);
    }
    let d = g.make_send_packet(0x30, vec![9]);
    // count 3; then seq 4, 3, 2, each: seq (2B), length 2 (2B), type, data
    assert_eq!(
        d,
        vec![3, 4, 0, 2, 0, 0x30, 9, 3, 0, 2, 0, 0x23, 3, 2, 0, 2, 0, 0x22, 2]
    );
}

#[test]
fn dropped_flag_stays_set() {
    let mut s = SimplestGameSync::new(vec![1, 1]);
    assert!(s.mark_player_dropped(1).unwrap().is_empty());
    assert!(s.is_player_dropped(1));
    // input afterwards, from either player, leaves the flag
    s.process_client_input(0, vec![1, 2]).unwrap();
    assert!(s.process_client_input(1, vec![3, 4]).unwrap().is_empty());
    assert!(s.is_player_dropped(1));
    assert!(!s.is_player_dropped(0));
}

#[test]
fn outputs_interleave_frame_by_frame() {
    let mut m = SimpleGameSync::new(vec![2, 2]);
    assert!(m.process_client_input(0, ClientInput::GameData(vec![0xA0, 0xA1, 0xB0, 0xB1])).is_empty());
    let out = m.process_client_input(1, ClientInput::GameData(vec![0xC0, 0xC1, 0xD0, 0xD1]));
    assert_eq!(out.len(), 2);
    for o in &out {
        match &o.response {
            ServerResponse::GameData(d) => {
                assert_eq!(d, &vec![0xA0, 0xA1, 0xC0, 0xC1, 0xB0, 0xB1, 0xD0, 0xD1]);
            },
            ServerResponse::GameCache(_) => panic!("first output is sent whole"),
        }
    }
}
