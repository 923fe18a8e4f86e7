use direlera_rs::game_cache::{form_frame, GameCache};
use direlera_rs::cache_system::CacheSystem;

#[test]
fn this_test_will_pass() {
    let mut cs = CacheSystem::new();
    cs.put_data(vec![1, 2, 3, 4]);
    let cp = cs.get_cache_position(vec![1, 2, 3, 4]);
    match cp {
        Ok(s) => assert_eq!(s, 0),
        Err(_e) => assert_eq!(1, 0),
    }
    cs.put_data(vec![1, 2, 3, 4]);
    let cp = cs.get_cache_position(vec![1, 2, 3, 4]);
    match cp {
        Ok(s) => assert_eq!(s, 0),
        Err(_e) => assert_eq!(1, 0),
    }
}

#[test]
fn put_data_reads_back_at_its_position() {
    let mut cache = CacheSystem::new();
    for i in 0..300u32 {
        let data = vec![(i % 256) as u8, (i / 256) as u8];
        let pos = cache.put_data(data.clone());
        assert_eq!(cache.get_data(pos).ok(), Some(data));
        assert!(cache.incoming_data_vec.len() <= 256);
    }
    assert_eq!(cache.get_cache_position(vec![9, 9]).is_err(), true);
}

#[test]
fn a_frame_joins_the_inputs_in_order_and_is_cached() {
    let mut cache = GameCache::new();
    let inputs = vec![vec![1u8, 2], vec![3u8, 4]];
    let f = form_frame(&mut cache, 0, &inputs);
    assert_eq!(f.frame_index, 0);
    assert_eq!(f.aggregated_data, vec![1, 2, 3, 4]);
    assert!(!f.use_cache);
    assert_eq!(f.cache_pos, 0);
    assert_eq!(f.data_to_send, vec![1, 2, 3, 4]);
    let g = form_frame(&mut cache, 1, &inputs);
    assert_eq!(g.frame_index, 1);
    assert!(g.use_cache);
    assert_eq!(g.cache_pos, 0);
    assert!(g.data_to_send.is_empty());
}
