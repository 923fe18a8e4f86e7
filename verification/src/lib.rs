pub mod cache_system;
pub mod config;
pub mod game_cache;
pub mod game_sync;
pub mod handlers;
pub mod kaillera;
pub mod logger;
pub mod packet_util;
pub mod protocol;
pub mod room;
pub mod simple_game_sync;
pub mod simplest_game_sync;
pub mod state;
pub mod sync_core;
pub mod session_manager;
pub mod service_server;
pub mod service_game;
pub mod service_lobby;
