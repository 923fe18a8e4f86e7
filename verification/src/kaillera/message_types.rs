//! Kaillera message type codes and their human readable names.
use vstd::prelude::*;

verus! {

/// User Quit
pub const USER_QUIT: u8 = 0x01;
/// User joined
pub const USER_JOINED: u8 = 0x02;
/// User Login Information
pub const USER_LOGIN: u8 = 0x03;
/// Server Status
pub const SERVER_STATUS: u8 = 0x04;
/// Server to Client ACK
pub const SERVER_TO_CLIENT_ACK: u8 = 0x05;
/// Client to Server ACK
pub const CLIENT_TO_SERVER_ACK: u8 = 0x06;
/// Global Chat
pub const GLOBAL_CHAT: u8 = 0x07;
/// Game Chat
pub const GAME_CHAT: u8 = 0x08;
/// Client Keep Alive
pub const CLIENT_KEEP_ALIVE: u8 = 0x09;
/// Create Game
pub const CREATE_GAME: u8 = 0x0A;
/// Quit Game
pub const QUIT_GAME: u8 = 0x0B;
/// Join Game
pub const JOIN_GAME: u8 = 0x0C;
/// Player Information
pub const PLAYER_INFORMATION: u8 = 0x0D;
/// Update Game Status
pub const UPDATE_GAME_STATUS: u8 = 0x0E;
/// Kick User from Game
pub const KICK_USER: u8 = 0x0F;
/// Close game
pub const CLOSE_GAME: u8 = 0x10;
/// Start Game
pub const START_GAME: u8 = 0x11;
/// Game Data
pub const GAME_DATA: u8 = 0x12;
/// Game Cache
pub const GAME_CACHE: u8 = 0x13;
/// Drop Game
pub const DROP_GAME: u8 = 0x14;
/// Ready to Play Signal
pub const READY_TO_PLAY: u8 = 0x15;
/// Connection Rejected
pub const CONNECTION_REJECTED: u8 = 0x16;
/// Server Information Message
pub const SERVER_INFORMATION: u8 = 0x17;

/// The name of a message type, "Unknown" for a code that no message uses.
pub open spec fn message_type_name_spec(msg_type: u8) -> &'static str {
    if msg_type == USER_QUIT { "UserQuit" }
    else if msg_type == USER_JOINED { "UserJoined" }
    else if msg_type == USER_LOGIN { "UserLogin" }
    else if msg_type == SERVER_STATUS { "ServerStatus" }
    else if msg_type == SERVER_TO_CLIENT_ACK { "ServerToClientACK" }
    else if msg_type == CLIENT_TO_SERVER_ACK { "ClientToServerACK" }
    else if msg_type == GLOBAL_CHAT { "GlobalChat" }
    else if msg_type == GAME_CHAT { "GameChat" }
    else if msg_type == CLIENT_KEEP_ALIVE { "ClientKeepAlive" }
    else if msg_type == CREATE_GAME { "CreateGame" }
    else if msg_type == QUIT_GAME { "QuitGame" }
    else if msg_type == JOIN_GAME { "JoinGame" }
    else if msg_type == PLAYER_INFORMATION { "PlayerInformation" }
    else if msg_type == UPDATE_GAME_STATUS { "UpdateGameStatus" }
    else if msg_type == KICK_USER { "KickUser" }
    else if msg_type == CLOSE_GAME { "CloseGame" }
    else if msg_type == START_GAME { "StartGame" }
    else if msg_type == GAME_DATA { "GameData" }
    else if msg_type == GAME_CACHE { "GameCache" }
    else if msg_type == DROP_GAME { "DropGame" }
    else if msg_type == READY_TO_PLAY { "ReadyToPlay" }
    else if msg_type == CONNECTION_REJECTED { "ConnectionRejected" }
    else if msg_type == SERVER_INFORMATION { "ServerInformation" }
    else { "Unknown" }
}

/// Convert message type to human-readable name
pub fn message_type_name(msg_type: u8) -> (name: &'static str)
    ensures
        name == message_type_name_spec(msg_type),
{
    match msg_type {
        USER_QUIT => "UserQuit",
        USER_JOINED => "UserJoined",
        USER_LOGIN => "UserLogin",
        SERVER_STATUS => "ServerStatus",
        SERVER_TO_CLIENT_ACK => "ServerToClientACK",
        CLIENT_TO_SERVER_ACK => "ClientToServerACK",
        GLOBAL_CHAT => "GlobalChat",
        GAME_CHAT => "GameChat",
        CLIENT_KEEP_ALIVE => "ClientKeepAlive",
        CREATE_GAME => "CreateGame",
        QUIT_GAME => "QuitGame",
        JOIN_GAME => "JoinGame",
        PLAYER_INFORMATION => "PlayerInformation",
        UPDATE_GAME_STATUS => "UpdateGameStatus",
        KICK_USER => "KickUser",
        CLOSE_GAME => "CloseGame",
        START_GAME => "StartGame",
        GAME_DATA => "GameData",
        GAME_CACHE => "GameCache",
        DROP_GAME => "DropGame",
        READY_TO_PLAY => "ReadyToPlay",
        CONNECTION_REJECTED => "ConnectionRejected",
        SERVER_INFORMATION => "ServerInformation",
        _ => "Unknown",
    }
}

} // verus!
