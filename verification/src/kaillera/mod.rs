pub mod message_types;
pub mod protocol;
