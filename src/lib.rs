//! Wire codec for the chat-message packet family: primitive encodings,
//! composite rules and the `PlayerChatMessage` packet, each proved against a
//! byte-level model.

pub mod chat;
pub mod error;
pub mod primitive;
pub mod varint;
