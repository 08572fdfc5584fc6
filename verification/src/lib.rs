//! LAN chat: serverless text and voice over an IPv6 multicast group.

pub mod args;
pub mod audio;
pub mod cards;
pub mod chat;
pub mod engine;
pub mod levels;
pub mod lists;
pub mod net;
pub mod presence;
pub mod protocol;
pub mod text;
pub mod theme;
pub mod voice;
pub mod wire;
