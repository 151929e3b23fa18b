//! Sans-I/O signaling authority: rooms, browser sessions and SFU workers.

pub mod client;
pub mod collider;
pub mod json;
pub mod key;
pub mod messages;
pub mod ord_map;
pub mod room;
pub mod room_table;
pub mod seqs;
pub mod sfu;
pub mod text;
pub mod time;
pub mod v2;
pub mod views;
pub mod wire;
