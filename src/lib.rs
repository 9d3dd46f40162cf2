//! A key-value service core: message schema, wire codec, framing,
//! storage backends, command dispatch and a publish/subscribe registry.
pub mod wire;
pub mod value;
pub mod command;
pub mod error;
pub mod codec;
pub mod frame;
pub mod storage;
pub mod layout;
pub mod sled_db;
pub mod command_service;
pub mod service;
pub mod checks;
pub mod topic;
pub mod topic_service;
