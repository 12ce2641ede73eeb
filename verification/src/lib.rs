//! An in-memory key/value and publish/subscribe engine that speaks the RESP
//! wire format: the frame codec, the command set, the store with its
//! expiration index, and the subscription bookkeeping of a connection.

pub mod cmd;
pub mod connection;
pub mod convert;
pub mod db;
pub mod decimal;
pub mod display;
pub mod frame;
pub mod frame_eq;
pub mod laws;
pub mod parse;
pub mod pubsub;
pub mod server;
pub mod text;

pub use cmd::Command;
pub use db::Db;
pub use frame::{Cursor, Frame, FrameError};
pub use parse::{Parse, ParseError};
pub use server::DEFAULT_PORT;
