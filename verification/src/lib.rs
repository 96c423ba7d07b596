//! A minimal key-value service core speaking a RESP-style wire protocol:
//! a frame codec (parse and serialize), a key-value store with lazy
//! time-to-live expiration, and a command dispatcher. Connection handling
//! and the clock live outside this crate; the core works on plain bytes,
//! strings and second counts.

pub mod dispatch;
pub mod num;
pub mod resp;
pub mod store;
pub mod text;
