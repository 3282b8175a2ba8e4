//! A self-hosted synchronization server core for a flashcard client
//! ecosystem: session and host-key management, the collection sync
//! state machine, the media differential sync engine, and the request
//! envelope codec.

pub mod bytes;
pub mod colsync;
pub mod envelope;
pub mod json;
pub mod keys;
pub mod media;
pub mod ops;
pub mod router;
pub mod session;
pub mod zipio;
