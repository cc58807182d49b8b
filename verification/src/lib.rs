//! Chunked file transfer between peers over a byte stream.
//!
//! A file travels as a header frame followed by chunk frames; the receiver
//! collects the chunks by index, assembles them, and accepts the file only
//! if its SHA-256 hash is the one the header announced.
//!
//! The crate holds the logic of a peer and none of its plumbing. Bytes come
//! in and go out as values; sockets, tasks, files and clocks belong to the
//! caller.
//!
//! * [`wire`] frames and parses the messages of the protocol.
//! * [`digest`] computes the content hash.
//! * [`split`] cuts a file into chunks, and [`store`] keeps the chunks of a
//!   transfer until the file is whole.
//! * [`session`] is the state machine of one transfer, sending or
//!   receiving.
//! * [`handler`] turns the reads of one connection into messages.
//! * [`console`] turns a typed line into a message.
//! * [`router`] owns the session table and decides what follows from each
//!   event.
//!
//! Every function is verified against its contract. The modules whose
//! names end in `_laws` hold theorems about the contracts: that encoding
//! and decoding undo each other, that a stream may be cut anywhere, that
//! the chunks give the file back, that no file is accepted with a wrong
//! hash, and, in [`transfer_laws`], that what a sender writes a receiver
//! ends up holding.

pub mod console;
pub mod digest;
pub mod handler;
pub mod handler_laws;
pub mod router;
pub mod router_laws;
pub mod session;
pub mod session_laws;
pub mod split;
pub mod store;
pub mod transfer_laws;
pub mod wire;
pub mod wire_laws;
