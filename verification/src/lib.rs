//! A small multi-room chat relay, verified with Verus.
//!
//! The crate has three parts:
//!
//! * [`wire`] — the wire grammar: length-prefixed frames whose payload is a
//!   compact self-describing binary encoding (CBOR maps with a `cmd` tag and
//!   an optional `data` payload) of the command / response vocabulary,
//!   together with round-trip and incremental-feed proofs.
//! * [`codec`] — the executable frame codecs for both transport directions,
//!   verified against the grammar in [`wire`].
//! * [`registry`] and [`session`] — the room registry (the single owner of
//!   room membership and broadcast fan-out) and the per-connection session
//!   dispatch, verified to keep every connected session in exactly one room.
//!
//! All I/O (sockets, mailboxes, the accept loop) lives outside this crate;
//! the library works on plain byte buffers and values.
pub mod codec;
pub mod registry;
pub mod session;
pub mod wire;
