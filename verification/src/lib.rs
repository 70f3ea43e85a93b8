//! A small line-delimited message relay, verified with Verus.
//!
//! The library holds the relay's core: the wire codec for [`Message`],
//! the per-connection state with its two worker state machines, the
//! registry that fans messages out to live peers, and the router's
//! dispatch rule.  Socket and thread plumbing lives outside the library.

use vstd::prelude::*;

mod client;
mod connection;
mod error;
mod message;
mod server;

pub use client::Client;
pub use connection::{
    Action, Connection, ConnectionId, ConnectionRegistry, ConnectionView, ControlEvent,
    ReadEvent, ReaderStep, RegistryView, RelayStep, WriterStep,
};
pub use connection::{reader_control_step, reader_delivery_step, reader_read_step, writer_step};
pub use connection::{
    broadcast_spec, disconnect_spec, forward_spec, lemma_disconnect_idempotent,
    lemma_forward_to_all_evicts_dead, lemma_forward_to_all_excludes_source, lemma_ids_monotone,
    lemma_idx_of_unique,
};
pub use error::{describe_error_spec, Error};
pub use message::{decode_spec, describe_spec, encode_spec, lemma_round_trip, lemma_unescape_escape};
pub use message::{Message, MessageView};
pub use server::dispatch;

verus! {

/// The `Result` subtype for this crate.
pub type MpResult<T> = Result<T, Error>;

} // verus!
