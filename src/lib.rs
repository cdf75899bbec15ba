//! A two-layer messaging stack for small embedded networks: a single client
//! polls up to 255 servers over an unreliable broadcast medium.
//!
//! The data-link layer packs a four-byte header, frames an authenticated and
//! encrypted payload, and hosts address discovery and firmware updates. The
//! application layer exchanges commands and events and keeps a client's view
//! of each server's event log in step with the server.

pub mod cipher;
pub mod discovery;
pub mod frame;
pub mod header;
pub mod protocol;
pub mod reconcile;
pub mod update;
pub mod varint;

pub use frame::{from_datagram, to_datagram, DataFrame, FromDatagramError};
pub use varint::varint_len;
pub use header::{new_nonce, DataSource, Header, HeaderParseError, HEADER_SIZE, MIC_SIZE, NONCE_SIZE};
pub use protocol::{event_reply, CommandRequest, EventOf, EventReply, NoEE, TemporalEvent};
