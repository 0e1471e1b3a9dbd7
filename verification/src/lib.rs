//! A codec for DNS messages in a fixed 512-byte packet buffer.
//!
//! Decoding reads a header, the questions and three sections of resource
//! records from untrusted bytes; encoding writes them back in wire format.
//! Decoding never reads past the buffer and never follows more than five
//! compression pointers for one name; where it fails, it returns no message
//! and leaves the buffer as it was.
//!
//! The modules, leaves first:
//! - [`error`]: why a call gave up;
//! - [`wire`]: integers in network byte order, as a model;
//! - [`buffer`]: the buffer and its bounds-checked reads and writes;
//! - [`emit`]: what an encoder sets out to write, as a model;
//! - [`text`]: from the bytes of a label to its text;
//! - [`name`]: domain names, with and without compression;
//! - [`header`], [`question`], [`record`], [`packet`]: the parts of a
//!   message and the message itself;
//! - [`laws`]: what holds of decoding and encoding together.
//!
//! Every executable function states in its contract what it returns and what
//! it leaves in the buffer, over the models of [`wire`], [`name`] and the
//! modules of the parts.

pub mod buffer;
pub mod emit;
pub mod error;
pub mod header;
pub mod laws;
pub mod name;
pub mod packet;
pub mod question;
pub mod record;
pub mod text;
pub mod wire;

pub use crate::buffer::{BytePacketBuffer, PacketBuffer};
pub use crate::error::DnsError;
pub use crate::header::{DnsHeader, ResultCode};
pub use crate::packet::DnsPacket;
pub use crate::question::{DnsQuestion, QueryType};
pub use crate::record::{DnsRecord, Ipv4Address};
