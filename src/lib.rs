//! A DNS message codec over a fixed 512-byte packet buffer: decoding with compression
//! pointers, encoding in full form, and the queries that drive iterative resolution.
use vstd::prelude::*;

pub mod buffer;
pub mod header;
pub mod name;
pub mod packet;
pub mod question;
pub mod record;
pub mod text;

pub use buffer::{BytePacketBuffer, DnsError};
pub use header::{DnsHeader, ResultCode};
pub use packet::DnsPacket;
pub use question::{DnsQuestion, QueryType};
pub use record::{DnsRecord, Ipv4Addr, Ipv6Addr};

verus! {

} // verus!
