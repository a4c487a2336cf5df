//! Printing address ranges through a small template language: MAC, IPv4,
//! IPv6 and plain numbers, with ranges that may wrap around and several
//! ranges bound to one template.
pub mod addr;
pub mod addr_range;
pub mod bundled_iter;
pub mod format;
pub mod ipv4addr;
pub mod ipv6addr;
pub mod macaddr;
pub mod render;
pub mod text;

pub use addr::Addr;
pub use addr_range::{AddrRange, AddrRangeIter, AddrRanges, AddrText, Family, IntoAddr, Rangeable};
pub use bundled_iter::{BundledIter, IterBundle, ResettableIterator, VecIter};
pub use format::{parse_format, ErrorKind, Format, FormatError, Kind};
pub use ipv4addr::IPv4Addr;
pub use ipv6addr::IPv6Addr;
pub use macaddr::MacAddr;
pub use render::{format_macipr, Renderer};
