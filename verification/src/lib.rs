//! A transparent TCP-to-SOCKS5 redirector core: a bit-packed, Huffman-compressed
//! codec that smuggles a target host (and optionally an upstream proxy) inside a
//! synthetic IPv6 address, plus the pure decision logic for the SOCKS5 handshake,
//! the DNS stub and the byte splice that surround it.

pub mod bits;
pub mod huffman;
pub mod socks5;
pub mod codec;
pub mod query;
pub mod dns;
pub mod splice;
