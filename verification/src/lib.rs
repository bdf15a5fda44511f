//! Capture framing, packet decoding and indexing for a local-first PCAP viewer.
pub mod text;
pub mod decode;
pub mod table;
pub mod sets;
pub mod entities;
pub mod model;
pub mod capture;
