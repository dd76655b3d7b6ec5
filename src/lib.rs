//! Protocol core of a minimal BitTorrent client: the bencode codec, the
//! metainfo loader, tracker announce construction and response decoding, and
//! the peer-wire handshake.

pub mod bencode;
pub mod decode;
pub mod roundtrip;
pub mod text;
pub mod fields;
pub mod digest;
pub mod metainfo;
pub mod host;
pub mod tracker;
pub mod handshake;
pub mod peer;
