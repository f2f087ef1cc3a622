//! A minimal BitTorrent client core: the bencode codec, the torrent metadata
//! model, tracker requests and responses, and the peer-wire protocol.

pub mod bencode;
pub mod decimal;
pub mod download;
pub mod hash;
pub mod metainfo;
pub mod text;
pub mod tracker;
pub mod wire;
