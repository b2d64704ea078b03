//! Downloading core of a BitTorrent client: the bencode codec, the torrent
//! descriptor, the peer wire messages, the per-peer session state machine,
//! the piece scheduler and the checkpoint log.

pub mod byte_string;
pub mod decimal;
pub mod bencode;
pub mod message;
pub mod hash;
pub mod text;
pub mod torrent_file;
pub mod tracker;
pub mod handshake;
pub mod client;
pub mod session;
pub mod storage;
pub mod orchestrator;
