//! The core of a BitTorrent client for single-file torrents: the bencode codec, torrent
//! metadata and its info hash, the tracker announce, the peer wire protocol, piece fetching
//! and the download coordinator's decisions, and magnet link parsing.
pub mod bencode;
pub mod decimal;
pub mod digest;
pub mod download;
pub mod fetch;
pub mod magnet_link;
pub mod peer;
pub mod text;
pub mod torrent_file;
pub mod tracker;
