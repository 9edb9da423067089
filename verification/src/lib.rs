//! Core of a single-file BitTorrent client: the bencode codec, the peer wire
//! protocol and the download scheduler, with the network and the disk left
//! to the caller.

pub mod bencode;
pub mod buffer;
pub mod downloader;
pub mod peer;
pub mod text;
pub mod torrent;
pub mod tracker;
pub mod util;
