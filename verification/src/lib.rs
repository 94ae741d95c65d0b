//! A small BitTorrent client's core, verified: the bencode reader and writer, the torrent
//! metainfo, the tracker's query and answer, the peer wire protocol, bitfields, and the
//! decisions a download makes, from asking for blocks to writing the files.
pub mod decimal;
pub mod bencode_model;
pub mod digest;
pub mod text;
pub mod bencoding_parser;
pub mod canonical;
pub mod torrent_file;
pub mod wire;
pub mod handshake;
pub mod torrent_tcp_message;
pub mod pieces;
pub mod announce;
pub mod peer;
pub mod bundle;
pub mod download;
pub mod display;
pub mod parser;
pub mod announce_response;
