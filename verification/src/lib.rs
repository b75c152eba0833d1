//! A verified core for a BitTorrent client: a bencode decoder that tracks the
//! raw byte span of the "info" dictionary, and a torrent metadata extractor
//! that computes the SHA-1 identity hash over that exact span.

pub mod bencode;
pub mod torrent;
pub mod tracker;
