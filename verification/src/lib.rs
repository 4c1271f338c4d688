//! A verified parser for bencoded `.torrent` metainfo files.
pub mod primitives;
pub mod torrent_file;
