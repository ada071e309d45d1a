//! Core of a minimal BitTorrent client: the bencode codec, the torrent
//! metadata model, the tracker's compact peer list, and the peer wire
//! protocol up to the assembly and verification of pieces.
//!
//! Nothing here performs I/O. Functions take the bytes that were read and
//! return the bytes that are to be sent; the caller owns the socket.

pub mod canonical;
pub mod decimal;
pub mod display;
pub mod download;
pub mod encoder;
pub mod error;
pub mod grammar;
pub mod hash;
pub mod lexical;
pub mod model;
pub mod parser;
pub mod peer_connection;
pub mod roundtrip;
pub mod text;
pub mod torrent;
pub mod tracker;
pub mod value;
pub mod wire;

pub use display::ValueToString;
pub use download::{block_count, block_length, new_content, place_piece, PieceDownload};
pub use encoder::encode;
pub use error::Error;
pub use parser::{decode, decode_bytes};
pub use peer_connection::{PeerConnection, PeerConnectionResponse, PeerState};
pub use torrent::{Torrent, TorrentInfo};
pub use tracker::{decode_compact_peers, PeerAddress, TrackerRequest, TrackerResponse};
pub use value::{BencodeDict, BencodeValue};
