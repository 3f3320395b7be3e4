//! Core of a BitTorrent client: the bencode codec, torrent metadata and its
//! info-hash, the tracker byte-level contract, the peer-wire message framing,
//! the single-piece block-request state machine, and the ordered assembly of
//! downloaded pieces.
use vstd::prelude::*;

pub mod bencode;
pub mod parsing;
pub mod peer;
pub mod types;

pub use bencode::BencodeValue;
pub use parsing::DisplayValue;
pub use parsing::ENCODED;
pub use parsing::PeerAddress;
pub use parsing::Info;
pub use parsing::Torrent;
pub use peer::PieceDownloader;
pub use peer::Tracker;
pub use types::PeerMessage;
pub use types::PeerMessageType;
pub use types::TorrentError;

verus! {

} // verus!
