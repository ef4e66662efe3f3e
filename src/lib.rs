// A BitTorrent client library: the bencode codec and its JSON projection, the metainfo model
// and info hash, tracker replies, the peer wire protocol with its session and piece download
// state machines, and the shared piece queue of the downloader.
pub mod error;
pub mod bencode;
pub mod text;
pub mod json;
pub mod digest;
pub mod torrent;
pub mod tracker;
pub mod wire;
pub mod peer;
pub mod scheduler;
