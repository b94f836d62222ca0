//! A BitTorrent client library: the bencode codec, the metainfo model, the
//! tracker request and reply, and the peer wire protocol as a state machine
//! that performs no input or output of its own.

pub mod bencode;
pub mod digest;
pub mod message;
pub mod peer;
pub mod session;
pub mod session_laws;
pub mod text;
pub mod tracker;
pub mod tfile;
pub mod tfile_laws;
