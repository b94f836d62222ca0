//! A peer, the handshake with it, and the download of pieces from it.
//!
//! Nothing here reads or writes a socket. A download is a state machine:
//! it says what to do next, an [`Action`], and is told what came of it, an
//! [`Event`].

use crate::digest::sha1;
use crate::message::{u32_from_bytes, Incoming, PeerMessage, RequestPayload};
use crate::session::{
    begin, failed, request_or_conclude, resume, valid_progress, Action, Event, Expect, PeerError,
    Progress, Stage, Transfer, BLOCK_SIZE, HEADER_LENGTH,
};
use crate::text::{ascii, ascii_bytes, same_bytes};
use crate::tfile::{content_identifier, InfoView, TorrentFile};
use vstd::prelude::*;

verus! {

/// The identifier under which this client introduces itself.
pub const PEER_ID: &'static str = "00112233445566778899";

/// The name of the protocol, which opens every handshake.
pub const PROTOCOL_STRING: &'static str = "BitTorrent protocol";


/// The number of bytes in a handshake besides the protocol's name: one for
/// the length of the name, eight reserved, twenty of the content identifier
/// and twenty of the peer's identifier.
pub const HANDSHAKE_FIXED: usize = 49;

/// Where a peer is reached: an IPv4 address and a port.
#[derive(Clone, Copy, Debug, PartialEq, Eq)]
pub struct PeerAddr {
    pub ip: [u8; 4],
    pub port: u16,
}

/// A peer that shares the content of a torrent file.
#[derive(Clone, Debug)]
pub struct Peer<'a> {
    pub addr: PeerAddr,
    file: &'a TorrentFile,
}

/// Why a handshake made no connection.
#[derive(Clone, Copy, Debug, PartialEq, Eq, Structural)]
pub enum HandshakeError {
    /// The peer's handshake ends before it is complete.
    Incomplete,
    /// The peer shares other content: its content identifier is not ours.
    WrongContent,
}

/// What a peer's handshake holds.
pub struct HandshakeView {
    /// The name of the protocol that the peer speaks.
    pub protocol: Seq<u8>,
    /// The identifier of the content that the peer shares.
    pub info_hash: Seq<u8>,
    /// The identifier of the peer.
    pub peer_id: Seq<u8>,
}

/// The handshake that introduces the client with `peer_id` for the content
/// with `info_hash`: the length of the protocol's name, the name, eight
/// zero bytes, the content identifier, the client's identifier.
pub open spec fn handshake_bytes(info_hash: Seq<u8>, peer_id: Seq<u8>) -> Seq<u8> {
    seq![ascii(PROTOCOL_STRING).len() as u8] + ascii(PROTOCOL_STRING) + Seq::new(8, |i: int| 0u8)
        + info_hash + peer_id
}

/// The number of bytes of a handshake whose first byte is `first`.
pub open spec fn handshake_length(first: u8) -> nat {
    (HANDSHAKE_FIXED + first) as nat
}

/// What the handshake that `reply` starts with holds, where it is complete
/// and is for the content with the identifier `expected`. What follows the
/// handshake in `reply` does not count.
pub open spec fn read_handshake(reply: Seq<u8>, expected: Seq<u8>) -> Result<
    HandshakeView,
    HandshakeError,
> {
    if reply.len() == 0 || reply.len() < handshake_length(reply[0]) {
        Err(HandshakeError::Incomplete)
    } else {
        let n = reply[0] as int;
        let info_hash = reply.subrange(n + 9, n + 29);
        if info_hash != expected {
            Err(HandshakeError::WrongContent)
        } else {
            Ok(
                HandshakeView {
                    protocol: reply.subrange(1, n + 1),
                    info_hash,
                    peer_id: reply.subrange(n + 29, n + 49),
                },
            )
        }
    }
}

/// The number of bytes of a handshake whose first byte is `first`: what is
/// to be read of a peer's handshake, its first byte included.
pub fn handshake_reply_length(first: u8) -> (n: usize)
    ensures
        n == handshake_length(first),
{
    HANDSHAKE_FIXED + first as usize
}

/// The twenty bytes of `bytes` as an array.
pub fn to_array(bytes: &[u8]) -> (a: [u8; 20])
    requires
        bytes@.len() == 20,
    ensures
        a@ == bytes@,
{
    let mut a: [u8; 20] = [0u8; 20];
    let mut i: usize = 0;
    while i < 20
        invariant
            i <= 20,
            bytes@.len() == 20,
            forall|k: int| 0 <= k < i ==> a@[k] == bytes@[k],
        decreases 20 - i,
    {
        a[i] = bytes[i];
        i = i + 1;
    }
    proof {
        assert(a@ =~= bytes@);
    }
    a
}

impl<'a> Peer<'a> {
    /// The peer at `addr` that shares the content of `file`.
    pub fn new(addr: PeerAddr, file: &'a TorrentFile) -> (peer: Self)
        ensures
            peer.address() == addr,
            peer.file() == file,
    {
        Self { addr, file }
    }

    /// Where the peer is reached.
    pub closed spec fn address(&self) -> PeerAddr {
        self.addr
    }

    /// The torrent file whose content the peer shares.
    pub closed spec fn file(&self) -> &'a TorrentFile {
        self.file
    }

    /// The handshake to send to the peer.
    pub fn handshake_message(&self) -> (message: Vec<u8>)
        ensures
            message@ == handshake_bytes(content_identifier(self.file().info@), ascii(PEER_ID)),
            message@.len() == 68,
    {
        proof {
            reveal_strlit("BitTorrent protocol");
            reveal_strlit("00112233445566778899");
        }
        let name = ascii_bytes(PROTOCOL_STRING);
        let mut message: Vec<u8> = Vec::new();
        message.push(name.len() as u8);
        let mut name = name;
        message.append(&mut name);
        let mut i: usize = 0;
        while i < 8
            invariant
                i <= 8,
                message@ == seq![ascii(PROTOCOL_STRING).len() as u8] + ascii(PROTOCOL_STRING)
                    + Seq::new(i as nat, |k: int| 0u8),
            decreases 8 - i,
        {
            message.push(0);
            proof {
                assert(Seq::new(i as nat, |k: int| 0u8).push(0u8) =~= Seq::new(
                    (i + 1) as nat,
                    |k: int| 0u8,
                ));
            }
            i = i + 1;
        }
        let hash = self.file.info.hash();
        let mut hash = vstd::slice::slice_to_vec(hash.as_slice());
        message.append(&mut hash);
        let mut id = ascii_bytes(PEER_ID);
        message.append(&mut id);
        message
    }
}

/// The mathematical model of a [`PeerConnection`].
pub struct ConnectionView {
    /// The name of the protocol that the peer speaks.
    pub protocol: Seq<u8>,
    /// The identifier of the content that the peer shares.
    pub info_hash: Seq<u8>,
    /// The identifier of the peer.
    pub peer_id: Seq<u8>,
    /// The description of the content.
    pub info: InfoView,
    /// The state of the download.
    pub transfer: Transfer,
}

/// A connection to a peer, made by a handshake.
#[derive(Debug)]
pub struct PeerConnection<'a> {
    protocol: Vec<u8>,
    info_hash: [u8; 20],
    peer_id: [u8; 20],
    peer: &'a Peer<'a>,
    progress: Progress,
    data: Vec<u8>,
}

impl<'a> View for PeerConnection<'a> {
    type V = ConnectionView;

    closed spec fn view(&self) -> ConnectionView {
        ConnectionView {
            protocol: self.protocol@,
            info_hash: self.info_hash@,
            peer_id: self.peer_id@,
            info: self.peer.file.info@,
            transfer: Transfer { progress: self.progress, data: self.data@ },
        }
    }
}

impl<'a> Peer<'a> {
    /// Makes the connection from the handshake that the peer sent: `reply`
    /// starts with it. The peer must share our content.
    pub fn handshake(&'a self, reply: &[u8]) -> (r: Result<PeerConnection<'a>, HandshakeError>)
        ensures
            match read_handshake(reply@, content_identifier(self.file().info@)) {
                Ok(h) => r matches Ok(connection) && connection@ == (ConnectionView {
                    protocol: h.protocol,
                    info_hash: h.info_hash,
                    peer_id: h.peer_id,
                    info: self.file().info@,
                    transfer: Transfer {
                        progress: Progress {
                            ready: false,
                            stage: Stage::Idle,
                            index: 0,
                            piece_length: 0,
                            begin: 0,
                        },
                        data: Seq::empty(),
                    },
                }),
                Err(e) => r matches Err(found) && found == e,
            },
    {
        if reply.len() == 0 || reply.len() < handshake_reply_length(reply[0]) {
            return Err(HandshakeError::Incomplete);
        }
        let n: usize = reply[0] as usize;
        let info_hash = vstd::slice::slice_subrange(reply, n + 9, n + 29);
        let ours = self.file.info.hash();
        if !same_bytes(info_hash, ours.as_slice()) {
            return Err(HandshakeError::WrongContent);
        }
        let protocol = vstd::slice::slice_to_vec(vstd::slice::slice_subrange(reply, 1, n + 1));
        let peer_id = to_array(vstd::slice::slice_subrange(reply, n + 29, n + 49));
        Ok(
            PeerConnection {
                protocol,
                info_hash: to_array(info_hash),
                peer_id,
                peer: self,
                progress: Progress {
                    ready: false,
                    stage: Stage::Idle,
                    index: 0,
                    piece_length: 0,
                    begin: 0,
                },
                data: Vec::new(),
            },
        )
    }
}

impl<'a> PeerConnection<'a> {
    #[verifier::type_invariant]
    spec fn well_formed(&self) -> bool {
        valid_progress(self.peer.file.info@, self.progress)
    }

    /// The identifier of the peer.
    pub fn peer_id(&self) -> (id: [u8; 20])
        ensures
            id@ == self@.peer_id,
    {
        self.peer_id
    }

    /// The identifier of the content that the peer shares.
    pub fn info_hash(&self) -> (hash: [u8; 20])
        ensures
            hash@ == self@.info_hash,
    {
        self.info_hash
    }

    /// The name of the protocol that the peer speaks.
    pub fn protocol(&self) -> (name: &[u8])
        ensures
            name@ == self@.protocol,
    {
        self.protocol.as_slice()
    }

    /// How far the connection has come.
    pub fn progress(&self) -> (progress: Progress)
        ensures
            progress == self@.transfer.progress,
            valid_progress(self@.info, progress),
    {
        proof {
            use_type_invariant(self);
        }
        self.progress
    }

    /// Fails the connection with `error`.
    fn fail(&mut self, error: PeerError) -> (action: Action)
        ensures
            final(self)@ == (ConnectionView {
                transfer: failed(old(self)@.transfer.progress, error).0,
                ..old(self)@
            }),
            action@ == failed(old(self)@.transfer.progress, error).1,
    {
        let p = self.progress;
        self.progress =
        Progress {
            ready: p.ready,
            stage: Stage::Failed,
            index: p.index,
            piece_length: p.piece_length,
            begin: p.begin,
        };
        self.data = Vec::new();
        Action::Fail(error)
    }

    /// Asks for the next block, or ends the download, from the progress
    /// `p` on.
    fn advance(&mut self, p: Progress) -> (action: Action)
        requires
            p.piece_length == old(self)@.info.piece_length_at(p.index as nat),
            p.begin <= p.piece_length,
            p.begin < p.piece_length ==> p.begin % BLOCK_SIZE == 0,
            p.ready,
        ensures
            final(self)@ == (ConnectionView {
                transfer: request_or_conclude(old(self)@.info, p, old(self)@.transfer.data).0,
                ..old(self)@
            }),
            action@ == request_or_conclude(old(self)@.info, p, old(self)@.transfer.data).1,
    {
        proof {
            use_type_invariant(&*self);
        }
        if p.begin < p.piece_length {
            let left: u32 = p.piece_length - p.begin;
            let length: u32 = if left > BLOCK_SIZE {
                BLOCK_SIZE
            } else {
                left
            };
            self.progress =
            Progress {
                ready: p.ready,
                stage: Stage::Sending(Expect::Piece),
                index: p.index,
                piece_length: p.piece_length,
                begin: p.begin,
            };
            let request = PeerMessage::Request(
                RequestPayload { index: p.index, begin: p.begin, length },
            );
            Action::Send(request.to_frame())
        } else {
            let idle = Progress {
                ready: p.ready,
                stage: Stage::Idle,
                index: p.index,
                piece_length: p.piece_length,
                begin: p.begin,
            };
            if p.begin == 0 {
                self.progress = idle;
                self.data = Vec::new();
                return Action::Finished;
            }
            let digest = sha1(self.data.as_slice());
            let right = match self.peer.file.info.piece_digest(p.index as usize) {
                Some(expected) => same_bytes(digest.as_slice(), expected),
                None => false,
            };
            if right {
                let mut piece: Vec<u8> = Vec::new();
                core::mem::swap(&mut self.data, &mut piece);
                self.progress = idle;
                Action::Deliver(piece)
            } else {
                self.progress =
                Progress {
                    ready: p.ready,
                    stage: Stage::Failed,
                    index: p.index,
                    piece_length: p.piece_length,
                    begin: p.begin,
                };
                self.data = Vec::new();
                Action::Fail(PeerError::IntegrityMismatch)
            }
        }
    }

    /// Starts the download of piece `index` and says what to do first.
    /// What comes of each action is reported to [`PeerConnection::resume`],
    /// which says what to do next, until the action is to deliver the
    /// piece, to finish or to fail.
    pub fn download_piece(&mut self, index: u32) -> (action: Action)
        ensures
            final(self)@ == (ConnectionView {
                transfer: begin(old(self)@.info, old(self)@.transfer, index).0,
                ..old(self)@
            }),
            action@ == begin(old(self)@.info, old(self)@.transfer, index).1,
    {
        proof {
            use_type_invariant(&*self);
        }
        let p = self.progress;
        match p.stage {
            Stage::Idle => {},
            _ => {
                return self.fail(PeerError::OutOfTurn);
            },
        }
        let length: usize = self.peer.file.info.nth_plength(index as usize);
        if length > u32::MAX as usize {
            return Action::Fail(PeerError::PieceTooLarge);
        }
        let start = Progress {
            ready: p.ready,
            stage: Stage::Idle,
            index,
            piece_length: length as u32,
            begin: 0,
        };
        self.data = Vec::new();
        if !p.ready {
            self.progress =
            Progress {
                ready: p.ready,
                stage: Stage::AwaitingHeader(Expect::Bitfield),
                index,
                piece_length: length as u32,
                begin: 0,
            };
            Action::Receive(HEADER_LENGTH)
        } else {
            self.advance(start)
        }
    }

    /// Takes what came of the last action and says what to do next.
    pub fn resume(&mut self, event: Event) -> (action: Action)
        ensures
            final(self)@ == (ConnectionView {
                transfer: resume(old(self)@.info, old(self)@.transfer, event@).0,
                ..old(self)@
            }),
            action@ == resume(old(self)@.info, old(self)@.transfer, event@).1,
    {
        proof {
            use_type_invariant(&*self);
        }
        let p = self.progress;
        match event {
            Event::Broken => self.fail(PeerError::TransportFailure),
            Event::Sent => match p.stage {
                Stage::Sending(e) => {
                    self.progress =
                    Progress {
                        ready: p.ready,
                        stage: Stage::AwaitingHeader(e),
                        index: p.index,
                        piece_length: p.piece_length,
                        begin: p.begin,
                    };
                    Action::Receive(HEADER_LENGTH)
                },
                _ => self.fail(PeerError::OutOfTurn),
            },
            Event::Received(bytes) => match p.stage {
                Stage::AwaitingHeader(e) => {
                    if bytes.len() != HEADER_LENGTH {
                        return self.fail(PeerError::TransportFailure);
                    }
                    let n: u32 = u32_from_bytes(bytes.as_slice());
                    if n == 0 {
                        Action::Receive(HEADER_LENGTH)
                    } else {
                        self.progress =
                        Progress {
                            ready: p.ready,
                            stage: Stage::AwaitingBody(e, n),
                            index: p.index,
                            piece_length: p.piece_length,
                            begin: p.begin,
                        };
                        Action::Receive(n as usize)
                    }
                },
                Stage::AwaitingBody(e, n) => {
                    if bytes.len() != n as usize {
                        return self.fail(PeerError::TransportFailure);
                    }
                    match PeerMessage::from_body(bytes) {
                        Incoming::Skipped => {
                            self.progress =
                            Progress {
                                ready: p.ready,
                                stage: Stage::AwaitingHeader(e),
                                index: p.index,
                                piece_length: p.piece_length,
                                begin: p.begin,
                            };
                            Action::Receive(HEADER_LENGTH)
                        },
                        Incoming::Malformed => self.fail(PeerError::ProtocolViolation),
                        Incoming::Message(message) => match (e, message) {
                            (Expect::Bitfield, PeerMessage::Bitfield) => {
                                self.progress =
                                Progress {
                                    ready: p.ready,
                                    stage: Stage::Sending(Expect::Unchoke),
                                    index: p.index,
                                    piece_length: p.piece_length,
                                    begin: p.begin,
                                };
                                Action::Send(PeerMessage::Interested.to_frame())
                            },
                            (Expect::Unchoke, PeerMessage::Unchoke) => {
                                self.advance(
                                    Progress {
                                        ready: true,
                                        stage: p.stage,
                                        index: p.index,
                                        piece_length: p.piece_length,
                                        begin: p.begin,
                                    },
                                )
                            },
                            (Expect::Piece, PeerMessage::Piece(piece)) => {
                                let left: u32 = p.piece_length - p.begin;
                                let length: u32 = if left > BLOCK_SIZE {
                                    BLOCK_SIZE
                                } else {
                                    left
                                };
                                let mut block = piece.block;
                                let mut data: Vec<u8> = Vec::new();
                                core::mem::swap(&mut self.data, &mut data);
                                data.append(&mut block);
                                self.data = data;
                                self.advance(
                                    Progress {
                                        ready: p.ready,
                                        stage: p.stage,
                                        index: p.index,
                                        piece_length: p.piece_length,
                                        begin: p.begin + length,
                                    },
                                )
                            },
                            _ => self.fail(PeerError::ProtocolViolation),
                        },
                    }
                },
                _ => self.fail(PeerError::OutOfTurn),
            },
        }
    }
}

} // verus!
