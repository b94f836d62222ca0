//! The messages of the peer wire protocol and their framing.
//!
//! On the wire a message is its length in four bytes, big end first, then
//! one byte that tells its kind, then its payload. The length counts the
//! kind and the payload. A length of zero is a keepalive: no kind, no
//! payload.

use vstd::prelude::*;

verus! {

/// The kind byte of `Unchoke`.
pub const ID_UNCHOKE: u8 = 1;

/// The kind byte of `Interested`.
pub const ID_INTERESTED: u8 = 2;

/// The kind byte of `Bitfield`.
pub const ID_BITFIELD: u8 = 5;

/// The kind byte of `Request`.
pub const ID_REQUEST: u8 = 6;

/// The kind byte of `Piece`.
pub const ID_PIECE: u8 = 7;

/// The number that four bytes denote, big end first.
pub open spec fn be32(b: Seq<u8>) -> int
    recommends
        b.len() >= 4,
{
    b[0] * 0x100_0000 + b[1] * 0x1_0000 + b[2] * 0x100 + b[3]
}

/// The four bytes that denote `n`, big end first.
pub open spec fn be32_bytes(n: u32) -> Seq<u8> {
    seq![
        (n / 0x100_0000) as u8,
        (n / 0x1_0000 % 0x100) as u8,
        (n / 0x100 % 0x100) as u8,
        (n % 0x100) as u8,
    ]
}

/// The four bytes of a number denote that number.
pub proof fn lemma_be32_of_bytes(n: u32)
    ensures
        be32(be32_bytes(n)) == n,
        be32_bytes(n).len() == 4,
{
}

/// The number that the first four bytes of `data` denote, big end first.
pub fn u32_from_bytes(data: &[u8]) -> (n: u32)
    requires
        data@.len() >= 4,
    ensures
        n == be32(data@),
{
    (data[0] as u32) * 0x100_0000 + (data[1] as u32) * 0x1_0000 + (data[2] as u32) * 0x100
        + (data[3] as u32)
}

/// Appends the four bytes that denote `n`, big end first.
pub fn push_u32(out: &mut Vec<u8>, n: u32)
    ensures
        final(out)@ == old(out)@ + be32_bytes(n),
{
    out.push((n / 0x100_0000) as u8);
    out.push((n / 0x1_0000 % 0x100) as u8);
    out.push((n / 0x100 % 0x100) as u8);
    out.push((n % 0x100) as u8);
    proof {
        assert(out@ =~= old(out)@ + be32_bytes(n));
    }
}

/// What a `Request` asks for: `length` bytes of piece `index`, from the
/// byte at `begin` on.
#[derive(Clone, Copy, Debug, PartialEq, Eq, Structural)]
pub struct RequestPayload {
    pub index: u32,
    pub begin: u32,
    pub length: u32,
}

/// What a `Piece` brings: the bytes of piece `index` from the byte at
/// `begin` on.
#[derive(Clone, Debug, PartialEq, Eq)]
pub struct PiecePayload {
    pub index: u32,
    pub begin: u32,
    pub block: Vec<u8>,
}

/// A message of the peer wire protocol.
#[derive(Clone, Debug, PartialEq, Eq)]
pub enum PeerMessage {
    /// Which pieces the peer has; what it says is not kept.
    Bitfield,
    Interested,
    Unchoke,
    Request(RequestPayload),
    Piece(PiecePayload),
}

/// The mathematical model of a [`PeerMessage`].
pub enum MessageView {
    Bitfield,
    Interested,
    Unchoke,
    Request(RequestPayload),
    Piece { index: u32, begin: u32, block: Seq<u8> },
}

impl View for PeerMessage {
    type V = MessageView;

    open spec fn view(&self) -> MessageView {
        match self {
            PeerMessage::Bitfield => MessageView::Bitfield,
            PeerMessage::Interested => MessageView::Interested,
            PeerMessage::Unchoke => MessageView::Unchoke,
            PeerMessage::Request(request) => MessageView::Request(*request),
            PeerMessage::Piece(piece) => MessageView::Piece {
                index: piece.index,
                begin: piece.begin,
                block: piece.block@,
            },
        }
    }
}

/// What the body of a frame, its kind byte and its payload, is read as.
#[derive(Clone, Debug, PartialEq, Eq)]
pub enum Incoming {
    /// A message.
    Message(PeerMessage),
    /// A message of a kind that is not known here: it is passed over.
    Skipped,
    /// A `Request` or a `Piece` whose payload is too short for its numbers.
    Malformed,
}

/// The mathematical model of an [`Incoming`].
pub enum IncomingView {
    Message(MessageView),
    Skipped,
    Malformed,
}

impl View for Incoming {
    type V = IncomingView;

    open spec fn view(&self) -> IncomingView {
        match self {
            Incoming::Message(m) => IncomingView::Message(m@),
            Incoming::Skipped => IncomingView::Skipped,
            Incoming::Malformed => IncomingView::Malformed,
        }
    }
}

/// What a frame's body is read as. The payload of `Bitfield`, `Interested`
/// and `Unchoke` is not looked at, nor what follows the three numbers of a
/// `Request`.
pub open spec fn message_of(body: Seq<u8>) -> IncomingView
    recommends
        body.len() >= 1,
{
    let id = body[0];
    let payload = body.skip(1);
    if id == ID_BITFIELD {
        IncomingView::Message(MessageView::Bitfield)
    } else if id == ID_INTERESTED {
        IncomingView::Message(MessageView::Interested)
    } else if id == ID_UNCHOKE {
        IncomingView::Message(MessageView::Unchoke)
    } else if id == ID_REQUEST {
        if payload.len() >= 12 {
            IncomingView::Message(
                MessageView::Request(
                    RequestPayload {
                        index: be32(payload) as u32,
                        begin: be32(payload.skip(4)) as u32,
                        length: be32(payload.skip(8)) as u32,
                    },
                ),
            )
        } else {
            IncomingView::Malformed
        }
    } else if id == ID_PIECE {
        if payload.len() >= 8 {
            IncomingView::Message(
                MessageView::Piece {
                    index: be32(payload) as u32,
                    begin: be32(payload.skip(4)) as u32,
                    block: payload.skip(8),
                },
            )
        } else {
            IncomingView::Malformed
        }
    } else {
        IncomingView::Skipped
    }
}

/// The frame that a message is sent as. Only `Interested` and `Request`
/// are ever sent.
pub open spec fn frame_of(message: MessageView) -> Seq<u8>
    recommends
        message is Interested || message is Request,
{
    match message {
        MessageView::Request(request) => be32_bytes(13) + seq![ID_REQUEST] + be32_bytes(
            request.index,
        ) + be32_bytes(request.begin) + be32_bytes(request.length),
        _ => be32_bytes(1) + seq![ID_INTERESTED],
    }
}

impl PeerMessage {
    /// Reads the body of a frame: its kind byte and its payload.
    pub fn from_body(body: Vec<u8>) -> (incoming: Incoming)
        requires
            body@.len() >= 1,
        ensures
            incoming@ == message_of(body@),
    {
        let id: u8 = body[0];
        if id == ID_BITFIELD {
            Incoming::Message(PeerMessage::Bitfield)
        } else if id == ID_INTERESTED {
            Incoming::Message(PeerMessage::Interested)
        } else if id == ID_UNCHOKE {
            Incoming::Message(PeerMessage::Unchoke)
        } else if id == ID_REQUEST {
            if body.len() >= 13 {
                let payload = vstd::slice::slice_subrange(body.as_slice(), 1, body.len());
                proof {
                    assert(payload@ =~= body@.skip(1));
                }
                let index = u32_from_bytes(payload);
                let begin = u32_from_bytes(vstd::slice::slice_subrange(payload, 4, payload.len()));
                let length = u32_from_bytes(vstd::slice::slice_subrange(payload, 8, payload.len()));
                Incoming::Message(PeerMessage::Request(RequestPayload { index, begin, length }))
            } else {
                Incoming::Malformed
            }
        } else if id == ID_PIECE {
            if body.len() >= 9 {
                let payload = vstd::slice::slice_subrange(body.as_slice(), 1, body.len());
                proof {
                    assert(payload@ =~= body@.skip(1));
                }
                let index = u32_from_bytes(payload);
                let begin = u32_from_bytes(vstd::slice::slice_subrange(payload, 4, payload.len()));
                let block = vstd::slice::slice_to_vec(
                    vstd::slice::slice_subrange(payload, 8, payload.len()),
                );
                Incoming::Message(PeerMessage::Piece(PiecePayload { index, begin, block }))
            } else {
                Incoming::Malformed
            }
        } else {
            Incoming::Skipped
        }
    }

    /// The frame that this message is sent as.
    pub fn to_frame(&self) -> (frame: Vec<u8>)
        requires
            self is Interested || self is Request,
        ensures
            frame@ == frame_of(self@),
    {
        let mut frame: Vec<u8> = Vec::new();
        match self {
            PeerMessage::Request(request) => {
                push_u32(&mut frame, 13);
                frame.push(ID_REQUEST);
                push_u32(&mut frame, request.index);
                push_u32(&mut frame, request.begin);
                push_u32(&mut frame, request.length);
            },
            _ => {
                push_u32(&mut frame, 1);
                frame.push(ID_INTERESTED);
            },
        }
        proof {
            assert(frame@ =~= frame_of(self@));
        }
        frame
    }
}

} // verus!
