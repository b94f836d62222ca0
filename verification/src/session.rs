//! The download of a piece as a state machine: from a state and an event
//! to the next state and what to do next.

use crate::digest::sha1_digest;
use crate::message::{be32, frame_of, message_of, IncomingView, MessageView, RequestPayload};
use crate::tfile::InfoView;
use vstd::prelude::*;

verus! {

/// The number of bytes that one request asks for, but for the last of a
/// piece: 16 KiB.
pub const BLOCK_SIZE: u32 = 0x4000;

/// The number of bytes of a frame's header, which holds the frame's length.
pub const HEADER_LENGTH: usize = 4;

/// The message that a download waits for.
#[derive(Clone, Copy, Debug, PartialEq, Eq, Structural)]
pub enum Expect {
    Bitfield,
    Unchoke,
    Piece,
}

/// Where a connection stands.
#[derive(Clone, Copy, Debug, PartialEq, Eq, Structural)]
pub enum Stage {
    /// No download is under way.
    Idle,
    /// A frame was handed out to be sent; once it is, a message of this
    /// kind is waited for.
    Sending(Expect),
    /// The header of a frame was asked for.
    AwaitingHeader(Expect),
    /// The body of a frame of this many bytes was asked for.
    AwaitingBody(Expect, u32),
    /// The connection has failed and is of no more use.
    Failed,
}

/// How far a connection has come.
#[derive(Clone, Copy, Debug, PartialEq, Eq, Structural)]
pub struct Progress {
    /// Whether the peer has sent its bitfield and unchoked us.
    pub ready: bool,
    pub stage: Stage,
    /// The piece that is downloaded.
    pub index: u32,
    /// The length of that piece.
    pub piece_length: u32,
    /// How many bytes of the piece were asked for and answered.
    pub begin: u32,
}

/// Why a download failed.
#[derive(Clone, Copy, Debug, PartialEq, Eq, Structural)]
pub enum PeerError {
    /// The stream broke, or gave other than the bytes asked for.
    TransportFailure,
    /// The peer sent another message than the one that was due, or one
    /// that is too short for its kind.
    ProtocolViolation,
    /// The digest of the piece is not the one that the torrent file gives.
    IntegrityMismatch,
    /// The call does not fit where the connection stands.
    OutOfTurn,
    /// The piece is longer than a request can say.
    PieceTooLarge,
}

/// What to do next.
#[derive(Clone, Debug, PartialEq, Eq)]
pub enum Action {
    /// Send these bytes to the peer, then report `Event::Sent`.
    Send(Vec<u8>),
    /// Read exactly this many bytes from the peer, then report them with
    /// `Event::Received`.
    Receive(usize),
    /// The piece is complete and its digest is right: write these bytes
    /// out. The download is over.
    Deliver(Vec<u8>),
    /// The download is over and there is nothing to write out.
    Finished,
    /// The download has failed; nothing is to be written out.
    Fail(PeerError),
}

/// The mathematical model of an [`Action`].
pub enum ActionView {
    Send(Seq<u8>),
    Receive(nat),
    Deliver(Seq<u8>),
    Finished,
    Fail(PeerError),
}

impl View for Action {
    type V = ActionView;

    open spec fn view(&self) -> ActionView {
        match self {
            Action::Send(bytes) => ActionView::Send(bytes@),
            Action::Receive(n) => ActionView::Receive(*n as nat),
            Action::Deliver(bytes) => ActionView::Deliver(bytes@),
            Action::Finished => ActionView::Finished,
            Action::Fail(e) => ActionView::Fail(*e),
        }
    }
}

/// What came of the last action.
#[derive(Clone, Debug, PartialEq, Eq)]
pub enum Event {
    /// The bytes were sent.
    Sent,
    /// These bytes were read.
    Received(Vec<u8>),
    /// The stream is closed or broken.
    Broken,
}

/// The mathematical model of an [`Event`].
pub enum EventView {
    Sent,
    Received(Seq<u8>),
    Broken,
}

impl View for Event {
    type V = EventView;

    open spec fn view(&self) -> EventView {
        match self {
            Event::Sent => EventView::Sent,
            Event::Received(bytes) => EventView::Received(bytes@),
            Event::Broken => EventView::Broken,
        }
    }
}

/// The state of a download: how far it has come, and the bytes of the
/// piece that have arrived.
pub struct Transfer {
    pub progress: Progress,
    pub data: Seq<u8>,
}

/// The number of bytes that the next request asks for: a block, or what is
/// left of the piece where that is less.
pub open spec fn block_length(p: Progress) -> int {
    if p.piece_length - p.begin > BLOCK_SIZE {
        BLOCK_SIZE as int
    } else {
        p.piece_length - p.begin
    }
}

/// The request for the next block of the piece.
pub open spec fn next_request(p: Progress) -> RequestPayload {
    RequestPayload { index: p.index, begin: p.begin, length: block_length(p) as u32 }
}

/// Whether `p` is a state that a connection for content `info` can be in.
pub open spec fn valid_progress(info: InfoView, p: Progress) -> bool {
    match p.stage {
        Stage::Idle => true,
        Stage::Failed => true,
        Stage::Sending(e) => in_download(info, p, e),
        Stage::AwaitingHeader(e) => in_download(info, p, e),
        Stage::AwaitingBody(e, n) => in_download(info, p, e) && n > 0,
    }
}

/// Whether `p` fits a download that waits for `e`: the piece has the length
/// that the torrent file gives it; a block is due only once the peer has
/// unchoked us and while some of the piece is missing, and it starts at a
/// multiple of the block size.
pub open spec fn in_download(info: InfoView, p: Progress, e: Expect) -> bool {
    &&& p.piece_length == info.piece_length_at(p.index as nat)
    &&& e == Expect::Piece ==> p.ready && p.begin < p.piece_length && p.begin % BLOCK_SIZE == 0
    &&& e != Expect::Piece ==> !p.ready && p.begin == 0
}

/// The connection failed with `error`: it is of no more use, and what had
/// arrived of the piece is dropped.
pub open spec fn failed(p: Progress, error: PeerError) -> (Transfer, ActionView) {
    (
        Transfer { progress: Progress { stage: Stage::Failed, ..p }, data: Seq::empty() },
        ActionView::Fail(error),
    )
}

/// What follows once the peer has unchoked us, or has answered a request:
/// the request for the next block while some of the piece is missing; then
/// nothing at all for a piece of no bytes; else the piece, if its digest is
/// the one that the torrent file gives, and a failure if it is not.
pub open spec fn request_or_conclude(info: InfoView, p: Progress, data: Seq<u8>) -> (
    Transfer,
    ActionView,
) {
    if p.begin < p.piece_length {
        (
            Transfer { progress: Progress { stage: Stage::Sending(Expect::Piece), ..p }, data },
            ActionView::Send(frame_of(MessageView::Request(next_request(p)))),
        )
    } else if p.begin == 0 {
        (
            Transfer { progress: Progress { stage: Stage::Idle, ..p }, data: Seq::empty() },
            ActionView::Finished,
        )
    } else if sha1_digest(data) == info.piece_digest(p.index as nat) {
        (
            Transfer { progress: Progress { stage: Stage::Idle, ..p }, data: Seq::empty() },
            ActionView::Deliver(data),
        )
    } else {
        failed(p, PeerError::IntegrityMismatch)
    }
}

/// The start of the download of piece `index`. On a connection that is not
/// ready the peer's bitfield is waited for first; on one that is, the first
/// block is asked for at once.
pub open spec fn begin(info: InfoView, t: Transfer, index: u32) -> (Transfer, ActionView) {
    let p = t.progress;
    let length = info.piece_length_at(index as nat);
    if p.stage != Stage::Idle {
        failed(p, PeerError::OutOfTurn)
    } else if length > u32::MAX {
        (t, ActionView::Fail(PeerError::PieceTooLarge))
    } else {
        let start = Progress { index, piece_length: length as u32, begin: 0, ..p };
        if !p.ready {
            (
                Transfer {
                    progress: Progress { stage: Stage::AwaitingHeader(Expect::Bitfield), ..start },
                    data: Seq::empty(),
                },
                ActionView::Receive(HEADER_LENGTH as nat),
            )
        } else {
            request_or_conclude(info, start, Seq::empty())
        }
    }
}

/// What follows when the message `m` arrives while `e` is waited for.
pub open spec fn accept(info: InfoView, t: Transfer, e: Expect, m: MessageView) -> (
    Transfer,
    ActionView,
) {
    let p = t.progress;
    match (e, m) {
        (Expect::Bitfield, MessageView::Bitfield) => (
            Transfer { progress: Progress { stage: Stage::Sending(Expect::Unchoke), ..p }, data: t.data },
            ActionView::Send(frame_of(MessageView::Interested)),
        ),
        (Expect::Unchoke, MessageView::Unchoke) => request_or_conclude(
            info,
            Progress { ready: true, ..p },
            t.data,
        ),
        (Expect::Piece, MessageView::Piece { index, begin, block }) => request_or_conclude(
            info,
            Progress { begin: (p.begin + block_length(p)) as u32, ..p },
            t.data + block,
        ),
        _ => failed(p, PeerError::ProtocolViolation),
    }
}

/// The step of the machine: what follows in state `t` when `event` is
/// reported.
pub open spec fn resume(info: InfoView, t: Transfer, event: EventView) -> (Transfer, ActionView) {
    let p = t.progress;
    match (p.stage, event) {
        (_, EventView::Broken) => failed(p, PeerError::TransportFailure),
        (Stage::Sending(e), EventView::Sent) => (
            Transfer { progress: Progress { stage: Stage::AwaitingHeader(e), ..p }, data: t.data },
            ActionView::Receive(HEADER_LENGTH as nat),
        ),
        (Stage::AwaitingHeader(e), EventView::Received(bytes)) => if bytes.len() != HEADER_LENGTH {
            failed(p, PeerError::TransportFailure)
        } else if be32(bytes) == 0 {
            (t, ActionView::Receive(HEADER_LENGTH as nat))
        } else {
            (
                Transfer {
                    progress: Progress { stage: Stage::AwaitingBody(e, be32(bytes) as u32), ..p },
                    data: t.data,
                },
                ActionView::Receive(be32(bytes) as nat),
            )
        },
        (Stage::AwaitingBody(e, n), EventView::Received(bytes)) => if bytes.len() != n {
            failed(p, PeerError::TransportFailure)
        } else {
            match message_of(bytes) {
                IncomingView::Skipped => (
                    Transfer {
                        progress: Progress { stage: Stage::AwaitingHeader(e), ..p },
                        data: t.data,
                    },
                    ActionView::Receive(HEADER_LENGTH as nat),
                ),
                IncomingView::Malformed => failed(p, PeerError::ProtocolViolation),
                IncomingView::Message(m) => accept(info, t, e, m),
            }
        },
        _ => failed(p, PeerError::OutOfTurn),
    }
}

/// A keepalive, a frame of length zero, changes nothing: the header of the
/// next frame is asked for, and whatever arrives then is taken as if no
/// keepalive had come before it.
pub proof fn lemma_keepalive_changes_nothing(info: InfoView, t: Transfer, next: EventView)
    requires
        t.progress.stage is AwaitingHeader,
    ensures
        resume(info, t, EventView::Received(seq![0u8, 0u8, 0u8, 0u8])) == (
            t,
            ActionView::Receive(HEADER_LENGTH as nat),
        ),
        resume(info, resume(info, t, EventView::Received(seq![0u8, 0u8, 0u8, 0u8])).0, next)
            == resume(info, t, next),
{
}

/// A message of a kind that is not known is passed over: the download
/// waits on for the message that was due, with nothing else changed.
pub proof fn lemma_unknown_message_is_passed_over(info: InfoView, t: Transfer, body: Seq<u8>)
    requires
        t.progress.stage matches Stage::AwaitingBody(_, n) && body.len() == n,
        message_of(body) is Skipped,
    ensures
        resume(info, t, EventView::Received(body)) == (
            Transfer {
                progress: Progress {
                    stage: Stage::AwaitingHeader(t.progress.stage->AwaitingBody_0),
                    ..t.progress
                },
                data: t.data,
            },
            ActionView::Receive(HEADER_LENGTH as nat),
        ),
{
}

/// A piece all of whose blocks have arrived is handed out exactly as it was
/// put together if its digest is the one that the torrent file gives; if
/// not, the download fails, the connection with it, and nothing is handed
/// out.
pub proof fn lemma_piece_is_checked(info: InfoView, p: Progress, data: Seq<u8>)
    requires
        p.begin >= p.piece_length,
        p.begin != 0,
    ensures
        sha1_digest(data) == info.piece_digest(p.index as nat) ==> request_or_conclude(
            info,
            p,
            data,
        ).1 == ActionView::Deliver(data),
        sha1_digest(data) != info.piece_digest(p.index as nat) ==> request_or_conclude(
            info,
            p,
            data,
        ) == failed(p, PeerError::IntegrityMismatch),
{
}

/// Whatever a download hands out has the digest that the torrent file
/// gives for the piece, and is every block that arrived, in the order of
/// arrival: no step hands out anything else.
pub proof fn lemma_delivery_is_verified(info: InfoView, t: Transfer, event: EventView)
    requires
        valid_progress(info, t.progress),
    ensures
        resume(info, t, event).1 matches ActionView::Deliver(piece) ==> {
            &&& sha1_digest(piece) == info.piece_digest(t.progress.index as nat)
            &&& event matches EventView::Received(body)
            &&& message_of(body) matches IncomingView::Message(MessageView::Piece { block, .. })
            &&& piece == t.data + block
        },
{
}

/// What has arrived of a piece only grows, block by block in the order of
/// arrival, until the download ends or fails, when it is dropped.
pub proof fn lemma_data_grows_by_blocks(info: InfoView, t: Transfer, event: EventView)
    ensures
        ({
            let after = resume(info, t, event).0;
            ||| after.data == t.data
            ||| after.data == Seq::<u8>::empty() && (after.progress.stage is Idle
                || after.progress.stage is Failed)
            ||| {
                &&& t.progress.stage matches Stage::AwaitingBody(Expect::Piece, _)
                &&& event matches EventView::Received(body)
                &&& message_of(body) matches IncomingView::Message(MessageView::Piece { block, .. })
                &&& after.data == t.data + block
            }
        }),
{
}

/// The start of a download hands nothing out.
pub proof fn lemma_begin_delivers_nothing(info: InfoView, t: Transfer, index: u32)
    ensures
        !(begin(info, t, index).1 is Deliver),
{
}

/// A connection that is ready stays ready, whatever happens.
pub proof fn lemma_ready_stays(info: InfoView, t: Transfer, event: EventView, index: u32)
    requires
        t.progress.ready,
    ensures
        resume(info, t, event).0.progress.ready,
        begin(info, t, index).0.progress.ready,
{
}

/// On a connection that is ready a download asks for its first block at
/// once: the bitfield, `Interested` and `Unchoke` are not gone through
/// again.
pub proof fn lemma_ready_connection_requests_at_once(info: InfoView, t: Transfer, index: u32)
    requires
        t.progress.ready,
        t.progress.stage is Idle,
        0 < info.piece_length_at(index as nat) <= u32::MAX,
    ensures
        begin(info, t, index).1 == ActionView::Send(
            frame_of(
                MessageView::Request(
                    RequestPayload {
                        index,
                        begin: 0,
                        length: if info.piece_length_at(index as nat) > BLOCK_SIZE {
                            BLOCK_SIZE
                        } else {
                            info.piece_length_at(index as nat) as u32
                        },
                    },
                ),
            ),
        ),
{
}

/// A piece index that is no piece's makes a download of no bytes on a
/// ready connection: nothing is asked for and nothing is handed out.
pub proof fn lemma_no_piece_is_no_download(info: InfoView, t: Transfer, index: u32)
    requires
        t.progress.ready,
        t.progress.stage is Idle,
        index >= info.piece_count(),
    ensures
        begin(info, t, index).1 == ActionView::Finished,
        begin(info, t, index).0.progress.stage is Idle,
{
}

/// Every step leaves the connection in a state that it can be in.
pub proof fn lemma_steps_keep_validity(info: InfoView, t: Transfer, event: EventView, index: u32)
    requires
        valid_progress(info, t.progress),
    ensures
        valid_progress(info, resume(info, t, event).0.progress),
        valid_progress(info, begin(info, t, index).0.progress),
{
    let p = t.progress;
    if let Stage::AwaitingBody(Expect::Piece, n) = p.stage {
        let next = (p.begin + block_length(p)) as u32;
        if next < p.piece_length {
            assert(block_length(p) == BLOCK_SIZE);
            assert(next % BLOCK_SIZE == 0);
        }
    }
}

/// Every request asks for a block that starts at a multiple of the block
/// size, is one block long, or shorter where the piece ends, and lies
/// within the piece.
pub proof fn lemma_requests_are_blocks(info: InfoView, t: Transfer, event: EventView)
    requires
        valid_progress(info, t.progress),
        event is Received,
    ensures
        resume(info, t, event).1 matches ActionView::Send(frame) ==> {
            let after = resume(info, t, event).0.progress;
            ||| frame == frame_of(MessageView::Interested)
            ||| {
                &&& frame == frame_of(MessageView::Request(next_request(after)))
                &&& after.begin % BLOCK_SIZE == 0
                &&& 0 < next_request(after).length <= BLOCK_SIZE
                &&& after.begin + next_request(after).length <= after.piece_length
                &&& after.begin + next_request(after).length < after.piece_length ==> next_request(
                    after,
                ).length == BLOCK_SIZE
            }
        },
{
    lemma_steps_keep_validity(info, t, event, 0);
}

} // verus!
