//! What holds of a whole download, from the first request to the piece.

use crate::digest::sha1_digest;
use crate::message::{
    be32, be32_bytes, frame_of, message_of, IncomingView, MessageView, ID_BITFIELD, ID_PIECE,
    ID_UNCHOKE,
};
use crate::session::{
    begin, block_length, request_or_conclude, resume, valid_progress, ActionView, EventView,
    Expect, PeerError, Progress, Stage, Transfer, BLOCK_SIZE, HEADER_LENGTH,
};
use crate::tfile::InfoView;
use vstd::prelude::*;

verus! {

/// What follows when `events` are reported one after the other, from state
/// `t` on: the state after the last of them, and what is to be done then.
pub open spec fn outcome(info: InfoView, t: Transfer, events: Seq<EventView>) -> (
    Transfer,
    ActionView,
)
    recommends
        events.len() > 0,
    decreases events.len(),
{
    if events.len() <= 1 {
        resume(info, t, events[0])
    } else {
        outcome(info, resume(info, t, events[0]).0, events.skip(1))
    }
}

/// The events by which a block arrives: the request for it is sent, then
/// the header and the body of a `Piece` message are read. The message says
/// that the block is of piece `index` and starts at `begin`.
pub open spec fn block_events(index: u32, begin: u32, block: Seq<u8>) -> Seq<EventView> {
    seq![
        EventView::Sent,
        EventView::Received(be32_bytes((9 + block.len()) as u32)),
        EventView::Received(seq![ID_PIECE] + be32_bytes(index) + be32_bytes(begin) + block),
    ]
}

/// The events by which `blocks` arrive, one after the other.
pub open spec fn blocks_events(blocks: Seq<Seq<u8>>) -> Seq<EventView>
    decreases blocks.len(),
{
    if blocks.len() == 0 {
        Seq::empty()
    } else {
        block_events(0, 0, blocks[0]) + blocks_events(blocks.skip(1))
    }
}

/// `blocks` put together.
pub open spec fn joined(blocks: Seq<Seq<u8>>) -> Seq<u8>
    decreases blocks.len(),
{
    if blocks.len() == 0 {
        Seq::empty()
    } else {
        blocks[0] + joined(blocks.skip(1))
    }
}

/// The number of requests that are still to be answered before the piece is
/// complete.
pub open spec fn blocks_left(p: Progress) -> int {
    (p.piece_length - p.begin + BLOCK_SIZE - 1) / (BLOCK_SIZE as int)
}

/// Whether every block is short enough for the length of its message to
/// fit in the header of a frame.
pub open spec fn fit_in_frames(blocks: Seq<Seq<u8>>) -> bool {
    forall|i: int| 0 <= i < blocks.len() ==> 9 + (#[trigger] blocks[i]).len() <= u32::MAX
}

/// The body of a `Piece` message is read as that message.
pub proof fn lemma_piece_body(index: u32, begin: u32, block: Seq<u8>)
    ensures
        message_of(seq![ID_PIECE] + be32_bytes(index) + be32_bytes(begin) + block)
            == IncomingView::Message(MessageView::Piece { index, begin, block }),
{
    let body = seq![ID_PIECE] + be32_bytes(index) + be32_bytes(begin) + block;
    let payload = body.skip(1);
    assert(body[0] == ID_PIECE);
    assert(payload =~= be32_bytes(index) + be32_bytes(begin) + block);
    assert(payload.skip(4) =~= be32_bytes(begin) + block);
    assert(payload.skip(8) =~= block);
    assert(be32(payload) == index);
    assert(be32(payload.skip(4)) == begin);
}

/// Once a frame is sent, the header of the answer is asked for.
pub proof fn lemma_sent(info: InfoView, t: Transfer, e: Expect)
    requires
        t.progress.stage == Stage::Sending(e),
    ensures
        resume(info, t, EventView::Sent).0 == (Transfer {
            progress: Progress { stage: Stage::AwaitingHeader(e), ..t.progress },
            data: t.data,
        }),
{
}

/// The header of a frame that is no keepalive asks for the body of the
/// frame.
pub proof fn lemma_header(info: InfoView, t: Transfer, e: Expect, n: u32)
    requires
        t.progress.stage == Stage::AwaitingHeader(e),
        n > 0,
    ensures
        resume(info, t, EventView::Received(be32_bytes(n))).0 == (Transfer {
            progress: Progress { stage: Stage::AwaitingBody(e, n), ..t.progress },
            data: t.data,
        }),
{
    assert(be32(be32_bytes(n)) == n);
    assert(be32_bytes(n).len() == 4);
}

/// The body of a `Piece` message, where a block is due, adds its block to
/// what has arrived; the next block is asked for or the download ends.
pub proof fn lemma_piece(info: InfoView, t: Transfer, index: u32, begin: u32, block: Seq<u8>)
    requires
        t.progress.stage == Stage::AwaitingBody(Expect::Piece, (9 + block.len()) as u32),
        9 + block.len() <= u32::MAX,
    ensures
        resume(
            info,
            t,
            EventView::Received(seq![ID_PIECE] + be32_bytes(index) + be32_bytes(begin) + block),
        ) == request_or_conclude(
            info,
            Progress {
                begin: (t.progress.begin + block_length(t.progress)) as u32,
                ..t.progress
            },
            t.data + block,
        ),
{
    let body = seq![ID_PIECE] + be32_bytes(index) + be32_bytes(begin) + block;
    lemma_piece_body(index, begin, block);
    assert(body.len() == 9 + block.len());
}

/// Once a request is handed out and the peer answers it with a `Piece`
/// message, the block of that message is added to what has arrived, and
/// the next block is asked for or the download ends. What the message says
/// of its piece and its place is not looked at.
pub proof fn lemma_block_arrives(
    info: InfoView,
    t: Transfer,
    index: u32,
    begin: u32,
    block: Seq<u8>,
)
    requires
        t.progress.stage == Stage::Sending(Expect::Piece),
        9 + block.len() <= u32::MAX,
    ensures
        outcome(info, t, block_events(index, begin, block)) == request_or_conclude(
            info,
            Progress {
                begin: (t.progress.begin + block_length(t.progress)) as u32,
                ..t.progress
            },
            t.data + block,
        ),
{
    let events = block_events(index, begin, block);
    let n = (9 + block.len()) as u32;
    let first = resume(info, t, events[0]).0;
    let second = resume(info, first, events[1]).0;
    lemma_sent(info, t, Expect::Piece);
    lemma_header(info, first, Expect::Piece, n);
    lemma_piece(info, second, index, begin, block);
    let two = events.skip(1);
    let one = two.skip(1);
    assert(two.len() == 2 && two[0] == events[1]);
    assert(one.len() == 1 && one[0] == events[2]);
    assert(outcome(info, t, events) == outcome(info, first, two));
    assert(outcome(info, first, two) == outcome(info, second, one));
    assert(outcome(info, second, one) == resume(info, second, events[2]));
}

/// The events of the first use of a connection: the peer's bitfield is
/// read, `Interested` is sent, and the peer's `Unchoke` is read.
pub open spec fn opening_events(bitfield: Seq<u8>) -> Seq<EventView> {
    seq![
        EventView::Received(be32_bytes((1 + bitfield.len()) as u32)),
        EventView::Received(seq![ID_BITFIELD] + bitfield),
        EventView::Sent,
        EventView::Received(be32_bytes(1)),
        EventView::Received(seq![ID_UNCHOKE]),
    ]
}

/// The first use of a connection: the download waits for the peer's
/// bitfield, answers it with `Interested`, waits for `Unchoke`, and only
/// then, the connection being ready, asks for the first block, or ends at
/// once where the piece has no bytes.
pub proof fn theorem_first_use(info: InfoView, t: Transfer, index: u32, bitfield: Seq<u8>)
    requires
        t.progress.stage is Idle,
        !t.progress.ready,
        info.piece_length_at(index as nat) <= u32::MAX,
        1 + bitfield.len() <= u32::MAX,
    ensures
        begin(info, t, index).1 == ActionView::Receive(HEADER_LENGTH as nat),
        outcome(info, begin(info, t, index).0, opening_events(bitfield).take(2)).1
            == ActionView::Send(frame_of(MessageView::Interested)),
        outcome(info, begin(info, t, index).0, opening_events(bitfield)) == request_or_conclude(
            info,
            Progress {
                ready: true,
                stage: Stage::AwaitingBody(Expect::Unchoke, 1),
                index,
                piece_length: info.piece_length_at(index as nat) as u32,
                begin: 0,
            },
            Seq::empty(),
        ),
{
    let events = opening_events(bitfield);
    let start = begin(info, t, index).0;
    let n = (1 + bitfield.len()) as u32;
    lemma_header(info, start, Expect::Bitfield, n);
    let first = resume(info, start, events[0]).0;
    let body = seq![ID_BITFIELD] + bitfield;
    assert(body[0] == ID_BITFIELD);
    assert(body.len() == n);
    let second = resume(info, first, events[1]);
    assert(second.1 == ActionView::Send(frame_of(MessageView::Interested)));
    lemma_sent(info, second.0, Expect::Unchoke);
    let third = resume(info, second.0, events[2]).0;
    lemma_header(info, third, Expect::Unchoke, 1);
    let fourth = resume(info, third, events[3]).0;
    assert(seq![ID_UNCHOKE][0] == ID_UNCHOKE);
    let four = events.skip(1);
    let three = four.skip(1);
    let two = three.skip(1);
    let one = two.skip(1);
    assert(four.len() == 4 && four[0] == events[1]);
    assert(three.len() == 3 && three[0] == events[2]);
    assert(two.len() == 2 && two[0] == events[3]);
    assert(one.len() == 1 && one[0] == events[4]);
    assert(outcome(info, start, events) == outcome(info, first, four));
    assert(outcome(info, first, four) == outcome(info, second.0, three));
    assert(outcome(info, second.0, three) == outcome(info, third, two));
    assert(outcome(info, third, two) == outcome(info, fourth, one));
    assert(outcome(info, fourth, one) == resume(info, fourth, events[4]));
    let opening = events.take(2);
    assert(opening.len() == 2 && opening[0] == events[0]);
    assert(opening.skip(1).len() == 1 && opening.skip(1)[0] == events[1]);
    assert(outcome(info, start, opening) == outcome(info, first, opening.skip(1)));
    assert(outcome(info, first, opening.skip(1)) == second);
}

/// The events of some blocks are three for each block.
pub proof fn lemma_blocks_events_len(blocks: Seq<Seq<u8>>)
    ensures
        blocks_events(blocks).len() == 3 * blocks.len(),
    decreases blocks.len(),
{
    if blocks.len() > 0 {
        lemma_blocks_events_len(blocks.skip(1));
    }
}

/// What follows a run of events that goes on is what follows the rest of
/// it from the state that its first part leaves.
pub proof fn lemma_outcome_concat(
    info: InfoView,
    t: Transfer,
    first: Seq<EventView>,
    rest: Seq<EventView>,
)
    requires
        first.len() > 0,
        rest.len() > 0,
    ensures
        outcome(info, t, first + rest) == outcome(info, outcome(info, t, first).0, rest),
    decreases first.len(),
{
    let all = first + rest;
    assert(all[0] == first[0]);
    if first.len() == 1 {
        assert(all.skip(1) =~= rest);
    } else {
        assert(all.skip(1) =~= first.skip(1) + rest);
        lemma_outcome_concat(info, resume(info, t, first[0]).0, first.skip(1), rest);
    }
}

/// A whole piece: once the first request is handed out and the peer answers
/// every request with a `Piece` message, as many as the piece has blocks,
/// the piece is handed out if the digest of the blocks put together, in the
/// order of arrival, is the one that the torrent file gives, and the
/// download fails if it is not. What is handed out is those blocks put
/// together, and nothing else.
pub proof fn theorem_download_of_a_piece(info: InfoView, t: Transfer, blocks: Seq<Seq<u8>>)
    requires
        valid_progress(info, t.progress),
        t.progress.stage == Stage::Sending(Expect::Piece),
        blocks.len() == blocks_left(t.progress),
        fit_in_frames(blocks),
    ensures
        ({
            let piece = t.data + joined(blocks);
            let end = outcome(info, t, blocks_events(blocks));
            if sha1_digest(piece) == info.piece_digest(t.progress.index as nat) {
                &&& end.1 == ActionView::Deliver(piece)
                &&& end.0.progress.stage is Idle
                &&& end.0.progress.ready
            } else {
                &&& end.1 == ActionView::Fail(PeerError::IntegrityMismatch)
                &&& end.0.progress.stage is Failed
            }
        }),
    decreases blocks.len(),
{
    let p = t.progress;
    assert(blocks.len() >= 1);
    let block = blocks[0];
    let others = blocks.skip(1);
    let next = Progress { begin: (p.begin + block_length(p)) as u32, ..p };
    let step = request_or_conclude(info, next, t.data + block);
    lemma_block_arrives(info, t, 0, 0, block);
    if others.len() == 0 {
        assert(blocks_events(others) =~= Seq::empty());
        assert(blocks_events(blocks) =~= block_events(0, 0, block));
        assert(joined(others) =~= Seq::empty());
        assert(t.data + joined(blocks) =~= t.data + block);
        assert(next.begin == p.piece_length);
    } else {
        assert(next.begin < p.piece_length);
        assert(block_length(p) == BLOCK_SIZE);
        assert(blocks_left(next) == blocks_left(p) - 1);
        assert(fit_in_frames(others)) by {
            assert forall|i: int| 0 <= i < others.len() implies 9 + (#[trigger] others[i]).len()
                <= u32::MAX by {
                assert(others[i] == blocks[i + 1]);
            }
        }
        lemma_blocks_events_len(others);
        lemma_outcome_concat(info, t, block_events(0, 0, block), blocks_events(others));
        theorem_download_of_a_piece(info, step.0, others);
        assert(t.data + block + joined(others) =~= t.data + joined(blocks));
    }
}

} // verus!
