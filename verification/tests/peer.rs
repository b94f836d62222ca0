use bittorrent::message::{
    push_u32, u32_from_bytes, Incoming, PeerMessage, PiecePayload, RequestPayload,
};
use bittorrent::peer::{handshake_reply_length, to_array, HandshakeError, Peer, PeerAddr};
use bittorrent::session::{Action, Event, Expect, PeerError, Stage, BLOCK_SIZE};
use bittorrent::tfile::{TorrentFile, TorrentFileInfo};
use sha1::{Digest, Sha1};

const ADDR: PeerAddr = PeerAddr { ip: [127, 0, 0, 1], port: 6881 };

fn content(length: usize) -> Vec<u8> {
    (0..length).map(|i| (i * 7 % 256) as u8).collect()
}

fn file_of(content: &[u8], plength: usize) -> TorrentFile {
    let mut pieces = Vec::new();
    for chunk in content.chunks(plength) {
        let digest: [u8; 20] = Sha1::digest(chunk).into();
        pieces.extend_from_slice(&digest);
    }
    TorrentFile {
        announce: "http://t/a".to_string(),
        info: TorrentFileInfo::new(content.len(), "c".to_string(), plength, pieces).unwrap(),
    }
}

fn reply_of(file: &TorrentFile, peer_id: &[u8; 20]) -> Vec<u8> {
    let mut reply = vec![19u8];
    reply.extend_from_slice(b"BitTorrent protocol");
    reply.extend_from_slice(&[0u8; 8]);
    reply.extend_from_slice(&file.info.hash());
    reply.extend_from_slice(peer_id);
    reply
}

fn header(n: u32) -> Event {
    Event::Received(n.to_be_bytes().to_vec())
}

fn body(id: u8, payload: &[u8]) -> Event {
    let mut b = vec![id];
    b.extend_from_slice(payload);
    Event::Received(b)
}

fn piece_body(index: u32, begin: u32, block: &[u8]) -> Event {
    let mut payload = Vec::new();
    payload.extend_from_slice(&index.to_be_bytes());
    payload.extend_from_slice(&begin.to_be_bytes());
    payload.extend_from_slice(block);
    body(7, &payload)
}

fn request_frame(index: u32, begin: u32, length: u32) -> Vec<u8> {
    let mut f = vec![0, 0, 0, 13, 6];
    f.extend_from_slice(&index.to_be_bytes());
    f.extend_from_slice(&begin.to_be_bytes());
    f.extend_from_slice(&length.to_be_bytes());
    f
}

/// Plays the peer: answers every request with the block of `content`.
fn run(conn: &mut bittorrent::peer::PeerConnection, first: Action, content: &[u8], plength: usize) -> Action {
    let mut action = first;
    let mut pending: Option<(u32, u32, u32)> = None;
    let mut stage = 0;
    loop {
        action = match action {
            Action::Send(frame) => {
                if frame == vec![0, 0, 0, 1, 2] {
                    stage = 1;
                } else {
                    assert_eq!(frame.len(), 17);
                    assert_eq!(&frame[..5], &[0, 0, 0, 13, 6]);
                    pending = Some((
                        u32_from_bytes(&frame[5..]),
                        u32_from_bytes(&frame[9..]),
                        u32_from_bytes(&frame[13..]),
                    ));
                }
                conn.resume(Event::Sent)
            }
            Action::Receive(n) => {
                assert_eq!(n, 4);
                if let Some((index, begin, length)) = pending.take() {
                    let start = index as usize * plength + begin as usize;
                    let block = &content[start..start + length as usize];
                    assert_eq!(conn.resume(header(9 + length)), Action::Receive(9 + length as usize));
                    conn.resume(piece_body(index, begin, block))
                } else if stage == 0 {
                    assert_eq!(conn.resume(header(3)), Action::Receive(3));
                    conn.resume(body(5, &[0xff, 0xff]))
                } else {
                    assert_eq!(conn.resume(header(1)), Action::Receive(1));
                    conn.resume(body(1, &[]))
                }
            }
            done => return done,
        }
    }
}

#[test]
fn handshake_message_is_sixty_eight_bytes() {
    let file = file_of(&content(17), 10);
    let peer = Peer::new(ADDR, &file);
    let message = peer.handshake_message();
    assert_eq!(message.len(), 68);
    assert_eq!(message[0], 19);
    assert_eq!(&message[1..20], b"BitTorrent protocol");
    assert_eq!(&message[20..28], &[0u8; 8]);
    assert_eq!(&message[28..48], &file.info.hash());
    assert_eq!(&message[48..68], b"00112233445566778899");
    assert_eq!(peer.addr, ADDR);
}

#[test]
fn handshake_reply_length_counts_the_name() {
    assert_eq!(handshake_reply_length(19), 68);
    assert_eq!(handshake_reply_length(0), 49);
    assert_eq!(handshake_reply_length(255), 304);
}

#[test]
fn handshake_makes_a_connection() {
    let file = file_of(&content(17), 10);
    let peer = Peer::new(ADDR, &file);
    let id = *b"-XX0001-abcdefghijkl";
    let conn = peer.handshake(&reply_of(&file, &id)).unwrap();
    assert_eq!(conn.peer_id(), id);
    assert_eq!(conn.info_hash(), file.info.hash());
    assert_eq!(conn.protocol(), b"BitTorrent protocol");
    assert_eq!(conn.progress().stage, Stage::Idle);
    assert!(!conn.progress().ready);
}

#[test]
fn handshake_takes_any_protocol_name_and_passes_over_what_follows() {
    let file = file_of(&content(17), 10);
    let peer = Peer::new(ADDR, &file);
    let mut reply = vec![2u8, b'h', b'i'];
    reply.extend_from_slice(&[1u8; 8]);
    reply.extend_from_slice(&file.info.hash());
    reply.extend_from_slice(&[9u8; 20]);
    reply.extend_from_slice(b"more");
    let conn = peer.handshake(&reply).unwrap();
    assert_eq!(conn.protocol(), b"hi");
    assert_eq!(conn.peer_id(), [9u8; 20]);
}

#[test]
fn handshake_that_ends_early_is_incomplete() {
    let file = file_of(&content(17), 10);
    let peer = Peer::new(ADDR, &file);
    let reply = reply_of(&file, &[1u8; 20]);
    assert_eq!(peer.handshake(&[]).err(), Some(HandshakeError::Incomplete));
    assert_eq!(peer.handshake(&reply[..1]).err(), Some(HandshakeError::Incomplete));
    assert_eq!(peer.handshake(&reply[..67]).err(), Some(HandshakeError::Incomplete));
    assert!(peer.handshake(&reply[..68]).is_ok());
}

#[test]
fn handshake_for_other_content_is_refused() {
    let file = file_of(&content(17), 10);
    let other = file_of(&content(18), 10);
    let peer = Peer::new(ADDR, &file);
    assert_eq!(
        peer.handshake(&reply_of(&other, &[1u8; 20])).err(),
        Some(HandshakeError::WrongContent)
    );
    let mut reply = reply_of(&file, &[1u8; 20]);
    reply[47] ^= 0x80;
    assert_eq!(peer.handshake(&reply).err(), Some(HandshakeError::WrongContent));
}

#[test]
fn twenty_bytes_as_an_array() {
    let bytes: Vec<u8> = (1..=20).collect();
    let array = to_array(&bytes);
    assert_eq!(&array[..], &bytes[..]);
}

#[test]
fn numbers_big_end_first() {
    assert_eq!(u32_from_bytes(&[0, 0, 0, 0]), 0);
    assert_eq!(u32_from_bytes(&[0, 0, 1, 2]), 258);
    assert_eq!(u32_from_bytes(&[0x12, 0x34, 0x56, 0x78, 0x9a]), 0x12345678);
    assert_eq!(u32_from_bytes(&[255, 255, 255, 255]), u32::MAX);
    let mut out = vec![9u8];
    push_u32(&mut out, 0x12345678);
    push_u32(&mut out, 0);
    push_u32(&mut out, u32::MAX);
    assert_eq!(out, vec![9, 0x12, 0x34, 0x56, 0x78, 0, 0, 0, 0, 255, 255, 255, 255]);
}

#[test]
fn frames_of_the_messages_that_are_sent() {
    assert_eq!(PeerMessage::Interested.to_frame(), vec![0, 0, 0, 1, 2]);
    let request = PeerMessage::Request(RequestPayload { index: 1, begin: 0x4000, length: 0x1234 });
    assert_eq!(
        request.to_frame(),
        vec![0, 0, 0, 13, 6, 0, 0, 0, 1, 0, 0, 0x40, 0, 0, 0, 0x12, 0x34]
    );
}

#[test]
fn bodies_are_read_as_messages() {
    assert_eq!(PeerMessage::from_body(vec![5, 0xff, 0x01]), Incoming::Message(PeerMessage::Bitfield));
    assert_eq!(PeerMessage::from_body(vec![5]), Incoming::Message(PeerMessage::Bitfield));
    assert_eq!(PeerMessage::from_body(vec![2]), Incoming::Message(PeerMessage::Interested));
    assert_eq!(PeerMessage::from_body(vec![1]), Incoming::Message(PeerMessage::Unchoke));
    assert_eq!(
        PeerMessage::from_body(vec![6, 0, 0, 0, 1, 0, 0, 0, 2, 0, 0, 0, 3]),
        Incoming::Message(PeerMessage::Request(RequestPayload { index: 1, begin: 2, length: 3 }))
    );
    assert_eq!(
        PeerMessage::from_body(vec![7, 0, 0, 0, 1, 0, 0, 0, 2, 9, 8, 7]),
        Incoming::Message(PeerMessage::Piece(PiecePayload { index: 1, begin: 2, block: vec![9, 8, 7] }))
    );
    assert_eq!(
        PeerMessage::from_body(vec![7, 0, 0, 0, 1, 0, 0, 0, 2]),
        Incoming::Message(PeerMessage::Piece(PiecePayload { index: 1, begin: 2, block: vec![] }))
    );
}

#[test]
fn short_bodies_are_malformed_and_unknown_kinds_skipped() {
    assert_eq!(PeerMessage::from_body(vec![6, 0, 0, 0, 1]), Incoming::Malformed);
    assert_eq!(PeerMessage::from_body(vec![6]), Incoming::Malformed);
    assert_eq!(PeerMessage::from_body(vec![7, 0, 0, 0, 1, 0, 0, 0]), Incoming::Malformed);
    assert_eq!(PeerMessage::from_body(vec![0]), Incoming::Skipped);
    assert_eq!(PeerMessage::from_body(vec![3]), Incoming::Skipped);
    assert_eq!(PeerMessage::from_body(vec![4, 0, 0, 0, 1]), Incoming::Skipped);
    assert_eq!(PeerMessage::from_body(vec![20, 1, 2, 3]), Incoming::Skipped);
    assert_eq!(PeerMessage::from_body(vec![255]), Incoming::Skipped);
}

#[test]
fn downloads_a_piece_step_by_step() {
    let data = content(17);
    let file = file_of(&data, 10);
    let peer = Peer::new(ADDR, &file);
    let mut conn = peer.handshake(&reply_of(&file, &[1u8; 20])).unwrap();
    assert_eq!(conn.download_piece(0), Action::Receive(4));
    assert_eq!(conn.progress().stage, Stage::AwaitingHeader(Expect::Bitfield));
    assert_eq!(conn.resume(header(2)), Action::Receive(2));
    assert_eq!(conn.progress().stage, Stage::AwaitingBody(Expect::Bitfield, 2));
    assert_eq!(conn.resume(body(5, &[0xc0])), Action::Send(vec![0, 0, 0, 1, 2]));
    assert_eq!(conn.progress().stage, Stage::Sending(Expect::Unchoke));
    assert_eq!(conn.resume(Event::Sent), Action::Receive(4));
    assert_eq!(conn.resume(header(1)), Action::Receive(1));
    assert!(!conn.progress().ready);
    assert_eq!(conn.resume(body(1, &[])), Action::Send(request_frame(0, 0, 10)));
    assert!(conn.progress().ready);
    assert_eq!(conn.progress().stage, Stage::Sending(Expect::Piece));
    assert_eq!(conn.resume(Event::Sent), Action::Receive(4));
    assert_eq!(conn.resume(header(19)), Action::Receive(19));
    assert_eq!(conn.resume(piece_body(0, 0, &data[..10])), Action::Deliver(data[..10].to_vec()));
    assert_eq!(conn.progress().stage, Stage::Idle);
    assert!(conn.progress().ready);
}

#[test]
fn second_download_asks_for_its_block_at_once() {
    let data = content(17);
    let file = file_of(&data, 10);
    let peer = Peer::new(ADDR, &file);
    let mut conn = peer.handshake(&reply_of(&file, &[1u8; 20])).unwrap();
    let first = conn.download_piece(0);
    assert_eq!(run(&mut conn, first, &data, 10), Action::Deliver(data[..10].to_vec()));
    assert_eq!(conn.download_piece(1), Action::Send(request_frame(1, 0, 7)));
    assert_eq!(conn.resume(Event::Sent), Action::Receive(4));
    assert_eq!(conn.resume(header(16)), Action::Receive(16));
    assert_eq!(conn.resume(piece_body(1, 0, &data[10..])), Action::Deliver(data[10..].to_vec()));
}

#[test]
fn downloads_a_piece_of_several_blocks() {
    let plength = 2 * BLOCK_SIZE as usize + 100;
    let data = content(plength + 5);
    let file = file_of(&data, plength);
    let peer = Peer::new(ADDR, &file);
    let mut conn = peer.handshake(&reply_of(&file, &[1u8; 20])).unwrap();
    assert_eq!(conn.download_piece(0), Action::Receive(4));
    assert_eq!(conn.resume(header(1)), Action::Receive(1));
    assert_eq!(conn.resume(body(5, &[])), Action::Send(vec![0, 0, 0, 1, 2]));
    assert_eq!(conn.resume(Event::Sent), Action::Receive(4));
    assert_eq!(conn.resume(header(1)), Action::Receive(1));
    assert_eq!(conn.resume(body(1, &[])), Action::Send(request_frame(0, 0, 16384)));
    assert_eq!(conn.resume(Event::Sent), Action::Receive(4));
    assert_eq!(conn.resume(header(9 + 16384)), Action::Receive(9 + 16384));
    assert_eq!(
        conn.resume(piece_body(0, 0, &data[..16384])),
        Action::Send(request_frame(0, 16384, 16384))
    );
    assert_eq!(conn.progress().begin, 16384);
    assert_eq!(conn.resume(Event::Sent), Action::Receive(4));
    assert_eq!(conn.resume(header(9 + 16384)), Action::Receive(9 + 16384));
    assert_eq!(
        conn.resume(piece_body(0, 16384, &data[16384..32768])),
        Action::Send(request_frame(0, 32768, 100))
    );
    assert_eq!(conn.resume(Event::Sent), Action::Receive(4));
    assert_eq!(conn.resume(header(109)), Action::Receive(109));
    assert_eq!(
        conn.resume(piece_body(0, 32768, &data[32768..plength])),
        Action::Deliver(data[..plength].to_vec())
    );
    let last = conn.download_piece(1);
    assert_eq!(last, Action::Send(request_frame(1, 0, 5)));
    assert_eq!(run(&mut conn, last, &data, plength), Action::Deliver(data[plength..].to_vec()));
}

#[test]
fn piece_of_exactly_one_block() {
    let data = content(BLOCK_SIZE as usize);
    let file = file_of(&data, BLOCK_SIZE as usize);
    let peer = Peer::new(ADDR, &file);
    let mut conn = peer.handshake(&reply_of(&file, &[1u8; 20])).unwrap();
    let first = conn.download_piece(0);
    assert_eq!(run(&mut conn, first, &data, BLOCK_SIZE as usize), Action::Deliver(data.clone()));
}

#[test]
fn whole_content_by_pieces() {
    let plength = BLOCK_SIZE as usize + 1;
    let data = content(3 * plength + 77);
    let file = file_of(&data, plength);
    let peer = Peer::new(ADDR, &file);
    let mut conn = peer.handshake(&reply_of(&file, &[1u8; 20])).unwrap();
    let mut out = Vec::new();
    for index in 0..file.info.n_pieces() as u32 {
        let first = conn.download_piece(index);
        match run(&mut conn, first, &data, plength) {
            Action::Deliver(piece) => out.extend_from_slice(&piece),
            other => panic!("{:?}", other),
        }
    }
    assert_eq!(out, data);
}

#[test]
fn piece_with_the_right_digest_is_delivered_unchanged() {
    let data = content(10);
    let file = file_of(&data, 10);
    let peer = Peer::new(ADDR, &file);
    let mut conn = peer.handshake(&reply_of(&file, &[1u8; 20])).unwrap();
    let first = conn.download_piece(0);
    assert_eq!(run(&mut conn, first, &data, 10), Action::Deliver(data));
}

#[test]
fn piece_with_one_byte_changed_fails_the_download() {
    let data = content(10);
    let file = file_of(&data, 10);
    for at in 0..10 {
        let mut wrong = data.clone();
        wrong[at] ^= 1;
        let peer = Peer::new(ADDR, &file);
        let mut conn = peer.handshake(&reply_of(&file, &[1u8; 20])).unwrap();
        let first = conn.download_piece(0);
        assert_eq!(run(&mut conn, first, &wrong, 10), Action::Fail(PeerError::IntegrityMismatch));
        assert_eq!(conn.progress().stage, Stage::Failed);
        assert_eq!(conn.download_piece(0), Action::Fail(PeerError::OutOfTurn));
    }
}

#[test]
fn block_of_the_wrong_length_fails_the_digest() {
    let data = content(10);
    let file = file_of(&data, 10);
    let peer = Peer::new(ADDR, &file);
    let mut conn = peer.handshake(&reply_of(&file, &[1u8; 20])).unwrap();
    conn.download_piece(0);
    conn.resume(header(1));
    conn.resume(body(5, &[]));
    conn.resume(Event::Sent);
    conn.resume(header(1));
    conn.resume(body(1, &[]));
    conn.resume(Event::Sent);
    assert_eq!(conn.resume(header(18)), Action::Receive(18));
    assert_eq!(
        conn.resume(piece_body(0, 0, &data[..9])),
        Action::Fail(PeerError::IntegrityMismatch)
    );
}

#[test]
fn keepalive_is_passed_over() {
    let data = content(10);
    let file = file_of(&data, 10);
    let peer = Peer::new(ADDR, &file);
    let mut with = peer.handshake(&reply_of(&file, &[1u8; 20])).unwrap();
    let mut without = peer.handshake(&reply_of(&file, &[1u8; 20])).unwrap();
    assert_eq!(with.download_piece(0), Action::Receive(4));
    assert_eq!(without.download_piece(0), Action::Receive(4));
    assert_eq!(with.resume(Event::Received(vec![0, 0, 0, 0])), Action::Receive(4));
    assert_eq!(with.progress(), without.progress());
    assert_eq!(with.resume(Event::Received(vec![0, 0, 0, 0])), Action::Receive(4));
    assert_eq!(with.resume(header(2)), without.resume(header(2)));
    assert_eq!(with.resume(body(5, &[1])), without.resume(body(5, &[1])));
    assert_eq!(with.progress(), without.progress());
    assert_eq!(with.resume(Event::Sent), Action::Receive(4));
    assert_eq!(with.resume(header(0)), Action::Receive(4));
    assert_eq!(with.resume(header(1)), Action::Receive(1));
    assert_eq!(with.resume(body(1, &[])), Action::Send(request_frame(0, 0, 10)));
    assert_eq!(with.resume(Event::Sent), Action::Receive(4));
    assert_eq!(with.resume(header(0)), Action::Receive(4));
    assert_eq!(with.resume(header(19)), Action::Receive(19));
    assert_eq!(with.resume(piece_body(0, 0, &data)), Action::Deliver(data));
}

#[test]
fn unknown_messages_are_passed_over() {
    let data = content(10);
    let file = file_of(&data, 10);
    let peer = Peer::new(ADDR, &file);
    let mut conn = peer.handshake(&reply_of(&file, &[1u8; 20])).unwrap();
    assert_eq!(conn.download_piece(0), Action::Receive(4));
    assert_eq!(conn.resume(header(6)), Action::Receive(6));
    assert_eq!(conn.resume(body(20, &[0, 1, 2, 3, 4])), Action::Receive(4));
    assert_eq!(conn.progress().stage, Stage::AwaitingHeader(Expect::Bitfield));
    assert_eq!(conn.resume(header(1)), Action::Receive(1));
    assert_eq!(conn.resume(body(5, &[])), Action::Send(vec![0, 0, 0, 1, 2]));
    assert_eq!(conn.resume(Event::Sent), Action::Receive(4));
    assert_eq!(conn.resume(header(1)), Action::Receive(1));
    assert_eq!(conn.resume(body(0, &[])), Action::Receive(4));
    assert_eq!(conn.resume(header(5)), Action::Receive(5));
    assert_eq!(conn.resume(body(4, &[0, 0, 0, 1])), Action::Receive(4));
    assert_eq!(conn.progress().stage, Stage::AwaitingHeader(Expect::Unchoke));
}

#[test]
fn wrong_first_message_is_a_protocol_violation() {
    let file = file_of(&content(10), 10);
    let peer = Peer::new(ADDR, &file);
    let mut conn = peer.handshake(&reply_of(&file, &[1u8; 20])).unwrap();
    conn.download_piece(0);
    conn.resume(header(1));
    assert_eq!(conn.resume(body(1, &[])), Action::Fail(PeerError::ProtocolViolation));
    assert_eq!(conn.progress().stage, Stage::Failed);
    assert_eq!(conn.resume(header(1)), Action::Fail(PeerError::OutOfTurn));
}

#[test]
fn wrong_message_in_place_of_unchoke_or_piece_is_a_protocol_violation() {
    let data = content(10);
    let file = file_of(&data, 10);
    let peer = Peer::new(ADDR, &file);
    let mut conn = peer.handshake(&reply_of(&file, &[1u8; 20])).unwrap();
    conn.download_piece(0);
    conn.resume(header(1));
    conn.resume(body(5, &[]));
    conn.resume(Event::Sent);
    conn.resume(header(1));
    assert_eq!(conn.resume(body(5, &[])), Action::Fail(PeerError::ProtocolViolation));

    let mut conn = peer.handshake(&reply_of(&file, &[1u8; 20])).unwrap();
    conn.download_piece(0);
    conn.resume(header(1));
    conn.resume(body(5, &[]));
    conn.resume(Event::Sent);
    conn.resume(header(1));
    conn.resume(body(1, &[]));
    conn.resume(Event::Sent);
    conn.resume(header(1));
    assert_eq!(conn.resume(body(1, &[])), Action::Fail(PeerError::ProtocolViolation));

    let mut conn = peer.handshake(&reply_of(&file, &[1u8; 20])).unwrap();
    conn.download_piece(0);
    conn.resume(header(3));
    assert_eq!(conn.resume(body(7, &[0, 0])), Action::Fail(PeerError::ProtocolViolation));
}

#[test]
fn broken_stream_is_a_transport_failure() {
    let file = file_of(&content(10), 10);
    let peer = Peer::new(ADDR, &file);
    let mut conn = peer.handshake(&reply_of(&file, &[1u8; 20])).unwrap();
    conn.download_piece(0);
    assert_eq!(conn.resume(Event::Broken), Action::Fail(PeerError::TransportFailure));
    assert_eq!(conn.progress().stage, Stage::Failed);

    let mut conn = peer.handshake(&reply_of(&file, &[1u8; 20])).unwrap();
    conn.download_piece(0);
    assert_eq!(conn.resume(Event::Received(vec![0, 0, 1])), Action::Fail(PeerError::TransportFailure));

    let mut conn = peer.handshake(&reply_of(&file, &[1u8; 20])).unwrap();
    conn.download_piece(0);
    conn.resume(header(3));
    assert_eq!(conn.resume(body(5, &[0])), Action::Fail(PeerError::TransportFailure));
}

#[test]
fn events_out_of_turn_fail_the_connection() {
    let file = file_of(&content(10), 10);
    let peer = Peer::new(ADDR, &file);
    let mut conn = peer.handshake(&reply_of(&file, &[1u8; 20])).unwrap();
    assert_eq!(conn.resume(Event::Sent), Action::Fail(PeerError::OutOfTurn));
    assert_eq!(conn.progress().stage, Stage::Failed);

    let mut conn = peer.handshake(&reply_of(&file, &[1u8; 20])).unwrap();
    assert_eq!(conn.resume(header(1)), Action::Fail(PeerError::OutOfTurn));

    let mut conn = peer.handshake(&reply_of(&file, &[1u8; 20])).unwrap();
    conn.download_piece(0);
    assert_eq!(conn.resume(Event::Sent), Action::Fail(PeerError::OutOfTurn));

    let mut conn = peer.handshake(&reply_of(&file, &[1u8; 20])).unwrap();
    conn.download_piece(0);
    assert_eq!(conn.download_piece(0), Action::Fail(PeerError::OutOfTurn));

    let mut conn = peer.handshake(&reply_of(&file, &[1u8; 20])).unwrap();
    conn.download_piece(0);
    conn.resume(header(1));
    conn.resume(body(5, &[]));
    assert_eq!(conn.resume(header(1)), Action::Fail(PeerError::OutOfTurn));
}

#[test]
fn index_beyond_the_pieces_downloads_nothing() {
    let data = content(17);
    let file = file_of(&data, 10);
    let peer = Peer::new(ADDR, &file);
    let mut conn = peer.handshake(&reply_of(&file, &[1u8; 20])).unwrap();
    let first = conn.download_piece(2);
    assert_eq!(first, Action::Receive(4));
    assert_eq!(run(&mut conn, first, &data, 10), Action::Finished);
    assert!(conn.progress().ready);
    assert_eq!(conn.progress().stage, Stage::Idle);
    assert_eq!(conn.download_piece(u32::MAX), Action::Finished);
    assert_eq!(conn.download_piece(2), Action::Finished);
    let next = conn.download_piece(1);
    assert_eq!(run(&mut conn, next, &data, 10), Action::Deliver(data[10..].to_vec()));
}

#[test]
fn piece_longer_than_a_request_can_say_is_refused() {
    if usize::BITS < 64 {
        return;
    }
    let plength = u32::MAX as usize + 1;
    let file = TorrentFile {
        announce: "a".to_string(),
        info: TorrentFileInfo::new(plength + 3, "big".to_string(), plength, vec![0; 40]).unwrap(),
    };
    let peer = Peer::new(ADDR, &file);
    let mut conn = peer.handshake(&reply_of(&file, &[1u8; 20])).unwrap();
    assert_eq!(conn.download_piece(0), Action::Fail(PeerError::PieceTooLarge));
    assert_eq!(conn.progress().stage, Stage::Idle);
    assert_eq!(conn.download_piece(1), Action::Receive(4));
}
