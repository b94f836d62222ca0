use bittorrent::bencode::grammar::DecodeError;
use bittorrent::peer::PeerAddr;
use bittorrent::tfile::{Field, ParseError, TorrentFile, TorrentFileInfo};
use bittorrent::tracker::{
    bool_to_u8, decimal_string, TrackerRequest, TrackerResponse,
};

fn request() -> TrackerRequest {
    let mut info_hash = [0u8; 20];
    for (i, b) in info_hash.iter_mut().enumerate() {
        *b = (i as u8) * 13 + 1;
    }
    TrackerRequest {
        info_hash,
        peer_id: "00112233445566778899".to_string(),
        port: 6881,
        uploaded: 0,
        downloaded: 0,
        left: 92063,
        compact: true,
    }
}

fn file() -> TorrentFile {
    TorrentFile {
        announce: "http://tracker.example/announce".to_string(),
        info: TorrentFileInfo::new(17, "a.txt".to_string(), 10, vec![7; 40]).unwrap(),
    }
}

#[test]
fn compact_peer_of_six_bytes() {
    let response = TrackerResponse { interval: 60, peers_bytes: vec![127, 0, 0, 1, 0x1A, 0xE1] };
    assert_eq!(response.get_peers(), vec![PeerAddr { ip: [127, 0, 0, 1], port: 6881 }]);
}

#[test]
fn compact_peers_of_twelve_bytes_in_order() {
    let response = TrackerResponse {
        interval: 60,
        peers_bytes: vec![127, 0, 0, 1, 0x1A, 0xE1, 10, 20, 30, 40, 0xFF, 0xFF],
    };
    assert_eq!(
        response.get_peers(),
        vec![
            PeerAddr { ip: [127, 0, 0, 1], port: 6881 },
            PeerAddr { ip: [10, 20, 30, 40], port: 65535 }
        ]
    );
}

#[test]
fn compact_peers_pass_over_bytes_left_over() {
    let none = TrackerResponse { interval: 0, peers_bytes: vec![] };
    assert_eq!(none.get_peers(), vec![]);
    let short = TrackerResponse { interval: 0, peers_bytes: vec![1, 2, 3, 4, 5] };
    assert_eq!(short.get_peers(), vec![]);
    let odd = TrackerResponse { interval: 0, peers_bytes: vec![1, 2, 3, 4, 0, 80, 9] };
    assert_eq!(odd.get_peers(), vec![PeerAddr { ip: [1, 2, 3, 4], port: 80 }]);
}

#[test]
fn parses_a_tracker_response() {
    let mut body = b"d8:intervali1800e5:peers6:".to_vec();
    body.extend_from_slice(&[165, 232, 33, 77, 0xC9, 0x0B]);
    body.extend_from_slice(b"e");
    let response = TrackerResponse::from_bytes(&body).unwrap();
    assert_eq!(response.interval, 1800);
    assert_eq!(response.peers_bytes, vec![165, 232, 33, 77, 0xC9, 0x0B]);
    assert_eq!(response.get_peers(), vec![PeerAddr { ip: [165, 232, 33, 77], port: 51467 }]);
}

#[test]
fn parses_a_tracker_response_embedded_in_a_body() {
    let body = b"d8:intervali1e5:peers0:e\r\ntrailer";
    let response = TrackerResponse::from_bytes(body).unwrap();
    assert_eq!(response, TrackerResponse { interval: 1, peers_bytes: vec![] });
}

#[test]
fn tracker_response_of_the_wrong_shape() {
    assert_eq!(TrackerResponse::from_bytes(b"i1e"), Err(ParseError::NotADictionary));
    assert_eq!(
        TrackerResponse::from_bytes(b"d"),
        Err(ParseError::MalformedInput(DecodeError::UnexpectedEnd))
    );
    assert_eq!(
        TrackerResponse::from_bytes(b"de"),
        Err(ParseError::MissingField(Field::Interval))
    );
    assert_eq!(
        TrackerResponse::from_bytes(b"d8:intervali1ee"),
        Err(ParseError::MissingField(Field::Peers))
    );
    assert_eq!(
        TrackerResponse::from_bytes(b"d8:interval1:x5:peers0:e"),
        Err(ParseError::InvalidField(Field::Interval))
    );
    assert_eq!(
        TrackerResponse::from_bytes(b"d8:intervali-1e5:peers0:e"),
        Err(ParseError::InvalidField(Field::Interval))
    );
    assert_eq!(
        TrackerResponse::from_bytes(b"d8:intervali4294967296e5:peers0:e"),
        Err(ParseError::InvalidField(Field::Interval))
    );
    assert_eq!(
        TrackerResponse::from_bytes(b"d8:intervali4294967295e5:peers0:e"),
        Ok(TrackerResponse { interval: u32::MAX, peers_bytes: vec![] })
    );
    assert_eq!(
        TrackerResponse::from_bytes(b"d8:intervali1e5:peersi1ee"),
        Err(ParseError::InvalidField(Field::Peers))
    );
}

#[test]
fn percent_notation_of_bytes() {
    let mut bytes = [0u8; 20];
    bytes[0] = 0x00;
    bytes[1] = 0x0f;
    bytes[2] = 0xa0;
    bytes[3] = 0xff;
    bytes[4] = b'A';
    bytes[19] = 0x9c;
    assert_eq!(
        TrackerRequest::urlencode_bytes(&bytes),
        "%00%0f%a0%ff%41%00%00%00%00%00%00%00%00%00%00%00%00%00%00%9c"
    );
}

#[test]
fn assembles_a_url() {
    let hash = [0xabu8; 20];
    assert_eq!(
        TrackerRequest::assemble_url("http://t/a", "k=v&x=1", &hash),
        "http://t/a?k=v&x=1&info_hash=%ab%ab%ab%ab%ab%ab%ab%ab%ab%ab%ab%ab%ab%ab%ab%ab%ab%ab%ab%ab"
    );
    assert_eq!(
        TrackerRequest::assemble_url("", "", &[0u8; 20]),
        "?&info_hash=%00%00%00%00%00%00%00%00%00%00%00%00%00%00%00%00%00%00%00%00"
    );
}

#[test]
fn creates_the_url_of_a_request() {
    let url = request().create_url("http://tracker.example/announce").unwrap();
    assert_eq!(
        url,
        "http://tracker.example/announce?peer_id=00112233445566778899&port=6881&uploaded=0&downloaded=0&left=92063&compact=1&info_hash=%01%0e%1b%28%35%42%4f%5c%69%76%83%90%9d%aa%b7%c4%d1%de%eb%f8"
    );
}

#[test]
fn url_encodes_what_is_not_plain_in_the_query() {
    let mut r = request();
    r.peer_id = "a b&c=d/\u{e9}".to_string();
    r.compact = false;
    r.uploaded = 12;
    r.downloaded = 345;
    r.port = 0;
    r.left = 0;
    let url = r.create_url("u").unwrap();
    assert_eq!(
        url,
        "u?peer_id=a+b%26c%3Dd%2F%C3%A9&port=0&uploaded=12&downloaded=345&left=0&compact=0&info_hash=%01%0e%1b%28%35%42%4f%5c%69%76%83%90%9d%aa%b7%c4%d1%de%eb%f8"
    );
}

#[test]
fn numbers_in_decimal() {
    assert_eq!(decimal_string(0), "0");
    assert_eq!(decimal_string(7), "7");
    assert_eq!(decimal_string(10), "10");
    assert_eq!(decimal_string(6881), "6881");
    assert_eq!(decimal_string(u64::MAX), "18446744073709551615");
    assert_eq!(bool_to_u8(true), 1);
    assert_eq!(bool_to_u8(false), 0);
}

#[test]
fn tracker_request_of_a_file() {
    let f = file();
    let r = f.tracker_request();
    assert_eq!(
        r,
        TrackerRequest {
            info_hash: f.info.hash(),
            peer_id: "00112233445566778899".to_string(),
            port: 6881,
            uploaded: 0,
            downloaded: 0,
            left: 17,
            compact: true,
        }
    );
    assert_eq!(f.tracker_url(), r.create_url("http://tracker.example/announce"));
    let url = f.tracker_url().unwrap();
    assert!(url.starts_with(
        "http://tracker.example/announce?peer_id=00112233445566778899&port=6881&uploaded=0&downloaded=0&left=17&compact=1&info_hash=%"
    ));
    assert_eq!(url.len(), "http://tracker.example/announce?peer_id=00112233445566778899&port=6881&uploaded=0&downloaded=0&left=17&compact=1&info_hash=".len() + 60);
}

#[test]
fn finds_the_peers_of_a_reply() {
    let f = file();
    let mut body = b"d8:intervali60e5:peers12:".to_vec();
    body.extend_from_slice(&[127, 0, 0, 1, 0x1A, 0xE1, 8, 8, 4, 4, 0, 53]);
    body.extend_from_slice(b"e");
    let peers = f.find_peers(&body).unwrap();
    assert_eq!(peers.len(), 2);
    assert_eq!(peers[0].addr, PeerAddr { ip: [127, 0, 0, 1], port: 6881 });
    assert_eq!(peers[1].addr, PeerAddr { ip: [8, 8, 4, 4], port: 53 });
    assert_eq!(f.find_peers(b"le").err(), Some(ParseError::NotADictionary));
    let made = f.create_peer(PeerAddr { ip: [1, 2, 3, 4], port: 5 });
    assert_eq!(made.addr, PeerAddr { ip: [1, 2, 3, 4], port: 5 });
}
