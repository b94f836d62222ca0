//! The tracker: the URL by which peers are asked for, and the reply that
//! lists them.

use crate::bencode::decode::decode;
use crate::bencode::grammar::parse_value;
use crate::bencode::value::{Value, ValueView};
use crate::peer::{Peer, PeerAddr, PEER_ID};
use crate::text::{ascii, ascii_bytes};
use crate::tfile::{bytes_field, content_identifier, read_bytes, Field, ParseError, TorrentFile};
use vstd::prelude::*;

verus! {

/// The port that the client says it listens on.
pub const PORT: u16 = 6881;

/// The number of bytes that one peer takes in a compact list: four of the
/// address and two of the port.
pub const COMPACT_PEER_LENGTH: usize = 6;

/// `serde_urlencoded::ser::Error`, the error of `serde_urlencoded::to_string`.
/// Nothing is said of what it holds.
#[verifier::external_type_specification]
#[verifier::external_body]
pub struct ExUrlencodedError(serde_urlencoded::ser::Error);

/// The character that writes `n`, less than sixteen, in lower-case
/// hexadecimal.
pub open spec fn hex_digit(n: int) -> char {
    if n < 10 {
        (0x30 + n) as char
    } else {
        (0x61 + n - 10) as char
    }
}

/// `data` in lower-case hexadecimal: two characters for each byte, the
/// upper half first.
pub open spec fn hex_chars(data: Seq<u8>) -> Seq<char> {
    Seq::new(
        2 * data.len(),
        |i: int|
            if i % 2 == 0 {
                hex_digit(data[i / 2] as int / 16)
            } else {
                hex_digit(data[i / 2] as int % 16)
            },
    )
}

/// Calls `hex::encode`, which writes each byte as two hexadecimal digits
/// in lower case, the upper half of the byte first.
#[verifier::external_body]
pub(crate) fn hex_encode(data: &[u8]) -> (text: String)
    ensures
        text@ == hex_chars(data@),
{
    hex::encode(data)
}

/// The `application/x-www-form-urlencoded` form of a list of keys and
/// values, where there is one.
pub uninterp spec fn form_urlencoded(pairs: Seq<(Seq<char>, Seq<char>)>) -> Option<Seq<char>>;

/// Calls `serde_urlencoded::to_string` on a list of pairs of strings. What
/// comes back, text or failure, is named, not worked out: the contract
/// claims that it depends on the pairs alone.
#[verifier::external_body]
pub(crate) fn urlencode_pairs(pairs: &Vec<(String, String)>) -> (r: Result<
    String,
    serde_urlencoded::ser::Error,
>)
    ensures
        match r {
            Ok(text) => form_urlencoded(pairs.deep_view()) == Some(text@),
            Err(_) => form_urlencoded(pairs.deep_view()) is None,
        },
{
    serde_urlencoded::to_string(pairs)
}

/// The character that writes the digit `d`.
pub open spec fn digit_char(d: nat) -> char {
    (0x30 + d) as char
}

/// `n` in decimal, without leading zeros.
pub open spec fn decimal_text(n: nat) -> Seq<char>
    decreases n,
{
    if n < 10 {
        seq![digit_char(n)]
    } else {
        decimal_text(n / 10).push(digit_char(n % 10))
    }
}

/// The digit `d` as text.
fn digit_str(d: u8) -> (text: &'static str)
    requires
        d < 10,
    ensures
        text@ == seq![digit_char(d as nat)],
{
    proof {
        reveal_strlit("0");
        reveal_strlit("1");
        reveal_strlit("2");
        reveal_strlit("3");
        reveal_strlit("4");
        reveal_strlit("5");
        reveal_strlit("6");
        reveal_strlit("7");
        reveal_strlit("8");
        reveal_strlit("9");
    }
    let text = if d == 0 {
        "0"
    } else if d == 1 {
        "1"
    } else if d == 2 {
        "2"
    } else if d == 3 {
        "3"
    } else if d == 4 {
        "4"
    } else if d == 5 {
        "5"
    } else if d == 6 {
        "6"
    } else if d == 7 {
        "7"
    } else if d == 8 {
        "8"
    } else {
        "9"
    };
    proof {
        assert(text@ =~= seq![digit_char(d as nat)]);
    }
    text
}

/// `n` in decimal, without leading zeros.
pub fn decimal_string(n: u64) -> (text: String)
    ensures
        text@ == decimal_text(n as nat),
    decreases n,
{
    let mut text = if n >= 10 {
        decimal_string(n / 10)
    } else {
        String::new()
    };
    text.append(digit_str((n % 10) as u8));
    proof {
        assert(text@ =~= decimal_text(n as nat));
    }
    text
}

/// The number that a flag is sent as: 1 where it is set, 0 where not.
pub fn bool_to_u8(b: bool) -> (n: u8)
    ensures
        n == if b { 1u8 } else { 0u8 },
{
    if b {
        1
    } else {
        0
    }
}

/// Every byte of `bytes` as `%` and its two hexadecimal digits.
pub open spec fn percent_encoded(bytes: Seq<u8>) -> Seq<char>
    decreases bytes.len(),
{
    if bytes.len() == 0 {
        Seq::empty()
    } else {
        percent_encoded(bytes.drop_last()) + seq!['%'] + hex_chars(seq![bytes.last()])
    }
}

/// What a tracker is asked.
#[derive(Clone, Debug, PartialEq, Eq)]
pub struct TrackerRequest {
    /// The identifier of the content.
    pub info_hash: [u8; 20],
    /// The identifier of the client.
    pub peer_id: String,
    /// The port that the client listens on.
    pub port: u16,
    /// How many bytes the client has sent to peers.
    pub uploaded: usize,
    /// How many bytes the client has got from peers.
    pub downloaded: usize,
    /// How many bytes the client still lacks.
    pub left: usize,
    /// Whether the peers are asked for as a compact list.
    pub compact: bool,
}

/// The mathematical model of a [`TrackerRequest`].
pub struct RequestView {
    pub info_hash: Seq<u8>,
    pub peer_id: Seq<char>,
    pub port: u16,
    pub uploaded: nat,
    pub downloaded: nat,
    pub left: nat,
    pub compact: bool,
}

impl View for TrackerRequest {
    type V = RequestView;

    open spec fn view(&self) -> RequestView {
        RequestView {
            info_hash: self.info_hash@,
            peer_id: self.peer_id@,
            port: self.port,
            uploaded: self.uploaded as nat,
            downloaded: self.downloaded as nat,
            left: self.left as nat,
            compact: self.compact,
        }
    }
}

/// The keys and values of the query, but for the content identifier, in
/// the order in which they are sent; numbers in decimal.
pub open spec fn query_pairs(request: RequestView) -> Seq<(Seq<char>, Seq<char>)> {
    seq![
        ("peer_id"@, request.peer_id),
        ("port"@, decimal_text(request.port as nat)),
        ("uploaded"@, decimal_text(request.uploaded)),
        ("downloaded"@, decimal_text(request.downloaded)),
        ("left"@, decimal_text(request.left)),
        ("compact"@, decimal_text(if request.compact { 1nat } else { 0nat })),
    ]
}

/// The URL made of the tracker's URL, the encoded query, and the content
/// identifier, which is added byte by byte in percent notation.
pub open spec fn url_of(tracker_url: Seq<char>, query: Seq<char>, info_hash: Seq<u8>) -> Seq<char> {
    tracker_url + "?"@ + query + "&info_hash="@ + percent_encoded(info_hash)
}

/// Why no URL was made.
#[derive(Clone, Copy, Debug, PartialEq, Eq, Structural)]
pub enum UrlError {
    /// The keys and values of the query have no encoded form.
    Unencodable,
}

impl TrackerRequest {
    /// Every byte of `bytes` as `%` and its two hexadecimal digits.
    pub fn urlencode_bytes(bytes: &[u8; 20]) -> (encoded: String)
        ensures
            encoded@ == percent_encoded(bytes@),
    {
        let mut encoded = String::new();
        let mut i: usize = 0;
        proof {
            assert(bytes@.take(0) =~= Seq::<u8>::empty());
            reveal_strlit("%");
        }
        while i < 20
            invariant
                i <= 20,
                encoded@ == percent_encoded(bytes@.take(i as int)),
            decreases 20 - i,
        {
            let one: [u8; 1] = [bytes[i]];
            encoded.append("%");
            let digits = hex_encode(one.as_slice());
            encoded.append(digits.as_str());
            proof {
                reveal_strlit("%");
                let next = bytes@.take(i + 1);
                assert(next.drop_last() =~= bytes@.take(i as int));
                assert(one@ =~= seq![next.last()]);
                assert("%"@ =~= seq!['%']);
            }
            i = i + 1;
        }
        proof {
            assert(bytes@.take(20) =~= bytes@);
        }
        encoded
    }

    /// Puts a URL together from the tracker's URL, the encoded query and
    /// the content identifier.
    pub fn assemble_url(tracker_url: &str, query: &str, info_hash: &[u8; 20]) -> (url: String)
        ensures
            url@ == url_of(tracker_url@, query@, info_hash@),
    {
        let mut url = String::from_str(tracker_url);
        url.append("?");
        url.append(query);
        url.append("&info_hash=");
        let encoded = TrackerRequest::urlencode_bytes(info_hash);
        url.append(encoded.as_str());
        url
    }

    /// The URL that asks the tracker at `tracker_url`.
    pub fn create_url(&self, tracker_url: &str) -> (r: Result<String, UrlError>)
        ensures
            match form_urlencoded(query_pairs(self@)) {
                Some(query) => r matches Ok(url) && url@ == url_of(
                    tracker_url@,
                    query,
                    self.info_hash@,
                ),
                None => r matches Err(e) && e == UrlError::Unencodable,
            },
    {
        let mut pairs: Vec<(String, String)> = Vec::new();
        pairs.push((String::from_str("peer_id"), self.peer_id.clone()));
        pairs.push((String::from_str("port"), decimal_string(self.port as u64)));
        pairs.push((String::from_str("uploaded"), decimal_string(self.uploaded as u64)));
        pairs.push((String::from_str("downloaded"), decimal_string(self.downloaded as u64)));
        pairs.push((String::from_str("left"), decimal_string(self.left as u64)));
        pairs.push((String::from_str("compact"), decimal_string(bool_to_u8(self.compact) as u64)));
        proof {
            assert(pairs.deep_view() =~= query_pairs(self@));
        }
        match urlencode_pairs(&pairs) {
            Ok(query) => Ok(TrackerRequest::assemble_url(tracker_url, query.as_str(), &self.info_hash)),
            Err(_) => Err(UrlError::Unencodable),
        }
    }
}

/// What a tracker answers.
#[derive(Clone, Debug, PartialEq, Eq)]
pub struct TrackerResponse {
    /// How many seconds to wait before the tracker is asked again.
    pub interval: u32,
    /// The peers as a compact list.
    pub peers_bytes: Vec<u8>,
}

/// The mathematical model of a [`TrackerResponse`].
pub struct ResponseView {
    pub interval: u32,
    pub peers: Seq<u8>,
}

impl View for TrackerResponse {
    type V = ResponseView;

    open spec fn view(&self) -> ResponseView {
        ResponseView { interval: self.interval, peers: self.peers_bytes@ }
    }
}

/// The interval that `dict` holds: an integer that is not negative and
/// fits in 32 bits.
pub open spec fn interval_field(dict: ValueView) -> Result<u32, ParseError> {
    match dict.get(ascii("interval")) {
        None => Err(ParseError::MissingField(Field::Interval)),
        Some(ValueView::Integer(i)) => if 0 <= i <= u32::MAX {
            Ok(i as u32)
        } else {
            Err(ParseError::InvalidField(Field::Interval))
        },
        Some(_) => Err(ParseError::InvalidField(Field::Interval)),
    }
}

/// The answer that the value `v` is: a dictionary with the interval under
/// `interval` and the compact list of peers under `peers`.
pub open spec fn response_of(v: ValueView) -> Result<ResponseView, ParseError> {
    if !(v is Dictionary) {
        Err(ParseError::NotADictionary)
    } else {
        match interval_field(v) {
            Err(e) => Err(e),
            Ok(interval) => match bytes_field(v, ascii("peers"), Field::Peers) {
                Err(e) => Err(e),
                Ok(peers) => Ok(ResponseView { interval, peers }),
            },
        }
    }
}

/// The answer that `bytes` start with the encoding of; what follows the
/// encoded value does not count.
pub open spec fn parse_response(bytes: Seq<u8>) -> Result<ResponseView, ParseError> {
    match parse_value(bytes) {
        Err(e) => Err(ParseError::MalformedInput(e)),
        Ok((v, _)) => response_of(v),
    }
}

/// The number of peers in a compact list: one for every six bytes; bytes
/// that are left over do not count.
pub open spec fn peer_count(peers: Seq<u8>) -> nat {
    peers.len() / COMPACT_PEER_LENGTH as nat
}

/// Whether `addr` is the peer at place `i` of the compact list `peers`:
/// four bytes of address, then the port in two bytes, big end first.
pub open spec fn is_peer_at(addr: PeerAddr, peers: Seq<u8>, i: int) -> bool {
    &&& addr.ip@ == peers.subrange(6 * i, 6 * i + 4)
    &&& addr.port == peers[6 * i + 4] * 256 + peers[6 * i + 5]
}

impl TrackerResponse {
    /// The answer that the value `v` is.
    pub fn from_value(v: &Value) -> (r: Result<TrackerResponse, ParseError>)
        ensures
            match response_of(v@) {
                Ok(response) => r matches Ok(made) && made@ == response,
                Err(e) => r matches Err(found) && found == e,
            },
    {
        proof {
            reveal_strlit("interval");
            reveal_strlit("peers");
        }
        match v {
            Value::Dictionary(_) => {},
            _ => {
                return Err(ParseError::NotADictionary);
            },
        }
        let key = ascii_bytes("interval");
        let interval: u32 = match v.get(key.as_slice()) {
            None => {
                return Err(ParseError::MissingField(Field::Interval));
            },
            Some(Value::Integer(i)) => {
                if *i < 0 || *i > 0xffff_ffff {
                    return Err(ParseError::InvalidField(Field::Interval));
                }
                *i as u32
            },
            Some(_) => {
                return Err(ParseError::InvalidField(Field::Interval));
            },
        };
        match read_bytes(v, "peers", Field::Peers) {
            Ok(peers_bytes) => Ok(TrackerResponse { interval, peers_bytes }),
            Err(e) => Err(e),
        }
    }

    /// The answer that `bytes` start with the encoding of.
    pub fn from_bytes(bytes: &[u8]) -> (r: Result<TrackerResponse, ParseError>)
        ensures
            match parse_response(bytes@) {
                Ok(response) => r matches Ok(made) && made@ == response,
                Err(e) => r matches Err(found) && found == e,
            },
    {
        proof {
            assert(bytes@.skip(0) =~= bytes@);
        }
        match decode(bytes, 0) {
            Err(e) => Err(ParseError::MalformedInput(e)),
            Ok((value, _)) => TrackerResponse::from_value(&value),
        }
    }

    /// The peers of the compact list, in its order.
    pub fn get_peers(&self) -> (peers: Vec<PeerAddr>)
        ensures
            peers@.len() == peer_count(self@.peers),
            forall|i: int| 0 <= i < peers@.len() ==> is_peer_at(#[trigger] peers@[i], self@.peers, i),
    {
        let mut peers: Vec<PeerAddr> = Vec::new();
        let n_peers: usize = self.peers_bytes.len() / COMPACT_PEER_LENGTH;
        let mut i: usize = 0;
        while i < n_peers
            invariant
                i <= n_peers,
                n_peers == self.peers_bytes@.len() / 6,
                peers@.len() == i,
                forall|k: int| 0 <= k < i ==> is_peer_at(#[trigger] peers@[k], self.peers_bytes@, k),
            decreases n_peers - i,
        {
            assert(i * 6 + 6 <= self.peers_bytes.len());
            let at: usize = i * COMPACT_PEER_LENGTH;
            let p = &self.peers_bytes;
            let ip: [u8; 4] = [p[at], p[at + 1], p[at + 2], p[at + 3]];
            let port: u16 = (p[at + 4] as u16) * 256 + (p[at + 5] as u16);
            proof {
                assert(ip@ =~= self.peers_bytes@.subrange(6 * i, 6 * i + 4));
            }
            peers.push(PeerAddr { ip, port });
            i = i + 1;
        }
        peers
    }
}

impl TorrentFile {
    /// The peer at `addr` that shares this content.
    pub fn create_peer(&self, addr: PeerAddr) -> (peer: Peer)
        ensures
            peer.address() == addr,
            peer.file() == self,
    {
        Peer::new(addr, self)
    }

    /// What the tracker is asked for this content, of which nothing has
    /// been downloaded yet.
    pub fn tracker_request(&self) -> (request: TrackerRequest)
        ensures
            request@ == self.tracker_request_view(),
    {
        TrackerRequest {
            info_hash: self.info.hash(),
            peer_id: String::from_str(PEER_ID),
            port: PORT,
            uploaded: 0,
            downloaded: 0,
            left: self.info.length(),
            compact: true,
        }
    }

    /// The URL by which the tracker of this file is asked for peers.
    pub fn tracker_url(&self) -> (r: Result<String, UrlError>)
        ensures
            match form_urlencoded(query_pairs(self.tracker_request_view())) {
                Some(query) => r matches Ok(url) && url@ == url_of(
                    self@.announce,
                    query,
                    content_identifier(self.info@),
                ),
                None => r matches Err(e) && e == UrlError::Unencodable,
            },
    {
        let request = self.tracker_request();
        request.create_url(self.announce.as_str())
    }

    /// What the tracker is asked for this content: the client's identifier
    /// and port, nothing sent or got yet, all of the content lacking, and
    /// the peers wanted as a compact list.
    pub open spec fn tracker_request_view(&self) -> RequestView {
        RequestView {
            info_hash: content_identifier(self.info@),
            peer_id: PEER_ID@,
            port: PORT,
            uploaded: 0,
            downloaded: 0,
            left: self.info@.length,
            compact: true,
        }
    }

    /// The peers that the tracker's answer lists, in its order: `reply`
    /// starts with the encoded answer.
    pub fn find_peers(&self, reply: &[u8]) -> (r: Result<Vec<Peer>, ParseError>)
        ensures
            match parse_response(reply@) {
                Ok(response) => r matches Ok(peers) && peers@.len() == peer_count(response.peers)
                    && forall|i: int|
                    0 <= i < peers@.len() ==> is_peer_at(
                        (#[trigger] peers@[i]).address(),
                        response.peers,
                        i,
                    ) && peers@[i].file() == self,
                Err(e) => r matches Err(found) && found == e,
            },
    {
        let response = match TrackerResponse::from_bytes(reply) {
            Ok(response) => response,
            Err(e) => {
                return Err(e);
            },
        };
        let addrs = response.get_peers();
        let mut peers: Vec<Peer> = Vec::new();
        let mut i: usize = 0;
        while i < addrs.len()
            invariant
                i <= addrs@.len(),
                peers@.len() == i,
                forall|k: int|
                    0 <= k < i ==> (#[trigger] peers@[k]).address() == addrs@[k] && peers@[k].file()
                        == self,
            decreases addrs.len() - i,
        {
            peers.push(Peer::new(addrs[i], self));
            i = i + 1;
        }
        Ok(peers)
    }
}

} // verus!
