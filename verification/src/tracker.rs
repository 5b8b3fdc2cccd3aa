//! Tracker announce plumbing: the peer id, the percent-encoded announce URL,
//! and the typed view of a tracker's bencoded response.
//!
//! The HTTP exchange itself is I/O and happens outside the library: a caller
//! takes the URL built here, performs the GET, and hands the response bytes
//! to `parse_tracker_response`.

use vstd::prelude::*;
use vstd::utf8::{valid_utf8, decode_utf8};
use crate::bencode::{
    BencodeValue, BencodeError, dict_first, dict_get, encoded,
    lemma_dict_first_congruent, lemma_encoded_congruent, lemma_encoded_list_pointwise,
    lemma_encoded_pairs_pointwise,
};
use crate::digits::{dec_digits, lemma_dec_digits_canonical, u64_to_decimal};
use crate::text::{ascii_to_string, bytes_to_string};
use crate::peer::Peer;

verus! {

/// The dictionary key `"interval"` as bytes.
pub open spec fn spec_key_interval() -> Seq<u8> {
    seq![105u8, 110u8, 116u8, 101u8, 114u8, 118u8, 97u8, 108u8]
}

fn key_interval() -> (r: &'static [u8])
    ensures
        r@ == spec_key_interval(),
{
    let r = "interval".as_bytes();
    proof {
        reveal_strlit("interval");
        assert(vstd::string::is_ascii("interval"));
        broadcast use vstd::string::is_ascii_spec_bytes;
        assert(r@ =~= spec_key_interval());
    }
    r
}

/// The dictionary key `"peers"` as bytes.
pub open spec fn spec_key_peers() -> Seq<u8> {
    seq![112u8, 101u8, 101u8, 114u8, 115u8]
}

fn key_peers() -> (r: &'static [u8])
    ensures
        r@ == spec_key_peers(),
{
    let r = "peers".as_bytes();
    proof {
        reveal_strlit("peers");
        assert(vstd::string::is_ascii("peers"));
        broadcast use vstd::string::is_ascii_spec_bytes;
        assert(r@ =~= spec_key_peers());
    }
    r
}

/// The dictionary key `"complete"` as bytes.
pub open spec fn spec_key_complete() -> Seq<u8> {
    seq![99u8, 111u8, 109u8, 112u8, 108u8, 101u8, 116u8, 101u8]
}

fn key_complete() -> (r: &'static [u8])
    ensures
        r@ == spec_key_complete(),
{
    let r = "complete".as_bytes();
    proof {
        reveal_strlit("complete");
        assert(vstd::string::is_ascii("complete"));
        broadcast use vstd::string::is_ascii_spec_bytes;
        assert(r@ =~= spec_key_complete());
    }
    r
}

/// The dictionary key `"incomplete"` as bytes.
pub open spec fn spec_key_incomplete() -> Seq<u8> {
    seq![105u8, 110u8, 99u8, 111u8, 109u8, 112u8, 108u8, 101u8, 116u8, 101u8]
}

fn key_incomplete() -> (r: &'static [u8])
    ensures
        r@ == spec_key_incomplete(),
{
    let r = "incomplete".as_bytes();
    proof {
        reveal_strlit("incomplete");
        assert(vstd::string::is_ascii("incomplete"));
        broadcast use vstd::string::is_ascii_spec_bytes;
        assert(r@ =~= spec_key_incomplete());
    }
    r
}

/// The dictionary key `"tracker id"` as bytes.
pub open spec fn spec_key_tracker_id() -> Seq<u8> {
    seq![116u8, 114u8, 97u8, 99u8, 107u8, 101u8, 114u8, 32u8, 105u8, 100u8]
}

fn key_tracker_id() -> (r: &'static [u8])
    ensures
        r@ == spec_key_tracker_id(),
{
    let r = "tracker id".as_bytes();
    proof {
        reveal_strlit("tracker id");
        assert(vstd::string::is_ascii("tracker id"));
        broadcast use vstd::string::is_ascii_spec_bytes;
        assert(r@ =~= spec_key_tracker_id());
    }
    r
}

/// The dictionary key `"failure reason"` as bytes.
pub open spec fn spec_key_failure_reason() -> Seq<u8> {
    seq![102u8, 97u8, 105u8, 108u8, 117u8, 114u8, 101u8, 32u8, 114u8, 101u8, 97u8, 115u8, 111u8, 110u8]
}

fn key_failure_reason() -> (r: &'static [u8])
    ensures
        r@ == spec_key_failure_reason(),
{
    let r = "failure reason".as_bytes();
    proof {
        reveal_strlit("failure reason");
        assert(vstd::string::is_ascii("failure reason"));
        broadcast use vstd::string::is_ascii_spec_bytes;
        assert(r@ =~= spec_key_failure_reason());
    }
    r
}

/// The dictionary key `"ip"` as bytes.
pub open spec fn spec_key_ip() -> Seq<u8> {
    seq![105u8, 112u8]
}

fn key_ip() -> (r: &'static [u8])
    ensures
        r@ == spec_key_ip(),
{
    let r = "ip".as_bytes();
    proof {
        reveal_strlit("ip");
        assert(vstd::string::is_ascii("ip"));
        broadcast use vstd::string::is_ascii_spec_bytes;
        assert(r@ =~= spec_key_ip());
    }
    r
}

/// The dictionary key `"port"` as bytes.
pub open spec fn spec_key_port() -> Seq<u8> {
    seq![112u8, 111u8, 114u8, 116u8]
}

fn key_port() -> (r: &'static [u8])
    ensures
        r@ == spec_key_port(),
{
    let r = "port".as_bytes();
    proof {
        reveal_strlit("port");
        assert(vstd::string::is_ascii("port"));
        broadcast use vstd::string::is_ascii_spec_bytes;
        assert(r@ =~= spec_key_port());
    }
    r
}

/// A failure while reading a tracker response.
#[derive(Debug, PartialEq, Eq)]
pub enum TrackerError {
    /// The response is not well-formed bencode.
    Syntax(BencodeError),
    /// The response's top-level value is not a dictionary.
    NotADictionary,
    /// The tracker reported a failure; the reason as sent.
    Failure(Vec<u8>),
    /// The `peers` value fits neither the dictionary-list form nor the
    /// compact byte-string form.
    InvalidPeers,
}

/// When the announce happens, from the client's point of view.
#[derive(Debug, Clone, Copy, PartialEq, Eq, Structural)]
pub enum TrackerEvent {
    Started,
    Completed,
    Stopped,
}

impl TrackerEvent {
    /// The event's name in announce URLs.
    pub fn as_str(&self) -> (r: &'static str)
        ensures
            r@ == self.spec_str(),
    {
        match self {
            TrackerEvent::Started => "started",
            TrackerEvent::Completed => "completed",
            TrackerEvent::Stopped => "stopped",
        }
    }

    /// The event's name in announce URLs.
    pub open spec fn spec_str(self) -> Seq<char> {
        match self {
            TrackerEvent::Started => "started"@,
            TrackerEvent::Completed => "completed"@,
            TrackerEvent::Stopped => "stopped"@,
        }
    }
}

/// What an announce tells the tracker.
#[derive(Debug, Clone)]
pub struct TrackerRequest {
    /// The torrent's info fingerprint; 20 octets.
    pub info_hash: Vec<u8>,
    /// Bytes still missing.
    pub left: u64,
    /// Bytes uploaded so far.
    pub uploaded: u64,
    /// Bytes downloaded so far.
    pub downloaded: u64,
    /// The port this client listens on.
    pub port: u16,
    /// Ask for the compact peer-list form.
    pub compact: bool,
    /// The lifecycle event, if any.
    pub event: Option<TrackerEvent>,
}

/// What a tracker answered.
#[derive(Debug, Default, Clone)]
pub struct TrackerResponse {
    /// Seconds to wait before the next announce.
    pub interval: u64,
    /// The peers offered.
    pub peers: Vec<Peer>,
    /// Seeders, when reported.
    pub complete: Option<u64>,
    /// Leechers, when reported.
    pub incomplete: Option<u64>,
    /// An id to echo back, when the tracker sets one.
    pub tracker_id: Option<String>,
}

/// The announce-side state: the tracker's URL and this client's peer id.
#[derive(Debug)]
pub struct Tracker {
    pub announce_url: String,
    pub peer_id: Vec<u8>,
}

// --- Peer id ---------------------------------------------------------------

/// The 20-octet peer id derived from a start timestamp: a fixed client tag
/// followed by twelve timestamp-derived bytes.
pub open spec fn spec_peer_id(timestamp: u64) -> Seq<u8> {
    seq![45u8, 82u8, 83u8, 48u8, 48u8, 48u8, 48u8, 45u8]
        + Seq::new(12, |i: int| ((timestamp >> (8 * ((i as u64) % 8))) & 0xff) as u8)
}

// --- Percent-encoding ------------------------------------------------------

/// The ASCII code of hexadecimal digit `n`, uppercase.
pub open spec fn spec_hex_digit(n: u8) -> u8 {
    if n < 10 {
        (48 + n) as u8
    } else {
        (55 + n) as u8
    }
}

/// A byte that percent-encoding leaves as itself: the unreserved set.
pub open spec fn is_unreserved(b: u8) -> bool {
    ||| 65 <= b <= 90
    ||| 97 <= b <= 122
    ||| 48 <= b <= 57
    ||| b == 45
    ||| b == 95
    ||| b == 46
    ||| b == 126
}

/// Percent-encoding of a byte string, as ASCII bytes: unreserved bytes
/// stand for themselves, every other byte becomes `%XX` uppercase.
pub open spec fn spec_url_encode(bytes: Seq<u8>) -> Seq<u8>
    decreases bytes,
{
    if bytes.len() == 0 {
        Seq::empty()
    } else {
        let b = bytes[0];
        (if is_unreserved(b) {
            seq![b]
        } else {
            seq![37u8, spec_hex_digit(b / 16), spec_hex_digit((b % 16) as u8)]
        }) + spec_url_encode(bytes.drop_first())
    }
}

/// The decimal digits of `n` as characters.
pub open spec fn spec_dec_chars(n: int) -> Seq<char> {
    dec_digits(n as nat).map_values(|b: u8| b as char)
}

impl Tracker {
    /// A tracker handle for an announce URL; the peer id is derived from the
    /// caller's clock once, at construction.
    pub fn new(announce_url: String, timestamp: u64) -> (r: Self)
        ensures
            r.announce_url == announce_url,
            r.peer_id@ == spec_peer_id(timestamp),
            r.peer_id@.len() == 20,
    {
        let peer_id = Self::generate_peer_id(timestamp);
        Self { announce_url, peer_id }
    }

    /// Derives the 20-octet peer id from a timestamp: the client tag
    /// `-RS0000-`, then twelve bytes taken from the timestamp's words.
    #[verifier::loop_isolation(false)]
    pub fn generate_peer_id(timestamp: u64) -> (r: Vec<u8>)
        ensures
            r@ == spec_peer_id(timestamp),
            r@.len() == 20,
    {
        let mut peer_id: Vec<u8> = Vec::new();
        peer_id.push(45);
        peer_id.push(82);
        peer_id.push(83);
        peer_id.push(48);
        peer_id.push(48);
        peer_id.push(48);
        peer_id.push(48);
        peer_id.push(45);
        let mut i: u64 = 0;
        while i < 12
            invariant
                i <= 12,
                peer_id@.len() == 8 + i,
                forall|k: int| 0 <= k < 8 ==> peer_id@[k] == spec_peer_id(timestamp)[k],
                forall|k: int| 8 <= k < peer_id@.len()
                    ==> peer_id@[k] == spec_peer_id(timestamp)[k],
            decreases 12 - i,
        {
            let byte: u8 = ((timestamp >> (8 * (i % 8))) & 0xff) as u8;
            peer_id.push(byte);
            i = i + 1;
        }
        proof {
            assert(peer_id@ =~= spec_peer_id(timestamp));
        }
        peer_id
    }

    /// The stored peer id.
    pub fn get_peer_id(&self) -> (r: &Vec<u8>)
        ensures
            r == self.peer_id,
    {
        &self.peer_id
    }

    /// Percent-encodes arbitrary bytes for a URL: the unreserved set stands
    /// for itself, everything else becomes `%XX` uppercase.
    #[verifier::loop_isolation(false)]
    pub fn url_encode(bytes: &[u8]) -> (r: String)
        ensures
            r@ == spec_url_encode(bytes@).map_values(|b: u8| b as char),
    {
        let n: usize = bytes.len();
        let mut out: Vec<u8> = Vec::new();
        let mut i: usize = 0;
        proof {
            assert(bytes@.skip(0) =~= bytes@);
        }
        while i < n
            invariant
                n == bytes@.len(),
                i <= n,
                spec_url_encode(bytes@) == out@ + spec_url_encode(bytes@.skip(i as int)),
                forall|k: int| 0 <= k < out@.len() ==> (#[trigger] out@[k]) < 128,
            decreases n - i,
        {
            proof {
                assert(bytes@.skip(i as int)[0] == bytes@[i as int]);
                assert(bytes@.skip(i as int).drop_first() =~= bytes@.skip(i + 1));
            }
            let b: u8 = bytes[i];
            let ghost before = out@;
            if (65 <= b && b <= 90) || (97 <= b && b <= 122) || (48 <= b && b <= 57)
                || b == 45 || b == 95 || b == 46 || b == 126 {
                out.push(b);
                proof {
                    assert(out@ =~= before + seq![b]);
                    assert(spec_url_encode(bytes@)
                        =~= out@ + spec_url_encode(bytes@.skip(i + 1)));
                }
            } else {
                out.push(37);
                let hi: u8 = b / 16;
                let lo: u8 = b % 16;
                out.push(if hi < 10 { 48 + hi } else { 55 + hi });
                out.push(if lo < 10 { 48 + lo } else { 55 + lo });
                proof {
                    assert(out@ =~= before
                        + seq![37u8, spec_hex_digit(b / 16), spec_hex_digit((b % 16) as u8)]);
                    assert(spec_url_encode(bytes@)
                        =~= out@ + spec_url_encode(bytes@.skip(i + 1)));
                }
            }
            i = i + 1;
        }
        proof {
            assert(bytes@.skip(n as int) =~= Seq::<u8>::empty());
            assert(spec_url_encode(bytes@) =~= out@);
        }
        ascii_to_string(out.as_slice())
    }

    /// Writes `n` in decimal as a string.
    fn decimal_string(n: u64) -> (r: String)
        ensures
            r@ == spec_dec_chars(n as int),
    {
        let digits = u64_to_decimal(n);
        proof {
            lemma_dec_digits_canonical(n as nat);
            assert(forall|i: int| 0 <= i < digits@.len() ==> (#[trigger] digits@[i]) < 128);
        }
        ascii_to_string(digits.as_slice())
    }

    /// The full announce URL for one request: the tracker URL with the
    /// percent-encoded info hash and peer id, the port, the transfer
    /// counters, the compact flag, and the event when one is set.
    pub open spec fn spec_announce_url(self, req: TrackerRequest) -> Seq<char> {
        self.announce_url@
            + "?info_hash="@
            + spec_url_encode(req.info_hash@).map_values(|b: u8| b as char)
            + "&peer_id="@
            + spec_url_encode(self.peer_id@).map_values(|b: u8| b as char)
            + "&port="@ + spec_dec_chars(req.port as int)
            + "&uploaded="@ + spec_dec_chars(req.uploaded as int)
            + "&downloaded="@ + spec_dec_chars(req.downloaded as int)
            + "&left="@ + spec_dec_chars(req.left as int)
            + "&compact="@ + (if req.compact { "1"@ } else { "0"@ })
            + match req.event {
                Some(e) => "&event="@ + e.spec_str(),
                None => Seq::<char>::empty(),
            }
    }

    /// Builds the announce URL for one request.
    pub fn build_announce_url(&self, req: &TrackerRequest) -> (r: String)
        ensures
            r@ == self.spec_announce_url(*req),
    {
        let mut url: String = self.announce_url.clone();
        url.append("?info_hash=");
        let info_hash_enc = Self::url_encode(req.info_hash.as_slice());
        url.append(info_hash_enc.as_str());
        url.append("&peer_id=");
        let peer_id_enc = Self::url_encode(self.peer_id.as_slice());
        url.append(peer_id_enc.as_str());
        url.append("&port=");
        let port_s = Self::decimal_string(req.port as u64);
        url.append(port_s.as_str());
        url.append("&uploaded=");
        let up_s = Self::decimal_string(req.uploaded);
        url.append(up_s.as_str());
        url.append("&downloaded=");
        let down_s = Self::decimal_string(req.downloaded);
        url.append(down_s.as_str());
        url.append("&left=");
        let left_s = Self::decimal_string(req.left);
        url.append(left_s.as_str());
        url.append("&compact=");
        if req.compact {
            url.append("1");
        } else {
            url.append("0");
        }
        match &req.event {
            Some(e) => {
                url.append("&event=");
                url.append(e.as_str());
            },
            None => {},
        }
        proof {
            assert(url@ =~= self.spec_announce_url(*req));
        }
        url
    }
}

// --- Response parsing -------------------------------------------------------

/// A nonnegative integer field of the response, by key.
pub open spec fn spec_u64_field(pairs: Seq<(Vec<u8>, BencodeValue)>, key: Seq<u8>) -> Option<u64> {
    match dict_first(pairs, key) {
        Some(BencodeValue::Integer(v)) => if 0 <= v as int <= u64::MAX as int {
            Some(v as u64)
        } else {
            None
        },
        _ => None,
    }
}

/// A UTF-8 string field of the response, by key.
pub open spec fn spec_text_field(pairs: Seq<(Vec<u8>, BencodeValue)>, key: Seq<u8>) -> Option<Seq<char>> {
    match dict_first(pairs, key) {
        Some(BencodeValue::Bytes(b)) => if valid_utf8(b@) {
            Some(decode_utf8(b@))
        } else {
            None
        },
        _ => None,
    }
}

/// One peer of the dictionary-list form: `ip` bytes and a 16-bit `port`.
pub open spec fn spec_peer_entry(v: BencodeValue) -> Option<(Seq<u8>, u16)> {
    match v {
        BencodeValue::Dictionary(pd) => {
            match (dict_first(pd@, spec_key_ip()), dict_first(pd@, spec_key_port())) {
                (Some(BencodeValue::Bytes(ip)), Some(BencodeValue::Integer(p))) => {
                    if 0 <= p as int <= 65535 {
                        Some((ip@, p as u16))
                    } else {
                        None
                    }
                },
                _ => None,
            }
        },
        _ => None,
    }
}

/// All peers of the dictionary-list form, in order.
pub open spec fn spec_peers_list(items: Seq<BencodeValue>) -> Option<Seq<(Seq<u8>, u16)>>
    decreases items,
{
    if items.len() == 0 {
        Some(Seq::empty())
    } else {
        match spec_peer_entry(items[0]) {
            Some(e) => match spec_peers_list(items.drop_first()) {
                Some(rest) => Some(seq![e] + rest),
                None => None,
            },
            None => None,
        }
    }
}

/// The peers of the compact form: six bytes each, a four-octet address and
/// a big-endian port.
pub open spec fn spec_peers_compact(b: Seq<u8>) -> Seq<(Seq<u8>, u16)> {
    Seq::new((b.len() / 6) as nat, |i: int| (
        b.subrange(6 * i, 6 * i + 4),
        (b[6 * i + 4] as u16 * 256 + b[6 * i + 5] as u16) as u16,
    ))
}

/// The peers named by a `peers` value, whichever form it takes.
pub open spec fn spec_parse_peers(v: BencodeValue) -> Option<Seq<(Seq<u8>, u16)>> {
    match v {
        BencodeValue::List(items) => spec_peers_list(items@),
        BencodeValue::Bytes(b) => if b@.len() % 6 == 0 {
            Some(spec_peers_compact(b@))
        } else {
            None
        },
        _ => None,
    }
}

/// Peer entries with equal encodings project to the same address and port.
proof fn lemma_peer_entry_congruent(e1: BencodeValue, e2: BencodeValue)
    requires
        encoded(e1) == encoded(e2),
    ensures
        spec_peer_entry(e1) == spec_peer_entry(e2),
{
    lemma_encoded_congruent(e1, e2);
    match e1 {
        BencodeValue::Dictionary(d1) => {
            let d2 = e2->Dictionary_0;
            lemma_encoded_pairs_pointwise(d1@, d2@);
            lemma_dict_first_congruent(d1@, d2@, spec_key_ip());
            lemma_dict_first_congruent(d1@, d2@, spec_key_port());
            match dict_first(d1@, spec_key_ip()) {
                Some(w1) => {
                    lemma_encoded_congruent(w1, dict_first(d2@, spec_key_ip())->0);
                },
                None => {},
            }
            match dict_first(d1@, spec_key_port()) {
                Some(w1) => {
                    lemma_encoded_congruent(w1, dict_first(d2@, spec_key_port())->0);
                },
                None => {},
            }
        },
        _ => {},
    }
}

/// Peer lists whose elements have equal encodings project to the same
/// peers.
proof fn lemma_peers_list_congruent(l1: Seq<BencodeValue>, l2: Seq<BencodeValue>)
    requires
        l1.len() == l2.len(),
        forall|i: int| 0 <= i < l1.len() ==> encoded(#[trigger] l1[i]) == encoded(l2[i]),
    ensures
        spec_peers_list(l1) == spec_peers_list(l2),
    decreases l1,
{
    if l1.len() > 0 {
        lemma_peer_entry_congruent(l1[0], l2[0]);
        assert(forall|i: int| 0 <= i < l1.drop_first().len()
            ==> encoded(#[trigger] l1.drop_first()[i]) == encoded(l2.drop_first()[i])) by {
            assert(forall|i: int| 0 <= i < l1.drop_first().len()
                ==> l1.drop_first()[i] == l1[i + 1] && l2.drop_first()[i] == l2[i + 1]);
        }
        lemma_peers_list_congruent(l1.drop_first(), l2.drop_first());
    }
}

/// `peers` values with equal encodings name the same peers.
proof fn lemma_parse_peers_congruent(v1: BencodeValue, v2: BencodeValue)
    requires
        encoded(v1) == encoded(v2),
    ensures
        spec_parse_peers(v1) == spec_parse_peers(v2),
{
    lemma_encoded_congruent(v1, v2);
    match v1 {
        BencodeValue::List(l1) => {
            lemma_encoded_list_pointwise(l1@, v2->List_0@);
            lemma_peers_list_congruent(l1@, v2->List_0@);
        },
        _ => {},
    }
}

/// The tracker-response projections are functions of the bytes: values with
/// equal encodings agree on every field the response reads.
proof fn lemma_response_congruent(v1: BencodeValue, v2: BencodeValue)
    requires
        encoded(v1) == encoded(v2),
    ensures
        v1 is Dictionary <==> v2 is Dictionary,
        v1 is Dictionary ==> {
            let p1 = v1->Dictionary_0@;
            let p2 = v2->Dictionary_0@;
            &&& (dict_first(p1, spec_key_failure_reason()) is None
                    <==> dict_first(p2, spec_key_failure_reason()) is None)
            &&& (dict_first(p1, spec_key_failure_reason()) matches Some(w1)
                    ==> w1 is Bytes ==> {
                        let w2 = dict_first(p2, spec_key_failure_reason())->0;
                        w2 is Bytes && w1->Bytes_0@ == w2->Bytes_0@
                    })
            &&& spec_u64_field(p1, spec_key_interval()) == spec_u64_field(p2, spec_key_interval())
            &&& spec_u64_field(p1, spec_key_complete()) == spec_u64_field(p2, spec_key_complete())
            &&& spec_u64_field(p1, spec_key_incomplete())
                    == spec_u64_field(p2, spec_key_incomplete())
            &&& spec_text_field(p1, spec_key_tracker_id())
                    == spec_text_field(p2, spec_key_tracker_id())
            &&& (dict_first(p1, spec_key_peers()) is None
                    <==> dict_first(p2, spec_key_peers()) is None)
            &&& (dict_first(p1, spec_key_peers()) matches Some(w1)
                    ==> spec_parse_peers(w1)
                        == spec_parse_peers(dict_first(p2, spec_key_peers())->0))
        },
{
    lemma_encoded_congruent(v1, v2);
    match v1 {
        BencodeValue::Dictionary(d1) => {
            let p1 = d1@;
            let p2 = v2->Dictionary_0@;
            lemma_encoded_pairs_pointwise(p1, p2);
            lemma_dict_first_congruent(p1, p2, spec_key_failure_reason());
            match dict_first(p1, spec_key_failure_reason()) {
                Some(w1) => {
                    lemma_encoded_congruent(w1, dict_first(p2, spec_key_failure_reason())->0);
                },
                None => {},
            }
            lemma_dict_first_congruent(p1, p2, spec_key_interval());
            match dict_first(p1, spec_key_interval()) {
                Some(w1) => {
                    lemma_encoded_congruent(w1, dict_first(p2, spec_key_interval())->0);
                },
                None => {},
            }
            lemma_dict_first_congruent(p1, p2, spec_key_complete());
            match dict_first(p1, spec_key_complete()) {
                Some(w1) => {
                    lemma_encoded_congruent(w1, dict_first(p2, spec_key_complete())->0);
                },
                None => {},
            }
            lemma_dict_first_congruent(p1, p2, spec_key_incomplete());
            match dict_first(p1, spec_key_incomplete()) {
                Some(w1) => {
                    lemma_encoded_congruent(w1, dict_first(p2, spec_key_incomplete())->0);
                },
                None => {},
            }
            lemma_dict_first_congruent(p1, p2, spec_key_tracker_id());
            match dict_first(p1, spec_key_tracker_id()) {
                Some(w1) => {
                    lemma_encoded_congruent(w1, dict_first(p2, spec_key_tracker_id())->0);
                },
                None => {},
            }
            lemma_dict_first_congruent(p1, p2, spec_key_peers());
            match dict_first(p1, spec_key_peers()) {
                Some(w1) => {
                    lemma_parse_peers_congruent(w1, dict_first(p2, spec_key_peers())->0);
                },
                None => {},
            }
        },
        _ => {},
    }
}

impl Tracker {
    /// Reads the peers out of a `peers` value: either the dictionary-list
    /// form (`ip` bytes, `port` integer per entry) or the compact byte
    /// string of six-byte records; anything else is invalid.
    #[verifier::loop_isolation(false)]
    pub fn parse_peers(peers_value: &BencodeValue) -> (r: Result<Vec<Peer>, TrackerError>)
        ensures
            match r {
                Ok(ps) => spec_parse_peers(*peers_value) == Some(ps.deep_view()),
                Err(_) => spec_parse_peers(*peers_value) is None,
            },
    {
        match peers_value {
            BencodeValue::List(items) => {
                let n: usize = items.len();
                let mut out: Vec<Peer> = Vec::new();
                let mut k: usize = 0;
                proof {
                    assert(items@.skip(0) =~= items@);
                    assert(out.deep_view() =~= Seq::<(Seq<u8>, u16)>::empty());
                }
                while k < n
                    invariant
                        n == items@.len(),
                        k <= n,
                        match spec_peers_list(items@.skip(k as int)) {
                            Some(rest) => spec_peers_list(items@)
                                == Some(out.deep_view() + rest),
                            None => spec_peers_list(items@) is None,
                        },
                    decreases n - k,
                {
                    proof {
                        assert(items@.skip(k as int)[0] == items@[k as int]);
                        assert(items@.skip(k as int).drop_first() =~= items@.skip(k + 1));
                    }
                    match Self::parse_peer_entry(&items[k]) {
                        Some(p) => {
                            let ghost old_out = out.deep_view();
                            let ghost pv = p@;
                            out.push(p);
                            proof {
                                assert(out.deep_view() =~= old_out.push(pv));
                                let sp = spec_peers_list(items@.skip(k + 1));
                                if sp is Some {
                                    let rest = sp.unwrap();
                                    assert(out.deep_view() + rest
                                        =~= old_out + (seq![pv] + rest));
                                }
                            }
                        },
                        None => {
                            proof {
                                assert(spec_peer_entry(items@[k as int]) is None);
                                assert(spec_peers_list(items@.skip(k as int)) is None);
                            }
                            return Err(TrackerError::InvalidPeers);
                        },
                    }
                    k = k + 1;
                }
                proof {
                    assert(items@.skip(n as int) =~= Seq::<BencodeValue>::empty());
                    assert(out.deep_view() + Seq::<(Seq<u8>, u16)>::empty() =~= out.deep_view());
                }
                Ok(out)
            },
            BencodeValue::Bytes(b) => {
                let n: usize = b.len();
                if n % 6 != 0 {
                    return Err(TrackerError::InvalidPeers);
                }
                let count: usize = n / 6;
                let mut out: Vec<Peer> = Vec::new();
                let mut k: usize = 0;
                while k < count
                    invariant
                        n == b@.len(),
                        n % 6 == 0,
                        count == n / 6,
                        k <= count,
                        out@.len() == k,
                        forall|i: int| 0 <= i < k
                            ==> (#[trigger] out@[i])@ == spec_peers_compact(b@)[i],
                    decreases count - k,
                {
                    proof {
                        assert(6 * (k + 1) <= 6 * count);
                        assert(6 * count == n) by {
                            vstd::arithmetic::div_mod::lemma_fundamental_div_mod(n as int, 6);
                        }
                    }
                    let ip: Vec<u8> = vstd::slice::slice_to_vec(
                        vstd::slice::slice_subrange(b.as_slice(), 6 * k, 6 * k + 4));
                    let port: u16 = b[6 * k + 4] as u16 * 256 + b[6 * k + 5] as u16;
                    out.push(Peer { ip, port });
                    k = k + 1;
                }
                proof {
                    assert(out.deep_view() =~~= spec_peers_compact(b@));
                }
                Ok(out)
            },
            _ => Err(TrackerError::InvalidPeers),
        }
    }

    /// One peer of the dictionary-list form.
    fn parse_peer_entry(v: &BencodeValue) -> (r: Option<Peer>)
        ensures
            match r {
                Some(p) => spec_peer_entry(*v) == Some(p@),
                None => spec_peer_entry(*v) is None,
            },
    {
        let pd = match v {
            BencodeValue::Dictionary(pd) => pd,
            _ => {
                return None;
            },
        };
        let ip: Vec<u8> = match dict_get(pd, key_ip()) {
            Some(iv) => match iv {
                BencodeValue::Bytes(ip) => vstd::slice::slice_to_vec(ip.as_slice()),
                _ => {
                    return None;
                },
            },
            None => {
                return None;
            },
        };
        match dict_get(pd, key_port()) {
            Some(pv) => match pv {
                BencodeValue::Integer(p) => {
                    if *p < 0 || *p > 65535 {
                        None
                    } else {
                        Some(Peer { ip, port: *p as u16 })
                    }
                },
                _ => None,
            },
            None => None,
        }
    }

    /// Reads a tracker's bencoded response: a reported failure reason turns
    /// into an error; otherwise the interval (zero when absent), the peers
    /// (empty when absent), and the optional counters and tracker id are
    /// projected out.
    pub fn parse_tracker_response(&self, data: &[u8]) -> (r: Result<TrackerResponse, TrackerError>)
        ensures
            // Both outcomes are owed for every value the input encodes: a
            // reported failure or malformed peers turn into exactly their
            // errors, and anything else is projected field by field.
            forall|v: BencodeValue| #[trigger] encoded(v) == data@ ==> match r {
                Ok(resp) => v matches BencodeValue::Dictionary(pairs) && {
                    &&& dict_first(pairs@, spec_key_failure_reason()) is None
                    &&& resp.interval == match spec_u64_field(pairs@, spec_key_interval()) {
                            Some(x) => x,
                            None => 0u64,
                        }
                    &&& resp.complete == spec_u64_field(pairs@, spec_key_complete())
                    &&& resp.incomplete == spec_u64_field(pairs@, spec_key_incomplete())
                    &&& match resp.tracker_id {
                            Some(s) => spec_text_field(pairs@, spec_key_tracker_id()) == Some(s@),
                            None => spec_text_field(pairs@, spec_key_tracker_id()) is None,
                        }
                    &&& match dict_first(pairs@, spec_key_peers()) {
                            Some(pv) => spec_parse_peers(pv) == Some(resp.peers.deep_view()),
                            None => resp.peers.deep_view() == Seq::<(Seq<u8>, u16)>::empty(),
                        }
                },
                Err(e) => match e {
                    TrackerError::Syntax(_) => false,
                    TrackerError::NotADictionary => !(v is Dictionary),
                    TrackerError::Failure(reason) => v matches BencodeValue::Dictionary(pairs)
                        && dict_first(pairs@, spec_key_failure_reason()) matches Some(w)
                        && (w matches BencodeValue::Bytes(b) ==> reason@ == b@),
                    TrackerError::InvalidPeers => v matches BencodeValue::Dictionary(pairs)
                        && (dict_first(pairs@, spec_key_failure_reason()) is None
                            && (dict_first(pairs@, spec_key_peers()) matches Some(pv)
                                && spec_parse_peers(pv) is None)),
                },
            },
            // A bencode-level failure comes exactly when the input encodes
            // no value at all.
            (!exists|v: BencodeValue| #[trigger] encoded(v) == data@)
                <==> r matches Err(TrackerError::Syntax(_)),
    {
        let value = match BencodeValue::decode(data) {
            Ok(v) => v,
            Err(e) => {
                return Err(TrackerError::Syntax(e));
            },
        };
        proof {
            assert(encoded(value) == data@);
        }
        let pairs = match &value {
            BencodeValue::Dictionary(pairs) => pairs,
            _ => {
                proof {
                    assert forall|v: BencodeValue| #[trigger] encoded(v) == data@ implies
                        !(v is Dictionary) by {
                        lemma_response_congruent(v, value);
                    }
                }
                return Err(TrackerError::NotADictionary);
            },
        };
        match dict_get(pairs, key_failure_reason()) {
            Some(fv) => {
                let reason: Vec<u8> = match fv {
                    BencodeValue::Bytes(b) => vstd::slice::slice_to_vec(b.as_slice()),
                    _ => Vec::new(),
                };
                proof {
                    assert forall|v: BencodeValue| #[trigger] encoded(v) == data@ implies
                        v matches BencodeValue::Dictionary(vp)
                            && dict_first(vp@, spec_key_failure_reason()) matches Some(w)
                            && (w matches BencodeValue::Bytes(b) ==> reason@ == b@) by {
                        lemma_response_congruent(v, value);
                        lemma_response_congruent(value, v);
                    }
                }
                return Err(TrackerError::Failure(reason));
            },
            None => {},
        }
        let interval: u64 = match dict_get(pairs, key_interval()) {
            Some(iv) => match iv {
                BencodeValue::Integer(v) => if *v >= 0 { *v as u64 } else { 0 },
                _ => 0,
            },
            None => 0,
        };
        let complete: Option<u64> = Self::u64_field(pairs, key_complete());
        let incomplete: Option<u64> = Self::u64_field(pairs, key_incomplete());
        let tracker_id: Option<String> = match dict_get(pairs, key_tracker_id()) {
            Some(tv) => match tv {
                BencodeValue::Bytes(b) => bytes_to_string(b.as_slice()),
                _ => None,
            },
            None => None,
        };
        let peers: Vec<Peer> = match dict_get(pairs, key_peers()) {
            Some(pv) => match Self::parse_peers(pv) {
                Ok(ps) => ps,
                Err(_) => {
                    proof {
                        assert forall|v: BencodeValue| #[trigger] encoded(v) == data@ implies
                            v matches BencodeValue::Dictionary(vp)
                                && (dict_first(vp@, spec_key_failure_reason()) is None
                                    && (dict_first(vp@, spec_key_peers()) matches Some(wpv)
                                        && spec_parse_peers(wpv) is None)) by {
                            lemma_response_congruent(v, value);
                            lemma_response_congruent(value, v);
                        }
                    }
                    return Err(TrackerError::InvalidPeers);
                },
            },
            None => {
                let none_yet: Vec<Peer> = Vec::new();
                proof {
                    assert(none_yet.deep_view() =~= Seq::<(Seq<u8>, u16)>::empty());
                }
                none_yet
            },
        };
        let resp = TrackerResponse { interval, peers, complete, incomplete, tracker_id };
        proof {
            assert forall|v: BencodeValue| #[trigger] encoded(v) == data@ implies
                v matches BencodeValue::Dictionary(vp) && {
                    &&& dict_first(vp@, spec_key_failure_reason()) is None
                    &&& resp.interval == match spec_u64_field(vp@, spec_key_interval()) {
                            Some(x) => x,
                            None => 0u64,
                        }
                    &&& resp.complete == spec_u64_field(vp@, spec_key_complete())
                    &&& resp.incomplete == spec_u64_field(vp@, spec_key_incomplete())
                    &&& match resp.tracker_id {
                            Some(s) => spec_text_field(vp@, spec_key_tracker_id()) == Some(s@),
                            None => spec_text_field(vp@, spec_key_tracker_id()) is None,
                        }
                    &&& match dict_first(vp@, spec_key_peers()) {
                            Some(wpv) => spec_parse_peers(wpv) == Some(resp.peers.deep_view()),
                            None => resp.peers.deep_view() == Seq::<(Seq<u8>, u16)>::empty(),
                        }
                } by {
                lemma_response_congruent(v, value);
                lemma_response_congruent(value, v);
            }
        }
        Ok(resp)
    }

    /// A nonnegative integer field of the response, by key.
    fn u64_field(pairs: &Vec<(Vec<u8>, BencodeValue)>, key: &[u8]) -> (r: Option<u64>)
        ensures
            r == spec_u64_field(pairs@, key@),
    {
        match dict_get(pairs, key) {
            Some(iv) => match iv {
                BencodeValue::Integer(v) => if *v >= 0 { Some(*v as u64) } else { None },
                _ => None,
            },
            None => None,
        }
    }
}

} // verus!
