//! Tracker announces: the query string sent to the tracker, and the
//! bencoded response parsed back into peer addresses.

use vstd::prelude::*;

use crate::bencode::{
    spec_dec_digits, spec_dict_get, spec_encode, dec_value, is_ascii_digit,
    lemma_dec_digits_canonical, maximal_digit_run, parse_value, BValue,
};
use vstd::utf8::{valid_utf8, decode_utf8, encode_utf8};

verus! {

broadcast use vstd::std_specs::vec::group_vec_axioms;

/// Why a tracker exchange failed.
#[derive(Debug, Clone, PartialEq, Eq)]
pub enum TrackerError {
    /// The response is not the bencoded shape the tracker protocol gives.
    Bencode,
    /// The tracker answered with a failure reason.
    QueryPeers(String),
    /// A peer entry carries an address that does not parse.
    InvalidIpAddr,
}

/// One peer's address: an IPv4 address and a port.
///
/// Addresses are IPv4 only, matching the compact tracker format; a
/// list-format entry carrying an IPv6 literal is refused.
#[derive(Debug, Clone, Copy, PartialEq, Eq)]
pub struct PeerAddr {
    /// The four address octets, network order.
    pub ip: [u8; 4],
    /// The TCP port.
    pub port: u16,
}

/// A successful announce: how long to wait, and whom to try.
#[derive(Debug)]
pub struct Response {
    /// Seconds until the next announce.
    pub interval: u64,
    /// The peers the tracker handed out.
    pub peers: Vec<PeerAddr>,
}

/// What an announce reports about this client.
#[derive(Debug)]
pub struct RequestParams {
    /// The torrent's identity.
    pub info_hash: crate::types::Sha1Hash,
    /// This client's identity.
    pub peer_id: crate::types::PeerId,
    /// An address override to announce, if any.
    pub ip: Option<String>,
    /// The port this client listens on.
    pub port: u16,
    /// Bytes uploaded so far.
    pub uploaded: u64,
    /// Bytes downloaded so far.
    pub downloaded: u64,
    /// Bytes still missing.
    pub left: u64,
    /// The lifecycle event being announced, if any.
    pub event: Option<TrackerEvent>,
    /// Whether the compact peer format is requested.
    pub compact: bool,
}

/// The announce lifecycle events.
#[derive(Debug, Clone, Copy, PartialEq, Eq, Structural)]
pub enum TrackerEvent {
    Started,
    Stopped,
    Completed,
    Empty,
}

/// The event's name in the query string.
pub open spec fn spec_event_text(e: TrackerEvent) -> Seq<u8> {
    match e {
        TrackerEvent::Started => seq![115u8, 116, 97, 114, 116, 101, 100],
        TrackerEvent::Stopped => seq![115u8, 116, 111, 112, 112, 101, 100],
        TrackerEvent::Completed => seq![99u8, 111, 109, 112, 108, 101, 116, 101, 100],
        TrackerEvent::Empty => Seq::empty(),
    }
}

/// A byte the announce query sends bare: a letter, a digit, or one of
/// `-`, `_`, `~`, `.`.
pub open spec fn is_unreserved(b: u8) -> bool {
    (48 <= b <= 57) || (65 <= b <= 90) || (97 <= b <= 122) || b == 45 || b == 95 || b == 126
        || b == 46
}

/// The value of a hexadecimal digit, uppercase.
pub open spec fn spec_hex_digit(n: int) -> u8 {
    if n < 10 {
        (48 + n) as u8
    } else {
        (55 + n) as u8
    }
}

/// Percent-encoding with the tracker's reserved set: unreserved bytes pass
/// through, every other byte becomes `%` and two uppercase hex digits.
pub open spec fn spec_percent_encode(s: Seq<u8>) -> Seq<u8>
    decreases s.len(),
{
    if s.len() == 0 {
        Seq::empty()
    } else {
        spec_percent_encode(s.drop_last()) + (if is_unreserved(s.last()) {
            seq![s.last()]
        } else {
            seq![37u8, spec_hex_digit((s.last() / 16) as int), spec_hex_digit((s.last() % 16) as int)]
        })
    }
}

/// Percent-encodes `s` with the tracker's reserved set.
pub fn percent_encode_bytes(s: &[u8]) -> (r: Vec<u8>)
    ensures
        r@ == spec_percent_encode(s@),
{
    let mut out: Vec<u8> = Vec::new();
    let mut i: usize = 0;
    proof {
        assert(s@.take(0) =~= Seq::<u8>::empty());
    }
    while i < s.len()
        invariant
            i <= s@.len(),
            out@ == spec_percent_encode(s@.take(i as int)),
        decreases s@.len() - i,
    {
        let b = s[i];
        proof {
            assert(s@.take(i + 1).drop_last() =~= s@.take(i as int));
            assert(s@.take(i + 1).last() == b);
        }
        let unreserved = (48 <= b && b <= 57) || (65 <= b && b <= 90) || (97 <= b && b <= 122) || b
            == 45 || b == 95 || b == 126 || b == 46;
        if unreserved {
            out.push(b);
        } else {
            out.push(37);
            let hi = b / 16;
            let lo = b % 16;
            out.push(if hi < 10 {
                48 + hi
            } else {
                55 + hi
            });
            out.push(if lo < 10 {
                48 + lo
            } else {
                55 + lo
            });
        }
        i = i + 1;
        proof {
            assert(out@ =~= spec_percent_encode(s@.take(i as int)));
        }
    }
    proof {
        assert(s@.take(s@.len() as int) =~= s@);
    }
    out
}

/// The query string of an announce, after the `?`.
pub open spec fn spec_announce_query(p: RequestParams) -> Seq<u8> {
    spec_text_info_hash() + spec_percent_encode(p.info_hash@) + spec_text_peer_id()
        + spec_percent_encode(p.peer_id@) + spec_text_port() + spec_dec_digits(p.port as nat)
        + spec_text_uploaded() + spec_dec_digits(p.uploaded as nat) + spec_text_downloaded()
        + spec_dec_digits(p.downloaded as nat) + spec_text_left() + spec_dec_digits(p.left as nat)
        + spec_text_compact() + (if p.compact {
        seq![49u8]
    } else {
        seq![48u8]
    }) + (match p.ip {
        Some(ip) => spec_text_ip() + encode_utf8(ip@),
        None => Seq::empty(),
    }) + (match p.event {
        Some(e) => if e is Empty {
            Seq::empty()
        } else {
            spec_text_event() + spec_event_text(e)
        },
        None => Seq::empty(),
    })
}

pub open spec fn spec_text_info_hash() -> Seq<u8> {
    seq![105u8, 110, 102, 111, 95, 104, 97, 115, 104, 61]
}

pub open spec fn spec_text_peer_id() -> Seq<u8> {
    seq![38u8, 112, 101, 101, 114, 95, 105, 100, 61]
}

pub open spec fn spec_text_port() -> Seq<u8> {
    seq![38u8, 112, 111, 114, 116, 61]
}

pub open spec fn spec_text_uploaded() -> Seq<u8> {
    seq![38u8, 117, 112, 108, 111, 97, 100, 101, 100, 61]
}

pub open spec fn spec_text_downloaded() -> Seq<u8> {
    seq![38u8, 100, 111, 119, 110, 108, 111, 97, 100, 101, 100, 61]
}

pub open spec fn spec_text_left() -> Seq<u8> {
    seq![38u8, 108, 101, 102, 116, 61]
}

pub open spec fn spec_text_compact() -> Seq<u8> {
    seq![38u8, 99, 111, 109, 112, 97, 99, 116, 61]
}

pub open spec fn spec_text_ip() -> Seq<u8> {
    seq![38u8, 105, 112, 61]
}

pub open spec fn spec_text_event() -> Seq<u8> {
    seq![38u8, 101, 118, 101, 110, 116, 61]
}

/// Appends decimal digits of `n`.
fn push_dec(n: u64, out: &mut Vec<u8>)
    ensures
        final(out)@ == old(out)@ + spec_dec_digits(n as nat),
    decreases n,
{
    if n < 10 {
        out.push((n + 48) as u8);
        proof {
            assert(final(out)@ =~= old(out)@ + spec_dec_digits(n as nat));
        }
    } else {
        push_dec(n / 10, out);
        out.push((n % 10 + 48) as u8);
        proof {
            assert(final(out)@ =~= old(out)@ + spec_dec_digits(n as nat));
        }
    }
}

/// Talks to the tracker named by a torrent's announce URL.
pub struct Tracker {
    /// The announce URL, as text.
    pub url: String,
}

impl Tracker {
    pub fn new(url: String) -> (r: Self)
        ensures
            r.url@ == url@,
    {
        Tracker { url }
    }

    /// The full announce request line: the URL, `?`, and the query.
    pub fn announce_url_bytes(&self, params: &RequestParams) -> (r: Vec<u8>)
        ensures
            r@ == encode_utf8(self.url@) + seq![63u8] + spec_announce_query(*params),
    {
        let mut out: Vec<u8> = Vec::new();
        let url_bytes = self.url.as_str().as_bytes();
        let mut i: usize = 0;
        while i < url_bytes.len()
            invariant
                i <= url_bytes@.len(),
                url_bytes@ == encode_utf8(self.url@),
                out@ == url_bytes@.take(i as int),
            decreases url_bytes@.len() - i,
        {
            out.push(url_bytes[i]);
            i = i + 1;
            proof {
                assert(out@ =~= url_bytes@.take(i as int));
            }
        }
        proof {
            assert(url_bytes@.take(url_bytes@.len() as int) =~= url_bytes@);
        }
        out.push(63);
        let mut q = self.announce_query(params);
        out.append(&mut q);
        proof {
            assert(out@ =~= encode_utf8(self.url@) + seq![63u8] + spec_announce_query(*params));
        }
        out
    }

    /// The query string carrying the announce parameters: the two
    /// percent-encoded identities, the byte counters in decimal, the
    /// compact flag, and the optional address and event.
    pub fn announce_query(&self, params: &RequestParams) -> (r: Vec<u8>)
        ensures
            r@ == spec_announce_query(*params),
    {
        let mut out: Vec<u8> = Vec::new();
        push_text_info_hash(&mut out);
        let mut enc = percent_encode_bytes(params.info_hash.as_slice());
        out.append(&mut enc);
        push_text_peer_id(&mut out);
        let mut enc2 = percent_encode_bytes(params.peer_id.as_slice());
        out.append(&mut enc2);
        push_text_port(&mut out);
        push_dec(params.port as u64, &mut out);
        push_text_uploaded(&mut out);
        push_dec(params.uploaded, &mut out);
        push_text_downloaded(&mut out);
        push_dec(params.downloaded, &mut out);
        push_text_left(&mut out);
        push_dec(params.left, &mut out);
        push_text_compact(&mut out);
        out.push(if params.compact {
            49
        } else {
            48
        });
        match &params.ip {
            Some(ip) => {
                push_text_ip(&mut out);
                let b = ip.as_str().as_bytes();
                let mut i: usize = 0;
                let ghost pre = out@;
                while i < b.len()
                    invariant
                        i <= b@.len(),
                        out@ == pre + b@.take(i as int),
                    decreases b@.len() - i,
                {
                    out.push(b[i]);
                    i = i + 1;
                    proof {
                        assert(out@ =~= pre + b@.take(i as int));
                    }
                }
                proof {
                    assert(b@.take(b@.len() as int) =~= b@);
                }
            },
            None => {},
        }
        match &params.event {
            Some(TrackerEvent::Empty) => {},
            Some(e) => {
                push_text_event(&mut out);
                push_event_text(*e, &mut out);
            },
            None => {},
        }
        proof {
            assert(out@ =~= spec_announce_query(*params));
        }
        out
    }
}

/// One entry of a list-format peer response.
#[derive(Debug)]
pub struct PeerItem {
    /// The peer's identity, when the tracker sends one.
    pub peer_id: Option<Vec<u8>>,
    /// The address as text, dotted decimal.
    pub ip: String,
    /// The TCP port.
    pub port: u16,
}

/// The peers of a response: a list of entries, or packed six-byte records.
#[derive(Debug)]
pub enum Peer {
    List(Vec<PeerItem>),
    Compact(Vec<u8>),
}

/// The fields of a successful response.
#[derive(Debug)]
pub struct SuccessResponse {
    /// Seconds until the next announce.
    pub interval: u64,
    /// The peers, in either format.
    pub peers: Peer,
}

/// The fields of a failure response.
#[derive(Debug)]
pub struct ErrorResponse {
    /// The tracker's stated reason.
    pub failure_reason: String,
}

/// The dotted-decimal text of an address, octets without leading zeros.
#[verifier::opaque]
pub open spec fn spec_ipv4_text(ip: [u8; 4]) -> Seq<u8> {
    spec_dec_digits(ip@[0] as nat) + seq![46u8] + spec_dec_digits(ip@[1] as nat) + seq![46u8]
        + spec_dec_digits(ip@[2] as nat) + seq![46u8] + spec_dec_digits(ip@[3] as nat)
}

/// The address record packed into six bytes: four address octets, then
/// the port, big endian.
pub open spec fn spec_compact_peer(chunk: Seq<u8>, a: PeerAddr) -> bool {
    a.ip@ == chunk.take(4) && a.port == (chunk[4] as int) * 256 + chunk[5]
}

/// Decodes the compact peer format: each whole six-byte record is an IPv4
/// address and a big-endian port; a trailing fragment is dropped.
pub fn decode_compact_peers(bytes: &[u8]) -> (r: Vec<PeerAddr>)
    ensures
        r@.len() == bytes@.len() as int / 6,
        forall|i: int|
            0 <= i < r@.len() ==> spec_compact_peer(
                bytes@.subrange(6 * i, 6 * i + 6),
                #[trigger] r@[i],
            ),
{
    let mut out: Vec<PeerAddr> = Vec::new();
    let total_len = bytes.len();
    let n = total_len / 6;
    let mut i: usize = 0;
    while i < n
        invariant
            i <= n,
            total_len == bytes@.len(),
            n == bytes@.len() as int / 6,
            out@.len() == i,
            forall|k: int|
                0 <= k < i ==> spec_compact_peer(
                    bytes@.subrange(6 * k, 6 * k + 6),
                    #[trigger] out@[k],
                ),
        decreases n - i,
    {
        proof {
            assert(6 * (i as int) + 6 <= bytes@.len()) by (nonlinear_arith)
                requires
                    0 <= i < n,
                    n == bytes@.len() as int / 6,
            ;
        }
        let base = 6 * i;
        let ip: [u8; 4] = [bytes[base], bytes[base + 1], bytes[base + 2], bytes[base + 3]];
        let port: u16 = (bytes[base + 4] as u16) * 256 + (bytes[base + 5] as u16);
        let addr = PeerAddr { ip, port };
        proof {
            let chunk = bytes@.subrange(6 * (i as int), 6 * (i as int) + 6);
            assert(ip@ =~= chunk.take(4));
            assert(chunk[4] == bytes@[6 * (i as int) + 4] && chunk[5] == bytes@[6 * (i as int)
                + 5]);
        }
        out.push(addr);
        i = i + 1;
    }
    out
}

/// Positions of the four digit runs and three dots inside an address's
/// dotted-decimal text.
proof fn lemma_ipv4_text_structure(s: Seq<u8>, ip: [u8; 4])
    requires
        s == spec_ipv4_text(ip),
    ensures
        ({
            let l0 = spec_dec_digits(ip@[0] as nat).len() as int;
            let l1 = spec_dec_digits(ip@[1] as nat).len() as int;
            let l2 = spec_dec_digits(ip@[2] as nat).len() as int;
            let l3 = spec_dec_digits(ip@[3] as nat).len() as int;
            &&& s.len() == l0 + 1 + l1 + 1 + l2 + 1 + l3
            &&& maximal_digit_run(s, 0, l0) && dec_value(s.subrange(0, l0)) == ip@[0]
            &&& s[l0] == 46
            &&& maximal_digit_run(s, l0 + 1, l1) && dec_value(s.subrange(l0 + 1, l0 + 1 + l1))
                == ip@[1]
            &&& s[l0 + 1 + l1] == 46
            &&& maximal_digit_run(s, l0 + 1 + l1 + 1, l2) && dec_value(
                s.subrange(l0 + 1 + l1 + 1, l0 + 1 + l1 + 1 + l2),
            ) == ip@[2]
            &&& s[l0 + 1 + l1 + 1 + l2] == 46
            &&& maximal_digit_run(s, l0 + 1 + l1 + 1 + l2 + 1, l3) && dec_value(
                s.subrange(l0 + 1 + l1 + 1 + l2 + 1, s.len() as int),
            ) == ip@[3]
        }),
{
    reveal(spec_ipv4_text);
    lemma_dec_digits_canonical(ip@[0] as nat);
    lemma_dec_digits_canonical(ip@[1] as nat);
    lemma_dec_digits_canonical(ip@[2] as nat);
    lemma_dec_digits_canonical(ip@[3] as nat);
    let d0 = spec_dec_digits(ip@[0] as nat);
    let d1 = spec_dec_digits(ip@[1] as nat);
    let d2 = spec_dec_digits(ip@[2] as nat);
    let d3 = spec_dec_digits(ip@[3] as nat);
    let l0 = d0.len() as int;
    let l1 = d1.len() as int;
    let l2 = d2.len() as int;
    let l3 = d3.len() as int;
    assert(s.subrange(0, l0) =~= d0);
    assert(s.subrange(l0 + 1, l0 + 1 + l1) =~= d1);
    assert(s.subrange(l0 + 1 + l1 + 1, l0 + 1 + l1 + 1 + l2) =~= d2);
    assert(s.subrange(l0 + 1 + l1 + 1 + l2 + 1, s.len() as int) =~= d3);
    assert(s[l0] == 46 && s[l0 + 1 + l1] == 46 && s[l0 + 1 + l1 + 1 + l2] == 46);
    assert(!is_ascii_digit(46u8));
}

/// Reads a dotted-decimal IPv4 address: exactly the texts that are the
/// dotted-decimal rendering of an address parse, octets without leading
/// zeros or values past 255.
#[verifier::rlimit(60)]
#[verifier::spinoff_prover]
pub fn parse_ipv4(s: &[u8]) -> (r: Option<[u8; 4]>)
    ensures
        r matches Some(ip) ==> s@ == spec_ipv4_text(ip),
        r is None ==> forall|ip: [u8; 4]| s@ != spec_ipv4_text(ip),
{
    let (o0, p1) = match parse_octet(s, 0) {
        Some(p) => p,
        None => {
            proof {
                assert forall|ip: [u8; 4]| s@ != spec_ipv4_text(ip) by {
                    if s@ == spec_ipv4_text(ip) {
                        lemma_ipv4_text_structure(s@, ip);
                    }
                }
            }
            return None;
        },
    };
    if p1 >= s.len() || s[p1] != 46 {
        proof {
            assert forall|ip: [u8; 4]| s@ != spec_ipv4_text(ip) by {
                if s@ == spec_ipv4_text(ip) {
                    lemma_ipv4_text_structure(s@, ip);
                }
            }
        }
        return None;
    }
    let (o1, p2) = match parse_octet(s, p1 + 1) {
        Some(p) => p,
        None => {
            proof {
                assert forall|ip: [u8; 4]| s@ != spec_ipv4_text(ip) by {
                    if s@ == spec_ipv4_text(ip) {
                        lemma_ipv4_text_structure(s@, ip);
                    }
                }
            }
            return None;
        },
    };
    if p2 >= s.len() || s[p2] != 46 {
        proof {
            assert forall|ip: [u8; 4]| s@ != spec_ipv4_text(ip) by {
                if s@ == spec_ipv4_text(ip) {
                    lemma_ipv4_text_structure(s@, ip);
                }
            }
        }
        return None;
    }
    let (o2, p3) = match parse_octet(s, p2 + 1) {
        Some(p) => p,
        None => {
            proof {
                assert forall|ip: [u8; 4]| s@ != spec_ipv4_text(ip) by {
                    if s@ == spec_ipv4_text(ip) {
                        lemma_ipv4_text_structure(s@, ip);
                    }
                }
            }
            return None;
        },
    };
    if p3 >= s.len() || s[p3] != 46 {
        proof {
            assert forall|ip: [u8; 4]| s@ != spec_ipv4_text(ip) by {
                if s@ == spec_ipv4_text(ip) {
                    lemma_ipv4_text_structure(s@, ip);
                }
            }
        }
        return None;
    }
    let (o3, p4) = match parse_octet(s, p3 + 1) {
        Some(p) => p,
        None => {
            proof {
                assert forall|ip: [u8; 4]| s@ != spec_ipv4_text(ip) by {
                    if s@ == spec_ipv4_text(ip) {
                        lemma_ipv4_text_structure(s@, ip);
                    }
                }
            }
            return None;
        },
    };
    if p4 != s.len() {
        proof {
            assert forall|ip: [u8; 4]| s@ != spec_ipv4_text(ip) by {
                if s@ == spec_ipv4_text(ip) {
                    lemma_ipv4_text_structure(s@, ip);
                }
            }
        }
        return None;
    }
    let ip: [u8; 4] = [o0, o1, o2, o3];
    proof {
        reveal(spec_ipv4_text);
        assert(ip@[0] == o0 && ip@[1] == o1 && ip@[2] == o2 && ip@[3] == o3);
        assert(s@ =~= spec_ipv4_text(ip)) by {
            assert(s@.subrange(0, p1 as int) == spec_dec_digits(o0 as nat));
            assert(s@.subrange(p1 + 1, p2 as int) == spec_dec_digits(o1 as nat));
            assert(s@.subrange(p2 + 1, p3 as int) == spec_dec_digits(o2 as nat));
            assert(s@.subrange(p3 + 1, p4 as int) == spec_dec_digits(o3 as nat));
        }
    }
    Some(ip)
}

/// Reads one canonical decimal octet at `pos`; whenever a canonical
/// digit run with a value up to 255 ends the digit run there, exactly it
/// comes back.
fn parse_octet(s: &[u8], pos: usize) -> (r: Option<(u8, usize)>)
    requires
        pos <= s@.len(),
    ensures
        r matches Some(p) ==> pos < p.1 <= s@.len() && s@.subrange(pos as int, p.1 as int)
            == spec_dec_digits(p.0 as nat),
        forall|dl: int|
            maximal_digit_run(s@, pos as int, dl) && dec_value(
                #[trigger] s@.subrange(pos as int, pos + dl),
            ) <= 255 ==> r == Some(
                (dec_value(s@.subrange(pos as int, pos + dl)) as u8, (pos + dl) as usize),
            ),
{
    let v = vstd::slice::slice_to_vec(s);
    proof {
        assert(v@ == s@);
    }
    match crate::bencode::parse_digits(&v, pos) {
        Some((n, end)) => {
            if n > 255 {
                None
            } else {
                proof {
                    crate::bencode::lemma_digits_of_value(s@.subrange(pos as int, end as int));
                }
                Some((n as u8, end))
            }
        },
        None => None,
    }
}

/// No address renders to this entry's ip text.
pub open spec fn ip_unparseable(item: PeerItem) -> bool {
    forall|ip: [u8; 4]| encode_utf8(item.ip@) != spec_ipv4_text(ip)
}

/// Some entry's ip text renders no address.
pub open spec fn some_ip_unparseable(items: Seq<PeerItem>) -> bool {
    exists|i: int| 0 <= i < items.len() && ip_unparseable(#[trigger] items[i])
}

impl Peer {
    /// The peers as plain addresses: compact records decoded six bytes
    /// each, list entries by their dotted-decimal text; the address error
    /// comes exactly when some list entry's text is no dotted-decimal
    /// address. Addresses are IPv4 only, so an IPv6 list entry fails the
    /// whole response.
    pub fn to_vec(&self) -> (r: Result<Vec<PeerAddr>, TrackerError>)
        ensures
            match r {
                Ok(addrs) => match self {
                    Peer::Compact(bytes) => {
                        &&& addrs@.len() == bytes@.len() as int / 6
                        &&& forall|i: int|
                            0 <= i < addrs@.len() ==> spec_compact_peer(
                                bytes@.subrange(6 * i, 6 * i + 6),
                                #[trigger] addrs@[i],
                            )
                    },
                    Peer::List(items) => {
                        &&& addrs@.len() == items@.len()
                        &&& forall|i: int|
                            0 <= i < addrs@.len() ==> encode_utf8(#[trigger] items@[i].ip@)
                                == spec_ipv4_text(addrs@[i].ip) && addrs@[i].port
                                == items@[i].port
                    },
                },
                Err(e) => e == TrackerError::InvalidIpAddr && (*self matches Peer::List(items)
                    && some_ip_unparseable(items@)),
            },
    {
        match self {
            Peer::Compact(bytes) => Ok(decode_compact_peers(bytes.as_slice())),
            Peer::List(items) => {
                let mut out: Vec<PeerAddr> = Vec::new();
                let mut i: usize = 0;
                while i < items.len()
                    invariant
                        *self == Peer::List(*items),
                        i <= items@.len(),
                        out@.len() == i,
                        forall|k: int|
                            0 <= k < i ==> encode_utf8(#[trigger] items@[k].ip@)
                                == spec_ipv4_text(out@[k].ip) && out@[k].port == items@[k].port,
                    decreases items@.len() - i,
                {
                    let ip = match parse_ipv4(items[i].ip.as_str().as_bytes()) {
                        Some(ip) => ip,
                        None => {
                            proof {
                                assert(ip_unparseable(items@[i as int]));
                                assert(some_ip_unparseable(items@)) by {
                                    assert(0 <= i < items@.len() && ip_unparseable(
                                        items@[i as int],
                                    ));
                                }
                            }
                            return Err(TrackerError::InvalidIpAddr);
                        },
                    };
                    out.push(PeerAddr { ip, port: items[i].port });
                    i = i + 1;
                }
                Ok(out)
            },
        }
    }
}

pub open spec fn key_failure_reason() -> Seq<u8> {
    seq![102u8, 97, 105, 108, 117, 114, 101, 32, 114, 101, 97, 115, 111, 110]
}

pub open spec fn key_interval() -> Seq<u8> {
    seq![105u8, 110, 116, 101, 114, 118, 97, 108]
}

pub open spec fn key_peers() -> Seq<u8> {
    seq![112u8, 101, 101, 114, 115]
}

pub open spec fn key_ip() -> Seq<u8> {
    seq![105u8, 112]
}

pub open spec fn key_port() -> Seq<u8> {
    seq![112u8, 111, 114, 116]
}

fn kb_failure_reason() -> (r: Vec<u8>)
    ensures
        r@ == key_failure_reason(),
{
    let a: [u8; 14] = [102, 97, 105, 108, 117, 114, 101, 32, 114, 101, 97, 115, 111, 110];
    let v = vstd::slice::slice_to_vec(a.as_slice());
    proof {
        assert(v@ =~= key_failure_reason());
    }
    v
}

fn kb_interval() -> (r: Vec<u8>)
    ensures
        r@ == key_interval(),
{
    let a: [u8; 8] = [105, 110, 116, 101, 114, 118, 97, 108];
    let v = vstd::slice::slice_to_vec(a.as_slice());
    proof {
        assert(v@ =~= key_interval());
    }
    v
}

fn kb_peers() -> (r: Vec<u8>)
    ensures
        r@ == key_peers(),
{
    let a: [u8; 5] = [112, 101, 101, 114, 115];
    let v = vstd::slice::slice_to_vec(a.as_slice());
    proof {
        assert(v@ =~= key_peers());
    }
    v
}

fn kb_ip() -> (r: Vec<u8>)
    ensures
        r@ == key_ip(),
{
    let a: [u8; 2] = [105, 112];
    let v = vstd::slice::slice_to_vec(a.as_slice());
    proof {
        assert(v@ =~= key_ip());
    }
    v
}

fn kb_port() -> (r: Vec<u8>)
    ensures
        r@ == key_port(),
{
    let a: [u8; 4] = [112, 111, 114, 116];
    let v = vstd::slice::slice_to_vec(a.as_slice());
    proof {
        assert(v@ =~= key_port());
    }
    v
}

/// The address decoded from one list-format entry: its ip text is the
/// dotted-decimal rendering of the address, its port the entry's integer.
pub open spec fn list_entry_decodes_to(v: BValue, a: PeerAddr) -> bool {
    v matches BValue::Dict(pe) && {
        &&& spec_dict_get(pe@, key_ip()) matches Some(BValue::Bytes(ipb)) && valid_utf8(ipb@)
            && encode_utf8(decode_utf8(ipb@)) == spec_ipv4_text(a.ip)
        &&& spec_dict_get(pe@, key_port()) == Some(BValue::Int(a.port as i64))
    }
}

/// Everything the response parser checks of one list-format peer entry.
pub open spec fn peer_entry_accepted(v: BValue) -> bool {
    v matches BValue::Dict(pe) && (spec_dict_get(pe@, key_ip()) matches Some(BValue::Bytes(ipb))
        && valid_utf8(ipb@)) && (spec_dict_get(pe@, key_port()) matches Some(BValue::Int(n)) && 0
        <= n <= 65535)
}

/// Everything the response parser checks of the response dictionary,
/// short of the addresses parsing: no failure entry, a nonnegative
/// interval, and peers in one of the two formats.
pub open spec fn tracker_accepted(top: Seq<(Vec<u8>, BValue)>) -> bool {
    &&& spec_dict_get(top, key_failure_reason()) is None
    &&& spec_dict_get(top, key_interval()) matches Some(BValue::Int(n)) && n >= 0
    &&& match spec_dict_get(top, key_peers()) {
        Some(BValue::Bytes(_)) => true,
        Some(BValue::List(pl)) => forall|i: int|
            0 <= i < pl@.len() ==> peer_entry_accepted(#[trigger] pl@[i]),
        _ => false,
    }
}

/// A list entry whose readable ip text is no dotted-decimal address.
pub open spec fn entry_ip_unparseable(v: BValue) -> bool {
    v matches BValue::Dict(pe) && (spec_dict_get(pe@, key_ip()) matches Some(BValue::Bytes(ipb))
        && valid_utf8(ipb@) && (forall|a: [u8; 4]|
        encode_utf8(decode_utf8(ipb@)) != spec_ipv4_text(a)))
}

/// Some list entry's ip text renders no address.
pub open spec fn some_entry_ip_unparseable(pl: Seq<BValue>) -> bool {
    exists|i: int| 0 <= i < pl.len() && entry_ip_unparseable(#[trigger] pl[i])
}

/// The whole shape of a successful tracker response: the input is the
/// canonical encoding of a sorted dictionary without a failure reason,
/// whose interval entry is the returned interval, and whose peers entry
/// decodes — compact or list — to exactly the returned addresses.
pub open spec fn tracker_ok_shape(
    bytes: Seq<u8>,
    top: Vec<(Vec<u8>, BValue)>,
    interval: u64,
    peers: Seq<PeerAddr>,
) -> bool {
    &&& bytes == spec_encode(BValue::Dict(top))
    &&& crate::bencode::bval_wf(BValue::Dict(top))
    &&& spec_dict_get(top@, key_failure_reason()) is None
    &&& interval <= i64::MAX
    &&& spec_dict_get(top@, key_interval()) == Some(BValue::Int(interval as i64))
    &&& match spec_dict_get(top@, key_peers()) {
        Some(BValue::Bytes(pb)) => peers.len() == pb@.len() as int / 6 && (forall|i: int|
            0 <= i < peers.len() ==> spec_compact_peer(
                pb@.subrange(6 * i, 6 * i + 6),
                #[trigger] peers[i],
            )),
        Some(BValue::List(pl)) => peers.len() == pl@.len() && (forall|i: int|
            0 <= i < peers.len() ==> list_entry_decodes_to(#[trigger] pl@[i], peers[i])),
        _ => false,
    }
}

/// The shape of a refused announce: the input encodes a dictionary whose
/// failure-reason entry is the returned text.
pub open spec fn tracker_failure_shape(
    bytes: Seq<u8>,
    top: Vec<(Vec<u8>, BValue)>,
    reason: Seq<char>,
) -> bool {
    &&& bytes == spec_encode(BValue::Dict(top))
    &&& spec_dict_get(top@, key_failure_reason()) matches Some(BValue::Bytes(fb)) && valid_utf8(
        fb@,
    ) && reason == decode_utf8(fb@)
}

/// Parses a bencoded tracker response.
///
/// A failure-reason entry is the tracker's own refusal; otherwise the
/// response carries an interval and peers in either format, and the peers
/// come back as plain addresses.
pub fn parse_tracker_response(bytes: &Vec<u8>) -> (r: Result<Response, TrackerError>)
    ensures
        r is Ok ==> exists|top: Vec<(Vec<u8>, BValue)>|
            tracker_ok_shape(bytes@, top, r->Ok_0.interval, r->Ok_0.peers@),
        r is Err && r->Err_0 is QueryPeers ==> exists|top: Vec<(Vec<u8>, BValue)>|
            tracker_failure_shape(bytes@, top, r->Err_0->QueryPeers_0@),
        r == Err::<Response, TrackerError>(TrackerError::InvalidIpAddr) ==> exists|
            top: Vec<(Vec<u8>, BValue)>,
        |
            bytes@ == spec_encode(BValue::Dict(top)) && crate::bencode::bval_wf(
                BValue::Dict(top),
            ) && (spec_dict_get(top@, key_peers()) matches Some(BValue::List(pl))
                && some_entry_ip_unparseable(pl@)),
        r == Err::<Response, TrackerError>(TrackerError::Bencode) ==> {
            ||| !crate::bencode::parses_to(bytes@, 0, bytes@.len() as int)
            ||| bytes@.len() == 0
            ||| bytes@[0] != 100
            ||| exists|top: Vec<(Vec<u8>, BValue)>|
                bytes@ == spec_encode(BValue::Dict(top)) && crate::bencode::bval_wf(
                    BValue::Dict(top),
                ) && !tracker_accepted(top@)
        },
{
    let parsed = parse_value(bytes, 0);
    proof {
        if bytes@.len() > 0 && crate::bencode::parses_to(bytes@, 0, bytes@.len() as int) {
            assert(parsed matches Some(p) && p.1 == bytes@.len());
        }
    }
    let (top_v, end) = match parsed {
        Some(p) => p,
        None => {
            return Err(TrackerError::Bencode);
        },
    };
    if end != bytes.len() {
        return Err(TrackerError::Bencode);
    }
    proof {
        assert(bytes@.subrange(0, end as int) =~= bytes@);
    }
    let top = match top_v {
        BValue::Dict(entries) => entries,
        _ => {
            proof {
                crate::bencode::lemma_encode_first_byte(top_v);
                assert(bytes@[0] == spec_encode(top_v)[0]);
            }
            return Err(TrackerError::Bencode);
        },
    };
    let ghost gtop = top;
    proof {
        assert(bytes@ == spec_encode(BValue::Dict(gtop)));
        assert(crate::bencode::bval_wf(BValue::Dict(gtop)));
    }
    match crate::metainfo::get_string_field(&top, kb_failure_reason().as_slice()) {
        Some(reason) => {
            let result: Result<Response, TrackerError> = Err(
                TrackerError::QueryPeers(reason),
            );
            proof {
                assert(tracker_failure_shape(bytes@, top, result->Err_0->QueryPeers_0@));
            }
            return result;
        },
        None => {},
    }
    if crate::bencode::dict_get(&top, kb_failure_reason().as_slice()).is_some() {
        // a failure entry that is not readable text
        proof {
            assert(!tracker_accepted(gtop@));
        }
        return Err(TrackerError::Bencode);
    }
    let interval: u64 = match crate::metainfo::get_int_field(&top, kb_interval().as_slice()) {
        Some(n) => {
            if n < 0 {
                proof {
                    assert(!tracker_accepted(gtop@));
                }
                return Err(TrackerError::Bencode);
            }
            n as u64
        },
        None => {
            proof {
                assert(!tracker_accepted(gtop@));
            }
            return Err(TrackerError::Bencode);
        },
    };
    let peers_value = match crate::bencode::dict_get(&top, kb_peers().as_slice()) {
        Some(v) => v,
        None => {
            proof {
                assert(!tracker_accepted(gtop@));
            }
            return Err(TrackerError::Bencode);
        },
    };
    let peers: Vec<PeerAddr> = match peers_value {
        BValue::Bytes(pb) => decode_compact_peers(pb.as_slice()),
        BValue::List(pl) => {
            let mut out: Vec<PeerAddr> = Vec::new();
            let mut i: usize = 0;
            while i < pl.len()
                invariant
                    bytes@ == spec_encode(BValue::Dict(gtop)),
                    crate::bencode::bval_wf(BValue::Dict(gtop)),
                    spec_dict_get(gtop@, key_peers()) matches Some(BValue::List(plv)) && plv
                        == *pl,
                    i <= pl@.len(),
                    out@.len() == i,
                    forall|k: int|
                        0 <= k < i ==> list_entry_decodes_to(#[trigger] pl@[k], out@[k]),
                decreases pl@.len() - i,
            {
                let pe = match &pl[i] {
                    BValue::Dict(pe) => pe,
                    _ => {
                        proof {
                            assert(!peer_entry_accepted(pl@[i as int]));
                            assert(!tracker_accepted(gtop@));
                        }
                        return Err(TrackerError::Bencode);
                    },
                };
                let ip_text = match crate::metainfo::get_string_field(pe, kb_ip().as_slice()) {
                    Some(s) => s,
                    None => {
                        proof {
                            assert(!peer_entry_accepted(pl@[i as int]));
                            assert(!tracker_accepted(gtop@));
                        }
                        return Err(TrackerError::Bencode);
                    },
                };
                let port: u16 = match crate::metainfo::get_int_field(pe, kb_port().as_slice()) {
                    Some(n) => {
                        if n < 0 || n > 65535 {
                            proof {
                                assert(!peer_entry_accepted(pl@[i as int]));
                                assert(!tracker_accepted(gtop@));
                            }
                            return Err(TrackerError::Bencode);
                        }
                        n as u16
                    },
                    None => {
                        proof {
                            assert(!peer_entry_accepted(pl@[i as int]));
                            assert(!tracker_accepted(gtop@));
                        }
                        return Err(TrackerError::Bencode);
                    },
                };
                let ip = match parse_ipv4(ip_text.as_str().as_bytes()) {
                    Some(ip) => ip,
                    None => {
                        proof {
                            assert((pl@[i as int])->Dict_0 == *pe);
                            assert(entry_ip_unparseable(pl@[i as int]));
                            assert(some_entry_ip_unparseable(pl@)) by {
                                assert(0 <= i < pl@.len() && entry_ip_unparseable(
                                    pl@[i as int],
                                ));
                            }
                        }
                        return Err(TrackerError::InvalidIpAddr);
                    },
                };
                let addr = PeerAddr { ip, port };
                out.push(addr);
                i = i + 1;
                proof {
                    assert(list_entry_decodes_to(pl@[i - 1], out@[i - 1]));
                }
            }
            out
        },
        _ => {
            proof {
                assert(!tracker_accepted(gtop@));
            }
            return Err(TrackerError::Bencode);
        },
    };
    let result: Result<Response, TrackerError> = Ok(Response { interval, peers });
    proof {
        assert(tracker_ok_shape(bytes@, top, result->Ok_0.interval, result->Ok_0.peers@));
    }
    result
}

fn push_slice(bytes: &[u8], out: &mut Vec<u8>)
    ensures
        final(out)@ == old(out)@ + bytes@,
{
    let mut i: usize = 0;
    while i < bytes.len()
        invariant
            i <= bytes@.len(),
            out@ == old(out)@ + bytes@.take(i as int),
        decreases bytes@.len() - i,
    {
        out.push(bytes[i]);
        i = i + 1;
        proof {
            assert(out@ =~= old(out)@ + bytes@.take(i as int));
        }
    }
    proof {
        assert(bytes@.take(bytes@.len() as int) =~= bytes@);
        assert(final(out)@ =~= old(out)@ + bytes@);
    }
}

fn push_text_info_hash(out: &mut Vec<u8>)
    ensures
        final(out)@ == old(out)@ + spec_text_info_hash(),
{
    let a: [u8; 10] = [105, 110, 102, 111, 95, 104, 97, 115, 104, 61];
    proof {
        assert(a@ =~= spec_text_info_hash());
    }
    push_slice(a.as_slice(), out);
}

fn push_text_peer_id(out: &mut Vec<u8>)
    ensures
        final(out)@ == old(out)@ + spec_text_peer_id(),
{
    let a: [u8; 9] = [38, 112, 101, 101, 114, 95, 105, 100, 61];
    proof {
        assert(a@ =~= spec_text_peer_id());
    }
    push_slice(a.as_slice(), out);
}

fn push_text_port(out: &mut Vec<u8>)
    ensures
        final(out)@ == old(out)@ + spec_text_port(),
{
    let a: [u8; 6] = [38, 112, 111, 114, 116, 61];
    proof {
        assert(a@ =~= spec_text_port());
    }
    push_slice(a.as_slice(), out);
}

fn push_text_uploaded(out: &mut Vec<u8>)
    ensures
        final(out)@ == old(out)@ + spec_text_uploaded(),
{
    let a: [u8; 10] = [38, 117, 112, 108, 111, 97, 100, 101, 100, 61];
    proof {
        assert(a@ =~= spec_text_uploaded());
    }
    push_slice(a.as_slice(), out);
}

fn push_text_downloaded(out: &mut Vec<u8>)
    ensures
        final(out)@ == old(out)@ + spec_text_downloaded(),
{
    let a: [u8; 12] = [38, 100, 111, 119, 110, 108, 111, 97, 100, 101, 100, 61];
    proof {
        assert(a@ =~= spec_text_downloaded());
    }
    push_slice(a.as_slice(), out);
}

fn push_text_left(out: &mut Vec<u8>)
    ensures
        final(out)@ == old(out)@ + spec_text_left(),
{
    let a: [u8; 6] = [38, 108, 101, 102, 116, 61];
    proof {
        assert(a@ =~= spec_text_left());
    }
    push_slice(a.as_slice(), out);
}

fn push_text_compact(out: &mut Vec<u8>)
    ensures
        final(out)@ == old(out)@ + spec_text_compact(),
{
    let a: [u8; 9] = [38, 99, 111, 109, 112, 97, 99, 116, 61];
    proof {
        assert(a@ =~= spec_text_compact());
    }
    push_slice(a.as_slice(), out);
}

fn push_text_ip(out: &mut Vec<u8>)
    ensures
        final(out)@ == old(out)@ + spec_text_ip(),
{
    let a: [u8; 4] = [38, 105, 112, 61];
    proof {
        assert(a@ =~= spec_text_ip());
    }
    push_slice(a.as_slice(), out);
}

fn push_text_event(out: &mut Vec<u8>)
    ensures
        final(out)@ == old(out)@ + spec_text_event(),
{
    let a: [u8; 7] = [38, 101, 118, 101, 110, 116, 61];
    proof {
        assert(a@ =~= spec_text_event());
    }
    push_slice(a.as_slice(), out);
}

fn push_event_text(e: TrackerEvent, out: &mut Vec<u8>)
    ensures
        final(out)@ == old(out)@ + spec_event_text(e),
{
    match e {
        TrackerEvent::Started => {
            let a: [u8; 7] = [115, 116, 97, 114, 116, 101, 100];
            proof {
                assert(a@ =~= spec_event_text(e));
            }
            push_slice(a.as_slice(), out);
        },
        TrackerEvent::Stopped => {
            let a: [u8; 7] = [115, 116, 111, 112, 112, 101, 100];
            proof {
                assert(a@ =~= spec_event_text(e));
            }
            push_slice(a.as_slice(), out);
        },
        TrackerEvent::Completed => {
            let a: [u8; 9] = [99, 111, 109, 112, 108, 101, 116, 101, 100];
            proof {
                assert(a@ =~= spec_event_text(e));
            }
            push_slice(a.as_slice(), out);
        },
        TrackerEvent::Empty => {
            proof {
                assert(final(out)@ =~= old(out)@ + spec_event_text(e));
            }
        },
    }
}

} // verus!
