//! The tracker announce: the request URL, and the compact peer list of the response.
use vstd::prelude::*;
use vstd::string::StringExecFns;
use vstd::utf8::encode_utf8;

use crate::bencode::{decode, entry_views, parse_value, BValue, MalformedBencode, Value};
use crate::decimal::nat_text;
use crate::peer::own_peer_id;
use crate::text::{ascii_chars, hex_encode, hex_text, push_char, push_decimal, push_str};
use crate::torrent_file::{find_entry, str_entry, InfoHash};

verus! {

/// A swarm member: an IPv4 address and a TCP port.
#[derive(Debug, Clone, Copy, PartialEq, Eq)]
pub struct Peer {
    pub ip: [u8; 4],
    pub port: u16,
}

/// Why an announce failed.
#[derive(Debug, Clone, Copy, PartialEq, Eq)]
pub enum TrackerError {
    /// The HTTP exchange failed.
    Transport,
    /// The response is not bencode.
    Bencode(MalformedBencode),
    /// The response has no `peers` byte string.
    MissingPeers,
    /// The compact peer list is not a whole number of 6-byte records.
    PeersLength,
}

// ---------------------------------------------------------------------------
// The request
/// Whether the form serializer keeps byte `b` as it is.
pub open spec fn form_unchanged(b: u8) -> bool {
    b == 42 || b == 45 || b == 46 || (48 <= b <= 57) || (65 <= b <= 90) || b == 95 || (97 <= b
        <= 122)
}

pub open spec fn hex_upper(d: int) -> char {
    if d < 10 {
        (d + 48) as char
    } else {
        (d + 55) as char
    }
}

/// `application/x-www-form-urlencoded` text of bytes: unreserved bytes stay, a space becomes
/// `+`, any other byte becomes `%XX`.
pub open spec fn form_bytes(b: Seq<u8>) -> Seq<char>
    decreases b.len(),
{
    if b.len() == 0 {
        Seq::empty()
    } else {
        form_bytes(b.drop_last()) + if form_unchanged(b.last()) {
            seq![b.last() as char]
        } else if b.last() == 32 {
            seq!['+']
        } else {
            seq!['%', hex_upper(b.last() as int / 16), hex_upper(b.last() as int % 16)]
        }
    }
}

/// `name=value` pairs, form-encoded and joined by `&`.
pub open spec fn form_pairs(pairs: Seq<(Seq<char>, Seq<char>)>) -> Seq<char>
    decreases pairs.len(),
{
    if pairs.len() == 0 {
        Seq::empty()
    } else {
        let last = form_bytes(encode_utf8(pairs.last().0)) + seq!['='] + form_bytes(
            encode_utf8(pairs.last().1),
        );
        if pairs.len() == 1 {
            last
        } else {
            form_pairs(pairs.drop_last()) + seq!['&'] + last
        }
    }
}

pub open spec fn pair_views(pairs: Seq<(String, String)>) -> Seq<(Seq<char>, Seq<char>)> {
    Seq::new(pairs.len(), |i: int| (pairs[i].0@, pairs[i].1@))
}

/// Relies on `serde_urlencoded::to_string` on a sequence of string pairs: each pair
/// becomes `name=value`, both encoded by `form_urlencoded::byte_serialize`, and pairs are
/// joined by `&`. Its pair serializer takes 2-tuples and its key and value sinks take
/// strings, so on such input it does not fail.
#[verifier::external_body]
fn form_encode(pairs: &Vec<(String, String)>) -> (r: Option<String>)
    ensures
        r is Some,
        r matches Some(s) ==> s@ == form_pairs(pair_views(pairs@)),
{
    serde_urlencoded::to_string(pairs).ok()
}

/// The query parameters of an announce, but the info hash.
pub open spec fn request_pairs(left: nat) -> Seq<(Seq<char>, Seq<char>)> {
    seq![
        ("peer_id"@, ascii_chars(own_peer_id())),
        ("port"@, "6881"@),
        ("uploaded"@, "0"@),
        ("downloaded"@, "0"@),
        ("left"@, ascii_chars(nat_text(left))),
        ("compact"@, "1"@),
    ]
}

/// `%XX` for every byte, in lowercase hex.
pub open spec fn percent_all(b: Seq<u8>) -> Seq<char>
    decreases b.len(),
{
    if b.len() == 0 {
        Seq::empty()
    } else {
        percent_all(b.drop_last()) + seq!['%'] + hex_text(seq![b.last()])
    }
}

/// The info hash as the announce sends it: every byte percent-encoded.
pub fn urlencode(hash: &InfoHash) -> (r: String)
    ensures
        r@ == percent_all(hash.0@),
{
    let mut encoded = String::new();
    let mut i: usize = 0;
    while i < 20
        invariant
            i <= 20,
            hash.0@.len() == 20,
            encoded@ == percent_all(hash.0@.subrange(0, i as int)),
        decreases 20 - i,
    {
        let byte = [hash.0[i]];
        push_char(&mut encoded, '%');
        let digits = hex_encode(byte.as_slice());
        push_str(&mut encoded, digits.as_str());
        proof {
            assert(hash.0@.subrange(0, i + 1).drop_last() =~= hash.0@.subrange(0, i as int));
            assert(byte@ =~= seq![hash.0@[i as int]]);
        }
        i = i + 1;
    }
    assert(hash.0@.subrange(0, 20) =~= hash.0@);
    encoded
}

/// The announce URL: the tracker's URL, the form-encoded request, and the info hash.
pub fn tracker_url(announce: &str, info_hash: &InfoHash, left: usize) -> (r: String)
    ensures
        r@ == announce@ + seq!['?'] + form_pairs(request_pairs(left as nat))
            + "&info_hash="@ + percent_all(info_hash.0@),
{
    let mut id = String::new();
    push_ascii_id(&mut id);
    let mut left_text = String::new();
    push_decimal(&mut left_text, left as u64);
    let mut pairs: Vec<(String, String)> = Vec::new();
    pairs.push((String::from_str("peer_id"), id));
    pairs.push((String::from_str("port"), String::from_str("6881")));
    pairs.push((String::from_str("uploaded"), String::from_str("0")));
    pairs.push((String::from_str("downloaded"), String::from_str("0")));
    pairs.push((String::from_str("left"), left_text));
    pairs.push((String::from_str("compact"), String::from_str("1")));
    assert(pair_views(pairs@) =~= request_pairs(left as nat)) by {
        assert(Seq::<char>::empty() + ascii_chars(nat_text(left as nat)) =~= ascii_chars(
            nat_text(left as nat),
        ));
    }
    let query = match form_encode(&pairs) {
        Some(q) => q,
        None => {
            proof {
                assert(false);
            }
            String::new()
        },
    };
    let mut url = String::from_str(announce);
    push_char(&mut url, '?');
    push_str(&mut url, query.as_str());
    push_str(&mut url, "&info_hash=");
    let hash = urlencode(info_hash);
    push_str(&mut url, hash.as_str());
    url
}

fn push_ascii_id(s: &mut String)
    ensures
        final(s)@ == old(s)@ + ascii_chars(own_peer_id()),
{
    let id = crate::peer::peer_id();
    crate::text::push_ascii(s, id.as_slice());
}

// ---------------------------------------------------------------------------
// The response
pub open spec fn peers_key() -> Seq<u8> {
    seq![112u8, 101, 101, 114, 115]
}

/// Peer `i` of a compact peer list.
pub open spec fn compact_peer(b: Seq<u8>, i: int, p: Peer) -> bool {
    &&& p.ip@ == b.subrange(6 * i, 6 * i + 4)
    &&& p.port == b[6 * i + 4] * 256 + b[6 * i + 5]
}

/// Reads a compact peer list: 6 bytes per peer, the IPv4 address then the port, both
/// big-endian.
pub fn parse_compact_peers(b: &[u8]) -> (r: Result<Vec<Peer>, TrackerError>)
    ensures
        r is Ok <==> b@.len() % 6 == 0,
        r matches Ok(peers) ==> peers@.len() == b@.len() / 6 && forall|i: int|
            0 <= i < peers@.len() ==> compact_peer(b@, i, #[trigger] peers@[i]),
{
    if b.len() % 6 != 0 {
        return Err(TrackerError::PeersLength);
    }
    let mut peers: Vec<Peer> = Vec::new();
    let mut at: usize = 0;
    while at < b.len()
        invariant
            b@.len() % 6 == 0,
            at % 6 == 0,
            at <= b@.len(),
            peers@.len() == at / 6,
            forall|i: int| 0 <= i < peers@.len() ==> compact_peer(b@, i, #[trigger] peers@[i]),
        decreases b@.len() - at,
    {
        assert(at + 6 <= b@.len());
        let ip = [b[at], b[at + 1], b[at + 2], b[at + 3]];
        let port = (b[at + 4] as u16) * 256 + b[at + 5] as u16;
        assert(ip@ =~= b@.subrange(at as int, at + 4));
        peers.push(Peer { ip, port });
        at = at + 6;
    }
    Ok(peers)
}

/// Reads a tracker's response: a bencoded dictionary whose `peers` entry is a compact peer
/// list. Other entries are ignored.
pub fn parse_tracker_response(body: &[u8]) -> (r: Result<Vec<Peer>, TrackerError>)
    ensures
        r matches Err(TrackerError::Bencode(_)) <==> parse_value(body@) is None,
        r is Ok <==> (parse_value(body@) matches Some((BValue::Dict(d), _)) && str_entry(
            d,
            peers_key(),
        ) matches Some(p) && p.len() % 6 == 0),
        r matches Ok(peers) ==> (parse_value(body@) matches Some((BValue::Dict(d), _))
            && str_entry(d, peers_key()) matches Some(p) && peers@.len() == p.len() / 6 && forall|
            i: int,
        | 0 <= i < peers@.len() ==> compact_peer(p, i, #[trigger] peers@[i])),
{
    let v = match decode(body) {
        Ok((v, _)) => v,
        Err(e) => {
            return Err(TrackerError::Bencode(e));
        },
    };
    let d = match &v {
        Value::Dict(d) => d,
        _ => {
            return Err(TrackerError::MissingPeers);
        },
    };
    assert(v@ == BValue::Dict(entry_views(d@))) by {
        assert(entry_views(d@) =~= match v@ {
            BValue::Dict(x) => x,
            _ => Seq::empty(),
        });
    }
    let key = vec![112u8, 101, 101, 114, 115];
    assert(key@ =~= peers_key());
    match find_entry(d, key.as_slice()) {
        Some(Value::Bytes(p)) => match parse_compact_peers(p.as_slice()) {
            Ok(peers) => Ok(peers),
            Err(_) => Err(TrackerError::PeersLength),
        },
        _ => Err(TrackerError::MissingPeers),
    }
}

impl Peer {
    /// `a.b.c.d:port`.
    pub fn address_text(&self) -> (r: String)
        ensures
            r@ == ascii_chars(nat_text(self.ip@[0] as nat)) + seq!['.'] + ascii_chars(
                nat_text(self.ip@[1] as nat),
            ) + seq!['.'] + ascii_chars(nat_text(self.ip@[2] as nat)) + seq!['.'] + ascii_chars(
                nat_text(self.ip@[3] as nat),
            ) + seq![':'] + ascii_chars(nat_text(self.port as nat)),
    {
        let mut s = String::new();
        push_decimal(&mut s, self.ip[0] as u64);
        push_char(&mut s, '.');
        push_decimal(&mut s, self.ip[1] as u64);
        push_char(&mut s, '.');
        push_decimal(&mut s, self.ip[2] as u64);
        push_char(&mut s, '.');
        push_decimal(&mut s, self.ip[3] as u64);
        push_char(&mut s, ':');
        push_decimal(&mut s, self.port as u64);
        assert(s@ =~= ascii_chars(nat_text(self.ip@[0] as nat)) + seq!['.'] + ascii_chars(
            nat_text(self.ip@[1] as nat),
        ) + seq!['.'] + ascii_chars(nat_text(self.ip@[2] as nat)) + seq!['.'] + ascii_chars(
            nat_text(self.ip@[3] as nat),
        ) + seq![':'] + ascii_chars(nat_text(self.port as nat)));
        s
    }
}

} // verus!
