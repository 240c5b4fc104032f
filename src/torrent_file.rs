//! The metadata of a single-file torrent, read from bencode, and its info hash.
use vstd::prelude::*;
use vstd::slice::slice_to_vec;
use vstd::utf8::{decode_utf8, encode_utf8, valid_utf8};

use crate::bencode::{
    canon, canon_entries, canonical, copy_value, decode, encodable, encode, encoding,
    entries_canonical, entry_views, key_less, keys_ascending, law_canonical_unchanged,
    law_decode_encode, law_decode_encode_ordered, lemma_ascending_everywhere,
    lemma_ascending_unique, lemma_canon_canonical, lemma_key_less_asymmetric, lemma_sort_entries,
    entries_encoding, parse_value, sort_entries, str_encoding, BValue, MalformedBencode, Value,
};
use crate::decimal::{int_text, nat_text};
use crate::digest::{sha1_digest, sha1_of};
use crate::text::{ascii_chars, hex_encode, hex_text, push_decimal, push_str};

verus! {

/// The SHA-1 hash of one piece.
#[derive(Debug, Clone, Copy, PartialEq, Eq)]
pub struct Piece(pub [u8; 20]);

/// The SHA-1 hash of the bencoded info dictionary: the swarm's identifier.
#[derive(Debug, Clone, Copy, PartialEq, Eq)]
pub struct InfoHash(pub [u8; 20]);

#[derive(Debug)]
pub struct Info {
    pub length: usize,
    pub name: String,
    pub piece_length: usize,
    pub pieces: Vec<Piece>,
    /// The other entries of the info dictionary, kept so that the info hash covers them.
    pub extra: Vec<(Vec<u8>, Value)>,
}

#[derive(Debug)]
pub struct TorrentFile {
    pub announce: String,
    pub info: Info,
}

/// Why a torrent's metadata cannot be read.
#[derive(Debug, Clone, Copy, PartialEq, Eq)]
pub enum MalformedTorrent {
    Bencode(MalformedBencode),
    MissingField,
    WrongType,
    PiecesLength,
    /// A length that a bencode integer cannot hold.
    TooLarge,
}

// ---------------------------------------------------------------------------
// Dictionary keys
pub open spec fn announce_key() -> Seq<u8> {
    seq![97u8, 110, 110, 111, 117, 110, 99, 101]
}

pub open spec fn info_key() -> Seq<u8> {
    seq![105u8, 110, 102, 111]
}

pub open spec fn length_key() -> Seq<u8> {
    seq![108u8, 101, 110, 103, 116, 104]
}

pub open spec fn name_key() -> Seq<u8> {
    seq![110u8, 97, 109, 101]
}

pub open spec fn piece_length_key() -> Seq<u8> {
    seq![112u8, 105, 101, 99, 101, 32, 108, 101, 110, 103, 116, 104]
}

pub open spec fn pieces_key() -> Seq<u8> {
    seq![112u8, 105, 101, 99, 101, 115]
}

// ---------------------------------------------------------------------------
// Reading dictionaries
/// The value of the first entry with key `key`.
pub open spec fn lookup(entries: Seq<(Seq<u8>, BValue)>, key: Seq<u8>) -> Option<BValue>
    decreases entries.len(),
{
    if entries.len() == 0 {
        None
    } else if entries[0].0 == key {
        Some(entries[0].1)
    } else {
        lookup(entries.drop_first(), key)
    }
}

pub open spec fn int_entry(entries: Seq<(Seq<u8>, BValue)>, key: Seq<u8>) -> Option<int> {
    match lookup(entries, key) {
        Some(BValue::Int(i)) => Some(i),
        _ => None,
    }
}

pub open spec fn str_entry(entries: Seq<(Seq<u8>, BValue)>, key: Seq<u8>) -> Option<Seq<u8>> {
    match lookup(entries, key) {
        Some(BValue::Str(s)) => Some(s),
        _ => None,
    }
}

pub fn bytes_equal(a: &[u8], b: &[u8]) -> (r: bool)
    ensures
        r == (a@ == b@),
{
    if a.len() != b.len() {
        return false;
    }
    let mut i: usize = 0;
    while i < a.len()
        invariant
            a@.len() == b@.len(),
            i <= a@.len(),
            a@.subrange(0, i as int) == b@.subrange(0, i as int),
        decreases a@.len() - i,
    {
        if a[i] != b[i] {
            assert(a@[i as int] != b@[i as int]);
            return false;
        }
        assert(a@.subrange(0, i + 1) =~= a@.subrange(0, i as int).push(a@[i as int]));
        assert(b@.subrange(0, i + 1) =~= b@.subrange(0, i as int).push(b@[i as int]));
        i = i + 1;
    }
    assert(a@ =~= a@.subrange(0, i as int));
    assert(b@ =~= b@.subrange(0, i as int));
    true
}

/// The value of the first entry with key `key`.
pub fn find_entry<'a>(entries: &'a Vec<(Vec<u8>, Value)>, key: &[u8]) -> (r: Option<&'a Value>)
    ensures
        match lookup(entry_views(entries@), key@) {
            Some(v) => r matches Some(x) && x@ == v,
            None => r is None,
        },
{
    let mut i: usize = 0;
    assert(entry_views(entries@).subrange(0, entries@.len() as int) =~= entry_views(entries@));
    while i < entries.len()
        invariant
            i <= entries@.len(),
            lookup(entry_views(entries@), key@) == lookup(
                entry_views(entries@).subrange(i as int, entries@.len() as int),
                key@,
            ),
        decreases entries@.len() - i,
    {
        let ghost rest = entry_views(entries@).subrange(i as int, entries@.len() as int);
        assert(rest[0] == (entries@[i as int].0@, entries@[i as int].1@));
        if bytes_equal(entries[i].0.as_slice(), key) {
            return Some(&entries[i].1);
        }
        assert(rest.drop_first() =~= entry_views(entries@).subrange(i + 1, entries@.len() as int));
        i = i + 1;
    }
    None
}

/// Relies on `String::from_utf8`: text exactly when `b` is valid UTF-8, holding the
/// characters that `b` encodes.
#[verifier::external_body]
fn utf8_text(b: Vec<u8>) -> (r: Option<String>)
    ensures
        r is Some <==> valid_utf8(b@),
        r matches Some(s) ==> s@ == decode_utf8(b@),
{
    String::from_utf8(b).ok()
}

// ---------------------------------------------------------------------------
// Pieces
/// The hashes one after another, as the `pieces` field holds them.
pub open spec fn piece_bytes(pieces: Seq<Piece>) -> Seq<u8>
    decreases pieces.len(),
{
    if pieces.len() == 0 {
        Seq::empty()
    } else {
        piece_bytes(pieces.drop_last()) + pieces.last().0@
    }
}

/// How many pieces a file of `length` bytes has.
pub open spec fn piece_count(length: nat, piece_length: nat) -> nat
    recommends
        piece_length > 0,
{
    ((length + piece_length - 1) / piece_length as int) as nat
}

/// Splits the `pieces` field into 20-byte hashes.
pub fn split_pieces(p: &[u8]) -> (r: Vec<Piece>)
    requires
        p@.len() % 20 == 0,
    ensures
        r@.len() == p@.len() / 20,
        piece_bytes(r@) == p@,
        forall|i: int|
            0 <= i < r@.len() ==> (#[trigger] r@[i]).0@ == p@.subrange(20 * i, 20 * i + 20),
{
    let mut r: Vec<Piece> = Vec::new();
    let mut start: usize = 0;
    while start < p.len()
        invariant
            p@.len() % 20 == 0,
            start % 20 == 0,
            start <= p@.len(),
            r@.len() == start / 20,
            piece_bytes(r@) == p@.subrange(0, start as int),
            forall|i: int|
                0 <= i < r@.len() ==> (#[trigger] r@[i]).0@ == p@.subrange(20 * i, 20 * i + 20),
        decreases p@.len() - start,
    {
        assert(start + 20 <= p@.len());
        let mut buf = [0u8; 20];
        let mut j: usize = 0;
        while j < 20
            invariant
                start + 20 <= p@.len(),
                p@.len() <= usize::MAX,
                j <= 20,
                buf@.len() == 20,
                forall|k: int| 0 <= k < j ==> buf@[k] == p@[start + k],
            decreases 20 - j,
        {
            buf[j] = p[start + j];
            j = j + 1;
        }
        assert(buf@ =~= p@.subrange(start as int, start + 20));
        let ghost before = r@;
        r.push(Piece(buf));
        assert(r@.drop_last() =~= before);
        assert(p@.subrange(0, start + 20) =~= p@.subrange(0, start as int) + buf@);
        start = start + 20;
    }
    assert(p@.subrange(0, start as int) =~= p@);
    r
}

/// Joins the hashes back into the `pieces` field.
pub fn join_pieces(pieces: &Vec<Piece>) -> (r: Vec<u8>)
    ensures
        r@ == piece_bytes(pieces@),
{
    let mut r: Vec<u8> = Vec::new();
    let mut i: usize = 0;
    while i < pieces.len()
        invariant
            i <= pieces@.len(),
            r@ == piece_bytes(pieces@.subrange(0, i as int)),
        decreases pieces@.len() - i,
    {
        let ghost before = r@;
        let mut j: usize = 0;
        while j < 20
            invariant
                i < pieces@.len(),
                j <= 20,
                r@ == before + pieces@[i as int].0@.subrange(0, j as int),
            decreases 20 - j,
        {
            r.push(pieces[i].0[j]);
            j = j + 1;
            assert(r@ =~= before + pieces@[i as int].0@.subrange(0, j as int));
        }
        assert(pieces@.subrange(0, i + 1).drop_last() =~= pieces@.subrange(0, i as int));
        assert(pieces@[i as int].0@.subrange(0, 20) =~= pieces@[i as int].0@);
        i = i + 1;
    }
    assert(pieces@.subrange(0, i as int) =~= pieces@);
    r
}

// ---------------------------------------------------------------------------
// The info dictionary
/// The keys that `Info` holds in fields of their own.
pub open spec fn known_key(k: Seq<u8>) -> bool {
    k == length_key() || k == name_key() || k == piece_length_key() || k == pieces_key()
}

/// The entries of `d` whose keys `Info` has no field for, in their order.
pub open spec fn other_entries(d: Seq<(Seq<u8>, BValue)>) -> Seq<(Seq<u8>, BValue)>
    decreases d.len(),
{
    if d.len() == 0 {
        Seq::empty()
    } else {
        other_entries(d.drop_last()) + if known_key(d.last().0) {
            Seq::empty()
        } else {
            seq![d.last()]
        }
    }
}

/// The entries of the four fields of `info`, in key order.
pub open spec fn field_entries(info: Info) -> Seq<(Seq<u8>, BValue)> {
    seq![
        (length_key(), BValue::Int(info.length as int)),
        (name_key(), BValue::Str(encode_utf8(info.name@))),
        (piece_length_key(), BValue::Int(info.piece_length as int)),
        (pieces_key(), BValue::Str(piece_bytes(info.pieces@))),
    ]
}

/// The info dictionary of `info`: the four fields, in key order, then the other entries.
pub open spec fn info_value(info: Info) -> BValue {
    BValue::Dict(field_entries(info) + entry_views(info.extra@))
}

/// The entries of `d` that `Info` keeps have the values of `info`.
pub open spec fn describes(d: Seq<(Seq<u8>, BValue)>, info: Info) -> bool {
    &&& int_entry(d, length_key()) == Some(info.length as int)
    &&& str_entry(d, name_key()) == Some(encode_utf8(info.name@))
    &&& int_entry(d, piece_length_key()) == Some(info.piece_length as int)
    &&& str_entry(d, pieces_key()) == Some(piece_bytes(info.pieces@))
    &&& entry_views(info.extra@) == other_entries(d)
}

/// `v` is an info dictionary that `Info` can hold.
pub open spec fn info_valid(v: BValue) -> bool {
    match v {
        BValue::Dict(d) => match (
            int_entry(d, length_key()),
            str_entry(d, name_key()),
            int_entry(d, piece_length_key()),
            str_entry(d, pieces_key()),
        ) {
            (Some(len), Some(name), Some(pl), Some(p)) => {
                &&& 0 <= len <= usize::MAX && len <= i64::MAX
                &&& valid_utf8(name)
                &&& 0 < pl <= usize::MAX && pl <= i64::MAX
                &&& p.len() % 20 == 0
                &&& p.len() / 20 == piece_count(len as nat, pl as nat)
            },
            _ => false,
        },
        _ => false,
    }
}

/// The entries of `v` that `TorrentFile` keeps have the values of `t`.
pub open spec fn torrent_describes(v: BValue, t: TorrentFile) -> bool {
    match v {
        BValue::Dict(d) => {
            &&& str_entry(d, announce_key()) == Some(encode_utf8(t.announce@))
            &&& match lookup(d, info_key()) {
                Some(BValue::Dict(i)) => describes(i, t.info),
                _ => false,
            }
        },
        _ => false,
    }
}

/// The value at the start of `b` decodes and holds what `t` holds.
pub open spec fn file_describes(b: Seq<u8>, t: TorrentFile) -> bool {
    match parse_value(b) {
        Some((v, _)) => torrent_describes(v, t),
        None => false,
    }
}

/// `v` is a torrent's metadata that `TorrentFile` can hold.
pub open spec fn torrent_valid(v: BValue) -> bool {
    match v {
        BValue::Dict(d) => match (str_entry(d, announce_key()), lookup(d, info_key())) {
            (Some(a), Some(i)) => valid_utf8(a) && info_valid(i),
            _ => false,
        },
        _ => false,
    }
}

fn announce_key_bytes() -> (r: Vec<u8>)
    ensures
        r@ == announce_key(),
{
    let r = vec![97u8, 110, 110, 111, 117, 110, 99, 101];
    assert(r@ =~= announce_key());
    r
}

fn info_key_bytes() -> (r: Vec<u8>)
    ensures
        r@ == info_key(),
{
    let r = vec![105u8, 110, 102, 111];
    assert(r@ =~= info_key());
    r
}

fn length_key_bytes() -> (r: Vec<u8>)
    ensures
        r@ == length_key(),
{
    let r = vec![108u8, 101, 110, 103, 116, 104];
    assert(r@ =~= length_key());
    r
}

fn name_key_bytes() -> (r: Vec<u8>)
    ensures
        r@ == name_key(),
{
    let r = vec![110u8, 97, 109, 101];
    assert(r@ =~= name_key());
    r
}

fn piece_length_key_bytes() -> (r: Vec<u8>)
    ensures
        r@ == piece_length_key(),
{
    let r = vec![112u8, 105, 101, 99, 101, 32, 108, 101, 110, 103, 116, 104];
    assert(r@ =~= piece_length_key());
    r
}

fn pieces_key_bytes() -> (r: Vec<u8>)
    ensures
        r@ == pieces_key(),
{
    let r = vec![112u8, 105, 101, 99, 101, 115];
    assert(r@ =~= pieces_key());
    r
}

fn is_known_key(k: &[u8]) -> (r: bool)
    ensures
        r == known_key(k@),
{
    bytes_equal(k, length_key_bytes().as_slice()) || bytes_equal(k, name_key_bytes().as_slice())
        || bytes_equal(k, piece_length_key_bytes().as_slice()) || bytes_equal(
        k,
        pieces_key_bytes().as_slice(),
    )
}

/// Copies of the entries whose keys `Info` has no field for.
fn other_entries_of(d: &Vec<(Vec<u8>, Value)>) -> (r: Vec<(Vec<u8>, Value)>)
    ensures
        entry_views(r@) == other_entries(entry_views(d@)),
{
    let mut r: Vec<(Vec<u8>, Value)> = Vec::new();
    let mut k: usize = 0;
    while k < d.len()
        invariant
            k <= d@.len(),
            entry_views(r@) == other_entries(entry_views(d@.subrange(0, k as int))),
        decreases d@.len() - k,
    {
        let ghost pv = entry_views(d@.subrange(0, k + 1));
        assert(pv.drop_last() =~= entry_views(d@.subrange(0, k as int)));
        assert(pv.last() == (d@[k as int].0@, d@[k as int].1@));
        if !is_known_key(d[k].0.as_slice()) {
            let key = slice_to_vec(d[k].0.as_slice());
            let value = copy_value(&d[k].1);
            let ghost before = r@;
            r.push((key, value));
            assert(entry_views(r@) =~= entry_views(before) + seq![pv.last()]);
        } else {
            assert(other_entries(pv) =~= other_entries(pv.drop_last()));
        }
        k = k + 1;
    }
    assert(d@.subrange(0, k as int) =~= d@);
    r
}

/// Reads text out of a byte-string entry.
fn text_entry(d: &Vec<(Vec<u8>, Value)>, key: &[u8]) -> (r: Result<String, MalformedTorrent>)
    ensures
        r is Ok <==> (str_entry(entry_views(d@), key@) matches Some(t) && valid_utf8(t)),
        r matches Ok(s) ==> str_entry(entry_views(d@), key@) == Some(encode_utf8(s@)),
{
    match find_entry(d, key) {
        Some(Value::Bytes(b)) => match utf8_text(slice_to_vec(b.as_slice())) {
            Some(s) => {
                proof {
                    vstd::utf8::decode_utf8_encode_utf8(b@);
                }
                Ok(s)
            },
            None => Err(MalformedTorrent::WrongType),
        },
        Some(_) => Err(MalformedTorrent::WrongType),
        None => Err(MalformedTorrent::MissingField),
    }
}

/// Reads a nonnegative integer entry that fits in `usize`.
fn size_entry(d: &Vec<(Vec<u8>, Value)>, key: &[u8]) -> (r: Result<usize, MalformedTorrent>)
    ensures
        r is Ok <==> (int_entry(entry_views(d@), key@) matches Some(i) && 0 <= i <= usize::MAX),
        r matches Ok(n) ==> int_entry(entry_views(d@), key@) == Some(n as int),
{
    match find_entry(d, key) {
        Some(Value::Integer(i)) => {
            if *i < 0 || *i as u64 > usize::MAX as u64 {
                Err(MalformedTorrent::WrongType)
            } else {
                Ok(*i as usize)
            }
        },
        Some(_) => Err(MalformedTorrent::WrongType),
        None => Err(MalformedTorrent::MissingField),
    }
}

impl Info {
    /// The invariant of a torrent's info: a positive piece length, lengths that bencode
    /// integers hold, and one hash for each piece of the file.
    pub open spec fn wf(&self) -> bool {
        &&& 0 < self.piece_length <= i64::MAX
        &&& self.length <= i64::MAX
        &&& self.pieces@.len() == piece_count(self.length as nat, self.piece_length as nat)
    }

    /// Reads an info dictionary.
    pub fn from_value(v: &Value) -> (r: Result<Info, MalformedTorrent>)
        ensures
            r is Ok <==> info_valid(v@),
            r matches Ok(info) ==> (v@ matches BValue::Dict(d) && describes(d, info)) && info.wf(),
    {
        let d = match v {
            Value::Dict(d) => d,
            _ => {
                return Err(MalformedTorrent::WrongType);
            },
        };
        assert(v@ == BValue::Dict(entry_views(d@))) by {
            assert(entry_views(d@) =~= match v@ {
                BValue::Dict(x) => x,
                _ => Seq::empty(),
            });
        }
        let length = size_entry(d, length_key_bytes().as_slice())?;
        let name = text_entry(d, name_key_bytes().as_slice())?;
        let piece_length = size_entry(d, piece_length_key_bytes().as_slice())?;
        if piece_length == 0 {
            return Err(MalformedTorrent::WrongType);
        }
        let pieces = match find_entry(d, pieces_key_bytes().as_slice()) {
            Some(Value::Bytes(p)) => p,
            Some(_) => {
                return Err(MalformedTorrent::WrongType);
            },
            None => {
                return Err(MalformedTorrent::MissingField);
            },
        };
        if pieces.len() % 20 != 0 {
            return Err(MalformedTorrent::PiecesLength);
        }
        let count = (length as u128 + piece_length as u128 - 1) / piece_length as u128;
        if (pieces.len() / 20) as u128 != count {
            return Err(MalformedTorrent::PiecesLength);
        }
        if length as u64 > i64::MAX as u64 || piece_length as u64 > i64::MAX as u64 {
            return Err(MalformedTorrent::TooLarge);
        }
        let hashes = split_pieces(pieces.as_slice());
        let extra = other_entries_of(d);
        Ok(Info { length, name, piece_length, pieces: hashes, extra })
    }

    /// The info dictionary as a bencode value.
    pub fn to_value(&self) -> (r: Value)
        requires
            self.length <= i64::MAX,
            self.piece_length <= i64::MAX,
        ensures
            r@ == info_value(*self),
    {
        let name = slice_to_vec(self.name.as_str().as_bytes());
        let mut entries: Vec<(Vec<u8>, Value)> = Vec::new();
        entries.push((length_key_bytes(), Value::Integer(self.length as i64)));
        entries.push((name_key_bytes(), Value::Bytes(name)));
        entries.push((piece_length_key_bytes(), Value::Integer(self.piece_length as i64)));
        entries.push((pieces_key_bytes(), Value::Bytes(join_pieces(&self.pieces))));
        let ghost known = entries@;
        let mut k: usize = 0;
        while k < self.extra.len()
            invariant
                k <= self.extra@.len(),
                known.len() == 4,
                entries@.len() == 4 + k,
                entries@.subrange(0, 4) == known,
                entry_views(entries@) == entry_views(known) + entry_views(
                    self.extra@.subrange(0, k as int),
                ),
            decreases self.extra@.len() - k,
        {
            let key = slice_to_vec(self.extra[k].0.as_slice());
            let value = copy_value(&self.extra[k].1);
            let ghost before = entries@;
            entries.push((key, value));
            assert(entries@.subrange(0, 4) =~= before.subrange(0, 4));
            assert(entry_views(entries@) =~= entry_views(before).push((key@, value@)));
            assert(entry_views(self.extra@.subrange(0, k + 1)) =~= entry_views(
                self.extra@.subrange(0, k as int),
            ).push((self.extra@[k as int].0@, self.extra@[k as int].1@)));
            assert(entry_views(entries@) =~= entry_views(known) + entry_views(
                self.extra@.subrange(0, k + 1),
            ));
            k = k + 1;
        }
        assert(self.extra@.subrange(0, k as int) =~= self.extra@);
        let r = Value::Dict(entries);
        assert(r@ =~= info_value(*self)) by {
            assert(entry_views(entries@) =~= match r@ {
                BValue::Dict(x) => x,
                _ => Seq::empty(),
            });
            assert(entry_views(known) =~= seq![
                (length_key(), BValue::Int(self.length as int)),
                (name_key(), BValue::Str(encode_utf8(self.name@))),
                (piece_length_key(), BValue::Int(self.piece_length as int)),
                (pieces_key(), BValue::Str(piece_bytes(self.pieces@))),
            ]);
            assert(entry_views(entries@) =~= match info_value(*self) {
                BValue::Dict(x) => x,
                _ => Seq::empty(),
            });
        }
        r
    }

    /// The info hash: SHA-1 of the canonical bencoding of the info dictionary.
    pub fn hash(&self) -> (r: Result<InfoHash, MalformedTorrent>)
        ensures
            r is Ok <==> (self.length <= i64::MAX && self.piece_length <= i64::MAX),
            r matches Ok(h) ==> h.0@ == sha1_of(encoding(canon(info_value(*self)))),
    {
        if self.length as u64 > i64::MAX as u64 || self.piece_length as u64 > i64::MAX as u64 {
            return Err(MalformedTorrent::TooLarge);
        }
        let bytes = encode(&self.to_value());
        Ok(InfoHash(sha1_digest(bytes.as_slice())))
    }
}

impl TorrentFile {
    /// Reads a torrent's metadata from a decoded value.
    pub fn from_value(v: &Value) -> (r: Result<TorrentFile, MalformedTorrent>)
        ensures
            r is Ok <==> torrent_valid(v@),
            r matches Ok(t) ==> torrent_describes(v@, t) && t.info.wf(),
    {
        let d = match v {
            Value::Dict(d) => d,
            _ => {
                return Err(MalformedTorrent::WrongType);
            },
        };
        assert(v@ == BValue::Dict(entry_views(d@))) by {
            assert(entry_views(d@) =~= match v@ {
                BValue::Dict(x) => x,
                _ => Seq::empty(),
            });
        }
        let announce = text_entry(d, announce_key_bytes().as_slice())?;
        let info = match find_entry(d, info_key_bytes().as_slice()) {
            Some(iv) => Info::from_value(iv)?,
            None => {
                return Err(MalformedTorrent::MissingField);
            },
        };
        Ok(TorrentFile { announce, info })
    }

    /// Reads a torrent's metadata from the bytes of a `.torrent` file.
    pub fn from_bytes(b: &[u8]) -> (r: Result<TorrentFile, MalformedTorrent>)
        ensures
            r matches Err(MalformedTorrent::Bencode(_)) <==> parse_value(b@) is None,
            r is Ok <==> (parse_value(b@) matches Some((v, _)) && torrent_valid(v)),
            r matches Ok(t) ==> file_describes(b@, t) && t.info.wf(),
    {
        match decode(b) {
            Ok((v, _)) => match TorrentFile::from_value(&v) {
                Ok(t) => Ok(t),
                Err(MalformedTorrent::Bencode(e)) => Err(MalformedTorrent::WrongType),
                Err(e) => Err(e),
            },
            Err(e) => Err(MalformedTorrent::Bencode(e)),
        }
    }
}

/// The bytes that the info hash is computed over are canonical bencode: decoding them gives
/// back the info dictionary, keys in order, so the hash is a function of the typed `Info`.
pub proof fn law_info_hash_input(info: Info)
    requires
        encodable(info_value(info)),
    ensures
        canonical(canon(info_value(info))),
        parse_value(encoding(canon(info_value(info)))) == Some(
            (canon(info_value(info)), encoding(canon(info_value(info))).len()),
        ),
{
    lemma_canon_canonical(info_value(info));
    law_decode_encode_ordered(info_value(info));
}

/// An `Info` with no other entries is hashed over its four fields in the order listed,
/// which is already key order.
pub proof fn law_info_encoding_canonical(info: Info)
    requires
        info.length <= i64::MAX,
        info.piece_length <= i64::MAX,
        info.extra@.len() == 0,
    ensures
        canon(info_value(info)) == info_value(info),
        canonical(info_value(info)),
        parse_value(encoding(info_value(info))) == Some(
            (info_value(info), encoding(info_value(info)).len()),
        ),
{
    reveal_with_fuel(key_less, 7);
    let d = match info_value(info) {
        BValue::Dict(d) => d,
        _ => Seq::empty(),
    };
    assert(entry_views(info.extra@) =~= Seq::<(Seq<u8>, BValue)>::empty());
    assert(d.len() == 4);
    assert(key_less(length_key(), name_key()));
    assert(key_less(name_key(), piece_length_key()));
    assert(key_less(piece_length_key(), pieces_key()));
    let d1 = d.drop_first();
    let d2 = d1.drop_first();
    let d3 = d2.drop_first();
    let d4 = d3.drop_first();
    assert(d4 =~= Seq::<(Seq<u8>, BValue)>::empty());
    assert(entries_canonical(d4));
    assert(canonical(d[0].1) && canonical(d[1].1) && canonical(d[2].1) && canonical(d[3].1));
    assert(d3.len() == 1 && d3[0] == d[3]);
    assert(entries_canonical(d3));
    assert(d2.len() == 2 && d2[0] == d[2] && d2[1] == d[3]);
    assert(entries_canonical(d2));
    assert(d1.len() == 3 && d1[0] == d[1] && d1[1] == d[2]);
    assert(entries_canonical(d1));
    assert(entries_canonical(d));
    assert(canonical(info_value(info)));
    law_decode_encode(info_value(info));
    law_canonical_unchanged(info_value(info));
}

// ---------------------------------------------------------------------------
// Text
/// One line of lowercase hex for each piece hash.
pub open spec fn hashes_text(pieces: Seq<Piece>) -> Seq<char>
    decreases pieces.len(),
{
    if pieces.len() == 0 {
        Seq::empty()
    } else {
        hashes_text(pieces.drop_last()) + hex_text(pieces.last().0@) + "\n"@
    }
}

/// What `info` prints: tracker URL, length, info hash, piece length and the piece hashes.
pub open spec fn description(t: TorrentFile) -> Seq<char> {
    "Tracker URL: "@ + t.announce@ + "\n"@ + "Length: "@ + ascii_chars(nat_text(t.info.length as nat))
        + "\n"@ + "Info Hash: "@ + hex_text(sha1_of(encoding(canon(info_value(t.info))))) + "\n"@
        + "Piece Length: "@ + ascii_chars(nat_text(t.info.piece_length as nat)) + "\n"@
        + "Piece Hashes:\n"@ + hashes_text(t.info.pieces@)
}

impl TorrentFile {
    /// The torrent's summary, one field per line.
    pub fn describe(&self) -> (r: String)
        requires
            self.info.length <= i64::MAX,
            self.info.piece_length <= i64::MAX,
        ensures
            r@ == description(*self),
    {
        let hash = match self.info.hash() {
            Ok(h) => h,
            Err(_) => {
                return String::new();
            },
        };
        let mut s = String::new();
        push_str(&mut s, "Tracker URL: ");
        push_str(&mut s, self.announce.as_str());
        push_str(&mut s, "\n");
        push_str(&mut s, "Length: ");
        push_decimal(&mut s, self.info.length as u64);
        push_str(&mut s, "\n");
        push_str(&mut s, "Info Hash: ");
        let hex = hex_encode(hash.0.as_slice());
        push_str(&mut s, hex.as_str());
        push_str(&mut s, "\n");
        push_str(&mut s, "Piece Length: ");
        push_decimal(&mut s, self.info.piece_length as u64);
        push_str(&mut s, "\n");
        push_str(&mut s, "Piece Hashes:\n");
        let ghost head = s@;
        let mut i: usize = 0;
        while i < self.info.pieces.len()
            invariant
                i <= self.info.pieces@.len(),
                s@ == head + hashes_text(self.info.pieces@.subrange(0, i as int)),
            decreases self.info.pieces@.len() - i,
        {
            let line = hex_encode(self.info.pieces[i].0.as_slice());
            push_str(&mut s, line.as_str());
            push_str(&mut s, "\n");
            assert(self.info.pieces@.subrange(0, i + 1).drop_last() =~= self.info.pieces@.subrange(
                0,
                i as int,
            ));
            i = i + 1;
        }
        assert(self.info.pieces@.subrange(0, i as int) =~= self.info.pieces@);
        s
    }
}

// ---------------------------------------------------------------------------
// Re-encoding the info dictionary
pub open spec fn keys_distinct(d: Seq<(Seq<u8>, BValue)>) -> bool {
    forall|i: int, j: int| 0 <= i < j < d.len() ==> #[trigger] d[i].0 != #[trigger] d[j].0
}

proof fn lemma_canonical_entries(d: Seq<(Seq<u8>, BValue)>)
    requires
        entries_canonical(d),
    ensures
        keys_ascending(d),
        keys_distinct(d),
        forall|i: int| 0 <= i < d.len() ==> canonical(#[trigger] d[i].1),
    decreases d.len(),
{
    if d.len() > 0 {
        let t = d.drop_first();
        lemma_canonical_entries(t);
        assert forall|i: int| 0 <= i < d.len() - 1 implies key_less(#[trigger] d[i].0, d[i + 1].0) by {
            if i > 0 {
                assert(d[i] == t[i - 1] && d[i + 1] == t[i]);
            }
        }
        assert forall|i: int| 0 <= i < d.len() implies canonical(#[trigger] d[i].1) by {
            if i > 0 {
                assert(d[i] == t[i - 1]);
            }
        }
        assert forall|i: int, j: int| 0 <= i < j < d.len() implies #[trigger] d[i].0
            != #[trigger] d[j].0 by {
            lemma_ascending_everywhere(d, i, j);
            if d[i].0 == d[j].0 {
                lemma_key_less_asymmetric(d[i].0, d[j].0);
            }
        }
    }
}

proof fn lemma_lookup_finds(d: Seq<(Seq<u8>, BValue)>, i: int)
    requires
        keys_distinct(d),
        0 <= i < d.len(),
    ensures
        lookup(d, d[i].0) == Some(d[i].1),
    decreases i,
{
    if i > 0 {
        let t = d.drop_first();
        assert(d[0].0 != d[i].0);
        assert(t[i - 1] == d[i]);
        lemma_lookup_finds(t, i - 1);
    }
}

proof fn lemma_lookup_member(d: Seq<(Seq<u8>, BValue)>, k: Seq<u8>)
    requires
        lookup(d, k) is Some,
    ensures
        d.to_set().contains((k, lookup(d, k)->0)),
    decreases d.len(),
{
    if d[0].0 == k {
        assert(d[0] == (k, lookup(d, k)->0));
    } else {
        let t = d.drop_first();
        lemma_lookup_member(t, k);
        let i = choose|i: int| 0 <= i < t.len() && t[i] == (k, lookup(d, k)->0);
        assert(d[i + 1] == t[i]);
    }
}

proof fn lemma_other_entries(d: Seq<(Seq<u8>, BValue)>)
    requires
        keys_distinct(d),
    ensures
        keys_distinct(other_entries(d)),
        forall|x: (Seq<u8>, BValue)|
            #[trigger] other_entries(d).to_set().contains(x) ==> d.to_set().contains(x)
                && !known_key(x.0),
        forall|x: (Seq<u8>, BValue)|
            #[trigger] d.to_set().contains(x) && !known_key(x.0) ==> other_entries(
                d,
            ).to_set().contains(x),
    decreases d.len(),
{
    if d.len() > 0 {
        let p = d.drop_last();
        assert forall|i: int, j: int| 0 <= i < j < p.len() implies #[trigger] p[i].0
            != #[trigger] p[j].0 by {
            assert(p[i] == d[i] && p[j] == d[j]);
        }
        lemma_other_entries(p);
        let o = other_entries(p);
        let r = other_entries(d);
        assert(p =~= d.drop_last());
        assert(r == o + if known_key(d.last().0) {
            Seq::<(Seq<u8>, BValue)>::empty()
        } else {
            seq![d.last()]
        });
        assert forall|x: (Seq<u8>, BValue)| r.to_set().contains(x) <==> (d.to_set().contains(x)
            && !known_key(x.0)) by {
            if r.to_set().contains(x) {
                let i = choose|i: int| 0 <= i < r.len() && r[i] == x;
                if i < o.len() {
                    assert(o[i] == x);
                    assert(o.to_set().contains(x));
                    assert(p.to_set().contains(x));
                    assert(p.contains(x));
                    let j = choose|j: int| 0 <= j < p.len() && p[j] == x;
                    assert(d[j] == x);
                } else {
                    assert(x == d.last());
                    assert(d[d.len() - 1] == x);
                }
            }
            if d.to_set().contains(x) && !known_key(x.0) {
                let j = choose|j: int| 0 <= j < d.len() && d[j] == x;
                if j < p.len() {
                    assert(p[j] == x);
                    assert(p.to_set().contains(x));
                    assert(o.to_set().contains(x));
                    assert(o.contains(x));
                    let i = choose|i: int| 0 <= i < o.len() && o[i] == x;
                    assert(r[i] == x);
                } else {
                    assert(r[r.len() - 1] == x);
                }
            }
        }
        if !known_key(d.last().0) {
            assert forall|i: int, j: int| 0 <= i < j < r.len() implies #[trigger] r[i].0
                != #[trigger] r[j].0 by {
                if j < o.len() {
                    assert(r[i] == o[i] && r[j] == o[j]);
                } else {
                    assert(r[i] == o[i]);
                    assert(o.to_set().contains(o[i]));
                    assert(p.to_set().contains(o[i]));
                    assert(p.contains(o[i]));
                    let k = choose|k: int| 0 <= k < p.len() && p[k] == o[i];
                    assert(d[k] == p[k]);
                    assert(r[j] == d[d.len() - 1]);
                }
            }
        } else {
            assert(r =~= o);
        }
    } else {
        assert(other_entries(d).to_set() =~= Set::<(Seq<u8>, BValue)>::empty());
    }
}

proof fn lemma_fields_in(d: Seq<(Seq<u8>, BValue)>, info: Info)
    requires
        describes(d, info),
    ensures
        forall|i: int|
            0 <= i < 4 ==> known_key(#[trigger] field_entries(info)[i].0) && d.to_set().contains(
                field_entries(info)[i],
            ),
        keys_distinct(field_entries(info)),
{
    let k4 = field_entries(info);
    lemma_lookup_member(d, length_key());
    lemma_lookup_member(d, name_key());
    lemma_lookup_member(d, piece_length_key());
    lemma_lookup_member(d, pieces_key());
    assert(length_key()[1] != pieces_key()[1]);
    assert forall|i: int| 0 <= i < 4 implies known_key(#[trigger] k4[i].0) && d.to_set().contains(
        k4[i],
    ) by {
        if i == 0 {
            assert(k4[0] == (length_key(), lookup(d, length_key())->0));
        } else if i == 1 {
            assert(k4[1] == (name_key(), lookup(d, name_key())->0));
        } else if i == 2 {
            assert(k4[2] == (piece_length_key(), lookup(d, piece_length_key())->0));
        } else {
            assert(k4[3] == (pieces_key(), lookup(d, pieces_key())->0));
        }
    }
}

proof fn lemma_same_entries(d: Seq<(Seq<u8>, BValue)>, info: Info)
    requires
        keys_distinct(d),
        describes(d, info),
    ensures
        ({
            let s = field_entries(info) + other_entries(d);
            &&& keys_distinct(s)
            &&& s.to_set() == d.to_set()
        }),
{
    let k4 = field_entries(info);
    let o = other_entries(d);
    let s = k4 + o;
    lemma_other_entries(d);
    lemma_fields_in(d, info);
    assert forall|i: int| 4 <= i < s.len() implies !known_key(#[trigger] s[i].0)
        && d.to_set().contains(s[i]) by {
        assert(s[i] == o[i - 4]);
        assert(o.contains(o[i - 4]));
        assert(o.to_set().contains(o[i - 4]));
    }
    assert forall|i: int, j: int| 0 <= i < j < s.len() implies #[trigger] s[i].0
        != #[trigger] s[j].0 by {
        if j < 4 {
            assert(s[i] == k4[i] && s[j] == k4[j]);
        } else if i >= 4 {
            assert(s[i] == o[i - 4] && s[j] == o[j - 4]);
        } else {
            assert(s[i] == k4[i]);
            assert(known_key(s[i].0));
        }
    }
    assert(s.to_set() =~= d.to_set()) by {
        assert forall|x| s.to_set().contains(x) implies d.to_set().contains(x) by {
            let i = choose|i: int| 0 <= i < s.len() && s[i] == x;
            if i < 4 {
                assert(s[i] == k4[i]);
                assert(known_key(k4[i].0));
                assert(d.to_set().contains(k4[i]));
            } else {
                assert(!known_key(s[i].0));
                assert(d.to_set().contains(s[i]));
            }
        }
        assert forall|x| d.to_set().contains(x) implies s.to_set().contains(x) by {
            let j = choose|j: int| 0 <= j < d.len() && d[j] == x;
            if known_key(x.0) {
                lemma_lookup_finds(d, j);
                if x.0 == length_key() {
                    assert(s[0] == x);
                } else if x.0 == name_key() {
                    assert(s[1] == x);
                } else if x.0 == piece_length_key() {
                    assert(s[2] == x);
                } else {
                    assert(s[3] == x);
                }
            } else {
                assert(o.to_set().contains(x));
                assert(o.contains(x));
                let i = choose|i: int| 0 <= i < o.len() && o[i] == x;
                assert(s[i + 4] == x);
            }
        }
    }
}

/// Re-encoding a parsed info dictionary gives back the dictionary as it was read: `Info`
/// keeps its four fields and, in order, every other entry, and encoding puts the keys back
/// in their order. The info hash of a torrent read from a file is therefore the SHA-1 of the
/// info dictionary's bytes in that file.
pub proof fn law_info_reencoding(d: Seq<(Seq<u8>, BValue)>, info: Info)
    requires
        canonical(BValue::Dict(d)),
        describes(d, info),
    ensures
        canon(info_value(info)) == BValue::Dict(d),
{
    lemma_canonical_entries(d);
    let s = field_entries(info) + other_entries(d);
    assert(info_value(info) == BValue::Dict(s));
    lemma_same_entries(d, info);
    assert forall|i: int| 0 <= i < s.len() implies canon(#[trigger] s[i].1) == s[i].1 by {
        assert(s.contains(s[i]));
        assert(s.to_set().contains(s[i]));
        assert(d.to_set().contains(s[i]));
        assert(d.contains(s[i]));
        let j = choose|j: int| 0 <= j < d.len() && d[j] == s[i];
        law_canonical_unchanged(d[j].1);
    }
    assert(canon_entries(s) =~= s);
    lemma_sort_entries(s);
    lemma_ascending_unique(sort_entries(s), d);
}

// ---------------------------------------------------------------------------
// The info hash as a function of the fields
/// Two `Info`s with the same fields have the same info dictionary, so their info hashes
/// (`Info::hash`) are equal.
pub proof fn law_info_hash_fields(a: Info, b: Info)
    requires
        a.length == b.length,
        a.name@ == b.name@,
        a.piece_length == b.piece_length,
        a.pieces@ == b.pieces@,
        entry_views(a.extra@) == entry_views(b.extra@),
    ensures
        info_value(a) == info_value(b),
        sha1_of(encoding(canon(info_value(a)))) == sha1_of(encoding(canon(info_value(b)))),
{
}

proof fn lemma_piece_bytes_len(pieces: Seq<Piece>)
    ensures
        piece_bytes(pieces).len() == 20 * pieces.len(),
    decreases pieces.len(),
{
    if pieces.len() > 0 {
        lemma_piece_bytes_len(pieces.drop_last());
    }
}

/// The bytes that the info hash of an `Info` without other entries is computed over:
/// `d6:lengthi<length>e4:name<n>:<name>12:piece lengthi<piece length>e6:pieces<20k>:<hashes>e`.
#[verifier::rlimit(100)]
pub proof fn law_info_hash_text(info: Info)
    requires
        info.length <= i64::MAX,
        info.piece_length <= i64::MAX,
        info.extra@.len() == 0,
    ensures
        encoding(canon(info_value(info))) == seq![100u8] + str_encoding(length_key())
            + seq![105u8] + int_text(info.length as int) + seq![101u8] + str_encoding(name_key())
            + nat_text(encode_utf8(info.name@).len()) + seq![58u8] + encode_utf8(info.name@)
            + str_encoding(piece_length_key()) + seq![105u8] + int_text(info.piece_length as int)
            + seq![101u8] + str_encoding(pieces_key()) + nat_text(20 * info.pieces@.len())
            + seq![58u8] + piece_bytes(info.pieces@) + seq![101u8],
{
    law_info_encoding_canonical(info);
    lemma_piece_bytes_len(info.pieces@);
    let d = field_entries(info);
    assert(info_value(info) == BValue::Dict(d)) by {
        assert(d + entry_views(info.extra@) =~= d);
    }
    let d1 = d.drop_first();
    let d2 = d1.drop_first();
    let d3 = d2.drop_first();
    let d4 = d3.drop_first();
    assert(d4 =~= Seq::<(Seq<u8>, BValue)>::empty());
    assert(d3[0] == d[3] && d2[0] == d[2] && d1[0] == d[1]);
    assert(entries_encoding(d4) == Seq::<u8>::empty());
    assert(entries_encoding(d3) == str_encoding(d[3].0) + encoding(d[3].1) + entries_encoding(d4));
    assert(entries_encoding(d2) == str_encoding(d[2].0) + encoding(d[2].1) + entries_encoding(d3));
    assert(entries_encoding(d1) == str_encoding(d[1].0) + encoding(d[1].1) + entries_encoding(d2));
    assert(entries_encoding(d) == str_encoding(d[0].0) + encoding(d[0].1) + entries_encoding(d1));
    assert(encoding(d[0].1) == seq![105u8] + int_text(info.length as int) + seq![101u8]);
    assert(encoding(d[1].1) == str_encoding(encode_utf8(info.name@)));
    assert(encoding(d[2].1) == seq![105u8] + int_text(info.piece_length as int) + seq![101u8]);
    assert(encoding(d[3].1) == str_encoding(piece_bytes(info.pieces@)));
    assert(encoding(BValue::Dict(d)) == seq![100u8] + entries_encoding(d) + seq![101u8]);
    assert(encoding(info_value(info)) =~= seq![100u8] + str_encoding(length_key())
        + seq![105u8] + int_text(info.length as int) + seq![101u8] + str_encoding(name_key())
        + nat_text(encode_utf8(info.name@).len()) + seq![58u8] + encode_utf8(info.name@)
        + str_encoding(piece_length_key()) + seq![105u8] + int_text(info.piece_length as int)
        + seq![101u8] + str_encoding(pieces_key()) + nat_text(20 * info.pieces@.len())
        + seq![58u8] + piece_bytes(info.pieces@) + seq![101u8]);
}

} // verus!
