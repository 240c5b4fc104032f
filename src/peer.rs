//! The peer wire protocol: the handshake, message frames and their payloads.
use vstd::prelude::*;

use crate::bencode::append_bytes;
use crate::torrent_file::{bytes_equal, InfoHash};
use crate::text::{hex_encode, hex_text};

verus! {

/// Per-session failures.
#[derive(PartialEq, Eq, Structural, Debug, Clone, Copy)]
pub enum PeerError {
    ConnectFailed,
    HandshakeFailed,
    UnexpectedMessage,
    ChokedMidStream,
    Disconnected,
    PieceHashMismatch,
}

// ---------------------------------------------------------------------------
// Big-endian integers
pub open spec fn be32(x: u32) -> Seq<u8> {
    seq![
        (x / 16777216) as u8,
        (x / 65536 % 256) as u8,
        (x / 256 % 256) as u8,
        (x % 256) as u8,
    ]
}

proof fn lemma_be32_parts(b0: int, b1: int, b2: int, b3: int)
    requires
        0 <= b0 < 256,
        0 <= b1 < 256,
        0 <= b2 < 256,
        0 <= b3 < 256,
    ensures
        (b0 * 16777216 + b1 * 65536 + b2 * 256 + b3) / 16777216 == b0,
        (b0 * 16777216 + b1 * 65536 + b2 * 256 + b3) / 65536 % 256 == b1,
        (b0 * 16777216 + b1 * 65536 + b2 * 256 + b3) / 256 % 256 == b2,
        (b0 * 16777216 + b1 * 65536 + b2 * 256 + b3) % 256 == b3,
{
    let x = b0 * 16777216 + b1 * 65536 + b2 * 256 + b3;
    assert(x / 16777216 == b0);
    assert(x / 65536 == b0 * 256 + b1);
    assert((b0 * 256 + b1) % 256 == b1);
    assert(x / 256 == b0 * 65536 + b1 * 256 + b2);
    assert((b0 * 65536 + b1 * 256 + b2) % 256 == b2);
    assert(x % 256 == b3);
}

/// Reads the big-endian `u32` at `at`.
pub fn read_be32(b: &[u8], at: usize) -> (r: u32)
    requires
        at + 4 <= b@.len(),
    ensures
        be32(r) == b@.subrange(at as int, at + 4),
{
    let b0 = b[at] as u32;
    let b1 = b[at + 1] as u32;
    let b2 = b[at + 2] as u32;
    let b3 = b[at + 3] as u32;
    let r = b0 * 16777216 + b1 * 65536 + b2 * 256 + b3;
    proof {
        lemma_be32_parts(b0 as int, b1 as int, b2 as int, b3 as int);
    }
    assert(be32(r) =~= b@.subrange(at as int, at + 4));
    r
}

/// Appends `x` in big-endian order.
pub fn write_be32(out: &mut Vec<u8>, x: u32)
    ensures
        final(out)@ == old(out)@ + be32(x),
{
    out.push((x / 16777216) as u8);
    out.push((x / 65536 % 256) as u8);
    out.push((x / 256 % 256) as u8);
    out.push((x % 256) as u8);
    assert(out@ =~= old(out)@ + be32(x));
}

// ---------------------------------------------------------------------------
// Messages
#[derive(PartialEq, Eq, Structural, Debug, Clone, Copy)]
pub enum MessageType {
    Choke,
    Unchoke,
    Interested,
    NotInterested,
    Have,
    Bitfield,
    Request,
    Piece,
    Cancel,
}

/// The message type with wire id `id`, for `id` up to 8.
pub open spec fn type_of_id(id: u8) -> MessageType {
    if id == 0 {
        MessageType::Choke
    } else if id == 1 {
        MessageType::Unchoke
    } else if id == 2 {
        MessageType::Interested
    } else if id == 3 {
        MessageType::NotInterested
    } else if id == 4 {
        MessageType::Have
    } else if id == 5 {
        MessageType::Bitfield
    } else if id == 6 {
        MessageType::Request
    } else if id == 7 {
        MessageType::Piece
    } else {
        MessageType::Cancel
    }
}

impl MessageType {
    pub open spec fn spec_id(self) -> u8 {
        match self {
            MessageType::Choke => 0,
            MessageType::Unchoke => 1,
            MessageType::Interested => 2,
            MessageType::NotInterested => 3,
            MessageType::Have => 4,
            MessageType::Bitfield => 5,
            MessageType::Request => 6,
            MessageType::Piece => 7,
            MessageType::Cancel => 8,
        }
    }

    /// Whether a payload of `n` bytes has the length that this type asks for.
    pub open spec fn payload_len_ok(self, n: nat) -> bool {
        match self {
            MessageType::Have => n == 4,
            MessageType::Bitfield => true,
            MessageType::Request | MessageType::Cancel => n == 12,
            MessageType::Piece => n >= 8,
            _ => n == 0,
        }
    }

    /// The wire id.
    pub fn id(&self) -> (r: u8)
        ensures
            r == self.spec_id(),
    {
        match self {
            MessageType::Choke => 0,
            MessageType::Unchoke => 1,
            MessageType::Interested => 2,
            MessageType::NotInterested => 3,
            MessageType::Have => 4,
            MessageType::Bitfield => 5,
            MessageType::Request => 6,
            MessageType::Piece => 7,
            MessageType::Cancel => 8,
        }
    }

    /// The message type with wire id `id`; unknown ids have none.
    pub fn from_id(id: u8) -> (r: Option<MessageType>)
        ensures
            r is Some <==> id <= 8,
            r matches Some(t) ==> t == type_of_id(id) && t.spec_id() == id,
    {
        match id {
            0 => Some(MessageType::Choke),
            1 => Some(MessageType::Unchoke),
            2 => Some(MessageType::Interested),
            3 => Some(MessageType::NotInterested),
            4 => Some(MessageType::Have),
            5 => Some(MessageType::Bitfield),
            6 => Some(MessageType::Request),
            7 => Some(MessageType::Piece),
            8 => Some(MessageType::Cancel),
            _ => None,
        }
    }

    fn payload_len_check(&self, n: usize) -> (r: bool)
        ensures
            r == self.payload_len_ok(n as nat),
    {
        match self {
            MessageType::Have => n == 4,
            MessageType::Bitfield => true,
            MessageType::Request | MessageType::Cancel => n == 12,
            MessageType::Piece => n >= 8,
            _ => n == 0,
        }
    }
}

/// A payload that can be written to the wire.
pub trait BytesConvertible {
    spec fn wire(&self) -> Seq<u8>;

    fn as_bytes(&self) -> (r: Vec<u8>)
        ensures
            r@ == self.wire(),
    ;
}

/// A payload that can be read from the wire.
pub trait TryFromBytes: Sized {
    /// Whether `bytes` is the payload of some value of this type.
    spec fn accepts(bytes: Seq<u8>) -> bool;

    /// The payload bytes of this value.
    spec fn payload_of(&self) -> Seq<u8>;

    fn try_from_bytes(bytes: Vec<u8>) -> (r: Result<Self, PeerError>)
        ensures
            r is Ok <==> Self::accepts(bytes@),
            r matches Ok(v) ==> v.payload_of() == bytes@,
    ;
}

#[derive(Debug, Clone, Copy, PartialEq, Eq)]
pub struct EmptyPayload;

impl BytesConvertible for EmptyPayload {
    open spec fn wire(&self) -> Seq<u8> {
        Seq::empty()
    }

    fn as_bytes(&self) -> (r: Vec<u8>) {
        Vec::new()
    }
}

impl TryFromBytes for EmptyPayload {
    open spec fn accepts(bytes: Seq<u8>) -> bool {
        bytes.len() == 0
    }

    open spec fn payload_of(&self) -> Seq<u8> {
        Seq::empty()
    }

    fn try_from_bytes(bytes: Vec<u8>) -> (r: Result<Self, PeerError>) {
        if bytes.len() == 0 {
            assert(bytes@ =~= Seq::<u8>::empty());
            Ok(EmptyPayload)
        } else {
            Err(PeerError::UnexpectedMessage)
        }
    }
}

pub struct Message<Payload> {
    pub message_type: MessageType,
    pub payload: Payload,
}

/// A block request: the piece, the offset in it, and the length.
#[derive(Debug, Clone, Copy, PartialEq, Eq)]
pub struct RequestPayload {
    pub index: u32,
    pub begin: u32,
    pub length: u32,
}

impl RequestPayload {
    pub fn new(index: usize, begin: usize, length: usize) -> (r: Self)
        requires
            index <= u32::MAX,
            begin <= u32::MAX,
            length <= u32::MAX,
        ensures
            r.index == index,
            r.begin == begin,
            r.length == length,
    {
        RequestPayload { index: index as u32, begin: begin as u32, length: length as u32 }
    }
}

impl BytesConvertible for RequestPayload {
    open spec fn wire(&self) -> Seq<u8> {
        be32(self.index) + be32(self.begin) + be32(self.length)
    }

    fn as_bytes(&self) -> (r: Vec<u8>) {
        let mut r: Vec<u8> = Vec::new();
        write_be32(&mut r, self.index);
        write_be32(&mut r, self.begin);
        write_be32(&mut r, self.length);
        assert(r@ =~= self.wire());
        r
    }
}

/// A block of a piece as a peer sends it.
#[derive(Debug, PartialEq, Eq)]
pub struct Piece {
    pub index: u32,
    pub begin: u32,
    pub block: Vec<u8>,
}

impl TryFromBytes for Piece {
    open spec fn accepts(bytes: Seq<u8>) -> bool {
        bytes.len() >= 8
    }

    open spec fn payload_of(&self) -> Seq<u8> {
        be32(self.index) + be32(self.begin) + self.block@
    }

    fn try_from_bytes(bytes: Vec<u8>) -> (r: Result<Self, PeerError>) {
        if bytes.len() < 8 {
            return Err(PeerError::UnexpectedMessage);
        }
        let index = read_be32(bytes.as_slice(), 0);
        let begin = read_be32(bytes.as_slice(), 4);
        let mut block: Vec<u8> = Vec::new();
        let mut k: usize = 8;
        while k < bytes.len()
            invariant
                8 <= k <= bytes@.len(),
                block@ == bytes@.subrange(8, k as int),
            decreases bytes@.len() - k,
        {
            block.push(bytes[k]);
            k = k + 1;
            assert(block@ =~= bytes@.subrange(8, k as int));
        }
        let r = Piece { index, begin, block };
        assert(r.payload_of() =~= bytes@);
        Ok(r)
    }
}

/// Which pieces a peer holds: one bit per piece, most significant bit first.
#[derive(Debug, PartialEq, Eq)]
pub struct Bitfield(pub Vec<u8>);

/// Bit `i` of `bytes`, counting from the most significant bit of the first byte; bits past
/// the end are clear.
pub open spec fn bit_set(bytes: Seq<u8>, i: int) -> bool {
    0 <= i && i / 8 < bytes.len() && (bytes[i / 8] >> ((7 - i % 8) as u8)) & 1u8 == 1u8
}

impl Bitfield {
    pub fn has_piece(&self, piece_index: usize) -> (r: bool)
        ensures
            r == bit_set(self.0@, piece_index as int),
    {
        let byte_index = piece_index / 8;
        let bit_index = piece_index % 8;
        if byte_index >= self.0.len() {
            return false;
        }
        let byte = self.0[byte_index];
        (byte >> ((7 - bit_index) as u8)) & 1u8 == 1u8
    }
}

impl TryFromBytes for Bitfield {
    open spec fn accepts(bytes: Seq<u8>) -> bool {
        true
    }

    open spec fn payload_of(&self) -> Seq<u8> {
        self.0@
    }

    fn try_from_bytes(bytes: Vec<u8>) -> (r: Result<Self, PeerError>) {
        Ok(Bitfield(bytes))
    }
}

// ---------------------------------------------------------------------------
// Framing
/// The frame of a message: its length (id and payload), its id, its payload.
pub open spec fn frame(t: MessageType, payload: Seq<u8>) -> Seq<u8> {
    be32((payload.len() + 1) as u32) + seq![t.spec_id()] + payload
}

/// The bytes that send a message.
pub fn frame_message<P: BytesConvertible>(message: &Message<P>) -> (r: Vec<u8>)
    requires
        message.payload.wire().len() + 1 <= u32::MAX,
    ensures
        r@ == frame(message.message_type, message.payload.wire()),
{
    let payload = message.payload.as_bytes();
    let mut r: Vec<u8> = Vec::new();
    write_be32(&mut r, (payload.len() + 1) as u32);
    r.push(message.message_type.id());
    append_bytes(&mut r, payload.as_slice());
    assert(r@ =~= frame(message.message_type, message.payload.wire()));
    r
}

/// The length that a frame's 4-byte header announces.
pub fn frame_length(header: &[u8]) -> (r: u32)
    requires
        header@.len() == 4,
    ensures
        be32(r) == header@,
{
    assert(header@.subrange(0, 4) =~= header@);
    read_be32(header, 0)
}

/// Reads a message from its id and payload: the id must be known, the payload must have
/// the length that the type asks for, and the payload type must accept it.
pub fn decode_message<P: TryFromBytes>(id: u8, payload: Vec<u8>) -> (r: Result<
    Message<P>,
    PeerError,
>)
    ensures
        r is Ok <==> (id <= 8 && type_of_id(id).payload_len_ok(payload@.len()) && P::accepts(
            payload@,
        )),
        r matches Ok(m) ==> m.message_type == type_of_id(id) && m.payload.payload_of() == payload@,
{
    let message_type = match MessageType::from_id(id) {
        Some(t) => t,
        None => {
            return Err(PeerError::UnexpectedMessage);
        },
    };
    if !message_type.payload_len_check(payload.len()) {
        return Err(PeerError::UnexpectedMessage);
    }
    let payload = P::try_from_bytes(payload)?;
    Ok(Message { message_type, payload })
}

// ---------------------------------------------------------------------------
// Handshake
/// The protocol name, `BitTorrent protocol`.
pub open spec fn protocol_name() -> Seq<u8> {
    seq![66u8, 105, 116, 84, 111, 114, 114, 101, 110, 116, 32, 112, 114, 111, 116, 111, 99, 111, 108]
}

/// This client's peer id, `00112233445566778899`.
pub open spec fn own_peer_id() -> Seq<u8> {
    seq![48u8, 48, 49, 49, 50, 50, 51, 51, 52, 52, 53, 53, 54, 54, 55, 55, 56, 56, 57, 57]
}

pub fn peer_id() -> (r: [u8; 20])
    ensures
        r@ == own_peer_id(),
{
    let r = [48u8, 48, 49, 49, 50, 50, 51, 51, 52, 52, 53, 53, 54, 54, 55, 55, 56, 56, 57, 57];
    assert(r@ =~= own_peer_id());
    r
}

/// The 68-byte handshake frame.
#[derive(Debug, Clone, Copy, PartialEq, Eq)]
pub struct Handshake {
    pub protocol_len: u8,
    pub protocol: [u8; 19],
    pub reserved: [u8; 8],
    pub info_hash: [u8; 20],
    pub peer_id: [u8; 20],
}

/// The handshake that a peer sends for `info_hash` and `peer_id`.
pub open spec fn handshake_bytes(info_hash: Seq<u8>, peer_id: Seq<u8>) -> Seq<u8> {
    seq![19u8] + protocol_name() + Seq::new(8, |i: int| 0u8) + info_hash + peer_id
}

impl Handshake {
    pub open spec fn wire(&self) -> Seq<u8> {
        seq![self.protocol_len] + self.protocol@ + self.reserved@ + self.info_hash@ + self.peer_id@
    }

    pub fn new(info_hash: &InfoHash, peer_id: [u8; 20]) -> (r: Self)
        ensures
            r.wire() == handshake_bytes(info_hash.0@, peer_id@),
    {
        let protocol = [66u8, 105, 116, 84, 111, 114, 114, 101, 110, 116, 32, 112, 114, 111, 116, 111, 99, 111, 108];
        let reserved = [0u8; 8];
        let r = Handshake { protocol_len: 19, protocol, reserved, info_hash: info_hash.0, peer_id };
        assert(protocol@ =~= protocol_name());
        assert(reserved@ =~= Seq::new(8, |i: int| 0u8));
        r
    }

    pub fn as_bytes(&self) -> (r: Vec<u8>)
        ensures
            r@ == self.wire(),
    {
        let mut r: Vec<u8> = Vec::new();
        r.push(self.protocol_len);
        append_bytes(&mut r, self.protocol.as_slice());
        append_bytes(&mut r, self.reserved.as_slice());
        append_bytes(&mut r, self.info_hash.as_slice());
        append_bytes(&mut r, self.peer_id.as_slice());
        assert(r@ =~= self.wire());
        r
    }
}

/// Checks a peer's handshake reply against the info hash this client asked for, and returns
/// the peer's id in hex.
pub fn handshake(info_hash: &InfoHash, reply: &[u8]) -> (r: Result<String, PeerError>)
    ensures
        r is Ok <==> {
            &&& reply@.len() == 68
            &&& reply@[0] == 19
            &&& reply@.subrange(1, 20) == protocol_name()
            &&& reply@.subrange(28, 48) == info_hash.0@
        },
        r matches Ok(s) ==> s@ == hex_text(reply@.subrange(48, 68)),
        r matches Err(e) ==> e == PeerError::HandshakeFailed,
{
    if reply.len() != 68 || reply[0] != 19u8 {
        return Err(PeerError::HandshakeFailed);
    }
    let ours = Handshake::new(info_hash, peer_id()).as_bytes();
    assert(ours@.subrange(1, 20) =~= protocol_name());
    assert(ours@.subrange(28, 48) =~= info_hash.0@);
    if !bytes_equal(&ours.as_slice()[1..20], &reply[1..20]) {
        return Err(PeerError::HandshakeFailed);
    }
    if !bytes_equal(&ours.as_slice()[28..48], &reply[28..48]) {
        return Err(PeerError::HandshakeFailed);
    }
    Ok(hex_encode(&reply[48..68]))
}

} // verus!
