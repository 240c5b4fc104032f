//! Fetching one piece: block requests, reassembly and the hash check.
use vstd::prelude::*;

use crate::digest::{sha1_digest, sha1_of};
use crate::peer::{MessageType, Piece, PeerError, RequestPayload};
use crate::torrent_file::{bytes_equal, Piece as PieceHash};

verus! {

/// The size of a block request.
pub const CHUNK_SIZE: usize = 16384;

/// The size of piece `index`: the piece length, or what is left of the file for the last
/// piece.
pub open spec fn piece_size(index: int, piece_length: int, total: int) -> int {
    if total - index * piece_length < piece_length {
        total - index * piece_length
    } else {
        piece_length
    }
}

/// The length of block `k` of a piece of `size` bytes.
pub open spec fn block_len(k: int, size: int) -> int {
    if size - k * CHUNK_SIZE < CHUNK_SIZE {
        size - k * CHUNK_SIZE
    } else {
        CHUNK_SIZE as int
    }
}

pub fn piece_len(piece_index: usize, piece_length: usize, file_length: usize) -> (r: usize)
    requires
        piece_index * piece_length <= file_length,
    ensures
        r == piece_size(piece_index as int, piece_length as int, file_length as int),
{
    let rest = file_length - piece_index * piece_length;
    if rest < piece_length {
        rest
    } else {
        piece_length
    }
}

/// The block requests for a whole piece, one after another: block `k` starts at
/// `k * CHUNK_SIZE`, and together they cover the piece exactly.
pub fn block_requests(piece_index: usize, piece_length: usize, file_length: usize) -> (r: Vec<
    RequestPayload,
>)
    requires
        piece_index * piece_length <= file_length,
        piece_index <= u32::MAX,
        piece_length <= u32::MAX,
    ensures
        ({
            let size = piece_size(piece_index as int, piece_length as int, file_length as int);
            &&& r@.len() * CHUNK_SIZE >= size
            &&& r@.len() == 0 || (r@.len() - 1) * CHUNK_SIZE < size
            &&& forall|k: int|
                0 <= k < r@.len() ==> (#[trigger] r@[k]).index == piece_index && r@[k].begin == k
                    * CHUNK_SIZE && r@[k].length == block_len(k, size)
        }),
{
    let size = piece_len(piece_index, piece_length, file_length);
    let mut r: Vec<RequestPayload> = Vec::new();
    let mut offset: usize = 0;
    while offset < size
        invariant
            size <= u32::MAX,
            size == piece_size(piece_index as int, piece_length as int, file_length as int),
            piece_index <= u32::MAX,
            offset <= size,
            offset < size ==> offset == r@.len() * CHUNK_SIZE,
            offset == size ==> r@.len() * CHUNK_SIZE >= size && (r@.len() == 0 || (r@.len() - 1)
                * CHUNK_SIZE < size),
            forall|k: int|
                0 <= k < r@.len() ==> (#[trigger] r@[k]).index == piece_index && r@[k].begin == k
                    * CHUNK_SIZE && r@[k].length == block_len(k, size as int),
        decreases size - offset,
    {
        let block = if size - offset < CHUNK_SIZE {
            size - offset
        } else {
            CHUNK_SIZE
        };
        r.push(RequestPayload::new(piece_index, offset, block));
        offset = offset + block;
    }
    r
}

/// The progress of one piece: its index, size and expected hash, and the blocks received
/// so far, in order.
pub struct PieceDownload {
    pub index: usize,
    pub size: usize,
    pub hash: PieceHash,
    pub buffer: Vec<u8>,
}

impl PieceDownload {
    pub open spec fn wf(&self) -> bool {
        &&& self.buffer@.len() <= self.size
        &&& self.index <= u32::MAX
        &&& self.size <= u32::MAX
    }

    pub fn new(index: usize, piece_length: usize, file_length: usize, hash: PieceHash) -> (r: Self)
        requires
            index * piece_length <= file_length,
            index <= u32::MAX,
            piece_length <= u32::MAX,
        ensures
            r.wf(),
            r.index == index,
            r.size == piece_size(index as int, piece_length as int, file_length as int),
            r.hash == hash,
            r.buffer@ == Seq::<u8>::empty(),
    {
        let size = piece_len(index, piece_length, file_length);
        PieceDownload { index, size, hash, buffer: Vec::new() }
    }

    /// The request for the next block; none once the piece is complete.
    pub fn next_request(&self) -> (r: Option<RequestPayload>)
        requires
            self.wf(),
        ensures
            r is None <==> self.buffer@.len() == self.size,
            r matches Some(q) ==> q.index == self.index && q.begin == self.buffer@.len() && q.length
                == if self.size - self.buffer@.len() < CHUNK_SIZE {
                self.size - self.buffer@.len()
            } else {
                CHUNK_SIZE as int
            },
    {
        let have = self.buffer.len();
        if have == self.size {
            return None;
        }
        let block = if self.size - have < CHUNK_SIZE {
            self.size - have
        } else {
            CHUNK_SIZE
        };
        Some(RequestPayload::new(self.index, have, block))
    }

    /// Takes in the block that answers the outstanding request: it must be for this
    /// piece, start where the received bytes end, and have the requested length.
    pub fn receive(&mut self, block: Piece) -> (r: Result<(), PeerError>)
        requires
            old(self).wf(),
        ensures
            final(self).wf(),
            final(self).index == old(self).index,
            final(self).size == old(self).size,
            final(self).hash == old(self).hash,
            r is Ok <==> {
                &&& old(self).buffer@.len() < old(self).size
                &&& block.index == old(self).index
                &&& block.begin == old(self).buffer@.len()
                &&& block.block@.len() == if old(self).size - old(self).buffer@.len() < CHUNK_SIZE {
                    old(self).size - old(self).buffer@.len()
                } else {
                    CHUNK_SIZE as int
                }
            },
            r is Ok ==> final(self).buffer@ == old(self).buffer@ + block.block@,
            r is Err ==> final(self).buffer@ == old(self).buffer@,
            r matches Err(e) ==> e == PeerError::UnexpectedMessage,
    {
        let have = self.buffer.len();
        if have >= self.size {
            return Err(PeerError::UnexpectedMessage);
        }
        let expected = if self.size - have < CHUNK_SIZE {
            self.size - have
        } else {
            CHUNK_SIZE
        };
        if block.index as usize != self.index || block.begin as usize != have || block.block.len()
            != expected {
            return Err(PeerError::UnexpectedMessage);
        }
        let mut k: usize = 0;
        while k < block.block.len()
            invariant
                k <= block.block@.len(),
                have + block.block@.len() <= self.size,
                self.index == old(self).index,
                self.size == old(self).size,
                self.hash == old(self).hash,
                self.buffer@ == old(self).buffer@ + block.block@.subrange(0, k as int),
            decreases block.block@.len() - k,
        {
            self.buffer.push(block.block[k]);
            k = k + 1;
            assert(self.buffer@ =~= old(self).buffer@ + block.block@.subrange(0, k as int));
        }
        assert(block.block@.subrange(0, k as int) =~= block.block@);
        Ok(())
    }

    /// The piece, once all of it has come and its SHA-1 is the expected hash.
    pub fn finish(self) -> (r: Result<Vec<u8>, PeerError>)
        ensures
            r is Ok <==> (self.buffer@.len() == self.size && sha1_of(self.buffer@) == self.hash.0@),
            r matches Ok(b) ==> b@ == self.buffer@,
            r matches Err(e) ==> (e == PeerError::PieceHashMismatch <==> self.buffer@.len()
                == self.size),
    {
        if self.buffer.len() != self.size {
            return Err(PeerError::UnexpectedMessage);
        }
        let digest = sha1_digest(self.buffer.as_slice());
        if !bytes_equal(digest.as_slice(), self.hash.0.as_slice()) {
            return Err(PeerError::PieceHashMismatch);
        }
        Ok(self.buffer)
    }
}

/// Where a downloader's session with a peer stands after the handshake.
#[derive(PartialEq, Eq, Structural, Debug, Clone, Copy)]
pub enum SessionState {
    /// Handshake done; the peer's bitfield is awaited.
    Handshaked,
    /// Bitfield received and Interested sent; an Unchoke is awaited.
    Ready,
    /// Unchoked: block requests and answers go back and forth.
    Active,
    /// The session has failed.
    Closed,
}

/// What the session does next.
#[derive(PartialEq, Eq, Structural, Debug, Clone, Copy)]
pub enum SessionAction {
    SendInterested,
    SendRequests,
    Close(PeerError),
}

/// The session's transitions on a received message: a Bitfield after the handshake makes it
/// ready, an Unchoke then makes it active, blocks keep it active; a Choke while active, or
/// any message out of place, fails it.
pub open spec fn next_state(state: SessionState, t: MessageType) -> (SessionState, SessionAction) {
    match (state, t) {
        (SessionState::Handshaked, MessageType::Bitfield) => (
            SessionState::Ready,
            SessionAction::SendInterested,
        ),
        (SessionState::Ready, MessageType::Unchoke) => (
            SessionState::Active,
            SessionAction::SendRequests,
        ),
        (SessionState::Active, MessageType::Piece) => (
            SessionState::Active,
            SessionAction::SendRequests,
        ),
        (SessionState::Active, MessageType::Choke) => (
            SessionState::Closed,
            SessionAction::Close(PeerError::ChokedMidStream),
        ),
        _ => (SessionState::Closed, SessionAction::Close(PeerError::UnexpectedMessage)),
    }
}

/// Moves the session on by one received message.
pub fn session_step(state: SessionState, t: MessageType) -> (r: (SessionState, SessionAction))
    ensures
        r == next_state(state, t),
{
    match (state, t) {
        (SessionState::Handshaked, MessageType::Bitfield) => (
            SessionState::Ready,
            SessionAction::SendInterested,
        ),
        (SessionState::Ready, MessageType::Unchoke) => (
            SessionState::Active,
            SessionAction::SendRequests,
        ),
        (SessionState::Active, MessageType::Piece) => (
            SessionState::Active,
            SessionAction::SendRequests,
        ),
        (SessionState::Active, MessageType::Choke) => (
            SessionState::Closed,
            SessionAction::Close(PeerError::ChokedMidStream),
        ),
        _ => (SessionState::Closed, SessionAction::Close(PeerError::UnexpectedMessage)),
    }
}

} // verus!
