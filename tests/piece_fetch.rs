use bittorrent::fetch::{
    block_requests, piece_len, session_step, PieceDownload, SessionAction, SessionState, CHUNK_SIZE,
};
use bittorrent::peer::{MessageType, Piece, PeerError};
use bittorrent::torrent_file::Piece as PieceHash;
use sha1::{Digest, Sha1};

#[test]
fn piece_fetch_block_sizes() {
    assert_eq!(piece_len(2, 40000, 92063), 12063);
    let r = block_requests(2, 40000, 92063);
    assert_eq!(r.len(), 1);
    assert_eq!((r[0].index, r[0].begin, r[0].length), (2, 0, 12063));
}

#[test]
fn full_piece_is_cut_into_chunks() {
    assert_eq!(CHUNK_SIZE, 16384);
    let r = block_requests(0, 40000, 92063);
    let got: Vec<(u32, u32, u32)> = r.iter().map(|q| (q.index, q.begin, q.length)).collect();
    assert_eq!(got, vec![(0, 0, 16384), (0, 16384, 16384), (0, 32768, 7232)]);
    assert!(block_requests(1, 16384, 16384).is_empty());
}

fn data(n: usize) -> Vec<u8> {
    (0..n).map(|i| (i * 7 % 251) as u8).collect()
}

fn hash_of(b: &[u8]) -> PieceHash {
    PieceHash(Sha1::digest(b).into())
}

#[test]
fn piece_download_reassembles_and_verifies() {
    let piece = data(40000);
    let mut d = PieceDownload::new(1, 40000, 100000, hash_of(&piece));
    while let Some(q) = d.next_request() {
        let begin = q.begin as usize;
        let block = piece[begin..begin + q.length as usize].to_vec();
        d.receive(Piece { index: q.index, begin: q.begin, block }).unwrap();
    }
    assert_eq!(d.finish().unwrap(), piece);
}

#[test]
fn piece_download_detects_hash_mismatch() {
    let piece = data(100);
    let mut d = PieceDownload::new(0, 100, 100, hash_of(b"something else"));
    let q = d.next_request().unwrap();
    assert_eq!(q.length, 100);
    d.receive(Piece { index: 0, begin: 0, block: piece }).unwrap();
    assert_eq!(d.next_request(), None);
    assert_eq!(d.finish(), Err(PeerError::PieceHashMismatch));
}

#[test]
fn piece_download_refuses_blocks_that_do_not_match() {
    let mut d = PieceDownload::new(0, 100, 100, hash_of(b""));
    assert!(d.receive(Piece { index: 1, begin: 0, block: vec![0; 100] }).is_err());
    assert!(d.receive(Piece { index: 0, begin: 4, block: vec![0; 100] }).is_err());
    assert!(d.receive(Piece { index: 0, begin: 0, block: vec![0; 99] }).is_err());
    assert!(d.buffer.is_empty());
    let unfinished = PieceDownload::new(0, 100, 100, hash_of(b""));
    assert_eq!(unfinished.finish(), Err(PeerError::UnexpectedMessage));
}

#[test]
fn session_moves_through_bitfield_unchoke_and_blocks() {
    step_is(SessionState::Handshaked, MessageType::Bitfield, SessionState::Ready, SessionAction::SendInterested);
    step_is(SessionState::Ready, MessageType::Unchoke, SessionState::Active, SessionAction::SendRequests);
    step_is(SessionState::Active, MessageType::Piece, SessionState::Active, SessionAction::SendRequests);
}

#[test]
fn choke_mid_stream_fails_the_session() {
    step_is(
        SessionState::Active,
        MessageType::Choke,
        SessionState::Closed,
        SessionAction::Close(PeerError::ChokedMidStream),
    );
    step_is(
        SessionState::Handshaked,
        MessageType::Unchoke,
        SessionState::Closed,
        SessionAction::Close(PeerError::UnexpectedMessage),
    );
    step_is(
        SessionState::Ready,
        MessageType::Have,
        SessionState::Closed,
        SessionAction::Close(PeerError::UnexpectedMessage),
    );
}

fn step_is(from: SessionState, t: MessageType, to: SessionState, action: SessionAction) {
    assert_eq!(session_step(from, t), (to, action));
}
