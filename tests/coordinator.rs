use bittorrent::download::{claim_piece, requeue, settle_claim, work_queue, FileAssembly};
use bittorrent::fetch::PieceDownload;
use bittorrent::peer::{Bitfield, PeerError, Piece};
use bittorrent::torrent_file::{Info, Piece as PieceHash};
use sha1::{Digest, Sha1};

const PIECE_LENGTH: usize = 20000;
const LENGTH: usize = 50000;

fn file_content() -> Vec<u8> {
    (0..LENGTH).map(|i| (i * 31 % 253) as u8).collect()
}

fn info() -> Info {
    let file = file_content();
    let pieces = file
        .chunks(PIECE_LENGTH)
        .map(|c| PieceHash(Sha1::digest(c).into()))
        .collect();
    Info { length: LENGTH, name: "f".to_string(), piece_length: PIECE_LENGTH, pieces, extra: vec![] }
}

/// A simulated peer: the pieces it claims to hold and the bytes it serves.
struct SimPeer {
    bits: Bitfield,
    content: Vec<u8>,
}

fn fetch(peer: &SimPeer, index: usize, hash: PieceHash) -> Result<Vec<u8>, bittorrent::peer::PeerError> {
    let mut d = PieceDownload::new(index, PIECE_LENGTH, LENGTH, hash);
    while let Some(q) = d.next_request() {
        let start = index * PIECE_LENGTH + q.begin as usize;
        let block = peer.content[start..start + q.length as usize].to_vec();
        d.receive(Piece { index: q.index, begin: q.begin, block })?;
    }
    d.finish()
}

/// Runs `workers` workers in turn over a shared peer pool and work queue.
fn download(peers: Vec<SimPeer>, workers: usize) -> FileAssembly {
    let info = info();
    let mut queue = work_queue(&info);
    let mut pool: Vec<usize> = (0..peers.len()).collect();
    let mut out = FileAssembly::new(&info);
    let mut rounds = 0;
    while !queue.is_empty() && rounds < 100 {
        rounds += 1;
        for _ in 0..workers {
            let Some(p) = pool.pop() else { break };
            let peer = &peers[p];
            match claim_piece(&mut queue, &peer.bits) {
                None => {}
                Some((index, hash)) => match fetch(peer, index, hash) {
                    Ok(bytes) => {
                        out.install(index, &bytes);
                        pool.insert(0, p);
                    }
                    Err(_) => {
                        requeue(&mut queue, (index, hash));
                        pool.insert(0, p);
                    }
                },
            }
        }
    }
    out
}

fn check_pieces(out: &FileAssembly, info: &Info) {
    assert_eq!(out.output.len(), info.length);
    for (i, hash) in info.pieces.iter().enumerate() {
        let start = i * PIECE_LENGTH;
        let end = (start + PIECE_LENGTH).min(LENGTH);
        let digest: [u8; 20] = Sha1::digest(&out.output[start..end]).into();
        assert_eq!(&digest, &hash.0);
    }
}

#[test]
fn full_download() {
    let peers = vec![
        SimPeer { bits: Bitfield(vec![0xe0]), content: file_content() },
        SimPeer { bits: Bitfield(vec![0xe0]), content: file_content() },
    ];
    let out = download(peers, 5);
    assert!(out.is_complete());
    assert_eq!(out.output, file_content());
    check_pieces(&out, &info());
}

#[test]
fn failed_pieces_go_back_to_the_queue() {
    let mut corrupt = file_content();
    corrupt[5] ^= 0xff;
    corrupt[45000] ^= 0xff;
    let peers = vec![
        SimPeer { bits: Bitfield(vec![0x80]), content: file_content() },
        SimPeer { bits: Bitfield(vec![0xe0]), content: file_content() },
        SimPeer { bits: Bitfield(vec![0xe0]), content: corrupt },
    ];
    let out = download(peers, 5);
    assert!(out.is_complete());
    assert_eq!(out.output, file_content());
}

#[test]
fn output_does_not_depend_on_the_peers_or_the_order() {
    let a = download(
        vec![SimPeer { bits: Bitfield(vec![0xe0]), content: file_content() }],
        1,
    );
    let b = download(
        vec![
            SimPeer { bits: Bitfield(vec![0x20]), content: file_content() },
            SimPeer { bits: Bitfield(vec![0xc0]), content: file_content() },
        ],
        5,
    );
    assert!(a.is_complete() && b.is_complete());
    assert_eq!(a.output, b.output);
    let info = info();
    let file = file_content();
    let mut c = FileAssembly::new(&info);
    for i in [2usize, 0, 1] {
        let start = i * PIECE_LENGTH;
        let end = (start + PIECE_LENGTH).min(LENGTH);
        assert!(!c.is_complete());
        c.install(i, &file[start..end]);
    }
    assert!(c.is_complete());
    assert_eq!(c.output, a.output);
}

#[test]
fn claim_takes_the_first_piece_the_peer_holds() {
    let info = info();
    let mut queue = work_queue(&info);
    assert_eq!(queue.iter().map(|q| q.0).collect::<Vec<_>>(), vec![0, 1, 2]);
    let only_second = Bitfield(vec![0x40]);
    let (index, hash) = claim_piece(&mut queue, &only_second).unwrap();
    assert_eq!(index, 1);
    assert_eq!(hash, info.pieces[1]);
    assert_eq!(queue.iter().map(|q| q.0).collect::<Vec<_>>(), vec![0, 2]);
    assert_eq!(claim_piece(&mut queue, &only_second), None);
    assert_eq!(queue.len(), 2);
    assert_eq!(claim_piece(&mut queue, &Bitfield(vec![])), None);
    requeue(&mut queue, (index, hash));
    assert_eq!(queue.iter().map(|q| q.0).collect::<Vec<_>>(), vec![0, 2, 1]);
}

#[test]
fn landing_checks_index_size_and_hash() {
    let info = info();
    let file = file_content();
    let mut out = FileAssembly::new(&info);
    assert_eq!(out.land_piece(3, &file[0..10]), Err(PeerError::UnexpectedMessage));
    assert_eq!(out.land_piece(2, &file[0..10]), Err(PeerError::UnexpectedMessage));
    let mut wrong = file[40000..50000].to_vec();
    wrong[0] ^= 1;
    assert_eq!(out.land_piece(2, &wrong), Err(PeerError::PieceHashMismatch));
    assert_eq!(out.output, vec![0u8; LENGTH]);
    assert_eq!(out.land_piece(2, &file[40000..50000]), Ok(()));
    assert_eq!(&out.output[40000..], &file[40000..]);
    assert_eq!(out.done, vec![false, false, true]);
}

#[test]
fn failed_claims_go_back_to_the_queue() {
    let info = info();
    let file = file_content();
    let mut queue = work_queue(&info);
    let mut out = FileAssembly::new(&info);
    let item = claim_piece(&mut queue, &Bitfield(vec![0xff])).unwrap();
    assert_eq!(item.0, 0);
    assert_eq!(
        settle_claim(&mut queue, &mut out, item, Err(PeerError::Disconnected)),
        Err(PeerError::Disconnected)
    );
    assert_eq!(queue.iter().map(|q| q.0).collect::<Vec<_>>(), vec![1, 2, 0]);
    let item = claim_piece(&mut queue, &Bitfield(vec![0x40])).unwrap();
    assert_eq!(
        settle_claim(&mut queue, &mut out, item, Ok(vec![1, 2, 3])),
        Err(PeerError::UnexpectedMessage)
    );
    assert_eq!(queue.iter().map(|q| q.0).collect::<Vec<_>>(), vec![2, 0, 1]);
    assert!(out.done.iter().all(|d| !d));
    let item = claim_piece(&mut queue, &Bitfield(vec![0x40])).unwrap();
    let piece = file[PIECE_LENGTH..2 * PIECE_LENGTH].to_vec();
    assert_eq!(settle_claim(&mut queue, &mut out, item, Ok(piece)), Ok(()));
    assert_eq!(queue.iter().map(|q| q.0).collect::<Vec<_>>(), vec![2, 0]);
    assert_eq!(out.done, vec![false, true, false]);
    assert_eq!(&out.output[..PIECE_LENGTH], &vec![0u8; PIECE_LENGTH][..]);
}
