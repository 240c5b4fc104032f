use bittorrent::bencode::{decode, encode, Value};
use bittorrent::torrent_file::{split_pieces, Info, MalformedTorrent, Piece, TorrentFile};
use sha1::{Digest, Sha1};

const ANNOUNCE: &str = "http://bittorrent-test-tracker.codecrafters.io/announce";

fn piece_bytes() -> Vec<u8> {
    (0..60u8).collect()
}

fn sample_info() -> Info {
    let p = piece_bytes();
    Info {
        length: 92063,
        name: "sample.txt".to_string(),
        piece_length: 32768,
        pieces: split_pieces(&p),
        extra: vec![],
    }
}

fn canonical_info_bytes() -> Vec<u8> {
    let mut b = b"d6:lengthi92063e4:name10:sample.txt12:piece lengthi32768e6:pieces60:".to_vec();
    b.extend(piece_bytes());
    b.push(b'e');
    b
}

fn torrent_bytes() -> Vec<u8> {
    let mut b = format!("d8:announce{}:{}4:info", ANNOUNCE.len(), ANNOUNCE).into_bytes();
    b.extend(canonical_info_bytes());
    b.push(b'e');
    b
}

#[test]
fn info_hash_is_sha1_of_the_canonical_info() {
    let info = sample_info();
    let expected: [u8; 20] = Sha1::digest(canonical_info_bytes()).into();
    assert_eq!(info.hash().unwrap().0, expected);
    assert_eq!(encode(&info.to_value()), canonical_info_bytes());
}

#[test]
fn info_hash_depends_on_the_typed_info_only() {
    let a = sample_info().hash().unwrap();
    let b = sample_info().hash().unwrap();
    assert_eq!(a, b);
    let mut other = sample_info();
    other.name = "other.txt".to_string();
    assert_ne!(other.hash().unwrap(), a);
}

#[test]
fn info_hash_refuses_lengths_beyond_bencode_integers() {
    let mut info = sample_info();
    info.length = (i64::MAX as usize) + 1;
    assert_eq!(info.hash().unwrap_err(), MalformedTorrent::TooLarge);
}

#[test]
fn torrent_file_reads_its_fields() {
    let t = TorrentFile::from_bytes(&torrent_bytes()).unwrap();
    assert_eq!(t.announce, ANNOUNCE);
    assert_eq!(t.info.length, 92063);
    assert_eq!(t.info.name, "sample.txt");
    assert_eq!(t.info.piece_length, 32768);
    assert_eq!(t.info.pieces.len(), 3);
    assert_eq!(t.info.pieces[1], Piece(core::array::from_fn(|i| 20 + i as u8)));
}

#[test]
fn reencoded_info_is_the_info_substring_of_the_file() {
    let file = torrent_bytes();
    let t = TorrentFile::from_bytes(&file).unwrap();
    let again = encode(&t.info.to_value());
    let start = file.windows(again.len()).position(|w| w == again.as_slice());
    assert!(start.is_some());
    let expected: [u8; 20] = Sha1::digest(&again).into();
    assert_eq!(t.info.hash().unwrap().0, expected);
}

#[test]
fn describe_lists_the_summary() {
    let t = TorrentFile::from_bytes(&torrent_bytes()).unwrap();
    let hash = hex::encode(Sha1::digest(canonical_info_bytes()));
    let p = piece_bytes();
    let expected = format!(
        "Tracker URL: {}\nLength: 92063\nInfo Hash: {}\nPiece Length: 32768\nPiece Hashes:\n{}\n{}\n{}\n",
        ANNOUNCE,
        hash,
        hex::encode(&p[0..20]),
        hex::encode(&p[20..40]),
        hex::encode(&p[40..60])
    );
    assert_eq!(t.describe(), expected);
}

#[test]
fn torrent_errors() {
    assert!(matches!(
        TorrentFile::from_bytes(b"d8:announce"),
        Err(MalformedTorrent::Bencode(_))
    ));
    assert_eq!(
        TorrentFile::from_bytes(b"d4:infod6:lengthi1eee").unwrap_err(),
        MalformedTorrent::MissingField
    );
    assert_eq!(
        TorrentFile::from_bytes(b"i3e").unwrap_err(),
        MalformedTorrent::WrongType
    );
    let bad = b"d6:lengthi10e4:name1:a12:piece lengthi10e6:pieces19:aaaaaaaaaaaaaaaaaaae";
    let (v, _) = decode(bad).unwrap();
    assert_eq!(Info::from_value(&v).unwrap_err(), MalformedTorrent::PiecesLength);
    let count = b"d6:lengthi30e4:name1:a12:piece lengthi10e6:pieces20:aaaaaaaaaaaaaaaaaaaae";
    let (v, _) = decode(count).unwrap();
    assert_eq!(Info::from_value(&v).unwrap_err(), MalformedTorrent::PiecesLength);
    let neg = b"d6:lengthi-1e4:name1:a12:piece lengthi10e6:pieces0:e";
    let (v, _) = decode(neg).unwrap();
    assert_eq!(Info::from_value(&v).unwrap_err(), MalformedTorrent::WrongType);
    let bad_name = b"d6:lengthi0e4:name1:\xff12:piece lengthi10e6:pieces0:e";
    let (v, _) = decode(bad_name).unwrap();
    assert_eq!(Info::from_value(&v).unwrap_err(), MalformedTorrent::WrongType);
    assert_eq!(
        Info::from_value(&Value::List(vec![])).unwrap_err(),
        MalformedTorrent::WrongType
    );
}

#[test]
fn split_pieces_cuts_twenty_byte_hashes() {
    let p = piece_bytes();
    let hashes = split_pieces(&p);
    assert_eq!(hashes.len(), 3);
    assert_eq!(hashes[2].0[0], 40);
    assert_eq!(hashes[2].0[19], 59);
}

#[test]
fn other_info_entries_take_part_in_the_hash() {
    let mut info_bytes = canonical_info_bytes();
    info_bytes.pop();
    info_bytes.extend(b"7:privatei1ee");
    let mut file = format!("d8:announce{}:{}4:info", ANNOUNCE.len(), ANNOUNCE).into_bytes();
    file.extend(&info_bytes);
    file.push(b'e');
    let t = TorrentFile::from_bytes(&file).unwrap();
    assert_eq!(t.info.extra, vec![(b"private".to_vec(), Value::Integer(1))]);
    let expected: [u8; 20] = Sha1::digest(&info_bytes).into();
    assert_eq!(t.info.hash().unwrap().0, expected);

    let mut info = sample_info();
    info.extra = vec![(b"a".to_vec(), Value::Integer(1))];
    let mut sorted = b"d1:ai1e".to_vec();
    sorted.extend(&canonical_info_bytes()[1..]);
    assert_eq!(encode(&info.to_value()), sorted);
    let expected: [u8; 20] = Sha1::digest(&sorted).into();
    assert_eq!(info.hash().unwrap().0, expected);
}
