use bittorrent::tracker::{
    parse_compact_peers, parse_tracker_response, tracker_url, urlencode, Peer, TrackerError,
};
use bittorrent::torrent_file::InfoHash;

fn hash() -> InfoHash {
    let mut h = [0u8; 20];
    h[0] = 0xd6;
    h[1] = 0x9f;
    h[19] = 0x0a;
    InfoHash(h)
}

#[test]
fn info_hash_is_percent_encoded_byte_by_byte() {
    let s = urlencode(&hash());
    assert_eq!(s.len(), 60);
    assert!(s.starts_with("%d6%9f%00"));
    assert!(s.ends_with("%0a"));
}

#[test]
fn announce_url_carries_the_request() {
    let url = tracker_url("http://tracker.example/announce", &hash(), 92063);
    let expected = format!(
        "http://tracker.example/announce?peer_id=00112233445566778899&port=6881&uploaded=0&downloaded=0&left=92063&compact=1&info_hash={}",
        urlencode(&hash())
    );
    assert_eq!(url, expected);
}

#[test]
fn compact_peers_are_six_bytes_each() {
    let b = [165, 232, 33, 77, 0x1a, 0xe1, 127, 0, 0, 1, 0xc8, 0xd5];
    let peers = parse_compact_peers(&b).unwrap();
    assert_eq!(
        peers,
        vec![
            Peer { ip: [165, 232, 33, 77], port: 6881 },
            Peer { ip: [127, 0, 0, 1], port: 51413 },
        ]
    );
    assert_eq!(peers[0].address_text(), "165.232.33.77:6881");
    assert_eq!(parse_compact_peers(&b[..7]), Err(TrackerError::PeersLength));
    assert_eq!(parse_compact_peers(&[]), Ok(vec![]));
}

#[test]
fn tracker_response_parsing() {
    let mut body = b"d8:intervali60e5:peers6:".to_vec();
    body.extend([10, 0, 0, 2, 0, 80]);
    body.push(b'e');
    assert_eq!(
        parse_tracker_response(&body),
        Ok(vec![Peer { ip: [10, 0, 0, 2], port: 80 }])
    );
    assert_eq!(
        parse_tracker_response(b"d8:intervali60ee"),
        Err(TrackerError::MissingPeers)
    );
    assert_eq!(
        parse_tracker_response(b"d5:peers5:abcdee"),
        Err(TrackerError::PeersLength)
    );
    assert!(matches!(
        parse_tracker_response(b"<html>"),
        Err(TrackerError::Bencode(_))
    ));
}
