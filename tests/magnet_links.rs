use bittorrent::magnet_link::{MagnetError, MagnetLink};

#[test]
fn parses_a_magnet_link() {
    let link = "magnet:?xt=urn:btih:ad42ce8109f54c99613ce38f9b4d87e70f24a165&dn=magnet1.gif&tr=http%3A%2F%2Fbittorrent-test-tracker.codecrafters.io%2Fannounce";
    let m = MagnetLink::parse(link).unwrap();
    assert_eq!(m.info_hash.urn, "btih");
    assert_eq!(m.info_hash.hash, "ad42ce8109f54c99613ce38f9b4d87e70f24a165");
    assert_eq!(m.display_name.as_deref(), Some("magnet1.gif"));
    assert_eq!(m.tracker_address.len(), 1);
    assert_eq!(
        m.tracker_address[0].as_str(),
        "http://bittorrent-test-tracker.codecrafters.io/announce"
    );
    assert!(m.peer_address.is_empty());
}

#[test]
fn keeps_only_parameters_that_are_urls() {
    let link = "magnet:?tr=not%20a%20url&xt=urn:btih:AbC09&x.pe=http%3A%2F%2F10.0.0.1%3A6881%2F&tr=udp%3A%2F%2Fa.b%3A1&junk&dn=x%20y";
    let m = MagnetLink::parse(link).unwrap();
    assert_eq!(m.info_hash.hash, "AbC09");
    assert_eq!(m.tracker_address.len(), 1);
    assert_eq!(m.tracker_address[0].as_str(), "udp://a.b:1");
    assert_eq!(m.peer_address.len(), 1);
    assert_eq!(m.display_name.as_deref(), Some("x%20y"));
}

#[test]
fn magnet_errors() {
    assert_eq!(MagnetLink::parse("magnet:xt=urn:btih:abc").err(), Some(MagnetError::MissingQuery));
    assert_eq!(MagnetLink::parse("http:?xt=urn:btih:abc").err(), Some(MagnetError::NotMagnet));
    assert_eq!(MagnetLink::parse("magnet:?dn=a").err(), Some(MagnetError::MissingInfoHash));
    assert_eq!(MagnetLink::parse("magnet:?xt=urn:btih").err(), Some(MagnetError::BadInfoHash));
    assert_eq!(MagnetLink::parse("magnet:?xt=uri:btih:abc").err(), Some(MagnetError::BadInfoHash));
    assert_eq!(MagnetLink::parse("magnet:?xt=urn:sha1:abc").err(), Some(MagnetError::BadInfoHash));
    assert_eq!(MagnetLink::parse("magnet:?xt=urn:btih:xyz").err(), Some(MagnetError::BadInfoHash));
    assert_eq!(MagnetLink::parse("magnet:?xt=urn:btih:").err(), Some(MagnetError::BadInfoHash));
    assert_eq!(MagnetLink::parse("magnet:?xt=urn:btih:ab:cd").err(), Some(MagnetError::BadInfoHash));
    assert_eq!(
        MagnetLink::parse("magnet:?xt=urn:btih:ab&xt=urn:btih:cd").err(),
        Some(MagnetError::RepeatedInfoHash)
    );
}

#[test]
fn unknown_keys_are_ignored_and_trackers_keep_their_order() {
    let link = "magnet:?xt=urn:btih:d69f91e6b2ae4c542468d1073a71d4ea13879a7f&dn=sample.torrent&tr=http%3A%2F%2Fbittorrent-test-tracker.codecrafters.io%2Fannounce&foo=bar&tr=http%3A%2F%2Fsecond.example%2Fa";
    let m = MagnetLink::parse(link).unwrap();
    assert_eq!(m.info_hash.urn, "btih");
    assert_eq!(m.info_hash.hash, "d69f91e6b2ae4c542468d1073a71d4ea13879a7f");
    assert_eq!(m.display_name.as_deref(), Some("sample.torrent"));
    let trackers: Vec<&str> = m.tracker_address.iter().map(|u| u.as_str()).collect();
    assert_eq!(
        trackers,
        vec!["http://bittorrent-test-tracker.codecrafters.io/announce", "http://second.example/a"]
    );
    assert!(m.peer_address.is_empty());
}
