use torrent_client::tracker::{
    make_peer_id, parse_compact_peers, percent_encode_bytes, tracker_request_url, u64_to_decimal,
    PeerAddr,
};

#[test]
fn percent_encoding_mixes_literal_and_escaped() {
    let data = vec![0x12u8, b'a', 0xff, b'Z', b'0', 0x00];
    let r = percent_encode_bytes(&data);
    assert_eq!(r, b"%12a%ffZ0%00".to_vec());
}

#[test]
fn percent_encoding_of_empty_is_empty() {
    let r = percent_encode_bytes(&Vec::new());
    assert_eq!(r, Vec::<u8>::new());
}

#[test]
fn decimal_of_zero() {
    assert_eq!(u64_to_decimal(0), b"0".to_vec());
}

#[test]
fn decimal_of_ordinary_number() {
    assert_eq!(u64_to_decimal(12345), b"12345".to_vec());
}

#[test]
fn decimal_of_largest_number() {
    assert_eq!(u64_to_decimal(u64::MAX), b"18446744073709551615".to_vec());
}

#[test]
fn peer_id_is_twenty_alphanumerics() {
    let id = make_peer_id();
    assert_eq!(id.len(), 20);
    for b in id {
        assert!(b.is_ascii_alphanumeric());
    }
}

#[test]
fn compact_peer_list_split() {
    let data = vec![10u8, 0, 0, 1, 0x1a, 0xe1, 192, 168, 1, 2, 0, 80];
    let peers = parse_compact_peers(&data).unwrap();
    assert_eq!(peers.len(), 2);
    assert_eq!(
        peers[0],
        PeerAddr { ip0: 10, ip1: 0, ip2: 0, ip3: 1, port: 6881 },
    );
    assert_eq!(
        peers[1],
        PeerAddr { ip0: 192, ip1: 168, ip2: 1, ip3: 2, port: 80 },
    );
}

#[test]
fn ragged_compact_peer_list_rejected() {
    let data = vec![10u8, 0, 0, 1, 0x1a, 0xe1, 192];
    assert!(parse_compact_peers(&data).is_none());
}

#[test]
fn empty_compact_peer_list_is_empty() {
    let peers = parse_compact_peers(&Vec::new()).unwrap();
    assert_eq!(peers.len(), 0);
}

#[test]
fn announce_url_written_exactly() {
    let announce = b"http://t".to_vec();
    let hash = vec![0xabu8, b'7'];
    let peer_id = b"PEERID".to_vec();
    let url = tracker_request_url(&announce, &hash, &peer_id, 42);
    let expected = b"http://t?info_hash=%ab7&peer_id=PEERID&port=6881&uploaded=0&downloaded=0&left=42&compact=1&event=started".to_vec();
    assert_eq!(url, expected);
}
