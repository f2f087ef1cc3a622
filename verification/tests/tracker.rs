use bittorrent::bencode::ParseError;
use bittorrent::metainfo::{Torrent, TorrentInfo};
use bittorrent::tracker::{announce_request, peers, tracker_request, TrackerResponse};

fn pieces(n: u8) -> Vec<u8> {
    (0..n).collect()
}

fn response(peers: &[u8]) -> Vec<u8> {
    let mut bytes = format!("d8:intervali1800e5:peers{}:", peers.len()).into_bytes();
    bytes.extend_from_slice(peers);
    bytes.push(b'e');
    bytes
}

#[test]
fn lists_the_peers_of_a_response() {
    let body = response(&[192, 168, 0, 1, 0x1a, 0xe1, 10, 0, 0, 255, 0xc8, 0xd5]);
    assert_eq!(
        peers(&body),
        Ok(vec!["192.168.0.1:6881".to_string(), "10.0.0.255:51413".to_string()])
    );
}

#[test]
fn computes_the_port_from_its_two_bytes() {
    let one = TrackerResponse::new(0, vec![0, 0, 0, 0, 0, 0]).unwrap();
    assert_eq!(one.get_peer_addresses(), vec!["0.0.0.0:0".to_string()]);
    let two = TrackerResponse::new(0, vec![255, 255, 255, 255, 255, 255]).unwrap();
    assert_eq!(two.get_peer_addresses(), vec!["255.255.255.255:65535".to_string()]);
    let three = TrackerResponse::new(0, vec![1, 2, 3, 4, 1, 0]).unwrap();
    assert_eq!(three.get_peer_addresses(), vec!["1.2.3.4:256".to_string()]);
    let four = TrackerResponse::new(0, vec![1, 2, 3, 4, 0, 255]).unwrap();
    assert_eq!(four.get_peer_addresses(), vec!["1.2.3.4:255".to_string()]);
}

#[test]
fn keeps_the_order_of_the_records() {
    let mut list = Vec::new();
    for i in 0..5u8 {
        list.extend_from_slice(&[i, i, i, i, 0, i]);
    }
    let response = TrackerResponse::new(60, list.clone()).unwrap();
    assert_eq!(response.interval(), 60);
    assert_eq!(response.peers(), &list);
    let addresses = response.get_peer_addresses();
    assert_eq!(addresses.len(), 5);
    for i in 0..5usize {
        assert_eq!(addresses[i], format!("{0}.{0}.{0}.{0}:{0}", i));
    }
}

#[test]
fn a_response_without_peers_lists_none() {
    assert_eq!(peers(&response(&[])), Ok(vec![]));
}

#[test]
fn reads_a_response() {
    let body = response(&[1, 2, 3, 4, 5, 6]);
    let response = TrackerResponse::from_bytes(&body).unwrap();
    assert_eq!(response.interval(), 1800);
    assert_eq!(response.peers(), &vec![1, 2, 3, 4, 5, 6]);
    let more = b"d8:completei3e10:incompletei1e8:intervali60e12:min intervali30e5:peers0:e";
    assert_eq!(TrackerResponse::from_bytes(more).unwrap().interval(), 60);
}

#[test]
fn refuses_peers_that_are_not_whole_records() {
    assert_eq!(
        TrackerResponse::new(1, vec![1, 2, 3, 4, 5]),
        Err(ParseError::PartialRecord)
    );
    assert_eq!(
        peers(&response(&[1, 2, 3, 4, 5, 6, 7])),
        Err(ParseError::PartialRecord)
    );
}

#[test]
fn refuses_a_response_of_another_shape() {
    assert_eq!(peers(b"d5:peers0:e"), Err(ParseError::MissingField));
    assert_eq!(peers(b"d8:intervali1ee"), Err(ParseError::MissingField));
    assert_eq!(peers(b"d8:interval1:15:peers0:e"), Err(ParseError::WrongKind));
    assert_eq!(peers(b"d8:intervali1e5:peerslee"), Err(ParseError::WrongKind));
    assert_eq!(peers(b"d8:intervali-1e5:peers0:e"), Err(ParseError::WrongKind));
    assert_eq!(peers(b"l8:intervale"), Err(ParseError::WrongKind));
    assert_eq!(peers(b"d14:failure reason4:nopee"), Err(ParseError::MissingField));
    assert_eq!(peers(b""), Err(ParseError::UnexpectedEnd));
    assert_eq!(peers(b"<html>"), Err(ParseError::UnhandledValue));
}

#[test]
fn builds_the_url_of_an_announce() {
    let hash = [
        0x00, 0x20, 0x2d, 0x2e, 0x5f, 0x7e, 0x41, 0x7a, 0x30, 0xff, 0x2f, 0x25,
    ];
    assert_eq!(
        announce_request("http://t/a", &hash, b"-AB1234-\x01\x02", 51413, 7),
        "http://t/a?info_hash=%00%20-._~Az0%FF%2F%25&peer_id=-AB1234-%01%02&port=51413&uploaded=0&downloaded=0&left=7&compact=1"
    );
    assert_eq!(
        announce_request("", &[], &[], 0, 4294967295),
        "?info_hash=&peer_id=&port=0&uploaded=0&downloaded=0&left=4294967295&compact=1"
    );
}

#[test]
fn builds_the_url_of_this_clients_announce() {
    let torrent = Torrent::new(
        "http://tracker.example.com:6969/announce".to_string(),
        TorrentInfo::new(92063, "sample.txt".to_string(), 32768, pieces(60)).unwrap(),
    );
    assert_eq!(
        tracker_request(&torrent),
        "http://tracker.example.com:6969/announce?info_hash=%F5%19%C3%A2AD%A8d%9EX%EF%C3%E3Y%B5%1A8%60T%D6&peer_id=18693067284950604732&port=6881&uploaded=0&downloaded=0&left=92063&compact=1"
    );
}
