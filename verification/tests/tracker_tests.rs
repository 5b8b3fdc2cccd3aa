use torrent_core::bencode::BencodeValue;
use torrent_core::logger::{LogLevel, LoggingEvent};
use torrent_core::tracker::{Tracker, TrackerError, TrackerEvent, TrackerRequest};

#[test]
fn peer_id_has_client_tag_and_twenty_octets() {
    let id = Tracker::generate_peer_id(0x0102030405060708);
    assert_eq!(id.len(), 20);
    assert_eq!(&id[0..8], b"-RS0000-");
    // Twelve timestamp-derived bytes, little-endian words wrapping at eight.
    assert_eq!(id[8], 0x08);
    assert_eq!(id[9], 0x07);
    assert_eq!(id[15], 0x01);
    assert_eq!(id[16], 0x08);
    // Deterministic in the timestamp.
    assert_eq!(id, Tracker::generate_peer_id(0x0102030405060708));
    let t = Tracker::new("http://t".to_string(), 0x0102030405060708);
    assert_eq!(t.get_peer_id(), &id);
}

#[test]
fn url_encode_keeps_unreserved_and_escapes_the_rest() {
    assert_eq!(Tracker::url_encode(b"AZaz09-_.~"), "AZaz09-_.~");
    assert_eq!(Tracker::url_encode(b" "), "%20");
    assert_eq!(Tracker::url_encode(&[0x00, 0xFF, 0x1B]), "%00%FF%1B");
    assert_eq!(Tracker::url_encode(b"a/b"), "a%2Fb");
}

#[test]
fn announce_url_lists_all_parameters() {
    let tracker = Tracker {
        announce_url: "http://t.example/announce".to_string(),
        peer_id: b"-RS0000-AAAABBBBCCCC".to_vec(),
    };
    let req = TrackerRequest {
        info_hash: vec![0x01, 0xAB, b'z'],
        left: 42,
        uploaded: 0,
        downloaded: 7,
        port: 6881,
        compact: true,
        event: Some(TrackerEvent::Started),
    };
    let url = tracker.build_announce_url(&req);
    assert_eq!(
        url,
        "http://t.example/announce?info_hash=%01%ABz&peer_id=-RS0000-AAAABBBBCCCC\
         &port=6881&uploaded=0&downloaded=7&left=42&compact=1&event=started"
    );
    let quiet = TrackerRequest { event: None, compact: false, ..req };
    let url2 = tracker.build_announce_url(&quiet);
    assert!(url2.ends_with("&compact=0"));
}

#[test]
fn event_names() {
    assert_eq!(TrackerEvent::Started.as_str(), "started");
    assert_eq!(TrackerEvent::Completed.as_str(), "completed");
    assert_eq!(TrackerEvent::Stopped.as_str(), "stopped");
}

#[test]
fn parse_response_reads_fields_and_list_peers() {
    let peer = |ip: &[u8], port: i64| {
        BencodeValue::Dictionary(vec![
            (b"ip".to_vec(), BencodeValue::Bytes(ip.to_vec())),
            (b"port".to_vec(), BencodeValue::Integer(port)),
        ])
    };
    let response = BencodeValue::Dictionary(vec![
        (b"complete".to_vec(), BencodeValue::Integer(5)),
        (b"incomplete".to_vec(), BencodeValue::Integer(2)),
        (b"interval".to_vec(), BencodeValue::Integer(1800)),
        (
            b"peers".to_vec(),
            BencodeValue::List(vec![peer(b"10.0.0.1", 6881), peer(b"example.net", 51413)]),
        ),
        (b"tracker id".to_vec(), BencodeValue::Bytes(b"tid".to_vec())),
    ])
    .encode();
    let tracker = Tracker::new("http://t".to_string(), 1);
    let resp = tracker.parse_tracker_response(&response).unwrap();
    assert_eq!(resp.interval, 1800);
    assert_eq!(resp.complete, Some(5));
    assert_eq!(resp.incomplete, Some(2));
    assert_eq!(resp.tracker_id, Some("tid".to_string()));
    assert_eq!(resp.peers.len(), 2);
    assert_eq!(resp.peers[0].ip, b"10.0.0.1".to_vec());
    assert_eq!(resp.peers[0].port, 6881);
    assert_eq!(resp.peers[1].ip, b"example.net".to_vec());
    assert_eq!(resp.peers[1].port, 51413);
}

#[test]
fn parse_response_reads_compact_peers() {
    let records = vec![10u8, 0, 0, 1, 0x1A, 0xE1, 192, 168, 1, 9, 0xC8, 0xD5];
    let response = BencodeValue::Dictionary(vec![
        (b"interval".to_vec(), BencodeValue::Integer(60)),
        (b"peers".to_vec(), BencodeValue::Bytes(records)),
    ])
    .encode();
    let tracker = Tracker::new("http://t".to_string(), 1);
    let resp = tracker.parse_tracker_response(&response).unwrap();
    assert_eq!(resp.peers.len(), 2);
    assert_eq!(resp.peers[0].ip, vec![10, 0, 0, 1]);
    assert_eq!(resp.peers[0].port, 6881);
    assert_eq!(resp.peers[1].ip, vec![192, 168, 1, 9]);
    assert_eq!(resp.peers[1].port, 51413);
}

#[test]
fn parse_response_surfaces_failure_reason() {
    let response = BencodeValue::Dictionary(vec![(
        b"failure reason".to_vec(),
        BencodeValue::Bytes(b"torrent unknown".to_vec()),
    )])
    .encode();
    let tracker = Tracker::new("http://t".to_string(), 1);
    match tracker.parse_tracker_response(&response).unwrap_err() {
        TrackerError::Failure(reason) => assert_eq!(reason, b"torrent unknown".to_vec()),
        other => panic!("expected a tracker failure, got {:?}", other),
    }
}

#[test]
fn parse_response_rejects_non_dictionary() {
    let tracker = Tracker::new("http://t".to_string(), 1);
    assert_eq!(
        tracker.parse_tracker_response(b"i3e").unwrap_err(),
        TrackerError::NotADictionary
    );
    assert!(matches!(
        tracker.parse_tracker_response(b"garbage").unwrap_err(),
        TrackerError::Syntax(_)
    ));
}

#[test]
fn parse_response_rejects_malformed_peers() {
    let response = BencodeValue::Dictionary(vec![(
        b"peers".to_vec(),
        BencodeValue::Bytes(vec![1, 2, 3, 4, 5]),
    )])
    .encode();
    let tracker = Tracker::new("http://t".to_string(), 1);
    assert_eq!(
        tracker.parse_tracker_response(&response).unwrap_err(),
        TrackerError::InvalidPeers
    );
}

#[test]
fn log_levels_and_events_have_names_and_priorities() {
    assert_eq!(LogLevel::ERROR.to_str(), "ERROR");
    assert_eq!(LogLevel::TRACE.to_str(), "TRACE");
    assert!(LogLevel::ERROR.priority() < LogLevel::WARN.priority());
    assert!(LogLevel::WARN.priority() < LogLevel::INFO.priority());
    assert!(LogLevel::INFO.priority() < LogLevel::DEBUG.priority());
    assert!(LogLevel::DEBUG.priority() < LogLevel::TRACE.priority());
    assert_eq!(LoggingEvent::APPSTARTED.to_str(), "APP_STARTED");
    assert_eq!(LoggingEvent::TORRENTFOUND.to_str(), "TORRENT_FOUND");
}
