use tracker_core::codec::{
    decode_request, decode_response, encode_request, encode_response, AnnounceRequest,
    AnnounceResponse, ConnectRequest, ConnectResponse, ErrorResponse, Request, Response,
    ScrapeRequest, ScrapeResponse,
};
use tracker_core::peer::{AnnounceEvent, InfoHash, PeerAddress, PeerId};
use tracker_core::registry::ScrapeStats;

fn hash(b: u8) -> InfoHash {
    InfoHash::new(vec![b; 20])
}

fn pid(b: u8) -> PeerId {
    PeerId::new(vec![b; 20])
}

#[test]
fn connect_request_round_trip() {
    let req = Request::Connect(ConnectRequest { transaction_id: 0xDEADBEEF });
    let bytes = encode_request(&req);
    assert_eq!(bytes.len(), 16);
    // the fixed magic, big-endian
    assert_eq!(&bytes[0..8], &[0x00, 0x00, 0x04, 0x17, 0x27, 0x10, 0x19, 0x80]);
    assert_eq!(&bytes[8..12], &[0, 0, 0, 0]);
    assert_eq!(&bytes[12..16], &[0xDE, 0xAD, 0xBE, 0xEF]);
    match decode_request(&bytes) {
        Some(Request::Connect(c)) => assert_eq!(c.transaction_id, 0xDEADBEEF),
        _ => panic!("connect request did not round-trip"),
    }
}

#[test]
fn announce_request_round_trip() {
    let req = Request::Announce(AnnounceRequest {
        connection_id: 0x1122334455667788,
        transaction_id: 7,
        info_hash: hash(0xAB),
        peer_id: pid(0xCD),
        downloaded: 1000,
        left: 500,
        uploaded: 250,
        event: AnnounceEvent::Started,
        ip: 0,
        key: 42,
        numwant: 50,
        port: 6881,
    });
    let bytes = encode_request(&req);
    assert_eq!(bytes.len(), 98);
    match decode_request(&bytes) {
        Some(Request::Announce(a)) => {
            assert_eq!(a.connection_id, 0x1122334455667788);
            assert_eq!(a.transaction_id, 7);
            assert_eq!(a.info_hash.bytes, vec![0xAB; 20]);
            assert_eq!(a.peer_id.bytes, vec![0xCD; 20]);
            assert_eq!(a.downloaded, 1000);
            assert_eq!(a.left, 500);
            assert_eq!(a.uploaded, 250);
            assert_eq!(a.event, AnnounceEvent::Started);
            assert_eq!(a.ip, 0);
            assert_eq!(a.key, 42);
            assert_eq!(a.numwant, 50);
            assert_eq!(a.port, 6881);
        },
        _ => panic!("announce request did not round-trip"),
    }
}

#[test]
fn scrape_request_round_trip() {
    let req = Request::Scrape(ScrapeRequest {
        connection_id: 99,
        transaction_id: 3,
        info_hashes: vec![hash(1), hash(2), hash(3)],
    });
    let bytes = encode_request(&req);
    assert_eq!(bytes.len(), 16 + 3 * 20);
    match decode_request(&bytes) {
        Some(Request::Scrape(s)) => {
            assert_eq!(s.connection_id, 99);
            assert_eq!(s.transaction_id, 3);
            assert_eq!(s.info_hashes.len(), 3);
            assert_eq!(s.info_hashes[0].bytes, vec![1; 20]);
            assert_eq!(s.info_hashes[2].bytes, vec![3; 20]);
        },
        _ => panic!("scrape request did not round-trip"),
    }
}

#[test]
fn connect_response_round_trip() {
    let resp = Response::Connect(ConnectResponse { transaction_id: 5, connection_id: 77 });
    let bytes = encode_response(&resp);
    assert_eq!(bytes.len(), 16);
    match decode_response(&bytes) {
        Some(Response::Connect(c)) => {
            assert_eq!(c.transaction_id, 5);
            assert_eq!(c.connection_id, 77);
        },
        _ => panic!("connect response did not round-trip"),
    }
}

#[test]
fn announce_response_round_trip() {
    let resp = Response::Announce(AnnounceResponse {
        transaction_id: 9,
        interval: 1800,
        leechers: 2,
        seeders: 1,
        peers: vec![
            PeerAddress { ip: 0x7F000001, port: 6881 },
            PeerAddress { ip: 0x0A000001, port: 51413 },
        ],
    });
    let bytes = encode_response(&resp);
    assert_eq!(bytes.len(), 20 + 2 * 6);
    match decode_response(&bytes) {
        Some(Response::Announce(a)) => {
            assert_eq!(a.transaction_id, 9);
            assert_eq!(a.interval, 1800);
            assert_eq!(a.leechers, 2);
            assert_eq!(a.seeders, 1);
            assert_eq!(a.peers.len(), 2);
            assert_eq!(a.peers[0], PeerAddress { ip: 0x7F000001, port: 6881 });
            assert_eq!(a.peers[1], PeerAddress { ip: 0x0A000001, port: 51413 });
        },
        _ => panic!("announce response did not round-trip"),
    }
}

#[test]
fn scrape_response_round_trip() {
    let resp = Response::Scrape(ScrapeResponse {
        transaction_id: 4,
        entries: vec![
            ScrapeStats { seeders: 1, completed: 2, leechers: 3 },
            ScrapeStats { seeders: 0, completed: 0, leechers: 0 },
        ],
    });
    let bytes = encode_response(&resp);
    assert_eq!(bytes.len(), 8 + 2 * 12);
    match decode_response(&bytes) {
        Some(Response::Scrape(s)) => {
            assert_eq!(s.transaction_id, 4);
            assert_eq!(s.entries.len(), 2);
            assert_eq!(s.entries[0], ScrapeStats { seeders: 1, completed: 2, leechers: 3 });
        },
        _ => panic!("scrape response did not round-trip"),
    }
}

#[test]
fn error_response_round_trip() {
    let resp = Response::Error(ErrorResponse {
        transaction_id: 11,
        message: b"something went wrong".to_vec(),
    });
    let bytes = encode_response(&resp);
    match decode_response(&bytes) {
        Some(Response::Error(e)) => {
            assert_eq!(e.transaction_id, 11);
            assert_eq!(e.message, b"something went wrong".to_vec());
        },
        _ => panic!("error response did not round-trip"),
    }
}

#[test]
fn short_packet_is_malformed() {
    assert!(decode_request(&vec![0u8; 10]).is_none());
    assert!(decode_request(&Vec::new()).is_none());
}

#[test]
fn unknown_action_is_malformed() {
    let mut bytes = encode_request(&Request::Connect(ConnectRequest { transaction_id: 1 }));
    bytes[11] = 9; // action 9 exists in no exchange
    assert!(decode_request(&bytes).is_none());
}

#[test]
fn connect_with_wrong_magic_is_malformed() {
    let mut bytes = encode_request(&Request::Connect(ConnectRequest { transaction_id: 1 }));
    bytes[0] = 0xFF;
    assert!(decode_request(&bytes).is_none());
}

#[test]
fn negative_counter_is_malformed() {
    let req = Request::Announce(AnnounceRequest {
        connection_id: 1,
        transaction_id: 2,
        info_hash: hash(1),
        peer_id: pid(2),
        downloaded: 0x8000_0000_0000_0000, // negative as a signed wire integer
        left: 0,
        uploaded: 0,
        event: AnnounceEvent::NoEvent,
        ip: 0,
        key: 0,
        numwant: 10,
        port: 1,
    });
    let bytes = encode_request(&req);
    assert!(decode_request(&bytes).is_none());
}

#[test]
fn unknown_event_is_malformed() {
    let req = Request::Announce(AnnounceRequest {
        connection_id: 1,
        transaction_id: 2,
        info_hash: hash(1),
        peer_id: pid(2),
        downloaded: 0,
        left: 0,
        uploaded: 0,
        event: AnnounceEvent::NoEvent,
        ip: 0,
        key: 0,
        numwant: 10,
        port: 1,
    });
    let mut bytes = encode_request(&req);
    bytes[83] = 7; // event code 7 names nothing
    assert!(decode_request(&bytes).is_none());
}

#[test]
fn scrape_without_hashes_is_malformed() {
    let req = Request::Scrape(ScrapeRequest {
        connection_id: 1,
        transaction_id: 2,
        info_hashes: Vec::new(),
    });
    let bytes = encode_request(&req);
    assert_eq!(bytes.len(), 16);
    assert!(decode_request(&bytes).is_none());
}

#[test]
fn scrape_with_partial_hash_is_malformed() {
    let req = Request::Scrape(ScrapeRequest {
        connection_id: 1,
        transaction_id: 2,
        info_hashes: vec![hash(1)],
    });
    let mut bytes = encode_request(&req);
    bytes.pop();
    assert!(decode_request(&bytes).is_none());
}

#[test]
fn oversized_scrape_is_malformed() {
    let mut hashes = Vec::new();
    for i in 0..75u8 {
        hashes.push(hash(i));
    }
    let req = Request::Scrape(ScrapeRequest {
        connection_id: 1,
        transaction_id: 2,
        info_hashes: hashes,
    });
    let bytes = encode_request(&req);
    assert!(decode_request(&bytes).is_none());
}
