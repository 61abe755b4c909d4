use tracker_core::codec::{
    decode_response, encode_request, AnnounceRequest, ConnectRequest, Request, Response,
    ScrapeRequest,
};
use tracker_core::connection::{issue, validate};
use tracker_core::engine::{handle_packet, EngineConfig};
use tracker_core::janitor::JanitorSchedule;
use tracker_core::peer::{AnnounceEvent, InfoHash, PeerAddress, PeerId};
use tracker_core::registry::{ScrapeStats, SwarmRegistry};

fn hash(b: u8) -> InfoHash {
    InfoHash::new(vec![b; 20])
}

fn pid(b: u8) -> PeerId {
    PeerId::new(vec![b; 20])
}

fn cfg() -> EngineConfig {
    EngineConfig { secret: 0x5EED_5EED_5EED_5EED, window: 120, interval: 1800, max_numwant: 50 }
}

const CLIENT_IP: u32 = 0x0A00_0001;

fn connect(reg: &mut SwarmRegistry, now: u64) -> u64 {
    let packet = encode_request(&Request::Connect(ConnectRequest { transaction_id: 1 }));
    let reply = handle_packet(reg, &cfg(), CLIENT_IP, now, &packet).expect("connect owes a reply");
    match decode_response(&reply) {
        Some(Response::Connect(c)) => {
            assert_eq!(c.transaction_id, 1);
            c.connection_id
        },
        _ => panic!("connect got no connect response"),
    }
}

fn announce_packet(connection_id: u64, h: u8, p: u8, left: u64, event: AnnounceEvent) -> Vec<u8> {
    encode_request(&Request::Announce(AnnounceRequest {
        connection_id,
        transaction_id: 2,
        info_hash: hash(h),
        peer_id: pid(p),
        downloaded: 0,
        left,
        uploaded: 0,
        event,
        ip: 0,
        key: 0,
        numwant: 10,
        port: 7000 + p as u16,
    }))
}

// the wrong-magic connect is dropped outright: no reply datagram at all
#[test]
fn wrong_magic_connect_is_dropped_silently() {
    let mut reg = SwarmRegistry::new(false);
    let mut packet = encode_request(&Request::Connect(ConnectRequest { transaction_id: 1 }));
    packet[7] = 0x81; // corrupt the magic
    assert!(handle_packet(&mut reg, &cfg(), CLIENT_IP, 0, &packet).is_none());
    assert!(reg.swarms.is_empty());
}

#[test]
fn garbage_is_dropped_silently() {
    let mut reg = SwarmRegistry::new(false);
    assert!(handle_packet(&mut reg, &cfg(), CLIENT_IP, 0, &vec![1, 2, 3]).is_none());
    assert!(handle_packet(&mut reg, &cfg(), CLIENT_IP, 0, &vec![0u8; 17]).is_none());
}

#[test]
fn connect_then_announce_then_scrape() {
    let mut reg = SwarmRegistry::new(false);
    let now = 1000;
    let cid = connect(&mut reg, now);

    // the issued id validates for this client
    assert!(validate(cid, cfg().secret, CLIENT_IP, now, cfg().window));

    // first announce: empty peer list, seeder counted
    let reply = handle_packet(
        &mut reg,
        &cfg(),
        CLIENT_IP,
        now,
        &announce_packet(cid, 7, 1, 0, AnnounceEvent::Started),
    )
    .expect("announce owes a reply");
    match decode_response(&reply) {
        Some(Response::Announce(a)) => {
            assert_eq!(a.transaction_id, 2);
            assert_eq!(a.interval, 1800);
            assert_eq!(a.seeders, 1);
            assert_eq!(a.leechers, 0);
            assert!(a.peers.is_empty());
        },
        _ => panic!("announce got no announce response"),
    }

    // second peer: sees the first, source address filled in for ip 0
    let reply = handle_packet(
        &mut reg,
        &cfg(),
        CLIENT_IP,
        now,
        &announce_packet(cid, 7, 2, 50, AnnounceEvent::Started),
    )
    .expect("announce owes a reply");
    match decode_response(&reply) {
        Some(Response::Announce(a)) => {
            assert_eq!(a.seeders, 1);
            assert_eq!(a.leechers, 1);
            assert_eq!(a.peers, vec![PeerAddress { ip: CLIENT_IP, port: 7001 }]);
        },
        _ => panic!("announce got no announce response"),
    }

    // scrape the torrent and one never announced
    let packet = encode_request(&Request::Scrape(ScrapeRequest {
        connection_id: cid,
        transaction_id: 3,
        info_hashes: vec![hash(7), hash(200)],
    }));
    let reply = handle_packet(&mut reg, &cfg(), CLIENT_IP, now, &packet)
        .expect("scrape owes a reply");
    match decode_response(&reply) {
        Some(Response::Scrape(s)) => {
            assert_eq!(s.transaction_id, 3);
            assert_eq!(s.entries.len(), 2);
            assert_eq!(s.entries[0], ScrapeStats { seeders: 1, completed: 0, leechers: 1 });
            assert_eq!(s.entries[1], ScrapeStats { seeders: 0, completed: 0, leechers: 0 });
        },
        _ => panic!("scrape got no scrape response"),
    }
}

#[test]
fn bad_connection_id_gets_error_reply_and_no_effect() {
    let mut reg = SwarmRegistry::new(false);
    let now = 1000;
    let cid = connect(&mut reg, now);
    let reply = handle_packet(
        &mut reg,
        &cfg(),
        CLIENT_IP,
        now,
        &announce_packet(cid ^ 1, 7, 1, 0, AnnounceEvent::Started),
    )
    .expect("a recognized announce with a bad id owes an error");
    match decode_response(&reply) {
        Some(Response::Error(e)) => {
            assert_eq!(e.transaction_id, 2);
            assert_eq!(e.message, b"bad connection id".to_vec());
        },
        _ => panic!("expected an error response"),
    }
    assert!(reg.swarms.is_empty());
}

#[test]
fn connection_id_lifecycle() {
    let secret = 0xABCD_EF01_2345_6789;
    let window = 120;
    let ip = CLIENT_IP;
    let t = 1234;
    let id = issue(secret, ip, t, window);

    // good at issue time and just under one window later
    assert!(validate(id, secret, ip, t, window));
    assert!(validate(id, secret, ip, t + window - 1, window));
    // dead once two full windows have passed
    assert!(!validate(id, secret, ip, t + 2 * window, window));
    assert!(!validate(id, secret, ip, t + 10 * window, window));
    // never good for another address
    assert!(!validate(id, secret, 0x0A00_0002, t, window));
}

#[test]
fn expired_connection_id_gets_error_via_engine() {
    let mut reg = SwarmRegistry::new(false);
    let cid = connect(&mut reg, 1000);
    let later = 1000 + 2 * cfg().window;
    let reply = handle_packet(
        &mut reg,
        &cfg(),
        CLIENT_IP,
        later,
        &announce_packet(cid, 7, 1, 0, AnnounceEvent::Started),
    )
    .expect("an expired id owes an error");
    match decode_response(&reply) {
        Some(Response::Error(e)) => assert_eq!(e.transaction_id, 2),
        _ => panic!("expected an error response"),
    }
    assert!(reg.swarms.is_empty());
}

#[test]
fn numwant_is_clamped_by_the_engine() {
    let mut reg = SwarmRegistry::new(false);
    let config = EngineConfig { max_numwant: 2, ..cfg() };
    let now = 1000;
    let cid = connect(&mut reg, now);
    for p in 1..=4u8 {
        let mut pkt = announce_packet(cid, 7, p, 1, AnnounceEvent::Started);
        // ask for far more peers than the ceiling allows
        pkt[92..96].copy_from_slice(&1000u32.to_be_bytes());
        let reply = handle_packet(&mut reg, &config, CLIENT_IP, now, &pkt)
            .expect("announce owes a reply");
        match decode_response(&reply) {
            Some(Response::Announce(a)) => {
                // never more than the configured ceiling of 2
                assert_eq!(a.peers.len(), (p as usize - 1).min(2));
            },
            _ => panic!("announce got no announce response"),
        }
    }
}

#[test]
fn truncated_response_is_malformed() {
    let mut reg = SwarmRegistry::new(false);
    let cid = connect(&mut reg, 0);
    let reply = handle_packet(
        &mut reg,
        &cfg(),
        CLIENT_IP,
        0,
        &announce_packet(cid, 7, 1, 0, AnnounceEvent::Started),
    )
    .expect("announce owes a reply");
    let mut broken = reply.clone();
    broken.pop();
    assert!(decode_response(&broken).is_none());
    assert!(decode_response(&vec![0u8; 7]).is_none());
}

#[test]
fn janitor_schedule_ticks_on_its_interval() {
    let mut s = JanitorSchedule::new(600, 1000);
    assert!(!s.poll(1000));
    assert!(!s.poll(1599));
    assert!(s.poll(1600));
    assert!(!s.poll(1700));
    assert!(s.poll(2300));
}
