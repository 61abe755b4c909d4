use tracker_core::peer::{AnnounceEvent, InfoHash, PeerAddress, PeerEntry, PeerId};
use tracker_core::registry::{ScrapeStats, SwarmRegistry};

fn hash(b: u8) -> InfoHash {
    InfoHash::new(vec![b; 20])
}

fn pid(b: u8) -> PeerId {
    PeerId::new(vec![b; 20])
}

fn entry(ip: u32, port: u16, left: u64, event: AnnounceEvent, now: u64) -> PeerEntry {
    PeerEntry {
        addr: PeerAddress { ip, port },
        uploaded: 0,
        downloaded: 0,
        left,
        event,
        last_announce: now,
    }
}

fn swarm_peer_count(reg: &SwarmRegistry, h: &InfoHash) -> usize {
    match reg.find_swarm(h) {
        Some(i) => reg.swarms[i].swarm.peer_count(),
        None => 0,
    }
}

#[test]
fn announce_scenario_empty_then_two_peers_then_stop() {
    let mut reg = SwarmRegistry::new(false);
    let h = hash(7);

    // peer A starts on an empty swarm: no peers back, swarm now holds one
    let reply = reg.announce(&h, &pid(1), entry(10, 1000, 100, AnnounceEvent::Started, 1), 10);
    assert!(reply.is_empty());
    assert_eq!(swarm_peer_count(&reg, &h), 1);

    // peer B announces: gets exactly A back
    let reply = reg.announce(&h, &pid(2), entry(20, 2000, 0, AnnounceEvent::Started, 2), 10);
    assert_eq!(reply.len(), 1);
    assert_eq!(reply[0], PeerAddress { ip: 10, port: 1000 });
    assert_eq!(swarm_peer_count(&reg, &h), 2);

    // A stops: the swarm is back to one peer, B alone
    let reply = reg.announce(&h, &pid(1), entry(10, 1000, 100, AnnounceEvent::Stopped, 3), 10);
    assert!(reply.is_empty());
    assert_eq!(swarm_peer_count(&reg, &h), 1);

    // a third peer now only ever sees B
    let reply = reg.announce(&h, &pid(3), entry(30, 3000, 5, AnnounceEvent::Started, 4), 10);
    assert_eq!(reply.len(), 1);
    assert_eq!(reply[0], PeerAddress { ip: 20, port: 2000 });
}

#[test]
fn scrape_of_unknown_torrent_is_zero_not_error() {
    let reg = SwarmRegistry::new(false);
    let stats = reg.scrape(&vec![hash(9)]);
    assert_eq!(stats.len(), 1);
    assert_eq!(stats[0], ScrapeStats { seeders: 0, completed: 0, leechers: 0 });
}

#[test]
fn seeders_and_leechers_partition_the_swarm() {
    let mut reg = SwarmRegistry::new(false);
    let h = hash(1);
    reg.announce(&h, &pid(1), entry(1, 1, 0, AnnounceEvent::Started, 1), 0);
    reg.announce(&h, &pid(2), entry(2, 2, 0, AnnounceEvent::Started, 1), 0);
    reg.announce(&h, &pid(3), entry(3, 3, 999, AnnounceEvent::Started, 1), 0);
    let stats = reg.scrape(&vec![hash(1)]);
    assert_eq!(stats[0].seeders, 2);
    assert_eq!(stats[0].leechers, 1);
    assert_eq!(stats[0].seeders + stats[0].leechers, 3);
}

#[test]
fn completed_event_bumps_the_counter() {
    let mut reg = SwarmRegistry::new(false);
    let h = hash(4);
    reg.announce(&h, &pid(1), entry(1, 1, 5, AnnounceEvent::Started, 1), 0);
    reg.announce(&h, &pid(1), entry(1, 1, 0, AnnounceEvent::Completed, 2), 0);
    let stats = reg.scrape(&vec![hash(4)]);
    assert_eq!(stats[0], ScrapeStats { seeders: 1, completed: 1, leechers: 0 });
}

#[test]
fn reannounce_updates_not_duplicates() {
    let mut reg = SwarmRegistry::new(false);
    let h = hash(5);
    reg.announce(&h, &pid(1), entry(1, 1, 100, AnnounceEvent::Started, 1), 0);
    reg.announce(&h, &pid(1), entry(1, 1, 0, AnnounceEvent::NoEvent, 2), 0);
    assert_eq!(swarm_peer_count(&reg, &h), 1);
    let stats = reg.scrape(&vec![hash(5)]);
    assert_eq!(stats[0].seeders, 1);
    assert_eq!(stats[0].leechers, 0);
}

#[test]
fn stopped_peer_is_absent_from_results() {
    let mut reg = SwarmRegistry::new(false);
    let h = hash(6);
    reg.announce(&h, &pid(1), entry(11, 11, 0, AnnounceEvent::Started, 1), 0);
    reg.announce(&h, &pid(2), entry(22, 22, 1, AnnounceEvent::Started, 1), 0);
    reg.announce(&h, &pid(1), entry(11, 11, 0, AnnounceEvent::Stopped, 2), 0);

    let stats = reg.scrape(&vec![hash(6)]);
    assert_eq!(stats[0].seeders, 0);
    assert_eq!(stats[0].leechers, 1);

    let reply = reg.announce(&h, &pid(3), entry(33, 33, 1, AnnounceEvent::Started, 3), 10);
    assert!(!reply.contains(&PeerAddress { ip: 11, port: 11 }));
    assert_eq!(reply, vec![PeerAddress { ip: 22, port: 22 }]);
}

#[test]
fn stopped_announce_on_unknown_torrent_is_a_no_op() {
    let mut reg = SwarmRegistry::new(false);
    let reply = reg.announce(&hash(8), &pid(1), entry(1, 1, 0, AnnounceEvent::Stopped, 1), 10);
    assert!(reply.is_empty());
    assert!(reg.find_swarm(&hash(8)).is_none());
}

#[test]
fn numwant_caps_the_reply() {
    let mut reg = SwarmRegistry::new(false);
    let h = hash(2);
    for i in 1..=5u8 {
        reg.announce(&h, &pid(i), entry(i as u32, i as u16, 1, AnnounceEvent::Started, 1), 0);
    }
    let reply = reg.announce(&h, &pid(9), entry(9, 9, 1, AnnounceEvent::Started, 2), 3);
    assert_eq!(reply.len(), 3);
    let reply = reg.announce(&h, &pid(9), entry(9, 9, 1, AnnounceEvent::NoEvent, 3), 100);
    assert_eq!(reply.len(), 5);
}

#[test]
fn cleanup_drops_stale_peers_and_empty_swarms() {
    let mut reg = SwarmRegistry::new(false);
    let h1 = hash(1);
    let h2 = hash(2);
    reg.announce(&h1, &pid(1), entry(1, 1, 0, AnnounceEvent::Started, 100), 0);
    reg.announce(&h1, &pid(2), entry(2, 2, 1, AnnounceEvent::Started, 950), 0);
    reg.announce(&h2, &pid(3), entry(3, 3, 1, AnnounceEvent::Started, 100), 0);

    // at time 1000 with a 600 s budget, everything from t=100 is stale
    reg.cleanup(1000, 600);

    assert_eq!(swarm_peer_count(&reg, &h1), 1); // only the t=950 peer remains
    assert!(reg.find_swarm(&h2).is_none()); // swarm left empty is gone
}

#[test]
fn cleanup_keeps_empty_swarms_under_retention() {
    let mut reg = SwarmRegistry::new(true);
    let h = hash(3);
    reg.announce(&h, &pid(1), entry(1, 1, 0, AnnounceEvent::Completed, 100), 0);
    reg.cleanup(1000, 600);
    assert!(reg.find_swarm(&h).is_some());
    assert_eq!(swarm_peer_count(&reg, &h), 0);
    // the historical completed count survives the peer
    let stats = reg.scrape(&vec![hash(3)]);
    assert_eq!(stats[0], ScrapeStats { seeders: 0, completed: 1, leechers: 0 });
}

#[test]
fn cleanup_spares_fresh_peers() {
    let mut reg = SwarmRegistry::new(false);
    let h = hash(4);
    reg.announce(&h, &pid(1), entry(1, 1, 0, AnnounceEvent::Started, 500), 0);
    reg.cleanup(1000, 600);
    assert_eq!(swarm_peer_count(&reg, &h), 1);
}

#[test]
fn snapshot_and_restore_round_trip() {
    let mut reg = SwarmRegistry::new(false);
    let h = hash(1);
    reg.announce(&h, &pid(1), entry(1, 1, 0, AnnounceEvent::Started, 1), 0);
    reg.announce(&h, &pid(2), entry(2, 2, 9, AnnounceEvent::Started, 1), 0);

    let snap = reg.snapshot();
    reg.announce(&h, &pid(1), entry(1, 1, 0, AnnounceEvent::Stopped, 2), 0);
    assert_eq!(swarm_peer_count(&reg, &h), 1);

    reg.restore(snap);
    assert_eq!(swarm_peer_count(&reg, &h), 2);
    let stats = reg.scrape(&vec![hash(1)]);
    assert_eq!(stats[0].seeders, 1);
    assert_eq!(stats[0].leechers, 1);
}
