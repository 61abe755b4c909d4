//! The per-datagram protocol engine: decode one inbound datagram,
//! authenticate it where the protocol demands it, dispatch it against
//! the registry and the connection-id authority, and encode at most
//! one reply datagram.
//!
//! A datagram that does not decode is dropped silently — no reply, no
//! registry effect — so garbage traffic cannot be amplified. A
//! recognized announce or scrape whose connection id does not validate
//! gets an error reply carrying its transaction id, again with no
//! registry effect.

use vstd::prelude::*;
use crate::codec::{
    decode_request, encode_response, spec_decode_request, spec_decode_response,
    spec_encode_response, AnnounceRequestV, AnnounceResponse, ConnectResponse, ErrorResponse,
    Request, RequestV, Response, ResponseV, ScrapeResponse,
};
use crate::connection::{issue, spec_connection_id, spec_validate, validate};
use crate::peer::{PeerAddress, PeerEntry};
use crate::registry::{
    announce_rel, clamp32, clamp_count, has_swarm, lemma_swarm_index_is, scrape_one, swarm_at,
    SwarmRegistry,
};
use crate::swarm::{count_leechers, count_seeders, SwarmPeer};

verus! {

/// What the engine needs to know besides the registry: the
/// connection-id secret and window, the reannounce interval it tells
/// clients, and the ceiling it clamps `numwant` to.
#[derive(Clone, Copy, PartialEq, Eq, Structural, Debug)]
pub struct EngineConfig {
    pub secret: u64,
    pub window: u64,
    pub interval: u32,
    pub max_numwant: u32,
}

impl EngineConfig {
    /// The window must not be empty, or no bucket arithmetic makes
    /// sense.
    pub open spec fn wf(&self) -> bool {
        self.window > 0
    }
}

/// `numwant` as served: what the client asked for, but never more
/// than the configured ceiling.
pub open spec fn clamped_numwant(requested: u32, max: u32) -> u32 {
    if requested > max {
        max
    } else {
        requested
    }
}

/// The peer entry one announce asks the registry to store: the
/// address taken from the request, falling back to the datagram's
/// source address when the request leaves the ip field zero, and the
/// announce time stamped in.
pub open spec fn entry_of_request(a: AnnounceRequestV, src_ip: u32, now: u64) -> PeerEntry {
    PeerEntry {
        addr: PeerAddress { ip: if a.ip != 0 { a.ip } else { src_ip }, port: a.port },
        uploaded: a.uploaded,
        downloaded: a.downloaded,
        left: a.left,
        event: a.event,
        last_announce: now,
    }
}

/// The peers of the swarm under `h`, or none when no such swarm is
/// tracked.
pub open spec fn swarm_peers_or_empty(
    slots: Seq<crate::registry::SwarmSlot>,
    h: Seq<u8>,
) -> Seq<SwarmPeer> {
    if has_swarm(slots, h) {
        swarm_at(slots, h).peers@
    } else {
        Seq::empty()
    }
}

/// The message of the error reply sent for a bad connection id.
pub open spec fn auth_error_text() -> Seq<u8> {
    seq![
        98u8, 97u8, 100u8, 32u8, 99u8, 111u8, 110u8, 110u8, 101u8, 99u8, 116u8, 105u8, 111u8,
        110u8, 32u8, 105u8, 100u8,
    ]
}

/// Builds the "bad connection id" message bytes.
fn auth_error_message() -> (r: Vec<u8>)
    ensures
        r@ == auth_error_text(),
{
    let mut r: Vec<u8> = Vec::new();
    r.push(98);
    r.push(97);
    r.push(100);
    r.push(32);
    r.push(99);
    r.push(111);
    r.push(110);
    r.push(110);
    r.push(101);
    r.push(99);
    r.push(116);
    r.push(105);
    r.push(111);
    r.push(110);
    r.push(32);
    r.push(105);
    r.push(100);
    proof {
        assert(r@ =~= auth_error_text());
    }
    r
}

/// Handles one inbound datagram from `src_ip` at time `now` and
/// returns the reply datagram, if the protocol owes one.
///
/// - A packet that does not decode is dropped: no reply, no effect.
/// - A connect request is answered with a fresh connection id for the
///   source address; the registry is untouched.
/// - An announce or scrape whose connection id does not validate for
///   the source address gets an error reply and has no effect.
/// - A validated announce is applied to the registry exactly as
///   [`announce_rel`] states, and answered with the configured
///   interval, the swarm's counts after the announce, and the peers
///   the registry handed back.
/// - A validated scrape is answered with the counts of each requested
///   torrent in request order; the registry is untouched.
pub fn handle_packet(
    registry: &mut SwarmRegistry,
    cfg: &EngineConfig,
    src_ip: u32,
    now: u64,
    packet: &Vec<u8>,
) -> (out: Option<Vec<u8>>)
    requires
        old(registry).wf(),
        cfg.wf(),
    ensures
        final(registry).wf(),
        final(registry).retain_empty == old(registry).retain_empty,
        match spec_decode_request(packet@) {
            None => *final(registry) == *old(registry) && out is None,
            Some(RequestV::Connect { transaction_id }) => {
                &&& *final(registry) == *old(registry)
                &&& out matches Some(o) && o@ == spec_encode_response(
                    ResponseV::Connect(
                        ConnectResponse {
                            transaction_id,
                            connection_id: spec_connection_id(
                                cfg.secret,
                                src_ip,
                                now / cfg.window,
                            ),
                        },
                    ),
                )
            },
            Some(RequestV::Announce(a)) => {
                if !spec_validate(a.connection_id, cfg.secret, src_ip, now, cfg.window) {
                    &&& *final(registry) == *old(registry)
                    &&& out matches Some(o) && spec_decode_response(o@) matches Some(
                        ResponseV::Error(e),
                    ) && e.transaction_id == a.transaction_id && e.message == auth_error_text()
                } else {
                    &&& out matches Some(o) && spec_decode_response(o@) matches Some(
                        ResponseV::Announce(av),
                    ) && {
                        &&& av.transaction_id == a.transaction_id
                        &&& av.interval == cfg.interval
                        &&& av.leechers == clamp32(
                            count_leechers(
                                swarm_peers_or_empty(final(registry).swarms@, a.info_hash),
                            ),
                        )
                        &&& av.seeders == clamp32(
                            count_seeders(
                                swarm_peers_or_empty(final(registry).swarms@, a.info_hash),
                            ),
                        )
                        &&& announce_rel(
                            old(registry).swarms@,
                            final(registry).swarms@,
                            a.info_hash,
                            a.peer_id,
                            entry_of_request(a, src_ip, now),
                            clamped_numwant(a.numwant, cfg.max_numwant) as int,
                            av.peers,
                        )
                    }
                }
            },
            Some(RequestV::Scrape(sc)) => {
                if !spec_validate(sc.connection_id, cfg.secret, src_ip, now, cfg.window) {
                    &&& *final(registry) == *old(registry)
                    &&& out matches Some(o) && spec_decode_response(o@) matches Some(
                        ResponseV::Error(e),
                    ) && e.transaction_id == sc.transaction_id && e.message == auth_error_text()
                } else {
                    &&& *final(registry) == *old(registry)
                    &&& out matches Some(o) && spec_decode_response(o@) matches Some(
                        ResponseV::Scrape(sv),
                    ) && {
                        &&& sv.transaction_id == sc.transaction_id
                        &&& sv.entries.len() == sc.info_hashes.len()
                        &&& forall|k: int|
                            0 <= k < sv.entries.len() ==> sv.entries[k] == scrape_one(
                                old(registry).swarms@,
                                sc.info_hashes[k],
                            )
                    }
                }
            },
        },
{
    match decode_request(packet) {
        None => None,
        Some(Request::Connect(c)) => {
            let cid = issue(cfg.secret, src_ip, now, cfg.window);
            let resp = Response::Connect(
                ConnectResponse { transaction_id: c.transaction_id, connection_id: cid },
            );
            Some(encode_response(&resp))
        },
        Some(Request::Announce(a)) => {
            if !validate(a.connection_id, cfg.secret, src_ip, now, cfg.window) {
                let resp = Response::Error(
                    ErrorResponse {
                        transaction_id: a.transaction_id,
                        message: auth_error_message(),
                    },
                );
                let o = encode_response(&resp);
                proof {
                    crate::codec::lemma_response_roundtrip(resp@);
                }
                Some(o)
            } else {
                let entry = PeerEntry {
                    addr: PeerAddress {
                        ip: if a.ip != 0 {
                            a.ip
                        } else {
                            src_ip
                        },
                        port: a.port,
                    },
                    uploaded: a.uploaded,
                    downloaded: a.downloaded,
                    left: a.left,
                    event: a.event,
                    last_announce: now,
                };
                let numwant: u32 = if a.numwant > cfg.max_numwant {
                    cfg.max_numwant
                } else {
                    a.numwant
                };
                let peers = registry.announce(&a.info_hash, &a.peer_id, entry, numwant as usize);
                let mut leechers: u32 = 0;
                let mut seeders: u32 = 0;
                match registry.find_swarm(&a.info_hash) {
                    Some(i) => {
                        proof {
                            lemma_swarm_index_is(registry.swarms@, a.info_hash@, i as int);
                        }
                        let slot = &registry.swarms[i];
                        leechers = clamp_count(slot.swarm.leechers());
                        seeders = clamp_count(slot.swarm.seeders());
                    },
                    None => {},
                }
                let resp = Response::Announce(
                    AnnounceResponse {
                        transaction_id: a.transaction_id,
                        interval: cfg.interval,
                        leechers,
                        seeders,
                        peers,
                    },
                );
                let o = encode_response(&resp);
                proof {
                    crate::codec::lemma_response_roundtrip(resp@);
                }
                Some(o)
            }
        },
        Some(Request::Scrape(sc)) => {
            if !validate(sc.connection_id, cfg.secret, src_ip, now, cfg.window) {
                let resp = Response::Error(
                    ErrorResponse {
                        transaction_id: sc.transaction_id,
                        message: auth_error_message(),
                    },
                );
                let o = encode_response(&resp);
                proof {
                    crate::codec::lemma_response_roundtrip(resp@);
                }
                Some(o)
            } else {
                let entries = registry.scrape(&sc.info_hashes);
                let resp = Response::Scrape(
                    ScrapeResponse { transaction_id: sc.transaction_id, entries },
                );
                let o = encode_response(&resp);
                proof {
                    crate::codec::lemma_response_roundtrip(resp@);
                }
                Some(o)
            }
        },
    }
}

} // verus!
