//! The BEP 15 binary wire format: request decoding and response
//! encoding for the connect/announce/scrape/error exchanges, plus the
//! opposite directions so that a round trip can be stated and tested.
//!
//! All wire integers are fixed-width and big-endian. Decoding is
//! total: any datagram that does not parse to a structurally valid
//! request yields `None` — the caller drops it without a reply.

use vstd::prelude::*;
use crate::peer::{AnnounceEvent, InfoHash, PeerAddress, PeerId, ID_LEN};
use crate::registry::ScrapeStats;

verus! {

/// The fixed magic a connect request must carry in its connection-id
/// field.
pub const CONNECT_MAGIC: u64 = 0x41727101980;

/// Action code of a connect packet.
pub const ACTION_CONNECT: u32 = 0;

/// Action code of an announce packet.
pub const ACTION_ANNOUNCE: u32 = 1;

/// Action code of a scrape packet.
pub const ACTION_SCRAPE: u32 = 2;

/// Action code of an error packet.
pub const ACTION_ERROR: u32 = 3;

/// The most info-hashes one scrape request may carry.
pub const MAX_SCRAPE_HASHES: usize = 74;

/// Byte counters above this would be negative as signed 64-bit wire
/// integers; such announces are malformed.
pub const MAX_COUNTER: u64 = 0x7FFF_FFFF_FFFF_FFFF;

// --- big-endian integer fields ---

/// The two big-endian bytes of `x`.
pub open spec fn be16(x: u16) -> Seq<u8> {
    seq![((x >> 8) & 0xff) as u8, (x & 0xff) as u8]
}

/// The 16-bit value read big-endian from two bytes.
pub open spec fn from_be16(s: Seq<u8>) -> u16
    recommends
        s.len() == 2,
{
    (((s[0] as u16) << 8) | (s[1] as u16)) as u16
}

/// The four big-endian bytes of `x`.
pub open spec fn be32(x: u32) -> Seq<u8> {
    seq![
        ((x >> 24) & 0xff) as u8,
        ((x >> 16) & 0xff) as u8,
        ((x >> 8) & 0xff) as u8,
        (x & 0xff) as u8,
    ]
}

/// The 32-bit value read big-endian from four bytes.
pub open spec fn from_be32(s: Seq<u8>) -> u32
    recommends
        s.len() == 4,
{
    (((s[0] as u32) << 24) | ((s[1] as u32) << 16) | ((s[2] as u32) << 8) | (s[3] as u32)) as u32
}

/// The eight big-endian bytes of `x`.
pub open spec fn be64(x: u64) -> Seq<u8> {
    seq![
        ((x >> 56) & 0xff) as u8,
        ((x >> 48) & 0xff) as u8,
        ((x >> 40) & 0xff) as u8,
        ((x >> 32) & 0xff) as u8,
        ((x >> 24) & 0xff) as u8,
        ((x >> 16) & 0xff) as u8,
        ((x >> 8) & 0xff) as u8,
        (x & 0xff) as u8,
    ]
}

/// The 64-bit value read big-endian from eight bytes.
pub open spec fn from_be64(s: Seq<u8>) -> u64
    recommends
        s.len() == 8,
{
    (((s[0] as u64) << 56) | ((s[1] as u64) << 48) | ((s[2] as u64) << 40) | ((s[3] as u64) << 32)
        | ((s[4] as u64) << 24) | ((s[5] as u64) << 16) | ((s[6] as u64) << 8) | (s[7] as u64)) as u64
}

/// Reading back the big-endian bytes of a value gives the value.
pub proof fn lemma_be16_roundtrip(x: u16)
    ensures
        be16(x).len() == 2,
        from_be16(be16(x)) == x,
{
    assert(((((((x >> 8) & 0xff) as u8) as u16) << 8) | (((x & 0xff) as u8) as u16)) as u16 == x)
        by (bit_vector);
}

/// Reading back the big-endian bytes of a value gives the value.
pub proof fn lemma_be32_roundtrip(x: u32)
    ensures
        be32(x).len() == 4,
        from_be32(be32(x)) == x,
{
    assert((((((((x >> 24) & 0xff) as u8) as u32) << 24) | ((((x >> 16) & 0xff) as u8) as u32)
        << 16 | ((((x >> 8) & 0xff) as u8) as u32) << 8) | (((x & 0xff) as u8) as u32)) as u32 == x)
        by (bit_vector);
}

/// Reading back the big-endian bytes of a value gives the value.
pub proof fn lemma_be64_roundtrip(x: u64)
    ensures
        be64(x).len() == 8,
        from_be64(be64(x)) == x,
{
    assert((((((((x >> 56) & 0xff) as u8) as u64) << 56) | ((((x >> 48) & 0xff) as u8) as u64)
        << 48 | ((((x >> 40) & 0xff) as u8) as u64) << 40 | ((((x >> 32) & 0xff) as u8) as u64)
        << 32 | ((((x >> 24) & 0xff) as u8) as u64) << 24 | ((((x >> 16) & 0xff) as u8) as u64)
        << 16 | ((((x >> 8) & 0xff) as u8) as u64) << 8) | (((x & 0xff) as u8) as u64)) as u64 == x)
        by (bit_vector);
}

// --- events on the wire ---

/// The wire code of an announce event.
pub open spec fn event_code(e: AnnounceEvent) -> u32 {
    match e {
        AnnounceEvent::NoEvent => 0,
        AnnounceEvent::Completed => 1,
        AnnounceEvent::Started => 2,
        AnnounceEvent::Stopped => 3,
    }
}

/// The announce event a wire code names, if any.
pub open spec fn spec_event_of(x: u32) -> Option<AnnounceEvent> {
    if x == 0 {
        Some(AnnounceEvent::NoEvent)
    } else if x == 1 {
        Some(AnnounceEvent::Completed)
    } else if x == 2 {
        Some(AnnounceEvent::Started)
    } else if x == 3 {
        Some(AnnounceEvent::Stopped)
    } else {
        None
    }
}

/// Wire codes name events one for one.
pub proof fn lemma_event_roundtrip(e: AnnounceEvent)
    ensures
        spec_event_of(event_code(e)) == Some(e),
{
}

// --- request packets ---

/// A connect request: its client-chosen transaction id. On the wire
/// it also carries the fixed magic; a packet with any other value
/// there does not decode.
#[derive(Clone, Copy, PartialEq, Eq, Structural, Debug)]
pub struct ConnectRequest {
    pub transaction_id: u32,
}

/// An announce request as decoded from the wire.
pub struct AnnounceRequest {
    pub connection_id: u64,
    pub transaction_id: u32,
    pub info_hash: InfoHash,
    pub peer_id: PeerId,
    pub downloaded: u64,
    pub left: u64,
    pub uploaded: u64,
    pub event: AnnounceEvent,
    pub ip: u32,
    pub key: u32,
    pub numwant: u32,
    pub port: u16,
}

/// A scrape request as decoded from the wire.
pub struct ScrapeRequest {
    pub connection_id: u64,
    pub transaction_id: u32,
    pub info_hashes: Vec<InfoHash>,
}

/// Any request the protocol knows.
pub enum Request {
    Connect(ConnectRequest),
    Announce(AnnounceRequest),
    Scrape(ScrapeRequest),
}

/// The mathematical value of an announce request.
pub struct AnnounceRequestV {
    pub connection_id: u64,
    pub transaction_id: u32,
    pub info_hash: Seq<u8>,
    pub peer_id: Seq<u8>,
    pub downloaded: u64,
    pub left: u64,
    pub uploaded: u64,
    pub event: AnnounceEvent,
    pub ip: u32,
    pub key: u32,
    pub numwant: u32,
    pub port: u16,
}

/// The mathematical value of a scrape request.
pub struct ScrapeRequestV {
    pub connection_id: u64,
    pub transaction_id: u32,
    pub info_hashes: Seq<Seq<u8>>,
}

/// The mathematical value of any request.
pub enum RequestV {
    Connect { transaction_id: u32 },
    Announce(AnnounceRequestV),
    Scrape(ScrapeRequestV),
}

impl View for AnnounceRequest {
    type V = AnnounceRequestV;

    open spec fn view(&self) -> AnnounceRequestV {
        AnnounceRequestV {
            connection_id: self.connection_id,
            transaction_id: self.transaction_id,
            info_hash: self.info_hash@,
            peer_id: self.peer_id@,
            downloaded: self.downloaded,
            left: self.left,
            uploaded: self.uploaded,
            event: self.event,
            ip: self.ip,
            key: self.key,
            numwant: self.numwant,
            port: self.port,
        }
    }
}

impl View for ScrapeRequest {
    type V = ScrapeRequestV;

    open spec fn view(&self) -> ScrapeRequestV {
        ScrapeRequestV {
            connection_id: self.connection_id,
            transaction_id: self.transaction_id,
            info_hashes: self.info_hashes@.map_values(|h: InfoHash| h@),
        }
    }
}

impl View for Request {
    type V = RequestV;

    open spec fn view(&self) -> RequestV {
        match self {
            Request::Connect(c) => RequestV::Connect { transaction_id: c.transaction_id },
            Request::Announce(a) => RequestV::Announce(a@),
            Request::Scrape(s) => RequestV::Scrape(s@),
        }
    }
}

/// Structural validity: what any request that ever decodes satisfies,
/// and what a request must satisfy for its encoding to decode back to
/// it.
pub open spec fn request_valid(r: RequestV) -> bool {
    match r {
        RequestV::Connect { .. } => true,
        RequestV::Announce(a) => {
            &&& a.info_hash.len() == ID_LEN
            &&& a.peer_id.len() == ID_LEN
            &&& a.downloaded <= MAX_COUNTER
            &&& a.left <= MAX_COUNTER
            &&& a.uploaded <= MAX_COUNTER
        },
        RequestV::Scrape(s) => {
            &&& 1 <= s.info_hashes.len() <= MAX_SCRAPE_HASHES
            &&& forall|i: int|
                0 <= i < s.info_hashes.len() ==> (#[trigger] s.info_hashes[i]).len() == ID_LEN
        },
    }
}

// --- response packets ---

/// A connect response: the transaction id echoed and the connection
/// id issued.
#[derive(Clone, Copy, PartialEq, Eq, Structural, Debug)]
pub struct ConnectResponse {
    pub transaction_id: u32,
    pub connection_id: u64,
}

/// An announce response: the reannounce interval, the swarm's counts
/// and the peer list.
pub struct AnnounceResponse {
    pub transaction_id: u32,
    pub interval: u32,
    pub leechers: u32,
    pub seeders: u32,
    pub peers: Vec<PeerAddress>,
}

/// A scrape response: one set of counts per requested torrent, in
/// request order.
pub struct ScrapeResponse {
    pub transaction_id: u32,
    pub entries: Vec<ScrapeStats>,
}

/// An error response: the transaction id echoed and a human-readable
/// message.
pub struct ErrorResponse {
    pub transaction_id: u32,
    pub message: Vec<u8>,
}

/// Any response the protocol knows.
pub enum Response {
    Connect(ConnectResponse),
    Announce(AnnounceResponse),
    Scrape(ScrapeResponse),
    Error(ErrorResponse),
}

/// The mathematical value of an announce response.
pub struct AnnounceResponseV {
    pub transaction_id: u32,
    pub interval: u32,
    pub leechers: u32,
    pub seeders: u32,
    pub peers: Seq<PeerAddress>,
}

/// The mathematical value of a scrape response.
pub struct ScrapeResponseV {
    pub transaction_id: u32,
    pub entries: Seq<ScrapeStats>,
}

/// The mathematical value of an error response.
pub struct ErrorResponseV {
    pub transaction_id: u32,
    pub message: Seq<u8>,
}

/// The mathematical value of any response.
pub enum ResponseV {
    Connect(ConnectResponse),
    Announce(AnnounceResponseV),
    Scrape(ScrapeResponseV),
    Error(ErrorResponseV),
}

impl View for Response {
    type V = ResponseV;

    open spec fn view(&self) -> ResponseV {
        match self {
            Response::Connect(c) => ResponseV::Connect(*c),
            Response::Announce(a) => ResponseV::Announce(
                AnnounceResponseV {
                    transaction_id: a.transaction_id,
                    interval: a.interval,
                    leechers: a.leechers,
                    seeders: a.seeders,
                    peers: a.peers@,
                },
            ),
            Response::Scrape(s) => ResponseV::Scrape(
                ScrapeResponseV { transaction_id: s.transaction_id, entries: s.entries@ },
            ),
            Response::Error(e) => ResponseV::Error(
                ErrorResponseV { transaction_id: e.transaction_id, message: e.message@ },
            ),
        }
    }
}

// --- repeated groups ---

/// The concatenated bytes of a list of info-hashes.
pub open spec fn hashes_bytes(hs: Seq<Seq<u8>>) -> Seq<u8>
    decreases hs.len(),
{
    if hs.len() == 0 {
        Seq::empty()
    } else {
        hs.first() + hashes_bytes(hs.drop_first())
    }
}

/// The info-hashes read from a byte run, 20 bytes each.
pub open spec fn read_hashes(s: Seq<u8>) -> Seq<Seq<u8>>
    decreases s.len(),
{
    if s.len() < ID_LEN {
        Seq::empty()
    } else {
        seq![s.take(ID_LEN as int)] + read_hashes(s.skip(ID_LEN as int))
    }
}

/// The wire bytes of one peer: address and port.
pub open spec fn peer_bytes(p: PeerAddress) -> Seq<u8> {
    be32(p.ip) + be16(p.port)
}

/// The concatenated bytes of a peer list.
pub open spec fn peers_bytes(ps: Seq<PeerAddress>) -> Seq<u8>
    decreases ps.len(),
{
    if ps.len() == 0 {
        Seq::empty()
    } else {
        peer_bytes(ps.first()) + peers_bytes(ps.drop_first())
    }
}

/// The peers read from a byte run, 6 bytes each.
pub open spec fn read_peers(s: Seq<u8>) -> Seq<PeerAddress>
    decreases s.len(),
{
    if s.len() < 6 {
        Seq::empty()
    } else {
        seq![
            PeerAddress { ip: from_be32(s.subrange(0, 4)), port: from_be16(s.subrange(4, 6)) },
        ] + read_peers(s.skip(6))
    }
}

/// The wire bytes of one scrape entry.
pub open spec fn stats_bytes(e: ScrapeStats) -> Seq<u8> {
    be32(e.seeders) + be32(e.completed) + be32(e.leechers)
}

/// The concatenated bytes of a list of scrape entries.
pub open spec fn entries_bytes(es: Seq<ScrapeStats>) -> Seq<u8>
    decreases es.len(),
{
    if es.len() == 0 {
        Seq::empty()
    } else {
        stats_bytes(es.first()) + entries_bytes(es.drop_first())
    }
}

/// The scrape entries read from a byte run, 12 bytes each.
pub open spec fn read_entries(s: Seq<u8>) -> Seq<ScrapeStats>
    decreases s.len(),
{
    if s.len() < 12 {
        Seq::empty()
    } else {
        seq![
            ScrapeStats {
                seeders: from_be32(s.subrange(0, 4)),
                completed: from_be32(s.subrange(4, 8)),
                leechers: from_be32(s.subrange(8, 12)),
            },
        ] + read_entries(s.skip(12))
    }
}

// --- whole packets, spec level ---

/// The bytes of a request packet.
pub open spec fn spec_encode_request(r: RequestV) -> Seq<u8> {
    match r {
        RequestV::Connect { transaction_id } => be64(CONNECT_MAGIC) + be32(ACTION_CONNECT) + be32(
            transaction_id,
        ),
        RequestV::Announce(a) => be64(a.connection_id) + be32(ACTION_ANNOUNCE) + be32(
            a.transaction_id,
        ) + a.info_hash + a.peer_id + be64(a.downloaded) + be64(a.left) + be64(a.uploaded) + be32(
            event_code(a.event),
        ) + be32(a.ip) + be32(a.key) + be32(a.numwant) + be16(a.port),
        RequestV::Scrape(s) => be64(s.connection_id) + be32(ACTION_SCRAPE) + be32(s.transaction_id)
            + hashes_bytes(s.info_hashes),
    }
}

/// What a request datagram decodes to, if anything. A short packet, an
/// unknown action, a connect without the magic, an announce with an
/// unknown event or a negative counter, and a scrape with no hash, a
/// partial hash or too many hashes all yield `None`.
pub open spec fn spec_decode_request(s: Seq<u8>) -> Option<RequestV> {
    if s.len() < 16 {
        None
    } else {
        let connection_id = from_be64(s.subrange(0, 8));
        let action = from_be32(s.subrange(8, 12));
        let transaction_id = from_be32(s.subrange(12, 16));
        if action == ACTION_CONNECT {
            if s.len() == 16 && connection_id == CONNECT_MAGIC {
                Some(RequestV::Connect { transaction_id })
            } else {
                None
            }
        } else if action == ACTION_ANNOUNCE {
            if s.len() == 98 {
                let downloaded = from_be64(s.subrange(56, 64));
                let left = from_be64(s.subrange(64, 72));
                let uploaded = from_be64(s.subrange(72, 80));
                let event = spec_event_of(from_be32(s.subrange(80, 84)));
                if event is Some && downloaded <= MAX_COUNTER && left <= MAX_COUNTER && uploaded
                    <= MAX_COUNTER {
                    Some(
                        RequestV::Announce(
                            AnnounceRequestV {
                                connection_id,
                                transaction_id,
                                info_hash: s.subrange(16, 36),
                                peer_id: s.subrange(36, 56),
                                downloaded,
                                left,
                                uploaded,
                                event: event.unwrap(),
                                ip: from_be32(s.subrange(84, 88)),
                                key: from_be32(s.subrange(88, 92)),
                                numwant: from_be32(s.subrange(92, 96)),
                                port: from_be16(s.subrange(96, 98)),
                            },
                        ),
                    )
                } else {
                    None
                }
            } else {
                None
            }
        } else if action == ACTION_SCRAPE {
            if s.len() >= 16 + ID_LEN && (s.len() - 16) % (ID_LEN as int) == 0 && (s.len() - 16)
                / (ID_LEN as int) <= MAX_SCRAPE_HASHES {
                Some(
                    RequestV::Scrape(
                        ScrapeRequestV {
                            connection_id,
                            transaction_id,
                            info_hashes: read_hashes(s.skip(16)),
                        },
                    ),
                )
            } else {
                None
            }
        } else {
            None
        }
    }
}

/// The bytes of a response packet.
pub open spec fn spec_encode_response(r: ResponseV) -> Seq<u8> {
    match r {
        ResponseV::Connect(c) => be32(ACTION_CONNECT) + be32(c.transaction_id) + be64(
            c.connection_id,
        ),
        ResponseV::Announce(a) => be32(ACTION_ANNOUNCE) + be32(a.transaction_id) + be32(a.interval)
            + be32(a.leechers) + be32(a.seeders) + peers_bytes(a.peers),
        ResponseV::Scrape(s) => be32(ACTION_SCRAPE) + be32(s.transaction_id) + entries_bytes(
            s.entries,
        ),
        ResponseV::Error(e) => be32(ACTION_ERROR) + be32(e.transaction_id) + e.message,
    }
}

/// What a response datagram decodes to, if anything.
pub open spec fn spec_decode_response(s: Seq<u8>) -> Option<ResponseV> {
    if s.len() < 8 {
        None
    } else {
        let action = from_be32(s.subrange(0, 4));
        let transaction_id = from_be32(s.subrange(4, 8));
        if action == ACTION_CONNECT {
            if s.len() == 16 {
                Some(
                    ResponseV::Connect(
                        ConnectResponse { transaction_id, connection_id: from_be64(s.subrange(8, 16)) },
                    ),
                )
            } else {
                None
            }
        } else if action == ACTION_ANNOUNCE {
            if s.len() >= 20 && (s.len() - 20) % 6 == 0 {
                Some(
                    ResponseV::Announce(
                        AnnounceResponseV {
                            transaction_id,
                            interval: from_be32(s.subrange(8, 12)),
                            leechers: from_be32(s.subrange(12, 16)),
                            seeders: from_be32(s.subrange(16, 20)),
                            peers: read_peers(s.skip(20)),
                        },
                    ),
                )
            } else {
                None
            }
        } else if action == ACTION_SCRAPE {
            if (s.len() - 8) % 12 == 0 {
                Some(
                    ResponseV::Scrape(
                        ScrapeResponseV { transaction_id, entries: read_entries(s.skip(8)) },
                    ),
                )
            } else {
                None
            }
        } else if action == ACTION_ERROR {
            Some(ResponseV::Error(ErrorResponseV { transaction_id, message: s.skip(8) }))
        } else {
            None
        }
    }
}


// --- writing fields ---

/// Appends the two big-endian bytes of `x`.
pub fn write_u16(out: &mut Vec<u8>, x: u16)
    ensures
        final(out)@ == old(out)@ + be16(x),
{
    out.push(((x >> 8) & 0xff) as u8);
    out.push((x & 0xff) as u8);
    proof {
        assert(out@ =~= old(out)@ + be16(x));
    }
}

/// Appends the four big-endian bytes of `x`.
pub fn write_u32(out: &mut Vec<u8>, x: u32)
    ensures
        final(out)@ == old(out)@ + be32(x),
{
    out.push(((x >> 24) & 0xff) as u8);
    out.push(((x >> 16) & 0xff) as u8);
    out.push(((x >> 8) & 0xff) as u8);
    out.push((x & 0xff) as u8);
    proof {
        assert(out@ =~= old(out)@ + be32(x));
    }
}

/// Appends the eight big-endian bytes of `x`.
pub fn write_u64(out: &mut Vec<u8>, x: u64)
    ensures
        final(out)@ == old(out)@ + be64(x),
{
    out.push(((x >> 56) & 0xff) as u8);
    out.push(((x >> 48) & 0xff) as u8);
    out.push(((x >> 40) & 0xff) as u8);
    out.push(((x >> 32) & 0xff) as u8);
    out.push(((x >> 24) & 0xff) as u8);
    out.push(((x >> 16) & 0xff) as u8);
    out.push(((x >> 8) & 0xff) as u8);
    out.push((x & 0xff) as u8);
    proof {
        assert(out@ =~= old(out)@ + be64(x));
    }
}

/// Appends a run of bytes.
pub fn write_bytes(out: &mut Vec<u8>, b: &Vec<u8>)
    ensures
        final(out)@ == old(out)@ + b@,
{
    let mut i: usize = 0;
    while i < b.len()
        invariant
            i <= b@.len(),
            out@ == old(out)@ + b@.subrange(0, i as int),
        decreases b@.len() - i,
    {
        out.push(b[i]);
        proof {
            assert(out@ =~= old(out)@ + b@.subrange(0, i + 1));
        }
        i = i + 1;
    }
    proof {
        assert(out@ =~= old(out)@ + b@);
    }
}

// --- reading fields ---

/// Reads a big-endian 16-bit field at `off`.
pub fn read_u16_at(b: &Vec<u8>, off: usize) -> (x: u16)
    requires
        off + 2 <= b.len(),
    ensures
        x == from_be16(b@.subrange(off as int, off as int + 2)),
{
    ((b[off] as u16) << 8) | (b[off + 1] as u16)
}

/// Reads a big-endian 32-bit field at `off`.
pub fn read_u32_at(b: &Vec<u8>, off: usize) -> (x: u32)
    requires
        off + 4 <= b.len(),
    ensures
        x == from_be32(b@.subrange(off as int, off as int + 4)),
{
    ((b[off] as u32) << 24) | ((b[off + 1] as u32) << 16) | ((b[off + 2] as u32) << 8) | (b[off
        + 3] as u32)
}

/// Reads a big-endian 64-bit field at `off`.
pub fn read_u64_at(b: &Vec<u8>, off: usize) -> (x: u64)
    requires
        off + 8 <= b.len(),
    ensures
        x == from_be64(b@.subrange(off as int, off as int + 8)),
{
    ((b[off] as u64) << 56) | ((b[off + 1] as u64) << 48) | ((b[off + 2] as u64) << 40) | ((b[off
        + 3] as u64) << 32) | ((b[off + 4] as u64) << 24) | ((b[off + 5] as u64) << 16) | ((b[off
        + 6] as u64) << 8) | (b[off + 7] as u64)
}

/// Copies `len` bytes starting at `off`.
pub fn copy_range(b: &Vec<u8>, off: usize, len: usize) -> (r: Vec<u8>)
    requires
        off + len <= b.len(),
    ensures
        r@ == b@.subrange(off as int, off as int + len as int),
{
    let mut r: Vec<u8> = Vec::new();
    let mut i: usize = 0;
    while i < len
        invariant
            i <= len,
            off + len <= b.len(),
            b.len() == b@.len(),
            r@ == b@.subrange(off as int, off as int + i as int),
        decreases len - i,
    {
        r.push(b[off + i]);
        proof {
            assert(r@ =~= b@.subrange(off as int, off as int + i as int + 1));
        }
        i = i + 1;
    }
    r
}

// --- appending one group at a time ---

/// Appending one hash to the list appends its bytes to the run.
pub proof fn lemma_hashes_bytes_push(hs: Seq<Seq<u8>>, h: Seq<u8>)
    ensures
        hashes_bytes(hs.push(h)) == hashes_bytes(hs) + h,
    decreases hs.len(),
{
    assert(hashes_bytes(hs.push(h)) == hs.push(h).first() + hashes_bytes(
        hs.push(h).drop_first(),
    ));
    if hs.len() == 0 {
        assert(hs.push(h).first() == h);
        assert(hs.push(h).drop_first() =~= Seq::<Seq<u8>>::empty());
        assert(hashes_bytes(hs.push(h)) =~= hashes_bytes(hs) + h);
    } else {
        assert(hs.push(h).first() == hs.first());
        assert(hs.push(h).drop_first() =~= hs.drop_first().push(h));
        lemma_hashes_bytes_push(hs.drop_first(), h);
        assert(hashes_bytes(hs.push(h)) == hs.first() + (hashes_bytes(hs.drop_first())
            + h));
        assert(hashes_bytes(hs.push(h)) =~= hashes_bytes(hs) + h);
    }
}

/// Appending one peer to the list appends its bytes to the run.
pub proof fn lemma_peers_bytes_push(ps: Seq<PeerAddress>, p: PeerAddress)
    ensures
        peers_bytes(ps.push(p)) == peers_bytes(ps) + peer_bytes(p),
    decreases ps.len(),
{
    assert(peers_bytes(ps.push(p)) == peer_bytes(ps.push(p).first()) + peers_bytes(
        ps.push(p).drop_first(),
    ));
    if ps.len() == 0 {
        assert(ps.push(p).first() == p);
        assert(ps.push(p).drop_first() =~= Seq::<PeerAddress>::empty());
        assert(peers_bytes(ps.push(p)) =~= peers_bytes(ps) + peer_bytes(p));
    } else {
        assert(ps.push(p).first() == ps.first());
        assert(ps.push(p).drop_first() =~= ps.drop_first().push(p));
        lemma_peers_bytes_push(ps.drop_first(), p);
        assert(peers_bytes(ps.push(p)) == peer_bytes(ps.first()) + (peers_bytes(ps.drop_first())
            + peer_bytes(p)));
        assert(peers_bytes(ps.push(p)) =~= peers_bytes(ps) + peer_bytes(p));
    }
}

/// Appending one entry to the list appends its bytes to the run.
pub proof fn lemma_entries_bytes_push(es: Seq<ScrapeStats>, e: ScrapeStats)
    ensures
        entries_bytes(es.push(e)) == entries_bytes(es) + stats_bytes(e),
    decreases es.len(),
{
    assert(entries_bytes(es.push(e)) == stats_bytes(es.push(e).first()) + entries_bytes(
        es.push(e).drop_first(),
    ));
    if es.len() == 0 {
        assert(es.push(e).first() == e);
        assert(es.push(e).drop_first() =~= Seq::<ScrapeStats>::empty());
        assert(entries_bytes(es.push(e)) =~= entries_bytes(es) + stats_bytes(e));
    } else {
        assert(es.push(e).first() == es.first());
        assert(es.push(e).drop_first() =~= es.drop_first().push(e));
        lemma_entries_bytes_push(es.drop_first(), e);
        assert(entries_bytes(es.push(e)) == stats_bytes(es.first()) + (entries_bytes(
            es.drop_first(),
        ) + stats_bytes(e)));
        assert(entries_bytes(es.push(e)) =~= entries_bytes(es) + stats_bytes(e));
    }
}

// --- encoding, executable ---

/// Encodes a request packet.
pub fn encode_request(r: &Request) -> (out: Vec<u8>)
    ensures
        out@ == spec_encode_request(r@),
{
    let mut out: Vec<u8> = Vec::new();
    match r {
        Request::Connect(c) => {
            write_u64(&mut out, CONNECT_MAGIC);
            write_u32(&mut out, ACTION_CONNECT);
            write_u32(&mut out, c.transaction_id);
            proof {
                assert(out@ =~= spec_encode_request(r@));
            }
        },
        Request::Announce(a) => {
            write_u64(&mut out, a.connection_id);
            write_u32(&mut out, ACTION_ANNOUNCE);
            write_u32(&mut out, a.transaction_id);
            write_bytes(&mut out, &a.info_hash.bytes);
            write_bytes(&mut out, &a.peer_id.bytes);
            write_u64(&mut out, a.downloaded);
            write_u64(&mut out, a.left);
            write_u64(&mut out, a.uploaded);
            write_u32(&mut out, encode_event(a.event));
            write_u32(&mut out, a.ip);
            write_u32(&mut out, a.key);
            write_u32(&mut out, a.numwant);
            write_u16(&mut out, a.port);
            proof {
                assert(out@ =~= spec_encode_request(r@));
            }
        },
        Request::Scrape(sc) => {
            write_u64(&mut out, sc.connection_id);
            write_u32(&mut out, ACTION_SCRAPE);
            write_u32(&mut out, sc.transaction_id);
            let ghost views = sc.info_hashes@.map_values(|h: InfoHash| h@);
            let ghost header = out@;
            let mut k: usize = 0;
            while k < sc.info_hashes.len()
                invariant
                    k <= sc.info_hashes@.len(),
                    views == sc.info_hashes@.map_values(|h: InfoHash| h@),
                    out@ == header + hashes_bytes(views.take(k as int)),
                decreases sc.info_hashes@.len() - k,
            {
                write_bytes(&mut out, &sc.info_hashes[k].bytes);
                proof {
                    assert(views.take(k as int).push(views[k as int]) =~= views.take(k + 1));
                    lemma_hashes_bytes_push(views.take(k as int), views[k as int]);
                    assert(out@ =~= header + hashes_bytes(views.take(k + 1)));
                }
                k = k + 1;
            }
            proof {
                assert(views.take(views.len() as int) =~= views);
                assert(out@ =~= spec_encode_request(r@));
            }
        },
    }
    out
}

/// Encodes a response packet.
pub fn encode_response(r: &Response) -> (out: Vec<u8>)
    ensures
        out@ == spec_encode_response(r@),
{
    let mut out: Vec<u8> = Vec::new();
    match r {
        Response::Connect(c) => {
            write_u32(&mut out, ACTION_CONNECT);
            write_u32(&mut out, c.transaction_id);
            write_u64(&mut out, c.connection_id);
            proof {
                assert(out@ =~= spec_encode_response(r@));
            }
        },
        Response::Announce(a) => {
            write_u32(&mut out, ACTION_ANNOUNCE);
            write_u32(&mut out, a.transaction_id);
            write_u32(&mut out, a.interval);
            write_u32(&mut out, a.leechers);
            write_u32(&mut out, a.seeders);
            let ghost header = out@;
            let mut k: usize = 0;
            while k < a.peers.len()
                invariant
                    k <= a.peers@.len(),
                    out@ == header + peers_bytes(a.peers@.take(k as int)),
                decreases a.peers@.len() - k,
            {
                let p = a.peers[k];
                write_u32(&mut out, p.ip);
                write_u16(&mut out, p.port);
                proof {
                    assert(a.peers@.take(k as int).push(a.peers@[k as int]) =~= a.peers@.take(
                        k + 1,
                    ));
                    lemma_peers_bytes_push(a.peers@.take(k as int), a.peers@[k as int]);
                    assert(out@ =~= header + peers_bytes(a.peers@.take(k + 1)));
                }
                k = k + 1;
            }
            proof {
                assert(a.peers@.take(a.peers@.len() as int) =~= a.peers@);
                assert(out@ =~= spec_encode_response(r@));
            }
        },
        Response::Scrape(sc) => {
            write_u32(&mut out, ACTION_SCRAPE);
            write_u32(&mut out, sc.transaction_id);
            let ghost header = out@;
            let mut k: usize = 0;
            while k < sc.entries.len()
                invariant
                    k <= sc.entries@.len(),
                    out@ == header + entries_bytes(sc.entries@.take(k as int)),
                decreases sc.entries@.len() - k,
            {
                let e = sc.entries[k];
                write_u32(&mut out, e.seeders);
                write_u32(&mut out, e.completed);
                write_u32(&mut out, e.leechers);
                proof {
                    assert(sc.entries@.take(k as int).push(sc.entries@[k as int]) =~= sc.entries@
                        .take(k + 1));
                    lemma_entries_bytes_push(sc.entries@.take(k as int), sc.entries@[k as int]);
                    assert(out@ =~= header + entries_bytes(sc.entries@.take(k + 1)));
                }
                k = k + 1;
            }
            proof {
                assert(sc.entries@.take(sc.entries@.len() as int) =~= sc.entries@);
                assert(out@ =~= spec_encode_response(r@));
            }
        },
        Response::Error(e) => {
            write_u32(&mut out, ACTION_ERROR);
            write_u32(&mut out, e.transaction_id);
            write_bytes(&mut out, &e.message);
            proof {
                assert(out@ =~= spec_encode_response(r@));
            }
        },
    }
    out
}

/// The wire code of an event.
pub fn encode_event(e: AnnounceEvent) -> (x: u32)
    ensures
        x == event_code(e),
{
    match e {
        AnnounceEvent::NoEvent => 0,
        AnnounceEvent::Completed => 1,
        AnnounceEvent::Started => 2,
        AnnounceEvent::Stopped => 3,
    }
}

/// The event a wire code names, if any.
pub fn decode_event(x: u32) -> (e: Option<AnnounceEvent>)
    ensures
        e == spec_event_of(x),
{
    if x == 0 {
        Some(AnnounceEvent::NoEvent)
    } else if x == 1 {
        Some(AnnounceEvent::Completed)
    } else if x == 2 {
        Some(AnnounceEvent::Started)
    } else if x == 3 {
        Some(AnnounceEvent::Stopped)
    } else {
        None
    }
}


// --- reading repeated groups, indexed ---

/// Where each hash of a byte run lies: group `k` is the 20 bytes from
/// `20 * k`.
pub proof fn lemma_read_hashes_index(t: Seq<u8>)
    requires
        t.len() % 20 == 0,
    ensures
        read_hashes(t).len() == t.len() / 20,
        forall|k: int|
            #![trigger read_hashes(t)[k]]
            0 <= k < read_hashes(t).len() ==> read_hashes(t)[k] == t.subrange(
                20 * k,
                20 * k + 20,
            ),
    decreases t.len(),
{
    if t.len() < 20 {
        assert(t.len() == 0);
    } else {
        let rest = t.skip(20);
        assert(rest.len() % 20 == 0);
        lemma_read_hashes_index(rest);
        assert forall|k: int| #![trigger read_hashes(t)[k]]
            0 <= k < read_hashes(t).len() implies read_hashes(t)[k] == t.subrange(
            20 * k,
            20 * k + 20,
        ) by {
            if k == 0 {
                assert(read_hashes(t)[0] == t.take(20));
                assert(t.take(20) =~= t.subrange(0, 20));
            } else {
                assert(read_hashes(t)[k] == read_hashes(rest)[k - 1]);
                assert(read_hashes(rest)[k - 1] == rest.subrange(20 * (k - 1), 20 * (k - 1) + 20));
                assert(rest.subrange(20 * (k - 1), 20 * (k - 1) + 20) =~= t.subrange(
                    20 * k,
                    20 * k + 20,
                ));
            }
        }
    }
}

/// Where each peer of a byte run lies: group `k` is the 6 bytes from
/// `6 * k`.
pub proof fn lemma_read_peers_index(t: Seq<u8>)
    requires
        t.len() % 6 == 0,
    ensures
        read_peers(t).len() == t.len() / 6,
        forall|k: int|
            #![trigger read_peers(t)[k]]
            0 <= k < read_peers(t).len() ==> read_peers(t)[k] == (PeerAddress {
                ip: from_be32(t.subrange(6 * k, 6 * k + 4)),
                port: from_be16(t.subrange(6 * k + 4, 6 * k + 6)),
            }),
    decreases t.len(),
{
    if t.len() < 6 {
        assert(t.len() == 0);
    } else {
        let rest = t.skip(6);
        assert(rest.len() % 6 == 0);
        lemma_read_peers_index(rest);
        assert forall|k: int| #![trigger read_peers(t)[k]]
            0 <= k < read_peers(t).len() implies read_peers(t)[k] == (PeerAddress {
            ip: from_be32(t.subrange(6 * k, 6 * k + 4)),
            port: from_be16(t.subrange(6 * k + 4, 6 * k + 6)),
        }) by {
            if k == 0 {
                assert(read_peers(t)[0] == PeerAddress {
                    ip: from_be32(t.subrange(0, 4)),
                    port: from_be16(t.subrange(4, 6)),
                });
            } else {
                assert(read_peers(t)[k] == read_peers(rest)[k - 1]);
                assert(rest.subrange(6 * (k - 1), 6 * (k - 1) + 4) =~= t.subrange(
                    6 * k,
                    6 * k + 4,
                ));
                assert(rest.subrange(6 * (k - 1) + 4, 6 * (k - 1) + 6) =~= t.subrange(
                    6 * k + 4,
                    6 * k + 6,
                ));
            }
        }
    }
}

/// Where each scrape entry of a byte run lies: group `k` is the 12
/// bytes from `12 * k`.
pub proof fn lemma_read_entries_index(t: Seq<u8>)
    requires
        t.len() % 12 == 0,
    ensures
        read_entries(t).len() == t.len() / 12,
        forall|k: int|
            #![trigger read_entries(t)[k]]
            0 <= k < read_entries(t).len() ==> read_entries(t)[k] == (ScrapeStats {
                seeders: from_be32(t.subrange(12 * k, 12 * k + 4)),
                completed: from_be32(t.subrange(12 * k + 4, 12 * k + 8)),
                leechers: from_be32(t.subrange(12 * k + 8, 12 * k + 12)),
            }),
    decreases t.len(),
{
    if t.len() < 12 {
        assert(t.len() == 0);
    } else {
        let rest = t.skip(12);
        assert(rest.len() % 12 == 0);
        lemma_read_entries_index(rest);
        assert forall|k: int| #![trigger read_entries(t)[k]]
            0 <= k < read_entries(t).len() implies read_entries(t)[k] == (ScrapeStats {
            seeders: from_be32(t.subrange(12 * k, 12 * k + 4)),
            completed: from_be32(t.subrange(12 * k + 4, 12 * k + 8)),
            leechers: from_be32(t.subrange(12 * k + 8, 12 * k + 12)),
        }) by {
            if k == 0 {
                assert(read_entries(t)[0] == ScrapeStats {
                    seeders: from_be32(t.subrange(0, 4)),
                    completed: from_be32(t.subrange(4, 8)),
                    leechers: from_be32(t.subrange(8, 12)),
                });
            } else {
                assert(read_entries(t)[k] == read_entries(rest)[k - 1]);
                assert(rest.subrange(12 * (k - 1), 12 * (k - 1) + 4) =~= t.subrange(
                    12 * k,
                    12 * k + 4,
                ));
                assert(rest.subrange(12 * (k - 1) + 4, 12 * (k - 1) + 8) =~= t.subrange(
                    12 * k + 4,
                    12 * k + 8,
                ));
                assert(rest.subrange(12 * (k - 1) + 8, 12 * (k - 1) + 12) =~= t.subrange(
                    12 * k + 8,
                    12 * k + 12,
                ));
            }
        }
    }
}


// --- decoding, executable ---

/// Decodes a request datagram; `None` is a malformed packet the
/// caller must drop without reply.
pub fn decode_request(packet: &Vec<u8>) -> (r: Option<Request>)
    ensures
        match r {
            Some(req) => spec_decode_request(packet@) == Some(req@) && request_valid(req@),
            None => spec_decode_request(packet@) is None,
        },
{
    let n = packet.len();
    if n < 16 {
        return None;
    }
    let connection_id = read_u64_at(packet, 0);
    let action = read_u32_at(packet, 8);
    let transaction_id = read_u32_at(packet, 12);
    if action == ACTION_CONNECT {
        if n == 16 && connection_id == CONNECT_MAGIC {
            Some(Request::Connect(ConnectRequest { transaction_id }))
        } else {
            None
        }
    } else if action == ACTION_ANNOUNCE {
        if n != 98 {
            return None;
        }
        let downloaded = read_u64_at(packet, 56);
        let left = read_u64_at(packet, 64);
        let uploaded = read_u64_at(packet, 72);
        if downloaded > MAX_COUNTER || left > MAX_COUNTER || uploaded > MAX_COUNTER {
            return None;
        }
        match decode_event(read_u32_at(packet, 80)) {
            None => None,
            Some(event) => {
                let req = AnnounceRequest {
                    connection_id,
                    transaction_id,
                    info_hash: InfoHash::new(copy_range(packet, 16, 20)),
                    peer_id: PeerId::new(copy_range(packet, 36, 20)),
                    downloaded,
                    left,
                    uploaded,
                    event,
                    ip: read_u32_at(packet, 84),
                    key: read_u32_at(packet, 88),
                    numwant: read_u32_at(packet, 92),
                    port: read_u16_at(packet, 96),
                };
                Some(Request::Announce(req))
            },
        }
    } else if action == ACTION_SCRAPE {
        if n < 36 || (n - 16) % 20 != 0 || (n - 16) / 20 > MAX_SCRAPE_HASHES {
            return None;
        }
        let count = (n - 16) / 20;
        proof {
            assert(packet@.skip(16).len() % 20 == 0);
            lemma_read_hashes_index(packet@.skip(16));
        }
        let mut hashes: Vec<InfoHash> = Vec::new();
        let mut k: usize = 0;
        while k < count
            invariant
                n == packet@.len(),
                36 <= n,
                (n - 16) % 20 == 0,
                count == (n - 16) / 20,
                count <= MAX_SCRAPE_HASHES,
                k <= count,
                hashes@.len() == k,
                forall|j: int|
                    0 <= j < k ==> (#[trigger] hashes@[j])@ == packet@.subrange(
                        16 + 20 * j,
                        36 + 20 * j,
                    ),
            decreases count - k,
        {
            let h = InfoHash::new(copy_range(packet, 16 + 20 * k, 20));
            hashes.push(h);
            k = k + 1;
        }
        proof {
            let tail = packet@.skip(16);
            let views = hashes@.map_values(|h: InfoHash| h@);
            assert forall|j: int| 0 <= j < count implies views[j] == read_hashes(tail)[j] by {
                assert(views[j] == hashes@[j]@);
                assert(read_hashes(tail)[j] == tail.subrange(20 * j, 20 * j + 20));
                assert(tail.subrange(20 * j, 20 * j + 20) =~= packet@.subrange(
                    16 + 20 * j,
                    36 + 20 * j,
                ));
            }
            assert(views =~~= read_hashes(tail));
        }
        Some(
            Request::Scrape(ScrapeRequest { connection_id, transaction_id, info_hashes: hashes }),
        )
    } else {
        None
    }
}

/// Decodes a response datagram, as a client of the tracker would.
pub fn decode_response(packet: &Vec<u8>) -> (r: Option<Response>)
    ensures
        match r {
            Some(resp) => spec_decode_response(packet@) == Some(resp@),
            None => spec_decode_response(packet@) is None,
        },
{
    let n = packet.len();
    if n < 8 {
        return None;
    }
    let action = read_u32_at(packet, 0);
    let transaction_id = read_u32_at(packet, 4);
    if action == ACTION_CONNECT {
        if n == 16 {
            Some(
                Response::Connect(
                    ConnectResponse { transaction_id, connection_id: read_u64_at(packet, 8) },
                ),
            )
        } else {
            None
        }
    } else if action == ACTION_ANNOUNCE {
        if n < 20 || (n - 20) % 6 != 0 {
            return None;
        }
        let interval = read_u32_at(packet, 8);
        let leechers = read_u32_at(packet, 12);
        let seeders = read_u32_at(packet, 16);
        let count = (n - 20) / 6;
        proof {
            lemma_read_peers_index(packet@.skip(20));
        }
        let mut peers: Vec<PeerAddress> = Vec::new();
        let mut k: usize = 0;
        while k < count
            invariant
                n == packet@.len(),
                20 <= n,
                (n - 20) % 6 == 0,
                count == (n - 20) / 6,
                k <= count,
                peers@.len() == k,
                forall|j: int|
                    0 <= j < k ==> #[trigger] peers@[j] == (PeerAddress {
                        ip: from_be32(packet@.subrange(20 + 6 * j, 24 + 6 * j)),
                        port: from_be16(packet@.subrange(24 + 6 * j, 26 + 6 * j)),
                    }),
            decreases count - k,
        {
            proof {
                assert(20 + 6 * k + 6 <= n) by (nonlinear_arith)
                    requires
                        k < count,
                        count == (n - 20) / 6,
                        (n - 20) % 6 == 0,
                        20 <= n,
                ;
            }
            let p = PeerAddress {
                ip: read_u32_at(packet, 20 + 6 * k),
                port: read_u16_at(packet, 24 + 6 * k),
            };
            peers.push(p);
            k = k + 1;
        }
        proof {
            let tail = packet@.skip(20);
            assert forall|j: int| 0 <= j < count implies peers@[j] == read_peers(tail)[j] by {
                assert(tail.subrange(6 * j, 6 * j + 4) =~= packet@.subrange(20 + 6 * j, 24 + 6 * j));
                assert(tail.subrange(6 * j + 4, 6 * j + 6) =~= packet@.subrange(
                    24 + 6 * j,
                    26 + 6 * j,
                ));
            }
            assert(peers@ =~= read_peers(tail));
        }
        Some(
            Response::Announce(
                AnnounceResponse { transaction_id, interval, leechers, seeders, peers },
            ),
        )
    } else if action == ACTION_SCRAPE {
        if (n - 8) % 12 != 0 {
            return None;
        }
        let count = (n - 8) / 12;
        proof {
            lemma_read_entries_index(packet@.skip(8));
        }
        let mut entries: Vec<ScrapeStats> = Vec::new();
        let mut k: usize = 0;
        while k < count
            invariant
                n == packet@.len(),
                8 <= n,
                (n - 8) % 12 == 0,
                count == (n - 8) / 12,
                k <= count,
                entries@.len() == k,
                forall|j: int|
                    0 <= j < k ==> #[trigger] entries@[j] == (ScrapeStats {
                        seeders: from_be32(packet@.subrange(8 + 12 * j, 12 + 12 * j)),
                        completed: from_be32(packet@.subrange(12 + 12 * j, 16 + 12 * j)),
                        leechers: from_be32(packet@.subrange(16 + 12 * j, 20 + 12 * j)),
                    }),
            decreases count - k,
        {
            proof {
                assert(8 + 12 * k + 12 <= n) by (nonlinear_arith)
                    requires
                        k < count,
                        count == (n - 8) / 12,
                        (n - 8) % 12 == 0,
                        8 <= n,
                ;
            }
            let e = ScrapeStats {
                seeders: read_u32_at(packet, 8 + 12 * k),
                completed: read_u32_at(packet, 12 + 12 * k),
                leechers: read_u32_at(packet, 16 + 12 * k),
            };
            entries.push(e);
            k = k + 1;
        }
        proof {
            let tail = packet@.skip(8);
            assert forall|j: int| 0 <= j < count implies entries@[j] == read_entries(tail)[j] by {
                assert(tail.subrange(12 * j, 12 * j + 4) =~= packet@.subrange(
                    8 + 12 * j,
                    12 + 12 * j,
                ));
                assert(tail.subrange(12 * j + 4, 12 * j + 8) =~= packet@.subrange(
                    12 + 12 * j,
                    16 + 12 * j,
                ));
                assert(tail.subrange(12 * j + 8, 12 * j + 12) =~= packet@.subrange(
                    16 + 12 * j,
                    20 + 12 * j,
                ));
            }
            assert(entries@ =~= read_entries(tail));
        }
        Some(Response::Scrape(ScrapeResponse { transaction_id, entries }))
    } else if action == ACTION_ERROR {
        let message = copy_range(packet, 8, n - 8);
        proof {
            assert(message@ =~= packet@.skip(8));
        }
        Some(Response::Error(ErrorResponse { transaction_id, message }))
    } else {
        None
    }
}


// --- round trips ---

/// Reading back the concatenated bytes of a hash list gives the list.
pub proof fn lemma_read_hashes_of_bytes(hs: Seq<Seq<u8>>)
    requires
        forall|i: int| 0 <= i < hs.len() ==> (#[trigger] hs[i]).len() == ID_LEN,
    ensures
        hashes_bytes(hs).len() == 20 * hs.len(),
        read_hashes(hashes_bytes(hs)) == hs,
    decreases hs.len(),
{
    if hs.len() == 0 {
        assert(read_hashes(hashes_bytes(hs)) =~~= hs);
    } else {
        lemma_read_hashes_of_bytes(hs.drop_first());
        let b = hashes_bytes(hs);
        assert(b == hs.first() + hashes_bytes(hs.drop_first()));
        assert(b.take(20) =~= hs.first());
        assert(b.skip(20) =~= hashes_bytes(hs.drop_first()));
        assert(read_hashes(b) == seq![b.take(20)] + read_hashes(b.skip(20)));
        assert(read_hashes(b) =~~= hs);
    }
}

/// Reading back the concatenated bytes of a peer list gives the list.
pub proof fn lemma_read_peers_of_bytes(ps: Seq<PeerAddress>)
    ensures
        peers_bytes(ps).len() == 6 * ps.len(),
        read_peers(peers_bytes(ps)) == ps,
    decreases ps.len(),
{
    if ps.len() == 0 {
        assert(read_peers(peers_bytes(ps)) =~= ps);
    } else {
        lemma_read_peers_of_bytes(ps.drop_first());
        let b = peers_bytes(ps);
        let g = peer_bytes(ps.first());
        assert(b == g + peers_bytes(ps.drop_first()));
        assert(b.subrange(0, 4) =~= be32(ps.first().ip));
        assert(b.subrange(4, 6) =~= be16(ps.first().port));
        assert(b.skip(6) =~= peers_bytes(ps.drop_first()));
        lemma_be32_roundtrip(ps.first().ip);
        lemma_be16_roundtrip(ps.first().port);
        assert(read_peers(b)[0] == ps.first());
        assert(read_peers(b) =~= ps);
    }
}

/// Reading back the concatenated bytes of a scrape entry list gives
/// the list.
pub proof fn lemma_read_entries_of_bytes(es: Seq<ScrapeStats>)
    ensures
        entries_bytes(es).len() == 12 * es.len(),
        read_entries(entries_bytes(es)) == es,
    decreases es.len(),
{
    if es.len() == 0 {
        assert(read_entries(entries_bytes(es)) =~= es);
    } else {
        lemma_read_entries_of_bytes(es.drop_first());
        let b = entries_bytes(es);
        let g = stats_bytes(es.first());
        assert(b == g + entries_bytes(es.drop_first()));
        assert(b.subrange(0, 4) =~= be32(es.first().seeders));
        assert(b.subrange(4, 8) =~= be32(es.first().completed));
        assert(b.subrange(8, 12) =~= be32(es.first().leechers));
        assert(b.skip(12) =~= entries_bytes(es.drop_first()));
        lemma_be32_roundtrip(es.first().seeders);
        lemma_be32_roundtrip(es.first().completed);
        lemma_be32_roundtrip(es.first().leechers);
        assert(read_entries(b)[0] == es.first());
        assert(read_entries(b) =~= es);
    }
}

/// The announce arm of the request round trip, proved on its own.
#[verifier::rlimit(100)]
proof fn lemma_announce_request_roundtrip(a: AnnounceRequestV)
    requires
        request_valid(RequestV::Announce(a)),
    ensures
        spec_decode_request(spec_encode_request(RequestV::Announce(a))) == Some(
            RequestV::Announce(a),
        ),
{
    let r = RequestV::Announce(a);
    let b = spec_encode_request(r);
    assert(b.len() == 98);
    assert(b.subrange(0, 8) =~= be64(a.connection_id));
    assert(b.subrange(8, 12) =~= be32(ACTION_ANNOUNCE));
    assert(b.subrange(12, 16) =~= be32(a.transaction_id));
    assert(b.subrange(16, 36) =~= a.info_hash);
    assert(b.subrange(36, 56) =~= a.peer_id);
    assert(b.subrange(56, 64) =~= be64(a.downloaded));
    assert(b.subrange(64, 72) =~= be64(a.left));
    assert(b.subrange(72, 80) =~= be64(a.uploaded));
    assert(b.subrange(80, 84) =~= be32(event_code(a.event)));
    assert(b.subrange(84, 88) =~= be32(a.ip));
    assert(b.subrange(88, 92) =~= be32(a.key));
    assert(b.subrange(92, 96) =~= be32(a.numwant));
    assert(b.subrange(96, 98) =~= be16(a.port));
    lemma_be64_roundtrip(a.connection_id);
    lemma_be32_roundtrip(ACTION_ANNOUNCE);
    lemma_be32_roundtrip(a.transaction_id);
    lemma_be64_roundtrip(a.downloaded);
    lemma_be64_roundtrip(a.left);
    lemma_be64_roundtrip(a.uploaded);
    lemma_be32_roundtrip(event_code(a.event));
    lemma_event_roundtrip(a.event);
    lemma_be32_roundtrip(a.ip);
    lemma_be32_roundtrip(a.key);
    lemma_be32_roundtrip(a.numwant);
    lemma_be16_roundtrip(a.port);
}

/// Decoding the encoding of any structurally valid request gives the
/// request back, field for field.
#[verifier::rlimit(100)]
pub proof fn lemma_request_roundtrip(r: RequestV)
    requires
        request_valid(r),
    ensures
        spec_decode_request(spec_encode_request(r)) == Some(r),
{
    match r {
        RequestV::Connect { transaction_id } => {
            let b = spec_encode_request(r);
            assert(b.len() == 16);
            assert(b.subrange(0, 8) =~= be64(CONNECT_MAGIC));
            assert(b.subrange(8, 12) =~= be32(ACTION_CONNECT));
            assert(b.subrange(12, 16) =~= be32(transaction_id));
            lemma_be64_roundtrip(CONNECT_MAGIC);
            lemma_be32_roundtrip(ACTION_CONNECT);
            lemma_be32_roundtrip(transaction_id);
        },
        RequestV::Announce(a) => {
            lemma_announce_request_roundtrip(a);
        },
        RequestV::Scrape(sc) => {
            let b = spec_encode_request(r);
            lemma_read_hashes_of_bytes(sc.info_hashes);
            assert(b.len() == 16 + 20 * sc.info_hashes.len());
            assert(b.subrange(0, 8) =~= be64(sc.connection_id));
            assert(b.subrange(8, 12) =~= be32(ACTION_SCRAPE));
            assert(b.subrange(12, 16) =~= be32(sc.transaction_id));
            assert(b.skip(16) =~= hashes_bytes(sc.info_hashes));
            lemma_be64_roundtrip(sc.connection_id);
            lemma_be32_roundtrip(ACTION_SCRAPE);
            lemma_be32_roundtrip(sc.transaction_id);
            assert((b.len() - 16) % 20 == 0 && (b.len() - 16) / 20 == sc.info_hashes.len())
                by (nonlinear_arith)
                requires
                    b.len() == 16 + 20 * sc.info_hashes.len(),
                    sc.info_hashes.len() >= 0,
            ;
            assert(b.len() >= 36);
        },
    }
}

/// Decoding the encoding of any response gives the response back,
/// field for field.
#[verifier::rlimit(100)]
pub proof fn lemma_response_roundtrip(r: ResponseV)
    ensures
        spec_decode_response(spec_encode_response(r)) == Some(r),
{
    match r {
        ResponseV::Connect(c) => {
            let b = spec_encode_response(r);
            assert(b.len() == 16);
            assert(b.subrange(0, 4) =~= be32(ACTION_CONNECT));
            assert(b.subrange(4, 8) =~= be32(c.transaction_id));
            assert(b.subrange(8, 16) =~= be64(c.connection_id));
            lemma_be32_roundtrip(ACTION_CONNECT);
            lemma_be32_roundtrip(c.transaction_id);
            lemma_be64_roundtrip(c.connection_id);
        },
        ResponseV::Announce(a) => {
            let b = spec_encode_response(r);
            lemma_read_peers_of_bytes(a.peers);
            assert(b.len() == 20 + 6 * a.peers.len());
            assert(b.subrange(0, 4) =~= be32(ACTION_ANNOUNCE));
            assert(b.subrange(4, 8) =~= be32(a.transaction_id));
            assert(b.subrange(8, 12) =~= be32(a.interval));
            assert(b.subrange(12, 16) =~= be32(a.leechers));
            assert(b.subrange(16, 20) =~= be32(a.seeders));
            assert(b.skip(20) =~= peers_bytes(a.peers));
            lemma_be32_roundtrip(ACTION_ANNOUNCE);
            lemma_be32_roundtrip(a.transaction_id);
            lemma_be32_roundtrip(a.interval);
            lemma_be32_roundtrip(a.leechers);
            lemma_be32_roundtrip(a.seeders);
            assert((b.len() - 20) % 6 == 0) by (nonlinear_arith)
                requires
                    b.len() == 20 + 6 * a.peers.len(),
                    a.peers.len() >= 0,
            ;
        },
        ResponseV::Scrape(sc) => {
            let b = spec_encode_response(r);
            lemma_read_entries_of_bytes(sc.entries);
            assert(b.len() == 8 + 12 * sc.entries.len());
            assert(b.subrange(0, 4) =~= be32(ACTION_SCRAPE));
            assert(b.subrange(4, 8) =~= be32(sc.transaction_id));
            assert(b.skip(8) =~= entries_bytes(sc.entries));
            lemma_be32_roundtrip(ACTION_SCRAPE);
            lemma_be32_roundtrip(sc.transaction_id);
            assert((b.len() - 8) % 12 == 0) by (nonlinear_arith)
                requires
                    b.len() == 8 + 12 * sc.entries.len(),
                    sc.entries.len() >= 0,
            ;
        },
        ResponseV::Error(e) => {
            let b = spec_encode_response(r);
            assert(b.len() == 8 + e.message.len());
            assert(b.subrange(0, 4) =~= be32(ACTION_ERROR));
            assert(b.subrange(4, 8) =~= be32(e.transaction_id));
            assert(b.skip(8) =~= e.message);
            lemma_be32_roundtrip(ACTION_ERROR);
            lemma_be32_roundtrip(e.transaction_id);
        },
    }
}

} // verus!
