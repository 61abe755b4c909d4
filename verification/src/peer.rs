//! Value types shared by the whole tracker: torrent and peer
//! identifiers, announce events, and the state the tracker keeps for
//! one peer inside one swarm.

use vstd::prelude::*;

verus! {

/// Byte length of an [`InfoHash`] and of a [`PeerId`].
pub const ID_LEN: usize = 20;

/// Copies a byte vector.
pub fn copy_bytes(src: &Vec<u8>) -> (r: Vec<u8>)
    ensures
        r@ == src@,
{
    let mut r: Vec<u8> = Vec::new();
    let mut i: usize = 0;
    while i < src.len()
        invariant
            i <= src@.len(),
            r@ == src@.subrange(0, i as int),
        decreases src@.len() - i,
    {
        r.push(src[i]);
        i = i + 1;
    }
    proof {
        assert(r@ =~= src@);
    }
    r
}

/// Compares two byte vectors for equality of contents.
pub fn bytes_eq(a: &Vec<u8>, b: &Vec<u8>) -> (r: bool)
    ensures
        r == (a@ == b@),
{
    if a.len() != b.len() {
        proof {
            assert(a@.len() != b@.len());
        }
        return false;
    }
    let mut i: usize = 0;
    while i < a.len()
        invariant
            i <= a@.len(),
            a@.len() == b@.len(),
            forall|j: int| 0 <= j < i ==> a@[j] == b@[j],
        decreases a@.len() - i,
    {
        if a[i] != b[i] {
            return false;
        }
        i = i + 1;
    }
    proof {
        assert(a@ =~= b@);
    }
    true
}

/// Identity of a torrent: a fixed 20-byte hash. Two info-hashes are the
/// same torrent exactly when their bytes are equal.
pub struct InfoHash {
    pub bytes: Vec<u8>,
}

impl View for InfoHash {
    type V = Seq<u8>;

    open spec fn view(&self) -> Seq<u8> {
        self.bytes@
    }
}

impl InfoHash {
    /// A well-formed info-hash holds exactly 20 bytes.
    pub open spec fn wf(&self) -> bool {
        self@.len() == ID_LEN
    }

    pub fn new(bytes: Vec<u8>) -> (h: InfoHash)
        requires
            bytes@.len() == ID_LEN,
        ensures
            h@ == bytes@,
            h.wf(),
    {
        InfoHash { bytes }
    }

    /// A deep copy with the same bytes.
    pub fn duplicate(&self) -> (h: InfoHash)
        ensures
            h@ == self@,
    {
        InfoHash { bytes: copy_bytes(&self.bytes) }
    }

    /// Byte-exact equality.
    pub fn same_as(&self, other: &InfoHash) -> (r: bool)
        ensures
            r == (self@ == other@),
    {
        bytes_eq(&self.bytes, &other.bytes)
    }
}

/// Identity a client chose for itself; unique as a key within one
/// swarm, opaque to the tracker.
pub struct PeerId {
    pub bytes: Vec<u8>,
}

impl View for PeerId {
    type V = Seq<u8>;

    open spec fn view(&self) -> Seq<u8> {
        self.bytes@
    }
}

impl PeerId {
    /// A well-formed peer id holds exactly 20 bytes.
    pub open spec fn wf(&self) -> bool {
        self@.len() == ID_LEN
    }

    pub fn new(bytes: Vec<u8>) -> (p: PeerId)
        requires
            bytes@.len() == ID_LEN,
        ensures
            p@ == bytes@,
            p.wf(),
    {
        PeerId { bytes }
    }

    /// A deep copy with the same bytes.
    pub fn duplicate(&self) -> (p: PeerId)
        ensures
            p@ == self@,
    {
        PeerId { bytes: copy_bytes(&self.bytes) }
    }

    /// Byte-exact equality.
    pub fn same_as(&self, other: &PeerId) -> (r: bool)
        ensures
            r == (self@ == other@),
    {
        bytes_eq(&self.bytes, &other.bytes)
    }
}

/// The event field of an announce, telling the tracker why the client
/// announced.
#[derive(Clone, Copy, PartialEq, Eq, Structural, Debug)]
pub enum AnnounceEvent {
    /// A periodic announce with nothing special to report.
    NoEvent,
    /// The client finished its download with this announce.
    Completed,
    /// The client just joined the swarm.
    Started,
    /// The client is leaving the swarm; its entry is dropped.
    Stopped,
}

/// An IPv4 endpoint of a peer, as carried on the wire: 4 address bytes
/// and a port.
#[derive(Clone, Copy, PartialEq, Eq, Structural, Debug)]
pub struct PeerAddress {
    pub ip: u32,
    pub port: u16,
}

/// Everything the tracker keeps about one peer in one swarm. A peer
/// with `left == 0` is a seeder, any other peer a leecher.
#[derive(Clone, Copy, PartialEq, Eq, Structural, Debug)]
pub struct PeerEntry {
    /// Where other peers can reach this one.
    pub addr: PeerAddress,
    /// Bytes the peer reported as uploaded.
    pub uploaded: u64,
    /// Bytes the peer reported as downloaded.
    pub downloaded: u64,
    /// Bytes the peer still has to download; zero classifies a seeder.
    pub left: u64,
    /// The event of the peer's latest announce.
    pub event: AnnounceEvent,
    /// Time of the peer's latest announce, in seconds; only that
    /// peer's own announces move it.
    pub last_announce: u64,
}

impl PeerEntry {
    /// A seeder has nothing left to download.
    pub open spec fn is_seeder(&self) -> bool {
        self.left == 0
    }
}

} // verus!
