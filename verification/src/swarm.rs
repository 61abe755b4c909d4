//! One swarm: the set of peers currently announced for one torrent,
//! keyed by peer id, with the derived seeder/leecher counts and the
//! historical completed counter.

use vstd::prelude::*;
use crate::peer::{PeerAddress, PeerEntry, PeerId, ID_LEN};

verus! {

/// One peer's slot in a swarm: its id and everything tracked for it.
pub struct SwarmPeer {
    pub id: PeerId,
    pub entry: PeerEntry,
}

/// Whether some peer in `peers` carries the id `id`.
pub open spec fn has_peer(peers: Seq<SwarmPeer>, id: Seq<u8>) -> bool {
    exists|i: int| 0 <= i < peers.len() && peers[i].id@ == id
}

/// The index of the peer carrying `id`; meaningful only under
/// [`has_peer`] and id uniqueness.
pub open spec fn peer_index(peers: Seq<SwarmPeer>, id: Seq<u8>) -> int {
    choose|i: int| 0 <= i < peers.len() && peers[i].id@ == id
}

/// The entry of the peer carrying `id`.
pub open spec fn peer_entry(peers: Seq<SwarmPeer>, id: Seq<u8>) -> PeerEntry {
    peers[peer_index(peers, id)].entry
}

/// How many of the peers are seeders (`left == 0`).
pub open spec fn count_seeders(peers: Seq<SwarmPeer>) -> nat
    decreases peers.len(),
{
    if peers.len() == 0 {
        0
    } else {
        count_seeders(peers.drop_last()) + if peers.last().entry.is_seeder() {
            1nat
        } else {
            0nat
        }
    }
}

/// How many of the peers are leechers (`left > 0`).
pub open spec fn count_leechers(peers: Seq<SwarmPeer>) -> nat
    decreases peers.len(),
{
    if peers.len() == 0 {
        0
    } else {
        count_leechers(peers.drop_last()) + if peers.last().entry.is_seeder() {
            0nat
        } else {
            1nat
        }
    }
}

/// The addresses of the peers other than `exclude`, in swarm order.
pub open spec fn others_addresses(peers: Seq<SwarmPeer>, exclude: Seq<u8>) -> Seq<PeerAddress>
    decreases peers.len(),
{
    if peers.len() == 0 {
        Seq::empty()
    } else {
        let rest = others_addresses(peers.drop_last(), exclude);
        if peers.last().id@ == exclude {
            rest
        } else {
            rest.push(peers.last().entry.addr)
        }
    }
}

/// The first `n` elements of `s`, or all of `s` when it is shorter.
pub open spec fn take_at_most<T>(s: Seq<T>, n: int) -> Seq<T> {
    if n >= s.len() {
        s
    } else {
        s.take(n)
    }
}

/// All peers currently tracked for one torrent. Peer ids are unique
/// keys; the seeder/leecher counts are recomputed from the set on
/// demand, so they can never drift from membership. `completed` is the
/// historical number of announces that reported a finished download;
/// it survives peers leaving.
pub struct Swarm {
    pub peers: Vec<SwarmPeer>,
    pub completed: u32,
}

impl Swarm {
    /// Well-formed: ids are pairwise distinct, 20 bytes each.
    pub open spec fn wf(&self) -> bool {
        &&& forall|i: int, j: int|
            0 <= i < j < self.peers@.len() ==> self.peers@[i].id@ != self.peers@[j].id@
        &&& forall|i: int| 0 <= i < self.peers@.len() ==> (#[trigger] self.peers@[i].id@).len() == ID_LEN
    }

    /// An empty swarm that has seen nothing yet.
    pub fn new() -> (s: Swarm)
        ensures
            s.peers@.len() == 0,
            s.completed == 0,
            s.wf(),
    {
        Swarm { peers: Vec::new(), completed: 0 }
    }

    /// How many peers the swarm currently holds.
    pub fn peer_count(&self) -> (n: usize)
        ensures
            n == self.peers@.len(),
    {
        self.peers.len()
    }

    /// The index of the peer with this id, if present.
    pub fn find(&self, id: &PeerId) -> (r: Option<usize>)
        ensures
            match r {
                Some(i) => i < self.peers@.len() && self.peers@[i as int].id@ == id@,
                None => !has_peer(self.peers@, id@),
            },
    {
        let mut i: usize = 0;
        while i < self.peers.len()
            invariant
                i <= self.peers@.len(),
                forall|j: int| 0 <= j < i ==> self.peers@[j].id@ != id@,
            decreases self.peers@.len() - i,
        {
            if self.peers[i].id.same_as(id) {
                return Some(i);
            }
            i = i + 1;
        }
        None
    }

    /// Inserts the entry for `id`, or replaces the one already there.
    /// Nothing else in the swarm moves.
    pub fn upsert(&mut self, id: &PeerId, entry: PeerEntry)
        requires
            old(self).wf(),
            id.wf(),
        ensures
            final(self).wf(),
            final(self).completed == old(self).completed,
            has_peer(final(self).peers@, id@),
            if has_peer(old(self).peers@, id@) {
                exists|i: int|
                    {
                        &&& 0 <= i < old(self).peers@.len()
                        &&& old(self).peers@[i].id@ == id@
                        &&& final(self).peers@ == old(self).peers@.update(
                            i,
                            SwarmPeer { id: old(self).peers@[i].id, entry },
                        )
                    }
            } else {
                &&& final(self).peers@.len() == old(self).peers@.len() + 1
                &&& final(self).peers@.last().id@ == id@
                &&& final(self).peers@.last().entry == entry
                &&& final(self).peers@.drop_last() == old(self).peers@
            },
    {
        match self.find(id) {
            Some(i) => {
                let mut p = self.peers.remove(i);
                p.entry = entry;
                self.peers.insert(i, p);
                proof {
                    assert(self.peers@ =~= old(self).peers@.update(
                        i as int,
                        SwarmPeer { id: old(self).peers@[i as int].id, entry },
                    ));
                    assert(self.peers@[i as int].id@ == id@);
                }
            },
            None => {
                self.peers.push(SwarmPeer { id: id.duplicate(), entry });
                proof {
                    assert(self.peers@.drop_last() =~= old(self).peers@);
                    assert(self.peers@[self.peers@.len() - 1].id@ == id@);
                }
            },
        }
    }

    /// Drops the peer with this id; a no-op when it is not there.
    pub fn remove_peer(&mut self, id: &PeerId)
        requires
            old(self).wf(),
        ensures
            final(self).wf(),
            final(self).completed == old(self).completed,
            !has_peer(final(self).peers@, id@),
            if has_peer(old(self).peers@, id@) {
                exists|i: int|
                    {
                        &&& 0 <= i < old(self).peers@.len()
                        &&& old(self).peers@[i].id@ == id@
                        &&& final(self).peers@ == old(self).peers@.remove(i)
                    }
            } else {
                final(self).peers@ == old(self).peers@
            },
    {
        match self.find(id) {
            Some(i) => {
                self.peers.remove(i);
                proof {
                    assert forall|k: int| 0 <= k < self.peers@.len() implies self.peers@[k].id@
                        != id@ by {
                        if k < i {
                            assert(self.peers@[k] == old(self).peers@[k]);
                        } else {
                            assert(self.peers@[k] == old(self).peers@[k + 1]);
                        }
                    }
                }
            },
            None => {},
        }
    }

    /// The number of seeders, as held.
    pub fn seeders(&self) -> (n: usize)
        ensures
            n == count_seeders(self.peers@),
    {
        let mut n: usize = 0;
        let mut i: usize = 0;
        while i < self.peers.len()
            invariant
                i <= self.peers@.len(),
                n <= i,
                n == count_seeders(self.peers@.subrange(0, i as int)),
            decreases self.peers@.len() - i,
        {
            proof {
                lemma_counts_step(self.peers@, i as int);
            }
            if self.peers[i].entry.left == 0 {
                n = n + 1;
            }
            i = i + 1;
        }
        proof {
            assert(self.peers@.subrange(0, self.peers@.len() as int) =~= self.peers@);
        }
        n
    }

    /// The number of leechers, as held.
    pub fn leechers(&self) -> (n: usize)
        ensures
            n == count_leechers(self.peers@),
    {
        let mut n: usize = 0;
        let mut i: usize = 0;
        while i < self.peers.len()
            invariant
                i <= self.peers@.len(),
                n <= i,
                n == count_leechers(self.peers@.subrange(0, i as int)),
            decreases self.peers@.len() - i,
        {
            proof {
                lemma_counts_step(self.peers@, i as int);
            }
            if self.peers[i].entry.left != 0 {
                n = n + 1;
            }
            i = i + 1;
        }
        proof {
            assert(self.peers@.subrange(0, self.peers@.len() as int) =~= self.peers@);
        }
        n
    }

    /// Up to `numwant` addresses of peers other than `exclude`, taken
    /// in swarm order.
    pub fn select_peers(&self, exclude: &PeerId, numwant: usize) -> (r: Vec<PeerAddress>)
        ensures
            r@ == take_at_most(others_addresses(self.peers@, exclude@), numwant as int),
            r@.len() <= numwant,
    {
        let mut r: Vec<PeerAddress> = Vec::new();
        let mut i: usize = 0;
        while i < self.peers.len()
            invariant
                i <= self.peers@.len(),
                r@ == take_at_most(
                    others_addresses(self.peers@.subrange(0, i as int), exclude@),
                    numwant as int,
                ),
                r@.len() <= numwant,
            decreases self.peers@.len() - i,
        {
            proof {
                lemma_others_step(self.peers@, exclude@, i as int);
            }
            let ghost before = others_addresses(self.peers@.subrange(0, i as int), exclude@);
            let p = &self.peers[i];
            if !p.id.same_as(exclude) && r.len() < numwant {
                r.push(p.entry.addr);
            }
            proof {
                let after = others_addresses(self.peers@.subrange(0, i as int + 1), exclude@);
                if self.peers@[i as int].id@ != exclude@ && before.len() >= numwant {
                    assert(after =~= before.push(self.peers@[i as int].entry.addr));
                    assert(take_at_most(after, numwant as int) =~= take_at_most(
                        before,
                        numwant as int,
                    ));
                }
            }
            i = i + 1;
        }
        proof {
            assert(self.peers@.subrange(0, self.peers@.len() as int) =~= self.peers@);
        }
        r
    }
}

/// Extending a prefix by one peer raises each count by at most one,
/// according to that peer's `left`.
pub proof fn lemma_counts_step(peers: Seq<SwarmPeer>, i: int)
    requires
        0 <= i < peers.len(),
    ensures
        count_seeders(peers.subrange(0, i + 1)) == count_seeders(peers.subrange(0, i)) + if peers[i].entry.is_seeder() {
            1int
        } else {
            0int
        },
        count_leechers(peers.subrange(0, i + 1)) == count_leechers(peers.subrange(0, i)) + if peers[i].entry.is_seeder() {
            0int
        } else {
            1int
        },
{
    assert(peers.subrange(0, i + 1).drop_last() =~= peers.subrange(0, i));
    assert(peers.subrange(0, i + 1).last() == peers[i]);
}

/// Extending a prefix by one peer extends its others-list exactly when
/// that peer is not the excluded one.
pub proof fn lemma_others_step(peers: Seq<SwarmPeer>, exclude: Seq<u8>, i: int)
    requires
        0 <= i < peers.len(),
    ensures
        others_addresses(peers.subrange(0, i + 1), exclude) == if peers[i].id@ == exclude {
            others_addresses(peers.subrange(0, i), exclude)
        } else {
            others_addresses(peers.subrange(0, i), exclude).push(peers[i].entry.addr)
        },
{
    assert(peers.subrange(0, i + 1).drop_last() =~= peers.subrange(0, i));
    assert(peers.subrange(0, i + 1).last() == peers[i]);
}

/// Every swarm splits exactly into its seeders and its leechers:
/// the two counts always add up to the number of peers.
pub proof fn lemma_seeder_leecher_partition(peers: Seq<SwarmPeer>)
    ensures
        count_seeders(peers) + count_leechers(peers) == peers.len(),
    decreases peers.len(),
{
    if peers.len() > 0 {
        lemma_seeder_leecher_partition(peers.drop_last());
    }
}

/// Whether `a` is the address of a peer in `peers` other than `exclude`.
pub open spec fn is_member_address(peers: Seq<SwarmPeer>, exclude: Seq<u8>, a: PeerAddress) -> bool {
    exists|i: int| 0 <= i < peers.len() && peers[i].id@ != exclude && peers[i].entry.addr == a
}

/// Every address in the others-list belongs to a peer that is in the
/// swarm and is not the excluded one.
pub proof fn lemma_others_members(peers: Seq<SwarmPeer>, exclude: Seq<u8>)
    ensures
        forall|k: int|
            #![trigger others_addresses(peers, exclude)[k]]
            0 <= k < others_addresses(peers, exclude).len() ==> is_member_address(
                peers,
                exclude,
                others_addresses(peers, exclude)[k],
            ),
    decreases peers.len(),
{
    if peers.len() > 0 {
        lemma_others_members(peers.drop_last(), exclude);
        let rest = others_addresses(peers.drop_last(), exclude);
        let whole = others_addresses(peers, exclude);
        assert forall|k: int| #![trigger whole[k]] 0 <= k < whole.len() implies is_member_address(
            peers,
            exclude,
            whole[k],
        ) by {
            if k < rest.len() {
                assert(is_member_address(peers.drop_last(), exclude, rest[k]));
                let i = choose|i: int|
                    0 <= i < peers.drop_last().len() && peers.drop_last()[i].id@ != exclude
                        && peers.drop_last()[i].entry.addr == rest[k];
                assert(peers.drop_last()[i] == peers[i]);
                assert(peers[i].id@ != exclude && peers[i].entry.addr == whole[k]);
            } else {
                let i = peers.len() - 1;
                assert(peers[i].id@ != exclude && peers[i].entry.addr == whole[k]);
            }
        }
    }
}

/// Every address handed out by peer selection belongs to a peer that is
/// in the swarm right now and is not the excluded caller.
pub proof fn lemma_selected_are_members(peers: Seq<SwarmPeer>, exclude: Seq<u8>, n: int)
    requires
        0 <= n,
    ensures
        forall|k: int|
            #![trigger take_at_most(others_addresses(peers, exclude), n)[k]]
            0 <= k < take_at_most(others_addresses(peers, exclude), n).len() ==> is_member_address(
                peers,
                exclude,
                take_at_most(others_addresses(peers, exclude), n)[k],
            ),
{
    lemma_others_members(peers, exclude);
    let o = others_addresses(peers, exclude);
    assert forall|k: int| #![trigger take_at_most(o, n)[k]]
        0 <= k < take_at_most(o, n).len() implies is_member_address(
        peers,
        exclude,
        take_at_most(o, n)[k],
    ) by {
        if n < o.len() {
            assert(o.take(n).len() == n);
            assert(o.take(n)[k] == o[k]);
        }
        assert(take_at_most(o, n)[k] == o[k]);
    }
}

} // verus!
