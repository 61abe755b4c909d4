//! The process-wide registry: one swarm per announced torrent, with
//! the announce, scrape, cleanup and snapshot/restore operations.

use vstd::prelude::*;
use crate::peer::{AnnounceEvent, InfoHash, PeerAddress, PeerEntry, PeerId, ID_LEN};
use crate::swarm::{
    count_leechers, count_seeders, has_peer, others_addresses, take_at_most, Swarm, SwarmPeer,
};

verus! {

/// One torrent's slot in the registry: its info-hash and its swarm.
pub struct SwarmSlot {
    pub hash: InfoHash,
    pub swarm: Swarm,
}

/// Whether some slot carries the info-hash `h`.
pub open spec fn has_swarm(slots: Seq<SwarmSlot>, h: Seq<u8>) -> bool {
    exists|i: int| 0 <= i < slots.len() && slots[i].hash@ == h
}

/// The index of the slot carrying `h`; meaningful only under
/// [`has_swarm`] and hash uniqueness.
pub open spec fn swarm_index(slots: Seq<SwarmSlot>, h: Seq<u8>) -> int {
    choose|i: int| 0 <= i < slots.len() && slots[i].hash@ == h
}

/// The swarm tracked under `h`.
pub open spec fn swarm_at(slots: Seq<SwarmSlot>, h: Seq<u8>) -> Swarm {
    slots[swarm_index(slots, h)].swarm
}

/// Well-formed slots: info-hashes pairwise distinct and 20 bytes each,
/// every swarm well-formed.
pub open spec fn slots_wf(slots: Seq<SwarmSlot>) -> bool {
    &&& forall|i: int, j: int| 0 <= i < j < slots.len() ==> slots[i].hash@ != slots[j].hash@
    &&& forall|i: int| 0 <= i < slots.len() ==> (#[trigger] slots[i].hash@).len() == ID_LEN
    &&& forall|i: int| 0 <= i < slots.len() ==> (#[trigger] slots[i].swarm).wf()
}

/// Under uniqueness, the index found for a hash is the only one.
pub proof fn lemma_swarm_index_is(slots: Seq<SwarmSlot>, h: Seq<u8>, i: int)
    requires
        forall|p: int, q: int| 0 <= p < q < slots.len() ==> slots[p].hash@ != slots[q].hash@,
        0 <= i < slots.len(),
        slots[i].hash@ == h,
    ensures
        has_swarm(slots, h),
        swarm_index(slots, h) == i,
{
    assert(has_swarm(slots, h));
    let j = swarm_index(slots, h);
    if i < j {
        assert(slots[i].hash@ != slots[j].hash@);
    } else if j < i {
        assert(slots[j].hash@ != slots[i].hash@);
    }
}

/// The completed counter after one announce: one more when the
/// announce reported a finished download, saturating at the top.
pub open spec fn bump_completed(c: u32, event: AnnounceEvent) -> u32 {
    if event == AnnounceEvent::Completed {
        if c == u32::MAX {
            c
        } else {
            (c + 1) as u32
        }
    } else {
        c
    }
}

/// How one announce turns the swarm `pre` into `post`: the entry for
/// `id` is inserted or replaced, nothing else moves, and the completed
/// counter is bumped exactly for a `Completed` event.
pub open spec fn swarm_upsert_rel(pre: Swarm, post: Swarm, id: Seq<u8>, entry: PeerEntry) -> bool {
    &&& post.completed == bump_completed(pre.completed, entry.event)
    &&& has_peer(post.peers@, id)
    &&& if has_peer(pre.peers@, id) {
        exists|i: int|
            {
                &&& 0 <= i < pre.peers@.len()
                &&& pre.peers@[i].id@ == id
                &&& post.peers@.len() == pre.peers@.len()
                &&& post.peers@[i].id@ == id
                &&& post.peers@[i].entry == entry
                &&& forall|j: int|
                    0 <= j < pre.peers@.len() && j != i ==> post.peers@[j] == pre.peers@[j]
            }
    } else {
        &&& post.peers@.len() == pre.peers@.len() + 1
        &&& post.peers@.last().id@ == id
        &&& post.peers@.last().entry == entry
        &&& post.peers@.drop_last() == pre.peers@
    }
}

/// How a `stopped` announce turns the swarm `pre` into `post`: the
/// entry for `id` is gone, nothing else moves, counters stay.
pub open spec fn swarm_remove_rel(pre: Swarm, post: Swarm, id: Seq<u8>) -> bool {
    &&& post.completed == pre.completed
    &&& !has_peer(post.peers@, id)
    &&& if has_peer(pre.peers@, id) {
        exists|i: int|
            {
                &&& 0 <= i < pre.peers@.len()
                &&& pre.peers@[i].id@ == id
                &&& post.peers@ == pre.peers@.remove(i)
            }
    } else {
        post.peers@ == pre.peers@
    }
}

/// What one announce does to the whole registry and what it replies.
///
/// A `stopped` announce removes the caller from its swarm (a no-op on
/// an unknown torrent) and gets no peers back. Any other announce
/// upserts the caller's entry, creating the swarm if the torrent was
/// never announced, and gets back up to `numwant` other peers of that
/// swarm, the caller itself excluded.
pub open spec fn announce_rel(
    pre: Seq<SwarmSlot>,
    post: Seq<SwarmSlot>,
    h: Seq<u8>,
    id: Seq<u8>,
    entry: PeerEntry,
    numwant: int,
    reply: Seq<PeerAddress>,
) -> bool {
    if entry.event == AnnounceEvent::Stopped {
        &&& reply == Seq::<PeerAddress>::empty()
        &&& if has_swarm(pre, h) {
            exists|i: int|
                {
                    &&& 0 <= i < pre.len()
                    &&& pre[i].hash@ == h
                    &&& post.len() == pre.len()
                    &&& post[i].hash@ == h
                    &&& swarm_remove_rel(pre[i].swarm, post[i].swarm, id)
                    &&& forall|j: int| 0 <= j < pre.len() && j != i ==> post[j] == pre[j]
                }
        } else {
            post == pre
        }
    } else {
        if has_swarm(pre, h) {
            exists|i: int|
                {
                    &&& 0 <= i < pre.len()
                    &&& pre[i].hash@ == h
                    &&& post.len() == pre.len()
                    &&& post[i].hash@ == h
                    &&& swarm_upsert_rel(pre[i].swarm, post[i].swarm, id, entry)
                    &&& forall|j: int| 0 <= j < pre.len() && j != i ==> post[j] == pre[j]
                    &&& reply == take_at_most(others_addresses(post[i].swarm.peers@, id), numwant)
                }
        } else {
            &&& post.len() == pre.len() + 1
            &&& post.drop_last() == pre
            &&& post.last().hash@ == h
            &&& post.last().swarm.peers@.len() == 1
            &&& post.last().swarm.peers@[0].id@ == id
            &&& post.last().swarm.peers@[0].entry == entry
            &&& post.last().swarm.completed == bump_completed(0, entry.event)
            &&& reply == Seq::<PeerAddress>::empty()
        }
    }
}

/// Aggregate counts of one swarm as a scrape reports them, clamped to
/// the 32-bit wire fields.
#[derive(Clone, Copy, PartialEq, Eq, Structural, Debug)]
pub struct ScrapeStats {
    pub seeders: u32,
    pub completed: u32,
    pub leechers: u32,
}

/// A count clamped into a 32-bit wire field.
pub open spec fn clamp32(n: nat) -> u32 {
    if n > u32::MAX {
        u32::MAX
    } else {
        n as u32
    }
}

/// What a scrape reports for the torrent `h`: its swarm's counts, or
/// all zero when the torrent was never announced — an unknown torrent
/// is not an error.
pub open spec fn scrape_one(slots: Seq<SwarmSlot>, h: Seq<u8>) -> ScrapeStats {
    if has_swarm(slots, h) {
        let s = swarm_at(slots, h);
        ScrapeStats {
            seeders: clamp32(count_seeders(s.peers@)),
            completed: s.completed,
            leechers: clamp32(count_leechers(s.peers@)),
        }
    } else {
        ScrapeStats { seeders: 0, completed: 0, leechers: 0 }
    }
}

/// Clamps a peer count into a 32-bit wire field.
pub fn clamp_count(n: usize) -> (r: u32)
    ensures
        r == clamp32(n as nat),
{
    if n > u32::MAX as usize {
        u32::MAX
    } else {
        n as u32
    }
}

/// The in-memory registry of every tracked torrent. It is the single
/// owner of all swarm state; transports and the janitor share it by
/// reference. `retain_empty` is the persistence policy: when set,
/// swarms that lose their last peer are kept so their historical
/// completed count survives.
pub struct SwarmRegistry {
    pub swarms: Vec<SwarmSlot>,
    pub retain_empty: bool,
}

impl SwarmRegistry {
    /// Well-formed: see [`slots_wf`].
    pub open spec fn wf(&self) -> bool {
        slots_wf(self.swarms@)
    }

    /// An empty registry with the given empty-swarm retention policy.
    pub fn new(retain_empty: bool) -> (r: SwarmRegistry)
        ensures
            r.wf(),
            r.swarms@.len() == 0,
            r.retain_empty == retain_empty,
    {
        SwarmRegistry { swarms: Vec::new(), retain_empty }
    }

    /// The index of the slot tracking this torrent, if any.
    pub fn find_swarm(&self, hash: &InfoHash) -> (r: Option<usize>)
        ensures
            match r {
                Some(i) => i < self.swarms@.len() && self.swarms@[i as int].hash@ == hash@,
                None => !has_swarm(self.swarms@, hash@),
            },
    {
        let mut i: usize = 0;
        while i < self.swarms.len()
            invariant
                i <= self.swarms@.len(),
                forall|j: int| 0 <= j < i ==> self.swarms@[j].hash@ != hash@,
            decreases self.swarms@.len() - i,
        {
            if self.swarms[i].hash.same_as(hash) {
                return Some(i);
            }
            i = i + 1;
        }
        None
    }

    /// Applies one announce and returns the peers to hand back: up to
    /// `numwant` members of the swarm other than the caller. See
    /// [`announce_rel`] for the exact effect.
    pub fn announce(
        &mut self,
        hash: &InfoHash,
        id: &PeerId,
        entry: PeerEntry,
        numwant: usize,
    ) -> (reply: Vec<PeerAddress>)
        requires
            old(self).wf(),
            hash.wf(),
            id.wf(),
        ensures
            final(self).wf(),
            final(self).retain_empty == old(self).retain_empty,
            announce_rel(
                old(self).swarms@,
                final(self).swarms@,
                hash@,
                id@,
                entry,
                numwant as int,
                reply@,
            ),
            reply@.len() <= numwant,
    {
        let is_stop = matches!(entry.event, AnnounceEvent::Stopped);
        match self.find_swarm(hash) {
            Some(i) => {
                let mut slot = self.swarms.remove(i);
                let ghost pre_slot = old(self).swarms@[i as int];
                if is_stop {
                    slot.swarm.remove_peer(id);
                    self.swarms.insert(i, slot);
                    proof {
                        assert(self.swarms@ =~= old(self).swarms@.update(
                            i as int,
                            self.swarms@[i as int],
                        ));
                        assert(swarm_remove_rel(
                            pre_slot.swarm,
                            self.swarms@[i as int].swarm,
                            id@,
                        ));
                    }
                    let reply: Vec<PeerAddress> = Vec::new();
                    proof {
                        assert(reply@ =~= Seq::<PeerAddress>::empty());
                    }
                    reply
                } else {
                    if matches!(entry.event, AnnounceEvent::Completed) {
                        if slot.swarm.completed < u32::MAX {
                            slot.swarm.completed = slot.swarm.completed + 1;
                        }
                    }
                    slot.swarm.upsert(id, entry);
                    let reply = slot.swarm.select_peers(id, numwant);
                    self.swarms.insert(i, slot);
                    proof {
                        assert(self.swarms@ =~= old(self).swarms@.update(
                            i as int,
                            self.swarms@[i as int],
                        ));
                        assert(swarm_upsert_rel(
                            pre_slot.swarm,
                            self.swarms@[i as int].swarm,
                            id@,
                            entry,
                        ));
                    }
                    reply
                }
            },
            None => {
                if is_stop {
                    let reply: Vec<PeerAddress> = Vec::new();
                    proof {
                        assert(reply@ =~= Seq::<PeerAddress>::empty());
                    }
                    reply
                } else {
                    let mut swarm = Swarm::new();
                    if matches!(entry.event, AnnounceEvent::Completed) {
                        swarm.completed = 1;
                    }
                    swarm.upsert(id, entry);
                    self.swarms.push(SwarmSlot { hash: hash.duplicate(), swarm });
                    proof {
                        assert(self.swarms@.drop_last() =~= old(self).swarms@);
                        assert forall|p: int, q: int|
                            0 <= p < q < self.swarms@.len() implies self.swarms@[p].hash@
                            != self.swarms@[q].hash@ by {
                            if q == self.swarms@.len() - 1 {
                                assert(self.swarms@[p] == old(self).swarms@[p]);
                                assert(!has_swarm(old(self).swarms@, hash@));
                            }
                        }
                    }
                    let reply: Vec<PeerAddress> = Vec::new();
                    proof {
                        assert(reply@ =~= Seq::<PeerAddress>::empty());
                    }
                    reply
                }
            },
        }
    }

    /// Scrapes each requested torrent in request order; a torrent that
    /// was never announced reports zero counts.
    pub fn scrape(&self, hashes: &Vec<InfoHash>) -> (r: Vec<ScrapeStats>)
        requires
            self.wf(),
        ensures
            r@.len() == hashes@.len(),
            forall|k: int|
                0 <= k < hashes@.len() ==> r@[k] == scrape_one(self.swarms@, hashes@[k]@),
    {
        let mut r: Vec<ScrapeStats> = Vec::new();
        let mut k: usize = 0;
        while k < hashes.len()
            invariant
                self.wf(),
                k <= hashes@.len(),
                r@.len() == k,
                forall|j: int| 0 <= j < k ==> r@[j] == scrape_one(self.swarms@, hashes@[j]@),
            decreases hashes@.len() - k,
        {
            let stats = self.scrape_torrent(&hashes[k]);
            r.push(stats);
            k = k + 1;
        }
        r
    }

    /// The counts of one torrent, zero when it is unknown.
    pub fn scrape_torrent(&self, hash: &InfoHash) -> (r: ScrapeStats)
        requires
            self.wf(),
        ensures
            r == scrape_one(self.swarms@, hash@),
    {
        match self.find_swarm(hash) {
            Some(i) => {
                proof {
                    lemma_swarm_index_is(self.swarms@, hash@, i as int);
                }
                let slot = &self.swarms[i];
                ScrapeStats {
                    seeders: clamp_count(slot.swarm.seeders()),
                    completed: slot.swarm.completed,
                    leechers: clamp_count(slot.swarm.leechers()),
                }
            },
            None => ScrapeStats { seeders: 0, completed: 0, leechers: 0 },
        }
    }
}


/// Whether a peer entry has gone stale: its last announce lies more
/// than `max_age` seconds in the past.
pub open spec fn is_stale(e: PeerEntry, now: u64, max_age: u64) -> bool {
    e.last_announce < now && now - e.last_announce > max_age
}

/// The peers of a swarm that survive a sweep at `now`: those whose
/// last announce is at most `max_age` seconds old, in their order.
pub open spec fn live_peers(peers: Seq<SwarmPeer>, now: u64, max_age: u64) -> Seq<SwarmPeer>
    decreases peers.len(),
{
    if peers.len() == 0 {
        Seq::empty()
    } else {
        let rest = live_peers(peers.drop_last(), now, max_age);
        if is_stale(peers.last().entry, now, max_age) {
            rest
        } else {
            rest.push(peers.last())
        }
    }
}

/// Whether `p` is one of the peers in `s`.
pub open spec fn peer_from(s: Seq<SwarmPeer>, p: SwarmPeer) -> bool {
    exists|i: int| 0 <= i < s.len() && s[i] == p
}

/// Extending a prefix by one peer extends its live-list exactly when
/// that peer is not stale.
pub proof fn lemma_live_step(peers: Seq<SwarmPeer>, now: u64, max_age: u64, i: int)
    requires
        0 <= i < peers.len(),
    ensures
        live_peers(peers.subrange(0, i + 1), now, max_age) == if is_stale(peers[i].entry, now, max_age) {
            live_peers(peers.subrange(0, i), now, max_age)
        } else {
            live_peers(peers.subrange(0, i), now, max_age).push(peers[i])
        },
{
    assert(peers.subrange(0, i + 1).drop_last() =~= peers.subrange(0, i));
    assert(peers.subrange(0, i + 1).last() == peers[i]);
}

/// Every survivor of a sweep was in the swarm, and none of them is
/// stale.
pub proof fn lemma_live_props(peers: Seq<SwarmPeer>, now: u64, max_age: u64)
    ensures
        forall|k: int|
            0 <= k < live_peers(peers, now, max_age).len() ==> peer_from(
                peers,
                #[trigger] live_peers(peers, now, max_age)[k],
            ),
        forall|k: int|
            0 <= k < live_peers(peers, now, max_age).len() ==> !is_stale(
                (#[trigger] live_peers(peers, now, max_age)[k]).entry,
                now,
                max_age,
            ),
    decreases peers.len(),
{
    if peers.len() > 0 {
        lemma_live_props(peers.drop_last(), now, max_age);
        let rest = live_peers(peers.drop_last(), now, max_age);
        let whole = live_peers(peers, now, max_age);
        assert forall|k: int| 0 <= k < whole.len() implies peer_from(peers, #[trigger] whole[k])
            && !is_stale(whole[k].entry, now, max_age) by {
            if k < rest.len() {
                assert(peer_from(peers.drop_last(), rest[k]));
                let i = choose|i: int| 0 <= i < peers.drop_last().len() && peers.drop_last()[i] == rest[k];
                assert(peers[i] == rest[k]);
            } else {
                assert(whole[k] == peers.last());
                assert(peers[peers.len() - 1] == whole[k]);
            }
        }
    }
}

/// A sweep keeps peer ids pairwise distinct and well-formed.
pub proof fn lemma_live_wf(peers: Seq<SwarmPeer>, now: u64, max_age: u64)
    requires
        forall|i: int, j: int| 0 <= i < j < peers.len() ==> peers[i].id@ != peers[j].id@,
        forall|i: int| 0 <= i < peers.len() ==> (#[trigger] peers[i].id@).len() == ID_LEN,
    ensures
        forall|i: int, j: int|
            0 <= i < j < live_peers(peers, now, max_age).len() ==> live_peers(peers, now, max_age)[i].id@
                != live_peers(peers, now, max_age)[j].id@,
        forall|i: int|
            0 <= i < live_peers(peers, now, max_age).len() ==> (#[trigger] live_peers(
                peers,
                now,
                max_age,
            )[i].id@).len() == ID_LEN,
    decreases peers.len(),
{
    if peers.len() > 0 {
        let d = peers.drop_last();
        lemma_live_wf(d, now, max_age);
        lemma_live_props(d, now, max_age);
        let rest = live_peers(d, now, max_age);
        let whole = live_peers(peers, now, max_age);
        assert forall|i: int, j: int| 0 <= i < j < whole.len() implies whole[i].id@ != whole[j].id@ by {
            if j < rest.len() {
                assert(whole[i] == rest[i] && whole[j] == rest[j]);
            } else if j == rest.len() && whole.len() > rest.len() {
                assert(whole[j] == peers.last());
                assert(peer_from(d, rest[i]));
                let w = choose|w: int| 0 <= w < d.len() && d[w] == rest[i];
                assert(peers[w] == rest[i]);
                assert(peers[w].id@ != peers[peers.len() - 1].id@);
            }
        }
        assert forall|i: int| 0 <= i < whole.len() implies (#[trigger] whole[i].id@).len() == ID_LEN by {
            if i < rest.len() {
                assert(whole[i] == rest[i]);
            } else {
                assert(whole[i] == peers.last());
                assert(peers[peers.len() - 1].id@.len() == ID_LEN);
            }
        }
    }
}

/// Whether `slot` is the swept image of one of the first `bound` slots
/// of `pre`, and earned its keep: peers remain, or the retention
/// policy keeps empty swarms.
pub open spec fn cleanup_source_upto(
    pre: Seq<SwarmSlot>,
    bound: int,
    slot: SwarmSlot,
    now: u64,
    max_age: u64,
    retain: bool,
) -> bool {
    exists|i: int|
        {
            &&& 0 <= i < bound && i < pre.len()
            &&& pre[i].hash@ == slot.hash@
            &&& slot.swarm.completed == pre[i].swarm.completed
            &&& slot.swarm.peers@ == live_peers(pre[i].swarm.peers@, now, max_age)
            &&& (retain || slot.swarm.peers@.len() > 0)
        }
}

/// Drops every stale peer of one swarm, keeping the rest in order.
fn sweep_swarm(swarm: &mut Swarm, now: u64, max_age: u64)
    ensures
        final(swarm).completed == old(swarm).completed,
        final(swarm).peers@ == live_peers(old(swarm).peers@, now, max_age),
{
    let ghost pre = old(swarm).peers@;
    let mut kept: Vec<SwarmPeer> = Vec::new();
    while swarm.peers.len() > 0
        invariant
            swarm.peers@.len() <= pre.len(),
            swarm.peers@ == pre.subrange(
                pre.len() - swarm.peers@.len(),
                pre.len() as int,
            ),
            kept@ == live_peers(
                pre.subrange(0, pre.len() - swarm.peers@.len()),
                now,
                max_age,
            ),
            swarm.completed == old(swarm).completed,
        decreases swarm.peers@.len(),
    {
        let ghost t = pre.len() - swarm.peers@.len();
        let p = swarm.peers.remove(0);
        proof {
            assert(p == pre[t]);
            assert(swarm.peers@ =~= pre.subrange(t + 1, pre.len() as int));
            lemma_live_step(pre, now, max_age, t);
            assert(pre.subrange(0, t + 1) =~= pre.subrange(0, pre.len() - swarm.peers@.len()));
        }
        if !(p.entry.last_announce < now && now - p.entry.last_announce > max_age) {
            kept.push(p);
        }
    }
    proof {
        assert(pre.subrange(0, pre.len() as int) =~= pre);
    }
    swarm.peers = kept;
}

impl SwarmRegistry {
    /// Sweeps every swarm: peers whose last announce lies more than
    /// `max_age` seconds in the past are dropped, and a swarm left
    /// without peers is dropped with them — unless the retention
    /// policy keeps empty swarms for their historical completed count.
    pub fn cleanup(&mut self, now: u64, max_age: u64)
        requires
            old(self).wf(),
        ensures
            final(self).wf(),
            final(self).retain_empty == old(self).retain_empty,
            forall|j: int|
                0 <= j < final(self).swarms@.len() ==> cleanup_source_upto(
                    old(self).swarms@,
                    old(self).swarms@.len() as int,
                    #[trigger] final(self).swarms@[j],
                    now,
                    max_age,
                    old(self).retain_empty,
                ),
            forall|i: int|
                0 <= i < old(self).swarms@.len() ==> (has_swarm(
                    final(self).swarms@,
                    (#[trigger] old(self).swarms@[i]).hash@,
                ) <==> (old(self).retain_empty || live_peers(
                    old(self).swarms@[i].swarm.peers@,
                    now,
                    max_age,
                ).len() > 0)),
    {
        let ghost pre = old(self).swarms@;
        let mut kept: Vec<SwarmSlot> = Vec::new();
        while self.swarms.len() > 0
            invariant
                slots_wf(pre),
                self.retain_empty == old(self).retain_empty,
                self.swarms@.len() <= pre.len(),
                self.swarms@ == pre.subrange(
                    pre.len() - self.swarms@.len(),
                    pre.len() as int,
                ),
                slots_wf(kept@),
                forall|j: int|
                    0 <= j < kept@.len() ==> cleanup_source_upto(
                        pre,
                        pre.len() - self.swarms@.len(),
                        #[trigger] kept@[j],
                        now,
                        max_age,
                        old(self).retain_empty,
                    ),
                forall|i: int|
                    0 <= i < pre.len() - self.swarms@.len() ==> (has_swarm(
                        kept@,
                        (#[trigger] pre[i]).hash@,
                    ) <==> (old(self).retain_empty || live_peers(
                        pre[i].swarm.peers@,
                        now,
                        max_age,
                    ).len() > 0)),
            decreases self.swarms@.len(),
        {
            let ghost t = pre.len() - self.swarms@.len();
            let ghost kept_before = kept@;
            let mut slot = self.swarms.remove(0);
            proof {
                assert(slot == pre[t]);
                assert(self.swarms@ =~= pre.subrange(t + 1, pre.len() as int));
                assert(pre[t].swarm.wf());
            }
            sweep_swarm(&mut slot.swarm, now, max_age);
            let keep = self.retain_empty || slot.swarm.peer_count() > 0;
            proof {
                // the hash of the slot just processed is new to `kept`
                assert forall|j: int| 0 <= j < kept_before.len() implies kept_before[j].hash@
                    != pre[t].hash@ by {
                    let w = choose|w: int|
                        {
                            &&& 0 <= w < t && w < pre.len()
                            &&& pre[w].hash@ == kept_before[j].hash@
                            &&& kept_before[j].swarm.completed == pre[w].swarm.completed
                            &&& kept_before[j].swarm.peers@ == live_peers(
                                pre[w].swarm.peers@,
                                now,
                                max_age,
                            )
                            &&& (old(self).retain_empty || kept_before[j].swarm.peers@.len() > 0)
                        };
                    assert(pre[w].hash@ != pre[t].hash@);
                }
            }
            if keep {
                kept.push(slot);
                proof {
                    assert(kept@.drop_last() =~= kept_before);
                    lemma_live_wf(pre[t].swarm.peers@, now, max_age);
                    assert forall|p: int, q: int|
                        0 <= p < q < kept@.len() implies kept@[p].hash@ != kept@[q].hash@ by {
                        if q == kept@.len() - 1 {
                            assert(kept@[p] == kept_before[p]);
                        }
                    }
                    assert(kept@[kept@.len() - 1].hash@ == pre[t].hash@);
                    assert(has_swarm(kept@, pre[t].hash@));
                    assert forall|i: int| 0 <= i < t + 1 implies (has_swarm(
                        kept@,
                        (#[trigger] pre[i]).hash@,
                    ) <==> (old(self).retain_empty || live_peers(
                        pre[i].swarm.peers@,
                        now,
                        max_age,
                    ).len() > 0)) by {
                        if i < t {
                            if has_swarm(kept@, pre[i].hash@) {
                                let j = choose|j: int| 0 <= j < kept@.len() && kept@[j].hash@ == pre[i].hash@;
                                if j < kept_before.len() {
                                    assert(has_swarm(kept_before, pre[i].hash@));
                                } else {
                                    assert(pre[t].hash@ == pre[i].hash@);
                                }
                            }
                            if has_swarm(kept_before, pre[i].hash@) {
                                let j = choose|j: int|
                                    0 <= j < kept_before.len() && kept_before[j].hash@ == pre[i].hash@;
                                assert(kept@[j].hash@ == pre[i].hash@);
                                assert(has_swarm(kept@, pre[i].hash@));
                            }
                        }
                    }
                }
            } else {
                proof {
                    assert forall|i: int| 0 <= i < t + 1 implies (has_swarm(
                        kept@,
                        (#[trigger] pre[i]).hash@,
                    ) <==> (old(self).retain_empty || live_peers(
                        pre[i].swarm.peers@,
                        now,
                        max_age,
                    ).len() > 0)) by {
                        if i == t {
                            if has_swarm(kept@, pre[t].hash@) {
                                let j = choose|j: int| 0 <= j < kept@.len() && kept@[j].hash@ == pre[t].hash@;
                                assert(kept@[j].hash@ != pre[t].hash@);
                            }
                        }
                    }
                }
            }
        }
        self.swarms = kept;
    }
}

/// After a sweep no surviving peer is stale, and — without the
/// retention policy — no surviving swarm is empty.
pub proof fn lemma_cleanup_removes_stale(
    pre: Seq<SwarmSlot>,
    post: Seq<SwarmSlot>,
    now: u64,
    max_age: u64,
    retain: bool,
)
    requires
        forall|j: int|
            0 <= j < post.len() ==> cleanup_source_upto(
                pre,
                pre.len() as int,
                #[trigger] post[j],
                now,
                max_age,
                retain,
            ),
    ensures
        forall|j: int, k: int|
            0 <= j < post.len() && 0 <= k < post[j].swarm.peers@.len() ==> !is_stale(
                (#[trigger] post[j].swarm.peers@[k]).entry,
                now,
                max_age,
            ),
        !retain ==> forall|j: int|
            0 <= j < post.len() ==> (#[trigger] post[j].swarm.peers@).len() > 0,
{
    assert forall|j: int, k: int|
        0 <= j < post.len() && 0 <= k < post[j].swarm.peers@.len() implies !is_stale(
        (#[trigger] post[j].swarm.peers@[k]).entry,
        now,
        max_age,
    ) by {
        let i = choose|i: int|
            {
                &&& 0 <= i < pre.len() && i < pre.len()
                &&& pre[i].hash@ == post[j].hash@
                &&& post[j].swarm.completed == pre[i].swarm.completed
                &&& post[j].swarm.peers@ == live_peers(pre[i].swarm.peers@, now, max_age)
                &&& (retain || post[j].swarm.peers@.len() > 0)
            };
        lemma_live_props(pre[i].swarm.peers@, now, max_age);
    }
}


/// Two peer lists that agree peer for peer: same ids, same entries,
/// same order.
pub open spec fn peers_equiv(a: Seq<SwarmPeer>, b: Seq<SwarmPeer>) -> bool {
    &&& a.len() == b.len()
    &&& forall|k: int|
        0 <= k < a.len() ==> (#[trigger] a[k]).id@ == b[k].id@ && a[k].entry == b[k].entry
}

/// Two slot lists that agree slot for slot: same torrents in the same
/// order, with equal swarm contents and counters.
pub open spec fn slots_equiv(a: Seq<SwarmSlot>, b: Seq<SwarmSlot>) -> bool {
    &&& a.len() == b.len()
    &&& forall|i: int|
        0 <= i < a.len() ==> {
            &&& (#[trigger] a[i]).hash@ == b[i].hash@
            &&& a[i].swarm.completed == b[i].swarm.completed
            &&& peers_equiv(a[i].swarm.peers@, b[i].swarm.peers@)
        }
}

/// Well-formedness carries across slot equivalence.
pub proof fn lemma_equiv_wf(a: Seq<SwarmSlot>, b: Seq<SwarmSlot>)
    requires
        slots_wf(a),
        slots_equiv(a, b),
    ensures
        slots_wf(b),
{
    assert forall|p: int, q: int| 0 <= p < q < b.len() implies b[p].hash@ != b[q].hash@ by {
        assert(a[p].hash@ != a[q].hash@);
    }
    assert forall|i: int| 0 <= i < b.len() implies (#[trigger] b[i].hash@).len() == ID_LEN by {
        assert(a[i].hash@.len() == ID_LEN);
    }
    assert forall|i: int| 0 <= i < b.len() implies (#[trigger] b[i].swarm).wf() by {
        assert(a[i].swarm.wf());
        assert(peers_equiv(a[i].swarm.peers@, b[i].swarm.peers@));
        let ap = a[i].swarm.peers@;
        let bp = b[i].swarm.peers@;
        assert forall|p: int, q: int| 0 <= p < q < bp.len() implies bp[p].id@ != bp[q].id@ by {
            assert(ap[p].id@ != ap[q].id@);
        }
        assert forall|p: int| 0 <= p < bp.len() implies (#[trigger] bp[p].id@).len() == ID_LEN by {
            assert(ap[p].id@.len() == ID_LEN);
        }
    }
}

/// A deep copy of one swarm's peer list.
fn copy_peers(peers: &Vec<SwarmPeer>) -> (r: Vec<SwarmPeer>)
    ensures
        peers_equiv(peers@, r@),
{
    let mut r: Vec<SwarmPeer> = Vec::new();
    let mut k: usize = 0;
    while k < peers.len()
        invariant
            k <= peers@.len(),
            r@.len() == k,
            forall|j: int|
                0 <= j < k ==> (#[trigger] peers@[j]).id@ == r@[j].id@ && peers@[j].entry
                    == r@[j].entry,
        decreases peers@.len() - k,
    {
        let p = &peers[k];
        r.push(SwarmPeer { id: p.id.duplicate(), entry: p.entry });
        k = k + 1;
    }
    r
}

impl SwarmRegistry {
    /// A full, point-in-time copy of the registry, fit to be handed to
    /// a persistence backend; the copy is a well-formed registry equal
    /// to this one swarm for swarm.
    pub fn snapshot(&self) -> (r: SwarmRegistry)
        requires
            self.wf(),
        ensures
            r.wf(),
            r.retain_empty == self.retain_empty,
            slots_equiv(self.swarms@, r.swarms@),
    {
        let mut slots: Vec<SwarmSlot> = Vec::new();
        let mut i: usize = 0;
        while i < self.swarms.len()
            invariant
                self.wf(),
                i <= self.swarms@.len(),
                slots@.len() == i,
                forall|j: int|
                    0 <= j < i ==> {
                        &&& (#[trigger] self.swarms@[j]).hash@ == slots@[j].hash@
                        &&& self.swarms@[j].swarm.completed == slots@[j].swarm.completed
                        &&& peers_equiv(self.swarms@[j].swarm.peers@, slots@[j].swarm.peers@)
                    },
            decreases self.swarms@.len() - i,
        {
            let slot = &self.swarms[i];
            slots.push(
                SwarmSlot {
                    hash: slot.hash.duplicate(),
                    swarm: Swarm { peers: copy_peers(&slot.swarm.peers), completed: slot.swarm.completed },
                },
            );
            i = i + 1;
        }
        let r = SwarmRegistry { swarms: slots, retain_empty: self.retain_empty };
        proof {
            assert(slots_equiv(self.swarms@, r.swarms@));
            lemma_equiv_wf(self.swarms@, r.swarms@);
        }
        r
    }

    /// Replaces the whole registry with a snapshot, as the persistence
    /// backend hands one back at startup.
    pub fn restore(&mut self, snapshot: SwarmRegistry)
        requires
            snapshot.wf(),
        ensures
            *final(self) == snapshot,
            final(self).wf(),
    {
        *self = snapshot;
    }
}


/// A peer that announced `stopped` is no longer a member of its swarm;
/// since every peer-list entry and every scrape count is drawn from
/// the members alone, it is absent from all subsequent results.
pub proof fn lemma_stopped_peer_absent(
    pre: Seq<SwarmSlot>,
    post: Seq<SwarmSlot>,
    h: Seq<u8>,
    id: Seq<u8>,
    entry: PeerEntry,
    numwant: int,
    reply: Seq<PeerAddress>,
)
    requires
        slots_wf(pre),
        entry.event == AnnounceEvent::Stopped,
        announce_rel(pre, post, h, id, entry, numwant, reply),
        has_swarm(post, h),
    ensures
        !has_peer(swarm_at(post, h).peers@, id),
        reply == Seq::<PeerAddress>::empty(),
{
    if has_swarm(pre, h) {
        let i = choose|i: int|
            {
                &&& 0 <= i < pre.len()
                &&& pre[i].hash@ == h
                &&& post.len() == pre.len()
                &&& post[i].hash@ == h
                &&& swarm_remove_rel(pre[i].swarm, post[i].swarm, id)
                &&& forall|j: int| 0 <= j < pre.len() && j != i ==> post[j] == pre[j]
            };
        assert forall|p: int, q: int| 0 <= p < q < post.len() implies post[p].hash@
            != post[q].hash@ by {
            if p != i {
                assert(post[p] == pre[p]);
            }
            if q != i {
                assert(post[q] == pre[q]);
            }
        }
        lemma_swarm_index_is(post, h, i);
    }
}

/// The scrape counts of a swarm split it exactly: seeders plus
/// leechers is the number of peers, and the seeders are the peers with
/// nothing left to download — provided the swarm fits the 32-bit wire
/// fields, so that clamping does not bite.
pub proof fn lemma_scrape_partition(slots: Seq<SwarmSlot>, h: Seq<u8>)
    requires
        slots_wf(slots),
        has_swarm(slots, h),
        swarm_at(slots, h).peers@.len() <= u32::MAX,
    ensures
        scrape_one(slots, h).seeders + scrape_one(slots, h).leechers == swarm_at(
            slots,
            h,
        ).peers@.len(),
        scrape_one(slots, h).seeders == count_seeders(swarm_at(slots, h).peers@),
        scrape_one(slots, h).leechers == count_leechers(swarm_at(slots, h).peers@),
{
    let peers = swarm_at(slots, h).peers@;
    crate::swarm::lemma_seeder_leecher_partition(peers);
}

} // verus!
