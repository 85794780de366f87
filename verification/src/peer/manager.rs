//! The registry of the peers of one torrent.

use crate::common::bitfield::Bitfield;
use crate::common::bits::MAX_PIECES;
use crate::common::error::PeerError;
use crate::common::error::TorrentError;
use crate::common::types::same_bytes;
use crate::common::types::PeerId;
use crate::common::types::BlockLength;
use crate::common::types::BlockOffset;
use crate::common::types::PieceIndex;
use crate::peer::peer::pieces_of;
use crate::peer::peer::reputation_of;
use crate::peer::peer::wanted_bits;
use crate::peer::peer::ChokingState;
use crate::peer::peer::InterestState;
use crate::peer::peer::Peer;
use crate::peer::peer::PeerAddress;
use crate::peer::peer::PeerState;
use crate::peer::peer::PendingRequest;
use vstd::prelude::*;

verus! {

/// The number of peers that are served at a time unless told otherwise.
pub const DEFAULT_MAX_UNCHOKED: usize = 4;

/// The time after which a silent peer is dropped unless told otherwise, in
/// milliseconds.
pub const DEFAULT_CONNECTION_TIMEOUT: u64 = 30_000;

/// The time between two rounds of choking unless told otherwise, in
/// milliseconds.
pub const DEFAULT_CHOKE_INTERVAL: u64 = 10_000;

/// The position of the peer with an id, or the length where there is none.
pub open spec fn position_of(peers: Seq<Peer>, id: Seq<u8>) -> int
    decreases peers.len(),
{
    if peers.len() == 0 {
        0
    } else if peers.first().id@ == id {
        0
    } else {
        1 + position_of(peers.drop_first(), id)
    }
}

/// What `position_of` finds: no peer before it has the id, and the one at it
/// has, unless it is the length.
pub proof fn lemma_position_of(peers: Seq<Peer>, id: Seq<u8>)
    ensures
        0 <= position_of(peers, id) <= peers.len(),
        forall|j: int| 0 <= j < position_of(peers, id) ==> (#[trigger] peers[j]).id@ != id,
        position_of(peers, id) < peers.len() ==> peers[position_of(peers, id)].id@ == id,
    decreases peers.len(),
{
    if peers.len() > 0 && peers.first().id@ != id {
        let rest = peers.drop_first();
        lemma_position_of(rest, id);
        assert forall|j: int| 0 <= j < position_of(peers, id) implies (#[trigger] peers[j]).id@
            != id by {
            if j > 0 {
                assert(peers[j] == rest[j - 1]);
            }
        }
        if position_of(peers, id) < peers.len() {
            assert(peers[position_of(peers, id)] == rest[position_of(rest, id)]);
        }
    }
}

/// A position before which no peer has the id, and at which one has unless
/// it is the length, is what `position_of` finds.
pub proof fn lemma_position_is(peers: Seq<Peer>, id: Seq<u8>, k: int)
    requires
        0 <= k <= peers.len(),
        forall|j: int| 0 <= j < k ==> (#[trigger] peers[j]).id@ != id,
        k < peers.len() ==> peers[k].id@ == id,
    ensures
        position_of(peers, id) == k,
{
    lemma_position_of(peers, id);
    let f = position_of(peers, id);
    if f < k {
        assert(peers[f].id@ != id);
    }
}

/// Whether no two peers share an id.
pub open spec fn distinct_ids(peers: Seq<Peer>) -> bool {
    forall|k: int, l: int|
        0 <= k < l < peers.len() ==> (#[trigger] peers[k]).id@ != (#[trigger] peers[l]).id@
}

/// Whether `a` is the first to go before `b` when room is needed: it has
/// treated us worse, or as badly and has been with us longer.
pub open spec fn worse_than(a: Peer, b: Peer) -> bool {
    reputation_of(a.uploaded, a.downloaded) < reputation_of(b.uploaded, b.downloaded) || (
    reputation_of(a.uploaded, a.downloaded) == reputation_of(b.uploaded, b.downloaded)
        && a.connected_at < b.connected_at)
}

/// The position of the peer that goes first when room is needed; of several
/// alike, the first.
pub open spec fn worst_position(peers: Seq<Peer>) -> int
    decreases peers.len(),
{
    if peers.len() <= 1 {
        0
    } else if worse_than(peers.last(), peers[worst_position(peers.drop_last())]) {
        peers.len() - 1
    } else {
        worst_position(peers.drop_last())
    }
}

/// The worst peer is one of the peers, and none is worse.
pub proof fn lemma_worst_position(peers: Seq<Peer>)
    requires
        peers.len() > 0,
    ensures
        0 <= worst_position(peers) < peers.len(),
        forall|k: int|
            0 <= k < peers.len() ==> !worse_than(#[trigger] peers[k], peers[worst_position(peers)]),
    decreases peers.len(),
{
    if peers.len() > 1 {
        let init = peers.drop_last();
        lemma_worst_position(init);
        let w = worst_position(init);
        assert(init[w] == peers[w]);
        assert forall|k: int| 0 <= k < peers.len() implies !worse_than(
            #[trigger] peers[k],
            peers[worst_position(peers)],
        ) by {
            if k < init.len() {
                assert(init[k] == peers[k]);
                assert(!worse_than(init[k], init[w]));
            }
        }
    }
}

/// How many of the peers are ready and have announced a piece.
pub open spec fn availability(peers: Seq<Peer>, piece: int) -> nat
    decreases peers.len(),
{
    if peers.len() == 0 {
        0
    } else {
        availability(peers.drop_last(), piece) + if announces(peers.last(), piece) {
            1nat
        } else {
            0nat
        }
    }
}

/// Whether a peer is ready and has announced a piece.
pub open spec fn announces(peer: Peer, piece: int) -> bool {
    peer.state == PeerState::Ready && 0 <= piece < peer.bitfield@.len() && peer.bitfield@[piece]
}

/// No piece is announced by more peers than there are.
pub proof fn lemma_availability_bound(peers: Seq<Peer>, piece: int)
    ensures
        availability(peers, piece) <= peers.len(),
    decreases peers.len(),
{
    if peers.len() > 0 {
        lemma_availability_bound(peers.drop_last(), piece);
    }
}

/// What the registry is: its peers in the order in which they were added,
/// our own pieces, and the settings and the state of the choking rounds.
pub struct RegistryView {
    pub peers: Seq<Peer>,
    pub ours: Seq<bool>,
    pub max_peers: nat,
    pub connection_timeout: u64,
    pub last_choke_time: u64,
    pub choke_interval: u64,
    pub max_unchoked: nat,
    pub optimistic: Option<Seq<u8>>,
    pub rounds: nat,
}

impl RegistryView {
    /// What holds of every registry: no more peers than allowed, no id
    /// twice, every peer well formed and speaking of as many pieces as we
    /// do, and the optimistic slot held by one of the peers if by any.
    pub open spec fn valid(self) -> bool {
        &&& self.peers.len() <= self.max_peers
        &&& self.ours.len() <= MAX_PIECES
        &&& distinct_ids(self.peers)
        &&& forall|k: int|
            0 <= k < self.peers.len() ==> (#[trigger] self.peers[k]).wf()
                && self.peers[k].bitfield@.len() == self.ours.len()
        &&& self.optimistic matches Some(id) ==> position_of(self.peers, id) < self.peers.len()
    }

    /// The registry with the peer at `k` replaced.
    pub open spec fn with_peer(self, k: int, peer: Peer) -> RegistryView {
        RegistryView { peers: self.peers.update(k, peer), ..self }
    }
}

/// The peers of one torrent.
#[derive(Debug)]
pub struct PeerManager {
    peers: Vec<Peer>,
    our_bitfield: Bitfield,
    max_peers: usize,
    connection_timeout: u64,
    last_choke_time: u64,
    choke_interval: u64,
    max_unchoked: usize,
    optimistic_unchoke: Option<PeerId>,
    choke_rounds: u64,
}

/// The bytes of an id, if there is one.
pub open spec fn id_view(id: Option<PeerId>) -> Option<Seq<u8>> {
    match id {
        Some(id) => Some(id@),
        None => None,
    }
}

impl View for PeerManager {
    type V = RegistryView;

    closed spec fn view(&self) -> RegistryView {
        RegistryView {
            peers: self.peers@,
            ours: self.our_bitfield@,
            max_peers: self.max_peers as nat,
            connection_timeout: self.connection_timeout,
            last_choke_time: self.last_choke_time,
            choke_interval: self.choke_interval,
            max_unchoked: self.max_unchoked as nat,
            optimistic: id_view(self.optimistic_unchoke),
            rounds: self.choke_rounds as nat,
        }
    }
}

impl PeerManager {
    /// What every registry fulfils.
    pub open spec fn wf(&self) -> bool {
        self@.valid()
    }

    /// A registry without peers for a torrent of `num_pieces` pieces, none
    /// of which we have; `now` is the time from which the first round of
    /// choking is counted.
    pub fn new(num_pieces: usize, max_peers: usize, now: u64) -> (m: PeerManager)
        requires
            num_pieces <= MAX_PIECES,
        ensures
            m.wf(),
            m@ == (RegistryView {
                peers: Seq::empty(),
                ours: Seq::new(num_pieces as nat, |i: int| false),
                max_peers: max_peers as nat,
                connection_timeout: DEFAULT_CONNECTION_TIMEOUT,
                last_choke_time: now,
                choke_interval: DEFAULT_CHOKE_INTERVAL,
                max_unchoked: DEFAULT_MAX_UNCHOKED as nat,
                optimistic: None,
                rounds: 0,
            }),
    {
        PeerManager {
            peers: Vec::new(),
            our_bitfield: Bitfield::new(num_pieces),
            max_peers,
            connection_timeout: DEFAULT_CONNECTION_TIMEOUT,
            last_choke_time: now,
            choke_interval: DEFAULT_CHOKE_INTERVAL,
            max_unchoked: DEFAULT_MAX_UNCHOKED,
            optimistic_unchoke: None,
            choke_rounds: 0,
        }
    }

    /// Sets how many peers are served at a time, how long a round of
    /// choking lasts and after what silence a peer is dropped, the times in
    /// milliseconds.
    pub fn configure(&mut self, max_unchoked: usize, choke_interval: u64, connection_timeout: u64)
        ensures
            final(self)@ == (RegistryView {
                max_unchoked: max_unchoked as nat,
                choke_interval,
                connection_timeout,
                ..old(self)@
            }),
    {
        self.max_unchoked = max_unchoked;
        self.choke_interval = choke_interval;
        self.connection_timeout = connection_timeout;
    }

    /// The position of the peer with an id, or the number of peers.
    pub(crate) fn find(&self, peer_id: &PeerId) -> (k: usize)
        ensures
            k == position_of(self@.peers, peer_id@),
            k <= self@.peers.len(),
            k < self@.peers.len() ==> self@.peers[k as int].id@ == peer_id@,
    {
        let mut k: usize = 0;
        while k < self.peers.len()
            invariant
                k <= self.peers@.len(),
                forall|j: int| 0 <= j < k ==> (#[trigger] self.peers@[j]).id@ != peer_id@,
            decreases self.peers@.len() - k,
        {
            if same_bytes(self.peers[k].id.as_slice(), peer_id.as_slice()) {
                proof {
                    lemma_position_is(self.peers@, peer_id@, k as int);
                }
                return k;
            }
            k += 1;
        }
        proof {
            lemma_position_is(self.peers@, peer_id@, k as int);
        }
        k
    }

    /// The position of the peer that goes first when room is needed.
    fn find_worst(&self) -> (w: usize)
        requires
            self.peers@.len() > 0,
        ensures
            w == worst_position(self.peers@),
            w < self.peers@.len(),
    {
        let mut w: usize = 0;
        let mut k: usize = 1;
        assert(self.peers@.take(1).len() == 1);
        while k < self.peers.len()
            invariant
                1 <= k <= self.peers@.len(),
                w < k,
                w == worst_position(self.peers@.take(k as int)),
            decreases self.peers@.len() - k,
        {
            proof {
                assert(self.peers@.take(k + 1).drop_last() =~= self.peers@.take(k as int));
                assert(self.peers@.take(k + 1).last() == self.peers@[k as int]);
                assert(self.peers@.take(k as int)[w as int] == self.peers@[w as int]);
            }
            let a = &self.peers[k];
            let b = &self.peers[w];
            let ra = a.reputation_permille();
            let rb = b.reputation_permille();
            if ra < rb || (ra == rb && a.connected_at < b.connected_at) {
                w = k;
            }
            k += 1;
        }
        assert(self.peers@.take(k as int) =~= self.peers@);
        w
    }

    /// Adds a peer that was met at `now`. A peer that is there already
    /// stays as it is. Where the registry is full, the new peer takes the
    /// place of the worst one if that one has treated us worse than a
    /// stranger would have, and its id is returned; else the registry is
    /// full and stays as it is.
    pub fn add_peer(&mut self, peer_id: PeerId, address: PeerAddress, now: u64) -> (r: Result<
        Option<PeerId>,
        TorrentError,
    >)
        requires
            old(self).wf(),
        ensures
            final(self).wf(),
            added(old(self)@, peer_id, address, now, r, final(self)@),
    {
        let ghost before = self@;
        proof {
            lemma_position_of(before.peers, peer_id@);
        }
        let k = self.find(&peer_id);
        if k < self.peers.len() {
            return Ok(None);
        }
        let n = self.our_bitfield.total_pieces();
        if self.peers.len() < self.max_peers {
            self.peers.push(Peer::new(peer_id, address, n, now));
            proof {
                let after = self@;
                assert(after.peers.drop_last() =~= before.peers);
                assert forall|a: int, b: int| 0 <= a < b < after.peers.len() implies (
                #[trigger] after.peers[a]).id@ != (#[trigger] after.peers[b]).id@ by {
                    if b < before.peers.len() {
                        assert(before.peers[a].id@ != before.peers[b].id@);
                    }
                }
                lemma_keeps_optimistic(before.peers, after.peers, before.optimistic);
            }
            return Ok(None);
        }
        if self.peers.len() == 0 {
            return Err(TorrentError::Peer(PeerError::RegistryFull));
        }
        let w = self.find_worst();
        if self.peers[w].reputation_permille() >= 1000 {
            return Err(TorrentError::Peer(PeerError::RegistryFull));
        }
        let gone = self.peers.remove(w);
        self.peers.push(Peer::new(peer_id, address, n, now));
        let cleared = match &self.optimistic_unchoke {
            Some(id) => same_bytes(id.as_slice(), gone.id.as_slice()),
            None => false,
        };
        if cleared {
            self.optimistic_unchoke = None;
        }
        proof {
            let after = self@;
            assert(after.peers.drop_last() =~= before.peers.remove(w as int));
            assert forall|a: int| 0 <= a < after.peers.len() - 1 implies (
            #[trigger] after.peers[a]) == before.peers[if a < w {
                a
            } else {
                a + 1
            }] by {}
            assert forall|a: int, b: int| 0 <= a < b < after.peers.len() implies (
            #[trigger] after.peers[a]).id@ != (#[trigger] after.peers[b]).id@ by {
                let a0 = if a < w {
                    a
                } else {
                    a + 1
                };
                if b < after.peers.len() - 1 {
                    let b0 = if b < w {
                        b
                    } else {
                        b + 1
                    };
                    assert(before.peers[a0].id@ != before.peers[b0].id@);
                } else {
                    assert(before.peers[a0].id@ != peer_id@);
                }
            }
            if let Some(id) = after.optimistic {
                lemma_position_of(before.peers, id);
                let j = position_of(before.peers, id);
                assert(j != w);
                let j2 = if j < w {
                    j
                } else {
                    j - 1
                };
                assert(after.peers[j2] == before.peers[j]);
                lemma_has_position(after.peers, id, j2);
            }
        }
        Ok(Some(gone.id))
    }

    /// Takes a peer out of the registry and hands it back; the optimistic
    /// slot is freed if the peer held it.
    pub fn remove_peer(&mut self, peer_id: &PeerId) -> (removed: Option<Peer>)
        requires
            old(self).wf(),
        ensures
            final(self).wf(),
            match removed {
                Some(p) => position_of(old(self)@.peers, peer_id@) < old(self)@.peers.len() && p
                    == old(self)@.peers[position_of(old(self)@.peers, peer_id@)] && final(self)@
                    == (RegistryView {
                    peers: old(self)@.peers.remove(position_of(old(self)@.peers, peer_id@)),
                    optimistic: if old(self)@.optimistic == Some(peer_id@) {
                        None
                    } else {
                        old(self)@.optimistic
                    },
                    ..old(self)@
                }),
                None => position_of(old(self)@.peers, peer_id@) >= old(self)@.peers.len()
                    && final(self)@ == old(self)@,
            },
    {
        let ghost before = self@;
        let k = self.find(peer_id);
        if k >= self.peers.len() {
            return None;
        }
        let cleared = match &self.optimistic_unchoke {
            Some(id) => same_bytes(id.as_slice(), peer_id.as_slice()),
            None => false,
        };
        if cleared {
            self.optimistic_unchoke = None;
        }
        let gone = self.peers.remove(k);
        proof {
            let after = self@;
            assert forall|a: int, b: int| 0 <= a < b < after.peers.len() implies (
            #[trigger] after.peers[a]).id@ != (#[trigger] after.peers[b]).id@ by {
                let a0 = if a < k {
                    a
                } else {
                    a + 1
                };
                let b0 = if b < k {
                    b
                } else {
                    b + 1
                };
                assert(before.peers[a0].id@ != before.peers[b0].id@);
            }
            if let Some(id) = after.optimistic {
                lemma_position_of(before.peers, id);
                let j = position_of(before.peers, id);
                let j2 = if j < k {
                    j
                } else {
                    j - 1
                };
                assert(after.peers[j2] == before.peers[j]);
                lemma_has_position(after.peers, id, j2);
            }
        }
        Some(gone)
    }

    /// The peer with an id, if it is in the registry.
    pub fn get_peer(&self, peer_id: &PeerId) -> (peer: Option<&Peer>)
        ensures
            match peer {
                Some(p) => position_of(self@.peers, peer_id@) < self@.peers.len() && *p
                    == self@.peers[position_of(self@.peers, peer_id@)],
                None => position_of(self@.peers, peer_id@) >= self@.peers.len(),
            },
    {
        let k = self.find(peer_id);
        if k < self.peers.len() {
            Some(&self.peers[k])
        } else {
            None
        }
    }

    /// All peers, in the order in which they were added.
    pub fn peers(&self) -> (peers: &Vec<Peer>)
        ensures
            peers@ == self@.peers,
    {
        &self.peers
    }

    /// The pieces that we have.
    pub fn our_bitfield(&self) -> (ours: &Bitfield)
        ensures
            ours@ == self@.ours,
    {
        &self.our_bitfield
    }

    /// The ids of all peers, in the order in which they were added.
    pub fn peer_ids(&self) -> (ids: Vec<PeerId>)
        ensures
            ids@.len() == self@.peers.len(),
            forall|k: int| 0 <= k < ids@.len() ==> (#[trigger] ids@[k]) == self@.peers[k].id,
    {
        let mut ids: Vec<PeerId> = Vec::new();
        let mut k: usize = 0;
        while k < self.peers.len()
            invariant
                k <= self.peers@.len(),
                ids@.len() == k,
                forall|j: int| 0 <= j < k ==> (#[trigger] ids@[j]) == self.peers@[j].id,
            decreases self.peers@.len() - k,
        {
            ids.push(self.peers[k].id);
            k += 1;
        }
        ids
    }

    /// The first peer at an address, if there is one.
    pub fn find_by_addr(&self, address: &PeerAddress) -> (peer: Option<&Peer>)
        ensures
            match peer {
                Some(p) => exists|k: int|
                    0 <= k < self@.peers.len() && *p == self@.peers[k] && p.address == *address
                        && forall|j: int| 0 <= j < k ==> (#[trigger] self@.peers[j]).address != *address,
                None => forall|j: int|
                    0 <= j < self@.peers.len() ==> (#[trigger] self@.peers[j]).address != *address,
            },
    {
        let mut k: usize = 0;
        while k < self.peers.len()
            invariant
                k <= self.peers@.len(),
                forall|j: int| 0 <= j < k ==> (#[trigger] self.peers@[j]).address != *address,
            decreases self.peers@.len() - k,
        {
            if self.peers[k].address == *address {
                return Some(&self.peers[k]);
            }
            k += 1;
        }
        None
    }

    /// Sets where the connection to a peer stands. Says whether the peer
    /// is in the registry.
    pub fn set_peer_state(&mut self, peer_id: &PeerId, state: PeerState) -> (found: bool)
        requires
            old(self).wf(),
        ensures
            final(self).wf(),
            found == (position_of(old(self)@.peers, peer_id@) < old(self)@.peers.len()),
            !found ==> final(self)@ == old(self)@,
            found ==> changed_at(old(self)@, final(self)@, position_of(old(self)@.peers, peer_id@))
                && final(self)@.peers[position_of(old(self)@.peers, peer_id@)].state == state
                && final(self)@.peers[position_of(old(self)@.peers, peer_id@)].same_but_state(
                &old(self)@.peers[position_of(old(self)@.peers, peer_id@)],
            ),
    {
        let ghost before = self@;
        let k = self.find(peer_id);
        if k >= self.peers.len() {
            return false;
        }
        self.peers[k].state = state;
        proof {
            lemma_changed_valid(before, self@, k as int);
        }
        true
    }

    /// Takes note that a peer chokes us: the requests that it owed us are
    /// forgotten and handed back, in their order, to be made elsewhere.
    pub fn remote_choked(&mut self, peer_id: &PeerId) -> (requests: Vec<PendingRequest>)
        requires
            old(self).wf(),
        ensures
            final(self).wf(),
            position_of(old(self)@.peers, peer_id@) >= old(self)@.peers.len() ==> final(self)@
                == old(self)@ && requests@ == Seq::<PendingRequest>::empty(),
            position_of(old(self)@.peers, peer_id@) < old(self)@.peers.len() ==> {
                let k = position_of(old(self)@.peers, peer_id@);
                &&& changed_at(old(self)@, final(self)@, k)
                &&& requests@ == old(self)@.peers[k].pending_requests@
                &&& final(self)@.peers[k].pending_requests@ == Seq::<PendingRequest>::empty()
                &&& final(self)@.peers[k].peer_choking == ChokingState::Choked
                &&& final(self)@.peers[k].same_but_flow(&old(self)@.peers[k])
                &&& final(self)@.peers[k].am_choking == old(self)@.peers[k].am_choking
                &&& final(self)@.peers[k].am_interested == old(self)@.peers[k].am_interested
                &&& final(self)@.peers[k].peer_interested == old(self)@.peers[k].peer_interested
            },
    {
        let ghost before = self@;
        let k = self.find(peer_id);
        if k >= self.peers.len() {
            return Vec::new();
        }
        self.peers[k].peer_choking = ChokingState::Choked;
        let requests = self.peers[k].clear_requests();
        proof {
            lemma_changed_valid(before, self@, k as int);
        }
        requests
    }

    /// Takes note that a peer no longer chokes us.
    pub fn remote_unchoked(&mut self, peer_id: &PeerId)
        requires
            old(self).wf(),
        ensures
            final(self).wf(),
            position_of(old(self)@.peers, peer_id@) >= old(self)@.peers.len() ==> final(self)@
                == old(self)@,
            position_of(old(self)@.peers, peer_id@) < old(self)@.peers.len() ==> {
                let k = position_of(old(self)@.peers, peer_id@);
                &&& changed_at(old(self)@, final(self)@, k)
                &&& final(self)@.peers[k].pending_requests@ == old(self)@.peers[k].pending_requests@
                &&& final(self)@.peers[k].peer_choking == ChokingState::Unchoked
                &&& final(self)@.peers[k].same_but_flow(&old(self)@.peers[k])
                &&& final(self)@.peers[k].am_choking == old(self)@.peers[k].am_choking
                &&& final(self)@.peers[k].am_interested == old(self)@.peers[k].am_interested
                &&& final(self)@.peers[k].peer_interested == old(self)@.peers[k].peer_interested
            },
    {
        let ghost before = self@;
        let k = self.find(peer_id);
        if k < self.peers.len() {
            self.peers[k].peer_choking = ChokingState::Unchoked;
            proof {
                lemma_changed_valid(before, self@, k as int);
            }
        }
    }

    /// Takes note of whether a peer wants pieces of us.
    pub fn remote_interest(&mut self, peer_id: &PeerId, interest: InterestState)
        requires
            old(self).wf(),
        ensures
            final(self).wf(),
            position_of(old(self)@.peers, peer_id@) >= old(self)@.peers.len() ==> final(self)@
                == old(self)@,
            position_of(old(self)@.peers, peer_id@) < old(self)@.peers.len() ==> {
                let k = position_of(old(self)@.peers, peer_id@);
                &&& changed_at(old(self)@, final(self)@, k)
                &&& final(self)@.peers[k].pending_requests@ == old(self)@.peers[k].pending_requests@
                &&& final(self)@.peers[k].peer_interested == interest
                &&& final(self)@.peers[k].same_but_flow(&old(self)@.peers[k])
                &&& final(self)@.peers[k].am_choking == old(self)@.peers[k].am_choking
                &&& final(self)@.peers[k].am_interested == old(self)@.peers[k].am_interested
                &&& final(self)@.peers[k].peer_choking == old(self)@.peers[k].peer_choking
            },
    {
        let ghost before = self@;
        let k = self.find(peer_id);
        if k < self.peers.len() {
            self.peers[k].peer_interested = interest;
            proof {
                lemma_changed_valid(before, self@, k as int);
            }
        }
    }

    /// Takes note that a peer has a piece, and of whether the peer is worth
    /// asking now. A piece outside the torrent leaves what is known of the
    /// peer's pieces as it is.
    pub fn remote_has(&mut self, peer_id: &PeerId, piece_index: PieceIndex)
        requires
            old(self).wf(),
        ensures
            final(self).wf(),
            position_of(old(self)@.peers, peer_id@) >= old(self)@.peers.len() ==> final(self)@
                == old(self)@,
            position_of(old(self)@.peers, peer_id@) < old(self)@.peers.len() ==> {
                let k = position_of(old(self)@.peers, peer_id@);
                &&& changed_at(old(self)@, final(self)@, k)
                &&& final(self)@.peers[k].bitfield@ == if piece_index
                    < old(self)@.peers[k].bitfield@.len() {
                    old(self)@.peers[k].bitfield@.update(piece_index as int, true)
                } else {
                    old(self)@.peers[k].bitfield@
                }
                &&& final(self)@.peers[k].am_interested == if final(self)@.peers[k].worth_asking(
                    old(self)@.ours,
                ) {
                    InterestState::Interested
                } else {
                    InterestState::NotInterested
                }
                &&& final(self)@.peers[k].same_but_bitfield(&old(self)@.peers[k])
            },
    {
        let ghost before = self@;
        let k = self.find(peer_id);
        if k < self.peers.len() {
            self.peers[k].has_piece(piece_index);
            self.peers[k].update_interest(&self.our_bitfield);
            proof {
                lemma_changed_valid(before, self@, k as int);
            }
        }
    }

    /// Replaces what is known of a peer's pieces, and takes note of whether
    /// the peer is worth asking now. Says whether this was done: it is not
    /// where the peer is not in the registry or the bitfield speaks of
    /// another number of pieces than the torrent has.
    pub fn remote_bitfield(&mut self, peer_id: &PeerId, bitfield: Bitfield) -> (done: bool)
        requires
            old(self).wf(),
        ensures
            final(self).wf(),
            done == (position_of(old(self)@.peers, peer_id@) < old(self)@.peers.len()
                && bitfield@.len() == old(self)@.ours.len()),
            !done ==> final(self)@ == old(self)@,
            done ==> {
                let k = position_of(old(self)@.peers, peer_id@);
                &&& changed_at(old(self)@, final(self)@, k)
                &&& final(self)@.peers[k].bitfield@ == bitfield@
                &&& final(self)@.peers[k].am_interested == if final(self)@.peers[k].worth_asking(
                    old(self)@.ours,
                ) {
                    InterestState::Interested
                } else {
                    InterestState::NotInterested
                }
                &&& final(self)@.peers[k].same_but_bitfield(&old(self)@.peers[k])
            },
    {
        let ghost before = self@;
        let k = self.find(peer_id);
        if k >= self.peers.len() || bitfield.total_pieces() != self.our_bitfield.total_pieces() {
            return false;
        }
        self.peers[k].set_bitfield(bitfield);
        self.peers[k].update_interest(&self.our_bitfield);
        proof {
            lemma_changed_valid(before, self@, k as int);
        }
        true
    }

    /// Records at `now` that a block of a piece was asked of a peer, if the
    /// peer may be asked: it is ready, does not choke us, is of interest,
    /// owes us fewer requests than it may, and has announced the piece. Says
    /// whether it was recorded.
    pub fn record_request(
        &mut self,
        peer_id: &PeerId,
        piece_index: PieceIndex,
        offset: BlockOffset,
        length: BlockLength,
        now: u64,
    ) -> (recorded: bool)
        requires
            old(self).wf(),
        ensures
            final(self).wf(),
            recorded == (position_of(old(self)@.peers, peer_id@) < old(self)@.peers.len() && {
                let p = old(self)@.peers[position_of(old(self)@.peers, peer_id@)];
                p.may_request() && piece_index < p.bitfield@.len() && p.bitfield@[piece_index as int]
            }),
            !recorded ==> final(self)@ == old(self)@,
            recorded ==> {
                let k = position_of(old(self)@.peers, peer_id@);
                let asked = old(self)@.peers[k].pending_requests@;
                &&& changed_at(old(self)@, final(self)@, k)
                &&& final(self)@.peers[k].same_but_requests(&old(self)@.peers[k])
                &&& final(self)@.peers[k].pending_requests@ == if crate::peer::peer::request_at(
                    asked,
                    piece_index,
                ) < asked.len() {
                    asked.update(
                        crate::peer::peer::request_at(asked, piece_index),
                        PendingRequest { piece_index, offset, length, requested_at: now },
                    )
                } else {
                    asked.push(PendingRequest { piece_index, offset, length, requested_at: now })
                }
            },
    {
        let ghost before = self@;
        let k = self.find(peer_id);
        if k >= self.peers.len() {
            return false;
        }
        if !self.peers[k].can_request() || !self.peers[k].peer_has_piece(piece_index) {
            return false;
        }
        let recorded = self.peers[k].add_request(piece_index, offset, length, now);
        proof {
            lemma_changed_valid(before, self@, k as int);
        }
        recorded
    }

    /// Forgets the request for a piece that a peer owed us, if there is one.
    pub fn finish_request(&mut self, peer_id: &PeerId, piece_index: PieceIndex)
        requires
            old(self).wf(),
        ensures
            final(self).wf(),
            position_of(old(self)@.peers, peer_id@) >= old(self)@.peers.len() ==> final(self)@
                == old(self)@,
            position_of(old(self)@.peers, peer_id@) < old(self)@.peers.len() ==> {
                let k = position_of(old(self)@.peers, peer_id@);
                let asked = old(self)@.peers[k].pending_requests@;
                &&& changed_at(old(self)@, final(self)@, k)
                &&& final(self)@.peers[k].same_but_requests(&old(self)@.peers[k])
                &&& final(self)@.peers[k].pending_requests@ == if crate::peer::peer::request_at(
                    asked,
                    piece_index,
                ) < asked.len() {
                    asked.remove(crate::peer::peer::request_at(asked, piece_index))
                } else {
                    asked
                }
            },
    {
        let ghost before = self@;
        let k = self.find(peer_id);
        if k < self.peers.len() {
            self.peers[k].remove_request(piece_index);
            proof {
                lemma_changed_valid(before, self@, k as int);
            }
        }
    }

    /// Sets whether we choke the peer at a position.
    pub(crate) fn set_am_choking(&mut self, k: usize, choking: ChokingState)
        requires
            old(self).wf(),
            k < old(self)@.peers.len(),
        ensures
            final(self).wf(),
            final(self)@ == old(self)@.with_peer(
                k as int,
                Peer { am_choking: choking, ..old(self)@.peers[k as int] },
            ),
    {
        let ghost before = self@;
        self.peers[k].am_choking = choking;
        proof {
            lemma_changed_valid(before, self@, k as int);
        }
    }

    /// Sets who holds the optimistic slot and counts the round of choking
    /// that was made at `now`.
    pub(crate) fn close_round(&mut self, optimistic: Option<PeerId>, now: u64)
        requires
            old(self).wf(),
            optimistic matches Some(id) ==> position_of(old(self)@.peers, id@)
                < old(self)@.peers.len(),
        ensures
            final(self).wf(),
            final(self)@ == (RegistryView {
                optimistic: id_view(optimistic),
                last_choke_time: now,
                rounds: if old(self)@.rounds < u64::MAX {
                    old(self)@.rounds + 1
                } else {
                    old(self)@.rounds
                },
                ..old(self)@
            }),
    {
        self.optimistic_unchoke = optimistic;
        self.last_choke_time = now;
        self.choke_rounds = self.choke_rounds.saturating_add(1);
    }

    /// The ids of the peers whose connection stands at `state`, in the order
    /// in which the peers were added.
    pub fn peers_in_state(&self, state: PeerState) -> (ids: Vec<PeerId>)
        ensures
            ids@ == ids_where(self@.peers, |p: Peer| p.state == state),
    {
        let ghost wanted = |p: Peer| p.state == state;
        let mut ids: Vec<PeerId> = Vec::new();
        let mut k: usize = 0;
        assert(self.peers@.take(0) =~= Seq::<Peer>::empty());
        while k < self.peers.len()
            invariant
                k <= self.peers@.len(),
                wanted == |p: Peer| p.state == state,
                ids@ == ids_where(self.peers@.take(k as int), wanted),
            decreases self.peers@.len() - k,
        {
            assert(self.peers@.take(k + 1).drop_last() =~= self.peers@.take(k as int));
            if self.peers[k].state == state {
                ids.push(self.peers[k].id);
            }
            k += 1;
        }
        assert(self.peers@.take(k as int) =~= self.peers@);
        ids
    }

    /// The number of peers that are ready.
    pub fn connected_peer_count(&self) -> (n: usize)
        ensures
            n == count_peers(self@.peers, |p: Peer| p.state == PeerState::Ready),
    {
        let ghost wanted = |p: Peer| p.state == PeerState::Ready;
        let mut n: usize = 0;
        let mut k: usize = 0;
        assert(self.peers@.take(0) =~= Seq::<Peer>::empty());
        while k < self.peers.len()
            invariant
                k <= self.peers@.len(),
                n <= k,
                wanted == |p: Peer| p.state == PeerState::Ready,
                n == count_peers(self.peers@.take(k as int), wanted),
            decreases self.peers@.len() - k,
        {
            assert(self.peers@.take(k + 1).drop_last() =~= self.peers@.take(k as int));
            if self.peers[k].state == PeerState::Ready {
                n += 1;
            }
            k += 1;
        }
        assert(self.peers@.take(k as int) =~= self.peers@);
        n
    }

    /// The number of peers that have every piece.
    pub fn seeder_count(&self) -> (n: usize)
        ensures
            n == count_peers(self@.peers, |p: Peer| has_all(p)),
    {
        let ghost wanted = |p: Peer| has_all(p);
        let mut n: usize = 0;
        let mut k: usize = 0;
        assert(self.peers@.take(0) =~= Seq::<Peer>::empty());
        while k < self.peers.len()
            invariant
                k <= self.peers@.len(),
                n <= k,
                wanted == |p: Peer| has_all(p),
                n == count_peers(self.peers@.take(k as int), wanted),
            decreases self.peers@.len() - k,
        {
            assert(self.peers@.take(k + 1).drop_last() =~= self.peers@.take(k as int));
            if self.peers[k].is_seeder() {
                n += 1;
            }
            k += 1;
        }
        assert(self.peers@.take(k as int) =~= self.peers@);
        n
    }

    /// The number of peers that are ready and lack a piece.
    pub fn leecher_count(&self) -> (n: usize)
        ensures
            n == count_peers(self@.peers, |p: Peer| p.state == PeerState::Ready && !has_all(p)),
    {
        let ghost wanted = |p: Peer| p.state == PeerState::Ready && !has_all(p);
        let mut n: usize = 0;
        let mut k: usize = 0;
        assert(self.peers@.take(0) =~= Seq::<Peer>::empty());
        while k < self.peers.len()
            invariant
                k <= self.peers@.len(),
                n <= k,
                wanted == |p: Peer| p.state == PeerState::Ready && !has_all(p),
                n == count_peers(self.peers@.take(k as int), wanted),
            decreases self.peers@.len() - k,
        {
            assert(self.peers@.take(k + 1).drop_last() =~= self.peers@.take(k as int));
            if self.peers[k].state == PeerState::Ready && !self.peers[k].is_seeder() {
                n += 1;
            }
            k += 1;
        }
        assert(self.peers@.take(k as int) =~= self.peers@);
        n
    }

    /// Takes note that we have a piece now, and of which peers are still
    /// worth asking. A piece outside the torrent leaves our pieces as they
    /// are.
    pub fn completed_piece(&mut self, piece_index: PieceIndex)
        requires
            old(self).wf(),
        ensures
            final(self).wf(),
            final(self)@ == (RegistryView {
                peers: final(self)@.peers,
                ours: if piece_index < old(self)@.ours.len() {
                    old(self)@.ours.update(piece_index as int, true)
                } else {
                    old(self)@.ours
                },
                ..old(self)@
            }),
            final(self)@.peers.len() == old(self)@.peers.len(),
            forall|k: int|
                0 <= k < old(self)@.peers.len() ==> {
                    let p = #[trigger] final(self)@.peers[k];
                    &&& p.same_but_bitfield(&old(self)@.peers[k])
                    &&& p.bitfield@ == old(self)@.peers[k].bitfield@
                    &&& p.am_interested == if p.worth_asking(final(self)@.ours) {
                        InterestState::Interested
                    } else {
                        InterestState::NotInterested
                    }
                },
    {
        let ghost before = self@;
        self.our_bitfield.set_piece(piece_index);
        let mut k: usize = 0;
        while k < self.peers.len()
            invariant
                k <= self.peers@.len(),
                before.valid(),
                self@ == (RegistryView {
                    peers: self@.peers,
                    ours: if piece_index < before.ours.len() {
                        before.ours.update(piece_index as int, true)
                    } else {
                        before.ours
                    },
                    ..before
                }),
                self@.peers.len() == before.peers.len(),
                forall|j: int| k <= j < before.peers.len() ==> self@.peers[j] == before.peers[j],
                forall|j: int|
                    0 <= j < k ==> {
                        let p = #[trigger] self@.peers[j];
                        &&& p.same_but_bitfield(&before.peers[j])
                        &&& p.bitfield@ == before.peers[j].bitfield@
                        &&& p.am_interested == if p.worth_asking(self@.ours) {
                            InterestState::Interested
                        } else {
                            InterestState::NotInterested
                        }
                    },
            decreases self.peers@.len() - k,
        {
            self.peers[k].update_interest(&self.our_bitfield);
            k += 1;
        }
        proof {
            let after = self@;
            assert forall|a: int, b: int| 0 <= a < b < after.peers.len() implies (
            #[trigger] after.peers[a]).id@ != (#[trigger] after.peers[b]).id@ by {
                assert(before.peers[a].id@ != before.peers[b].id@);
            }
            assert forall|j: int| 0 <= j < after.peers.len() implies (#[trigger] after.peers[j]).wf()
                && after.peers[j].bitfield@.len() == after.ours.len() by {
                assert(before.peers[j].wf());
            }
            if let Some(id) = after.optimistic {
                lemma_position_of(before.peers, id);
                let j = position_of(before.peers, id);
                assert(after.peers[j].id@ == id);
                lemma_has_position(after.peers, id, j);
            }
        }
    }

    /// Takes note that we no longer have a piece, as when its bytes were
    /// found to be bad, and of which peers are worth asking now. A piece
    /// outside the torrent leaves our pieces as they are.
    pub fn lost_piece(&mut self, piece_index: PieceIndex)
        requires
            old(self).wf(),
        ensures
            final(self).wf(),
            final(self)@ == (RegistryView {
                peers: final(self)@.peers,
                ours: if piece_index < old(self)@.ours.len() {
                    old(self)@.ours.update(piece_index as int, false)
                } else {
                    old(self)@.ours
                },
                ..old(self)@
            }),
            final(self)@.peers.len() == old(self)@.peers.len(),
            forall|k: int|
                0 <= k < old(self)@.peers.len() ==> {
                    let p = #[trigger] final(self)@.peers[k];
                    &&& p.same_but_bitfield(&old(self)@.peers[k])
                    &&& p.bitfield@ == old(self)@.peers[k].bitfield@
                    &&& p.am_interested == if p.worth_asking(final(self)@.ours) {
                        InterestState::Interested
                    } else {
                        InterestState::NotInterested
                    }
                },
    {
        let ghost before = self@;
        self.our_bitfield.unset_piece(piece_index);
        let mut k: usize = 0;
        while k < self.peers.len()
            invariant
                k <= self.peers@.len(),
                before.valid(),
                self@ == (RegistryView {
                    peers: self@.peers,
                    ours: if piece_index < before.ours.len() {
                        before.ours.update(piece_index as int, false)
                    } else {
                        before.ours
                    },
                    ..before
                }),
                self@.peers.len() == before.peers.len(),
                forall|j: int| k <= j < before.peers.len() ==> self@.peers[j] == before.peers[j],
                forall|j: int|
                    0 <= j < k ==> {
                        let p = #[trigger] self@.peers[j];
                        &&& p.same_but_bitfield(&before.peers[j])
                        &&& p.bitfield@ == before.peers[j].bitfield@
                        &&& p.am_interested == if p.worth_asking(self@.ours) {
                            InterestState::Interested
                        } else {
                            InterestState::NotInterested
                        }
                    },
            decreases self.peers@.len() - k,
        {
            self.peers[k].update_interest(&self.our_bitfield);
            k += 1;
        }
        proof {
            let after = self@;
            assert forall|a: int, b: int| 0 <= a < b < after.peers.len() implies (
            #[trigger] after.peers[a]).id@ != (#[trigger] after.peers[b]).id@ by {
                assert(before.peers[a].id@ != before.peers[b].id@);
            }
            assert forall|j: int| 0 <= j < after.peers.len() implies (#[trigger] after.peers[j]).wf()
                && after.peers[j].bitfield@.len() == after.ours.len() by {
                assert(before.peers[j].wf());
            }
            if let Some(id) = after.optimistic {
                lemma_position_of(before.peers, id);
                let j = position_of(before.peers, id);
                assert(after.peers[j].id@ == id);
                lemma_has_position(after.peers, id, j);
            }
        }
    }

    /// The ids of the peers that have announced a piece, in the order in
    /// which the peers were added.
    pub fn peers_with_piece(&self, piece_index: PieceIndex) -> (ids: Vec<PeerId>)
        ensures
            ids@ == ids_where(self@.peers, |p: Peer| offers(p, piece_index as int)),
    {
        let ghost wanted = |p: Peer| offers(p, piece_index as int);
        let mut ids: Vec<PeerId> = Vec::new();
        let mut k: usize = 0;
        assert(self.peers@.take(0) =~= Seq::<Peer>::empty());
        while k < self.peers.len()
            invariant
                k <= self.peers@.len(),
                wanted == |p: Peer| offers(p, piece_index as int),
                ids@ == ids_where(self.peers@.take(k as int), wanted),
            decreases self.peers@.len() - k,
        {
            assert(self.peers@.take(k + 1).drop_last() =~= self.peers@.take(k as int));
            if self.peers[k].peer_has_piece(piece_index) {
                ids.push(self.peers[k].id);
            }
            k += 1;
        }
        assert(self.peers@.take(k as int) =~= self.peers@);
        ids
    }

    /// How many of the peers are ready and have announced a piece.
    pub fn availability_of(&self, piece_index: PieceIndex) -> (n: usize)
        ensures
            n == availability(self@.peers, piece_index as int),
            n <= self@.peers.len(),
    {
        let mut n: usize = 0;
        let mut k: usize = 0;
        assert(self.peers@.take(0) =~= Seq::<Peer>::empty());
        while k < self.peers.len()
            invariant
                k <= self.peers@.len(),
                n <= k,
                n == availability(self.peers@.take(k as int), piece_index as int),
            decreases self.peers@.len() - k,
        {
            assert(self.peers@.take(k + 1).drop_last() =~= self.peers@.take(k as int));
            if self.peers[k].state == PeerState::Ready && self.peers[k].peer_has_piece(piece_index) {
                n += 1;
            }
            k += 1;
        }
        assert(self.peers@.take(k as int) =~= self.peers@);
        n
    }

    /// The pieces that we lack with, for each, the number of ready peers
    /// that have announced it: the pieces in the order of `rarest_order`.
    pub fn rarest_pieces(&self) -> (pieces: Vec<(PieceIndex, usize)>)
        ensures
            rarest_first(self@.peers, self@.ours, Seq::new(pieces@.len(), |q: int| pieces@[q].0)),
            forall|q: int|
                0 <= q < pieces@.len() ==> (#[trigger] pieces@[q]).1 == availability(
                    self@.peers,
                    pieces@[q].0 as int,
                ),
    {
        let order = self.rarest_order();
        let mut pieces: Vec<(PieceIndex, usize)> = Vec::new();
        let mut q: usize = 0;
        while q < order.len()
            invariant
                q <= order@.len(),
                pieces@.len() == q,
                forall|j: int|
                    0 <= j < q ==> (#[trigger] pieces@[j]).0 == order@[j] && pieces@[j].1
                        == availability(self@.peers, order@[j] as int),
            decreases order@.len() - q,
        {
            pieces.push((order[q], self.availability_of(order[q])));
            q += 1;
        }
        assert(Seq::new(pieces@.len(), |q: int| pieces@[q].0) =~= order@);
        pieces
    }

    /// The pieces that we lack, the rarest first: ascending by the number of
    /// ready peers that have announced them, and by index among those that
    /// as many have announced.
    pub fn rarest_order(&self) -> (order: Vec<PieceIndex>)
        ensures
            rarest_first(self@.peers, self@.ours, order@),
    {
        let n = self.our_bitfield.total_pieces();
        let peer_count = self.peers.len();
        let mut counts: Vec<usize> = Vec::new();
        let mut i: usize = 0;
        while i < n
            invariant
                i <= n,
                n == self@.ours.len(),
                n <= MAX_PIECES,
                peer_count == self@.peers.len(),
                counts@.len() == i,
                forall|j: int|
                    0 <= j < i ==> (#[trigger] counts@[j]) == availability(self@.peers, j)
                        && counts@[j] <= peer_count,
            decreases n - i,
        {
            counts.push(self.availability_of(i as PieceIndex));
            i += 1;
        }
        let mut order: Vec<PieceIndex> = Vec::new();
        let mut c: usize = 0;
        loop
            invariant_except_break
                forall|k: int|
                    0 <= k < order@.len() ==> (#[trigger] order@[k]) < n && lacked(self@.ours, order@[k] as int,
                    ) && counts@[order@[k] as int] < c,
                forall|j: int|
                    0 <= j < n && lacked(self@.ours, j) && counts@[j] < c
                        ==> order@.contains(j as PieceIndex),
                forall|k: int, l: int|
                    0 <= k < l < order@.len() ==> rarer(
                        self@.peers,
                        #[trigger] order@[k],
                        #[trigger] order@[l],
                    ),
            invariant
                c <= peer_count,
                n == self@.ours.len(),
                n <= MAX_PIECES,
                peer_count == self@.peers.len(),
                counts@.len() == n,
                forall|j: int|
                    0 <= j < n ==> (#[trigger] counts@[j]) == availability(self@.peers, j)
                        && counts@[j] <= peer_count,
            ensures
                rarest_first(self@.peers, self@.ours, order@),
            decreases peer_count - c,
        {
            let mut i: usize = 0;
            while i < n
                invariant
                    i <= n,
                    c <= peer_count,
                    n == self@.ours.len(),
                    n <= MAX_PIECES,
                    peer_count == self@.peers.len(),
                    counts@.len() == n,
                    forall|j: int|
                        0 <= j < n ==> (#[trigger] counts@[j]) == availability(self@.peers, j)
                            && counts@[j] <= peer_count,
                    forall|k: int|
                        0 <= k < order@.len() ==> (#[trigger] order@[k]) < n && lacked(self@.ours, order@[k] as int,
                        ) && (counts@[order@[k] as int] < c || (counts@[order@[k] as int] == c
                            && order@[k] < i)),
                    forall|j: int|
                        0 <= j < n && lacked(self@.ours, j) && (counts@[j]
                            < c || (counts@[j] == c && j < i)) ==> order@.contains(
                            j as PieceIndex,
                        ),
                    forall|k: int, l: int|
                        0 <= k < l < order@.len() ==> rarer(
                            self@.peers,
                            #[trigger] order@[k],
                            #[trigger] order@[l],
                        ),
                decreases n - i,
            {
                if !self.our_bitfield.has_piece(i as PieceIndex) && counts[i] == c {
                    let ghost before = order@;
                    order.push(i as PieceIndex);
                    assert forall|j: int|
                        0 <= j < n && lacked(self@.ours, j) && (counts@[j]
                            < c || (counts@[j] == c && j < i + 1)) implies order@.contains(
                        j as PieceIndex,
                    ) by {
                        if j == i {
                            assert(order@[order@.len() - 1] == j as PieceIndex);
                        } else {
                            assert(before.contains(j as PieceIndex));
                            let m = choose|m: int| 0 <= m < before.len() && before[m] == j as PieceIndex;
                            assert(order@[m] == j as PieceIndex);
                        }
                    }
                    assert forall|k: int, l: int| 0 <= k < l < order@.len() implies rarer(
                        self@.peers,
                        #[trigger] order@[k],
                        #[trigger] order@[l],
                    ) by {
                        if l < before.len() {
                            assert(rarer(self@.peers, before[k], before[l]));
                        } else {
                            assert(order@[k] == before[k]);
                        }
                    }
                }
                i += 1;
            }
            if c == peer_count {
                assert(rarest_first(self@.peers, self@.ours, order@));
                break;
            }
            c += 1;
        }
        order
    }

    /// The pieces that we lack and that a peer has announced, ascending.
    pub fn missing_pieces_available(&self) -> (pieces: Vec<PieceIndex>)
        ensures
            pieces@ == crate::common::bitfield::positions(offered_bits(self@.peers, self@.ours), true),
    {
        let n = self.our_bitfield.total_pieces();
        let ghost bits = offered_bits(self@.peers, self@.ours);
        let mut pieces: Vec<PieceIndex> = Vec::new();
        let mut i: usize = 0;
        assert(bits.take(0) =~= Seq::<bool>::empty());
        while i < n
            invariant
                i <= n,
                n == self@.ours.len(),
                n <= MAX_PIECES,
                bits == offered_bits(self@.peers, self@.ours),
                pieces@ == crate::common::bitfield::positions(bits.take(i as int), true),
            decreases n - i,
        {
            assert(bits.take(i + 1).drop_last() =~= bits.take(i as int));
            let mut offered = false;
            if !self.our_bitfield.has_piece(i as PieceIndex) {
                let mut k: usize = 0;
                while k < self.peers.len() && !offered
                    invariant
                        k <= self.peers@.len(),
                        i < n,
                        n == self@.ours.len(),
                        n <= MAX_PIECES,
                        !offered ==> forall|j: int|
                            0 <= j < k ==> !offers(#[trigger] self@.peers[j], i as int),
                        offered ==> exists|j: int|
                            0 <= j < self@.peers.len() && offers(#[trigger] self@.peers[j], i as int),
                    decreases self.peers@.len() - k,
                {
                    if self.peers[k].peer_has_piece(i as PieceIndex) {
                        offered = true;
                        assert(offers(self@.peers[k as int], i as int));
                    }
                    k += 1;
                }
            }
            assert(offered == bits[i as int]);
            if offered {
                pieces.push(i as PieceIndex);
            }
            i += 1;
        }
        assert(bits.take(n as int) =~= bits);
        pieces
    }

    /// Whether we have every piece.
    pub fn is_complete(&self) -> (complete: bool)
        ensures
            complete == (forall|i: int| 0 <= i < self@.ours.len() ==> self@.ours[i]),
    {
        let complete = self.our_bitfield.is_complete();
        assert(self@.ours == self.our_bitfield@);
        complete
    }

    /// Drops every peer that was last heard from longer ago than the
    /// connection timeout allows, and hands back their ids, in the order in
    /// which the peers were added. The optimistic slot is freed if its
    /// holder is dropped.
    pub fn cleanup_stale_peers(&mut self, now: u64) -> (dropped: Vec<PeerId>)
        requires
            old(self).wf(),
        ensures
            final(self).wf(),
            final(self)@.peers == old(self)@.peers.filter(
                |p: Peer| !silent(p, now, old(self)@.connection_timeout),
            ),
            dropped@ == ids_where(
                old(self)@.peers,
                |p: Peer| silent(p, now, old(self)@.connection_timeout),
            ),
            final(self)@ == (RegistryView {
                peers: final(self)@.peers,
                optimistic: if old(self)@.optimistic matches Some(id) && position_of(
                    final(self)@.peers,
                    id,
                ) < final(self)@.peers.len() {
                    old(self)@.optimistic
                } else {
                    None
                },
                ..old(self)@
            }),
    {
        let ghost before = self@;
        let timeout = self.connection_timeout;
        let ghost stale = |p: Peer| silent(p, now, timeout);
        let ghost fresh = |p: Peer| !silent(p, now, timeout);
        let mut dropped: Vec<PeerId> = Vec::new();
        let mut k: usize = 0;
        let ghost mut j: int = 0;
        proof {
            assert(before.peers.take(0) =~= Seq::<Peer>::empty());
            assert(before.peers.skip(0) =~= before.peers);
            reveal(Seq::filter);
            assert(before.peers.take(0).filter(fresh) =~= Seq::<Peer>::empty());
        }
        while k < self.peers.len()
            invariant
                0 <= j <= before.peers.len(),
                k <= self.peers@.len(),
                stale == |p: Peer| silent(p, now, timeout),
                fresh == |p: Peer| !silent(p, now, timeout),
                timeout == before.connection_timeout,
                self@ == (RegistryView { peers: self@.peers, ..before }),
                k == before.peers.take(j).filter(fresh).len(),
                self@.peers == before.peers.take(j).filter(fresh) + before.peers.skip(j),
                dropped@ == ids_where(before.peers.take(j), stale),
            decreases self.peers@.len() - k,
        {
            proof {
                assert(before.peers.take(j + 1).drop_last() =~= before.peers.take(j));
                assert(before.peers.take(j + 1).last() == before.peers[j]);
                assert(self@.peers[k as int] == before.peers.skip(j)[0]);
                reveal(Seq::filter);
            }
            if self.peers[k].is_stale(now, timeout) {
                let gone = self.peers.remove(k);
                dropped.push(gone.id);
                proof {
                    assert(self@.peers =~= before.peers.take(j + 1).filter(fresh)
                        + before.peers.skip(j + 1));
                }
            } else {
                proof {
                    assert(self@.peers =~= before.peers.take(j + 1).filter(fresh)
                        + before.peers.skip(j + 1));
                }
                k += 1;
            }
            proof {
                j = j + 1;
            }
        }
        proof {
            assert(before.peers.skip(j) =~= Seq::<Peer>::empty()) by {
                assert(self@.peers.len() == k);
            }
            assert(before.peers.take(j) =~= before.peers);
            assert(self@.peers =~= before.peers.filter(fresh));
            lemma_filter_distinct(before.peers, fresh);
        }
        let keep = match &self.optimistic_unchoke {
            Some(id) => self.find(id) < self.peers.len(),
            None => false,
        };
        if !keep {
            self.optimistic_unchoke = None;
        }
        proof {
            let after = self@;
            assert forall|m: int| 0 <= m < after.peers.len() implies (#[trigger] after.peers[m]).wf()
                && after.peers[m].bitfield@.len() == after.ours.len() by {
                assert(before.peers.contains(after.peers[m]));
                let q = choose|q: int| 0 <= q < before.peers.len() && before.peers[q] == after.peers[m];
                assert(before.peers[q].wf());
            }
            before.peers.lemma_filter_len(fresh);
        }
        dropped
    }

    /// Forgets, for every peer, the requests made more than `timeout`
    /// milliseconds before `now`, and hands them back with whom they were
    /// made to, peer by peer in the order in which the peers were added.
    pub fn expire_requests(&mut self, now: u64, timeout: u64) -> (expired: Vec<
        (PeerId, PendingRequest),
    >)
        requires
            old(self).wf(),
        ensures
            final(self).wf(),
            final(self)@ == (RegistryView { peers: final(self)@.peers, ..old(self)@ }),
            final(self)@.peers.len() == old(self)@.peers.len(),
            forall|k: int|
                0 <= k < old(self)@.peers.len() ==> (#[trigger] final(self)@.peers[k]).same_but_requests(
                    &old(self)@.peers[k],
                ) && final(self)@.peers[k].pending_requests@
                    == old(self)@.peers[k].pending_requests@.filter(
                    |r: PendingRequest| !crate::peer::peer::overdue(r, now, timeout),
                ),
            expired@ == overdue_of(old(self)@.peers, now, timeout),
    {
        let ghost before = self@;
        let mut expired: Vec<(PeerId, PendingRequest)> = Vec::new();
        let mut k: usize = 0;
        assert(before.peers.take(0) =~= Seq::<Peer>::empty());
        while k < self.peers.len()
            invariant
                k <= self.peers@.len(),
                before.valid(),
                self@ == (RegistryView { peers: self@.peers, ..before }),
                self@.peers.len() == before.peers.len(),
                forall|j: int| k <= j < before.peers.len() ==> self@.peers[j] == before.peers[j],
                forall|j: int|
                    0 <= j < k ==> (#[trigger] self@.peers[j]).same_but_requests(&before.peers[j])
                        && self@.peers[j].wf() && self@.peers[j].pending_requests@
                        == before.peers[j].pending_requests@.filter(
                        |r: PendingRequest| !crate::peer::peer::overdue(r, now, timeout),
                    ),
                expired@ == overdue_of(before.peers.take(k as int), now, timeout),
            decreases self.peers@.len() - k,
        {
            assert(before.peers.take(k + 1).drop_last() =~= before.peers.take(k as int));
            assert(before.peers.take(k + 1).last() == before.peers[k as int]);
            assert(before.peers[k as int].wf());
            let id = self.peers[k].id;
            let late = self.peers[k].expire_requests(now, timeout);
            let ghost base = expired@;
            let mut m: usize = 0;
            while m < late.len()
                invariant
                    m <= late@.len(),
                    expired@ == base + Seq::new(m as nat, |q: int| (id, late@[q])),
                decreases late@.len() - m,
            {
                expired.push((id, late[m]));
                assert(expired@ =~= base + Seq::new((m + 1) as nat, |q: int| (id, late@[q])));
                m += 1;
            }
            assert(expired@ =~= overdue_of(before.peers.take(k + 1), now, timeout));
            k += 1;
        }
        proof {
            assert(before.peers.take(k as int) =~= before.peers);
            let after = self@;
            assert forall|a: int, b: int| 0 <= a < b < after.peers.len() implies (
            #[trigger] after.peers[a]).id@ != (#[trigger] after.peers[b]).id@ by {
                assert(before.peers[a].id@ != before.peers[b].id@);
            }
            if let Some(id) = after.optimistic {
                lemma_position_of(before.peers, id);
                let j = position_of(before.peers, id);
                assert(after.peers[j].id@ == id);
                lemma_has_position(after.peers, id, j);
            }
        }
        expired
    }

    /// Counts bytes received from a peer at `now`; the count stops at the
    /// largest number it can hold.
    pub fn record_download(&mut self, peer_id: &PeerId, bytes: u64, now: u64)
        requires
            old(self).wf(),
        ensures
            final(self).wf(),
            position_of(old(self)@.peers, peer_id@) >= old(self)@.peers.len() ==> final(self)@
                == old(self)@,
            position_of(old(self)@.peers, peer_id@) < old(self)@.peers.len() ==> {
                let k = position_of(old(self)@.peers, peer_id@);
                let p = old(self)@.peers[k];
                &&& changed_at(old(self)@, final(self)@, k)
                &&& final(self)@.peers[k].same_but_counters(&p)
                &&& final(self)@.peers[k].downloaded == if p.downloaded + bytes <= u64::MAX {
                    (p.downloaded + bytes) as u64
                } else {
                    u64::MAX
                }
                &&& final(self)@.peers[k].last_seen == now
                &&& final(self)@.peers[k].uploaded == p.uploaded
                &&& final(self)@.peers[k].last_sent == p.last_sent
                &&& final(self)@.peers[k].download_rate == p.download_rate
                &&& final(self)@.peers[k].upload_rate == p.upload_rate
            },
    {
        let ghost before = self@;
        let k = self.find(peer_id);
        if k < self.peers.len() {
            self.peers[k].downloaded = self.peers[k].downloaded.saturating_add(bytes);
            self.peers[k].last_seen = now;
            proof {
                lemma_changed_valid(before, self@, k as int);
            }
        }
    }

    /// Counts bytes sent to a peer at `now`; the count stops at the largest
    /// number it can hold.
    pub fn record_upload(&mut self, peer_id: &PeerId, bytes: u64, now: u64)
        requires
            old(self).wf(),
        ensures
            final(self).wf(),
            position_of(old(self)@.peers, peer_id@) >= old(self)@.peers.len() ==> final(self)@
                == old(self)@,
            position_of(old(self)@.peers, peer_id@) < old(self)@.peers.len() ==> {
                let k = position_of(old(self)@.peers, peer_id@);
                let p = old(self)@.peers[k];
                &&& changed_at(old(self)@, final(self)@, k)
                &&& final(self)@.peers[k].same_but_counters(&p)
                &&& final(self)@.peers[k].uploaded == if p.uploaded + bytes <= u64::MAX {
                    (p.uploaded + bytes) as u64
                } else {
                    u64::MAX
                }
                &&& final(self)@.peers[k].last_sent == now
                &&& final(self)@.peers[k].downloaded == p.downloaded
                &&& final(self)@.peers[k].last_seen == p.last_seen
                &&& final(self)@.peers[k].download_rate == p.download_rate
                &&& final(self)@.peers[k].upload_rate == p.upload_rate
            },
    {
        let ghost before = self@;
        let k = self.find(peer_id);
        if k < self.peers.len() {
            self.peers[k].uploaded = self.peers[k].uploaded.saturating_add(bytes);
            self.peers[k].last_sent = now;
            proof {
                lemma_changed_valid(before, self@, k as int);
            }
        }
    }

    /// Moves the rates of a peer on by one second in which the given
    /// numbers of bytes were received from it and sent to it.
    pub fn record_rates(&mut self, peer_id: &PeerId, received: u64, sent: u64)
        requires
            old(self).wf(),
        ensures
            final(self).wf(),
            position_of(old(self)@.peers, peer_id@) >= old(self)@.peers.len() ==> final(self)@
                == old(self)@,
            position_of(old(self)@.peers, peer_id@) < old(self)@.peers.len() ==> {
                let k = position_of(old(self)@.peers, peer_id@);
                let p = old(self)@.peers[k];
                &&& changed_at(old(self)@, final(self)@, k)
                &&& final(self)@.peers[k].same_but_counters(&p)
                &&& final(self)@.peers[k].download_rate == crate::peer::peer::smoothed(
                    p.download_rate,
                    received,
                )
                &&& final(self)@.peers[k].upload_rate == crate::peer::peer::smoothed(
                    p.upload_rate,
                    sent,
                )
                &&& final(self)@.peers[k].downloaded == p.downloaded
                &&& final(self)@.peers[k].uploaded == p.uploaded
                &&& final(self)@.peers[k].last_seen == p.last_seen
                &&& final(self)@.peers[k].last_sent == p.last_sent
            },
    {
        let ghost before = self@;
        let k = self.find(peer_id);
        if k < self.peers.len() {
            self.peers[k].update_rates(received, sent);
            proof {
                lemma_changed_valid(before, self@, k as int);
            }
        }
    }

    /// The bytes received from all peers, the bytes sent to them, and the
    /// means of their rates of receiving and of sending, rounded down; the
    /// sums stop at the largest number they can hold, and the means of no
    /// peers are zero.
    pub fn download_stats(&self) -> (stats: (u64, u64, u64, u64))
        ensures
            stats.0 == capped(sum_of(self@.peers, |p: Peer| p.downloaded)),
            stats.1 == capped(sum_of(self@.peers, |p: Peer| p.uploaded)),
            stats.2 == mean_of(self@.peers, |p: Peer| p.download_rate),
            stats.3 == mean_of(self@.peers, |p: Peer| p.upload_rate),
    {
        let ghost f0 = |p: Peer| p.downloaded;
        let ghost f1 = |p: Peer| p.uploaded;
        let ghost f2 = |p: Peer| p.download_rate;
        let ghost f3 = |p: Peer| p.upload_rate;
        let mut downloaded: u128 = 0;
        let mut uploaded: u128 = 0;
        let mut download_rate: u128 = 0;
        let mut upload_rate: u128 = 0;
        let mut k: usize = 0;
        assert(self.peers@.take(0) =~= Seq::<Peer>::empty());
        while k < self.peers.len()
            invariant
                k <= self.peers@.len(),
                f0 == |p: Peer| p.downloaded,
                f1 == |p: Peer| p.uploaded,
                f2 == |p: Peer| p.download_rate,
                f3 == |p: Peer| p.upload_rate,
                downloaded == sum_of(self.peers@.take(k as int), f0),
                uploaded == sum_of(self.peers@.take(k as int), f1),
                download_rate == sum_of(self.peers@.take(k as int), f2),
                upload_rate == sum_of(self.peers@.take(k as int), f3),
                downloaded <= k * u64::MAX,
                uploaded <= k * u64::MAX,
                download_rate <= k * u64::MAX,
                upload_rate <= k * u64::MAX,
            decreases self.peers@.len() - k,
        {
            assert(self.peers@.take(k + 1).drop_last() =~= self.peers@.take(k as int));
            assert(k * u64::MAX + u64::MAX <= usize::MAX * u64::MAX + u64::MAX <= u128::MAX)
                by (nonlinear_arith)
                requires
                    k <= usize::MAX,
                    usize::MAX <= u64::MAX,
            ;
            assert((k + 1) * u64::MAX == k * u64::MAX + u64::MAX) by (nonlinear_arith);
            downloaded = downloaded + self.peers[k].downloaded as u128;
            uploaded = uploaded + self.peers[k].uploaded as u128;
            download_rate = download_rate + self.peers[k].download_rate as u128;
            upload_rate = upload_rate + self.peers[k].upload_rate as u128;
            k += 1;
        }
        assert(self.peers@.take(k as int) =~= self.peers@);
        let count = self.peers.len() as u128;
        let total_downloaded = if downloaded > u64::MAX as u128 {
            u64::MAX
        } else {
            downloaded as u64
        };
        let total_uploaded = if uploaded > u64::MAX as u128 {
            u64::MAX
        } else {
            uploaded as u64
        };
        if count == 0 {
            return (total_downloaded, total_uploaded, 0, 0);
        }
        assert(download_rate / count <= u64::MAX && upload_rate / count <= u64::MAX)
            by (nonlinear_arith)
            requires
                download_rate <= count * u64::MAX,
                upload_rate <= count * u64::MAX,
                count > 0,
        ;
        (
            total_downloaded,
            total_uploaded,
            (download_rate / count) as u64,
            (upload_rate / count) as u64,
        )
    }

    /// How many peers are served at a time.
    pub fn max_unchoked(&self) -> (n: usize)
        ensures
            n == self@.max_unchoked,
    {
        self.max_unchoked
    }

    /// How many peers the registry takes.
    pub fn max_peers(&self) -> (n: usize)
        ensures
            n == self@.max_peers,
    {
        self.max_peers
    }

    /// The holder of the optimistic slot, if it is held.
    pub fn optimistic_unchoke(&self) -> (holder: Option<PeerId>)
        ensures
            id_view(holder) == self@.optimistic,
    {
        self.optimistic_unchoke
    }

    /// The number of rounds of choking made so far.
    pub fn choke_rounds(&self) -> (n: u64)
        ensures
            n == self@.rounds,
            self@.rounds <= u64::MAX,
    {
        self.choke_rounds
    }

    /// Whether a round of choking is due at `now`: the interval has passed
    /// since the last one.
    pub fn choking_due(&self, now: u64) -> (due: bool)
        ensures
            due == round_due(self@, now),
    {
        now >= self.last_choke_time && now - self.last_choke_time >= self.choke_interval
    }

    /// Forgets the requests for a block that peers other than `except` owe
    /// us, as when the block has arrived from `except`, and hands back the
    /// ids of those peers, in the order in which the peers were added.
    pub fn cancel_duplicates(&mut self, piece_index: PieceIndex, offset: BlockOffset, except: &PeerId) -> (
        ids: Vec<PeerId>)
        requires
            old(self).wf(),
        ensures
            final(self).wf(),
            final(self)@ == (RegistryView { peers: final(self)@.peers, ..old(self)@ }),
            final(self)@.peers.len() == old(self)@.peers.len(),
            forall|k: int|
                0 <= k < old(self)@.peers.len() ==> (#[trigger] final(self)@.peers[k]).same_but_requests(
                    &old(self)@.peers[k],
                ) && final(self)@.peers[k].pending_requests@ == if owes_block(
                    old(self)@.peers[k],
                    piece_index,
                    offset,
                ) && old(self)@.peers[k].id@ != except@ {
                    old(self)@.peers[k].pending_requests@.remove(
                        crate::peer::peer::request_at(
                            old(self)@.peers[k].pending_requests@,
                            piece_index,
                        ),
                    )
                } else {
                    old(self)@.peers[k].pending_requests@
                },
            ids@ == ids_where(
                old(self)@.peers,
                |p: Peer| owes_block(p, piece_index, offset) && p.id@ != except@,
            ),
    {
        let ghost before = self@;
        let ghost wanted = |p: Peer| owes_block(p, piece_index, offset) && p.id@ != except@;
        let mut ids: Vec<PeerId> = Vec::new();
        let mut k: usize = 0;
        assert(before.peers.take(0) =~= Seq::<Peer>::empty());
        while k < self.peers.len()
            invariant
                k <= self.peers@.len(),
                before.valid(),
                wanted == |p: Peer| owes_block(p, piece_index, offset) && p.id@ != except@,
                self@ == (RegistryView { peers: self@.peers, ..before }),
                self@.peers.len() == before.peers.len(),
                forall|j: int| k <= j < before.peers.len() ==> self@.peers[j] == before.peers[j],
                forall|j: int|
                    0 <= j < k ==> (#[trigger] self@.peers[j]).same_but_requests(&before.peers[j])
                        && self@.peers[j].wf() && self@.peers[j].pending_requests@ == if owes_block(
                        before.peers[j],
                        piece_index,
                        offset,
                    ) && before.peers[j].id@ != except@ {
                        before.peers[j].pending_requests@.remove(
                            crate::peer::peer::request_at(
                                before.peers[j].pending_requests@,
                                piece_index,
                            ),
                        )
                    } else {
                        before.peers[j].pending_requests@
                    },
                ids@ == ids_where(before.peers.take(k as int), wanted),
            decreases self.peers@.len() - k,
        {
            assert(before.peers.take(k + 1).drop_last() =~= before.peers.take(k as int));
            assert(before.peers.take(k + 1).last() == before.peers[k as int]);
            assert(before.peers[k as int].wf());
            let owes = match self.peers[k].request_for(piece_index) {
                Some(r) => r.offset == offset,
                None => false,
            };
            if owes && !same_bytes(self.peers[k].id.as_slice(), except.as_slice()) {
                ids.push(self.peers[k].id);
                self.peers[k].remove_request(piece_index);
            }
            k += 1;
        }
        proof {
            assert(before.peers.take(k as int) =~= before.peers);
            let after = self@;
            assert forall|a: int, b: int| 0 <= a < b < after.peers.len() implies (
            #[trigger] after.peers[a]).id@ != (#[trigger] after.peers[b]).id@ by {
                assert(before.peers[a].id@ != before.peers[b].id@);
            }
            if let Some(id) = after.optimistic {
                lemma_position_of(before.peers, id);
                let j = position_of(before.peers, id);
                assert(after.peers[j].id@ == id);
                lemma_has_position(after.peers, id, j);
            }
        }
        ids
    }
}

/// What adding a peer does to a registry and returns.
pub open spec fn added(
    before: RegistryView,
    peer_id: PeerId,
    address: PeerAddress,
    now: u64,
    r: Result<Option<PeerId>, TorrentError>,
    after: RegistryView,
) -> bool {
    let w = worst_position(before.peers);
    if position_of(before.peers, peer_id@) < before.peers.len() {
        r == Ok::<Option<PeerId>, TorrentError>(None) && after == before
    } else if before.peers.len() < before.max_peers {
        &&& r == Ok::<Option<PeerId>, TorrentError>(None)
        &&& after.peers.len() == before.peers.len() + 1
        &&& after.peers.drop_last() == before.peers
        &&& is_new_peer(after.peers.last(), peer_id, address, before.ours.len(), now)
        &&& after == RegistryView { peers: after.peers, ..before }
    } else if before.peers.len() > 0 && reputation_of(
        before.peers[w].uploaded,
        before.peers[w].downloaded,
    ) < 1000 {
        &&& r == Ok::<Option<PeerId>, TorrentError>(Some(before.peers[w].id))
        &&& after.peers.len() == before.peers.len()
        &&& after.peers.drop_last() == before.peers.remove(w)
        &&& is_new_peer(after.peers.last(), peer_id, address, before.ours.len(), now)
        &&& after == RegistryView {
            peers: after.peers,
            optimistic: if before.optimistic == Some(before.peers[w].id@) {
                None
            } else {
                before.optimistic
            },
            ..before
        }
    } else {
        r == Err::<Option<PeerId>, TorrentError>(TorrentError::Peer(PeerError::RegistryFull))
            && after == before
    }
}

/// Whether `p` is a peer as it is when it has just been met.
pub open spec fn is_new_peer(p: Peer, id: PeerId, address: PeerAddress, num_pieces: nat, now: u64) -> bool {
    &&& p.wf()
    &&& p.id == id
    &&& p.address == address
    &&& p.state == PeerState::Disconnected
    &&& p.bitfield@ == Seq::new(num_pieces, |i: int| false)
    &&& p.am_choking == ChokingState::Choked
    &&& p.peer_choking == ChokingState::Choked
    &&& p.am_interested == InterestState::NotInterested
    &&& p.peer_interested == InterestState::NotInterested
    &&& p.download_rate == 0 && p.upload_rate == 0
    &&& p.last_seen == now && p.last_sent == now && p.connected_at == now
    &&& p.downloaded == 0 && p.uploaded == 0
    &&& p.pending_requests@ == Seq::<PendingRequest>::empty()
    &&& p.max_requests == crate::peer::peer::DEFAULT_MAX_REQUESTS
    &&& !p.supports_fast && !p.supports_extended
}

/// A peer with the id at some position is found by `position_of`.
pub proof fn lemma_has_position(peers: Seq<Peer>, id: Seq<u8>, j: int)
    requires
        0 <= j < peers.len(),
        peers[j].id@ == id,
    ensures
        position_of(peers, id) < peers.len(),
{
    lemma_position_of(peers, id);
}

/// The holder of the optimistic slot is still found after a peer was added
/// behind the others.
pub proof fn lemma_keeps_optimistic(before: Seq<Peer>, after: Seq<Peer>, optimistic: Option<Seq<u8>>)
    requires
        after.len() == before.len() + 1,
        after.drop_last() == before,
        optimistic matches Some(id) ==> position_of(before, id) < before.len(),
    ensures
        optimistic matches Some(id) ==> position_of(after, id) < after.len(),
{
    if let Some(id) = optimistic {
        lemma_position_of(before, id);
        let j = position_of(before, id);
        assert(after[j] == after.drop_last()[j]);
        lemma_has_position(after, id, j);
    }
}

/// Whether `after` is `before` but for the peer at `k`, which has kept its
/// id, its limit on requests and the number of its pieces.
pub open spec fn changed_at(before: RegistryView, after: RegistryView, k: int) -> bool {
    &&& 0 <= k < before.peers.len()
    &&& after.peers.len() == before.peers.len()
    &&& forall|j: int| 0 <= j < before.peers.len() && j != k ==> after.peers[j] == before.peers[j]
    &&& after.peers[k].id == before.peers[k].id
    &&& after.peers[k].bitfield@.len() == before.peers[k].bitfield@.len()
    &&& after == RegistryView { peers: after.peers, ..before }
}

/// A registry stays valid where one peer changes and stays well formed.
pub proof fn lemma_changed_valid(before: RegistryView, after: RegistryView, k: int)
    requires
        before.valid(),
        changed_at(before, after, k),
        after.peers[k].wf(),
    ensures
        after.valid(),
{
    assert forall|a: int, b: int| 0 <= a < b < after.peers.len() implies (
    #[trigger] after.peers[a]).id@ != (#[trigger] after.peers[b]).id@ by {
        assert(before.peers[a].id@ != before.peers[b].id@);
    }
    assert forall|j: int| 0 <= j < after.peers.len() implies (#[trigger] after.peers[j]).wf()
        && after.peers[j].bitfield@.len() == after.ours.len() by {
        assert(before.peers[j].wf());
    }
    if let Some(id) = after.optimistic {
        lemma_position_of(before.peers, id);
        let j = position_of(before.peers, id);
        assert(after.peers[j].id@ == id);
        lemma_has_position(after.peers, id, j);
    }
}

/// Whether a peer has announced a piece, whatever state it is in.
pub open spec fn offers(peer: Peer, piece: int) -> bool {
    0 <= piece < peer.bitfield@.len() && peer.bitfield@[piece]
}

/// Whether a peer has announced every piece.
pub open spec fn has_all(peer: Peer) -> bool {
    forall|i: int| 0 <= i < peer.bitfield@.len() ==> peer.bitfield@[i]
}

/// The bits of the pieces that we lack and that a peer has announced.
pub open spec fn offered_bits(peers: Seq<Peer>, ours: Seq<bool>) -> Seq<bool> {
    Seq::new(
        ours.len(),
        |i: int| !ours[i] && exists|k: int| 0 <= k < peers.len() && offers(#[trigger] peers[k], i),
    )
}

/// The number of peers that `wanted` holds of.
pub open spec fn count_peers(peers: Seq<Peer>, wanted: spec_fn(Peer) -> bool) -> nat
    decreases peers.len(),
{
    if peers.len() == 0 {
        0
    } else {
        count_peers(peers.drop_last(), wanted) + if wanted(peers.last()) {
            1nat
        } else {
            0nat
        }
    }
}

/// The ids of the peers that `wanted` holds of, in the order of the peers.
pub open spec fn ids_where(peers: Seq<Peer>, wanted: spec_fn(Peer) -> bool) -> Seq<PeerId>
    decreases peers.len(),
{
    if peers.len() == 0 {
        Seq::empty()
    } else if wanted(peers.last()) {
        ids_where(peers.drop_last(), wanted).push(peers.last().id)
    } else {
        ids_where(peers.drop_last(), wanted)
    }
}

/// Whether piece `a` comes before piece `b` where the rarest come first:
/// fewer ready peers have announced it, or as many and its index is lower.
pub open spec fn rarer(peers: Seq<Peer>, a: PieceIndex, b: PieceIndex) -> bool {
    availability(peers, a as int) < availability(peers, b as int) || (availability(
        peers,
        a as int,
    ) == availability(peers, b as int) && a < b)
}

/// Whether we lack a piece.
pub open spec fn lacked(ours: Seq<bool>, piece: int) -> bool {
    !ours[piece]
}

/// Whether `order` lists the pieces that we lack, each once, the rarest
/// first.
pub open spec fn rarest_first(peers: Seq<Peer>, ours: Seq<bool>, order: Seq<PieceIndex>) -> bool {
    &&& ours.len() <= MAX_PIECES
    &&& forall|k: int|
        0 <= k < order.len() ==> (#[trigger] order[k]) < ours.len() && lacked(ours, order[k] as int)
    &&& forall|j: int|
        0 <= j < ours.len() && lacked(ours, j) ==> order.contains(j as PieceIndex)
    &&& forall|k: int, l: int|
        0 <= k < l < order.len() ==> rarer(peers, #[trigger] order[k], #[trigger] order[l])
}

/// Only one order lists the pieces that we lack the rarest first.
pub proof fn lemma_rarest_first_unique(
    peers: Seq<Peer>,
    ours: Seq<bool>,
    a: Seq<PieceIndex>,
    b: Seq<PieceIndex>,
)
    requires
        rarest_first(peers, ours, a),
        rarest_first(peers, ours, b),
    ensures
        a == b,
    decreases a.len(),
{
    // Both orders begin with the piece that no other we lack is rarer than.
    if a.len() == 0 {
        if b.len() > 0 {
            assert(a.contains(b[0]));
        }
        assert(a =~= b);
    } else if b.len() == 0 {
        assert(b.contains(a[0]));
    } else {
        let x = a[0];
        let y = b[0];
        assert(b.contains(x));
        assert(a.contains(y));
        let kx = choose|k: int| 0 <= k < b.len() && b[k] == x;
        let ky = choose|k: int| 0 <= k < a.len() && a[k] == y;
        if kx > 0 {
            assert(rarer(peers, b[0], b[kx]));
            if ky > 0 {
                assert(rarer(peers, a[0], a[ky]));
            }
        }
        assert(x == y);
        let ours2 = ours.update(x as int, true);
        let a2 = a.drop_first();
        let b2 = b.drop_first();
        lemma_rest_rarest_first(peers, ours, a);
        lemma_rest_rarest_first(peers, ours, b);
        lemma_rarest_first_unique(peers, ours2, a2, b2);
        assert(a =~= seq![x] + a2);
        assert(b =~= seq![y] + b2);
    }
}

/// An order without its first piece lists the pieces that we lack once we
/// have that piece, the rarest first.
proof fn lemma_rest_rarest_first(peers: Seq<Peer>, ours: Seq<bool>, a: Seq<PieceIndex>)
    requires
        rarest_first(peers, ours, a),
        a.len() > 0,
    ensures
        rarest_first(peers, ours.update(a[0] as int, true), a.drop_first()),
{
    let x = a[0];
    let ours2 = ours.update(x as int, true);
    let a2 = a.drop_first();
    assert forall|k: int| 0 <= k < a2.len() implies (#[trigger] a2[k]) < ours2.len() && lacked(ours2, a2[k] as int,
    ) by {
        assert(a2[k] == a[k + 1]);
        assert(rarer(peers, a[0], a[k + 1]));
    }
    assert forall|j: int| 0 <= j < ours2.len() && lacked(ours2, j) implies a2.contains(
        j as PieceIndex,
    ) by {
        assert(lacked(ours, j));
        assert(a.contains(j as PieceIndex));
        let m = choose|m: int| 0 <= m < a.len() && a[m] == j as PieceIndex;
        assert(m > 0);
        assert(a2[m - 1] == j as PieceIndex);
    }
    assert forall|k: int, l: int| 0 <= k < l < a2.len() implies rarer(
        peers,
        #[trigger] a2[k],
        #[trigger] a2[l],
    ) by {
        assert(a2[k] == a[k + 1] && a2[l] == a[l + 1]);
        assert(rarer(peers, a[k + 1], a[l + 1]));
    }
}

/// The first piece of the order is one that we lack and that no other piece
/// we lack is rarer than.
pub proof fn lemma_first_is_rarest(peers: Seq<Peer>, ours: Seq<bool>, order: Seq<PieceIndex>)
    requires
        rarest_first(peers, ours, order),
        order.len() > 0,
    ensures
        order[0] < ours.len() && !ours[order[0] as int],
        forall|j: int|
            0 <= j < ours.len() && !ours[j] ==> availability(peers, order[0] as int)
                <= availability(peers, j),
{
    assert forall|j: int| 0 <= j < ours.len() && !ours[j] implies availability(
        peers,
        order[0] as int,
    ) <= availability(peers, j) by {
        assert(lacked(ours, j));
        assert(order.contains(j as PieceIndex));
        let m = choose|m: int| 0 <= m < order.len() && order[m] == j as PieceIndex;
        if m > 0 {
            assert(rarer(peers, order[0], order[m]));
        }
    }
}

/// Whether a peer was last heard from more than `timeout` milliseconds
/// before `now`.
pub open spec fn silent(peer: Peer, now: u64, timeout: u64) -> bool {
    now > peer.last_seen && now - peer.last_seen > timeout
}

/// The requests of all peers that were made more than `timeout`
/// milliseconds before `now`, each with whom it was made to.
pub open spec fn overdue_of(peers: Seq<Peer>, now: u64, timeout: u64) -> Seq<
    (PeerId, PendingRequest),
>
    decreases peers.len(),
{
    if peers.len() == 0 {
        Seq::empty()
    } else {
        let late = peers.last().pending_requests@.filter(
            |r: PendingRequest| crate::peer::peer::overdue(r, now, timeout),
        );
        overdue_of(peers.drop_last(), now, timeout) + Seq::new(
            late.len(),
            |q: int| (peers.last().id, late[q]),
        )
    }
}

/// A number of every peer, summed up.
pub open spec fn sum_of(peers: Seq<Peer>, number: spec_fn(Peer) -> u64) -> nat
    decreases peers.len(),
{
    if peers.len() == 0 {
        0
    } else {
        sum_of(peers.drop_last(), number) + number(peers.last()) as nat
    }
}

/// A sum as far as 64 bits hold it.
pub open spec fn capped(sum: nat) -> u64 {
    if sum > u64::MAX {
        u64::MAX
    } else {
        sum as u64
    }
}

/// The mean of a number of every peer, rounded down; zero of no peers.
pub open spec fn mean_of(peers: Seq<Peer>, number: spec_fn(Peer) -> u64) -> u64 {
    if peers.len() == 0 {
        0
    } else {
        (sum_of(peers, number) / peers.len()) as u64
    }
}

/// Filtering peers leaves no id twice where none was, and leaves only peers
/// that were there.
pub proof fn lemma_filter_distinct(peers: Seq<Peer>, keep: spec_fn(Peer) -> bool)
    requires
        distinct_ids(peers),
    ensures
        distinct_ids(peers.filter(keep)),
        forall|k: int|
            0 <= k < peers.filter(keep).len() ==> peers.contains(#[trigger] peers.filter(keep)[k]),
    decreases peers.len(),
{
    reveal(Seq::filter);
    if peers.len() > 0 {
        let init = peers.drop_last();
        assert forall|a: int, b: int| 0 <= a < b < init.len() implies (#[trigger] init[a]).id@ != (
        #[trigger] init[b]).id@ by {
            assert(init[a] == peers[a] && init[b] == peers[b]);
        }
        lemma_filter_distinct(init, keep);
        let f = peers.filter(keep);
        let g = init.filter(keep);
        assert forall|k: int| 0 <= k < f.len() implies peers.contains(#[trigger] f[k]) by {
            if k < g.len() {
                assert(f[k] == g[k]);
                assert(init.contains(g[k]));
                let m = choose|m: int| 0 <= m < init.len() && init[m] == g[k];
                assert(peers[m] == g[k]);
            } else {
                assert(peers[peers.len() - 1] == f[k]);
            }
        }
        assert forall|a: int, b: int| 0 <= a < b < f.len() implies (#[trigger] f[a]).id@ != (
        #[trigger] f[b]).id@ by {
            assert(f[a] == g[a]);
            assert(init.contains(g[a]));
            let m = choose|m: int| 0 <= m < init.len() && init[m] == g[a];
            if b < g.len() {
                assert(f[b] == g[b]);
            } else {
                assert(f[b] == peers.last());
                assert(peers[m].id@ != peers[peers.len() - 1].id@);
            }
        }
    }
}

/// Whether a round of choking is due at `now`.
pub open spec fn round_due(v: RegistryView, now: u64) -> bool {
    now >= v.last_choke_time && now - v.last_choke_time >= v.choke_interval
}

/// Whether a peer owes us the block of a piece at an offset.
pub open spec fn owes_block(peer: Peer, piece: PieceIndex, offset: BlockOffset) -> bool {
    let at = crate::peer::peer::request_at(peer.pending_requests@, piece);
    at < peer.pending_requests@.len() && peer.pending_requests@[at].offset == offset
}

/// In a registry every peer owes us no more requests than it may, and none
/// for a piece twice.
pub proof fn lemma_pipeline_bound(v: RegistryView, k: int)
    requires
        v.valid(),
        0 <= k < v.peers.len(),
    ensures
        v.peers[k].pending_requests@.len() <= v.peers[k].max_requests,
        crate::peer::peer::no_piece_twice(v.peers[k].pending_requests@),
{
    assert(v.peers[k].wf());
}

/// A peer is found at the same position as long as the peers keep their
/// ids.
pub proof fn lemma_position_stable(before: Seq<Peer>, after: Seq<Peer>, id: Seq<u8>)
    requires
        after.len() == before.len(),
        forall|j: int| 0 <= j < before.len() ==> (#[trigger] after[j]).id == before[j].id,
    ensures
        position_of(after, id) == position_of(before, id),
{
    lemma_position_of(before, id);
    let k = position_of(before, id);
    assert forall|j: int| 0 <= j < k implies (#[trigger] after[j]).id@ != id by {
        assert(before[j].id@ != id);
    }
    lemma_position_is(after, id, k);
}

} // verus!
