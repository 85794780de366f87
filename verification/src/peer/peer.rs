//! One remote peer: its pieces, the four flow bits, its counters and the
//! requests that it owes us.

use crate::common::bitfield::positions;
use crate::common::bitfield::Bitfield;
use crate::common::bits::MAX_PIECES;
use crate::common::types::same_bytes;
use crate::common::types::PeerId;
use crate::common::types::BlockLength;
use crate::common::types::BlockOffset;
use crate::common::types::PieceIndex;
use vstd::prelude::*;
use vstd::std_specs::cmp::PartialEqSpecImpl;

verus! {

/// The number of requests that a peer may owe us unless told otherwise.
pub const DEFAULT_MAX_REQUESTS: usize = 5;

/// Where a connection to a peer stands.
#[derive(Debug, Clone, Copy, PartialEq, Eq, Structural)]
pub enum PeerState {
    Disconnected,
    Connecting,
    Connected,
    Handshaking,
    Ready,
    Closing,
}

/// Whether one side serves the requests of the other.
#[derive(Debug, Clone, Copy, PartialEq, Eq, Structural)]
pub enum ChokingState {
    Choked,
    Unchoked,
}

/// Whether one side wants pieces of the other.
#[derive(Debug, Clone, Copy, PartialEq, Eq, Structural)]
pub enum InterestState {
    NotInterested,
    Interested,
}

/// The address of a peer: an IPv4 or IPv6 address as a number, and a port.
#[derive(Debug, Clone, Copy, PartialEq, Eq, Structural)]
pub enum PeerAddress {
    V4(u32, u16),
    V6(u128, u16),
}

/// A request that a peer owes us: the block asked for, as the piece, the
/// offset in it and the length, and when it was asked for, in milliseconds.
/// A peer is asked for one block of a piece at a time.
#[derive(Debug, Clone, Copy, PartialEq, Eq, Structural)]
pub struct PendingRequest {
    pub piece_index: PieceIndex,
    pub offset: BlockOffset,
    pub length: BlockLength,
    pub requested_at: u64,
}

/// The pieces asked for, in the order of the requests.
pub open spec fn pieces_of(pending: Seq<PendingRequest>) -> Seq<PieceIndex> {
    Seq::new(pending.len(), |k: int| pending[k].piece_index)
}

/// The position of the request for a piece, or the length where there is
/// none.
pub open spec fn request_at(pending: Seq<PendingRequest>, piece: PieceIndex) -> int
    decreases pending.len(),
{
    if pending.len() == 0 {
        0
    } else if pending.first().piece_index == piece {
        0
    } else {
        1 + request_at(pending.drop_first(), piece)
    }
}

/// What `request_at` finds: no request before it is for the piece, and the
/// one at it is, unless it is the length.
pub proof fn lemma_request_at(pending: Seq<PendingRequest>, piece: PieceIndex)
    ensures
        0 <= request_at(pending, piece) <= pending.len(),
        forall|j: int|
            0 <= j < request_at(pending, piece) ==> (#[trigger] pending[j]).piece_index != piece,
        request_at(pending, piece) < pending.len() ==> pending[request_at(
            pending,
            piece,
        )].piece_index == piece,
    decreases pending.len(),
{
    if pending.len() > 0 && pending.first().piece_index != piece {
        let rest = pending.drop_first();
        lemma_request_at(rest, piece);
        assert forall|j: int| 0 <= j < request_at(pending, piece) implies (
        #[trigger] pending[j]).piece_index != piece by {
            if j > 0 {
                assert(pending[j] == rest[j - 1]);
            }
        }
        if request_at(pending, piece) < pending.len() {
            assert(pending[request_at(pending, piece)] == rest[request_at(rest, piece)]);
        }
    }
}

/// A position before which no request is for the piece, and at which one is
/// unless it is the length, is what `request_at` finds.
pub proof fn lemma_request_at_is(pending: Seq<PendingRequest>, piece: PieceIndex, k: int)
    requires
        0 <= k <= pending.len(),
        forall|j: int| 0 <= j < k ==> (#[trigger] pending[j]).piece_index != piece,
        k < pending.len() ==> pending[k].piece_index == piece,
    ensures
        request_at(pending, piece) == k,
{
    lemma_request_at(pending, piece);
    let f = request_at(pending, piece);
    if f < k {
        assert(pending[f].piece_index != piece);
    }
}

/// Whether no piece is asked for twice.
pub open spec fn no_piece_twice(pending: Seq<PendingRequest>) -> bool {
    forall|k: int, l: int|
        0 <= k < l < pending.len() ==> (#[trigger] pending[k]).piece_index != (
        #[trigger] pending[l]).piece_index
}

/// The requests that were made more than `timeout` milliseconds before
/// `now`.
pub open spec fn overdue(r: PendingRequest, now: u64, timeout: u64) -> bool {
    now > r.requested_at && now - r.requested_at > timeout
}

/// The bits of the pieces that `theirs` has and `ours` lacks.
pub open spec fn wanted_bits(theirs: Seq<bool>, ours: Seq<bool>) -> Seq<bool> {
    Seq::new(theirs.len(), |i: int| theirs[i] && !(i < ours.len() && ours[i]))
}

/// A rate after one more second in which `sample` bytes moved: three parts
/// in ten of the sample, seven of the rate before.
pub open spec fn smoothed(rate: u64, sample: u64) -> u64 {
    ((3 * sample + 7 * rate) / 10) as u64
}

/// How a peer has treated us, in thousandths: what it sent us for each byte
/// we sent it, twice as much at most; 1000 while we have sent it nothing.
pub open spec fn reputation_of(uploaded: u64, downloaded: u64) -> u64 {
    if downloaded == 0 {
        1000
    } else if uploaded * 1000 / (downloaded as int) >= 2000 {
        2000
    } else {
        (uploaded * 1000 / (downloaded as int)) as u64
    }
}

/// A remote peer.
#[derive(Debug, Clone)]
pub struct Peer {
    pub id: PeerId,
    pub address: PeerAddress,
    pub state: PeerState,
    /// The pieces that the peer has announced.
    pub bitfield: Bitfield,
    pub am_choking: ChokingState,
    pub peer_choking: ChokingState,
    pub am_interested: InterestState,
    pub peer_interested: InterestState,
    /// Bytes per second received from the peer, smoothed.
    pub download_rate: u64,
    /// Bytes per second sent to the peer, smoothed.
    pub upload_rate: u64,
    /// When the peer was last heard from, in milliseconds.
    pub last_seen: u64,
    /// When the peer was last written to, in milliseconds.
    pub last_sent: u64,
    pub downloaded: u64,
    pub uploaded: u64,
    pub pending_requests: Vec<PendingRequest>,
    pub max_requests: usize,
    pub supports_fast: bool,
    pub supports_extended: bool,
    /// When the peer was added, in milliseconds.
    pub connected_at: u64,
}

impl PartialEq for Peer {
    fn eq(&self, other: &Self) -> (same: bool) {
        same_bytes(self.id.as_slice(), other.id.as_slice())
    }
}

impl PartialEqSpecImpl for Peer {
    open spec fn obeys_eq_spec() -> bool {
        true
    }

    open spec fn eq_spec(&self, other: &Self) -> bool {
        self.id@ == other.id@
    }
}

impl Eq for Peer {

}

impl Peer {
    /// What holds of every peer: it owes us no more requests than it may,
    /// and none for a piece twice.
    pub open spec fn wf(&self) -> bool {
        &&& self.pending_requests@.len() <= self.max_requests
        &&& no_piece_twice(self.pending_requests@)
    }

    /// Whether we may ask this peer for a piece.
    pub open spec fn may_request(&self) -> bool {
        &&& self.state == PeerState::Ready
        &&& self.peer_choking == ChokingState::Unchoked
        &&& self.am_interested == InterestState::Interested
        &&& self.pending_requests@.len() < self.max_requests
    }

    /// Whether we may serve a request of this peer.
    pub open spec fn may_upload(&self) -> bool {
        &&& self.state == PeerState::Ready
        &&& self.am_choking == ChokingState::Unchoked
        &&& self.peer_interested == InterestState::Interested
    }

    /// A peer that is not connected, with no piece known of it, choked and
    /// choking, of no interest and not interested.
    pub fn new(id: PeerId, address: PeerAddress, num_pieces: usize, now: u64) -> (p: Peer)
        requires
            num_pieces <= MAX_PIECES,
        ensures
            p.wf(),
            p.id == id,
            p.address == address,
            p.state == PeerState::Disconnected,
            p.bitfield@ == Seq::new(num_pieces as nat, |i: int| false),
            p.am_choking == ChokingState::Choked,
            p.peer_choking == ChokingState::Choked,
            p.am_interested == InterestState::NotInterested,
            p.peer_interested == InterestState::NotInterested,
            p.download_rate == 0 && p.upload_rate == 0,
            p.last_seen == now && p.last_sent == now && p.connected_at == now,
            p.downloaded == 0 && p.uploaded == 0,
            p.pending_requests@ == Seq::<PendingRequest>::empty(),
            p.max_requests == DEFAULT_MAX_REQUESTS,
            !p.supports_fast && !p.supports_extended,
    {
        Peer {
            id,
            address,
            state: PeerState::Disconnected,
            bitfield: Bitfield::new(num_pieces),
            am_choking: ChokingState::Choked,
            peer_choking: ChokingState::Choked,
            am_interested: InterestState::NotInterested,
            peer_interested: InterestState::NotInterested,
            download_rate: 0,
            upload_rate: 0,
            last_seen: now,
            last_sent: now,
            downloaded: 0,
            uploaded: 0,
            pending_requests: Vec::new(),
            max_requests: DEFAULT_MAX_REQUESTS,
            supports_fast: false,
            supports_extended: false,
            connected_at: now,
        }
    }

    pub fn can_request(&self) -> (ok: bool)
        ensures
            ok == self.may_request(),
    {
        self.state == PeerState::Ready && self.peer_choking == ChokingState::Unchoked
            && self.am_interested == InterestState::Interested && self.pending_requests.len()
            < self.max_requests
    }

    pub fn can_upload(&self) -> (ok: bool)
        ensures
            ok == self.may_upload(),
    {
        self.state == PeerState::Ready && self.am_choking == ChokingState::Unchoked
            && self.peer_interested == InterestState::Interested
    }

    /// The position of the request for a piece, or the number of requests.
    fn find_request(&self, piece_index: PieceIndex) -> (k: usize)
        ensures
            k == request_at(self.pending_requests@, piece_index),
            k <= self.pending_requests@.len(),
    {
        let mut k: usize = 0;
        while k < self.pending_requests.len()
            invariant
                k <= self.pending_requests@.len(),
                forall|j: int|
                    0 <= j < k ==> (#[trigger] self.pending_requests@[j]).piece_index != piece_index,
            decreases self.pending_requests@.len() - k,
        {
            if self.pending_requests[k].piece_index == piece_index {
                proof {
                    lemma_request_at_is(self.pending_requests@, piece_index, k as int);
                }
                return k;
            }
            k += 1;
        }
        proof {
            lemma_request_at_is(self.pending_requests@, piece_index, k as int);
        }
        k
    }

    /// Records a request for a block of a piece made at `now`. A request for
    /// a piece already asked for takes the place of the one before; a new
    /// one is recorded only while the peer owes us fewer requests than it
    /// may. Says whether the request stands recorded.
    pub fn add_request(
        &mut self,
        piece_index: PieceIndex,
        offset: BlockOffset,
        length: BlockLength,
        now: u64,
    ) -> (recorded: bool)
        requires
            old(self).wf(),
        ensures
            final(self).wf(),
            final(self).pending_requests@ == if request_at(old(self).pending_requests@, piece_index)
                < old(self).pending_requests@.len() {
                old(self).pending_requests@.update(
                    request_at(old(self).pending_requests@, piece_index),
                    PendingRequest { piece_index, offset, length, requested_at: now },
                )
            } else if old(self).pending_requests@.len() < old(self).max_requests {
                old(self).pending_requests@.push(PendingRequest { piece_index, offset, length, requested_at: now })
            } else {
                old(self).pending_requests@
            },
            recorded == (request_at(old(self).pending_requests@, piece_index)
                < old(self).pending_requests@.len() || old(self).pending_requests@.len()
                < old(self).max_requests),
            final(self).same_but_requests(old(self)),
    {
        let ghost before = self.pending_requests@;
        proof {
            lemma_request_at(before, piece_index);
        }
        let k = self.find_request(piece_index);
        if k < self.pending_requests.len() {
            self.pending_requests[k] = PendingRequest { piece_index, offset, length, requested_at: now };
            assert forall|a: int, b: int| 0 <= a < b < self.pending_requests@.len() implies (
            #[trigger] self.pending_requests@[a]).piece_index != (
            #[trigger] self.pending_requests@[b]).piece_index by {
                assert(before[a].piece_index != before[b].piece_index);
            }
            true
        } else if self.pending_requests.len() < self.max_requests {
            self.pending_requests.push(PendingRequest { piece_index, offset, length, requested_at: now });
            true
        } else {
            false
        }
    }

    /// Whether this peer is `other` but for the requests it owes us.
    pub open spec fn same_but_requests(&self, other: &Peer) -> bool {
        &&& self.id == other.id
        &&& self.address == other.address
        &&& self.state == other.state
        &&& self.bitfield@ == other.bitfield@
        &&& self.am_choking == other.am_choking
        &&& self.peer_choking == other.peer_choking
        &&& self.am_interested == other.am_interested
        &&& self.peer_interested == other.peer_interested
        &&& self.download_rate == other.download_rate
        &&& self.upload_rate == other.upload_rate
        &&& self.last_seen == other.last_seen
        &&& self.last_sent == other.last_sent
        &&& self.downloaded == other.downloaded
        &&& self.uploaded == other.uploaded
        &&& self.max_requests == other.max_requests
        &&& self.supports_fast == other.supports_fast
        &&& self.supports_extended == other.supports_extended
        &&& self.connected_at == other.connected_at
    }

    /// Forgets the request for a piece, if there is one.
    pub fn remove_request(&mut self, piece_index: PieceIndex)
        requires
            old(self).wf(),
        ensures
            final(self).wf(),
            final(self).pending_requests@ == if request_at(old(self).pending_requests@, piece_index)
                < old(self).pending_requests@.len() {
                old(self).pending_requests@.remove(
                    request_at(old(self).pending_requests@, piece_index),
                )
            } else {
                old(self).pending_requests@
            },
            final(self).same_but_requests(old(self)),
    {
        let ghost before = self.pending_requests@;
        let k = self.find_request(piece_index);
        if k < self.pending_requests.len() {
            self.pending_requests.remove(k);
            assert forall|a: int, b: int| 0 <= a < b < self.pending_requests@.len() implies (
            #[trigger] self.pending_requests@[a]).piece_index != (
            #[trigger] self.pending_requests@[b]).piece_index by {
                let a0 = if a < k {
                    a
                } else {
                    a + 1
                };
                let b0 = if b < k {
                    b
                } else {
                    b + 1
                };
                assert(before[a0].piece_index != before[b0].piece_index);
            }
        }
    }

    pub fn has_request(&self, piece_index: PieceIndex) -> (asked: bool)
        ensures
            asked == (request_at(self.pending_requests@, piece_index)
                < self.pending_requests@.len()),
            asked == pieces_of(self.pending_requests@).contains(piece_index),
    {
        let k = self.find_request(piece_index);
        proof {
            lemma_request_at(self.pending_requests@, piece_index);
            let pieces = pieces_of(self.pending_requests@);
            if k < self.pending_requests@.len() {
                assert(pieces[k as int] == piece_index);
            } else {
                assert forall|j: int| 0 <= j < pieces.len() implies pieces[j] != piece_index by {
                    assert(self.pending_requests@[j].piece_index != piece_index);
                }
            }
        }
        k < self.pending_requests.len()
    }

    /// The request for a block of a piece that the peer owes us, if there
    /// is one.
    pub fn request_for(&self, piece_index: PieceIndex) -> (request: Option<PendingRequest>)
        ensures
            request == if request_at(self.pending_requests@, piece_index)
                < self.pending_requests@.len() {
                Some(self.pending_requests@[request_at(self.pending_requests@, piece_index)])
            } else {
                None
            },
    {
        let k = self.find_request(piece_index);
        if k < self.pending_requests.len() {
            Some(self.pending_requests[k])
        } else {
            None
        }
    }

    pub fn pending_request_count(&self) -> (n: usize)
        ensures
            n == self.pending_requests@.len(),
    {
        self.pending_requests.len()
    }

    /// Forgets every request that the peer owes us, as when it chokes us,
    /// and hands the requests back, in their order.
    pub fn clear_requests(&mut self) -> (requests: Vec<PendingRequest>)
        ensures
            final(self).wf(),
            final(self).pending_requests@ == Seq::<PendingRequest>::empty(),
            requests@ == old(self).pending_requests@,
            final(self).same_but_requests(old(self)),
    {
        let mut requests: Vec<PendingRequest> = Vec::new();
        let mut k: usize = 0;
        while k < self.pending_requests.len()
            invariant
                k <= self.pending_requests@.len(),
                self.pending_requests@ == old(self).pending_requests@,
                self.same_but_requests(old(self)),
                requests@ == self.pending_requests@.take(k as int),
            decreases self.pending_requests@.len() - k,
        {
            requests.push(self.pending_requests[k]);
            assert(requests@ =~= self.pending_requests@.take(k + 1));
            k += 1;
        }
        assert(self.pending_requests@.take(k as int) =~= self.pending_requests@);
        self.pending_requests.clear();
        requests
    }

    /// Forgets the requests made more than `timeout` milliseconds before
    /// `now` and hands them back, in their order.
    pub fn expire_requests(&mut self, now: u64, timeout: u64) -> (late: Vec<PendingRequest>)
        requires
            old(self).wf(),
        ensures
            final(self).wf(),
            final(self).pending_requests@ == old(self).pending_requests@.filter(
                |r: PendingRequest| !overdue(r, now, timeout),
            ),
            late@ == old(self).pending_requests@.filter(
                |r: PendingRequest| overdue(r, now, timeout),
            ),
            final(self).same_but_requests(old(self)),
    {
        let ghost before = self.pending_requests@;
        let ghost is_late = |r: PendingRequest| overdue(r, now, timeout);
        let ghost fresh = |r: PendingRequest| !overdue(r, now, timeout);
        let mut late: Vec<PendingRequest> = Vec::new();
        let mut kept: Vec<PendingRequest> = Vec::new();
        let mut k: usize = 0;
        assert(before.take(0) =~= Seq::<PendingRequest>::empty());
        while k < self.pending_requests.len()
            invariant
                k <= self.pending_requests@.len(),
                self.pending_requests@ == before,
                self.same_but_requests(old(self)),
                self.wf(),
                is_late == |r: PendingRequest| overdue(r, now, timeout),
                fresh == |r: PendingRequest| !overdue(r, now, timeout),
                kept@ == before.take(k as int).filter(fresh),
                late@ == before.take(k as int).filter(is_late),
            decreases self.pending_requests@.len() - k,
        {
            let r = self.pending_requests[k];
            proof {
                assert(before.take(k + 1).drop_last() =~= before.take(k as int));
                assert(before.take(k + 1).last() == r);
                reveal(Seq::filter);
            }
            if now > r.requested_at && now - r.requested_at > timeout {
                late.push(r);
            } else {
                kept.push(r);
            }
            k += 1;
        }
        assert(before.take(k as int) =~= before);
        proof {
            lemma_filter_keeps_distinct(before, fresh);
            before.lemma_filter_len(fresh);
        }
        self.pending_requests = kept;
        late
    }

    /// Counts bytes received from the peer at `now`.
    pub fn update_download_stats(&mut self, bytes: u64, now: u64)
        requires
            old(self).downloaded + bytes <= u64::MAX,
        ensures
            final(self).downloaded == old(self).downloaded + bytes,
            final(self).last_seen == now,
            final(self).same_but_counters(old(self)),
            final(self).uploaded == old(self).uploaded,
            final(self).last_sent == old(self).last_sent,
    {
        self.downloaded = self.downloaded + bytes;
        self.last_seen = now;
    }

    /// Counts bytes sent to the peer at `now`.
    pub fn update_upload_stats(&mut self, bytes: u64, now: u64)
        requires
            old(self).uploaded + bytes <= u64::MAX,
        ensures
            final(self).uploaded == old(self).uploaded + bytes,
            final(self).last_sent == now,
            final(self).same_but_counters(old(self)),
            final(self).downloaded == old(self).downloaded,
            final(self).last_seen == old(self).last_seen,
    {
        self.uploaded = self.uploaded + bytes;
        self.last_sent = now;
    }

    /// Whether this peer is `other` but for where its connection stands.
    pub open spec fn same_but_state(&self, other: &Peer) -> bool {
        &&& self.same_data(other)
        &&& self.pending_requests@ == other.pending_requests@
        &&& self.am_choking == other.am_choking
        &&& self.peer_choking == other.peer_choking
        &&& self.am_interested == other.am_interested
        &&& self.peer_interested == other.peer_interested
    }

    /// Whether this peer is `other` but for the four flow bits and the
    /// requests it owes us.
    pub open spec fn same_but_flow(&self, other: &Peer) -> bool {
        &&& self.same_data(other)
        &&& self.state == other.state
    }

    /// Whether this peer has the identity, the pieces, the counters and the
    /// settings of `other`.
    pub open spec fn same_data(&self, other: &Peer) -> bool {
        &&& self.id == other.id
        &&& self.address == other.address
        &&& self.bitfield@ == other.bitfield@
        &&& self.download_rate == other.download_rate
        &&& self.upload_rate == other.upload_rate
        &&& self.last_seen == other.last_seen
        &&& self.last_sent == other.last_sent
        &&& self.downloaded == other.downloaded
        &&& self.uploaded == other.uploaded
        &&& self.max_requests == other.max_requests
        &&& self.supports_fast == other.supports_fast
        &&& self.supports_extended == other.supports_extended
        &&& self.connected_at == other.connected_at
    }

    /// Whether this peer is `other` but for counters, times and rates.
    pub open spec fn same_but_counters(&self, other: &Peer) -> bool {
        &&& self.id == other.id
        &&& self.address == other.address
        &&& self.state == other.state
        &&& self.bitfield@ == other.bitfield@
        &&& self.am_choking == other.am_choking
        &&& self.peer_choking == other.peer_choking
        &&& self.am_interested == other.am_interested
        &&& self.peer_interested == other.peer_interested
        &&& self.pending_requests@ == other.pending_requests@
        &&& self.max_requests == other.max_requests
        &&& self.supports_fast == other.supports_fast
        &&& self.supports_extended == other.supports_extended
        &&& self.connected_at == other.connected_at
    }

    /// Moves the rates on by one second in which the given numbers of bytes
    /// were received and sent.
    pub fn update_rates(&mut self, received: u64, sent: u64)
        ensures
            final(self).download_rate == smoothed(old(self).download_rate, received),
            final(self).upload_rate == smoothed(old(self).upload_rate, sent),
            final(self).same_but_counters(old(self)),
            final(self).downloaded == old(self).downloaded,
            final(self).uploaded == old(self).uploaded,
            final(self).last_seen == old(self).last_seen,
            final(self).last_sent == old(self).last_sent,
    {
        self.download_rate = ((3 * (received as u128) + 7 * (self.download_rate as u128))
            / 10) as u64;
        self.upload_rate = ((3 * (sent as u128) + 7 * (self.upload_rate as u128)) / 10) as u64;
    }

    /// Replaces what is known of the peer's pieces.
    pub fn set_bitfield(&mut self, bitfield: Bitfield)
        ensures
            final(self).bitfield@ == bitfield@,
            final(self).same_but_bitfield(old(self)),
    {
        self.bitfield = bitfield;
    }

    /// Whether this peer is `other` but for the pieces known of it and our
    /// interest in it.
    pub open spec fn same_but_bitfield(&self, other: &Peer) -> bool {
        &&& self.id == other.id
        &&& self.address == other.address
        &&& self.state == other.state
        &&& self.am_choking == other.am_choking
        &&& self.peer_choking == other.peer_choking
        &&& self.peer_interested == other.peer_interested
        &&& self.download_rate == other.download_rate
        &&& self.upload_rate == other.upload_rate
        &&& self.last_seen == other.last_seen
        &&& self.last_sent == other.last_sent
        &&& self.downloaded == other.downloaded
        &&& self.uploaded == other.uploaded
        &&& self.pending_requests@ == other.pending_requests@
        &&& self.max_requests == other.max_requests
        &&& self.supports_fast == other.supports_fast
        &&& self.supports_extended == other.supports_extended
        &&& self.connected_at == other.connected_at
    }

    /// Records that the peer has a piece; an index past the end changes
    /// nothing.
    pub fn has_piece(&mut self, piece_index: PieceIndex)
        ensures
            final(self).bitfield@ == if piece_index < old(self).bitfield@.len() {
                old(self).bitfield@.update(piece_index as int, true)
            } else {
                old(self).bitfield@
            },
            final(self).same_but_bitfield(old(self)),
            final(self).am_interested == old(self).am_interested,
    {
        self.bitfield.set_piece(piece_index);
    }

    pub fn peer_has_piece(&self, piece_index: PieceIndex) -> (present: bool)
        ensures
            present == (piece_index < self.bitfield@.len() && self.bitfield@[piece_index as int]),
    {
        self.bitfield.has_piece(piece_index)
    }

    /// The pieces that the peer has and we lack, ascending.
    pub fn interesting_pieces(&self, our_bitfield: &Bitfield) -> (interesting: Vec<PieceIndex>)
        ensures
            interesting@ == positions(wanted_bits(self.bitfield@, our_bitfield@), true),
    {
        let mut interesting: Vec<PieceIndex> = Vec::new();
        let n = self.bitfield.total_pieces();
        let ghost wanted = wanted_bits(self.bitfield@, our_bitfield@);
        let mut i: usize = 0;
        assert(wanted.take(0) =~= Seq::<bool>::empty());
        while i < n
            invariant
                i <= n,
                n == self.bitfield@.len(),
                n <= MAX_PIECES,
                wanted == wanted_bits(self.bitfield@, our_bitfield@),
                interesting@ == positions(wanted.take(i as int), true),
            decreases n - i,
        {
            assert(wanted.take(i + 1).drop_last() =~= wanted.take(i as int));
            if self.peer_has_piece(i as PieceIndex) && !our_bitfield.has_piece(i as PieceIndex) {
                interesting.push(i as PieceIndex);
            }
            i += 1;
        }
        assert(wanted.take(n as int) =~= wanted);
        interesting
    }

    /// Whether the peer has a piece that we lack.
    pub open spec fn worth_asking(&self, ours: Seq<bool>) -> bool {
        exists|i: int| 0 <= i < self.bitfield@.len() && #[trigger] wanted_bits(self.bitfield@, ours)[i]
    }

    /// Sets our interest in the peer: interested exactly if it has a piece
    /// that we lack.
    pub fn update_interest(&mut self, our_bitfield: &Bitfield)
        ensures
            final(self).am_interested == if old(self).worth_asking(our_bitfield@) {
                InterestState::Interested
            } else {
                InterestState::NotInterested
            },
            final(self).same_but_bitfield(old(self)),
            final(self).bitfield@ == old(self).bitfield@,
    {
        let interesting = self.interesting_pieces(our_bitfield);
        let n = self.bitfield.total_pieces();
        proof {
            let wanted = wanted_bits(self.bitfield@, our_bitfield@);
            crate::common::bitfield::lemma_positions(wanted, true);
            if interesting@.len() > 0 {
                let i = interesting@[0] as int;
                assert(wanted[i]);
            } else {
                assert forall|i: int| 0 <= i < wanted.len() implies !#[trigger] wanted[i] by {
                    if wanted[i] {
                        assert(positions(wanted, true).contains(i as PieceIndex));
                    }
                }
            }
        }
        self.am_interested = if interesting.len() == 0 {
            InterestState::NotInterested
        } else {
            InterestState::Interested
        };
    }

    /// Whether the peer has every piece.
    pub fn is_seeder(&self) -> (seeder: bool)
        ensures
            seeder == (forall|i: int| 0 <= i < self.bitfield@.len() ==> self.bitfield@[i]),
    {
        self.bitfield.is_complete()
    }

    /// Whether the peer was last heard from more than `timeout` milliseconds
    /// before `now`.
    pub fn is_stale(&self, now: u64, timeout: u64) -> (stale: bool)
        ensures
            stale == (now > self.last_seen && now - self.last_seen > timeout),
    {
        now > self.last_seen && now - self.last_seen > timeout
    }

    /// How the peer has treated us, in thousandths.
    pub fn reputation_permille(&self) -> (score: u64)
        ensures
            score == reputation_of(self.uploaded, self.downloaded),
            score <= 2000,
    {
        if self.downloaded == 0 {
            return 1000;
        }
        let ratio: u128 = (self.uploaded as u128 * 1000) / (self.downloaded as u128);
        if ratio >= 2000 {
            2000
        } else {
            ratio as u64
        }
    }
}

/// Filtering requests leaves no piece asked for twice where none was.
pub proof fn lemma_filter_keeps_distinct(
    pending: Seq<PendingRequest>,
    keep: spec_fn(PendingRequest) -> bool,
)
    requires
        no_piece_twice(pending),
    ensures
        no_piece_twice(pending.filter(keep)),
        forall|k: int|
            0 <= k < pending.filter(keep).len() ==> pending.contains(
                #[trigger] pending.filter(keep)[k],
            ),
    decreases pending.len(),
{
    reveal(Seq::filter);
    if pending.len() > 0 {
        let init = pending.drop_last();
        assert forall|a: int, b: int| 0 <= a < b < init.len() implies (#[trigger] init[a]).piece_index
            != (#[trigger] init[b]).piece_index by {
            assert(init[a] == pending[a] && init[b] == pending[b]);
        }
        lemma_filter_keeps_distinct(init, keep);
        let f = pending.filter(keep);
        let g = init.filter(keep);
        assert forall|k: int| 0 <= k < f.len() implies pending.contains(#[trigger] f[k]) by {
            if k < g.len() {
                assert(f[k] == g[k]);
                assert(init.contains(g[k]));
                let m = choose|m: int| 0 <= m < init.len() && init[m] == g[k];
                assert(pending[m] == g[k]);
            } else {
                assert(f[k] == pending.last());
                assert(pending[pending.len() - 1] == f[k]);
            }
        }
        assert forall|a: int, b: int| 0 <= a < b < f.len() implies (#[trigger] f[a]).piece_index != (
        #[trigger] f[b]).piece_index by {
            assert(f[a] == g[a]);
            assert(init.contains(g[a]));
            let m = choose|m: int| 0 <= m < init.len() && init[m] == g[a];
            if b < g.len() {
                assert(f[b] == g[b]);
            } else {
                assert(f[b] == pending.last());
                assert(pending[m].piece_index != pending[pending.len() - 1].piece_index);
            }
        }
    }
}

} // verus!
