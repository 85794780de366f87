//! What to ask of whom: the rarest piece first, a block at a time, no block
//! of two peers at once until the end is near.

use crate::common::bits::count_true;
use crate::common::bits::MAX_PIECES;
use crate::common::types::BlockLength;
use crate::common::types::BlockOffset;
use crate::common::types::PeerId;
use crate::common::types::PieceIndex;
use crate::common::types::TorrentInfo;
use crate::peer::manager::changed_at;
use crate::peer::manager::position_of;
use crate::peer::manager::rarer;
use crate::peer::manager::PeerManager;
use crate::peer::manager::RegistryView;
use crate::peer::peer::request_at;
use crate::peer::peer::ChokingState;
use crate::peer::peer::Peer;
use crate::peer::peer::PendingRequest;
use crate::peer::ranking::is_ranking;
use crate::peer::ranking::rank;
use crate::peer::ranking::RankEntry;
use crate::protocol::MAX_BLOCK_LENGTH;
use vstd::prelude::*;

verus! {

/// The settings of the scheduler; the timeout is in milliseconds.
#[derive(Debug, Clone, Copy, PartialEq, Eq, Structural)]
pub struct SchedulerConfig {
    /// With this many pieces missing or fewer, a block may be asked of
    /// several peers at once.
    pub endgame_threshold: usize,
    /// This many pieces are picked at random before any has been completed.
    pub random_first: usize,
    /// The length of every block but the last of a piece.
    pub block_size: u32,
    /// After this time a request is given up.
    pub request_timeout: u64,
}

impl Default for SchedulerConfig {
    fn default() -> (c: SchedulerConfig)
        ensures
            c == (SchedulerConfig {
                endgame_threshold: 5,
                random_first: 4,
                block_size: MAX_BLOCK_LENGTH,
                request_timeout: 60_000,
            }),
    {
        SchedulerConfig {
            endgame_threshold: 5,
            random_first: 4,
            block_size: MAX_BLOCK_LENGTH,
            request_timeout: 60_000,
        }
    }
}

/// A block: a run of bytes of a piece.
#[derive(Debug, Clone, Copy, PartialEq, Eq, Structural)]
pub struct BlockRequest {
    pub piece_index: PieceIndex,
    pub offset: BlockOffset,
    pub length: BlockLength,
}

/// A request to send: the block, and the peer to ask for it.
#[derive(Debug, Clone, Copy)]
pub struct RequestCommand {
    pub peer_id: PeerId,
    pub block: BlockRequest,
}

/// What became of a block that arrived.
#[derive(Debug)]
pub enum BlockOutcome {
    /// The block was not owed as it came.
    Ignored,
    /// The block was taken; its piece is not whole yet.
    Stored,
    /// The block was taken and made its piece whole: here are the bytes of
    /// the piece.
    PieceReady { piece_index: PieceIndex, data: Vec<u8> },
}

/// What became of a block that arrived, and the requests to call off: the
/// same block, as it was asked of other peers.
#[derive(Debug)]
pub struct BlockReport {
    pub outcome: BlockOutcome,
    pub cancels: Vec<RequestCommand>,
}

/// The block that a request was for.
pub open spec fn block_of_request(r: PendingRequest) -> BlockRequest {
    BlockRequest { piece_index: r.piece_index, offset: r.offset, length: r.length }
}

/// The blocks that requests were for, in the order of the requests.
pub open spec fn blocks_of(requests: Seq<PendingRequest>) -> Seq<BlockRequest> {
    Seq::new(requests.len(), |q: int| block_of_request(requests[q]))
}

/// A piece of which some blocks have arrived.
pub struct Assembly {
    pub piece_index: PieceIndex,
    pub data: Seq<u8>,
    pub received: Seq<bool>,
}

/// A piece of which some blocks have arrived: the bytes so far, and which
/// blocks they are.
#[derive(Debug)]
pub struct PieceAssembly {
    pub piece_index: PieceIndex,
    pub data: Vec<u8>,
    pub received: Vec<bool>,
}

impl View for PieceAssembly {
    type V = Assembly;

    open spec fn view(&self) -> Assembly {
        Assembly { piece_index: self.piece_index, data: self.data@, received: self.received@ }
    }
}

/// What the scheduler is: the shape of the torrent, its settings, the
/// pieces in the making, the blocks that wait to be asked for again, and how
/// far the download has come.
pub struct SchedulerView {
    pub config: SchedulerConfig,
    pub piece_length: u32,
    pub total_size: u64,
    pub num_pieces: nat,
    pub assemblies: Seq<Assembly>,
    pub requeued: Seq<BlockRequest>,
    pub completed: nat,
    pub picks: nat,
}

/// The position of the piece in the making with an index, or the length
/// where there is none.
pub open spec fn assembly_of(assemblies: Seq<Assembly>, piece: PieceIndex) -> int
    decreases assemblies.len(),
{
    if assemblies.len() == 0 {
        0
    } else if assemblies.first().piece_index == piece {
        0
    } else {
        1 + assembly_of(assemblies.drop_first(), piece)
    }
}

/// What `assembly_of` finds.
pub proof fn lemma_assembly_of(assemblies: Seq<Assembly>, piece: PieceIndex)
    ensures
        0 <= assembly_of(assemblies, piece) <= assemblies.len(),
        forall|j: int|
            0 <= j < assembly_of(assemblies, piece) ==> (#[trigger] assemblies[j]).piece_index
                != piece,
        assembly_of(assemblies, piece) < assemblies.len() ==> assemblies[assembly_of(
            assemblies,
            piece,
        )].piece_index == piece,
    decreases assemblies.len(),
{
    if assemblies.len() > 0 && assemblies.first().piece_index != piece {
        let rest = assemblies.drop_first();
        lemma_assembly_of(rest, piece);
        assert forall|j: int| 0 <= j < assembly_of(assemblies, piece) implies (
        #[trigger] assemblies[j]).piece_index != piece by {
            if j > 0 {
                assert(assemblies[j] == rest[j - 1]);
            }
        }
        if assembly_of(assemblies, piece) < assemblies.len() {
            assert(assemblies[assembly_of(assemblies, piece)] == rest[assembly_of(rest, piece)]);
        }
    }
}

/// A position before which no piece in the making has the index, and at
/// which one has unless it is the length, is what `assembly_of` finds.
pub proof fn lemma_assembly_is(assemblies: Seq<Assembly>, piece: PieceIndex, k: int)
    requires
        0 <= k <= assemblies.len(),
        forall|j: int| 0 <= j < k ==> (#[trigger] assemblies[j]).piece_index != piece,
        k < assemblies.len() ==> assemblies[k].piece_index == piece,
    ensures
        assembly_of(assemblies, piece) == k,
{
    lemma_assembly_of(assemblies, piece);
    let f = assembly_of(assemblies, piece);
    if f < k {
        assert(assemblies[f].piece_index != piece);
    }
}

impl SchedulerView {
    /// The size of a piece: the piece length, but for the last piece what
    /// is left.
    pub open spec fn piece_size(self, piece: int) -> int {
        if piece + 1 < self.num_pieces {
            self.piece_length as int
        } else {
            self.total_size - piece * self.piece_length
        }
    }

    /// The number of blocks of a piece.
    pub open spec fn blocks_in(self, piece: int) -> int {
        (self.piece_size(piece) + self.config.block_size - 1) / (self.config.block_size as int)
    }

    /// The length of a block of a piece: the block size, but for the last
    /// block what is left.
    pub open spec fn block_length(self, piece: int, block: int) -> int {
        if (block + 1) * self.config.block_size <= self.piece_size(piece) {
            self.config.block_size as int
        } else {
            self.piece_size(piece) - block * self.config.block_size
        }
    }

    /// Whether a block of a piece has arrived.
    pub open spec fn has_block(self, piece: PieceIndex, block: int) -> bool {
        let a = assembly_of(self.assemblies, piece);
        a < self.assemblies.len() && 0 <= block < self.assemblies[a].received.len()
            && self.assemblies[a].received[block]
    }

    /// What holds of every scheduler: the torrent has pieces of a length
    /// above zero that make up its size, blocks have a length above zero and
    /// fit a request, no piece is in the making twice, and each piece in the
    /// making has the bytes and the blocks of its size, not all of which
    /// have arrived.
    pub open spec fn valid(self) -> bool {
        &&& self.piece_length > 0
        &&& 0 < self.config.block_size <= MAX_BLOCK_LENGTH
        &&& self.num_pieces <= MAX_PIECES
        &&& self.num_pieces == (self.total_size + self.piece_length - 1) / (self.piece_length as int)
        &&& forall|a: int, b: int|
            0 <= a < b < self.assemblies.len() ==> (#[trigger] self.assemblies[a]).piece_index != (
            #[trigger] self.assemblies[b]).piece_index
        &&& forall|a: int|
            0 <= a < self.assemblies.len() ==> {
                let m = #[trigger] self.assemblies[a];
                &&& m.piece_index < self.num_pieces
                &&& m.data.len() == self.piece_size(m.piece_index as int)
                &&& m.received.len() == self.blocks_in(m.piece_index as int)
                &&& count_true(m.received) < m.received.len()
            }
    }

    /// Whether the end is near: so few pieces are missing that a block may
    /// be asked of several peers at once.
    pub open spec fn endgame(self, ours: Seq<bool>) -> bool {
        ours.len() - count_true(ours) <= self.config.endgame_threshold
    }

    /// Whether pieces are still picked at random.
    pub open spec fn random_phase(self) -> bool {
        self.completed == 0 && self.picks < self.config.random_first
    }
}

/// Whether a block of a piece, given by its offset, has been asked of a
/// peer and not arrived.
pub open spec fn in_flight(peers: Seq<Peer>, piece: PieceIndex, offset: int) -> bool {
    exists|k: int, q: int|
        0 <= k < peers.len() && 0 <= q < peers[k].pending_requests@.len() && (
        #[trigger] peers[k].pending_requests@[q]).piece_index == piece
            && peers[k].pending_requests@[q].offset == offset
}

/// Whether a block of a piece is open: it has not arrived and, unless the
/// end is near, has been asked of no peer.
pub open spec fn open_block(v: RegistryView, s: SchedulerView, piece: PieceIndex, block: int) -> bool {
    &&& 0 <= block < s.blocks_in(piece as int)
    &&& !s.has_block(piece, block)
    &&& s.endgame(v.ours) || !in_flight(v.peers, piece, block * s.config.block_size)
}

/// Whether a peer can be asked for a piece: it may be asked, has announced
/// the piece, and owes us no block of it.
pub open spec fn can_serve(p: Peer, piece: PieceIndex) -> bool {
    &&& p.may_request()
    &&& piece < p.bitfield@.len() && p.bitfield@[piece as int]
    &&& request_at(p.pending_requests@, piece) >= p.pending_requests@.len()
}

/// Whether a piece can be asked for: we lack it, a block of it is open, and
/// a peer can be asked for it.
pub open spec fn eligible(v: RegistryView, s: SchedulerView, piece: PieceIndex) -> bool {
    &&& piece < v.ours.len() && piece < s.num_pieces
    &&& !v.ours[piece as int]
    &&& exists|block: int| open_block(v, s, piece, block)
    &&& exists|k: int| 0 <= k < v.peers.len() && can_serve(#[trigger] v.peers[k], piece)
}

/// What a peer is ranked by when a piece is asked for: how it has treated
/// us and how fast it sends, then how fast it sends alone.
pub open spec fn request_entry(p: Peer, piece: PieceIndex) -> RankEntry {
    RankEntry {
        eligible: can_serve(p, piece),
        primary: (crate::peer::peer::reputation_of(p.uploaded, p.downloaded) + p.download_rate) as u128,
        secondary: p.download_rate,
        id: p.id,
    }
}

/// What the peers of a registry are ranked by when a piece is asked for.
pub open spec fn request_entries(peers: Seq<Peer>, piece: PieceIndex) -> Seq<RankEntry> {
    Seq::new(peers.len(), |k: int| request_entry(peers[k], piece))
}

/// The scheduler of one torrent.
#[derive(Debug)]
pub struct PieceScheduler {
    config: SchedulerConfig,
    piece_length: u32,
    total_size: u64,
    num_pieces: usize,
    assemblies: Vec<PieceAssembly>,
    requeued: Vec<BlockRequest>,
    completed: usize,
    picks: usize,
}

impl View for PieceScheduler {
    type V = SchedulerView;

    closed spec fn view(&self) -> SchedulerView {
        SchedulerView {
            config: self.config,
            piece_length: self.piece_length,
            total_size: self.total_size,
            num_pieces: self.num_pieces as nat,
            assemblies: Seq::new(self.assemblies@.len(), |a: int| self.assemblies@[a]@),
            requeued: self.requeued@,
            completed: self.completed as nat,
            picks: self.picks as nat,
        }
    }
}

impl PieceScheduler {
    /// What every scheduler fulfils.
    pub open spec fn wf(&self) -> bool {
        self@.valid()
    }

    /// A scheduler for a valid descriptor, with nothing in the making. A
    /// block size of zero or above the largest block is replaced by the
    /// largest block.
    pub fn new(info: &TorrentInfo, config: SchedulerConfig) -> (s: PieceScheduler)
        requires
            info.valid(),
        ensures
            s.wf(),
            s@ == (SchedulerView {
                config: SchedulerConfig {
                    block_size: if 0 < config.block_size <= MAX_BLOCK_LENGTH {
                        config.block_size
                    } else {
                        MAX_BLOCK_LENGTH
                    },
                    ..config
                },
                piece_length: info.piece_length,
                total_size: info.spec_total_size() as u64,
                num_pieces: info.pieces@.len(),
                assemblies: Seq::empty(),
                requeued: Seq::empty(),
                completed: 0,
                picks: 0,
            }),
    {
        let block_size = if 0 < config.block_size && config.block_size <= MAX_BLOCK_LENGTH {
            config.block_size
        } else {
            MAX_BLOCK_LENGTH
        };
        let s = PieceScheduler {
            config: SchedulerConfig {
                endgame_threshold: config.endgame_threshold,
                random_first: config.random_first,
                block_size,
                request_timeout: config.request_timeout,
            },
            piece_length: info.piece_length,
            total_size: info.total_size(),
            num_pieces: info.num_pieces(),
            assemblies: Vec::new(),
            requeued: Vec::new(),
            completed: 0,
            picks: 0,
        };
        assert(s@.assemblies =~= Seq::<Assembly>::empty());
        s
    }

    /// The settings in force.
    pub fn config(&self) -> (c: SchedulerConfig)
        ensures
            c == self@.config,
    {
        self.config
    }

    /// The blocks that wait to be asked for again, oldest first.
    pub fn requeued(&self) -> (blocks: &Vec<BlockRequest>)
        ensures
            blocks@ == self@.requeued,
    {
        &self.requeued
    }

    /// The number of pieces completed.
    pub fn completed(&self) -> (n: usize)
        ensures
            n == self@.completed,
    {
        self.completed
    }

    /// Takes note that a peer chokes us: the registry forgets the requests
    /// that the peer owed us, and their blocks wait to be asked for again.
    /// Handed back is how many there were.
    pub fn peer_choked(&mut self, registry: &mut PeerManager, peer_id: &PeerId) -> (count: usize)
        requires
            old(self).wf(),
            old(registry).wf(),
        ensures
            final(self).wf(),
            final(registry).wf(),
            final(self)@ == (SchedulerView {
                requeued: old(self)@.requeued + blocks_of(
                    if position_of(old(registry)@.peers, peer_id@) < old(registry)@.peers.len() {
                        old(registry)@.peers[position_of(
                            old(registry)@.peers,
                            peer_id@,
                        )].pending_requests@
                    } else {
                        Seq::empty()
                    },
                ),
                ..old(self)@
            }),
            position_of(old(registry)@.peers, peer_id@) >= old(registry)@.peers.len()
                ==> final(registry)@ == old(registry)@ && count == 0,
            position_of(old(registry)@.peers, peer_id@) < old(registry)@.peers.len() ==> {
                let k = position_of(old(registry)@.peers, peer_id@);
                &&& changed_at(old(registry)@, final(registry)@, k)
                &&& count == old(registry)@.peers[k].pending_requests@.len()
                &&& final(registry)@.peers[k].pending_requests@ == Seq::<PendingRequest>::empty()
                &&& final(registry)@.peers[k].peer_choking == ChokingState::Choked
                &&& final(registry)@.peers[k].same_but_flow(&old(registry)@.peers[k])
                &&& final(registry)@.peers[k].am_choking == old(registry)@.peers[k].am_choking
                &&& final(registry)@.peers[k].am_interested == old(registry)@.peers[k].am_interested
                &&& final(registry)@.peers[k].peer_interested
                    == old(registry)@.peers[k].peer_interested
            },
    {
        let requests = registry.remote_choked(peer_id);
        self.requeue(&requests);
        requests.len()
    }

    /// Puts the blocks of requests that were given up behind those that
    /// wait to be asked for again.
    fn requeue(&mut self, requests: &Vec<PendingRequest>)
        requires
            old(self).wf(),
        ensures
            final(self).wf(),
            final(self)@ == (SchedulerView {
                requeued: old(self)@.requeued + blocks_of(requests@),
                ..old(self)@
            }),
    {
        let ghost before = self@;
        let mut q: usize = 0;
        while q < requests.len()
            invariant
                q <= requests@.len(),
                self@ == (SchedulerView {
                    requeued: before.requeued + blocks_of(requests@.take(q as int)),
                    ..before
                }),
            decreases requests@.len() - q,
        {
            let r = requests[q];
            self.requeued.push(
                BlockRequest { piece_index: r.piece_index, offset: r.offset, length: r.length },
            );
            proof {
                assert(before.requeued + blocks_of(requests@.take(q + 1)) =~= (before.requeued
                    + blocks_of(requests@.take(q as int))).push(block_of_request(r)));
                assert(self@.assemblies =~= before.assemblies);
            }
            q += 1;
        }
        assert(requests@.take(q as int) =~= requests@);
    }

    /// Gives up the requests made longer ago than the request timeout
    /// allows: the registry forgets them, and their blocks wait to be asked
    /// for again. Handed back is whom they were made to and what they were.
    pub fn expire(&mut self, registry: &mut PeerManager, now: u64) -> (expired: Vec<
        (PeerId, PendingRequest),
    >)
        requires
            old(self).wf(),
            old(registry).wf(),
        ensures
            final(self).wf(),
            final(registry).wf(),
            expired@ == crate::peer::manager::overdue_of(
                old(registry)@.peers,
                now,
                old(self)@.config.request_timeout,
            ),
            final(self)@ == (SchedulerView {
                requeued: old(self)@.requeued + Seq::new(
                    expired@.len(),
                    |q: int| block_of_request(expired@[q].1),
                ),
                ..old(self)@
            }),
            final(registry)@ == (RegistryView { peers: final(registry)@.peers, ..old(registry)@ }),
            final(registry)@.peers.len() == old(registry)@.peers.len(),
            forall|k: int|
                0 <= k < old(registry)@.peers.len() ==> (
                #[trigger] final(registry)@.peers[k]).same_but_requests(&old(registry)@.peers[k])
                    && final(registry)@.peers[k].pending_requests@
                    == old(registry)@.peers[k].pending_requests@.filter(
                    |r: PendingRequest|
                        !crate::peer::peer::overdue(r, now, old(self)@.config.request_timeout),
                ),
    {
        let ghost before = self@;
        let expired = registry.expire_requests(now, self.config.request_timeout);
        let mut q: usize = 0;
        while q < expired.len()
            invariant
                q <= expired@.len(),
                self@ == (SchedulerView {
                    requeued: before.requeued + Seq::new(
                        q as nat,
                        |j: int| block_of_request(expired@[j].1),
                    ),
                    ..before
                }),
            decreases expired@.len() - q,
        {
            let r = expired[q].1;
            self.requeued.push(
                BlockRequest { piece_index: r.piece_index, offset: r.offset, length: r.length },
            );
            proof {
                assert(before.requeued + Seq::new(
                    (q + 1) as nat,
                    |j: int| block_of_request(expired@[j].1),
                ) =~= (before.requeued + Seq::new(
                    q as nat,
                    |j: int| block_of_request(expired@[j].1),
                )).push(block_of_request(r)));
                assert(self@.assemblies =~= before.assemblies);
            }
            q += 1;
        }
        expired
    }

    /// The size of a piece.
    pub fn piece_size_of(&self, piece_index: PieceIndex) -> (size: u32)
        requires
            self.wf(),
            piece_index < self@.num_pieces,
        ensures
            size == self@.piece_size(piece_index as int),
            0 < size <= self@.piece_length,
            piece_index * self@.piece_length + size <= self@.total_size,
    {
        proof {
            let n = self@.num_pieces as int;
            let t = self@.total_size as int;
            let l = self@.piece_length as int;
            let i = piece_index as int;
            assert((n - 1) * l < t && t <= n * l) by (nonlinear_arith)
                requires
                    l > 0,
                    t >= 0,
                    n >= 1,
                    n == (t + l - 1) / l,
            ;
            assert(i * l >= 0) by (nonlinear_arith)
                requires
                    i >= 0,
                    l > 0,
            ;
            if i + 1 < n {
                assert(i * l + l <= (n - 1) * l) by (nonlinear_arith)
                    requires
                        i + 1 <= n - 1,
                        l > 0,
                ;
            } else {
                assert(i * l == (n - 1) * l) by (nonlinear_arith)
                    requires
                        i == n - 1,
                ;
                assert(n * l == (n - 1) * l + l) by (nonlinear_arith);
            }
        }
        if (piece_index as u64) + 1 < self.num_pieces as u64 {
            self.piece_length
        } else {
            (self.total_size - (piece_index as u64) * (self.piece_length as u64)) as u32
        }
    }

    /// The number of blocks of a piece.
    pub fn block_count(&self, piece_index: PieceIndex) -> (count: u32)
        requires
            self.wf(),
            piece_index < self@.num_pieces,
        ensures
            count == self@.blocks_in(piece_index as int),
            count > 0,
            (count - 1) * self@.config.block_size < self@.piece_size(piece_index as int) <= count
                * self@.config.block_size,
    {
        let size = self.piece_size_of(piece_index) as u64;
        let block_size = self.config.block_size as u64;
        let count = (size + block_size - 1) / block_size;
        assert((count - 1) * block_size < size <= count * block_size && count > 0 && count <= size)
            by (nonlinear_arith)
            requires
                size > 0,
                block_size > 0,
                count == (size + block_size - 1) / (block_size as int),
        ;
        count as u32
    }

    /// Whether a block of a piece has arrived.
    pub fn block_arrived(&self, piece_index: PieceIndex, block: u32) -> (arrived: bool)
        ensures
            arrived == self@.has_block(piece_index, block as int),
    {
        let mut a: usize = 0;
        while a < self.assemblies.len()
            invariant
                a <= self.assemblies@.len(),
                self@.assemblies.len() == self.assemblies@.len(),
                forall|j: int| 0 <= j < a ==> (#[trigger] self@.assemblies[j]).piece_index != piece_index,
            decreases self.assemblies@.len() - a,
        {
            if self.assemblies[a].piece_index == piece_index {
                proof {
                    lemma_assembly_is(self@.assemblies, piece_index, a as int);
                }
                let assembly = &self.assemblies[a];
                return (block as usize) < assembly.received.len() && assembly.received[block as usize];
            }
            a += 1;
        }
        proof {
            lemma_assembly_is(self@.assemblies, piece_index, a as int);
        }
        false
    }

    /// Whether the end is near.
    pub fn in_endgame(&self, registry: &PeerManager) -> (near: bool)
        ensures
            near == self@.endgame(registry@.ours),
    {
        let ours = registry.our_bitfield();
        ours.total_pieces() - ours.count_pieces() <= self.config.endgame_threshold
    }

    /// The first open block of a piece, if it has one.
    pub fn first_open_block(&self, registry: &PeerManager, piece_index: PieceIndex) -> (found: Option<
        BlockRequest,
    >)
        requires
            self.wf(),
            registry.wf(),
            piece_index < self@.num_pieces,
        ensures
            match found {
                Some(b) => is_first_open(registry@, self@, b),
                None => forall|block: int| !open_block(registry@, self@, piece_index, block),
            },
            found matches Some(b) ==> b.piece_index == piece_index,
    {
        let count = self.block_count(piece_index);
        let size = self.piece_size_of(piece_index);
        let block_size = self.config.block_size;
        let near = self.in_endgame(registry);
        let mut block: u32 = 0;
        while block < count
            invariant
                block <= count,
                self.wf(),
                registry.wf(),
                piece_index < self@.num_pieces,
                count == self@.blocks_in(piece_index as int),
                size == self@.piece_size(piece_index as int),
                block_size == self@.config.block_size,
                near == self@.endgame(registry@.ours),
                (count - 1) * block_size < size <= count * block_size,
                forall|j: int| 0 <= j < block ==> !open_block(registry@, self@, piece_index, j),
            decreases count - block,
        {
            assert(block * block_size <= (count - 1) * block_size) by (nonlinear_arith)
                requires
                    block <= count - 1,
                    block_size > 0,
            ;
            let offset: u32 = block * block_size;
            if !self.block_arrived(piece_index, block) && (near || !block_in_flight(
                registry,
                piece_index,
                offset,
            )) {
                let length: u32 = if size - offset < block_size {
                    size - offset
                } else {
                    block_size
                };
                let found = BlockRequest { piece_index, offset, length };
                proof {
                    assert((block + 1) * block_size == block * block_size + block_size)
                        by (nonlinear_arith);
                    assert(open_block(registry@, self@, piece_index, block as int));
                    assert(length == self@.block_length(piece_index as int, block as int));
                    assert(first_open_at(registry@, self@, found, block as int));
                }
                return Some(found);
            }
            block += 1;
        }
        None
    }

    /// The position of the peer to ask for a piece: of those that can be
    /// asked, the one ranked first.
    pub fn best_peer(registry: &PeerManager, piece_index: PieceIndex) -> (found: Option<usize>)
        requires
            registry.wf(),
        ensures
            match found {
                Some(k) => is_best_peer(registry@.peers, piece_index, k as int),
                None => forall|j: int|
                    0 <= j < registry@.peers.len() ==> !can_serve(
                        #[trigger] registry@.peers[j],
                        piece_index,
                    ),
            },
    {
        let peers = registry.peers();
        let n = peers.len();
        let mut best: usize = n;
        let mut best_entry = RankEntry { eligible: false, primary: 0, secondary: 0, id: [0u8; 20] };
        let mut k: usize = 0;
        while k < n
            invariant
                k <= n,
                n == peers@.len(),
                peers@ == registry@.peers,
                registry.wf(),
                best <= n,
                best < n ==> best < k && can_serve(peers@[best as int], piece_index) && best_entry
                    == request_entry(peers@[best as int], piece_index),
                forall|j: int|
                    0 <= j < k && can_serve(#[trigger] peers@[j], piece_index) && j != best ==> best
                        < n && crate::peer::ranking::goes_before(
                        request_entry(peers@[best as int], piece_index),
                        request_entry(peers@[j], piece_index),
                    ),
            decreases n - k,
        {
            let p = &peers[k];
            if p.can_request() && p.peer_has_piece(piece_index) && !p.has_request(piece_index) {
                let entry = RankEntry {
                    eligible: true,
                    primary: p.reputation_permille() as u128 + p.download_rate as u128,
                    secondary: p.download_rate,
                    id: p.id,
                };
                assert(entry == request_entry(peers@[k as int], piece_index));
                if best == n {
                    best = k;
                    best_entry = entry;
                } else if crate::peer::ranking::ranked_before(&entry, &best_entry) {
                    proof {
                        let old_best = best as int;
                        assert forall|j: int|
                            0 <= j < k + 1 && can_serve(#[trigger] peers@[j], piece_index) && j
                                != k implies crate::peer::ranking::goes_before(
                            request_entry(peers@[k as int], piece_index),
                            request_entry(peers@[j], piece_index),
                        ) by {
                            if j != old_best {
                                crate::peer::ranking::lemma_rank_chain(
                                    request_entry(peers@[k as int], piece_index),
                                    request_entry(peers@[old_best], piece_index),
                                    request_entry(peers@[j], piece_index),
                                );
                            }
                        }
                    }
                    best = k;
                    best_entry = entry;
                } else {
                    proof {
                        assert(peers@[best as int].id@ != peers@[k as int].id@);
                        crate::peer::ranking::lemma_rank_total(best_entry, entry);
                    }
                }
            }
            k += 1;
        }
        if best < n {
            Some(best)
        } else {
            None
        }
    }

    /// Whether a piece can be asked for.
    pub fn piece_eligible(&self, registry: &PeerManager, piece_index: PieceIndex) -> (ok: bool)
        requires
            self.wf(),
            registry.wf(),
        ensures
            ok == eligible(registry@, self@, piece_index),
    {
        if (piece_index as usize) >= self.num_pieces || (piece_index as usize)
            >= registry.our_bitfield().total_pieces() {
            return false;
        }
        if registry.our_bitfield().has_piece(piece_index) {
            return false;
        }
        match self.first_open_block(registry, piece_index) {
            Some(b) => {
                proof {
                    let idx = choose|idx: int| first_open_at(registry@, self@, b, idx);
                    assert(open_block(registry@, self@, piece_index, idx));
                }
            },
            None => {
                return false;
            },
        }
        match PieceScheduler::best_peer(registry, piece_index) {
            Some(k) => {
                assert(can_serve(registry@.peers[k as int], piece_index));
                true
            },
            None => false,
        }
    }

    /// The piece to ask for next, if any can be asked for: while pieces are
    /// picked at random, the one that `random` draws of those that can be
    /// asked for; thereafter the rarest of them, and of several as rare the
    /// one with the lowest index.
    pub fn select_piece(&self, registry: &PeerManager, random: u64) -> (found: Option<PieceIndex>)
        requires
            self.wf(),
            registry.wf(),
        ensures
            match found {
                Some(piece) => is_selected(registry@, self@, random, piece),
                None => none_eligible(registry@, self@),
            },
    {
        let n = self.num_pieces;
        proof {
            lemma_eligible_upto(registry@, self@, n as int);
        }
        if self.completed == 0 && self.picks < self.config.random_first {
            let mut found: Vec<PieceIndex> = Vec::new();
            let mut i: usize = 0;
            while i < n
                invariant
                    i <= n,
                    n == self@.num_pieces,
                    n <= MAX_PIECES,
                    self.wf(),
                    registry.wf(),
                    found@ == eligible_upto(registry@, self@, i as int),
                    found@.len() <= i,
                decreases n - i,
            {
                if self.piece_eligible(registry, i as PieceIndex) {
                    found.push(i as PieceIndex);
                }
                i += 1;
            }
            if found.len() == 0 {
                assert forall|piece: PieceIndex| !eligible(registry@, self@, piece) by {
                    if eligible(registry@, self@, piece) {
                        assert(found@.contains(piece));
                    }
                }
                return None;
            }
            let len = found.len() as u64;
            return Some(found[(random % len) as usize]);
        }
        let mut best: Option<PieceIndex> = None;
        let mut best_count: usize = 0;
        let mut i: usize = 0;
        while i < n
            invariant
                i <= n,
                n == self@.num_pieces,
                n <= MAX_PIECES,
                self.wf(),
                registry.wf(),
                match best {
                    Some(b) => b < i && eligible(registry@, self@, b) && best_count
                        == crate::peer::manager::availability(registry@.peers, b as int)
                        && forall|j: PieceIndex|
                        j < i && eligible(registry@, self@, j) && j != b ==> rarer(
                            registry@.peers,
                            b,
                            j,
                        ),
                    None => forall|j: PieceIndex| j < i ==> !eligible(registry@, self@, j),
                },
            decreases n - i,
        {
            if self.piece_eligible(registry, i as PieceIndex) {
                let count = registry.availability_of(i as PieceIndex);
                let take = match best {
                    Some(_) => count < best_count,
                    None => true,
                };
                if take {
                    best = Some(i as PieceIndex);
                    best_count = count;
                }
            }
            i += 1;
        }
        best
    }

    /// Whether pieces are still picked at random.
    pub fn in_random_phase(&self) -> (random: bool)
        ensures
            random == self@.random_phase(),
    {
        self.completed == 0 && self.picks < self.config.random_first
    }

    /// Takes a block out of those that wait to be asked for again, where it
    /// waits.
    fn unqueue(&mut self, block: BlockRequest)
        requires
            old(self).wf(),
        ensures
            final(self).wf(),
            final(self)@ == (SchedulerView {
                requeued: without_block(old(self)@.requeued, block),
                ..old(self)@
            }),
    {
        let ghost before = self@;
        let mut q: usize = 0;
        while q < self.requeued.len()
            invariant
                q <= self.requeued@.len(),
                self@ == before,
                before.valid(),
                before == old(self)@,
                forall|j: int| 0 <= j < q ==> (#[trigger] self.requeued@[j]) != block,
            decreases self.requeued@.len() - q,
        {
            if self.requeued[q] == block {
                proof {
                    lemma_block_position_is(before.requeued, block, q as int);
                }
                self.requeued.remove(q);
                assert(self@.assemblies =~= before.assemblies);
                return;
            }
            q += 1;
        }
        proof {
            lemma_block_position_is(before.requeued, block, q as int);
        }
    }

    /// Decides on the next request at `now`, if one can be made: the piece
    /// is selected as `select_piece` says, the block is the first open one
    /// of the piece, and the peer is the one ranked first of those that can
    /// be asked for the piece. The request is recorded with the peer, and
    /// the block no longer waits to be asked for again.
    pub fn next_request(&mut self, registry: &mut PeerManager, now: u64, random: u64) -> (command:
        Option<RequestCommand>)
        requires
            old(self).wf(),
            old(registry).wf(),
        ensures
            final(self).wf(),
            final(registry).wf(),
            match command {
                Some(c) => request_made(
                    old(registry)@,
                    old(self)@,
                    now,
                    random,
                    c,
                    final(registry)@,
                    final(self)@,
                ),
                None => none_eligible(old(registry)@, old(self)@) && final(self)@ == old(self)@
                    && final(registry)@ == old(registry)@,
            },
    {
        let ghost v = registry@;
        let ghost before = self@;
        let piece = match self.select_piece(registry, random) {
            Some(piece) => piece,
            None => {
                return None;
            },
        };
        proof {
            lemma_selected_eligible(v, before, random, piece);
        }
        let block = match self.first_open_block(registry, piece) {
            Some(block) => block,
            None => {
                return None;
            },
        };
        let k = match PieceScheduler::best_peer(registry, piece) {
            Some(k) => k,
            None => {
                return None;
            },
        };
        let peer_id = registry.peers()[k].id;
        proof {
            crate::peer::manager::lemma_position_of(v.peers, peer_id@);
            let at = position_of(v.peers, peer_id@);
            if at < k {
                assert(v.peers[at].id@ != v.peers[k as int].id@);
            }
            assert(at == k);
        }
        let random_phase = self.in_random_phase();
        let recorded = registry.record_request(&peer_id, piece, block.offset, block.length, now);
        assert(recorded);
        if random_phase {
            self.picks = self.picks + 1;
        }
        assert(self@.assemblies =~= before.assemblies);
        self.unqueue(block);
        Some(RequestCommand { peer_id, block })
    }

    /// The position of the piece in the making with an index, or the number
    /// of pieces in the making.
    fn find_assembly(&self, piece_index: PieceIndex) -> (a: usize)
        ensures
            a == assembly_of(self@.assemblies, piece_index),
            a <= self.assemblies@.len(),
    {
        let mut a: usize = 0;
        while a < self.assemblies.len()
            invariant
                a <= self.assemblies@.len(),
                self@.assemblies.len() == self.assemblies@.len(),
                forall|j: int| 0 <= j < a ==> (#[trigger] self@.assemblies[j]).piece_index != piece_index,
            decreases self.assemblies@.len() - a,
        {
            if self.assemblies[a].piece_index == piece_index {
                proof {
                    lemma_assembly_is(self@.assemblies, piece_index, a as int);
                }
                return a;
            }
            a += 1;
        }
        proof {
            lemma_assembly_is(self@.assemblies, piece_index, a as int);
        }
        a
    }

    /// Settles in the registry a block that arrived from a peer that owed
    /// it: the request is done, the bytes are counted for the peer, and the
    /// other peers that owed us the same block no longer do. Handed back is
    /// what is to be called off.
    fn credit(
        registry: &mut PeerManager,
        peer_id: &PeerId,
        piece_index: PieceIndex,
        offset: BlockOffset,
        length: BlockLength,
        now: u64,
    ) -> (cancels: Vec<RequestCommand>)
        requires
            old(registry).wf(),
            position_of(old(registry)@.peers, peer_id@) < old(registry)@.peers.len(),
            crate::peer::manager::owes_block(
                old(registry)@.peers[position_of(old(registry)@.peers, peer_id@)],
                piece_index,
                offset,
            ),
        ensures
            final(registry).wf(),
            final(registry)@ == (RegistryView { peers: final(registry)@.peers, ..old(registry)@ }),
            final(registry)@.peers.len() == old(registry)@.peers.len(),
            forall|j: int|
                0 <= j < old(registry)@.peers.len() ==> credited(
                    old(registry)@.peers[j],
                    #[trigger] final(registry)@.peers[j],
                    j == position_of(old(registry)@.peers, peer_id@),
                    peer_id@,
                    piece_index,
                    offset,
                    length as int,
                    now,
                ),
            cancels@.len() == crate::peer::manager::ids_where(
                old(registry)@.peers,
                |p: Peer| crate::peer::manager::owes_block(p, piece_index, offset) && p.id@ != peer_id@,
            ).len(),
            forall|q: int|
                0 <= q < cancels@.len() ==> (#[trigger] cancels@[q]) == (RequestCommand {
                    peer_id: crate::peer::manager::ids_where(
                        old(registry)@.peers,
                        |p: Peer|
                            crate::peer::manager::owes_block(p, piece_index, offset) && p.id@
                                != peer_id@,
                    )[q],
                    block: BlockRequest { piece_index, offset, length },
                }),
    {
        let ghost v = registry@;
        let ghost k = position_of(v.peers, peer_id@);
        let ghost wanted = |p: Peer|
            crate::peer::manager::owes_block(p, piece_index, offset) && p.id@ != peer_id@;
        proof {
            crate::peer::manager::lemma_position_of(v.peers, peer_id@);
        }
        let others = registry.cancel_duplicates(piece_index, offset, peer_id);
        let ghost v1 = registry@;
        proof {
            crate::peer::manager::lemma_position_stable(v.peers, v1.peers, peer_id@);
            assert(v1.peers[k].pending_requests@ == v.peers[k].pending_requests@);
        }
        registry.finish_request(peer_id, piece_index);
        let ghost v2 = registry@;
        proof {
            crate::peer::manager::lemma_position_stable(v1.peers, v2.peers, peer_id@);
        }
        registry.record_download(peer_id, length as u64, now);
        let ghost v3 = registry@;
        let mut cancels: Vec<RequestCommand> = Vec::new();
        let mut q: usize = 0;
        while q < others.len()
            invariant
                q <= others@.len(),
                cancels@.len() == q,
                forall|j: int|
                    0 <= j < q ==> (#[trigger] cancels@[j]) == (RequestCommand {
                        peer_id: others@[j],
                        block: BlockRequest { piece_index, offset, length },
                    }),
            decreases others@.len() - q,
        {
            cancels.push(
                RequestCommand { peer_id: others[q], block: BlockRequest { piece_index, offset, length } },
            );
            q += 1;
        }
        proof {
            assert forall|j: int| 0 <= j < v.peers.len() implies credited(
                v.peers[j],
                #[trigger] v3.peers[j],
                j == k,
                peer_id@,
                piece_index,
                offset,
                length as int,
                now,
            ) by {
                if j != k {
                    assert(v2.peers[j] == v1.peers[j]);
                    assert(v3.peers[j] == v2.peers[j]);
                    assert(v.peers[j].id@ != peer_id@) by {
                        if j < k {
                            assert(v.peers[j].id@ != v.peers[k].id@);
                        } else {
                            assert(v.peers[k].id@ != v.peers[j].id@);
                        }
                    }
                }
            }
        }
        cancels
    }

    /// Takes a block that arrived from a peer at `now`. A block that the
    /// peer did not owe us, or not as it came, changes nothing. Else the
    /// request is done, the bytes are counted for the peer, and the other
    /// peers that owed us the same block no longer do and are to be told so.
    /// The bytes go into the piece in the making; once every block of the
    /// piece has arrived, the piece leaves the scheduler and is handed back
    /// to be verified.
    pub fn block_received(
        &mut self,
        registry: &mut PeerManager,
        peer_id: &PeerId,
        piece_index: PieceIndex,
        offset: BlockOffset,
        data: &[u8],
        now: u64,
    ) -> (report: BlockReport)
        requires
            old(self).wf(),
            old(registry).wf(),
        ensures
            final(self).wf(),
            final(registry).wf(),
            block_taken(
                old(registry)@,
                old(self)@,
                peer_id@,
                piece_index,
                offset,
                data@,
                now,
                report,
                final(registry)@,
                final(self)@,
            ),
    {
        let ghost v = registry@;
        let ghost before = self@;
        let k = registry.find(peer_id);
        if k >= registry.peers().len() || (piece_index as usize) >= self.num_pieces {
            return BlockReport { outcome: BlockOutcome::Ignored, cancels: Vec::new() };
        }
        let request = match registry.peers()[k].request_for(piece_index) {
            Some(r) => r,
            None => {
                return BlockReport { outcome: BlockOutcome::Ignored, cancels: Vec::new() };
            },
        };
        let block_size = self.config.block_size;
        let count = self.block_count(piece_index);
        let size = self.piece_size_of(piece_index);
        if request.offset != offset || data.len() != request.length as usize || offset % block_size
            != 0 || offset / block_size >= count {
            return BlockReport { outcome: BlockOutcome::Ignored, cancels: Vec::new() };
        }
        let block = offset / block_size;
        assert(block * block_size == offset) by (nonlinear_arith)
            requires
                block == offset / block_size,
                offset % block_size == 0,
                block_size > 0,
        ;
        assert((block + 1) * block_size == block * block_size + block_size) by (nonlinear_arith);
        assert(block * block_size <= (count - 1) * block_size) by (nonlinear_arith)
            requires
                block <= count - 1,
                block_size > 0,
        ;
        let expected_length: u32 = if size - offset < block_size {
            size - offset
        } else {
            block_size
        };
        if request.length != expected_length {
            return BlockReport { outcome: BlockOutcome::Ignored, cancels: Vec::new() };
        }
        assert(expected_block(v, before, k as int, piece_index, offset, data@.len() as int));
        let cancels = PieceScheduler::credit(registry, peer_id, piece_index, offset, request.length, now);
        if self.block_arrived(piece_index, block) {
            return BlockReport { outcome: BlockOutcome::Stored, cancels };
        }
        let a = self.find_assembly(piece_index);
        proof {
            lemma_assembly_of(before.assemblies, piece_index);
        }
        let mut current = if a < self.assemblies.len() {
            self.assemblies.remove(a)
        } else {
            let mut blank_data: Vec<u8> = Vec::new();
            let mut i: u32 = 0;
            while i < size
                invariant
                    i <= size,
                    blank_data@.len() == i,
                    forall|j: int| 0 <= j < i ==> blank_data@[j] == 0u8,
                decreases size - i,
            {
                blank_data.push(0u8);
                i += 1;
            }
            let mut blank_flags: Vec<bool> = Vec::new();
            let mut i: u32 = 0;
            while i < count
                invariant
                    i <= count,
                    blank_flags@.len() == i,
                    forall|j: int| 0 <= j < i ==> !blank_flags@[j],
                decreases count - i,
            {
                blank_flags.push(false);
                i += 1;
            }
            PieceAssembly { piece_index, data: blank_data, received: blank_flags }
        };
        let ghost start = started(before, piece_index);
        assert(current@.data =~= start.data);
        assert(current@.received =~= start.received);
        assert(current@.piece_index == piece_index);
        let mut written: Vec<u8> = Vec::new();
        written.extend_from_slice(
            vstd::slice::slice_subrange(current.data.as_slice(), 0, offset as usize),
        );
        written.extend_from_slice(data);
        written.extend_from_slice(
            vstd::slice::slice_subrange(
                current.data.as_slice(),
                offset as usize + data.len(),
                current.data.len(),
            ),
        );
        assert(written@ =~= spliced(start.data, offset as int, data@));
        current.data = written;
        let ghost flags_before = current.received@;
        current.received[block as usize] = true;
        proof {
            crate::common::bitfield::lemma_count_update(flags_before, block as int, true);
            crate::common::bitfield::lemma_count_true(flags_before);
            crate::common::bitfield::lemma_count_true(current.received@);
        }
        let whole = all_set(&current.received);
        let ghost rest = Seq::new(self.assemblies@.len(), |j: int| self.assemblies@[j]@);
        proof {
            assert(rest =~= if assembly_of(before.assemblies, piece_index) < before.assemblies.len() {
                before.assemblies.remove(assembly_of(before.assemblies, piece_index))
            } else {
                before.assemblies
            });
            assert forall|x: int, y: int| 0 <= x < y < rest.len() implies (#[trigger] rest[x]).piece_index
                != (#[trigger] rest[y]).piece_index by {
                let x0 = if a < before.assemblies.len() && x >= a {
                    x + 1
                } else {
                    x
                };
                let y0 = if a < before.assemblies.len() && y >= a {
                    y + 1
                } else {
                    y
                };
                assert(before.assemblies[x0].piece_index != before.assemblies[y0].piece_index);
            }
            assert forall|x: int| 0 <= x < rest.len() implies (#[trigger] rest[x]).piece_index
                != piece_index && rest[x].piece_index < before.num_pieces && rest[x].data.len()
                == before.piece_size(rest[x].piece_index as int) && rest[x].received.len()
                == before.blocks_in(rest[x].piece_index as int) && count_true(rest[x].received)
                < rest[x].received.len() by {
                let x0 = if a < before.assemblies.len() && x >= a {
                    x + 1
                } else {
                    x
                };
                assert(rest[x] == before.assemblies[x0]);
                if a < before.assemblies.len() {
                    if x0 < a {
                        assert(before.assemblies[x0].piece_index != before.assemblies[a as int].piece_index);
                    } else {
                        assert(before.assemblies[a as int].piece_index != before.assemblies[x0].piece_index);
                    }
                }
            }
        }
        if whole {
            let PieceAssembly { piece_index: _, data: bytes, received: _ } = current;
            assert(self@.assemblies =~= rest);
            BlockReport { outcome: BlockOutcome::PieceReady { piece_index, data: bytes }, cancels }
        } else {
            let ghost made = current@;
            self.assemblies.push(current);
            assert(self@.assemblies =~= rest.push(made));
            BlockReport { outcome: BlockOutcome::Stored, cancels }
        }
    }

    /// Takes note that a piece was verified and accepted: the registry
    /// learns that we have it, and the piece counts as completed.
    pub fn piece_completed(&mut self, registry: &mut PeerManager, piece_index: PieceIndex)
        requires
            old(self).wf(),
            old(registry).wf(),
        ensures
            final(self).wf(),
            final(registry).wf(),
            final(self)@ == (SchedulerView {
                completed: if old(self)@.completed < usize::MAX {
                    old(self)@.completed + 1
                } else {
                    old(self)@.completed
                },
                ..old(self)@
            }),
            final(registry)@ == (RegistryView {
                peers: final(registry)@.peers,
                ours: if piece_index < old(registry)@.ours.len() {
                    old(registry)@.ours.update(piece_index as int, true)
                } else {
                    old(registry)@.ours
                },
                ..old(registry)@
            }),
            final(registry)@.peers.len() == old(registry)@.peers.len(),
            forall|k: int|
                0 <= k < old(registry)@.peers.len() ==> {
                    let p = #[trigger] final(registry)@.peers[k];
                    &&& p.same_but_bitfield(&old(registry)@.peers[k])
                    &&& p.bitfield@ == old(registry)@.peers[k].bitfield@
                    &&& p.am_interested == if p.worth_asking(final(registry)@.ours) {
                        crate::peer::peer::InterestState::Interested
                    } else {
                        crate::peer::peer::InterestState::NotInterested
                    }
                },
    {
        let ghost before = self@;
        registry.completed_piece(piece_index);
        if self.completed < usize::MAX {
            self.completed = self.completed + 1;
        }
        assert(self@.assemblies =~= before.assemblies);
    }

    /// Takes note that a peer has left: it leaves the registry, and the
    /// blocks that it owed us wait to be asked for again. Handed back is the
    /// peer as it was, if it was in the registry.
    pub fn peer_left(&mut self, registry: &mut PeerManager, peer_id: &PeerId) -> (gone: Option<Peer>)
        requires
            old(self).wf(),
            old(registry).wf(),
        ensures
            final(self).wf(),
            final(registry).wf(),
            match gone {
                Some(p) => position_of(old(registry)@.peers, peer_id@) < old(registry)@.peers.len()
                    && p == old(registry)@.peers[position_of(old(registry)@.peers, peer_id@)]
                    && final(registry)@ == (RegistryView {
                    peers: old(registry)@.peers.remove(
                        position_of(old(registry)@.peers, peer_id@),
                    ),
                    optimistic: if old(registry)@.optimistic == Some(peer_id@) {
                        None
                    } else {
                        old(registry)@.optimistic
                    },
                    ..old(registry)@
                }) && final(self)@ == (SchedulerView {
                    requeued: old(self)@.requeued + blocks_of(p.pending_requests@),
                    ..old(self)@
                }),
                None => position_of(old(registry)@.peers, peer_id@) >= old(registry)@.peers.len()
                    && final(registry)@ == old(registry)@ && final(self)@ == old(self)@,
            },
    {
        match registry.remove_peer(peer_id) {
            Some(p) => {
                self.requeue(&p.pending_requests);
                Some(p)
            },
            None => None,
        }
    }
}

/// Whether `b` is the block at `idx` of its piece, and the first one that
/// is open.
pub open spec fn first_open_at(v: RegistryView, s: SchedulerView, b: BlockRequest, idx: int) -> bool {
    &&& open_block(v, s, b.piece_index, idx)
    &&& forall|j: int| 0 <= j < idx ==> !open_block(v, s, b.piece_index, j)
    &&& b.offset == idx * s.config.block_size
    &&& b.length == s.block_length(b.piece_index as int, idx)
}

/// Whether `b` is the first open block of its piece.
pub open spec fn is_first_open(v: RegistryView, s: SchedulerView, b: BlockRequest) -> bool {
    exists|idx: int| first_open_at(v, s, b, idx)
}

/// Whether the peer at `k` is the one to ask for a piece: it can be asked,
/// and is ranked before every other peer that can.
pub open spec fn is_best_peer(peers: Seq<Peer>, piece: PieceIndex, k: int) -> bool {
    &&& 0 <= k < peers.len()
    &&& can_serve(peers[k], piece)
    &&& forall|j: int|
        0 <= j < peers.len() && can_serve(#[trigger] peers[j], piece) && j != k
            ==> crate::peer::ranking::goes_before(
            request_entry(peers[k], piece),
            request_entry(peers[j], piece),
        )
}

/// Whether a block of a piece, given by its offset, has been asked of a
/// peer and not arrived.
pub fn block_in_flight(registry: &PeerManager, piece_index: PieceIndex, offset: u32) -> (flying: bool)
    requires
        registry.wf(),
    ensures
        flying == in_flight(registry@.peers, piece_index, offset as int),
{
    let peers = registry.peers();
    let mut k: usize = 0;
    while k < peers.len()
        invariant
            k <= peers@.len(),
            peers@ == registry@.peers,
            registry.wf(),
            forall|j: int, q: int|
                0 <= j < k && 0 <= q < peers@[j].pending_requests@.len() ==> !((
                #[trigger] peers@[j].pending_requests@[q]).piece_index == piece_index
                    && peers@[j].pending_requests@[q].offset == offset),
        decreases peers@.len() - k,
    {
        proof {
            crate::peer::peer::lemma_request_at(peers@[k as int].pending_requests@, piece_index);
            assert(peers@[k as int].wf());
        }
        match peers[k].request_for(piece_index) {
            Some(r) => {
                if r.offset == offset {
                    return true;
                }
                proof {
                    let pending = peers@[k as int].pending_requests@;
                    let at = request_at(pending, piece_index);
                    assert forall|q: int| 0 <= q < pending.len() implies !((
                    #[trigger] pending[q]).piece_index == piece_index && pending[q].offset
                        == offset) by {
                        if q < at {
                            assert(pending[q].piece_index != pending[at].piece_index);
                        }
                        if q > at {
                            assert(pending[at].piece_index != pending[q].piece_index);
                        }
                    }
                }
            },
            None => {},
        }
        k += 1;
    }
    false
}

/// The pieces below `m` that can be asked for, ascending.
pub open spec fn eligible_upto(v: RegistryView, s: SchedulerView, m: int) -> Seq<PieceIndex>
    decreases m,
{
    if m <= 0 {
        Seq::empty()
    } else if eligible(v, s, (m - 1) as PieceIndex) {
        eligible_upto(v, s, m - 1).push((m - 1) as PieceIndex)
    } else {
        eligible_upto(v, s, m - 1)
    }
}

/// The pieces that can be asked for are listed, each once and ascending,
/// and none else.
pub proof fn lemma_eligible_upto(v: RegistryView, s: SchedulerView, m: int)
    requires
        0 <= m <= MAX_PIECES,
    ensures
        forall|q: int|
            0 <= q < eligible_upto(v, s, m).len() ==> (#[trigger] eligible_upto(v, s, m)[q]) < m
                && eligible(v, s, eligible_upto(v, s, m)[q]),
        forall|piece: PieceIndex|
            piece < m && eligible(v, s, piece) ==> eligible_upto(v, s, m).contains(piece),
    decreases m,
{
    if m > 0 {
        lemma_eligible_upto(v, s, m - 1);
        let now = eligible_upto(v, s, m);
        let before = eligible_upto(v, s, m - 1);
        assert forall|piece: PieceIndex| piece < m && eligible(v, s, piece) implies now.contains(
            piece,
        ) by {
            if piece < m - 1 {
                assert(before.contains(piece));
                let q = choose|q: int| 0 <= q < before.len() && before[q] == piece;
                assert(now[q] == piece);
            } else {
                assert(now[now.len() - 1] == piece);
            }
        }
        assert forall|q: int| 0 <= q < now.len() implies (#[trigger] now[q]) < m && eligible(
            v,
            s,
            now[q],
        ) by {
            if q < before.len() {
                assert(now[q] == before[q]);
            }
        }
    }
}

/// Whether `piece` is the one to ask for next.
pub open spec fn is_selected(v: RegistryView, s: SchedulerView, random: u64, piece: PieceIndex) -> bool {
    if s.random_phase() {
        let candidates = eligible_upto(v, s, s.num_pieces as int);
        candidates.len() > 0 && piece == candidates[random as int % candidates.len() as int]
    } else {
        eligible(v, s, piece) && forall|j: PieceIndex|
            eligible(v, s, j) && j != piece ==> rarer(v.peers, piece, j)
    }
}

/// Whether no piece can be asked for.
pub open spec fn none_eligible(v: RegistryView, s: SchedulerView) -> bool {
    forall|piece: PieceIndex| !eligible(v, s, piece)
}

/// The piece selected can be asked for.
pub proof fn lemma_selected_eligible(v: RegistryView, s: SchedulerView, random: u64, piece: PieceIndex)
    requires
        s.valid(),
        is_selected(v, s, random, piece),
    ensures
        eligible(v, s, piece),
{
    if s.random_phase() {
        lemma_eligible_upto(v, s, s.num_pieces as int);
        let candidates = eligible_upto(v, s, s.num_pieces as int);
        let q = random as int % candidates.len() as int;
        assert(eligible(v, s, candidates[q]));
    }
}

/// Once pieces are no longer picked at random, the piece selected is one
/// that we lack and that can be asked for, and no such piece has been
/// announced by fewer peers that are ready.
pub proof fn lemma_selected_is_rarest(
    v: RegistryView,
    s: SchedulerView,
    random: u64,
    piece: PieceIndex,
    other: PieceIndex,
)
    requires
        !s.random_phase(),
        is_selected(v, s, random, piece),
        eligible(v, s, other),
    ensures
        !v.ours[piece as int],
        crate::peer::manager::availability(v.peers, piece as int)
            <= crate::peer::manager::availability(v.peers, other as int),
{
    if other != piece {
        assert(rarer(v.peers, piece, other));
    }
}

/// The position of a block among those that wait, or the length where it
/// does not wait.
pub open spec fn block_position(blocks: Seq<BlockRequest>, block: BlockRequest) -> int
    decreases blocks.len(),
{
    if blocks.len() == 0 {
        0
    } else if blocks.first() == block {
        0
    } else {
        1 + block_position(blocks.drop_first(), block)
    }
}

/// A position before which the block does not wait, and at which it does
/// unless it is the length, is what `block_position` finds.
pub proof fn lemma_block_position_is(blocks: Seq<BlockRequest>, block: BlockRequest, k: int)
    requires
        0 <= k <= blocks.len(),
        forall|j: int| 0 <= j < k ==> (#[trigger] blocks[j]) != block,
        k < blocks.len() ==> blocks[k] == block,
    ensures
        block_position(blocks, block) == k,
    decreases blocks.len(),
{
    if blocks.len() > 0 && k > 0 {
        assert(blocks[0] != block);
        let rest = blocks.drop_first();
        assert forall|j: int| 0 <= j < k - 1 implies (#[trigger] rest[j]) != block by {
            assert(rest[j] == blocks[j + 1]);
        }
        lemma_block_position_is(rest, block, k - 1);
    }
}

/// The blocks that wait, without the first of them that is `block`.
pub open spec fn without_block(blocks: Seq<BlockRequest>, block: BlockRequest) -> Seq<BlockRequest> {
    if block_position(blocks, block) < blocks.len() {
        blocks.remove(block_position(blocks, block))
    } else {
        blocks
    }
}

/// What making a request does to registry and scheduler, and what is to be
/// sent for it.
pub open spec fn request_made(
    v: RegistryView,
    s: SchedulerView,
    now: u64,
    random: u64,
    c: RequestCommand,
    v_after: RegistryView,
    s_after: SchedulerView,
) -> bool {
    let k = position_of(v.peers, c.peer_id@);
    &&& is_selected(v, s, random, c.block.piece_index)
    &&& is_first_open(v, s, c.block)
    &&& is_best_peer(v.peers, c.block.piece_index, k)
    &&& v.peers[k].id == c.peer_id
    &&& changed_at(v, v_after, k)
    &&& v_after.peers[k].same_but_requests(&v.peers[k])
    &&& v_after.peers[k].pending_requests@ == v.peers[k].pending_requests@.push(
        PendingRequest {
            piece_index: c.block.piece_index,
            offset: c.block.offset,
            length: c.block.length,
            requested_at: now,
        },
    )
    &&& s_after == SchedulerView {
        picks: if s.random_phase() {
            s.picks + 1
        } else {
            s.picks
        },
        requeued: without_block(s.requeued, c.block),
        ..s
    }
}

/// A request is made only of a peer that is ready, does not choke us, is
/// of interest to us and owes us fewer requests than it may, and only for a
/// piece that the peer has announced and we lack. Unless the end is near, no
/// peer owed us the block before. Afterwards the peer owes us no more
/// requests than it may.
pub proof fn lemma_request_discipline(
    v: RegistryView,
    s: SchedulerView,
    now: u64,
    random: u64,
    c: RequestCommand,
    v_after: RegistryView,
    s_after: SchedulerView,
)
    requires
        v.valid(),
        s.valid(),
        request_made(v, s, now, random, c, v_after, s_after),
    ensures
        ({
            let p = v.peers[position_of(v.peers, c.peer_id@)];
            &&& 0 <= position_of(v.peers, c.peer_id@) < v.peers.len()
            &&& p.state == crate::peer::peer::PeerState::Ready
            &&& p.peer_choking == ChokingState::Unchoked
            &&& p.am_interested == crate::peer::peer::InterestState::Interested
            &&& p.pending_requests@.len() < p.max_requests
            &&& p.bitfield@[c.block.piece_index as int]
            &&& !v.ours[c.block.piece_index as int]
        }),
        !s.endgame(v.ours) ==> !in_flight(v.peers, c.block.piece_index, c.block.offset as int),
        0 < c.block.length <= MAX_BLOCK_LENGTH,
        c.block.offset + c.block.length <= s.piece_size(c.block.piece_index as int),
        v_after.peers[position_of(v.peers, c.peer_id@)].pending_requests@.len()
            <= v_after.peers[position_of(v.peers, c.peer_id@)].max_requests,
{
    lemma_selected_eligible(v, s, random, c.block.piece_index);
    let idx = choose|idx: int| first_open_at(v, s, c.block, idx);
    let size = s.piece_size(c.block.piece_index as int);
    let bs = s.config.block_size as int;
    let count = s.blocks_in(c.block.piece_index as int);
    assert(idx * bs < size && (idx + 1) * bs == idx * bs + bs && idx * bs >= 0) by (nonlinear_arith)
        requires
            0 <= idx < count,
            count == (size + bs - 1) / bs,
            bs > 0,
    ;
}

impl PeerManager {
    /// The ids of the peers that can be asked for a piece, the one to ask
    /// first in front: the one that has treated us best and sends fastest,
    /// of several alike the one that sends faster, and the one with the
    /// lower id of those that send as fast.
    pub fn best_peers_for_piece(&self, piece_index: PieceIndex) -> (ids: Vec<PeerId>)
        requires
            self.wf(),
        ensures
            exists|ranking: Seq<usize>|
                {
                    &&& #[trigger] is_ranking(request_entries(self@.peers, piece_index), ranking)
                    &&& ids@.len() == ranking.len()
                    &&& forall|q: int|
                        0 <= q < ranking.len() ==> ids@[q] == self@.peers[ranking[q] as int].id
                },
    {
        let peers = self.peers();
        let n = peers.len();
        let mut entries: Vec<RankEntry> = Vec::new();
        let mut k: usize = 0;
        while k < n
            invariant
                k <= n,
                n == peers@.len(),
                peers@ == self@.peers,
                entries@.len() == k,
                forall|j: int|
                    0 <= j < k ==> (#[trigger] entries@[j]) == request_entries(peers@, piece_index)[j],
            decreases n - k,
        {
            let p = &peers[k];
            entries.push(
                RankEntry {
                    eligible: p.can_request() && p.peer_has_piece(piece_index) && !p.has_request(
                        piece_index,
                    ),
                    primary: p.reputation_permille() as u128 + p.download_rate as u128,
                    secondary: p.download_rate,
                    id: p.id,
                },
            );
            k += 1;
        }
        assert(entries@ =~= request_entries(peers@, piece_index));
        assert(crate::peer::ranking::distinct_entries(entries@)) by {
            assert forall|i: int, j: int| 0 <= i < j < entries@.len() implies (
            #[trigger] entries@[i]).id@ != (#[trigger] entries@[j]).id@ by {
                assert(peers@[i].id@ != peers@[j].id@);
            }
        }
        let ranking = rank(&entries);
        let mut ids: Vec<PeerId> = Vec::new();
        let mut q: usize = 0;
        while q < ranking.len()
            invariant
                q <= ranking@.len(),
                peers@ == self@.peers,
                is_ranking(request_entries(peers@, piece_index), ranking@),
                ids@.len() == q,
                forall|j: int| 0 <= j < q ==> ids@[j] == peers@[ranking@[j] as int].id,
            decreases ranking@.len() - q,
        {
            ids.push(peers[ranking[q]].id);
            q += 1;
        }
        ids
    }
}

/// Whether every flag is set.
pub fn all_set(flags: &Vec<bool>) -> (all: bool)
    ensures
        all == (count_true(flags@) == flags@.len()),
{
    proof {
        crate::common::bitfield::lemma_count_true(flags@);
    }
    let mut i: usize = 0;
    while i < flags.len()
        invariant
            i <= flags@.len(),
            forall|j: int| 0 <= j < i ==> flags@[j],
        decreases flags@.len() - i,
    {
        if !flags[i] {
            proof {
                crate::common::bitfield::lemma_count_true(flags@);
            }
            return false;
        }
        i += 1;
    }
    proof {
        crate::common::bitfield::lemma_count_true(flags@);
    }
    true
}

/// The bytes with those from `offset` on replaced by `data`.
pub open spec fn spliced(bytes: Seq<u8>, offset: int, data: Seq<u8>) -> Seq<u8> {
    bytes.subrange(0, offset) + data + bytes.subrange(offset + data.len(), bytes.len() as int)
}

/// The piece in the making with an index, or, where there is none, that
/// piece with no block arrived and all bytes zero.
pub open spec fn started(s: SchedulerView, piece: PieceIndex) -> Assembly {
    let a = assembly_of(s.assemblies, piece);
    if a < s.assemblies.len() {
        s.assemblies[a]
    } else {
        Assembly {
            piece_index: piece,
            data: Seq::new(s.piece_size(piece as int) as nat, |i: int| 0u8),
            received: Seq::new(s.blocks_in(piece as int) as nat, |i: int| false),
        }
    }
}

/// The pieces in the making without the one with an index.
pub open spec fn others_started(s: SchedulerView, piece: PieceIndex) -> Seq<Assembly> {
    let a = assembly_of(s.assemblies, piece);
    if a < s.assemblies.len() {
        s.assemblies.remove(a)
    } else {
        s.assemblies
    }
}

/// Whether a block that arrived is the one that the peer at `k` owes us:
/// a whole block of a piece of the torrent, asked for as it came.
pub open spec fn expected_block(
    v: RegistryView,
    s: SchedulerView,
    k: int,
    piece: PieceIndex,
    offset: BlockOffset,
    length: int,
) -> bool {
    &&& 0 <= k < v.peers.len()
    &&& piece < s.num_pieces
    &&& crate::peer::manager::owes_block(v.peers[k], piece, offset)
    &&& v.peers[k].pending_requests@[request_at(v.peers[k].pending_requests@, piece)].length
        == length
    &&& (offset as int) % (s.config.block_size as int) == 0
    &&& (offset as int) / (s.config.block_size as int) < s.blocks_in(piece as int)
    &&& length == s.block_length(piece as int, (offset as int) / (s.config.block_size as int))
}

/// What a block that arrived does to a peer: the sender no longer owes it,
/// its bytes are counted and the sender was heard from; any other peer that
/// owed it no longer does; all else stays.
pub open spec fn credited(
    before: Peer,
    after: Peer,
    sender: bool,
    sender_id: Seq<u8>,
    piece: PieceIndex,
    offset: BlockOffset,
    length: int,
    now: u64,
) -> bool {
    let at = request_at(before.pending_requests@, piece);
    &&& after.same_but_counters(&Peer { pending_requests: after.pending_requests, ..before })
    &&& after.download_rate == before.download_rate && after.upload_rate == before.upload_rate
    &&& after.uploaded == before.uploaded && after.last_sent == before.last_sent
    &&& after.pending_requests@ == if sender || crate::peer::manager::owes_block(
        before,
        piece,
        offset,
    ) {
        before.pending_requests@.remove(at)
    } else {
        before.pending_requests@
    }
    &&& after.downloaded == if !sender {
        before.downloaded
    } else if before.downloaded + length <= u64::MAX {
        (before.downloaded + length) as u64
    } else {
        u64::MAX
    }
    &&& after.last_seen == if sender {
        now
    } else {
        before.last_seen
    }
}

/// What taking a block that arrived does to registry and scheduler, and
/// what it hands back.
pub open spec fn block_taken(
    v: RegistryView,
    s: SchedulerView,
    sender: Seq<u8>,
    piece: PieceIndex,
    offset: BlockOffset,
    data: Seq<u8>,
    now: u64,
    report: BlockReport,
    v_after: RegistryView,
    s_after: SchedulerView,
) -> bool {
    let k = position_of(v.peers, sender);
    let block = (offset as int) / (s.config.block_size as int);
    let old_piece = started(s, piece);
    let new_piece = Assembly {
        piece_index: piece,
        data: spliced(old_piece.data, offset as int, data),
        received: old_piece.received.update(block, true),
    };
    if !expected_block(v, s, k, piece, offset, data.len() as int) {
        &&& report.outcome is Ignored
        &&& report.cancels@ == Seq::<RequestCommand>::empty()
        &&& v_after == v
        &&& s_after == s
    } else {
        &&& v_after == RegistryView { peers: v_after.peers, ..v }
        &&& v_after.peers.len() == v.peers.len()
        &&& forall|j: int|
            0 <= j < v.peers.len() ==> credited(
                v.peers[j],
                #[trigger] v_after.peers[j],
                j == k,
                sender,
                piece,
                offset,
                data.len() as int,
                now,
            )
        &&& report.cancels@.len() == crate::peer::manager::ids_where(
            v.peers,
            |p: Peer| crate::peer::manager::owes_block(p, piece, offset) && p.id@ != sender,
        ).len()
        &&& forall|q: int|
            0 <= q < report.cancels@.len() ==> (#[trigger] report.cancels@[q]) == (RequestCommand {
                peer_id: crate::peer::manager::ids_where(
                    v.peers,
                    |p: Peer| crate::peer::manager::owes_block(p, piece, offset) && p.id@ != sender,
                )[q],
                block: BlockRequest { piece_index: piece, offset, length: data.len() as u32 },
            })
        &&& if old_piece.received[block] {
            report.outcome is Stored && s_after == s
        } else if count_true(new_piece.received) == new_piece.received.len() {
            &&& report.outcome matches BlockOutcome::PieceReady { piece_index, data: bytes }
            &&& piece_index == piece
            &&& bytes@ == new_piece.data
            &&& s_after == SchedulerView { assemblies: others_started(s, piece), ..s }
        } else {
            &&& report.outcome is Stored
            &&& s_after == SchedulerView {
                assemblies: others_started(s, piece).push(new_piece),
                ..s
            }
        }
    }
}

} // verus!
