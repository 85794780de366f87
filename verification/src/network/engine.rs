//! The messages of the peers, taken one at a time: what each does to the
//! registry, the scheduler, the store and the queue of uploads, and what is
//! to be sent in answer.

use crate::common::bitfield::Bitfield;
use crate::common::error::ProtocolError;
use crate::common::error::TorrentError;
use crate::common::types::PeerId;
use crate::common::types::PieceIndex;
use crate::file::manager::hashes_of;
use crate::file::manager::FileManager;
use crate::file::manager::whole;
use crate::file::piece_manager::cache_touch;
use crate::file::piece_manager::has_room;
use crate::file::piece_manager::StoreView;
use crate::file::piece_manager::SubmitOutcome;
use crate::peer::choking::round_made;
use crate::peer::choking::ChokeCommand;
use crate::peer::manager::changed_at;
use crate::peer::manager::position_of;
use crate::peer::manager::PeerManager;
use crate::peer::manager::RegistryView;
use crate::peer::peer::ChokingState;
use crate::peer::peer::InterestState;
use crate::peer::peer::Peer;
use crate::peer::peer::PeerState;
use crate::peer::peer::PendingRequest;
use crate::peer::scheduler::blocks_of;
use crate::peer::scheduler::block_of_request;
use crate::peer::scheduler::block_taken;
use crate::peer::scheduler::request_made;
use crate::peer::scheduler::BlockOutcome;
use crate::peer::scheduler::BlockReport;
use crate::peer::scheduler::RequestCommand;
use crate::peer::scheduler::BlockRequest;
use crate::peer::scheduler::PieceScheduler;
use crate::peer::scheduler::SchedulerView;
use crate::network::session::PeerSession;
use crate::network::session::SessionState;
use crate::protocol::messages::bitfield_of;
use crate::protocol::messages::block_of;
use crate::protocol::messages::have_of;
use crate::protocol::messages::piece_of;
use crate::protocol::messages::port_of;
use crate::protocol::messages::MessageParser;
use crate::protocol::Frame;
use crate::protocol::Message;
use crate::protocol::MessageType;
use crate::protocol::wire::u32_be;
use crate::protocol::MAX_BLOCK_LENGTH;
use vstd::prelude::*;

verus! {

/// A message to send, and the peer to send it to.
#[derive(Debug)]
pub struct Outgoing {
    pub peer_id: PeerId,
    pub message: Message,
}

/// What a message to send is: whom it is for, and what it says.
pub struct Sent {
    pub peer_id: PeerId,
    pub frame: Frame,
}

/// What is to be done for the blocks that peers asked of us.
#[derive(Debug)]
pub enum UploadStep {
    /// No block waits.
    Idle,
    /// This Piece message is to be sent.
    Send(Outgoing),
    /// The body of this piece is to be read from the files and handed to
    /// `Swarm::piece_read_back`: a block of it waits, and it is not in
    /// memory.
    Fetch(PieceIndex),
}

/// What a step is, with the message to send replaced by what it is.
pub enum UploadStepView {
    Idle,
    Send(Sent),
    Fetch(PieceIndex),
}

impl View for UploadStep {
    type V = UploadStepView;

    open spec fn view(&self) -> UploadStepView {
        match *self {
            UploadStep::Idle => UploadStepView::Idle,
            UploadStep::Send(o) => UploadStepView::Send(
                Sent { peer_id: o.peer_id, frame: o.message@ },
            ),
            UploadStep::Fetch(piece) => UploadStepView::Fetch(piece),
        }
    }
}

/// What messages to send are, in their order.
pub open spec fn sent(outgoing: Seq<Outgoing>) -> Seq<Sent> {
    Seq::new(outgoing.len(), |i: int| Sent { peer_id: outgoing[i].peer_id, frame: outgoing[i].message@ })
}

/// A block that a peer asked of us and that we have not sent yet.
#[derive(Debug, Clone, Copy)]
pub struct UploadEntry {
    pub peer_id: PeerId,
    pub block: BlockRequest,
}

/// Whether an entry is for a block asked by a peer.
pub open spec fn entry_is(e: UploadEntry, peer: Seq<u8>, block: BlockRequest) -> bool {
    e.peer_id@ == peer && e.block == block
}

/// The position of the first entry for a block asked by a peer, or the
/// length where there is none.
pub open spec fn entry_of(entries: Seq<UploadEntry>, peer: Seq<u8>, block: BlockRequest) -> int
    decreases entries.len(),
{
    if entries.len() == 0 {
        0
    } else if entry_is(entries.first(), peer, block) {
        0
    } else {
        1 + entry_of(entries.drop_first(), peer, block)
    }
}

/// A position before which no entry is for the block, and at which one is
/// unless it is the length, is what `entry_of` finds.
pub proof fn lemma_entry_is(entries: Seq<UploadEntry>, peer: Seq<u8>, block: BlockRequest, k: int)
    requires
        0 <= k <= entries.len(),
        forall|j: int| 0 <= j < k ==> !entry_is(#[trigger] entries[j], peer, block),
        k < entries.len() ==> entry_is(entries[k], peer, block),
    ensures
        entry_of(entries, peer, block) == k,
    decreases entries.len(),
{
    if entries.len() > 0 && k > 0 {
        assert(!entry_is(entries[0], peer, block));
        let rest = entries.drop_first();
        assert forall|j: int| 0 <= j < k - 1 implies !entry_is(#[trigger] rest[j], peer, block) by {
            assert(rest[j] == entries[j + 1]);
        }
        lemma_entry_is(rest, peer, block, k - 1);
    }
}

/// The blocks that peers asked of us, in the order in which they asked.
#[derive(Debug)]
pub struct UploadQueue {
    entries: Vec<UploadEntry>,
}

impl View for UploadQueue {
    type V = Seq<UploadEntry>;

    closed spec fn view(&self) -> Seq<UploadEntry> {
        self.entries@
    }
}

impl UploadQueue {
    pub fn new() -> (q: UploadQueue)
        ensures
            q@ == Seq::<UploadEntry>::empty(),
    {
        UploadQueue { entries: Vec::new() }
    }

    pub fn len(&self) -> (n: usize)
        ensures
            n == self@.len(),
    {
        self.entries.len()
    }

    /// Puts a block that a peer asked for behind the others.
    pub fn push(&mut self, peer_id: PeerId, block: BlockRequest)
        ensures
            final(self)@ == old(self)@.push(UploadEntry { peer_id, block }),
    {
        self.entries.push(UploadEntry { peer_id, block });
    }

    /// The block that waits longest, if any waits.
    pub fn first(&self) -> (entry: Option<UploadEntry>)
        ensures
            match entry {
                Some(e) => self@.len() > 0 && e == self@[0],
                None => self@.len() == 0,
            },
    {
        if self.entries.len() == 0 {
            None
        } else {
            Some(self.entries[0])
        }
    }

    /// Takes the block that waits longest out of the queue, if any waits.
    pub fn pop(&mut self) -> (entry: Option<UploadEntry>)
        ensures
            match entry {
                Some(e) => old(self)@.len() > 0 && e == old(self)@[0] && final(self)@
                    == old(self)@.skip(1),
                None => old(self)@.len() == 0 && final(self)@ == old(self)@,
            },
    {
        if self.entries.len() == 0 {
            None
        } else {
            let e = self.entries.remove(0);
            assert(self.entries@ =~= old(self)@.skip(1));
            Some(e)
        }
    }

    /// Takes a block that a peer asked for and calls off out of the queue,
    /// the first where it waits more than once.
    pub fn cancel(&mut self, peer_id: &PeerId, block: BlockRequest)
        ensures
            final(self)@ == if entry_of(old(self)@, peer_id@, block) < old(self)@.len() {
                old(self)@.remove(entry_of(old(self)@, peer_id@, block))
            } else {
                old(self)@
            },
    {
        let mut k: usize = 0;
        while k < self.entries.len()
            invariant
                k <= self.entries@.len(),
                self.entries@ == old(self)@,
                forall|j: int| 0 <= j < k ==> !entry_is(#[trigger] self.entries@[j], peer_id@, block),
            decreases self.entries@.len() - k,
        {
            let e = &self.entries[k];
            if e.block == block && crate::common::types::same_bytes(
                e.peer_id.as_slice(),
                peer_id.as_slice(),
            ) {
                proof {
                    lemma_entry_is(self.entries@, peer_id@, block, k as int);
                }
                self.entries.remove(k);
                return;
            }
            k += 1;
        }
        proof {
            lemma_entry_is(self.entries@, peer_id@, block, k as int);
        }
    }

    /// Takes every block that a peer asked for out of the queue, as when
    /// we choke the peer.
    pub fn drop_peer(&mut self, peer_id: &PeerId)
        ensures
            final(self)@ == old(self)@.filter(|e: UploadEntry| e.peer_id@ != peer_id@),
    {
        let ghost before = self.entries@;
        let ghost other = |e: UploadEntry| e.peer_id@ != peer_id@;
        let mut kept: Vec<UploadEntry> = Vec::new();
        let mut k: usize = 0;
        assert(before.take(0) =~= Seq::<UploadEntry>::empty());
        while k < self.entries.len()
            invariant
                k <= self.entries@.len(),
                self.entries@ == before,
                other == |e: UploadEntry| e.peer_id@ != peer_id@,
                kept@ == before.take(k as int).filter(other),
            decreases self.entries@.len() - k,
        {
            proof {
                assert(before.take(k + 1).drop_last() =~= before.take(k as int));
                assert(before.take(k + 1).last() == before[k as int]);
                reveal(Seq::filter);
            }
            if !crate::common::types::same_bytes(
                self.entries[k].peer_id.as_slice(),
                peer_id.as_slice(),
            ) {
                kept.push(self.entries[k]);
            }
            k += 1;
        }
        assert(before.take(k as int) =~= before);
        self.entries = kept;
    }
}

impl UploadQueue {
    /// Keeps the blocks asked by peers that we serve: that are in the
    /// registry and not choked by us.
    pub fn retain_served(&mut self, registry: &PeerManager)
        ensures
            final(self)@ == old(self)@.filter(|e: UploadEntry| served_by_us(registry@, e)),
    {
        let ghost before = self.entries@;
        let ghost served = |e: UploadEntry| served_by_us(registry@, e);
        let mut kept: Vec<UploadEntry> = Vec::new();
        let mut k: usize = 0;
        assert(before.take(0) =~= Seq::<UploadEntry>::empty());
        while k < self.entries.len()
            invariant
                k <= self.entries@.len(),
                self.entries@ == before,
                served == |e: UploadEntry| served_by_us(registry@, e),
                kept@ == before.take(k as int).filter(served),
            decreases self.entries@.len() - k,
        {
            proof {
                assert(before.take(k + 1).drop_last() =~= before.take(k as int));
                assert(before.take(k + 1).last() == before[k as int]);
                reveal(Seq::filter);
            }
            let keep = match registry.get_peer(&self.entries[k].peer_id) {
                Some(p) => p.am_choking == ChokingState::Unchoked,
                None => false,
            };
            if keep {
                kept.push(self.entries[k]);
            }
            k += 1;
        }
        assert(before.take(k as int) =~= before);
        self.entries = kept;
    }
}

/// Whether the peer of an entry is one that we serve: it is in the
/// registry, and we do not choke it.
pub open spec fn served_by_us(v: RegistryView, e: UploadEntry) -> bool {
    let k = position_of(v.peers, e.peer_id@);
    k < v.peers.len() && v.peers[k].am_choking == ChokingState::Unchoked
}

/// The Choke or Unchoke message for a change of choking.
pub open spec fn choke_frame(c: ChokeCommand) -> Sent {
    Sent {
        peer_id: c.peer_id,
        frame: Frame {
            kind: match c.choking {
                ChokingState::Choked => MessageType::Choke,
                ChokingState::Unchoked => MessageType::Unchoke,
            },
            payload: Seq::empty(),
        },
    }
}

/// The Choke and Unchoke messages for changes of choking, in their order.
pub open spec fn choke_frames(commands: Seq<ChokeCommand>) -> Seq<Sent> {
    Seq::new(commands.len(), |q: int| choke_frame(commands[q]))
}

/// The Cancel message for a request that is given up.
pub open spec fn expiry_frame(expired: (PeerId, PendingRequest)) -> Sent {
    Sent {
        peer_id: expired.0,
        frame: Frame {
            kind: MessageType::Cancel,
            payload: u32_be(expired.1.piece_index) + u32_be(expired.1.offset) + u32_be(
                expired.1.length,
            ),
        },
    }
}

/// The Cancel messages for requests that are given up, in their order.
pub open spec fn expiry_frames(expired: Seq<(PeerId, PendingRequest)>) -> Seq<Sent> {
    Seq::new(expired.len(), |q: int| expiry_frame(expired[q]))
}

/// What a swarm is: the registry of its peers, the scheduler, the store of
/// its pieces with the descriptor, and the queue of uploads.
pub struct SwarmView {
    pub registry: RegistryView,
    pub scheduler: SchedulerView,
    pub store: StoreView,
    pub uploads: Seq<UploadEntry>,
}

/// One torrent among its peers.
pub struct Swarm {
    pub registry: PeerManager,
    pub scheduler: PieceScheduler,
    pub files: FileManager,
    pub uploads: UploadQueue,
}

impl View for Swarm {
    type V = SwarmView;

    open spec fn view(&self) -> SwarmView {
        SwarmView {
            registry: self.registry@,
            scheduler: self.scheduler@,
            store: self.files.store(),
            uploads: self.uploads@,
        }
    }
}

impl SwarmView {
    /// What holds of every swarm: its parts are well formed and speak of the
    /// same pieces, and the pieces that the registry has us announce are
    /// those that the store has accepted.
    pub open spec fn valid(self) -> bool {
        &&& self.registry.valid()
        &&& self.scheduler.valid()
        &&& self.store.consistent()
        &&& self.registry.ours == self.store.have
        &&& self.scheduler.num_pieces == self.store.hashes.len()
    }
}

impl Swarm {
    /// What every swarm fulfils.
    pub open spec fn wf(&self) -> bool {
        &&& self@.valid()
        &&& self.files.wf()
        &&& self.scheduler@.piece_length == self.files.info().piece_length
        &&& self.scheduler@.total_size == self.files.info().spec_total_size()
        &&& self.scheduler@.num_pieces == self.files.info().pieces@.len()
    }

    /// A swarm for a valid descriptor: no peers, no pieces, nothing asked
    /// for; `now` is the time from which the first round of choking is
    /// counted.
    pub fn new(
        info: crate::common::types::TorrentInfo,
        download_path: String,
        cache_size: usize,
        max_peers: usize,
        config: crate::peer::scheduler::SchedulerConfig,
        now: u64,
    ) -> (swarm: Swarm)
        requires
            info.valid(),
        ensures
            swarm.wf(),
            swarm.files.info() == info,
            swarm.files.root() == download_path,
            !swarm.files.allocated(),
            swarm@ == (SwarmView {
                registry: RegistryView {
                    peers: Seq::empty(),
                    ours: Seq::new(info.pieces@.len(), |i: int| false),
                    max_peers: max_peers as nat,
                    connection_timeout: crate::peer::manager::DEFAULT_CONNECTION_TIMEOUT,
                    last_choke_time: now,
                    choke_interval: crate::peer::manager::DEFAULT_CHOKE_INTERVAL,
                    max_unchoked: crate::peer::manager::DEFAULT_MAX_UNCHOKED as nat,
                    optimistic: None,
                    rounds: 0,
                },
                scheduler: SchedulerView {
                    config: crate::peer::scheduler::SchedulerConfig {
                        block_size: if 0 < config.block_size <= MAX_BLOCK_LENGTH {
                            config.block_size
                        } else {
                            MAX_BLOCK_LENGTH
                        },
                        ..config
                    },
                    piece_length: info.piece_length,
                    total_size: info.spec_total_size() as u64,
                    num_pieces: info.pieces@.len(),
                    assemblies: Seq::empty(),
                    requeued: Seq::empty(),
                    completed: 0,
                    picks: 0,
                },
                store: StoreView {
                    hashes: hashes_of(info),
                    have: Seq::new(info.pieces@.len(), |i: int| false),
                    accepted: Seq::new(info.pieces@.len(), |i: int| None),
                    bodies: Seq::new(info.pieces@.len(), |i: int| None),
                    cache: Seq::empty(),
                    capacity: cache_size as nat,
                    piece_length: info.piece_length,
                },
                uploads: Seq::empty(),
            }),
    {
        let scheduler = PieceScheduler::new(&info, config);
        let registry = PeerManager::new(info.num_pieces(), max_peers, now);
        let files = FileManager::new(info, download_path, cache_size);
        proof {
            files.lemma_wf();
        }
        Swarm { registry, scheduler, files, uploads: UploadQueue::new() }
    }

    /// Takes a Choke of a peer: the requests that the peer owed us are
    /// forgotten, and their blocks wait to be asked for again.
    pub fn on_choke(&mut self, peer_id: &PeerId)
        requires
            old(self).wf(),
        ensures
            final(self).wf(),
            final(self).files.info() == old(self).files.info(),
            choke_taken(old(self)@, peer_id@, final(self)@),
    {
        self.scheduler.peer_choked(&mut self.registry, peer_id);
    }

    /// Takes an Unchoke of a peer.
    pub fn on_unchoke(&mut self, peer_id: &PeerId)
        requires
            old(self).wf(),
        ensures
            final(self).wf(),
            final(self).files.info() == old(self).files.info(),
            flow_set(old(self)@, peer_id@, final(self)@),
            position_of(old(self)@.registry.peers, peer_id@) < old(self)@.registry.peers.len() ==> {
                let k = position_of(old(self)@.registry.peers, peer_id@);
                &&& final(self)@.registry.peers[k].peer_choking == ChokingState::Unchoked
                &&& final(self)@.registry.peers[k].peer_interested
                    == old(self)@.registry.peers[k].peer_interested
            },
    {
        self.registry.remote_unchoked(peer_id);
    }

    /// Takes an Interested or a NotInterested of a peer.
    pub fn on_interest(&mut self, peer_id: &PeerId, interest: InterestState)
        requires
            old(self).wf(),
        ensures
            final(self).wf(),
            final(self).files.info() == old(self).files.info(),
            flow_set(old(self)@, peer_id@, final(self)@),
            position_of(old(self)@.registry.peers, peer_id@) < old(self)@.registry.peers.len() ==> {
                let k = position_of(old(self)@.registry.peers, peer_id@);
                &&& final(self)@.registry.peers[k].peer_interested == interest
                &&& final(self)@.registry.peers[k].peer_choking
                    == old(self)@.registry.peers[k].peer_choking
            },
    {
        self.registry.remote_interest(peer_id, interest);
    }

    /// Whether we have become interested in a peer: one Interested message
    /// for it if so, else nothing.
    fn interest_answer(before: InterestState, peer: Option<&Peer>, peer_id: &PeerId) -> (outgoing: Vec<
        Outgoing,
    >)
        ensures
            sent(outgoing@) == interest_news(
                before,
                match peer {
                    Some(p) => Some(p.am_interested),
                    None => None,
                },
                *peer_id,
            ),
    {
        let mut outgoing: Vec<Outgoing> = Vec::new();
        match peer {
            Some(p) => {
                if before == InterestState::NotInterested && p.am_interested
                    == InterestState::Interested {
                    outgoing.push(Outgoing { peer_id: *peer_id, message: Message::interested() });
                    assert(sent(outgoing@) =~= seq![
                        Sent {
                            peer_id: *peer_id,
                            frame: Frame { kind: MessageType::Interested, payload: Seq::empty() },
                        },
                    ]);
                    return outgoing;
                }
            },
            None => {},
        }
        assert(sent(outgoing@) =~= Seq::<Sent>::empty());
        outgoing
    }

    /// Takes a Have of a peer: the peer has the piece now, and we tell it
    /// if that makes us interested in it. A piece outside the torrent is an
    /// invalid piece index and changes nothing.
    pub fn on_have(&mut self, peer_id: &PeerId, piece_index: PieceIndex) -> (r: Result<
        Vec<Outgoing>,
        TorrentError,
    >)
        requires
            old(self).wf(),
        ensures
            final(self).wf(),
            final(self).files.info() == old(self).files.info(),
            match r {
                Ok(outgoing) => piece_index < old(self)@.registry.ours.len() && have_taken(
                    old(self)@,
                    peer_id@,
                    piece_index,
                    final(self)@,
                ) && sent(outgoing@) == interest_news(
                    am_interested_in(old(self)@.registry, peer_id@),
                    interest_after(final(self)@.registry, peer_id@),
                    *peer_id,
                ),
                Err(e) => piece_index >= old(self)@.registry.ours.len() && e
                    == TorrentError::Protocol(
                    ProtocolError::InvalidPieceIndex { index: piece_index },
                ) && final(self)@ == old(self)@,
            },
    {
        if (piece_index as usize) >= self.registry.our_bitfield().total_pieces() {
            return Err(
                TorrentError::Protocol(ProtocolError::InvalidPieceIndex { index: piece_index }),
            );
        }
        let before = match self.registry.get_peer(peer_id) {
            Some(p) => p.am_interested,
            None => InterestState::Interested,
        };
        self.registry.remote_has(peer_id, piece_index);
        proof {
            crate::peer::manager::lemma_position_stable(
                old(self)@.registry.peers,
                self@.registry.peers,
                peer_id@,
            );
        }
        Ok(Swarm::interest_answer(before, self.registry.get_peer(peer_id), peer_id))
    }

    /// Takes a Bitfield of a peer. It counts only as the first message of
    /// the peer; later it is passed over. Bits set past the pieces of the
    /// torrent are an invalid bitfield and change nothing. Else what is
    /// known of the peer's pieces is replaced, and we tell the peer if that
    /// makes us interested in it.
    pub fn on_bitfield(&mut self, peer_id: &PeerId, payload: &[u8], first: bool) -> (r: Result<
        Vec<Outgoing>,
        TorrentError,
    >)
        requires
            old(self).wf(),
        ensures
            final(self).wf(),
            final(self).files.info() == old(self).files.info(),
            match r {
                Ok(outgoing) => if !first {
                    final(self)@ == old(self)@ && outgoing@.len() == 0
                } else {
                    &&& !crate::common::bitfield::stray_bit(
                        payload@,
                        old(self)@.registry.ours.len(),
                    )
                    &&& bitfield_taken(
                        old(self)@,
                        peer_id@,
                        crate::common::bitfield::unpacked(payload@, old(self)@.registry.ours.len()),
                        final(self)@,
                    )
                    &&& sent(outgoing@) == interest_news(
                        am_interested_in(old(self)@.registry, peer_id@),
                        interest_after(final(self)@.registry, peer_id@),
                        *peer_id,
                    )
                },
                Err(e) => first && crate::common::bitfield::stray_bit(
                    payload@,
                    old(self)@.registry.ours.len(),
                ) && e == TorrentError::Protocol(ProtocolError::InvalidBitfield) && final(self)@
                    == old(self)@,
            },
    {
        if !first {
            return Ok(Vec::new());
        }
        let n = self.registry.our_bitfield().total_pieces();
        let bitfield = match Bitfield::from_bytes(payload, n) {
            Ok(b) => b,
            Err(e) => {
                return Err(e);
            },
        };
        let before = match self.registry.get_peer(peer_id) {
            Some(p) => p.am_interested,
            None => InterestState::Interested,
        };
        self.registry.remote_bitfield(peer_id, bitfield);
        proof {
            crate::peer::manager::lemma_position_stable(
                old(self)@.registry.peers,
                self@.registry.peers,
                peer_id@,
            );
        }
        Ok(Swarm::interest_answer(before, self.registry.get_peer(peer_id), peer_id))
    }

    /// Takes a Request of a peer: the block is queued for upload if the
    /// peer may be served and the block is one that we can send; else the
    /// request is passed over.
    pub fn on_request(&mut self, peer_id: &PeerId, block: BlockRequest)
        requires
            old(self).wf(),
        ensures
            final(self).wf(),
            final(self).files.info() == old(self).files.info(),
            final(self)@ == (SwarmView {
                uploads: if servable(old(self)@, old(self).files.info(), peer_id@, block) {
                    old(self)@.uploads.push(UploadEntry { peer_id: *peer_id, block })
                } else {
                    old(self)@.uploads
                },
                ..old(self)@
            }),
    {
        let allowed = match self.registry.get_peer(peer_id) {
            Some(p) => p.can_upload(),
            None => false,
        };
        if !allowed || block.length == 0 || block.length > MAX_BLOCK_LENGTH {
            return;
        }
        proof {
            self.files.lemma_wf();
        }
        if !self.files.torrent_info().is_valid_piece_index(block.piece_index)
            || !self.files.piece_manager().has_piece(block.piece_index) {
            return;
        }
        let size = self.files.torrent_info().piece_size(block.piece_index);
        if block.offset as u64 + block.length as u64 > size as u64 {
            return;
        }
        self.uploads.push(*peer_id, block);
    }

    /// Takes a Cancel of a peer: the block no longer waits to be sent.
    pub fn on_cancel(&mut self, peer_id: &PeerId, block: BlockRequest)
        requires
            old(self).wf(),
        ensures
            final(self).wf(),
            final(self).files.info() == old(self).files.info(),
            final(self)@ == (SwarmView {
                uploads: if entry_of(old(self)@.uploads, peer_id@, block)
                    < old(self)@.uploads.len() {
                    old(self)@.uploads.remove(entry_of(old(self)@.uploads, peer_id@, block))
                } else {
                    old(self)@.uploads
                },
                ..old(self)@
            }),
    {
        self.uploads.cancel(peer_id, block);
    }

    /// The Cancel messages for requests that are called off.
    fn cancel_messages(cancels: &Vec<RequestCommand>) -> (outgoing: Vec<Outgoing>)
        ensures
            sent(outgoing@) == cancel_frames(cancels@),
    {
        let mut outgoing: Vec<Outgoing> = Vec::new();
        let mut q: usize = 0;
        while q < cancels.len()
            invariant
                q <= cancels@.len(),
                sent(outgoing@) == cancel_frames(cancels@.take(q as int)),
            decreases cancels@.len() - q,
        {
            let c = cancels[q];
            let ghost before = sent(outgoing@);
            outgoing.push(
                Outgoing {
                    peer_id: c.peer_id,
                    message: Message::cancel(c.block.piece_index, c.block.offset, c.block.length),
                },
            );
            assert(sent(outgoing@) =~= before.push(cancel_frame(c)));
            assert(cancel_frames(cancels@.take(q + 1)) =~= cancel_frames(cancels@.take(q as int)).push(
                cancel_frame(c),
            ));
            q += 1;
        }
        assert(cancels@.take(q as int) =~= cancels@);
        outgoing
    }

    /// Puts a Have message for every peer that is ready behind the messages
    /// to send.
    fn announce(&self, piece_index: PieceIndex, outgoing: &mut Vec<Outgoing>)
        ensures
            sent(final(outgoing)@) == sent(old(outgoing)@) + have_frames(
                self@.registry.peers,
                piece_index,
                self@.registry.peers.len() as int,
            ),
    {
        let peers = self.registry.peers();
        let ghost before = sent(outgoing@);
        let mut k: usize = 0;
        assert(before + have_frames(peers@, piece_index, 0) =~= before);
        while k < peers.len()
            invariant
                k <= peers@.len(),
                peers@ == self@.registry.peers,
                sent(outgoing@) == before + have_frames(peers@, piece_index, k as int),
            decreases peers@.len() - k,
        {
            if peers[k].state == PeerState::Ready {
                let ghost so_far = sent(outgoing@);
                outgoing.push(Outgoing { peer_id: peers[k].id, message: Message::have(piece_index) });
                assert(sent(outgoing@) =~= so_far.push(
                    Sent {
                        peer_id: peers@[k as int].id,
                        frame: Frame { kind: MessageType::Have, payload: u32_be(piece_index) },
                    },
                ));
            }
            assert(sent(outgoing@) =~= before + have_frames(peers@, piece_index, k + 1));
            k += 1;
        }
    }

    /// Takes a Piece of a peer at `now`: the block goes to the scheduler;
    /// the requests for the same block that other peers owe us are called
    /// off; and once the piece is whole it goes to the store. A piece that
    /// the store accepts is ours from then on, and every peer that is ready
    /// is told so; one that the store turns away, for its bytes or for want
    /// of room in memory, is forgotten, so that its blocks are asked for
    /// again.
    pub fn on_piece(
        &mut self,
        peer_id: &PeerId,
        piece_index: PieceIndex,
        offset: u32,
        data: &[u8],
        now: u64,
    ) -> (outgoing: Vec<Outgoing>)
        requires
            old(self).wf(),
        ensures
            final(self).wf(),
            final(self).files.info() == old(self).files.info(),
            piece_taken(
                old(self)@,
                old(self).files.info(),
                peer_id@,
                piece_index,
                offset,
                data@,
                now,
                sent(outgoing@),
                final(self)@,
            ),
    {
        let ghost v = self@;
        let ghost info = self.files.info();
        let report = self.scheduler.block_received(
            &mut self.registry,
            peer_id,
            piece_index,
            offset,
            data,
            now,
        );
        let ghost rep = report;
        let ghost v1 = self.registry@;
        let ghost s1 = self.scheduler@;
        let BlockReport { outcome, cancels } = report;
        let mut outgoing = Swarm::cancel_messages(&cancels);
        proof {
            self.files.lemma_wf();
        }
        match outcome {
            BlockOutcome::PieceReady { piece_index: whole, data: bytes } => {
                let ghost body = bytes@;
                match self.files.submit_piece(whole, bytes) {
                    Ok(SubmitOutcome::Accepted) => {
                        self.scheduler.piece_completed(&mut self.registry, whole);
                        self.announce(whole, &mut outgoing);
                        proof {
                            self.files.lemma_wf();
                            crate::file::piece_manager::lemma_put_consistent(
                                v.store,
                                whole,
                                body,
                                false,
                            );
                            assert(piece_settled(
                                v,
                                info,
                                rep,
                                v1,
                                s1,
                                sent(outgoing@),
                                self@,
                            ));
                        }
                    },
                    _ => {
                        proof {
                            self.files.lemma_wf();
                            assert(piece_settled(v, info, rep, v1, s1, sent(outgoing@), self@));
                        }
                    },
                }
            },
            _ => {
                proof {
                    assert(piece_settled(v, info, rep, v1, s1, sent(outgoing@), self@));
                }
            },
        }
        outgoing
    }

    /// Whether the block of an entry is still to be sent; see `live`.
    fn is_live(&self, entry: &UploadEntry) -> (waits: bool)
        requires
            self.wf(),
        ensures
            waits == live(self@, self.files.info(), *entry),
    {
        let allowed = match self.registry.get_peer(&entry.peer_id) {
            Some(p) => p.can_upload(),
            None => false,
        };
        proof {
            self.files.lemma_wf();
        }
        if !allowed || !self.files.torrent_info().is_valid_piece_index(entry.block.piece_index)
            || !self.files.piece_manager().has_piece(entry.block.piece_index) {
            return false;
        }
        let size = self.files.torrent_info().piece_size(entry.block.piece_index);
        entry.block.offset as u64 + entry.block.length as u64 <= size as u64
    }

    /// What is to be done next, at `now`, for the blocks that peers asked
    /// of us. The blocks are taken in the order in which they were asked
    /// for. A block is passed over for good if its peer may not be served
    /// now, or if it is not inside a piece that we have. The first of the
    /// others is sent, and counted for its peer, where the body of its piece
    /// is in memory. Where it is not, the block stays where it is in the
    /// queue, and the piece is named for the caller to read it back from
    /// the files.
    pub fn next_upload(&mut self, now: u64) -> (step: UploadStep)
        requires
            old(self).wf(),
        ensures
            final(self).wf(),
            final(self).files.info() == old(self).files.info(),
            upload_made(old(self)@, old(self).files.info(), now, step@, final(self)@),
    {
        let ghost v = self@;
        let ghost info = self.files.info();
        let ghost mut j: int = 0;
        proof {
            self.files.lemma_wf();
            assert(v.uploads.skip(0) =~= v.uploads);
        }
        loop
            invariant
                self.wf(),
                self.files.info() == info,
                info == old(self).files.info(),
                v == old(self)@,
                v.valid(),
                0 <= j <= v.uploads.len(),
                self@ == (SwarmView { uploads: v.uploads.skip(j), ..v }),
                forall|i: int| 0 <= i < j ==> !live(v, info, #[trigger] v.uploads[i]),
            decreases v.uploads.len() - j,
        {
            let entry = match self.uploads.first() {
                Some(entry) => entry,
                None => {
                    proof {
                        assert(j == v.uploads.len());
                        assert(self@.uploads =~= Seq::<UploadEntry>::empty());
                        lemma_first_live_is(v, info, v.uploads.len() as int);
                    }
                    return UploadStep::Idle;
                },
            };
            assert(entry == v.uploads[j]);
            if self.is_live(&entry) {
                proof {
                    assert(live(v, info, v.uploads[j]));
                    lemma_first_live_is(v, info, j);
                    self.files.lemma_wf();
                    self.files.lemma_accepted_whole(entry.block.piece_index);
                    if v.store.bodies[entry.block.piece_index as int] is None {
                        crate::file::piece_manager::lemma_touch_absent(
                            v.store,
                            entry.block.piece_index,
                        );
                    }
                }
                match self.files.piece_data(entry.block.piece_index) {
                    Some(bytes) => {
                        self.uploads.pop();
                        let size = bytes.len();
                        proof {
                            self.files.lemma_wf();
                            assert(v.uploads.skip(j).skip(1) =~= v.uploads.skip(j + 1));
                            assert(bytes@ == v.store.bodies[entry.block.piece_index as int]->0);
                            assert(whole(info, entry.block.piece_index, bytes@));
                            assert(entry.block.offset + entry.block.length <= size);
                        }
                        let part = vstd::slice::slice_to_vec(
                            vstd::slice::slice_subrange(
                                bytes.as_slice(),
                                entry.block.offset as usize,
                                entry.block.offset as usize + entry.block.length as usize,
                            ),
                        );
                        let message = Message::piece(
                            entry.block.piece_index,
                            entry.block.offset,
                            part,
                        );
                        self.registry.record_upload(&entry.peer_id, entry.block.length as u64, now);
                        return UploadStep::Send(Outgoing { peer_id: entry.peer_id, message });
                    },
                    None => {
                        return UploadStep::Fetch(entry.block.piece_index);
                    },
                }
            }
            self.uploads.pop();
            proof {
                assert(v.uploads.skip(j).skip(1) =~= v.uploads.skip(j + 1));
                j = j + 1;
            }
        }
    }

    /// Takes a message that a peer sent in a session, at `now`. A session
    /// that is not ready takes no messages: that is an invalid transition,
    /// and nothing changes. Else the session notes the message, the message
    /// is taken by its kind, and the peer counts as heard from; a message
    /// whose payload cannot be read, or that names a piece or bits outside
    /// the torrent, is an error and changes nothing else. Handed back is what
    /// is to be sent in answer.
    pub fn handle_message(
        &mut self,
        session: &mut PeerSession,
        peer_id: &PeerId,
        message: &Message,
        now: u64,
    ) -> (r: Result<Vec<Outgoing>, TorrentError>)
        requires
            old(self).wf(),
        ensures
            final(self).wf(),
            final(self).files.info() == old(self).files.info(),
            old(session).state != SessionState::Ready ==> answered(r) == Err::<
                Seq<Sent>,
                TorrentError,
            >(TorrentError::Peer(crate::common::error::PeerError::InvalidStateTransition))
                && final(self)@ == old(self)@ && *final(session) == *old(session),
            old(session).state == SessionState::Ready ==> {
                &&& *final(session) == (PeerSession {
                    last_received: now,
                    messages_received: if old(session).messages_received < u64::MAX {
                        (old(session).messages_received + 1) as u64
                    } else {
                        u64::MAX
                    },
                    ..*old(session)
                })
                &&& exists|mid: SwarmView|
                    {
                        &&& message_effect(
                            old(self)@,
                            old(self).files.info(),
                            *peer_id,
                            message@,
                            old(session).messages_received == 0,
                            now,
                            answered(r),
                            mid,
                        )
                        &&& #[trigger] heard_if(r is Ok, mid, peer_id@, now, final(self)@)
                    }
            },
    {
        if session.state != SessionState::Ready {
            return Err(
                TorrentError::Peer(crate::common::error::PeerError::InvalidStateTransition),
            );
        }
        let ghost v = self@;
        let ghost info = self.files.info();
        let first = session.note_received(now);
        let r: Result<Vec<Outgoing>, TorrentError> = match message.message_type {
            MessageType::Choke => {
                self.on_choke(peer_id);
                Ok(Vec::new())
            },
            MessageType::Unchoke => {
                self.on_unchoke(peer_id);
                Ok(Vec::new())
            },
            MessageType::Interested => {
                self.on_interest(peer_id, InterestState::Interested);
                Ok(Vec::new())
            },
            MessageType::NotInterested => {
                self.on_interest(peer_id, InterestState::NotInterested);
                Ok(Vec::new())
            },
            MessageType::Have => match message.parse_have() {
                Ok(piece_index) => self.on_have(peer_id, piece_index),
                Err(e) => Err(e),
            },
            MessageType::Bitfield => match message.parse_bitfield() {
                Ok(payload) => self.on_bitfield(peer_id, payload.as_slice(), first),
                Err(e) => Err(e),
            },
            MessageType::Request => match message.parse_request() {
                Ok((piece_index, offset, length)) => {
                    self.on_request(peer_id, BlockRequest { piece_index, offset, length });
                    Ok(Vec::new())
                },
                Err(e) => Err(e),
            },
            MessageType::Piece => match message.parse_piece() {
                Ok((piece_index, offset, data)) => Ok(
                    self.on_piece(peer_id, piece_index, offset, data.as_slice(), now),
                ),
                Err(e) => Err(e),
            },
            MessageType::Cancel => match message.parse_cancel() {
                Ok((piece_index, offset, length)) => {
                    self.on_cancel(peer_id, BlockRequest { piece_index, offset, length });
                    Ok(Vec::new())
                },
                Err(e) => Err(e),
            },
            MessageType::Port => match message.parse_port() {
                Ok(_) => Ok(Vec::new()),
                Err(e) => Err(e),
            },
            MessageType::KeepAlive => Ok(Vec::new()),
        };
        let ghost mid = self@;
        proof {
            if r is Ok && r->Ok_0@.len() == 0 {
                assert(sent(r->Ok_0@) =~= Seq::<Sent>::empty());
            }
            assert(message_effect(v, info, *peer_id, message@, first, now, answered(r), mid));
        }
        if r.is_ok() {
            self.registry.record_download(peer_id, 0, now);
        }
        assert(heard_if(r is Ok, mid, peer_id@, now, self@));
        r
    }

    /// The Bitfield message that opens a session: our pieces, packed; none
    /// while we have no piece.
    pub fn opening_bitfield(&self) -> (message: Option<Message>)
        ensures
            match message {
                Some(m) => crate::common::bits::count_true(self@.registry.ours) > 0 && m.message_type
                    == MessageType::Bitfield && crate::common::bitfield::packed(
                    self@.registry.ours,
                    m.payload@,
                ),
                None => crate::common::bits::count_true(self@.registry.ours) == 0,
            },
    {
        let ours = self.registry.our_bitfield();
        if ours.count_pieces() == 0 {
            None
        } else {
            let bytes = ours.to_bytes();
            Some(Message::bitfield(bytes.as_slice()))
        }
    }

    /// Takes the bytes of a piece as they were read back from the files.
    /// Bytes of the piece's size and hash are kept in memory where room can
    /// be made, and the piece is ours as before or from now on. Any others
    /// show that the piece is bad on disk: it is no longer ours, and will
    /// be asked for again. Says whether the bytes were accepted; a piece
    /// outside the torrent changes nothing.
    pub fn piece_read_back(&mut self, piece_index: PieceIndex, data: Vec<u8>) -> (accepted: bool)
        requires
            old(self).wf(),
        ensures
            final(self).wf(),
            final(self).files.info() == old(self).files.info(),
            accepted == (piece_index < old(self)@.store.hashes.len() && whole(
                old(self).files.info(),
                piece_index,
                data@,
            ) && crate::common::digest::sha1_of(data@)
                == old(self)@.store.hashes[piece_index as int]),
            final(self)@.uploads == old(self)@.uploads,
            final(self)@.scheduler == old(self)@.scheduler,
            final(self)@.store == if piece_index >= old(self)@.store.hashes.len() {
                old(self)@.store
            } else if accepted {
                old(self)@.store.put(piece_index, data@, true)
            } else {
                old(self)@.store.without(piece_index)
            },
            final(self)@.registry == (RegistryView {
                peers: final(self)@.registry.peers,
                ours: final(self)@.store.have,
                ..old(self)@.registry
            }),
            final(self)@.registry.peers.len() == old(self)@.registry.peers.len(),
            forall|k: int|
                0 <= k < old(self)@.registry.peers.len() ==> {
                    let p = #[trigger] final(self)@.registry.peers[k];
                    &&& p.same_but_bitfield(&old(self)@.registry.peers[k])
                    &&& p.bitfield@ == old(self)@.registry.peers[k].bitfield@
                    &&& p.am_interested == if p.worth_asking(final(self)@.registry.ours) {
                        InterestState::Interested
                    } else {
                        InterestState::NotInterested
                    }
                },
    {
        let ghost v = self@;
        proof {
            self.files.lemma_wf();
        }
        let accepted = self.files.read_back(piece_index, data);
        proof {
            self.files.lemma_wf();
            if piece_index < v.store.hashes.len() {
                if accepted {
                    crate::file::piece_manager::lemma_put_consistent(
                        v.store,
                        piece_index,
                        data@,
                        true,
                    );
                } else {
                    crate::file::piece_manager::lemma_without_consistent(v.store, piece_index);
                }
            }
        }
        if accepted {
            self.registry.completed_piece(piece_index);
        } else {
            self.registry.lost_piece(piece_index);
        }
        proof {
            assert(self@.registry.ours =~= self@.store.have);
        }
        accepted
    }

    /// Decides on the next request at `now` and makes a Request message of
    /// it; see `PieceScheduler::next_request`.
    pub fn next_request(&mut self, now: u64, random: u64) -> (outgoing: Option<Outgoing>)
        requires
            old(self).wf(),
        ensures
            final(self).wf(),
            final(self).files.info() == old(self).files.info(),
            final(self)@.store == old(self)@.store,
            final(self)@.uploads == old(self)@.uploads,
            match outgoing {
                Some(o) => exists|c: RequestCommand|
                    {
                        &&& #[trigger] request_made(
                            old(self)@.registry,
                            old(self)@.scheduler,
                            now,
                            random,
                            c,
                            final(self)@.registry,
                            final(self)@.scheduler,
                        )
                        &&& o.peer_id == c.peer_id
                        &&& o.message@ == (Frame {
                            kind: MessageType::Request,
                            payload: u32_be(c.block.piece_index) + u32_be(c.block.offset) + u32_be(
                                c.block.length,
                            ),
                        })
                    },
                None => crate::peer::scheduler::none_eligible(
                    old(self)@.registry,
                    old(self)@.scheduler,
                ) && final(self)@ == old(self)@,
            },
    {
        match self.scheduler.next_request(&mut self.registry, now, random) {
            Some(c) => {
                let message = Message::request(c.block.piece_index, c.block.offset, c.block.length);
                Some(Outgoing { peer_id: c.peer_id, message })
            },
            None => None,
        }
    }

    /// Gives up the requests made longer ago than the request timeout
    /// allows: their blocks wait to be asked for again, and each peer is
    /// told with a Cancel message that its request is called off.
    pub fn expire_requests(&mut self, now: u64) -> (outgoing: Vec<Outgoing>)
        requires
            old(self).wf(),
        ensures
            final(self).wf(),
            final(self).files.info() == old(self).files.info(),
            final(self)@.store == old(self)@.store,
            final(self)@.uploads == old(self)@.uploads,
            sent(outgoing@) == expiry_frames(
                crate::peer::manager::overdue_of(
                    old(self)@.registry.peers,
                    now,
                    old(self)@.scheduler.config.request_timeout,
                ),
            ),
            final(self)@.scheduler == (SchedulerView {
                requeued: old(self)@.scheduler.requeued + Seq::new(
                    outgoing@.len(),
                    |q: int|
                        block_of_request(
                            crate::peer::manager::overdue_of(
                                old(self)@.registry.peers,
                                now,
                                old(self)@.scheduler.config.request_timeout,
                            )[q].1,
                        ),
                ),
                ..old(self)@.scheduler
            }),
            final(self)@.registry == (RegistryView {
                peers: final(self)@.registry.peers,
                ..old(self)@.registry
            }),
            final(self)@.registry.peers.len() == old(self)@.registry.peers.len(),
            forall|k: int|
                0 <= k < old(self)@.registry.peers.len() ==> (
                #[trigger] final(self)@.registry.peers[k]).same_but_requests(
                    &old(self)@.registry.peers[k],
                ) && final(self)@.registry.peers[k].pending_requests@
                    == old(self)@.registry.peers[k].pending_requests@.filter(
                    |r: PendingRequest|
                        !crate::peer::peer::overdue(
                            r,
                            now,
                            old(self)@.scheduler.config.request_timeout,
                        ),
                ),
    {
        let expired = self.scheduler.expire(&mut self.registry, now);
        let mut outgoing: Vec<Outgoing> = Vec::new();
        let mut q: usize = 0;
        while q < expired.len()
            invariant
                q <= expired@.len(),
                sent(outgoing@) == expiry_frames(expired@.take(q as int)),
                outgoing@.len() == q,
            decreases expired@.len() - q,
        {
            let (peer_id, r) = expired[q];
            let ghost before = sent(outgoing@);
            outgoing.push(
                Outgoing { peer_id, message: Message::cancel(r.piece_index, r.offset, r.length) },
            );
            assert(sent(outgoing@) =~= before.push(expiry_frame(expired@[q as int])));
            assert(expiry_frames(expired@.take(q + 1)) =~= expiry_frames(expired@.take(q as int)).push(
                expiry_frame(expired@[q as int]),
            ));
            q += 1;
        }
        assert(expired@.take(q as int) =~= expired@);
        outgoing
    }

    /// Makes a round of choking at `now`, as `PeerManager::choking_round`
    /// does, and makes Choke and Unchoke messages of what is to be told.
    /// The blocks that were asked of us by peers that we choke after the
    /// round no longer wait to be sent.
    pub fn choking_round(&mut self, now: u64, random: u64) -> (outgoing: Vec<Outgoing>)
        requires
            old(self).wf(),
        ensures
            final(self).wf(),
            final(self).files.info() == old(self).files.info(),
            final(self)@.store == old(self)@.store,
            final(self)@.scheduler == old(self)@.scheduler,
            final(self)@.uploads == old(self)@.uploads.filter(
                |e: UploadEntry| served_by_us(final(self)@.registry, e),
            ),
            exists|commands: Seq<ChokeCommand>|
                {
                    &&& #[trigger] round_made(
                        old(self)@.registry,
                        now,
                        random,
                        final(self)@.registry,
                        commands,
                    )
                    &&& sent(outgoing@) == choke_frames(commands)
                },
    {
        let commands = self.registry.choking_round(now, random);
        let mut outgoing: Vec<Outgoing> = Vec::new();
        let mut q: usize = 0;
        while q < commands.len()
            invariant
                q <= commands@.len(),
                sent(outgoing@) == choke_frames(commands@.take(q as int)),
            decreases commands@.len() - q,
        {
            let c = commands[q];
            let message = match c.choking {
                ChokingState::Choked => Message::choke(),
                ChokingState::Unchoked => Message::unchoke(),
            };
            let ghost before = sent(outgoing@);
            outgoing.push(Outgoing { peer_id: c.peer_id, message });
            assert(sent(outgoing@) =~= before.push(choke_frame(c)));
            assert(choke_frames(commands@.take(q + 1)) =~= choke_frames(commands@.take(q as int)).push(
                choke_frame(c),
            ));
            q += 1;
        }
        assert(commands@.take(q as int) =~= commands@);
        self.uploads.retain_served(&self.registry);
        outgoing
    }
}

/// What a Choke of a peer does to a swarm.
pub open spec fn choke_taken(v: SwarmView, peer: Seq<u8>, after: SwarmView) -> bool {
    let k = position_of(v.registry.peers, peer);
    &&& after.store == v.store
    &&& after.uploads == v.uploads
    &&& after.scheduler == SchedulerView {
        requeued: v.scheduler.requeued + blocks_of(
            if k < v.registry.peers.len() {
                v.registry.peers[k].pending_requests@
            } else {
                Seq::empty()
            },
        ),
        ..v.scheduler
    }
    &&& if k >= v.registry.peers.len() {
        after.registry == v.registry
    } else {
        &&& changed_at(v.registry, after.registry, k)
        &&& after.registry.peers[k].pending_requests@ == Seq::<PendingRequest>::empty()
        &&& after.registry.peers[k].peer_choking == ChokingState::Choked
        &&& after.registry.peers[k].same_but_flow(&v.registry.peers[k])
        &&& after.registry.peers[k].am_choking == v.registry.peers[k].am_choking
        &&& after.registry.peers[k].am_interested == v.registry.peers[k].am_interested
        &&& after.registry.peers[k].peer_interested == v.registry.peers[k].peer_interested
    }
}

/// What a message that sets a flow bit of the remote side does to a swarm,
/// but for the bit itself: a peer that is not in the registry changes
/// nothing; else only the peer changes, and keeps what it owes us, our own
/// two flow bits and all else.
pub open spec fn flow_set(v: SwarmView, peer: Seq<u8>, after: SwarmView) -> bool {
    let k = position_of(v.registry.peers, peer);
    &&& after.store == v.store
    &&& after.uploads == v.uploads
    &&& after.scheduler == v.scheduler
    &&& if k >= v.registry.peers.len() {
        after.registry == v.registry
    } else {
        &&& changed_at(v.registry, after.registry, k)
        &&& after.registry.peers[k].pending_requests@ == v.registry.peers[k].pending_requests@
        &&& after.registry.peers[k].same_but_flow(&v.registry.peers[k])
        &&& after.registry.peers[k].am_choking == v.registry.peers[k].am_choking
        &&& after.registry.peers[k].am_interested == v.registry.peers[k].am_interested
    }
}

/// Our interest in a peer, if the peer is in the registry; interest where
/// it is not.
pub open spec fn am_interested_in(v: RegistryView, peer: Seq<u8>) -> InterestState {
    let k = position_of(v.peers, peer);
    if k < v.peers.len() {
        v.peers[k].am_interested
    } else {
        InterestState::Interested
    }
}

/// Our interest in a peer, if the peer is in the registry.
pub open spec fn interest_after(v: RegistryView, peer: Seq<u8>) -> Option<InterestState> {
    let k = position_of(v.peers, peer);
    if k < v.peers.len() {
        Some(v.peers[k].am_interested)
    } else {
        None
    }
}

/// What is to be sent when our interest in a peer may have changed: an
/// Interested message where we were not interested and are now.
pub open spec fn interest_news(before: InterestState, after: Option<InterestState>, peer: PeerId) -> Seq<
    Sent,
> {
    if before == InterestState::NotInterested && after == Some(InterestState::Interested) {
        seq![
            Sent { peer_id: peer, frame: Frame { kind: MessageType::Interested, payload: Seq::empty() } },
        ]
    } else {
        Seq::empty()
    }
}

/// What it does to a swarm that the pieces known of a peer become `bits`:
/// a peer that is not in the registry changes nothing; else only the peer
/// changes, in its pieces and in our interest, which it has exactly if it
/// has a piece that we lack.
pub open spec fn pieces_set(v: SwarmView, peer: Seq<u8>, bits: Seq<bool>, after: SwarmView) -> bool {
    let k = position_of(v.registry.peers, peer);
    &&& after.store == v.store
    &&& after.uploads == v.uploads
    &&& after.scheduler == v.scheduler
    &&& if k >= v.registry.peers.len() {
        after.registry == v.registry
    } else {
        &&& changed_at(v.registry, after.registry, k)
        &&& after.registry.peers[k].bitfield@ == bits
        &&& after.registry.peers[k].am_interested == if after.registry.peers[k].worth_asking(
            v.registry.ours,
        ) {
            InterestState::Interested
        } else {
            InterestState::NotInterested
        }
        &&& after.registry.peers[k].same_but_bitfield(&v.registry.peers[k])
    }
}

/// What a Have of a peer for a piece of the torrent does to a swarm.
pub open spec fn have_taken(v: SwarmView, peer: Seq<u8>, piece: PieceIndex, after: SwarmView) -> bool {
    let k = position_of(v.registry.peers, peer);
    pieces_set(
        v,
        peer,
        if k < v.registry.peers.len() {
            v.registry.peers[k].bitfield@.update(piece as int, true)
        } else {
            Seq::empty()
        },
        after,
    )
}

/// What a first Bitfield of a peer does to a swarm.
pub open spec fn bitfield_taken(v: SwarmView, peer: Seq<u8>, bits: Seq<bool>, after: SwarmView) -> bool {
    pieces_set(v, peer, bits, after)
}

/// Whether a block that a peer asks for is queued: the peer is ready, we do
/// not choke it and it is interested; and the block is not empty, no longer
/// than the largest block, and inside a piece that we have.
pub open spec fn servable(
    v: SwarmView,
    info: crate::common::types::TorrentInfo,
    peer: Seq<u8>,
    block: BlockRequest,
) -> bool {
    let k = position_of(v.registry.peers, peer);
    &&& k < v.registry.peers.len()
    &&& v.registry.peers[k].may_upload()
    &&& 0 < block.length <= MAX_BLOCK_LENGTH
    &&& block.piece_index < v.store.have.len()
    &&& v.store.have[block.piece_index as int]
    &&& block.offset + block.length <= info.spec_piece_size(block.piece_index)
}

/// The Cancel message for a request that is called off.
pub open spec fn cancel_frame(c: RequestCommand) -> Sent {
    Sent {
        peer_id: c.peer_id,
        frame: Frame {
            kind: MessageType::Cancel,
            payload: u32_be(c.block.piece_index) + u32_be(c.block.offset) + u32_be(c.block.length),
        },
    }
}

/// The Cancel messages for requests that are called off, in their order.
pub open spec fn cancel_frames(cancels: Seq<RequestCommand>) -> Seq<Sent> {
    Seq::new(cancels.len(), |q: int| cancel_frame(cancels[q]))
}

/// The Have messages for a piece to the first `n` peers, one for each that
/// is ready, in the order of the peers.
pub open spec fn have_frames(peers: Seq<Peer>, piece: PieceIndex, n: int) -> Seq<Sent>
    decreases n,
{
    if n <= 0 {
        Seq::empty()
    } else if peers[n - 1].state == PeerState::Ready {
        have_frames(peers, piece, n - 1).push(
            Sent {
                peer_id: peers[n - 1].id,
                frame: Frame { kind: MessageType::Have, payload: u32_be(piece) },
            },
        )
    } else {
        have_frames(peers, piece, n - 1)
    }
}

/// Whether the store accepts bytes that came from peers for a piece: the
/// piece is one of the torrent, the bytes have its size and its hash, and
/// room can be made for them in memory.
pub open spec fn accepts(
    v: StoreView,
    info: crate::common::types::TorrentInfo,
    piece: PieceIndex,
    data: Seq<u8>,
) -> bool {
    &&& piece < v.hashes.len()
    &&& whole(info, piece, data)
    &&& crate::common::digest::sha1_of(data) == v.hashes[piece as int]
    &&& has_room(v.cache, piece, v.capacity)
}

/// What it does to registry and scheduler that a piece is ours now: we have
/// it, one more piece is completed, and our interest in each peer is as its
/// pieces and ours say.
pub open spec fn piece_done(
    v: RegistryView,
    s: SchedulerView,
    piece: PieceIndex,
    v_after: RegistryView,
    s_after: SchedulerView,
) -> bool {
    &&& s_after == SchedulerView {
        completed: if s.completed < usize::MAX {
            s.completed + 1
        } else {
            s.completed
        },
        ..s
    }
    &&& v_after == RegistryView {
        peers: v_after.peers,
        ours: if piece < v.ours.len() {
            v.ours.update(piece as int, true)
        } else {
            v.ours
        },
        ..v
    }
    &&& v_after.peers.len() == v.peers.len()
    &&& forall|k: int|
        0 <= k < v.peers.len() ==> {
            let p = #[trigger] v_after.peers[k];
            &&& p.same_but_bitfield(&v.peers[k])
            &&& p.bitfield@ == v.peers[k].bitfield@
            &&& p.am_interested == if p.worth_asking(v_after.ours) {
                InterestState::Interested
            } else {
                InterestState::NotInterested
            }
        }
}

/// What follows once the scheduler has taken a block, with `report` as what
/// it handed back and `v1` and `s1` as what it left of registry and
/// scheduler: a piece made whole goes to the store, and where the store
/// accepts it the piece is ours and is announced; in every other case only
/// the requests called off are to be told.
pub open spec fn piece_settled(
    v: SwarmView,
    info: crate::common::types::TorrentInfo,
    report: BlockReport,
    v1: RegistryView,
    s1: SchedulerView,
    outgoing: Seq<Sent>,
    after: SwarmView,
) -> bool {
    &&& after.uploads == v.uploads
    &&& match report.outcome {
        BlockOutcome::PieceReady { piece_index, data } => if accepts(
            v.store,
            info,
            piece_index,
            data@,
        ) {
            &&& after.store == v.store.put(piece_index, data@, false)
            &&& piece_done(v1, s1, piece_index, after.registry, after.scheduler)
            &&& outgoing == cancel_frames(report.cancels@) + have_frames(
                after.registry.peers,
                piece_index,
                after.registry.peers.len() as int,
            )
        } else {
            &&& after.store == v.store
            &&& after.registry == v1
            &&& after.scheduler == s1
            &&& outgoing == cancel_frames(report.cancels@)
        },
        _ => {
            &&& after.store == v.store
            &&& after.registry == v1
            &&& after.scheduler == s1
            &&& outgoing == cancel_frames(report.cancels@)
        },
    }
}

/// What a Piece of a peer does to a swarm, and what is to be sent for it.
pub open spec fn piece_taken(
    v: SwarmView,
    info: crate::common::types::TorrentInfo,
    sender: Seq<u8>,
    piece: PieceIndex,
    offset: u32,
    data: Seq<u8>,
    now: u64,
    outgoing: Seq<Sent>,
    after: SwarmView,
) -> bool {
    exists|report: BlockReport, v1: RegistryView, s1: SchedulerView|
        {
            &&& #[trigger] block_taken(
                v.registry,
                v.scheduler,
                sender,
                piece,
                offset,
                data,
                now,
                report,
                v1,
                s1,
            )
            &&& piece_settled(v, info, report, v1, s1, outgoing, after)
        }
}

/// A piece is announced only once the store has accepted it: where a Piece
/// of a peer has a Have message sent, the store has the piece, with bytes
/// of its size whose SHA-1 is the hash expected of it.
pub proof fn lemma_have_after_accept(
    v: SwarmView,
    info: crate::common::types::TorrentInfo,
    sender: Seq<u8>,
    piece: PieceIndex,
    offset: u32,
    data: Seq<u8>,
    now: u64,
    outgoing: Seq<Sent>,
    after: SwarmView,
    q: int,
)
    requires
        v.valid(),
        piece_taken(v, info, sender, piece, offset, data, now, outgoing, after),
        0 <= q < outgoing.len(),
        outgoing[q].frame.kind == MessageType::Have,
    ensures
        exists|announced: PieceIndex|
            {
                &&& outgoing[q].frame.payload == u32_be(announced)
                &&& announced < after.store.have.len()
                &&& #[trigger] after.store.have[announced as int]
                &&& after.store.accepted[announced as int] is Some
                &&& whole(info, announced, after.store.accepted[announced as int]->0)
                &&& crate::common::digest::sha1_of(after.store.accepted[announced as int]->0)
                    == after.store.hashes[announced as int]
            },
{
    let (report, v1, s1) = choose|report: BlockReport, v1: RegistryView, s1: SchedulerView|
        {
            &&& #[trigger] block_taken(
                v.registry,
                v.scheduler,
                sender,
                piece,
                offset,
                data,
                now,
                report,
                v1,
                s1,
            )
            &&& piece_settled(v, info, report, v1, s1, outgoing, after)
        };
    let cancels = cancel_frames(report.cancels@);
    if q < cancels.len() {
        assert(outgoing[q] == cancels[q]);
        assert(false);
    }
    match report.outcome {
        BlockOutcome::PieceReady { piece_index, data: bytes } => {
            lemma_have_frames(after.registry.peers, piece_index, after.registry.peers.len() as int);
            crate::file::piece_manager::lemma_put_consistent(v.store, piece_index, bytes@, false);
            assert(after.store.have[piece_index as int]);
        },
        _ => {},
    }
}

/// Every Have message for a piece says so.
pub proof fn lemma_have_frames(peers: Seq<Peer>, piece: PieceIndex, n: int)
    ensures
        forall|q: int|
            0 <= q < have_frames(peers, piece, n).len() ==> (#[trigger] have_frames(
                peers,
                piece,
                n,
            )[q]).frame == (Frame { kind: MessageType::Have, payload: u32_be(piece) }),
    decreases n,
{
    if n > 0 {
        lemma_have_frames(peers, piece, n - 1);
    }
}

/// Whether the peer of an entry may be served: it is in the registry,
/// ready, not choked by us, and interested.
pub open spec fn may_send(v: SwarmView, e: UploadEntry) -> bool {
    let k = position_of(v.registry.peers, e.peer_id@);
    k < v.registry.peers.len() && v.registry.peers[k].may_upload()
}

/// Whether the block of an entry is still to be sent: its peer may be
/// served, and the block is inside a piece that we have.
pub open spec fn live(v: SwarmView, info: crate::common::types::TorrentInfo, e: UploadEntry) -> bool {
    &&& may_send(v, e)
    &&& e.block.piece_index < v.store.have.len()
    &&& v.store.have[e.block.piece_index as int]
    &&& e.block.offset + e.block.length <= info.spec_piece_size(e.block.piece_index)
}

/// The position of the first entry whose block is still to be sent, or the
/// length where there is none.
pub open spec fn first_live(v: SwarmView, info: crate::common::types::TorrentInfo, from: int) -> int
    decreases v.uploads.len() - from,
{
    if from < 0 || from >= v.uploads.len() {
        v.uploads.len() as int
    } else if live(v, info, v.uploads[from]) {
        from
    } else {
        first_live(v, info, from + 1)
    }
}

/// A position before which no block is to be sent, and at which one is
/// unless it is the length, is what `first_live` finds.
pub proof fn lemma_first_live_is(v: SwarmView, info: crate::common::types::TorrentInfo, k: int)
    requires
        0 <= k <= v.uploads.len(),
        forall|i: int| 0 <= i < k ==> !live(v, info, #[trigger] v.uploads[i]),
        k < v.uploads.len() ==> live(v, info, v.uploads[k]),
    ensures
        first_live(v, info, 0) == k,
{
    lemma_first_live_from(v, info, k, 0);
}

proof fn lemma_first_live_from(
    v: SwarmView,
    info: crate::common::types::TorrentInfo,
    k: int,
    from: int,
)
    requires
        0 <= from <= k <= v.uploads.len(),
        forall|i: int| 0 <= i < k ==> !live(v, info, #[trigger] v.uploads[i]),
        k < v.uploads.len() ==> live(v, info, v.uploads[k]),
    ensures
        first_live(v, info, from) == k,
    decreases k - from,
{
    if from < k {
        assert(!live(v, info, v.uploads[from]));
        lemma_first_live_from(v, info, k, from + 1);
    }
}

/// What looking for the next block to upload does to a swarm, and what is
/// to be done. The entries before the first whose block is still to be sent
/// leave the queue. Where the body of that block's piece is in memory, the
/// block is sent: its entry leaves too, the body counts as used, and the
/// block is counted for its peer. Where it is not, the entry stays, nothing
/// else changes, and the piece is to be fetched.
pub open spec fn upload_made(
    v: SwarmView,
    info: crate::common::types::TorrentInfo,
    now: u64,
    step: UploadStepView,
    after: SwarmView,
) -> bool {
    let at = first_live(v, info, 0);
    &&& after.scheduler == v.scheduler
    &&& if at >= v.uploads.len() {
        &&& step == UploadStepView::Idle
        &&& after.uploads == Seq::<UploadEntry>::empty()
        &&& after.registry == v.registry
        &&& after.store == v.store
    } else {
        let e = v.uploads[at];
        let k = position_of(v.registry.peers, e.peer_id@);
        let p = v.registry.peers[k];
        match v.store.bodies[e.block.piece_index as int] {
            None => {
                &&& step == UploadStepView::Fetch(e.block.piece_index)
                &&& after.uploads == v.uploads.skip(at)
                &&& after.registry == v.registry
                &&& after.store == v.store
            },
            Some(body) => {
                &&& step == UploadStepView::Send(
                    Sent {
                        peer_id: e.peer_id,
                        frame: Frame {
                            kind: MessageType::Piece,
                            payload: u32_be(e.block.piece_index) + u32_be(e.block.offset)
                                + body.subrange(
                                e.block.offset as int,
                                e.block.offset + e.block.length,
                            ),
                        },
                    },
                )
                &&& after.uploads == v.uploads.skip(at + 1)
                &&& after.store == StoreView {
                    cache: cache_touch(v.store.cache, e.block.piece_index),
                    ..v.store
                }
                &&& changed_at(v.registry, after.registry, k)
                &&& after.registry.peers[k].same_but_counters(&p)
                &&& after.registry.peers[k].uploaded == if p.uploaded + e.block.length
                    <= u64::MAX {
                    (p.uploaded + e.block.length) as u64
                } else {
                    u64::MAX
                }
                &&& after.registry.peers[k].last_sent == now
                &&& after.registry.peers[k].downloaded == p.downloaded
                &&& after.registry.peers[k].last_seen == p.last_seen
                &&& after.registry.peers[k].download_rate == p.download_rate
                &&& after.registry.peers[k].upload_rate == p.upload_rate
            },
        }
    }
}

/// A Piece message is sent only to a peer that is ready, that we do not
/// choke and that is interested; and what it carries is the block asked
/// for, out of bytes that the store has accepted for the piece: bytes of the
/// piece's hash.
pub proof fn lemma_upload_discipline(
    v: SwarmView,
    info: crate::common::types::TorrentInfo,
    now: u64,
    outgoing: Sent,
    after: SwarmView,
)
    requires
        v.valid(),
        crate::file::manager::all_whole(info, v.store.accepted),
        upload_made(v, info, now, UploadStepView::Send(outgoing), after),
    ensures
        ({
            let k = position_of(v.registry.peers, outgoing.peer_id@);
            &&& 0 <= k < v.registry.peers.len()
            &&& v.registry.peers[k].state == PeerState::Ready
            &&& v.registry.peers[k].am_choking == ChokingState::Unchoked
            &&& v.registry.peers[k].peer_interested == InterestState::Interested
        }),
        outgoing.frame.kind == MessageType::Piece,
        exists|piece: PieceIndex, offset: u32, length: u32|
            {
                &&& piece < v.store.have.len()
                &&& v.store.have[piece as int]
                &&& #[trigger] is_block_of(
                    outgoing.frame.payload,
                    v.store.accepted[piece as int],
                    piece,
                    offset,
                    length,
                )
                &&& crate::common::digest::sha1_of(v.store.accepted[piece as int]->0)
                    == v.store.hashes[piece as int]
            },
{
    let at = first_live(v, info, 0);
    lemma_first_live_bounds(v, info, 0);
    let e = v.uploads[at];
    crate::peer::manager::lemma_position_of(v.registry.peers, e.peer_id@);
    assert(is_block_of(
        outgoing.frame.payload,
        v.store.accepted[e.block.piece_index as int],
        e.block.piece_index,
        e.block.offset,
        e.block.length,
    ));
}

/// Whether a payload is that of a Piece message for a run of the bytes
/// accepted for a piece.
pub open spec fn is_block_of(
    payload: Seq<u8>,
    accepted: Option<Seq<u8>>,
    piece: PieceIndex,
    offset: u32,
    length: u32,
) -> bool {
    accepted matches Some(d) && offset + length <= d.len() && payload == u32_be(piece) + u32_be(
        offset,
    ) + d.subrange(offset as int, offset + length)
}

/// What `first_live` finds is a position from `from` on, of an entry whose
/// block is still to be sent unless it is the length.
pub proof fn lemma_first_live_bounds(v: SwarmView, info: crate::common::types::TorrentInfo, from: int)
    requires
        0 <= from,
    ensures
        from <= first_live(v, info, from) || first_live(v, info, from) == v.uploads.len(),
        first_live(v, info, from) <= v.uploads.len(),
        first_live(v, info, from) < v.uploads.len() ==> live(
            v,
            info,
            v.uploads[first_live(v, info, from)],
        ),
    decreases v.uploads.len() - from,
{
    if from < v.uploads.len() && !live(v, info, v.uploads[from]) {
        lemma_first_live_bounds(v, info, from + 1);
    }
}

/// What was handed back for a message, with the messages to send replaced
/// by what they are.
pub open spec fn answered(r: Result<Vec<Outgoing>, TorrentError>) -> Result<Seq<Sent>, TorrentError> {
    match r {
        Ok(outgoing) => Ok(sent(outgoing@)),
        Err(e) => Err(e),
    }
}

/// What it does to a swarm that a peer was heard from at `now`: the peer,
/// if it is in the registry, has that as the time it was last seen.
pub open spec fn heard(v: SwarmView, peer: Seq<u8>, now: u64, after: SwarmView) -> bool {
    let k = position_of(v.registry.peers, peer);
    &&& after.store == v.store
    &&& after.uploads == v.uploads
    &&& after.scheduler == v.scheduler
    &&& if k >= v.registry.peers.len() {
        after.registry == v.registry
    } else {
        let p = v.registry.peers[k];
        &&& changed_at(v.registry, after.registry, k)
        &&& after.registry.peers[k].same_but_counters(&p)
        &&& after.registry.peers[k].last_seen == now
        &&& after.registry.peers[k].downloaded == p.downloaded
        &&& after.registry.peers[k].uploaded == p.uploaded
        &&& after.registry.peers[k].last_sent == p.last_sent
        &&& after.registry.peers[k].download_rate == p.download_rate
        &&& after.registry.peers[k].upload_rate == p.upload_rate
    }
}

/// What follows the taking of a message: the peer was heard from if the
/// message was taken, and nothing more happens if it was refused.
pub open spec fn heard_if(taken: bool, v: SwarmView, peer: Seq<u8>, now: u64, after: SwarmView) -> bool {
    if taken {
        heard(v, peer, now, after)
    } else {
        after == v
    }
}

/// What a message of a peer does to a swarm by its kind, and what is handed
/// back for it; `first` says whether it is the first message of the peer.
pub open spec fn message_effect(
    v: SwarmView,
    info: crate::common::types::TorrentInfo,
    peer: PeerId,
    f: Frame,
    first: bool,
    now: u64,
    r: Result<Seq<Sent>, TorrentError>,
    after: SwarmView,
) -> bool {
    let k = position_of(v.registry.peers, peer@);
    let nothing = Ok::<Seq<Sent>, TorrentError>(Seq::empty());
    match f.kind {
        MessageType::Choke => r == nothing && choke_taken(v, peer@, after),
        MessageType::Unchoke => r == nothing && flow_set(v, peer@, after) && (k
            < v.registry.peers.len() ==> after.registry.peers[k].peer_choking
            == ChokingState::Unchoked && after.registry.peers[k].peer_interested
            == v.registry.peers[k].peer_interested),
        MessageType::Interested => r == nothing && flow_set(v, peer@, after) && (k
            < v.registry.peers.len() ==> after.registry.peers[k].peer_interested
            == InterestState::Interested && after.registry.peers[k].peer_choking
            == v.registry.peers[k].peer_choking),
        MessageType::NotInterested => r == nothing && flow_set(v, peer@, after) && (k
            < v.registry.peers.len() ==> after.registry.peers[k].peer_interested
            == InterestState::NotInterested && after.registry.peers[k].peer_choking
            == v.registry.peers[k].peer_choking),
        MessageType::Have => match have_of(f) {
            Ok(piece) => if piece < v.registry.ours.len() {
                have_taken(v, peer@, piece, after) && r == Ok::<Seq<Sent>, TorrentError>(
                    interest_news(
                        am_interested_in(v.registry, peer@),
                        interest_after(after.registry, peer@),
                        peer,
                    ),
                )
            } else {
                after == v && r == Err::<Seq<Sent>, TorrentError>(
                    TorrentError::Protocol(ProtocolError::InvalidPieceIndex { index: piece }),
                )
            },
            Err(e) => after == v && r == Err::<Seq<Sent>, TorrentError>(e),
        },
        MessageType::Bitfield => match bitfield_of(f) {
            Ok(payload) => if !first {
                after == v && r == nothing
            } else if crate::common::bitfield::stray_bit(payload, v.registry.ours.len()) {
                after == v && r == Err::<Seq<Sent>, TorrentError>(
                    TorrentError::Protocol(ProtocolError::InvalidBitfield),
                )
            } else {
                bitfield_taken(
                    v,
                    peer@,
                    crate::common::bitfield::unpacked(payload, v.registry.ours.len()),
                    after,
                ) && r == Ok::<Seq<Sent>, TorrentError>(
                    interest_news(
                        am_interested_in(v.registry, peer@),
                        interest_after(after.registry, peer@),
                        peer,
                    ),
                )
            },
            Err(e) => after == v && r == Err::<Seq<Sent>, TorrentError>(e),
        },
        MessageType::Request => match block_of(f, MessageType::Request) {
            Ok((piece_index, offset, length)) => r == nothing && after == (SwarmView {
                uploads: if servable(
                    v,
                    info,
                    peer@,
                    BlockRequest { piece_index, offset, length },
                ) {
                    v.uploads.push(
                        UploadEntry {
                            peer_id: peer,
                            block: BlockRequest { piece_index, offset, length },
                        },
                    )
                } else {
                    v.uploads
                },
                ..v
            }),
            Err(e) => after == v && r == Err::<Seq<Sent>, TorrentError>(e),
        },
        MessageType::Piece => match piece_of(f) {
            Ok((piece_index, offset, data)) => r is Ok && piece_taken(
                v,
                info,
                peer@,
                piece_index,
                offset,
                data,
                now,
                r->Ok_0,
                after,
            ),
            Err(e) => after == v && r == Err::<Seq<Sent>, TorrentError>(e),
        },
        MessageType::Cancel => match block_of(f, MessageType::Cancel) {
            Ok((piece_index, offset, length)) => r == nothing && after == (SwarmView {
                uploads: if entry_of(
                    v.uploads,
                    peer@,
                    BlockRequest { piece_index, offset, length },
                ) < v.uploads.len() {
                    v.uploads.remove(
                        entry_of(v.uploads, peer@, BlockRequest { piece_index, offset, length }),
                    )
                } else {
                    v.uploads
                },
                ..v
            }),
            Err(e) => after == v && r == Err::<Seq<Sent>, TorrentError>(e),
        },
        MessageType::Port => match port_of(f) {
            Ok(_) => after == v && r == nothing,
            Err(e) => after == v && r == Err::<Seq<Sent>, TorrentError>(e),
        },
        MessageType::KeepAlive => after == v && r == nothing,
    }
}

} // verus!
