//! One torrent on disk: its descriptor, its piece store, and where its
//! pieces lie in its files.

use crate::common::bits::MAX_PIECES;
use crate::common::error::ProtocolError;
use crate::common::error::TorrentError;
use crate::common::error::ValidationError;
use crate::common::types::total_length;
use crate::common::types::FileInfo;
use crate::common::types::PieceIndex;
use crate::common::types::TorrentInfo;
use crate::file::layout::file_spans;
use crate::file::layout::file_start;
use crate::file::layout::spans_of;
use crate::file::layout::FileSpan;
use crate::file::layout::gathered;
use crate::file::piece_manager::taken;
use crate::file::whole::apart;
use crate::file::whole::lemma_writes_read_back;
use crate::file::whole::sized;
use crate::file::whole::written;
use crate::file::whole::Run;
use crate::file::piece_manager::PieceManager;
use crate::file::piece_manager::StoreView;
use crate::file::piece_manager::SubmitOutcome;
use vstd::prelude::*;

verus! {

/// The bytes of the pieces below `n` that are present.
pub open spec fn have_bytes(info: TorrentInfo, have: Seq<bool>, n: nat) -> nat
    decreases n,
{
    if n == 0 {
        0
    } else {
        have_bytes(info, have, (n - 1) as nat) + if have[n - 1] {
            info.spec_piece_size((n - 1) as PieceIndex)
        } else {
            0
        }
    }
}

/// How many bytes two runs share, each given by where it begins and ends.
pub open spec fn overlap(a_start: nat, a_end: nat, b_start: nat, b_end: nat) -> nat {
    let start = if a_start >= b_start {
        a_start
    } else {
        b_start
    };
    let end = if a_end <= b_end {
        a_end
    } else {
        b_end
    };
    if start < end {
        (end - start) as nat
    } else {
        0
    }
}

/// The bytes of file `k` that lie in pieces below `n` that are present.
pub open spec fn file_have_bytes(info: TorrentInfo, have: Seq<bool>, k: int, n: nat) -> nat
    decreases n,
{
    if n == 0 {
        0
    } else {
        file_have_bytes(info, have, k, (n - 1) as nat) + if have[n - 1] {
            overlap(
                ((n - 1) * info.piece_length) as nat,
                ((n - 1) * info.piece_length) as nat + info.spec_piece_size((n - 1) as PieceIndex),
                file_start(info.files@, k),
                file_start(info.files@, k) + info.files@[k].length as nat,
            )
        } else {
            0
        }
    }
}

/// The hashes of a descriptor, each as its bytes.
pub open spec fn hashes_of(info: TorrentInfo) -> Seq<Seq<u8>> {
    Seq::new(info.pieces@.len(), |i: int| info.pieces@[i]@)
}

/// Whether bytes have the size of the piece that they are meant for.
pub open spec fn whole(info: TorrentInfo, piece: PieceIndex, data: Seq<u8>) -> bool {
    data.len() == info.spec_piece_size(piece)
}

/// What taking bytes for a piece of a torrent does and returns: bytes for a
/// piece of the torrent that have not the size of that piece are an error
/// and change nothing; all else is as the piece store takes it.
pub open spec fn taken_whole(
    info: TorrentInfo,
    before: StoreView,
    piece: PieceIndex,
    data: Seq<u8>,
    persisted: bool,
    r: Result<SubmitOutcome, TorrentError>,
    after: StoreView,
) -> bool {
    if piece < before.hashes.len() && !whole(info, piece, data) {
        r == Err::<SubmitOutcome, TorrentError>(
            TorrentError::Validation(ValidationError::InvalidPieceSize),
        ) && after == before
    } else {
        taken(before, piece, data, persisted, r, after)
    }
}

/// Whether every piece that was accepted was accepted with bytes of its
/// size.
pub open spec fn all_whole(info: TorrentInfo, accepted: Seq<Option<Seq<u8>>>) -> bool {
    forall|i: int|
        0 <= i < accepted.len() ==> match #[trigger] accepted[i] {
            Some(d) => whole(info, i as PieceIndex, d),
            None => true,
        }
}

/// A torrent with its piece store.
pub struct FileManager {
    torrent_info: TorrentInfo,
    piece_manager: PieceManager,
    download_path: String,
    files_allocated: bool,
}

impl FileManager {
    /// The descriptor.
    pub closed spec fn info(&self) -> TorrentInfo {
        self.torrent_info
    }

    /// The piece store.
    pub closed spec fn store(&self) -> StoreView {
        self.piece_manager@
    }

    /// Whether the files are known to have their full length.
    pub closed spec fn allocated(&self) -> bool {
        self.files_allocated
    }

    /// The directory under which the files go.
    pub closed spec fn root(&self) -> String {
        self.download_path
    }

    /// What every manager fulfils: a valid descriptor, and a store of its
    /// pieces.
    pub closed spec fn wf(&self) -> bool {
        &&& self.torrent_info.valid()
        &&& self.piece_manager.wf()
        &&& self.piece_manager@.hashes == hashes_of(self.torrent_info)
        &&& self.piece_manager@.piece_length == self.torrent_info.piece_length
        &&& all_whole(self.torrent_info, self.piece_manager@.accepted)
    }

    /// A manager's descriptor is valid, and its store is consistent and of
    /// the descriptor's pieces, each accepted with bytes of its size.
    pub proof fn lemma_wf(&self)
        requires
            self.wf(),
        ensures
            self.info().valid(),
            self.store().consistent(),
            self.store().hashes == hashes_of(self.info()),
            self.store().piece_length == self.info().piece_length,
            all_whole(self.info(), self.store().accepted),
    {
        self.piece_manager.lemma_wf_consistent();
    }

    /// Every piece that the manager has was accepted with bytes of the
    /// piece's size whose SHA-1 is the hash expected of it, and a body in
    /// memory is those bytes.
    pub proof fn lemma_accepted_whole(&self, piece: PieceIndex)
        requires
            self.wf(),
            piece < self.store().have.len(),
            self.store().have[piece as int],
        ensures
            self.store().accepted[piece as int] matches Some(d) && whole(self.info(), piece, d)
                && crate::common::digest::sha1_of(d) == hashes_of(self.info())[piece as int] && (
            self.store().bodies[piece as int] matches Some(b) ==> b == d),
    {
        self.piece_manager.lemma_wf_consistent();
        self.piece_manager.lemma_integrity(piece);
    }

    /// A manager for a valid descriptor, with no piece present.
    pub fn new(torrent_info: TorrentInfo, download_path: String, cache_size: usize) -> (m:
        FileManager)
        requires
            torrent_info.valid(),
        ensures
            m.wf(),
            m.info() == torrent_info,
            m.root() == download_path,
            !m.allocated(),
            m.store() == (StoreView {
                hashes: hashes_of(torrent_info),
                have: Seq::new(torrent_info.pieces@.len(), |i: int| false),
                accepted: Seq::new(torrent_info.pieces@.len(), |i: int| None),
                bodies: Seq::new(torrent_info.pieces@.len(), |i: int| None),
                cache: Seq::empty(),
                capacity: cache_size as nat,
                piece_length: torrent_info.piece_length,
            }),
    {
        let mut hashes: Vec<crate::common::types::Hash> = Vec::new();
        let mut i: usize = 0;
        while i < torrent_info.pieces.len()
            invariant
                i <= torrent_info.pieces@.len(),
                hashes@ == torrent_info.pieces@.take(i as int),
            decreases torrent_info.pieces@.len() - i,
        {
            hashes.push(torrent_info.pieces[i]);
            assert(hashes@ =~= torrent_info.pieces@.take(i + 1));
            i += 1;
        }
        assert(hashes@ =~= torrent_info.pieces@);
        let piece_manager = PieceManager::new(hashes, torrent_info.piece_length, cache_size);
        assert(piece_manager@.hashes =~= hashes_of(torrent_info));
        FileManager { torrent_info, piece_manager, download_path, files_allocated: false }
    }

    pub fn torrent_info(&self) -> (info: &TorrentInfo)
        ensures
            *info == self.info(),
    {
        &self.torrent_info
    }

    pub fn piece_manager(&self) -> (store: &PieceManager)
        ensures
            store@ == self.store(),
            self.wf() ==> store.wf(),
    {
        &self.piece_manager
    }

    /// The directory under which the files go.
    pub fn download_path(&self) -> (path: &String)
        ensures
            *path == self.root(),
    {
        &self.download_path
    }

    pub fn files_allocated(&self) -> (allocated: bool)
        ensures
            allocated == self.allocated(),
    {
        self.files_allocated
    }

    /// Records that the files have been given their full length.
    pub fn mark_allocated(&mut self)
        ensures
            final(self).allocated(),
            final(self).root() == old(self).root(),
            final(self).info() == old(self).info(),
            final(self).store() == old(self).store(),
            old(self).wf() ==> final(self).wf(),
    {
        self.files_allocated = true;
    }

    pub fn total_size(&self) -> (total: u64)
        requires
            self.wf(),
        ensures
            total == self.info().spec_total_size(),
    {
        self.torrent_info.total_size()
    }

    /// The bytes of the pieces that are present.
    pub fn downloaded_size(&self) -> (total: u64)
        requires
            self.wf(),
        ensures
            total == have_bytes(self.info(), self.store().have, self.info().pieces@.len()),
    {
        let n = self.torrent_info.num_pieces();
        let mut total: u64 = 0;
        let mut i: usize = 0;
        proof {
            self.piece_manager.lemma_wf_consistent();
        }
        while i < n
            invariant
                i <= n,
                n == self.torrent_info.pieces@.len(),
                n <= MAX_PIECES,
                self.wf(),
                self.piece_manager@.have.len() == n,
                total == have_bytes(self.torrent_info, self.piece_manager@.have, i as nat),
                total <= i * 0xffff_ffff,
            decreases n - i,
        {
            if self.piece_manager.has_piece(i as PieceIndex) {
                let size = self.torrent_info.piece_size(i as PieceIndex);
                total = total + size as u64;
            }
            i += 1;
        }
        total
    }

    pub fn is_complete(&self) -> (complete: bool)
        ensures
            complete == (forall|i: int| 0 <= i < self.store().have.len() ==> self.store().have[i]),
    {
        let complete = self.piece_manager.is_complete();
        assert(self.store().have == self.piece_manager@.have);
        complete
    }

    /// Whether bytes of this length may be taken for a piece: they may not
    /// where the piece is one of the torrent and has another size.
    fn fits(&self, piece_index: PieceIndex, length: usize) -> (fits: bool)
        requires
            self.wf(),
        ensures
            fits == !(piece_index < self.store().hashes.len() && length
                != self.info().spec_piece_size(piece_index)),
    {
        proof {
            self.piece_manager.lemma_wf_consistent();
        }
        if (piece_index as usize) < self.torrent_info.num_pieces() {
            length == self.torrent_info.piece_size(piece_index) as usize
        } else {
            true
        }
    }

    /// Takes the bytes of a piece as they came from a peer: they are
    /// accepted where they have the size of the piece and its hash, and
    /// room can be made for them in memory.
    pub fn submit_piece(&mut self, piece_index: PieceIndex, data: Vec<u8>) -> (r: Result<
        SubmitOutcome,
        TorrentError,
    >)
        requires
            old(self).wf(),
        ensures
            final(self).wf(),
            final(self).info() == old(self).info(),
            final(self).root() == old(self).root(),
            final(self).allocated() == old(self).allocated(),
            taken_whole(
                old(self).info(),
                old(self).store(),
                piece_index,
                data@,
                false,
                r,
                final(self).store(),
            ),
            final(self).store().cache.len() <= final(self).store().capacity,
    {
        proof {
            self.piece_manager.lemma_wf_consistent();
        }
        if !self.fits(piece_index, data.len()) {
            return Err(TorrentError::Validation(ValidationError::InvalidPieceSize));
        }
        let r = self.piece_manager.submit(piece_index, data);
        proof {
            self.piece_manager.lemma_wf_consistent();
            let v = old(self).piece_manager@;
            old(self).piece_manager.lemma_wf_consistent();
            if piece_index < v.hashes.len() {
                let w = v.put(piece_index, data@, false);
                assert(w.hashes == v.hashes);
                assert(w.accepted == v.accepted.update(piece_index as int, Some(data@)));
                assert(all_whole(self.torrent_info, w.accepted));
            }
        }
        r
    }

    /// Takes the bytes of a piece as they were read from the files: they
    /// are accepted where they have the size of the piece and its hash.
    pub fn load_piece(&mut self, piece_index: PieceIndex, data: Vec<u8>) -> (r: Result<
        SubmitOutcome,
        TorrentError,
    >)
        requires
            old(self).wf(),
        ensures
            final(self).wf(),
            final(self).info() == old(self).info(),
            final(self).root() == old(self).root(),
            final(self).allocated() == old(self).allocated(),
            taken_whole(
                old(self).info(),
                old(self).store(),
                piece_index,
                data@,
                true,
                r,
                final(self).store(),
            ),
    {
        if !self.fits(piece_index, data.len()) {
            return Err(TorrentError::Validation(ValidationError::InvalidPieceSize));
        }
        let r = self.piece_manager.load_piece(piece_index, data);
        proof {
            let v = old(self).piece_manager@;
            old(self).piece_manager.lemma_wf_consistent();
            if piece_index < v.hashes.len() {
                let w = v.put(piece_index, data@, true);
                assert(w.hashes == v.hashes);
                assert(w.accepted == v.accepted.update(piece_index as int, Some(data@)));
                assert(all_whole(self.torrent_info, w.accepted));
            }
        }
        r
    }

    /// The body of a piece if it is in memory; asking counts as a use.
    pub fn piece_data(&mut self, piece_index: PieceIndex) -> (data: Option<Vec<u8>>)
        requires
            old(self).wf(),
        ensures
            final(self).wf(),
            final(self).info() == old(self).info(),
            final(self).root() == old(self).root(),
            final(self).allocated() == old(self).allocated(),
            crate::file::piece_manager::body_view(data) == if piece_index
                < old(self).store().hashes.len() {
                old(self).store().bodies[piece_index as int]
            } else {
                None
            },
            final(self).store() == (StoreView {
                cache: crate::file::piece_manager::cache_touch(old(self).store().cache, piece_index),
                ..old(self).store()
            }),
    {
        self.piece_manager.get_piece_data(piece_index)
    }

    /// Takes the bytes of a piece as they were read back from the files.
    /// Bytes of the piece's size and hash are accepted as `load_piece`
    /// accepts them; any others show that the piece is bad on disk, and it is
    /// absent again. An index outside the torrent changes nothing.
    pub fn read_back(&mut self, piece_index: PieceIndex, data: Vec<u8>) -> (accepted: bool)
        requires
            old(self).wf(),
        ensures
            final(self).wf(),
            final(self).info() == old(self).info(),
            final(self).root() == old(self).root(),
            final(self).allocated() == old(self).allocated(),
            accepted == (piece_index < old(self).store().hashes.len() && whole(
                old(self).info(),
                piece_index,
                data@,
            ) && crate::common::digest::sha1_of(data@)
                == old(self).store().hashes[piece_index as int]),
            final(self).store() == if piece_index >= old(self).store().hashes.len() {
                old(self).store()
            } else if accepted {
                old(self).store().put(piece_index, data@, true)
            } else {
                old(self).store().without(piece_index)
            },
    {
        if !self.fits(piece_index, data.len()) {
            self.piece_manager.mark_corrupt(piece_index);
            return false;
        }
        let accepted = self.piece_manager.read_back(piece_index, data);
        proof {
            let v = old(self).piece_manager@;
            old(self).piece_manager.lemma_wf_consistent();
            if accepted {
                let w = v.put(piece_index, data@, true);
                assert(w.accepted == v.accepted.update(piece_index as int, Some(data@)));
                assert(all_whole(self.torrent_info, w.accepted));
            }
        }
        accepted
    }

    /// Records that the files now hold the body of a piece.
    pub fn mark_persisted(&mut self, piece_index: PieceIndex)
        requires
            old(self).wf(),
        ensures
            final(self).wf(),
            final(self).info() == old(self).info(),
            final(self).root() == old(self).root(),
            final(self).allocated() == old(self).allocated(),
            final(self).store() == (StoreView {
                cache: crate::file::piece_manager::cache_persisted(
                    old(self).store().cache,
                    piece_index,
                ),
                ..old(self).store()
            }),
    {
        self.piece_manager.mark_persisted(piece_index);
    }

    /// Hashes again every piece that the store has; see `PieceManager::verify_all_pieces`.
    pub fn verify_integrity(&mut self, stored: &Vec<Option<Vec<u8>>>) -> (r: Result<Vec<u32>, TorrentError>)
        requires
            old(self).wf(),
        ensures
            final(self).wf(),
            final(self).info() == old(self).info(),
            final(self).root() == old(self).root(),
            final(self).allocated() == old(self).allocated(),
            final(self).store() == old(self).store().verified(
                crate::file::piece_manager::stored_bytes(stored),
            ),
            r matches Ok(failed) && failed@ == crate::common::bitfield::positions(
                crate::file::piece_manager::failing(
                    old(self).store(),
                    crate::file::piece_manager::stored_bytes(stored),
                ),
                true,
            ),
    {
        self.piece_manager.verify_all_pieces(stored)
    }

    /// Where `length` bytes of a piece, from `offset` on, lie in the files.
    /// A piece outside the torrent is an invalid piece index, a run outside
    /// the piece an invalid block.
    pub fn piece_spans(&self, piece_index: PieceIndex, offset: u32, length: u32) -> (r: Result<
        Vec<FileSpan>,
        TorrentError,
    >)
        requires
            self.wf(),
        ensures
            match r {
                Ok(spans) => piece_index < self.info().pieces@.len() && offset + length
                    <= self.info().spec_piece_size(piece_index) && spans@ == spans_of(
                    self.info().files@,
                    (piece_index * self.info().piece_length + offset) as nat,
                    length as nat,
                ),
                Err(e) => if piece_index >= self.info().pieces@.len() {
                    e == TorrentError::Protocol(
                        ProtocolError::InvalidPieceIndex { index: piece_index },
                    )
                } else {
                    offset + length > self.info().spec_piece_size(piece_index) && e
                        == TorrentError::Protocol(ProtocolError::InvalidBlockRequest)
                },
            },
    {
        if !self.torrent_info.is_valid_piece_index(piece_index) {
            return Err(
                TorrentError::Protocol(ProtocolError::InvalidPieceIndex { index: piece_index }),
            );
        }
        let size = self.torrent_info.piece_size(piece_index);
        if offset as u64 + length as u64 > size as u64 {
            return Err(TorrentError::Protocol(ProtocolError::InvalidBlockRequest));
        }
        proof {
            lemma_piece_inside(self.torrent_info, piece_index);
        }
        let start: u64 = piece_index as u64 * self.torrent_info.piece_length as u64 + offset as u64;
        Ok(file_spans(&self.torrent_info.files, start, length as u64))
    }

    /// For each file, how many of its bytes lie in pieces that are present.
    pub fn file_downloaded_bytes(&self) -> (bytes: Vec<u64>)
        requires
            self.wf(),
        ensures
            bytes@.len() == self.info().files@.len(),
            forall|k: int|
                0 <= k < bytes@.len() ==> (#[trigger] bytes@[k]) == file_have_bytes(
                    self.info(),
                    self.store().have,
                    k,
                    self.info().pieces@.len(),
                ),
    {
        let n = self.torrent_info.num_pieces();
        let mut bytes: Vec<u64> = Vec::new();
        let mut current_offset: u64 = 0;
        let mut k: usize = 0;
        proof {
            self.piece_manager.lemma_wf_consistent();
            assert(self.torrent_info.files@.take(0) =~= Seq::<FileInfo>::empty());
        }
        while k < self.torrent_info.files.len()
            invariant
                k <= self.torrent_info.files@.len(),
                n == self.torrent_info.pieces@.len(),
                n <= MAX_PIECES,
                self.wf(),
                self.piece_manager@.have.len() == n,
                current_offset == file_start(self.torrent_info.files@, k as int),
                bytes@.len() == k,
                forall|j: int|
                    0 <= j < k ==> (#[trigger] bytes@[j]) == file_have_bytes(
                        self.torrent_info,
                        self.piece_manager@.have,
                        j,
                        n as nat,
                    ),
            decreases self.torrent_info.files@.len() - k,
        {
            proof {
                assert(self.torrent_info.files@.take(k + 1).drop_last()
                    =~= self.torrent_info.files@.take(k as int));
                crate::common::types::lemma_total_length_prefix(self.torrent_info.files@, k + 1);
            }
            let file_begin = current_offset;
            let file_end: u64 = current_offset + self.torrent_info.files[k].length;
            let mut downloaded_bytes: u64 = 0;
            let mut i: usize = 0;
            while i < n
                invariant
                    i <= n,
                    k < self.torrent_info.files@.len(),
                    n == self.torrent_info.pieces@.len(),
                    n <= MAX_PIECES,
                    self.wf(),
                    self.piece_manager@.have.len() == n,
                    file_begin == file_start(self.torrent_info.files@, k as int),
                    file_end == file_begin + self.torrent_info.files@[k as int].length,
                    downloaded_bytes == file_have_bytes(
                        self.torrent_info,
                        self.piece_manager@.have,
                        k as int,
                        i as nat,
                    ),
                    downloaded_bytes <= i * 0xffff_ffff,
                decreases n - i,
            {
                if self.piece_manager.has_piece(i as PieceIndex) {
                    proof {
                        lemma_piece_inside(self.torrent_info, i as PieceIndex);
                    }
                    let piece_start: u64 = i as u64 * self.torrent_info.piece_length as u64;
                    let piece_end: u64 = piece_start + self.torrent_info.piece_size(
                        i as PieceIndex,
                    ) as u64;
                    let overlap_start = if piece_start >= file_begin {
                        piece_start
                    } else {
                        file_begin
                    };
                    let overlap_end = if piece_end <= file_end {
                        piece_end
                    } else {
                        file_end
                    };
                    if overlap_start < overlap_end {
                        downloaded_bytes = downloaded_bytes + (overlap_end - overlap_start);
                    }
                }
                i += 1;
            }
            bytes.push(downloaded_bytes);
            current_offset = file_end;
            k += 1;
        }
        bytes
    }

    /// The bytes of the torrent, the bytes present, and the space left on
    /// the disk, which is not measured and given as zero.
    pub fn storage_stats(&self) -> (r: Result<(u64, u64, u64), TorrentError>)
        requires
            self.wf(),
        ensures
            r == Ok::<(u64, u64, u64), TorrentError>(
                (
                    self.info().spec_total_size() as u64,
                    have_bytes(self.info(), self.store().have, self.info().pieces@.len()) as u64,
                    0u64,
                ),
            ),
    {
        let total_size = self.total_size();
        let downloaded_size = self.downloaded_size();
        Ok((total_size, downloaded_size, 0u64))
    }
}

/// A piece of a valid descriptor lies inside the whole.
pub proof fn lemma_piece_inside(info: TorrentInfo, piece_index: PieceIndex)
    requires
        info.valid(),
        piece_index < info.pieces@.len(),
    ensures
        piece_index * info.piece_length + info.spec_piece_size(piece_index)
            <= info.spec_total_size(),
        0 < info.spec_piece_size(piece_index) <= info.piece_length,
        piece_index * info.piece_length >= 0,
{
    let n = info.pieces@.len() as int;
    let t = info.spec_total_size() as int;
    let l = info.piece_length as int;
    let i = piece_index as int;
    assert((n - 1) * l < t && t <= n * l) by (nonlinear_arith)
        requires
            l > 0,
            t >= 0,
            n >= 1,
            n == (t + l - 1) / l,
    ;
    assert(i * l >= 0) by (nonlinear_arith)
        requires
            i >= 0,
            l > 0,
    ;
    if i + 1 < n {
        assert(i * l + l <= (n - 1) * l) by (nonlinear_arith)
            requires
                i + 1 <= n - 1,
                l > 0,
        ;
    } else {
        assert(i * l == (n - 1) * l) by (nonlinear_arith)
            requires
                i == n - 1,
        ;
        assert(n * l == (n - 1) * l + l) by (nonlinear_arith);
    }
}

/// The run of the whole that the body of a piece is written to.
pub open spec fn piece_run(info: TorrentInfo, piece: PieceIndex, body: Seq<u8>) -> Run {
    Run { start: (piece * info.piece_length) as nat, data: body }
}

/// The runs of the bodies of pieces, in their order.
pub open spec fn piece_runs(info: TorrentInfo, pieces: Seq<PieceIndex>, bodies: Seq<Seq<u8>>) -> Seq<
    Run,
> {
    Seq::new(pieces.len(), |j: int| piece_run(info, pieces[j], bodies[j]))
}

/// Pieces that are written are read back, however many are written and in
/// whatever order: where the bodies of pieces of a valid descriptor, each of
/// the size of its piece, were written to the files one after the other,
/// reading where a piece lies gives the body that was written for it last.
pub proof fn lemma_pieces_read_back(
    info: TorrentInfo,
    contents: Seq<Seq<u8>>,
    pieces: Seq<PieceIndex>,
    bodies: Seq<Seq<u8>>,
    i: int,
)
    requires
        info.valid(),
        sized(info.files@, contents),
        pieces.len() == bodies.len(),
        forall|j: int|
            0 <= j < pieces.len() ==> (#[trigger] pieces[j]) < info.pieces@.len() && whole(
                info,
                pieces[j],
                bodies[j],
            ),
        0 <= i < pieces.len(),
        forall|j: int| i < j < pieces.len() ==> (#[trigger] pieces[j]) != pieces[i],
    ensures
        gathered(
            written(info.files@, contents, piece_runs(info, pieces, bodies)),
            spans_of(
                info.files@,
                (pieces[i] * info.piece_length) as nat,
                info.spec_piece_size(pieces[i]),
            ),
        ) == bodies[i],
{
    let runs = piece_runs(info, pieces, bodies);
    let l = info.piece_length as int;
    assert forall|j: int| 0 <= j < runs.len() implies (#[trigger] runs[j]).start
        + runs[j].data.len() <= total_length(info.files@) by {
        lemma_piece_inside(info, pieces[j]);
    }
    assert forall|j: int| i < j < runs.len() implies apart(runs[i], #[trigger] runs[j]) by {
        lemma_piece_inside(info, pieces[i]);
        lemma_piece_inside(info, pieces[j]);
        let a = pieces[i] as int;
        let b = pieces[j] as int;
        assert(pieces[j] != pieces[i]);
        if a < b {
            assert(a * l + l <= b * l) by (nonlinear_arith)
                requires
                    a + 1 <= b,
                    l > 0,
            ;
        } else {
            assert(b * l + l <= a * l) by (nonlinear_arith)
                requires
                    b + 1 <= a,
                    l > 0,
            ;
        }
    }
    assert(info.files@.len() == info.files.len());
    lemma_writes_read_back(info.files@, contents, runs, i);
}

/// The bytes that a store has accepted for pieces, in the order of the
/// pieces.
pub open spec fn accepted_for(store: StoreView, pieces: Seq<PieceIndex>) -> Seq<Seq<u8>> {
    Seq::new(pieces.len(), |j: int| store.accepted[pieces[j] as int]->0)
}

/// What one store has written, another takes. Where the bytes that the
/// store of a torrent accepted for pieces that it has were written to the
/// files one after the other, and the bytes that the files then hold where
/// one of these pieces lies are handed to any store of the same torrent as
/// read from the files, that store accepts them: it has the piece from then
/// on, with the very bytes that the first store accepted.
pub proof fn lemma_written_pieces_load(
    info: TorrentInfo,
    from: StoreView,
    contents: Seq<Seq<u8>>,
    pieces: Seq<PieceIndex>,
    i: int,
    into: StoreView,
    r: Result<SubmitOutcome, TorrentError>,
    after: StoreView,
)
    requires
        info.valid(),
        from.consistent(),
        from.hashes == hashes_of(info),
        all_whole(info, from.accepted),
        into.consistent(),
        into.hashes == hashes_of(info),
        sized(info.files@, contents),
        forall|j: int|
            0 <= j < pieces.len() ==> (#[trigger] pieces[j]) < from.have.len()
                && from.have[pieces[j] as int],
        0 <= i < pieces.len(),
        forall|j: int| i < j < pieces.len() ==> (#[trigger] pieces[j]) != pieces[i],
        taken_whole(
            info,
            into,
            pieces[i],
            gathered(
                written(info.files@, contents, piece_runs(info, pieces, accepted_for(from, pieces))),
                spans_of(
                    info.files@,
                    (pieces[i] * info.piece_length) as nat,
                    info.spec_piece_size(pieces[i]),
                ),
            ),
            true,
            r,
            after,
        ),
    ensures
        r == Ok::<SubmitOutcome, TorrentError>(SubmitOutcome::Accepted),
        after == into.put(pieces[i], from.accepted[pieces[i] as int]->0, true),
        after.have[pieces[i] as int],
        after.accepted[pieces[i] as int] == from.accepted[pieces[i] as int],
{
    let bodies = accepted_for(from, pieces);
    assert forall|j: int| 0 <= j < pieces.len() implies (#[trigger] pieces[j]) < info.pieces@.len()
        && whole(info, pieces[j], bodies[j]) by {
        assert(from.have[pieces[j] as int]);
        assert(from.accepted[pieces[j] as int] is Some);
    }
    lemma_pieces_read_back(info, contents, pieces, bodies, i);
    assert(from.have[pieces[i] as int]);
}

} // verus!
