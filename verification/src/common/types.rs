//! Identifiers and the plain data that the components share.

use crate::common::bits::MAX_PIECES;
use crate::common::digest::sha1_digest;
use crate::common::digest::sha1_of;
use crate::common::error::TorrentError;
use crate::common::error::ValidationError;
use vstd::prelude::*;

verus! {

/// A SHA-1 digest.
pub type Hash = [u8; 20];

/// The identity that a peer announces in its handshake.
pub type PeerId = [u8; 20];

/// The position of a piece in the torrent.
pub type PieceIndex = u32;

/// A byte offset inside a piece.
pub type BlockOffset = u32;

/// A number of bytes inside a piece.
pub type BlockLength = u32;

/// Whether two runs of bytes hold the same bytes.
pub fn same_bytes(a: &[u8], b: &[u8]) -> (same: bool)
    ensures
        same == (a@ == b@),
{
    if a.len() != b.len() {
        return false;
    }
    let mut i: usize = 0;
    while i < a.len()
        invariant
            i <= a.len(),
            a.len() == b.len(),
            forall|j: int| 0 <= j < i ==> a@[j] == b@[j],
        decreases a.len() - i,
    {
        if a[i] != b[i] {
            return false;
        }
        i += 1;
    }
    assert(a@ =~= b@);
    true
}

/// Settings of a client. Durations are in milliseconds.
#[derive(Debug, Clone)]
pub struct Config {
    pub listen_port: u16,
    pub max_connections: usize,
    pub connection_timeout: u64,
    pub download_path: String,
    pub piece_cache_size: usize,
    pub upload_limit: Option<u64>,
    pub download_limit: Option<u64>,
    pub unchoke_interval: u64,
    pub tracker_timeout: u64,
    pub announce_interval: u64,
}

impl Default for Config {
    fn default() -> (c: Config)
        ensures
            c.listen_port == 6881,
            c.max_connections == 50,
            c.connection_timeout == 30_000,
            c.download_path@ == "./downloads"@,
            c.piece_cache_size == 100,
            c.upload_limit is None,
            c.download_limit is None,
            c.unchoke_interval == 10_000,
            c.tracker_timeout == 30_000,
            c.announce_interval == 1_800_000,
    {
        Config {
            listen_port: 6881,
            max_connections: 50,
            connection_timeout: 30_000,
            download_path: "./downloads".to_owned(),
            piece_cache_size: 100,
            upload_limit: None,
            download_limit: None,
            unchoke_interval: 10_000,
            tracker_timeout: 30_000,
            announce_interval: 1_800_000,
        }
    }
}

/// One file of a torrent: where it goes and how long it is.
#[derive(Debug, Clone)]
pub struct FileInfo {
    pub path: Vec<String>,
    pub length: u64,
    pub md5sum: Option<String>,
}

impl FileInfo {
    pub fn new(path: Vec<String>, length: u64) -> (f: FileInfo)
        ensures
            f.path == path,
            f.length == length,
            f.md5sum is None,
    {
        FileInfo { path, length, md5sum: None }
    }

    /// The last component of the path, if the path has any.
    pub fn filename(&self) -> (name: Option<&String>)
        ensures
            name == if self.path@.len() == 0 {
                None
            } else {
                Some(&self.path@[self.path@.len() - 1])
            },
    {
        if self.path.len() == 0 {
            None
        } else {
            Some(&self.path[self.path.len() - 1])
        }
    }
}

/// The lengths of the files summed up.
pub open spec fn total_length(files: Seq<FileInfo>) -> nat
    decreases files.len(),
{
    if files.len() == 0 {
        0
    } else {
        total_length(files.drop_last()) + files.last().length as nat
    }
}

/// The number of pieces that `total` bytes make at `piece_length` bytes a
/// piece.
pub open spec fn pieces_needed(total: nat, piece_length: nat) -> nat
    recommends
        piece_length > 0,
{
    ((total + piece_length - 1) / piece_length as int) as nat
}

/// The sum over a prefix is no more than the sum over the whole.
pub proof fn lemma_total_length_prefix(files: Seq<FileInfo>, k: int)
    requires
        0 <= k <= files.len(),
    ensures
        total_length(files.take(k)) <= total_length(files),
    decreases files.len() - k,
{
    if k < files.len() {
        lemma_total_length_prefix(files, k + 1);
        assert(files.take(k + 1).drop_last() =~= files.take(k));
    } else {
        assert(files.take(k) =~= files);
    }
}

/// The description of a torrent: its pieces and its files.
#[derive(Debug, Clone)]
pub struct TorrentInfo {
    pub name: String,
    pub piece_length: u32,
    pub pieces: Vec<Hash>,
    pub files: Vec<FileInfo>,
    pub private: bool,
    pub comment: Option<String>,
    pub creation_date: Option<u64>,
    pub created_by: Option<String>,
}

impl TorrentInfo {
    /// The bytes of all files together.
    pub open spec fn spec_total_size(&self) -> nat {
        total_length(self.files@)
    }

    /// What a descriptor must fulfil: a piece length above zero, as many
    /// hashes as the files' bytes make pieces, and sizes within the limits of
    /// the machine.
    pub open spec fn valid(&self) -> bool {
        &&& self.piece_length > 0
        &&& self.spec_total_size() <= u64::MAX
        &&& self.pieces@.len() <= MAX_PIECES
        &&& self.pieces@.len() == pieces_needed(self.spec_total_size(), self.piece_length as nat)
    }

    /// The size of a piece: the piece length, but for the last piece what is
    /// left.
    pub open spec fn spec_piece_size(&self, piece_index: PieceIndex) -> nat
        recommends
            self.valid(),
            piece_index < self.pieces@.len(),
    {
        if piece_index + 1 < self.pieces@.len() {
            self.piece_length as nat
        } else {
            (self.spec_total_size() - piece_index * self.piece_length) as nat
        }
    }

    pub fn new(name: String, piece_length: u32, pieces: Vec<Hash>, files: Vec<FileInfo>) -> (t:
        TorrentInfo)
        ensures
            t.name == name,
            t.piece_length == piece_length,
            t.pieces == pieces,
            t.files == files,
            !t.private,
            t.comment is None,
            t.creation_date is None,
            t.created_by is None,
    {
        TorrentInfo {
            name,
            piece_length,
            pieces,
            files,
            private: false,
            comment: None,
            creation_date: None,
            created_by: None,
        }
    }

    pub fn num_pieces(&self) -> (n: usize)
        ensures
            n == self.pieces@.len(),
    {
        self.pieces.len()
    }

    /// The bytes of all files together, if the sum fits 64 bits.
    pub fn checked_total_size(&self) -> (total: Option<u64>)
        ensures
            total == if self.spec_total_size() <= u64::MAX {
                Some(self.spec_total_size() as u64)
            } else {
                None
            },
    {
        let mut sum: u64 = 0;
        let mut i: usize = 0;
        assert(self.files@.take(0) =~= Seq::<FileInfo>::empty());
        while i < self.files.len()
            invariant
                i <= self.files@.len(),
                sum == total_length(self.files@.take(i as int)),
            decreases self.files@.len() - i,
        {
            assert(self.files@.take(i + 1).drop_last() =~= self.files@.take(i as int));
            match sum.checked_add(self.files[i].length) {
                Some(s) => {
                    sum = s;
                },
                None => {
                    proof {
                        lemma_total_length_prefix(self.files@, i + 1);
                    }
                    return None;
                },
            }
            i += 1;
        }
        assert(self.files@.take(i as int) =~= self.files@);
        Some(sum)
    }

    /// The bytes of all files together.
    pub fn total_size(&self) -> (total: u64)
        requires
            self.spec_total_size() <= u64::MAX,
        ensures
            total == self.spec_total_size(),
    {
        match self.checked_total_size() {
            Some(total) => total,
            None => 0,
        }
    }

    /// Checks the descriptor: a piece length of zero is an invalid piece
    /// size, anything else amiss an invalid descriptor.
    pub fn validate(&self) -> (r: Result<(), TorrentError>)
        ensures
            r is Ok <==> self.valid(),
            self.piece_length == 0 ==> r == Err::<(), TorrentError>(
                TorrentError::Validation(ValidationError::InvalidPieceSize),
            ),
            self.piece_length != 0 && !self.valid() ==> r == Err::<(), TorrentError>(
                TorrentError::Validation(ValidationError::InvalidTorrentInfo),
            ),
    {
        if self.piece_length == 0 {
            return Err(TorrentError::Validation(ValidationError::InvalidPieceSize));
        }
        let total = match self.checked_total_size() {
            Some(total) => total,
            None => {
                return Err(TorrentError::Validation(ValidationError::InvalidTorrentInfo));
            },
        };
        if self.pieces.len() > MAX_PIECES {
            return Err(TorrentError::Validation(ValidationError::InvalidTorrentInfo));
        }
        let piece_length = self.piece_length as u128;
        let needed: u128 = (total as u128 + piece_length - 1) / piece_length;
        if self.pieces.len() as u128 != needed {
            return Err(TorrentError::Validation(ValidationError::InvalidTorrentInfo));
        }
        Ok(())
    }

    /// The size of a piece of a valid descriptor.
    pub fn piece_size(&self, piece_index: PieceIndex) -> (size: u32)
        requires
            self.valid(),
            piece_index < self.pieces@.len(),
        ensures
            size == self.spec_piece_size(piece_index),
            0 < size <= self.piece_length,
    {
        let total_size = self.total_size();
        let index = piece_index as u64;
        let piece_length = self.piece_length as u64;
        if index + 1 < self.pieces.len() as u64 {
            self.piece_length
        } else {
            proof {
                let n = self.pieces@.len() as int;
                let t = self.spec_total_size() as int;
                let l = self.piece_length as int;
                assert((n - 1) * l < t && t <= n * l) by (nonlinear_arith)
                    requires
                        l > 0,
                        t >= 0,
                        n >= 1,
                        n == (t + l - 1) / l,
                ;
                assert(index * piece_length == (n - 1) * l) by (nonlinear_arith)
                    requires
                        index == n - 1,
                        piece_length == l,
                ;
                assert(n * l == (n - 1) * l + l) by (nonlinear_arith);
            }
            (total_size - index * piece_length) as u32
        }
    }

    pub fn is_valid_piece_index(&self, piece_index: PieceIndex) -> (ok: bool)
        ensures
            ok == (piece_index < self.pieces@.len()),
    {
        (piece_index as usize) < self.pieces.len()
    }
}

/// One piece: the hash it must have and, once it has arrived, its bytes.
#[derive(Debug, Clone)]
pub struct Piece {
    pub index: PieceIndex,
    pub data: Option<Vec<u8>>,
    pub hash: Hash,
    pub verified: bool,
    pub in_flight: bool,
    /// When the piece was last asked for, in milliseconds.
    pub last_requested: Option<u64>,
}

impl Piece {
    /// Whether the piece holds bytes whose SHA-1 is the expected hash.
    pub open spec fn matches_hash(&self) -> bool {
        self.data matches Some(d) && sha1_of(d@) == self.hash@
    }

    /// A piece is never verified without bytes that match its hash.
    pub open spec fn wf(&self) -> bool {
        self.verified ==> self.matches_hash()
    }

    pub fn new(index: PieceIndex, hash: Hash) -> (p: Piece)
        ensures
            p.index == index,
            p.hash == hash,
            p.data is None,
            !p.verified,
            !p.in_flight,
            p.last_requested is None,
            p.wf(),
    {
        Piece { index, data: None, hash, verified: false, in_flight: false, last_requested: None }
    }

    pub fn is_complete(&self) -> (complete: bool)
        ensures
            complete == (self.data is Some && self.verified),
    {
        self.data.is_some() && self.verified
    }

    /// Hashes the bytes held and records whether they match. Without bytes
    /// the piece is not verified.
    pub fn verify(&mut self) -> (ok: bool)
        ensures
            ok == old(self).matches_hash(),
            final(self).verified == ok,
            final(self).index == old(self).index,
            final(self).data == old(self).data,
            final(self).hash == old(self).hash,
            final(self).in_flight == old(self).in_flight,
            final(self).last_requested == old(self).last_requested,
            final(self).wf(),
    {
        let ok = match &self.data {
            Some(data) => {
                let computed = sha1_digest(data.as_slice());
                same_bytes(computed.as_slice(), self.hash.as_slice())
            },
            None => false,
        };
        self.verified = ok;
        ok
    }

    /// Takes new bytes and verifies them.
    pub fn set_data(&mut self, data: Vec<u8>) -> (ok: bool)
        ensures
            ok == (sha1_of(data@) == old(self).hash@),
            final(self).verified == ok,
            final(self).data == Some(data),
            final(self).index == old(self).index,
            final(self).hash == old(self).hash,
            final(self).in_flight == old(self).in_flight,
            final(self).last_requested == old(self).last_requested,
            final(self).wf(),
    {
        self.data = Some(data);
        self.verify()
    }
}

/// Counters of a transfer.
#[derive(Debug, Clone, Copy, PartialEq, Eq, Structural)]
pub struct Statistics {
    pub downloaded: u64,
    pub uploaded: u64,
    pub left: u64,
    pub corrupt: u64,
    pub download_rate: u64,
    pub upload_rate: u64,
    pub num_peers: usize,
    pub num_seeds: usize,
    pub num_leechers: usize,
}

impl Default for Statistics {
    fn default() -> (s: Statistics)
        ensures
            s == (Statistics {
                downloaded: 0,
                uploaded: 0,
                left: 0,
                corrupt: 0,
                download_rate: 0,
                upload_rate: 0,
                num_peers: 0,
                num_seeds: 0,
                num_leechers: 0,
            }),
    {
        Statistics {
            downloaded: 0,
            uploaded: 0,
            left: 0,
            corrupt: 0,
            download_rate: 0,
            upload_rate: 0,
            num_peers: 0,
            num_seeds: 0,
            num_leechers: 0,
        }
    }
}

impl Statistics {
    /// Counters at the start of a transfer of `total_size` bytes.
    pub fn new(total_size: u64) -> (s: Statistics)
        ensures
            s == (Statistics {
                downloaded: 0,
                uploaded: 0,
                left: total_size,
                corrupt: 0,
                download_rate: 0,
                upload_rate: 0,
                num_peers: 0,
                num_seeds: 0,
                num_leechers: 0,
            }),
    {
        Statistics {
            downloaded: 0,
            uploaded: 0,
            left: total_size,
            corrupt: 0,
            download_rate: 0,
            upload_rate: 0,
            num_peers: 0,
            num_seeds: 0,
            num_leechers: 0,
        }
    }

    /// Counts bytes that arrived: they are no longer left to fetch.
    pub fn update_downloaded(&mut self, bytes: u64)
        requires
            old(self).downloaded + bytes <= u64::MAX,
        ensures
            *final(self) == (Statistics {
                downloaded: (old(self).downloaded + bytes) as u64,
                left: if old(self).left >= bytes {
                    (old(self).left - bytes) as u64
                } else {
                    0
                },
                ..*old(self)
            }),
    {
        self.downloaded = self.downloaded + bytes;
        self.left = self.left.saturating_sub(bytes);
    }

    /// Counts bytes that were sent.
    pub fn update_uploaded(&mut self, bytes: u64)
        requires
            old(self).uploaded + bytes <= u64::MAX,
        ensures
            *final(self) == (Statistics {
                uploaded: (old(self).uploaded + bytes) as u64,
                ..*old(self)
            }),
    {
        self.uploaded = self.uploaded + bytes;
    }

    /// How much of the transfer is done, in thousandths; all of it where
    /// there is nothing to transfer.
    pub fn completion_permille(&self) -> (done: u64)
        ensures
            done == if self.downloaded + self.left == 0 {
                1000
            } else {
                self.downloaded * 1000 / (self.downloaded + self.left)
            },
            done <= 1000,
    {
        let total: u128 = self.downloaded as u128 + self.left as u128;
        if total == 0 {
            return 1000;
        }
        let done: u128 = (self.downloaded as u128 * 1000) / total;
        assert(done <= 1000) by (nonlinear_arith)
            requires
                done == (self.downloaded as int * 1000) / (total as int),
                total >= self.downloaded,
                total > 0,
                self.downloaded >= 0,
        ;
        done as u64
    }
}

} // verus!
