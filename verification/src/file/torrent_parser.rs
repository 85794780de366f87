//! From the raw fields of a torrent file to a descriptor, and back.

use crate::common::digest::sha1_digest;
use crate::common::digest::sha1_of;
use crate::common::error::TorrentError;
use crate::common::error::ValidationError;
use crate::common::types::FileInfo;
use crate::common::types::TorrentInfo;
use vstd::prelude::*;

verus! {

/// A file as a torrent file names it.
#[derive(Debug, Clone)]
pub struct RawFileInfo {
    pub length: u64,
    pub path: Vec<String>,
    pub md5sum: Option<String>,
}

/// The info dictionary of a torrent file: the hashes as one run of bytes,
/// and either the length of the one file or the list of the files.
#[derive(Debug, Clone)]
pub struct RawTorrentInfo {
    pub name: String,
    pub piece_length: u32,
    pub pieces: Vec<u8>,
    pub private: u8,
    pub length: Option<u64>,
    pub files: Option<Vec<RawFileInfo>>,
    pub md5sum: Option<String>,
}

/// A torrent file.
#[derive(Debug, Clone)]
pub struct RawTorrent {
    pub info: RawTorrentInfo,
    pub announce: Option<String>,
    pub announce_list: Option<Vec<Vec<String>>>,
    pub comment: Option<String>,
    pub created_by: Option<String>,
    pub creation_date: Option<u64>,
}

/// Reads and writes torrent files, as far as their fields go.
#[derive(Debug)]
pub struct TorrentParser;

/// The hashes that a run of bytes holds, 20 bytes each.
pub open spec fn hashes_in(data: Seq<u8>) -> Seq<Seq<u8>> {
    Seq::new(data.len() / 20, |i: int| data.subrange(20 * i, 20 * i + 20))
}

/// The hashes of a descriptor laid end to end.
pub open spec fn hashes_joined(pieces: Seq<crate::common::types::Hash>) -> Seq<u8>
    decreases pieces.len(),
{
    if pieces.len() == 0 {
        Seq::empty()
    } else {
        hashes_joined(pieces.drop_last()) + pieces.last()@
    }
}

/// The SHA-1 digests of the pieces that `data` makes at `piece_length`
/// bytes a piece, the last piece being what is left.
pub open spec fn piece_hashes(data: Seq<u8>, piece_length: nat) -> Seq<Seq<u8>>
    recommends
        piece_length > 0,
{
    Seq::new(
        ((data.len() + piece_length - 1) / piece_length as int) as nat,
        |i: int|
            sha1_of(
                data.subrange(
                    i * piece_length,
                    if (i + 1) * piece_length <= data.len() {
                        (i + 1) * piece_length
                    } else {
                        data.len() as int
                    },
                ),
            ),
    )
}

/// Whether a file of a descriptor and a raw file say the same: the same
/// path, length and checksum.
pub open spec fn same_file(file: FileInfo, raw: RawFileInfo) -> bool {
    file.length == raw.length && file.path@ == raw.path@ && file.md5sum == raw.md5sum
}

/// The views of hashes.
pub open spec fn hash_views(pieces: Seq<crate::common::types::Hash>) -> Seq<Seq<u8>> {
    Seq::new(pieces.len(), |i: int| pieces[i]@)
}

impl TorrentParser {
    /// Cuts a run of bytes into hashes of 20 bytes; a run of another
    /// length than a multiple of 20 is an invalid hash.
    pub fn parse_pieces(pieces_data: &[u8]) -> (r: Result<Vec<crate::common::types::Hash>, TorrentError>)
        ensures
            match r {
                Ok(pieces) => pieces_data@.len() % 20 == 0 && hash_views(pieces@) == hashes_in(
                    pieces_data@,
                ),
                Err(e) => pieces_data@.len() % 20 != 0 && e == TorrentError::Validation(
                    ValidationError::InvalidHash,
                ),
            },
    {
        if pieces_data.len() % 20 != 0 {
            return Err(TorrentError::Validation(ValidationError::InvalidHash));
        }
        let total = pieces_data.len();
        let count = total / 20;
        let mut pieces: Vec<crate::common::types::Hash> = Vec::new();
        let mut i: usize = 0;
        while i < count
            invariant
                i <= count,
                total == pieces_data@.len(),
                count == total / 20,
                total % 20 == 0,
                pieces@.len() == i,
                forall|j: int|
                    0 <= j < i ==> (#[trigger] pieces@[j])@ == pieces_data@.subrange(
                        20 * j,
                        20 * j + 20,
                    ),
            decreases count - i,
        {
            let mut hash = [0u8; 20];
            let mut k: usize = 0;
            while k < 20
                invariant
                    k <= 20,
                    i < count,
                    total == pieces_data@.len(),
                    count == total / 20,
                    total % 20 == 0,
                    forall|j: int| 0 <= j < k ==> hash@[j] == pieces_data@[20 * i + j],
                decreases 20 - k,
            {
                assert(20 * i + 20 <= pieces_data@.len());
                hash[k] = pieces_data[20 * i + k];
                k += 1;
            }
            assert(hash@ =~= pieces_data@.subrange(20 * i, 20 * i + 20));
            pieces.push(hash);
            i += 1;
        }
        assert(hash_views(pieces@) =~= hashes_in(pieces_data@));
        Ok(pieces)
    }

    /// The SHA-1 digests of the pieces of `data`; a piece length of zero is
    /// an invalid piece size.
    pub fn generate_pieces(data: &[u8], piece_length: u32) -> (r: Result<
        Vec<crate::common::types::Hash>,
        TorrentError,
    >)
        ensures
            match r {
                Ok(pieces) => piece_length > 0 && hash_views(pieces@) == piece_hashes(
                    data@,
                    piece_length as nat,
                ),
                Err(e) => piece_length == 0 && e == TorrentError::Validation(
                    ValidationError::InvalidPieceSize,
                ),
            },
    {
        if piece_length == 0 {
            return Err(TorrentError::Validation(ValidationError::InvalidPieceSize));
        }
        let step = piece_length as usize;
        let total = data.len();
        let mut pieces: Vec<crate::common::types::Hash> = Vec::new();
        let mut start: usize = 0;
        let ghost count = (total + step - 1) / (step as int);
        let ghost mut index: int = 0;
        assert(0 * step == 0) by (nonlinear_arith);
        if total == 0 {
            assert(count == 0) by (nonlinear_arith)
                requires
                    count == (0 + step - 1) / (step as int),
                    step > 0,
            ;
        }
        while start < total
            invariant
                step == piece_length,
                step > 0,
                total == data@.len(),
                count == (total + step - 1) / (step as int),
                index == pieces@.len(),
                index >= 0,
                start <= total,
                start < total ==> start == index * step,
                start == total ==> index == count,
                forall|j: int|
                    0 <= j < pieces@.len() ==> (#[trigger] pieces@[j])@ == piece_hashes(
                        data@,
                        piece_length as nat,
                    )[j],
            decreases total - start,
        {
            let end = if total - start < step {
                total
            } else {
                start + step
            };
            proof {
                assert((index + 1) * step == index * step + step) by (nonlinear_arith);
                assert(index < count) by (nonlinear_arith)
                    requires
                        index * step < total,
                        count == (total + step - 1) / (step as int),
                        step > 0,
                        index >= 0,
                ;
                if end == total {
                    assert(index + 1 == count) by (nonlinear_arith)
                        requires
                            index * step < total,
                            (index + 1) * step >= total,
                            count == (total + step - 1) / (step as int),
                            step > 0,
                            index >= 0,
                    ;
                }
            }
            let chunk = vstd::slice::slice_subrange(data, start, end);
            let ghost so_far = pieces@;
            pieces.push(sha1_digest(chunk));
            proof {
                assert(pieces@[index]@ == piece_hashes(data@, piece_length as nat)[index]);
                assert forall|j: int| 0 <= j < pieces@.len() implies (#[trigger] pieces@[j])@
                    == piece_hashes(data@, piece_length as nat)[j] by {
                    if j < index {
                        assert(pieces@[j] == so_far[j]);
                    }
                }
                index = index + 1;
            }
            start = end;
        }
        assert(hash_views(pieces@) =~= piece_hashes(data@, piece_length as nat));
        Ok(pieces)
    }

    /// Makes a descriptor of the fields of a torrent file. A piece length
    /// of zero is an invalid piece size; hashes that are no multiple of 20
    /// bytes are an invalid hash; and a file without `files` and without
    /// `length` misses a field. With `files` the descriptor has those files;
    /// with `length` alone it has one file, named as the torrent.
    pub fn convert_raw_torrent(raw: RawTorrent) -> (r: Result<TorrentInfo, TorrentError>)
        ensures
            match r {
                Ok(info) => {
                    &&& raw.info.piece_length != 0
                    &&& raw.info.pieces@.len() % 20 == 0
                    &&& info.name == raw.info.name
                    &&& info.piece_length == raw.info.piece_length
                    &&& hash_views(info.pieces@) == hashes_in(raw.info.pieces@)
                    &&& info.private == (raw.info.private != 0)
                    &&& info.comment == raw.comment
                    &&& info.creation_date == raw.creation_date
                    &&& info.created_by == raw.created_by
                    &&& match raw.info.files {
                        Some(files) => info.files@.len() == files@.len() && forall|i: int|
                            0 <= i < files@.len() ==> same_file(
                                #[trigger] info.files@[i],
                                files@[i],
                            ),
                        None => raw.info.length matches Some(length) && info.files@.len() == 1
                            && info.files@[0].length == length && info.files@[0].md5sum
                            == raw.info.md5sum && info.files@[0].path@.len() == 1
                            && info.files@[0].path@[0] == raw.info.name,
                    }
                },
                Err(e) => if raw.info.piece_length == 0 {
                    e == TorrentError::Validation(ValidationError::InvalidPieceSize)
                } else if raw.info.pieces@.len() % 20 != 0 {
                    e == TorrentError::Validation(ValidationError::InvalidHash)
                } else {
                    raw.info.files is None && raw.info.length is None && (e
                        matches TorrentError::Validation(ValidationError::MissingField { field })
                        && field@ == "files or length"@)
                },
            },
    {
        let RawTorrent { info, announce: _, announce_list: _, comment, created_by, creation_date } =
            raw;
        if info.piece_length == 0 {
            return Err(TorrentError::Validation(ValidationError::InvalidPieceSize));
        }
        let pieces = match TorrentParser::parse_pieces(info.pieces.as_slice()) {
            Ok(pieces) => pieces,
            Err(e) => {
                return Err(e);
            },
        };
        let RawTorrentInfo {
            name,
            piece_length,
            pieces: _,
            private,
            length,
            files: raw_files,
            md5sum,
        } = info;
        let files: Vec<FileInfo> = match raw_files {
            Some(mut list) => {
                let ghost given = list@;
                let mut files: Vec<FileInfo> = Vec::new();
                let mut taken: Vec<RawFileInfo> = Vec::new();
                taken.append(&mut list);
                let mut i: usize = 0;
                while i < taken.len()
                    invariant
                        i <= taken@.len(),
                        taken@ == given,
                        files@.len() == i,
                        forall|j: int| 0 <= j < i ==> same_file(#[trigger] files@[j], given[j]),
                    decreases taken@.len() - i,
                {
                    let f = &taken[i];
                    files.push(
                        FileInfo { path: f.path.clone(), length: f.length, md5sum: f.md5sum.clone() },
                    );
                    i += 1;
                }
                files
            },
            None => match length {
                Some(length) => {
                    let mut path: Vec<String> = Vec::new();
                    path.push(name.clone());
                    let mut files: Vec<FileInfo> = Vec::new();
                    files.push(FileInfo { path, length, md5sum });
                    files
                },
                None => {
                    return Err(
                        TorrentError::Validation(
                            ValidationError::MissingField { field: "files or length".to_owned() },
                        ),
                    );
                },
            },
        };
        Ok(
            TorrentInfo {
                name,
                piece_length,
                pieces,
                files,
                private: private != 0,
                comment,
                creation_date,
                created_by,
            },
        )
    }

    /// The fields of the torrent file of a descriptor: with one file its
    /// length, with another number of files their list; no trackers.
    pub fn to_raw_torrent(info: &TorrentInfo) -> (raw: RawTorrent)
        ensures
            raw.info.name == info.name,
            raw.info.piece_length == info.piece_length,
            raw.info.pieces@ == hashes_joined(info.pieces@),
            raw.info.private == if info.private {
                1u8
            } else {
                0u8
            },
            raw.announce is None,
            raw.announce_list is None,
            raw.comment == info.comment,
            raw.created_by == info.created_by,
            raw.creation_date == info.creation_date,
            info.files@.len() == 1 ==> raw.info.files is None && raw.info.length == Some(
                info.files@[0].length,
            ) && raw.info.md5sum == info.files@[0].md5sum,
            info.files@.len() != 1 ==> raw.info.length is None && raw.info.md5sum is None && (
            raw.info.files matches Some(files) && files@.len() == info.files@.len() && forall|i: int|
                0 <= i < files@.len() ==> same_file(info.files@[i], #[trigger] files@[i])),
    {
        let mut files: Option<Vec<RawFileInfo>> = None;
        let mut length: Option<u64> = None;
        let mut md5sum: Option<String> = None;
        if info.files.len() == 1 {
            length = Some(info.files[0].length);
            md5sum = info.files[0].md5sum.clone();
        } else {
            let mut list: Vec<RawFileInfo> = Vec::new();
            let mut i: usize = 0;
            while i < info.files.len()
                invariant
                    i <= info.files@.len(),
                    list@.len() == i,
                    forall|j: int| 0 <= j < i ==> same_file(info.files@[j], #[trigger] list@[j]),
                decreases info.files@.len() - i,
            {
                let f = &info.files[i];
                list.push(
                    RawFileInfo { length: f.length, path: f.path.clone(), md5sum: f.md5sum.clone() },
                );
                i += 1;
            }
            files = Some(list);
        }
        let mut pieces_bytes: Vec<u8> = Vec::new();
        let mut i: usize = 0;
        assert(info.pieces@.take(0) =~= Seq::<crate::common::types::Hash>::empty());
        while i < info.pieces.len()
            invariant
                i <= info.pieces@.len(),
                pieces_bytes@ == hashes_joined(info.pieces@.take(i as int)),
            decreases info.pieces@.len() - i,
        {
            let ghost before = pieces_bytes@;
            pieces_bytes.extend_from_slice(info.pieces[i].as_slice());
            proof {
                assert(info.pieces@.take(i + 1).drop_last() =~= info.pieces@.take(i as int));
                assert(pieces_bytes@ =~= before + info.pieces@[i as int]@);
            }
            i += 1;
        }
        assert(info.pieces@.take(i as int) =~= info.pieces@);
        RawTorrent {
            info: RawTorrentInfo {
                name: info.name.clone(),
                piece_length: info.piece_length,
                pieces: pieces_bytes,
                private: if info.private {
                    1
                } else {
                    0
                },
                length,
                files,
                md5sum,
            },
            announce: None,
            announce_list: None,
            comment: info.comment.clone(),
            created_by: info.created_by.clone(),
            creation_date: info.creation_date,
        }
    }

    /// The info hash of a descriptor: the SHA-1 digest of the descriptor as
    /// it is written out.
    pub fn calculate_info_hash(serialized: &[u8]) -> (hash: crate::common::types::Hash)
        ensures
            hash@ == sha1_of(serialized@),
    {
        sha1_digest(serialized)
    }

    /// Makes the descriptor of a torrent of the given files: the files in
    /// their order, each under its name, and the digests of the pieces that
    /// their contents make, laid end to end. A piece length of zero is an
    /// invalid piece size.
    pub fn assemble_torrent(
        file_names: Vec<String>,
        contents: &Vec<Vec<u8>>,
        piece_length: u32,
        name: String,
        comment: Option<String>,
        created_at: u64,
    ) -> (r: Result<TorrentInfo, TorrentError>)
        requires
            file_names@.len() == contents@.len(),
        ensures
            match r {
                Ok(info) => {
                    &&& piece_length > 0
                    &&& info.name == name
                    &&& info.piece_length == piece_length
                    &&& info.comment == comment
                    &&& info.creation_date == Some(created_at)
                    &&& !info.private
                    &&& (info.created_by matches Some(by) && by@ == "file-storage-system"@)
                    &&& hash_views(info.pieces@) == piece_hashes(
                        all_bytes(contents@, contents@.len() as int),
                        piece_length as nat,
                    )
                    &&& info.files@.len() == file_names@.len()
                    &&& forall|i: int|
                        0 <= i < file_names@.len() ==> (#[trigger] info.files@[i]).length
                            == contents@[i]@.len() && info.files@[i].md5sum is None
                            && info.files@[i].path@.len() == 1 && info.files@[i].path@[0]
                            == file_names@[i]
                },
                Err(e) => piece_length == 0 && e == TorrentError::Validation(
                    ValidationError::InvalidPieceSize,
                ),
            },
    {
        if piece_length == 0 {
            return Err(TorrentError::Validation(ValidationError::InvalidPieceSize));
        }
        let mut file_infos: Vec<FileInfo> = Vec::new();
        let mut all_data: Vec<u8> = Vec::new();
        let mut i: usize = 0;
        while i < file_names.len()
            invariant
                i <= file_names@.len(),
                file_names@.len() == contents@.len(),
                all_data@ == all_bytes(contents@, i as int),
                file_infos@.len() == i,
                forall|j: int|
                    0 <= j < i ==> (#[trigger] file_infos@[j]).length == contents@[j]@.len()
                        && file_infos@[j].md5sum is None && file_infos@[j].path@.len() == 1
                        && file_infos@[j].path@[0] == file_names@[j],
            decreases file_names@.len() - i,
        {
            let ghost before = all_data@;
            all_data.extend_from_slice(contents[i].as_slice());
            assert(all_data@ =~= before + contents@[i as int]@);
            let mut path: Vec<String> = Vec::new();
            path.push(file_names[i].clone());
            file_infos.push(FileInfo { path, length: contents[i].len() as u64, md5sum: None });
            i += 1;
        }
        let pieces = match TorrentParser::generate_pieces(all_data.as_slice(), piece_length) {
            Ok(pieces) => pieces,
            Err(e) => {
                return Err(e);
            },
        };
        Ok(
            TorrentInfo {
                name,
                piece_length,
                pieces,
                files: file_infos,
                private: false,
                comment,
                creation_date: Some(created_at),
                created_by: Some("file-storage-system".to_owned()),
            },
        )
    }
}

/// The contents of the first `n` files laid end to end.
pub open spec fn all_bytes(contents: Seq<Vec<u8>>, n: int) -> Seq<u8>
    decreases n,
{
    if n <= 0 {
        Seq::empty()
    } else {
        all_bytes(contents, n - 1) + contents[n - 1]@
    }
}

} // verus!
