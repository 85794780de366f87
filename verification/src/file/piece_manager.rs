//! The piece store: which pieces have been accepted, and which of their
//! bodies are held in memory.

use crate::common::bitfield::positions;
use crate::common::bitfield::Bitfield;
use crate::common::bits::MAX_PIECES;
use crate::common::digest::sha1_digest;
use crate::common::digest::sha1_of;
use crate::common::error::FileError;
use crate::common::error::TorrentError;
use crate::common::error::ValidationError;
use crate::common::types::same_bytes;
use crate::common::types::Piece;
use crate::common::types::PieceIndex;
use std::collections::HashMap;
use vstd::prelude::*;

verus! {

broadcast use vstd::std_specs::hash::group_hash_axioms;

/// What became of bytes handed in for a piece.
#[derive(Debug, Clone, Copy, PartialEq, Eq, Structural)]
pub enum SubmitOutcome {
    Accepted,
    RejectedBadHash,
}

/// One body held in memory: whose it is, and whether the file layout has it
/// too.
#[derive(Debug, Clone, Copy, PartialEq, Eq, Structural)]
pub struct CacheEntry {
    pub piece_index: PieceIndex,
    pub persisted: bool,
}

/// The position of the first entry that `wanted` holds of, or the length
/// where there is none.
pub open spec fn first_where(cache: Seq<CacheEntry>, wanted: spec_fn(CacheEntry) -> bool) -> int
    decreases cache.len(),
{
    if cache.len() == 0 {
        0
    } else if wanted(cache.first()) {
        0
    } else {
        1 + first_where(cache.drop_first(), wanted)
    }
}

/// The position of the entry of a piece, or the length where it has none.
pub open spec fn slot_of(cache: Seq<CacheEntry>, piece: PieceIndex) -> int {
    first_where(cache, |e: CacheEntry| e.piece_index == piece)
}

/// The position of the entry that leaves first: the least recently used of
/// those that the file layout has too; the length where there is none.
pub open spec fn evictable(cache: Seq<CacheEntry>) -> int {
    first_where(cache, |e: CacheEntry| e.persisted)
}

/// The piece whose body leaves memory when `piece` is put in.
pub open spec fn evicted_by_put(cache: Seq<CacheEntry>, piece: PieceIndex, capacity: nat) -> Option<
    PieceIndex,
> {
    if slot_of(cache, piece) < cache.len() || cache.len() < capacity || evictable(cache)
        >= cache.len() {
        None
    } else {
        Some(cache[evictable(cache)].piece_index)
    }
}

/// Whether room can be made for the body of `piece`: it has an entry
/// already, or the cache is not full, or an entry can leave.
pub open spec fn has_room(cache: Seq<CacheEntry>, piece: PieceIndex, capacity: nat) -> bool {
    slot_of(cache, piece) < cache.len() || cache.len() < capacity || evictable(cache) < cache.len()
}

/// The entries after `piece` was put in, least recently used first. Where
/// no room can be made, they stay as they are.
pub open spec fn cache_put(
    cache: Seq<CacheEntry>,
    piece: PieceIndex,
    persisted: bool,
    capacity: nat,
) -> Seq<CacheEntry> {
    let k = slot_of(cache, piece);
    let e = evictable(cache);
    if k < cache.len() {
        cache.remove(k).push(
            CacheEntry { piece_index: piece, persisted: cache[k].persisted || persisted },
        )
    } else if cache.len() < capacity {
        cache.push(CacheEntry { piece_index: piece, persisted })
    } else if e < cache.len() {
        cache.remove(e).push(CacheEntry { piece_index: piece, persisted })
    } else {
        cache
    }
}

/// The entries after `piece` was used: its entry, if any, is the most
/// recently used.
pub open spec fn cache_touch(cache: Seq<CacheEntry>, piece: PieceIndex) -> Seq<CacheEntry> {
    let k = slot_of(cache, piece);
    if k < cache.len() {
        cache.remove(k).push(cache[k])
    } else {
        cache
    }
}

/// The entries without that of `piece`.
pub open spec fn cache_without(cache: Seq<CacheEntry>, piece: PieceIndex) -> Seq<CacheEntry> {
    let k = slot_of(cache, piece);
    if k < cache.len() {
        cache.remove(k)
    } else {
        cache
    }
}

/// The entries with that of `piece` marked as held by the file layout.
pub open spec fn cache_persisted(cache: Seq<CacheEntry>, piece: PieceIndex) -> Seq<CacheEntry> {
    let k = slot_of(cache, piece);
    if k < cache.len() {
        cache.update(k, CacheEntry { piece_index: piece, persisted: true })
    } else {
        cache
    }
}

/// The pieces whose bodies are in memory and that the file layout does not
/// hold yet, least recently used first.
pub open spec fn unpersisted_of(cache: Seq<CacheEntry>) -> Seq<PieceIndex>
    decreases cache.len(),
{
    if cache.len() == 0 {
        Seq::empty()
    } else if cache.last().persisted {
        unpersisted_of(cache.drop_last())
    } else {
        unpersisted_of(cache.drop_last()).push(cache.last().piece_index)
    }
}

/// What `first_where` finds: nothing before it is wanted, and it is wanted
/// itself unless it is the length.
pub proof fn lemma_first_where(cache: Seq<CacheEntry>, wanted: spec_fn(CacheEntry) -> bool)
    ensures
        0 <= first_where(cache, wanted) <= cache.len(),
        forall|j: int| 0 <= j < first_where(cache, wanted) ==> !wanted(#[trigger] cache[j]),
        first_where(cache, wanted) < cache.len() ==> wanted(cache[first_where(cache, wanted)]),
    decreases cache.len(),
{
    if cache.len() > 0 && !wanted(cache.first()) {
        let rest = cache.drop_first();
        lemma_first_where(rest, wanted);
        assert forall|j: int| 0 <= j < first_where(cache, wanted) implies !wanted(
            #[trigger] cache[j],
        ) by {
            if j > 0 {
                assert(cache[j] == rest[j - 1]);
            }
        }
        if first_where(cache, wanted) < cache.len() {
            assert(cache[first_where(cache, wanted)] == rest[first_where(rest, wanted)]);
        }
    }
}

/// A position before which nothing is wanted, and which is wanted itself or
/// is the length, is what `first_where` finds.
pub proof fn lemma_first_where_is(
    cache: Seq<CacheEntry>,
    wanted: spec_fn(CacheEntry) -> bool,
    k: int,
)
    requires
        0 <= k <= cache.len(),
        forall|j: int| 0 <= j < k ==> !wanted(#[trigger] cache[j]),
        k < cache.len() ==> wanted(cache[k]),
    ensures
        first_where(cache, wanted) == k,
{
    lemma_first_where(cache, wanted);
    let f = first_where(cache, wanted);
    if f < k {
        assert(!wanted(cache[f]));
    }
}

/// What the store is: the hashes expected, the pieces accepted and the bytes
/// they were accepted with, the bodies in memory, and the order in which
/// those were last used.
pub struct StoreView {
    pub hashes: Seq<Seq<u8>>,
    pub have: Seq<bool>,
    pub accepted: Seq<Option<Seq<u8>>>,
    pub bodies: Seq<Option<Seq<u8>>>,
    pub cache: Seq<CacheEntry>,
    pub capacity: nat,
    pub piece_length: u32,
}

impl StoreView {
    /// What holds of every store. A piece is marked as present only once
    /// bytes with its hash were accepted for it; a body in memory is those
    /// bytes; and the bodies in memory are those of the entries, each of
    /// which stands for another piece.
    pub open spec fn consistent(self) -> bool {
        &&& self.hashes.len() <= MAX_PIECES
        &&& self.cache.len() <= self.capacity
        &&& self.have.len() == self.hashes.len()
        &&& self.accepted.len() == self.hashes.len()
        &&& self.bodies.len() == self.hashes.len()
        &&& forall|i: int|
            0 <= i < self.hashes.len() && #[trigger] self.have[i] ==> self.accepted[i] is Some
                && sha1_of(self.accepted[i]->0) == self.hashes[i]
        &&& forall|i: int|
            0 <= i < self.hashes.len() && (#[trigger] self.bodies[i]) is Some ==> self.have[i]
                && self.bodies[i] == self.accepted[i]
        &&& forall|k: int|
            0 <= k < self.cache.len() ==> (#[trigger] self.cache[k]).piece_index
                < self.hashes.len() && self.bodies[self.cache[k].piece_index as int] is Some
        &&& forall|i: int|
            0 <= i < self.hashes.len() && (#[trigger] self.bodies[i]) is Some ==> slot_of(
                self.cache,
                i as PieceIndex,
            ) < self.cache.len()
        &&& forall|k: int, l: int|
            0 <= k < l < self.cache.len() ==> (#[trigger] self.cache[k]).piece_index != (
            #[trigger] self.cache[l]).piece_index
    }

    /// The store after bytes with the right hash were taken for `piece`.
    /// Where no room can be made for the body, the body is not kept.
    pub open spec fn put(self, piece: PieceIndex, data: Seq<u8>, persisted: bool) -> StoreView {
        let with_body = if has_room(self.cache, piece, self.capacity) {
            self.bodies.update(piece as int, Some(data))
        } else {
            self.bodies
        };
        StoreView {
            have: self.have.update(piece as int, true),
            accepted: self.accepted.update(piece as int, Some(data)),
            bodies: match evicted_by_put(self.cache, piece, self.capacity) {
                Some(e) => with_body.update(e as int, None),
                None => with_body,
            },
            cache: cache_put(self.cache, piece, persisted, self.capacity),
            ..self
        }
    }

    /// The store after `piece` was found to be bad: it is absent again.
    pub open spec fn without(self, piece: PieceIndex) -> StoreView {
        StoreView {
            have: self.have.update(piece as int, false),
            bodies: self.bodies.update(piece as int, None),
            cache: cache_without(self.cache, piece),
            ..self
        }
    }

    /// The store after the body of `piece` left memory.
    pub open spec fn released(self, piece: PieceIndex) -> StoreView {
        StoreView {
            bodies: self.bodies.update(piece as int, None),
            cache: cache_without(self.cache, piece),
            ..self
        }
    }
}

/// A piece that has an entry is found by `slot_of`.
pub proof fn lemma_has_slot(cache: Seq<CacheEntry>, piece: PieceIndex, j: int)
    requires
        0 <= j < cache.len(),
        cache[j].piece_index == piece,
    ensures
        slot_of(cache, piece) < cache.len(),
        cache[slot_of(cache, piece)].piece_index == piece,
{
    lemma_first_where(cache, |e: CacheEntry| e.piece_index == piece);
}

/// Where `slot_of` gives the length, the piece has no entry.
pub proof fn lemma_no_slot(cache: Seq<CacheEntry>, piece: PieceIndex)
    requires
        slot_of(cache, piece) >= cache.len(),
    ensures
        forall|j: int| 0 <= j < cache.len() ==> (#[trigger] cache[j]).piece_index != piece,
{
    lemma_first_where(cache, |e: CacheEntry| e.piece_index == piece);
}

/// Whether no piece has two entries.
pub open spec fn distinct(cache: Seq<CacheEntry>) -> bool {
    forall|k: int, l: int|
        0 <= k < l < cache.len() ==> (#[trigger] cache[k]).piece_index != (
        #[trigger] cache[l]).piece_index
}

/// Taking the entry at `k` out and putting one for `piece` at the end keeps
/// the entries of all other pieces, and keeps them distinct where `piece`
/// had no other entry.
proof fn lemma_replace(cache: Seq<CacheEntry>, k: int, entry: CacheEntry)
    requires
        distinct(cache),
        0 <= k < cache.len(),
        forall|j: int|
            0 <= j < cache.len() && j != k ==> (#[trigger] cache[j]).piece_index
                != entry.piece_index,
    ensures
        distinct(cache.remove(k).push(entry)),
        slot_of(cache.remove(k).push(entry), entry.piece_index) < cache.len(),
        forall|p: PieceIndex|
            p != cache[k].piece_index && slot_of(cache, p) < cache.len() ==> slot_of(
                cache.remove(k).push(entry),
                p,
            ) < cache.len(),
        forall|j: int|
            0 <= j < cache.len() - 1 ==> (#[trigger] cache.remove(k).push(entry)[j]) == cache[if j
                < k {
                j
            } else {
                j + 1
            }],
        entry.piece_index != cache[k].piece_index ==> slot_of(
            cache.remove(k).push(entry),
            cache[k].piece_index,
        ) >= cache.len(),
{
    let after = cache.remove(k).push(entry);
    assert(after.len() == cache.len());
    assert(after[after.len() - 1] == entry);
    lemma_has_slot(after, entry.piece_index, after.len() - 1);
    assert forall|p: PieceIndex|
        p != cache[k].piece_index && slot_of(cache, p) < cache.len() implies slot_of(after, p)
        < cache.len() by {
        lemma_first_where(cache, |e: CacheEntry| e.piece_index == p);
        let j = slot_of(cache, p);
        assert(cache[j].piece_index == p);
        let j2 = if j < k {
            j
        } else {
            j - 1
        };
        assert(after[j2] == cache[j]);
        lemma_has_slot(after, p, j2);
    }
    if entry.piece_index != cache[k].piece_index {
        lemma_first_where(after, |e: CacheEntry| e.piece_index == cache[k].piece_index);
        let f = slot_of(after, cache[k].piece_index);
        if f < after.len() {
            if f < after.len() - 1 {
                let j = if f < k {
                    f
                } else {
                    f + 1
                };
                assert(after[f] == cache[j]);
                if j < k {
                    assert(cache[j].piece_index != cache[k].piece_index);
                } else {
                    assert(cache[k].piece_index != cache[j].piece_index);
                }
            }
        }
    }
}

/// Putting an entry for `piece` at the end, where it has none, keeps the
/// other entries and keeps them distinct.
proof fn lemma_append(cache: Seq<CacheEntry>, entry: CacheEntry)
    requires
        distinct(cache),
        slot_of(cache, entry.piece_index) >= cache.len(),
    ensures
        distinct(cache.push(entry)),
        slot_of(cache.push(entry), entry.piece_index) < cache.len() + 1,
        forall|p: PieceIndex|
            slot_of(cache, p) < cache.len() ==> slot_of(cache.push(entry), p) < cache.len() + 1,
{
    let after = cache.push(entry);
    lemma_no_slot(cache, entry.piece_index);
    lemma_has_slot(after, entry.piece_index, cache.len() as int);
    assert forall|p: PieceIndex| slot_of(cache, p) < cache.len() implies slot_of(after, p)
        < cache.len() + 1 by {
        lemma_first_where(cache, |e: CacheEntry| e.piece_index == p);
        let j = slot_of(cache, p);
        assert(after[j] == cache[j]);
        lemma_has_slot(after, p, j);
    }
}

/// Taking the entry at `k` out keeps the entries of all other pieces, keeps
/// them distinct, and leaves the piece at `k` without one.
proof fn lemma_remove(cache: Seq<CacheEntry>, k: int)
    requires
        distinct(cache),
        0 <= k < cache.len(),
    ensures
        distinct(cache.remove(k)),
        slot_of(cache.remove(k), cache[k].piece_index) >= cache.len() - 1,
        forall|p: PieceIndex|
            p != cache[k].piece_index && slot_of(cache, p) < cache.len() ==> slot_of(
                cache.remove(k),
                p,
            ) < cache.len() - 1,
        forall|j: int|
            0 <= j < cache.len() - 1 ==> (#[trigger] cache.remove(k)[j]) == cache[if j < k {
                j
            } else {
                j + 1
            }],
{
    let after = cache.remove(k);
    assert forall|p: PieceIndex|
        p != cache[k].piece_index && slot_of(cache, p) < cache.len() implies slot_of(after, p)
        < cache.len() - 1 by {
        lemma_first_where(cache, |e: CacheEntry| e.piece_index == p);
        let j = slot_of(cache, p);
        let j2 = if j < k {
            j
        } else {
            j - 1
        };
        assert(after[j2] == cache[j]);
        lemma_has_slot(after, p, j2);
    }
    lemma_first_where(after, |e: CacheEntry| e.piece_index == cache[k].piece_index);
    let f = slot_of(after, cache[k].piece_index);
    if f < after.len() {
        let j = if f < k {
            f
        } else {
            f + 1
        };
        assert(after[f] == cache[j]);
        if j < k {
            assert(cache[j].piece_index != cache[k].piece_index);
        } else {
            assert(cache[k].piece_index != cache[j].piece_index);
        }
    }
}

/// Accepting bytes with the right hash keeps a store consistent.
pub proof fn lemma_put_consistent(v: StoreView, piece: PieceIndex, data: Seq<u8>, persisted: bool)
    requires
        v.consistent(),
        piece < v.hashes.len(),
        sha1_of(data) == v.hashes[piece as int],
    ensures
        v.put(piece, data, persisted).consistent(),
{
    let w = v.put(piece, data, persisted);
    let k = slot_of(v.cache, piece);
    let e = evictable(v.cache);
    lemma_first_where(v.cache, |e: CacheEntry| e.piece_index == piece);
    lemma_first_where(v.cache, |e: CacheEntry| e.persisted);
    assert(distinct(v.cache));
    if k < v.cache.len() {
        let entry = CacheEntry { piece_index: piece, persisted: v.cache[k].persisted || persisted };
        assert forall|j: int| 0 <= j < v.cache.len() && j != k implies (
        #[trigger] v.cache[j]).piece_index != piece by {
            if j < k {
                assert(v.cache[j].piece_index != v.cache[k].piece_index);
            } else {
                assert(v.cache[k].piece_index != v.cache[j].piece_index);
            }
        }
        lemma_replace(v.cache, k, entry);
        assert(w.bodies == v.bodies.update(piece as int, Some(data)));
        assert forall|i: int| 0 <= i < w.hashes.len() && (#[trigger] w.bodies[i]) is Some implies slot_of(
            w.cache,
            i as PieceIndex,
        ) < w.cache.len() by {
            if i != piece {
                assert(v.bodies[i] is Some);
            }
        }
        assert(w.consistent());
    } else if v.cache.len() < v.capacity {
        let entry = CacheEntry { piece_index: piece, persisted };
        lemma_append(v.cache, entry);
        assert(w.bodies == v.bodies.update(piece as int, Some(data)));
        assert forall|i: int| 0 <= i < w.hashes.len() && (#[trigger] w.bodies[i]) is Some implies slot_of(
            w.cache,
            i as PieceIndex,
        ) < w.cache.len() by {
            if i != piece {
                assert(v.bodies[i] is Some);
            }
        }
        assert forall|j: int| 0 <= j < w.cache.len() implies (#[trigger] w.cache[j]).piece_index
            < w.hashes.len() && w.bodies[w.cache[j].piece_index as int] is Some by {
            if j < v.cache.len() {
                assert(w.cache[j] == v.cache[j]);
            }
        }
        assert(w.consistent());
    } else if e < v.cache.len() {
        let entry = CacheEntry { piece_index: piece, persisted };
        let gone = v.cache[e].piece_index;
        lemma_no_slot(v.cache, piece);
        assert(gone != piece);
        lemma_replace(v.cache, e, entry);
        assert(w.bodies == v.bodies.update(piece as int, Some(data)).update(gone as int, None));
        assert forall|i: int| 0 <= i < w.hashes.len() && (#[trigger] w.bodies[i]) is Some implies slot_of(
            w.cache,
            i as PieceIndex,
        ) < w.cache.len() by {
            if i != piece {
                assert(v.bodies[i] is Some);
            }
        }
        assert forall|j: int| 0 <= j < w.cache.len() implies (#[trigger] w.cache[j]).piece_index
            < w.hashes.len() && w.bodies[w.cache[j].piece_index as int] is Some by {
            if j < w.cache.len() - 1 {
                let j0 = if j < e {
                    j
                } else {
                    j + 1
                };
                assert(w.cache[j] == v.cache[j0]);
                if j0 < e {
                    assert(v.cache[j0].piece_index != v.cache[e].piece_index);
                } else {
                    assert(v.cache[e].piece_index != v.cache[j0].piece_index);
                }
            }
        }
        assert(w.consistent());
    } else {
        lemma_no_slot(v.cache, piece);
        assert(w.bodies == v.bodies);
        assert(w.cache == v.cache);
        assert forall|i: int| 0 <= i < w.hashes.len() && (#[trigger] w.bodies[i]) is Some implies w.have[i]
            && w.bodies[i] == w.accepted[i] by {
            if i == piece {
                assert(slot_of(v.cache, piece) < v.cache.len());
            }
        }
        assert(w.consistent());
    }
}

/// Where no body waits to be written, every body in memory is held by the
/// file layout too.
pub proof fn lemma_none_unpersisted(cache: Seq<CacheEntry>)
    requires
        unpersisted_of(cache).len() == 0,
    ensures
        forall|k: int| 0 <= k < cache.len() ==> (#[trigger] cache[k]).persisted,
    decreases cache.len(),
{
    if cache.len() > 0 {
        lemma_none_unpersisted(cache.drop_last());
        assert forall|k: int| 0 <= k < cache.len() implies (#[trigger] cache[k]).persisted by {
            if k < cache.len() - 1 {
                assert(cache[k] == cache.drop_last()[k]);
            }
        }
    }
}

/// Writing the bodies out is what lets a full store take more: where no
/// body waits to be written, and the store may hold one body at least, room
/// can be made for any piece.
pub proof fn lemma_room_once_persisted(cache: Seq<CacheEntry>, piece: PieceIndex, capacity: nat)
    requires
        capacity >= 1,
        unpersisted_of(cache).len() == 0,
    ensures
        has_room(cache, piece, capacity),
{
    if cache.len() > 0 {
        lemma_none_unpersisted(cache);
        assert(cache[0].persisted);
        lemma_first_where_is(cache, |e: CacheEntry| e.persisted, 0);
    }
}

/// A piece whose body is not in memory has no entry, so that using it
/// leaves the entries as they are.
pub proof fn lemma_touch_absent(v: StoreView, piece: PieceIndex)
    requires
        v.consistent(),
        piece < v.hashes.len(),
        v.bodies[piece as int] is None,
    ensures
        slot_of(v.cache, piece) >= v.cache.len(),
        cache_touch(v.cache, piece) == v.cache,
{
    lemma_first_where(v.cache, |e: CacheEntry| e.piece_index == piece);
}

/// Dropping a piece, or its body, keeps a store consistent.
pub proof fn lemma_without_consistent(v: StoreView, piece: PieceIndex)
    requires
        v.consistent(),
        piece < v.hashes.len(),
    ensures
        v.without(piece).consistent(),
        v.released(piece).consistent(),
{
    let k = slot_of(v.cache, piece);
    lemma_first_where(v.cache, |e: CacheEntry| e.piece_index == piece);
    assert(distinct(v.cache));
    let w = v.without(piece);
    let r = v.released(piece);
    if k < v.cache.len() {
        lemma_remove(v.cache, k);
        assert forall|i: int| 0 <= i < w.hashes.len() && (#[trigger] w.bodies[i]) is Some implies slot_of(
            w.cache,
            i as PieceIndex,
        ) < w.cache.len() by {
            assert(v.bodies[i] is Some);
        }
        assert forall|j: int| 0 <= j < w.cache.len() implies (#[trigger] w.cache[j]).piece_index
            < w.hashes.len() && w.bodies[w.cache[j].piece_index as int] is Some by {
            let j0 = if j < k {
                j
            } else {
                j + 1
            };
            assert(w.cache[j] == v.cache[j0]);
            if j0 < k {
                assert(v.cache[j0].piece_index != v.cache[k].piece_index);
            } else {
                assert(v.cache[k].piece_index != v.cache[j0].piece_index);
            }
        }
    } else {
        lemma_no_slot(v.cache, piece);
        assert forall|i: int| 0 <= i < w.hashes.len() && (#[trigger] w.bodies[i]) is Some implies slot_of(
            w.cache,
            i as PieceIndex,
        ) < w.cache.len() by {
            assert(v.bodies[i] is Some);
        }
    }
    assert(r.cache == w.cache && r.bodies == w.bodies);
    assert(w.consistent());
    assert(r.consistent());
}

/// The entries that stay when every body that the file layout has is let
/// go.
pub open spec fn cleared_cache(cache: Seq<CacheEntry>) -> Seq<CacheEntry>
    decreases cache.len(),
{
    if evictable(cache) < cache.len() && cache.len() > 0 && evictable(cache) >= 0 {
        cleared_cache(cache.remove(evictable(cache)))
    } else {
        cache
    }
}

/// The bodies that stay when every body that the file layout has is let go.
pub open spec fn cleared_bodies(bodies: Seq<Option<Seq<u8>>>, cache: Seq<CacheEntry>) -> Seq<
    Option<Seq<u8>>,
>
    decreases cache.len(),
{
    if evictable(cache) < cache.len() && cache.len() > 0 && evictable(cache) >= 0 {
        cleared_bodies(
            bodies.update(cache[evictable(cache)].piece_index as int, None),
            cache.remove(evictable(cache)),
        )
    } else {
        bodies
    }
}

/// After clearing, no entry is left that the file layout has, and what is
/// left was there before.
pub proof fn lemma_cleared_cache(cache: Seq<CacheEntry>)
    ensures
        forall|j: int|
            0 <= j < cleared_cache(cache).len() ==> !(#[trigger] cleared_cache(cache)[j]).persisted
                && cache.contains(cleared_cache(cache)[j]),
        cleared_cache(cache).len() <= cache.len(),
    decreases cache.len(),
{
    lemma_first_where(cache, |e: CacheEntry| e.persisted);
    let e = evictable(cache);
    if e < cache.len() && cache.len() > 0 {
        lemma_cleared_cache(cache.remove(e));
        assert forall|j: int| 0 <= j < cleared_cache(cache).len() implies cache.contains(
            #[trigger] cleared_cache(cache)[j],
        ) by {
            let x = cleared_cache(cache)[j];
            assert(cache.remove(e).contains(x));
            let m = choose|m: int| 0 <= m < cache.remove(e).len() && cache.remove(e)[m] == x;
            assert(cache[if m < e {
                m
            } else {
                m + 1
            }] == x);
        }
    }
}

/// What taking bytes for a piece does to a store and returns: an index
/// outside the torrent is an error, bytes with the wrong hash are turned
/// away, and bytes that the file layout does not hold yet are an error
/// where no room can be made for them in memory; each of these changes
/// nothing. All other bytes are accepted.
pub open spec fn taken(
    before: StoreView,
    piece: PieceIndex,
    data: Seq<u8>,
    persisted: bool,
    r: Result<SubmitOutcome, TorrentError>,
    after: StoreView,
) -> bool {
    if piece >= before.hashes.len() {
        r == Err::<SubmitOutcome, TorrentError>(
            TorrentError::Validation(ValidationError::InvalidHash),
        ) && after == before
    } else if sha1_of(data) != before.hashes[piece as int] {
        r == Ok::<SubmitOutcome, TorrentError>(SubmitOutcome::RejectedBadHash) && after == before
    } else if !persisted && !has_room(before.cache, piece, before.capacity) {
        r == Err::<SubmitOutcome, TorrentError>(TorrentError::File(FileError::CacheFull)) && after
            == before
    } else {
        r == Ok::<SubmitOutcome, TorrentError>(SubmitOutcome::Accepted) && after == before.put(
            piece,
            data,
            persisted,
        )
    }
}

/// The bytes of a body, if there is one.
pub open spec fn body_view(data: Option<Vec<u8>>) -> Option<Seq<u8>> {
    match data {
        Some(d) => Some(d@),
        None => None,
    }
}

/// Notes in the record of a piece, if it has one, whether the piece is
/// present.
fn set_verified(pieces: &mut HashMap<PieceIndex, Piece>, piece_index: PieceIndex, verified: bool)
    ensures
        final(pieces)@ == if old(pieces)@.contains_key(piece_index) {
            old(pieces)@.insert(piece_index, Piece { verified, ..old(pieces)@[piece_index] })
        } else {
            old(pieces)@
        },
{
    match pieces.remove(&piece_index) {
        Some(record) => {
            let mut record = record;
            record.verified = verified;
            pieces.insert(piece_index, record);
            assert(pieces@ =~= old(pieces)@.insert(
                piece_index,
                Piece { verified, ..old(pieces)@[piece_index] },
            ));
        },
        None => {
            assert(pieces@ =~= old(pieces)@);
        },
    }
}

/// The piece store of one torrent: the record of each piece by its index,
/// the bodies in memory by the index of their piece, and beside them the
/// order in which the bodies were last used.
pub struct PieceManager {
    pieces: HashMap<PieceIndex, Piece>,
    bitfield: Bitfield,
    piece_length: u32,
    num_pieces: usize,
    piece_cache: HashMap<PieceIndex, Vec<u8>>,
    cache_order: Vec<CacheEntry>,
    cache_size: usize,
    accepted: Ghost<Seq<Option<Seq<u8>>>>,
}

impl View for PieceManager {
    type V = StoreView;

    closed spec fn view(&self) -> StoreView {
        StoreView {
            hashes: Seq::new(self.num_pieces as nat, |i: int| self.pieces@[i as PieceIndex].hash@),
            have: self.bitfield@,
            accepted: self.accepted@,
            bodies: Seq::new(
                self.num_pieces as nat,
                |i: int|
                    if self.piece_cache@.contains_key(i as PieceIndex) {
                        Some(self.piece_cache@[i as PieceIndex]@)
                    } else {
                        None
                    },
            ),
            cache: self.cache_order@,
            capacity: self.cache_size as nat,
            piece_length: self.piece_length,
        }
    }
}

impl PieceManager {
    /// What every store fulfils: it is consistent, and each piece knows its
    /// index and whether it is present.
    pub closed spec fn wf(&self) -> bool {
        &&& self@.consistent()
        &&& forall|p: PieceIndex|
            #![trigger self.pieces@.contains_key(p)]
            #![trigger self.pieces@[p]]
            p < self.num_pieces ==> self.pieces@.contains_key(p) && self.pieces@[p].index == p
                && self.pieces@[p].verified == self.bitfield@[p as int]
        &&& forall|p: PieceIndex| #[trigger] self.piece_cache@.contains_key(p) ==> p < self.num_pieces
    }

    /// A store is consistent.
    pub proof fn lemma_wf_consistent(&self)
        requires
            self.wf(),
        ensures
            self@.consistent(),
    {
    }

    /// Every piece that the store has was accepted with bytes whose SHA-1 is
    /// the hash expected of it; and no body in memory is anything else.
    pub proof fn lemma_integrity(&self, piece: PieceIndex)
        requires
            self.wf(),
            piece < self@.have.len(),
            self@.have[piece as int],
        ensures
            self@.accepted[piece as int] is Some,
            sha1_of(self@.accepted[piece as int]->0) == self@.hashes[piece as int],
            self@.bodies[piece as int] is Some ==> self@.bodies[piece as int]
                == self@.accepted[piece as int],
    {
    }

    /// A store of the pieces with the given hashes, none of them present.
    pub fn new(piece_hashes: Vec<crate::common::types::Hash>, piece_length: u32, cache_size: usize) -> (store:
        PieceManager)
        requires
            piece_hashes@.len() <= MAX_PIECES,
        ensures
            store.wf(),
            store@ == (StoreView {
                hashes: Seq::new(piece_hashes@.len(), |i: int| piece_hashes@[i]@),
                have: Seq::new(piece_hashes@.len(), |i: int| false),
                accepted: Seq::new(piece_hashes@.len(), |i: int| None),
                bodies: Seq::new(piece_hashes@.len(), |i: int| None),
                cache: Seq::empty(),
                capacity: cache_size as nat,
                piece_length,
            }),
    {
        let num_pieces = piece_hashes.len();
        let mut pieces: HashMap<PieceIndex, Piece> = HashMap::new();
        let mut index: usize = 0;
        while index < num_pieces
            invariant
                index <= num_pieces,
                num_pieces == piece_hashes@.len(),
                num_pieces <= MAX_PIECES,
                forall|p: PieceIndex|
                    #![trigger pieces@.contains_key(p)]
                    #![trigger pieces@[p]]
                    p < index ==> pieces@.contains_key(p) && pieces@[p].index == p && pieces@[p].hash
                        == piece_hashes@[p as int] && pieces@[p].data is None
                        && !pieces@[p].verified,
            decreases num_pieces - index,
        {
            pieces.insert(index as PieceIndex, Piece::new(index as PieceIndex, piece_hashes[index]));
            index += 1;
        }
        let store = PieceManager {
            pieces,
            bitfield: Bitfield::new(num_pieces),
            piece_length,
            num_pieces,
            piece_cache: HashMap::new(),
            cache_order: Vec::new(),
            cache_size,
            accepted: Ghost(Seq::new(num_pieces as nat, |i: int| None)),
        };
        assert(store@.hashes =~= Seq::new(piece_hashes@.len(), |i: int| piece_hashes@[i]@));
        assert(store@.bodies =~= Seq::new(piece_hashes@.len(), |i: int| None));
        assert(store@.have =~= Seq::new(piece_hashes@.len(), |i: int| false));
        store
    }

    /// The pieces present, one bit each.
    pub fn bitfield(&self) -> (b: &Bitfield)
        ensures
            b@ == self@.have,
    {
        &self.bitfield
    }

    pub fn num_pieces(&self) -> (n: usize)
        requires
            self.wf(),
        ensures
            n == self@.hashes.len(),
    {
        self.num_pieces
    }

    pub fn piece_length(&self) -> (n: u32)
        ensures
            n == self@.piece_length,
    {
        self.piece_length
    }

    pub fn is_valid_piece(&self, piece_index: PieceIndex) -> (valid: bool)
        requires
            self.wf(),
        ensures
            valid == (piece_index < self@.hashes.len()),
    {
        (piece_index as usize) < self.num_pieces
    }

    pub fn has_piece(&self, piece_index: PieceIndex) -> (present: bool)
        ensures
            present == (piece_index < self@.have.len() && self@.have[piece_index as int]),
    {
        self.bitfield.has_piece(piece_index)
    }

    /// The record of the piece at an index, if the index is one of the
    /// torrent: its hash, and whether it is present. The body is not in the
    /// record: see `body`.
    pub fn get_piece(&self, piece_index: PieceIndex) -> (piece: Option<&Piece>)
        requires
            self.wf(),
        ensures
            match piece {
                Some(p) => piece_index < self@.hashes.len() && p.index == piece_index && p.hash@
                    == self@.hashes[piece_index as int] && p.verified
                    == self@.have[piece_index as int],
                None => piece_index >= self@.hashes.len(),
            },
    {
        if (piece_index as usize) < self.num_pieces {
            self.pieces.get(&piece_index)
        } else {
            None
        }
    }

    /// The body of a piece if it is in memory. Looking at it is no use of
    /// it: the order in which bodies leave memory stays as it is.
    pub fn body(&self, piece_index: PieceIndex) -> (body: Option<&Vec<u8>>)
        ensures
            match body {
                Some(b) => piece_index < self@.bodies.len() && self@.bodies[piece_index as int]
                    == Some(b@),
                None => piece_index >= self@.bodies.len() || self@.bodies[piece_index as int]
                    is None,
            },
    {
        if (piece_index as usize) < self.num_pieces {
            self.piece_cache.get(&piece_index)
        } else {
            None
        }
    }

    /// The hash expected of a piece of the torrent.
    fn expected_hash(&self, piece_index: PieceIndex) -> (hash: crate::common::types::Hash)
        requires
            self.wf(),
            piece_index < self@.hashes.len(),
        ensures
            hash@ == self@.hashes[piece_index as int],
    {
        match self.pieces.get(&piece_index) {
            Some(record) => record.hash,
            None => [0u8; 20],
        }
    }

    /// The position of the entry of a piece, or the number of entries.
    fn find_slot(&self, piece_index: PieceIndex) -> (k: usize)
        ensures
            k == slot_of(self.cache_order@, piece_index),
            k <= self.cache_order@.len(),
    {
        let mut k: usize = 0;
        while k < self.cache_order.len()
            invariant
                k <= self.cache_order@.len(),
                forall|j: int| 0 <= j < k ==> (#[trigger] self.cache_order@[j]).piece_index != piece_index,
            decreases self.cache_order@.len() - k,
        {
            if self.cache_order[k].piece_index == piece_index {
                proof {
                    lemma_first_where_is(
                        self.cache_order@,
                        |e: CacheEntry| e.piece_index == piece_index,
                        k as int,
                    );
                }
                return k;
            }
            k += 1;
        }
        proof {
            lemma_first_where_is(
                self.cache_order@,
                |e: CacheEntry| e.piece_index == piece_index,
                k as int,
            );
        }
        k
    }

    /// The position of the entry that leaves first, or the number of
    /// entries.
    fn find_evictable(&self) -> (k: usize)
        ensures
            k == evictable(self.cache_order@),
            k <= self.cache_order@.len(),
    {
        let mut k: usize = 0;
        while k < self.cache_order.len()
            invariant
                k <= self.cache_order@.len(),
                forall|j: int| 0 <= j < k ==> !(#[trigger] self.cache_order@[j]).persisted,
            decreases self.cache_order@.len() - k,
        {
            if self.cache_order[k].persisted {
                proof {
                    lemma_first_where_is(self.cache_order@, |e: CacheEntry| e.persisted, k as int);
                }
                return k;
            }
            k += 1;
        }
        proof {
            lemma_first_where_is(self.cache_order@, |e: CacheEntry| e.persisted, k as int);
        }
        k
    }

    /// Whether room can be made in memory for the body of a piece.
    fn room_for(&self, piece_index: PieceIndex) -> (room: bool)
        ensures
            room == has_room(self.cache_order@, piece_index, self.cache_size as nat),
    {
        let k = self.find_slot(piece_index);
        if k < self.cache_order.len() || self.cache_order.len() < self.cache_size {
            return true;
        }
        let e = self.find_evictable();
        e < self.cache_order.len()
    }

    /// Takes bytes with the right hash for a piece.
    fn put(&mut self, piece_index: PieceIndex, data: Vec<u8>, persisted: bool)
        requires
            old(self).wf(),
            piece_index < old(self)@.hashes.len(),
            sha1_of(data@) == old(self)@.hashes[piece_index as int],
            persisted || has_room(old(self)@.cache, piece_index, old(self)@.capacity),
        ensures
            final(self).wf(),
            final(self)@ == old(self)@.put(piece_index, data@, persisted),
    {
        let ghost before = self@;
        proof {
            lemma_put_consistent(before, piece_index, data@, persisted);
            lemma_first_where(before.cache, |e: CacheEntry| e.piece_index == piece_index);
            lemma_first_where(before.cache, |e: CacheEntry| e.persisted);
        }
        let k = self.find_slot(piece_index);
        let mut keep = true;
        if k < self.cache_order.len() {
            let entry = self.cache_order.remove(k);
            self.cache_order.push(
                CacheEntry { piece_index, persisted: entry.persisted || persisted },
            );
        } else if self.cache_order.len() < self.cache_size {
            self.cache_order.push(CacheEntry { piece_index, persisted });
        } else {
            let e = self.find_evictable();
            if e < self.cache_order.len() {
                let gone = self.cache_order.remove(e);
                self.cache_order.push(CacheEntry { piece_index, persisted });
                self.piece_cache.remove(&gone.piece_index);
            } else {
                keep = false;
            }
        }
        if keep {
            self.piece_cache.insert(piece_index, data);
        }
        set_verified(&mut self.pieces, piece_index, true);
        self.bitfield.set_piece(piece_index);
        proof {
            self.accepted@ = self.accepted@.update(piece_index as int, Some(data@));
        }
        assert(self@.hashes =~= before.hashes);
        assert(self@.bodies =~= before.put(piece_index, data@, persisted).bodies);
        assert(self@.cache =~= before.put(piece_index, data@, persisted).cache);
    }

    /// Takes the bytes of a piece as they came from a peer. Bytes with the
    /// wrong hash change nothing; an index outside the torrent is an error.
    /// So is a cache in which no room can be made, since a body that the
    /// file layout does not hold never leaves memory: nothing changes then,
    /// and the bytes can be handed in again once a body has been persisted.
    pub fn submit(&mut self, piece_index: PieceIndex, data: Vec<u8>) -> (r: Result<
        SubmitOutcome,
        TorrentError,
    >)
        requires
            old(self).wf(),
        ensures
            final(self).wf(),
            taken(old(self)@, piece_index, data@, false, r, final(self)@),
            final(self)@.cache.len() <= final(self)@.capacity,
    {
        self.take(piece_index, data, false)
    }

    /// Takes the bytes of a piece as they were read from the file layout:
    /// as `submit` does, but the body counts as held by the layout, so it
    /// is accepted also where no room can be made: it is then not kept in
    /// memory.
    pub fn load_piece(&mut self, piece_index: PieceIndex, data: Vec<u8>) -> (r: Result<
        SubmitOutcome,
        TorrentError,
    >)
        requires
            old(self).wf(),
        ensures
            final(self).wf(),
            taken(old(self)@, piece_index, data@, true, r, final(self)@),
            final(self)@.cache.len() <= final(self)@.capacity,
    {
        self.take(piece_index, data, true)
    }

    fn take(&mut self, piece_index: PieceIndex, data: Vec<u8>, persisted: bool) -> (r: Result<
        SubmitOutcome,
        TorrentError,
    >)
        requires
            old(self).wf(),
        ensures
            final(self).wf(),
            taken(old(self)@, piece_index, data@, persisted, r, final(self)@),
    {
        if !self.is_valid_piece(piece_index) {
            return Err(TorrentError::Validation(ValidationError::InvalidHash));
        }
        let computed = sha1_digest(data.as_slice());
        let expected = self.expected_hash(piece_index);
        if !same_bytes(computed.as_slice(), expected.as_slice()) {
            return Ok(SubmitOutcome::RejectedBadHash);
        }
        if !persisted && !self.room_for(piece_index) {
            return Err(TorrentError::File(FileError::CacheFull));
        }
        self.put(piece_index, data, persisted);
        Ok(SubmitOutcome::Accepted)
    }

    /// Takes the bytes of a piece as they were read back from the file
    /// layout. Bytes with the right hash are accepted as `load_piece` accepts
    /// them. Bytes with the wrong hash show that the piece is bad on disk: it
    /// is absent again, to be fetched anew. Says whether the bytes were
    /// accepted; an index outside the torrent changes nothing.
    pub fn read_back(&mut self, piece_index: PieceIndex, data: Vec<u8>) -> (accepted: bool)
        requires
            old(self).wf(),
        ensures
            final(self).wf(),
            accepted == (piece_index < old(self)@.hashes.len() && sha1_of(data@)
                == old(self)@.hashes[piece_index as int]),
            final(self)@ == if piece_index >= old(self)@.hashes.len() {
                old(self)@
            } else if accepted {
                old(self)@.put(piece_index, data@, true)
            } else {
                old(self)@.without(piece_index)
            },
    {
        if !self.is_valid_piece(piece_index) {
            return false;
        }
        let computed = sha1_digest(data.as_slice());
        let expected = self.expected_hash(piece_index);
        if same_bytes(computed.as_slice(), expected.as_slice()) {
            self.put(piece_index, data, true);
            true
        } else {
            self.mark_corrupt(piece_index);
            false
        }
    }

    /// Takes the bytes of a piece and says whether they were accepted.
    pub fn add_piece_data(&mut self, piece_index: PieceIndex, data: Vec<u8>) -> (r: Result<
        bool,
        TorrentError,
    >)
        requires
            old(self).wf(),
        ensures
            final(self).wf(),
            final(self)@.cache.len() <= final(self)@.capacity,
            piece_index >= old(self)@.hashes.len() ==> r == Err::<bool, TorrentError>(
                TorrentError::Validation(ValidationError::InvalidHash),
            ) && final(self)@ == old(self)@,
            piece_index < old(self)@.hashes.len() && sha1_of(data@)
                != old(self)@.hashes[piece_index as int] ==> r == Ok::<bool, TorrentError>(false)
                && final(self)@ == old(self)@,
            piece_index < old(self)@.hashes.len() && sha1_of(data@)
                == old(self)@.hashes[piece_index as int] && !has_room(
                old(self)@.cache,
                piece_index,
                old(self)@.capacity,
            ) ==> r == Err::<bool, TorrentError>(TorrentError::File(FileError::CacheFull))
                && final(self)@ == old(self)@,
            piece_index < old(self)@.hashes.len() && sha1_of(data@)
                == old(self)@.hashes[piece_index as int] && has_room(
                old(self)@.cache,
                piece_index,
                old(self)@.capacity,
            ) ==> r == Ok::<bool, TorrentError>(true) && final(self)@ == old(self)@.put(
                piece_index,
                data@,
                false,
            ),
    {
        match self.submit(piece_index, data) {
            Ok(SubmitOutcome::Accepted) => Ok(true),
            Ok(SubmitOutcome::RejectedBadHash) => Ok(false),
            Err(e) => Err(e),
        }
    }

    /// The body of a piece if it is in memory. Asking counts as a use: the
    /// body becomes the most recently used.
    pub fn get_piece_data(&mut self, piece_index: PieceIndex) -> (data: Option<Vec<u8>>)
        requires
            old(self).wf(),
        ensures
            final(self).wf(),
            body_view(data) == if piece_index < old(self)@.hashes.len() {
                old(self)@.bodies[piece_index as int]
            } else {
                None
            },
            final(self)@ == (StoreView {
                cache: cache_touch(old(self)@.cache, piece_index),
                ..old(self)@
            }),
    {
        let ghost before = self@;
        proof {
            lemma_first_where(before.cache, |e: CacheEntry| e.piece_index == piece_index);
        }
        let k = self.find_slot(piece_index);
        if k < self.cache_order.len() {
            proof {
                assert(distinct(before.cache));
                assert forall|j: int| 0 <= j < before.cache.len() && j != k implies (
                #[trigger] before.cache[j]).piece_index != before.cache[k as int].piece_index by {
                    if j < k {
                        assert(before.cache[j].piece_index != before.cache[k as int].piece_index);
                    } else {
                        assert(before.cache[k as int].piece_index != before.cache[j].piece_index);
                    }
                }
                lemma_replace(before.cache, k as int, before.cache[k as int]);
            }
            let entry = self.cache_order.remove(k);
            self.cache_order.push(entry);
            proof {
                let after = self@;
                assert(after.hashes =~= before.hashes);
                assert(after.bodies =~= before.bodies);
                assert(after.cache =~= cache_touch(before.cache, piece_index));
                assert forall|i: int| 0 <= i < after.hashes.len() && (#[trigger] after.bodies[i]) is Some implies slot_of(
                    after.cache,
                    i as PieceIndex,
                ) < after.cache.len() by {
                    assert(before.bodies[i] is Some);
                }
                assert forall|j: int| 0 <= j < after.cache.len() implies (
                #[trigger] after.cache[j]).piece_index < after.hashes.len()
                    && after.bodies[after.cache[j].piece_index as int] is Some by {
                    if j < after.cache.len() - 1 {
                        assert(after.cache[j] == before.cache[if j < k {
                            j
                        } else {
                            j + 1
                        }]);
                    }
                }
            }
        } else {
            proof {
                lemma_no_slot(before.cache, piece_index);
            }
        }
        if (piece_index as usize) < self.num_pieces {
            match self.piece_cache.get(&piece_index) {
                Some(body) => Some(body.clone()),
                None => None,
            }
        } else {
            None
        }
    }

    /// Lets the body of a piece go, if the file layout has it.
    pub fn evict_from_cache(&mut self, piece_index: PieceIndex)
        requires
            old(self).wf(),
        ensures
            final(self).wf(),
            final(self)@ == if slot_of(old(self)@.cache, piece_index) < old(self)@.cache.len()
                && old(self)@.cache[slot_of(old(self)@.cache, piece_index)].persisted {
                old(self)@.released(piece_index)
            } else {
                old(self)@
            },
    {
        let ghost before = self@;
        proof {
            lemma_first_where(before.cache, |e: CacheEntry| e.piece_index == piece_index);
        }
        let k = self.find_slot(piece_index);
        if k < self.cache_order.len() && self.cache_order[k].persisted {
            proof {
                lemma_without_consistent(before, piece_index);
            }
            self.cache_order.remove(k);
            self.piece_cache.remove(&piece_index);
            assert(self@.hashes =~= before.hashes);
            assert(self@.bodies =~= before.released(piece_index).bodies);
        }
    }

    /// Records that the file layout now has the body of a piece.
    pub fn mark_persisted(&mut self, piece_index: PieceIndex)
        requires
            old(self).wf(),
        ensures
            final(self).wf(),
            final(self)@ == (StoreView {
                cache: cache_persisted(old(self)@.cache, piece_index),
                ..old(self)@
            }),
    {
        let ghost before = self@;
        proof {
            lemma_first_where(before.cache, |e: CacheEntry| e.piece_index == piece_index);
        }
        let k = self.find_slot(piece_index);
        if k < self.cache_order.len() {
            self.cache_order[k] = CacheEntry { piece_index, persisted: true };
            proof {
                let after = self@;
                assert(after.hashes =~= before.hashes);
                assert(after.bodies =~= before.bodies);
                assert forall|i: int| 0 <= i < after.hashes.len() && (#[trigger] after.bodies[i]) is Some implies slot_of(
                    after.cache,
                    i as PieceIndex,
                ) < after.cache.len() by {
                    assert(before.bodies[i] is Some);
                    let j = slot_of(before.cache, i as PieceIndex);
                    lemma_first_where(before.cache, |e: CacheEntry| e.piece_index == i as PieceIndex);
                    assert(after.cache[j].piece_index == i);
                    lemma_has_slot(after.cache, i as PieceIndex, j);
                }
                assert forall|j: int| 0 <= j < after.cache.len() implies (
                #[trigger] after.cache[j]).piece_index < after.hashes.len()
                    && after.bodies[after.cache[j].piece_index as int] is Some by {
                    assert(after.cache[j].piece_index == before.cache[j].piece_index);
                }
                assert forall|a: int, b: int| 0 <= a < b < after.cache.len() implies (
                #[trigger] after.cache[a]).piece_index != (#[trigger] after.cache[b]).piece_index by {
                    assert(before.cache[a].piece_index != before.cache[b].piece_index);
                }
            }
        }
    }

    /// Records that a piece was found to be bad: it is absent again, and its
    /// body leaves memory.
    pub fn mark_corrupt(&mut self, piece_index: PieceIndex)
        requires
            old(self).wf(),
        ensures
            final(self).wf(),
            final(self)@ == if piece_index < old(self)@.hashes.len() {
                old(self)@.without(piece_index)
            } else {
                old(self)@
            },
    {
        let ghost before = self@;
        if (piece_index as usize) < self.num_pieces {
            proof {
                lemma_first_where(before.cache, |e: CacheEntry| e.piece_index == piece_index);
                lemma_without_consistent(before, piece_index);
            }
            let k = self.find_slot(piece_index);
            if k < self.cache_order.len() {
                self.cache_order.remove(k);
            }
            self.piece_cache.remove(&piece_index);
            set_verified(&mut self.pieces, piece_index, false);
            self.bitfield.unset_piece(piece_index);
            assert(self@.hashes =~= before.hashes);
            assert(self@.bodies =~= before.without(piece_index).bodies);
        }
    }

    /// Lets go every body that the file layout has.
    pub fn clear_cache(&mut self)
        requires
            old(self).wf(),
        ensures
            final(self).wf(),
            final(self)@ == (StoreView {
                cache: cleared_cache(old(self)@.cache),
                bodies: cleared_bodies(old(self)@.bodies, old(self)@.cache),
                ..old(self)@
            }),
    {
        let ghost before = self@;
        loop
            invariant
                self.wf(),
                self@.hashes == before.hashes,
                self@.have == before.have,
                self@.accepted == before.accepted,
                self@.capacity == before.capacity,
                self@.piece_length == before.piece_length,
                cleared_cache(self@.cache) == cleared_cache(before.cache),
                cleared_bodies(self@.bodies, self@.cache) == cleared_bodies(
                    before.bodies,
                    before.cache,
                ),
            ensures
                self.wf(),
                self@ == (StoreView {
                    cache: cleared_cache(before.cache),
                    bodies: cleared_bodies(before.bodies, before.cache),
                    ..before
                }),
            decreases self.cache_order@.len(),
        {
            let ghost now = self@;
            proof {
                lemma_first_where(now.cache, |e: CacheEntry| e.persisted);
            }
            let e = self.find_evictable();
            if e >= self.cache_order.len() {
                break;
            }
            let gone = self.cache_order.remove(e);
            proof {
                lemma_has_slot(now.cache, gone.piece_index, e as int);
                lemma_first_where(now.cache, |x: CacheEntry| x.piece_index == gone.piece_index);
                let f = slot_of(now.cache, gone.piece_index);
                if f < e {
                    assert(now.cache[f].piece_index != now.cache[e as int].piece_index);
                }
                if e < f {
                    assert(now.cache[e as int].piece_index != now.cache[f].piece_index);
                }
                assert(f == e);
                lemma_without_consistent(now, gone.piece_index);
            }
            self.piece_cache.remove(&gone.piece_index);
            assert(self@.hashes =~= now.hashes);
            assert(self@.bodies =~= now.released(gone.piece_index).bodies);
            assert(self@ == now.released(gone.piece_index));
        }
    }

    /// The indices of the pieces that are absent, ascending.
    pub fn missing_pieces(&self) -> (missing: Vec<PieceIndex>)
        ensures
            missing@ == positions(self@.have, false),
    {
        self.bitfield.missing_pieces()
    }

    /// The indices of the pieces that are present, ascending.
    pub fn completed_pieces(&self) -> (completed: Vec<PieceIndex>)
        ensures
            completed@ == positions(self@.have, true),
    {
        self.bitfield.available_pieces()
    }

    /// Whether every piece is present.
    pub fn is_complete(&self) -> (complete: bool)
        ensures
            complete == (forall|i: int| 0 <= i < self@.have.len() ==> self@.have[i]),
    {
        let complete = self.bitfield.is_complete();
        assert(self@.have == self.bitfield@);
        complete
    }

    /// Hashes again every piece that the store has: its body in memory, or
    /// else the bytes that the files hold for it, as `stored` gives them. The
    /// pieces that no longer match are absent again; their indices are returned.
    pub fn verify_all_pieces(&mut self, stored: &Vec<Option<Vec<u8>>>) -> (r: Result<Vec<PieceIndex>, TorrentError>)
        requires
            old(self).wf(),
        ensures
            final(self).wf(),
            final(self)@ == old(self)@.verified(stored_bytes(stored)),
            r matches Ok(failed) && failed@ == positions(
                failing(old(self)@, stored_bytes(stored)),
                true,
            ),
    {
        let ghost before = self@;
        let ghost disk = stored_bytes(stored);
        let ghost bad = failing(before, disk);
        let mut failed_pieces: Vec<PieceIndex> = Vec::new();
        let n = self.num_pieces;
        let mut i: usize = 0;
        assert(bad.take(0) =~= Seq::<bool>::empty());
        assert(self@ =~~= before.verified_below(disk, 0)) by {
            assert(before.verified_below(disk, 0).have =~= before.have);
        }
        while i < n
            invariant
                i <= n,
                n == before.hashes.len(),
                n <= MAX_PIECES,
                before.consistent(),
                disk == stored_bytes(stored),
                bad == failing(before, disk),
                self.wf(),
                self@ == before.verified_below(disk, i as int),
                failed_pieces@ == positions(bad.take(i as int), true),
            decreases n - i,
        {
            let ghost now = self@;
            proof {
                assert(bad.take(i + 1).drop_last() =~= bad.take(i as int));
                assert(self.pieces@.contains_key(i as PieceIndex));
                assert(now.hashes[i as int] == self.pieces@[i as PieceIndex].hash@);
                assert(now.have[i as int] == before.have[i as int]);
            }
            if self.bitfield.has_piece(i as PieceIndex) {
                let expected = self.expected_hash(i as PieceIndex);
                let in_memory = match self.piece_cache.get(&(i as PieceIndex)) {
                    Some(data) => {
                        let computed = sha1_digest(data.as_slice());
                        Some(same_bytes(computed.as_slice(), expected.as_slice()))
                    },
                    None => None,
                };
                let intact = match in_memory {
                    Some(intact) => intact,
                    None => {
                        if i < stored.len() {
                            match &stored[i] {
                                Some(data) => {
                                    let computed = sha1_digest(data.as_slice());
                                    same_bytes(computed.as_slice(), expected.as_slice())
                                },
                                None => false,
                            }
                        } else {
                            false
                        }
                    },
                };
                assert(intact == holds(before, disk, i as int));
                if !intact {
                    proof {
                        lemma_first_where(now.cache, |e: CacheEntry| e.piece_index == i as PieceIndex);
                    }
                    failed_pieces.push(i as PieceIndex);
                    self.mark_corrupt(i as PieceIndex);
                    proof {
                        let after = self@;
                        assert(after.bodies =~= now.bodies);
                        assert(after.cache == now.cache);
                    }
                }
            }
            proof {
                assert(self@.have =~= before.verified_below(disk, i + 1).have);
            }
            i += 1;
        }
        proof {
            assert(bad.take(n as int) =~= bad);
            assert(before.verified_below(disk, n as int).have =~= before.verified(disk).have);
        }
        Ok(failed_pieces)
    }

    /// The pieces that are to be written to the file layout: those whose
    /// bodies are in memory and that the layout does not hold yet.
    pub fn unpersisted_pieces(&self) -> (pieces: Vec<PieceIndex>)
        ensures
            pieces@ == unpersisted_of(self@.cache),
    {
        let mut pieces: Vec<PieceIndex> = Vec::new();
        let mut k: usize = 0;
        while k < self.cache_order.len()
            invariant
                k <= self.cache_order@.len(),
                pieces@ == unpersisted_of(self.cache_order@.take(k as int)),
            decreases self.cache_order@.len() - k,
        {
            assert(self.cache_order@.take(k + 1).drop_last() =~= self.cache_order@.take(k as int));
            if !self.cache_order[k].persisted {
                pieces.push(self.cache_order[k].piece_index);
            }
            k += 1;
        }
        assert(self.cache_order@.take(k as int) =~= self.cache_order@);
        pieces
    }

    /// How many bodies are in memory, and how many the store holds at most.
    pub fn cache_usage(&self) -> (usage: (usize, usize))
        requires
            self.wf(),
        ensures
            usage.0 == self@.cache.len(),
            usage.1 == self@.capacity,
            usage.0 <= usage.1,
    {
        (self.cache_order.len(), self.cache_size)
    }
}

/// The bytes that the files hold for each piece, where they could be read.
pub open spec fn stored_bytes(stored: &Vec<Option<Vec<u8>>>) -> Seq<Option<Seq<u8>>> {
    Seq::new(stored@.len(), |i: int| body_view(stored@[i]))
}

/// Whether the files hold, for a piece, bytes whose SHA-1 is the hash
/// expected of it.
pub open spec fn on_disk(v: StoreView, disk: Seq<Option<Seq<u8>>>, piece: int) -> bool {
    0 <= piece < disk.len() && disk[piece] is Some && sha1_of(disk[piece]->0) == v.hashes[piece]
}

/// Whether a piece holds when it is hashed again: its body in memory has
/// the hash expected of it, or, where no body is in memory, the bytes that
/// the files hold have.
pub open spec fn holds(v: StoreView, disk: Seq<Option<Seq<u8>>>, piece: int) -> bool {
    match v.bodies[piece] {
        Some(body) => sha1_of(body) == v.hashes[piece],
        None => on_disk(v, disk, piece),
    }
}

/// For each piece, whether the store has it and it does not hold when it is
/// hashed again.
pub open spec fn failing(v: StoreView, disk: Seq<Option<Seq<u8>>>) -> Seq<bool> {
    Seq::new(v.hashes.len(), |i: int| v.have[i] && !holds(v, disk, i))
}

impl StoreView {
    /// The store after the pieces below `n` were hashed again: those that
    /// did not hold are absent.
    pub open spec fn verified_below(self, disk: Seq<Option<Seq<u8>>>, n: int) -> StoreView {
        StoreView {
            have: Seq::new(
                self.have.len(),
                |i: int| self.have[i] && !(i < n && failing(self, disk)[i]),
            ),
            ..self
        }
    }

    /// The store after every piece was hashed again: those that did not
    /// hold are absent.
    pub open spec fn verified(self, disk: Seq<Option<Seq<u8>>>) -> StoreView {
        StoreView {
            have: Seq::new(self.have.len(), |i: int| self.have[i] && !failing(self, disk)[i]),
            ..self
        }
    }

    /// Whether the files hold good bytes for every piece that the store has.
    pub open spec fn all_on_disk(self, disk: Seq<Option<Seq<u8>>>) -> bool {
        forall|i: int| 0 <= i < self.hashes.len() && #[trigger] self.have[i] ==> on_disk(self, disk, i)
    }
}

/// A store stays consistent when its pieces are hashed again.
pub proof fn lemma_verified_consistent(v: StoreView, disk: Seq<Option<Seq<u8>>>)
    requires
        v.consistent(),
    ensures
        v.verified(disk).consistent(),
{
    let w = v.verified(disk);
    assert forall|i: int| 0 <= i < w.hashes.len() && (#[trigger] w.bodies[i]) is Some implies w.have[i]
        && w.bodies[i] == w.accepted[i] by {
        assert(v.have[i]);
    }
    assert forall|i: int| 0 <= i < w.hashes.len() && #[trigger] w.have[i] implies w.accepted[i] is Some
        && sha1_of(w.accepted[i]->0) == w.hashes[i] by {
        assert(v.have[i]);
    }
}

/// Hashing the pieces again a second time, against the same files, finds
/// nothing more.
pub proof fn lemma_verified_twice(v: StoreView, disk: Seq<Option<Seq<u8>>>)
    requires
        v.consistent(),
    ensures
        v.verified(disk).verified(disk) == v.verified(disk),
        positions(failing(v.verified(disk), disk), true) == Seq::<PieceIndex>::empty(),
{
    let w = v.verified(disk);
    assert(w.verified(disk).have =~= w.have);
    lemma_none_failing(w, disk);
}

/// Where no piece fails, none is listed as failed.
proof fn lemma_none_failing(v: StoreView, disk: Seq<Option<Seq<u8>>>)
    requires
        v.hashes.len() <= MAX_PIECES,
        forall|i: int| 0 <= i < v.hashes.len() ==> !#[trigger] failing(v, disk)[i],
    ensures
        positions(failing(v, disk), true) == Seq::<PieceIndex>::empty(),
{
    let bad = failing(v, disk);
    crate::common::bitfield::lemma_positions(bad, true);
    if positions(bad, true).len() > 0 {
        let x = positions(bad, true)[0];
        assert(bad[x as int]);
    }
    assert(positions(bad, true) =~= Seq::<PieceIndex>::empty());
}

/// Taking a piece from the files keeps it true that the files hold good
/// bytes for every piece that the store has.
pub proof fn lemma_scan_keeps_on_disk(v: StoreView, disk: Seq<Option<Seq<u8>>>, piece: PieceIndex)
    requires
        v.consistent(),
        v.all_on_disk(disk),
        piece < v.hashes.len(),
        on_disk(v, disk, piece as int),
    ensures
        v.put(piece, disk[piece as int]->0, true).all_on_disk(disk),
{
    let w = v.put(piece, disk[piece as int]->0, true);
    assert forall|i: int| 0 <= i < w.hashes.len() && #[trigger] w.have[i] implies on_disk(w, disk, i) by {
        if i != piece {
            assert(v.have[i]);
        }
    }
}

/// Hashing the pieces again after they were taken from the files finds
/// nothing and changes nothing: where the files hold good bytes for every
/// piece that the store has, no piece fails.
pub proof fn lemma_verify_after_scan(v: StoreView, disk: Seq<Option<Seq<u8>>>)
    requires
        v.consistent(),
        v.all_on_disk(disk),
    ensures
        v.verified(disk) == v,
        positions(failing(v, disk), true) == Seq::<PieceIndex>::empty(),
{
    assert forall|i: int| 0 <= i < v.hashes.len() implies !#[trigger] failing(v, disk)[i] by {
        if v.have[i] {
            assert(on_disk(v, disk, i));
            if v.bodies[i] is Some {
                assert(v.bodies[i] == v.accepted[i]);
            }
        }
    }
    lemma_none_failing(v, disk);
    assert(v.verified(disk).have =~= v.have);
}

} // verus!
