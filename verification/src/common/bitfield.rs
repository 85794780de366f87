//! Which pieces are present: one bit per piece, packed eight to a byte on
//! the wire, piece 0 in the highest bit of byte 0.

use crate::common::bits::bits_clone;
use crate::common::bits::bits_count_ones;
use crate::common::bits::bits_get;
use crate::common::bits::bits_len;
use crate::common::bits::bits_new;
use crate::common::bits::bits_of;
use crate::common::bits::bits_push;
use crate::common::bits::bits_repeat;
use crate::common::bits::bits_resize;
use crate::common::bits::bits_set;
use crate::common::bits::count_true;
use crate::common::bits::BitStorage;
use crate::common::bits::MAX_PIECES;
use crate::common::error::ProtocolError;
use crate::common::error::TorrentError;
use crate::common::types::PieceIndex;
use vstd::prelude::*;

verus! {

/// Bit `i` of a packed run of bytes, counted from the highest bit of byte 0.
pub open spec fn bit_at(raw: Seq<u8>, i: int) -> bool
    recommends
        0 <= i < 8 * raw.len(),
{
    (raw[i / 8] >> ((7 - i % 8) as u8)) & 1u8 == 1u8
}

/// Whether `raw` has a bit set at a position from `n` on.
pub open spec fn stray_bit(raw: Seq<u8>, n: nat) -> bool {
    exists|i: int| n <= i < 8 * raw.len() && #[trigger] bit_at(raw, i)
}

/// The first `n` bits of `raw`, with clear bits where `raw` ends early.
pub open spec fn unpacked(raw: Seq<u8>, n: nat) -> Seq<bool> {
    Seq::new(n, |i: int| i < 8 * raw.len() && bit_at(raw, i))
}

/// Whether `raw` is the packing of `bits`: as many bytes as are needed, each
/// bit in its place, and the padding clear.
pub open spec fn packed(bits: Seq<bool>, raw: Seq<u8>) -> bool {
    &&& raw.len() == (bits.len() + 7) / 8
    &&& forall|i: int|
        0 <= i < 8 * raw.len() ==> #[trigger] bit_at(raw, i) == (i < bits.len() && bits[i])
}

/// The positions at which `bits` holds `want`, ascending.
pub open spec fn positions(bits: Seq<bool>, want: bool) -> Seq<PieceIndex>
    decreases bits.len(),
{
    if bits.len() == 0 {
        Seq::empty()
    } else if bits.last() == want {
        positions(bits.drop_last(), want).push((bits.len() - 1) as PieceIndex)
    } else {
        positions(bits.drop_last(), want)
    }
}

proof fn lemma_bit_of_or(x: u8, k: u8, j: u8)
    requires
        k < 8,
        j < 8,
    ensures
        ((x | (1u8 << k)) >> j) & 1u8 == if j == k {
            1u8
        } else {
            (x >> j) & 1u8
        },
        (0u8 >> j) & 1u8 == 0u8,
{
    assert(((x | (1u8 << k)) >> j) & 1u8 == if j == k {
        1u8
    } else {
        (x >> j) & 1u8
    }) by (bit_vector)
        requires
            k < 8,
            j < 8,
    ;
    assert((0u8 >> j) & 1u8 == 0u8) by (bit_vector);
}

proof fn lemma_bit_is_bit(x: u8, j: u8)
    ensures
        (x >> j) & 1u8 == 0u8 || (x >> j) & 1u8 == 1u8,
{
    assert((x >> j) & 1u8 == 0u8 || (x >> j) & 1u8 == 1u8) by (bit_vector);
}

proof fn lemma_byte_by_bits(x: u8, y: u8)
    requires
        forall|j: u8| j < 8 ==> (#[trigger] (x >> j)) & 1u8 == (y >> j) & 1u8,
    ensures
        x == y,
{
    assert((x >> 0u8) & 1u8 == (y >> 0u8) & 1u8);
    assert((x >> 1u8) & 1u8 == (y >> 1u8) & 1u8);
    assert((x >> 2u8) & 1u8 == (y >> 2u8) & 1u8);
    assert((x >> 3u8) & 1u8 == (y >> 3u8) & 1u8);
    assert((x >> 4u8) & 1u8 == (y >> 4u8) & 1u8);
    assert((x >> 5u8) & 1u8 == (y >> 5u8) & 1u8);
    assert((x >> 6u8) & 1u8 == (y >> 6u8) & 1u8);
    assert((x >> 7u8) & 1u8 == (y >> 7u8) & 1u8);
    assert(x == y) by (bit_vector)
        requires
            (x >> 0u8) & 1u8 == (y >> 0u8) & 1u8,
            (x >> 1u8) & 1u8 == (y >> 1u8) & 1u8,
            (x >> 2u8) & 1u8 == (y >> 2u8) & 1u8,
            (x >> 3u8) & 1u8 == (y >> 3u8) & 1u8,
            (x >> 4u8) & 1u8 == (y >> 4u8) & 1u8,
            (x >> 5u8) & 1u8 == (y >> 5u8) & 1u8,
            (x >> 6u8) & 1u8 == (y >> 6u8) & 1u8,
            (x >> 7u8) & 1u8 == (y >> 7u8) & 1u8,
    ;
}

/// No more bits are set than there are, and all are set exactly where the
/// count reaches the length.
pub proof fn lemma_count_true(s: Seq<bool>)
    ensures
        count_true(s) <= s.len(),
        count_true(s) == s.len() <==> forall|i: int| 0 <= i < s.len() ==> s[i],
    decreases s.len(),
{
    if s.len() > 0 {
        let t = s.drop_last();
        lemma_count_true(t);
        if count_true(s) == s.len() {
            assert forall|i: int| 0 <= i < s.len() implies s[i] by {
                if i < t.len() {
                    assert(t[i] == s[i]);
                }
            }
        }
        if forall|i: int| 0 <= i < s.len() ==> s[i] {
            assert forall|i: int| 0 <= i < t.len() implies t[i] by {
                assert(t[i] == s[i]);
            }
        }
    }
}

/// Setting or clearing one bit moves the count by at most one, as the bit
/// changes.
pub proof fn lemma_count_update(s: Seq<bool>, i: int, value: bool)
    requires
        0 <= i < s.len(),
    ensures
        count_true(s.update(i, value)) + (if s[i] { 1int } else { 0int }) == count_true(s) + (if value { 1int } else { 0int }),
    decreases s.len(),
{
    let u = s.update(i, value);
    if i == s.len() - 1 {
        assert(u.drop_last() =~= s.drop_last());
    } else {
        assert(u.drop_last() =~= s.drop_last().update(i, value));
        lemma_count_update(s.drop_last(), i, value);
    }
}

/// The positions listed are exactly those that hold `want`, each once and in
/// ascending order.
pub proof fn lemma_positions(bits: Seq<bool>, want: bool)
    requires
        bits.len() <= u32::MAX,
    ensures
        forall|k: int|
            0 <= k < positions(bits, want).len() ==> (#[trigger] positions(bits, want)[k])
                < bits.len() && bits[positions(bits, want)[k] as int] == want,
        forall|k: int, l: int|
            0 <= k < l < positions(bits, want).len() ==> positions(bits, want)[k] < positions(
                bits,
                want,
            )[l],
        forall|i: int|
            0 <= i < bits.len() && bits[i] == want ==> positions(bits, want).contains(
                i as PieceIndex,
            ),
        positions(bits, want).len() <= bits.len(),
    decreases bits.len(),
{
    if bits.len() > 0 {
        let t = bits.drop_last();
        lemma_positions(t, want);
        let p = positions(bits, want);
        let q = positions(t, want);
        assert forall|i: int| 0 <= i < bits.len() && bits[i] == want implies p.contains(
            i as PieceIndex,
        ) by {
            if i < t.len() {
                assert(t[i] == bits[i]);
                let k = choose|k: int| 0 <= k < q.len() && q[k] == i as PieceIndex;
                assert(p[k] == i as PieceIndex);
            } else {
                assert(p[p.len() - 1] == i as PieceIndex);
            }
        }
        assert forall|k: int| 0 <= k < p.len() implies (#[trigger] p[k]) < bits.len() && bits[p[k] as int]
            == want by {
            if k < q.len() {
                assert(p[k] == q[k]);
                assert(t[q[k] as int] == bits[q[k] as int]);
            }
        }
    }
}

/// A packing holds no stray bit and unpacks to the bits it was made from.
pub proof fn lemma_unpack_packed(bits: Seq<bool>, raw: Seq<u8>)
    requires
        packed(bits, raw),
    ensures
        !stray_bit(raw, bits.len()),
        unpacked(raw, bits.len()) == bits,
{
    assert(unpacked(raw, bits.len()) =~= bits);
}

/// The bits have one packing only.
pub proof fn lemma_packed_unique(bits: Seq<bool>, a: Seq<u8>, b: Seq<u8>)
    requires
        packed(bits, a),
        packed(bits, b),
    ensures
        a == b,
{
    assert forall|q: int| 0 <= q < a.len() implies a[q] == b[q] by {
        assert forall|j: u8| j < 8 implies (#[trigger] (a[q] >> j)) & 1u8 == (b[q] >> j) & 1u8 by {
            let i = q * 8 + (7 - j);
            assert(i / 8 == q && i % 8 == 7 - j);
            assert(bit_at(a, i) == bit_at(b, i));
            assert((7 - i % 8) as u8 == j);
            lemma_bit_is_bit(a[q], j);
            lemma_bit_is_bit(b[q], j);
        }
        lemma_byte_by_bits(a[q], b[q]);
    }
    assert(a =~= b);
}

/// One bit per piece: set where the piece is present.
#[derive(Debug)]
pub struct Bitfield {
    bits: BitStorage,
    num_pieces: usize,
}

impl View for Bitfield {
    type V = Seq<bool>;

    closed spec fn view(&self) -> Seq<bool> {
        bits_of(self.bits)
    }
}

impl Clone for Bitfield {
    fn clone(&self) -> (copy: Bitfield)
        ensures
            copy@ == self@,
    {
        proof {
            use_type_invariant(self);
        }
        Bitfield { bits: bits_clone(&self.bits), num_pieces: self.num_pieces }
    }
}

impl Bitfield {
    #[verifier::type_invariant]
    spec fn well_formed(&self) -> bool {
        bits_of(self.bits).len() == self.num_pieces && self.num_pieces <= MAX_PIECES
    }

    /// A bitfield of `num_pieces` clear bits.
    pub fn new(num_pieces: usize) -> (b: Bitfield)
        requires
            num_pieces <= MAX_PIECES,
        ensures
            b@ == Seq::new(num_pieces as nat, |i: int| false),
    {
        Bitfield { bits: bits_repeat(false, num_pieces), num_pieces }
    }

    /// Reads the first `num_pieces` bits of `bytes`, taking clear bits where
    /// `bytes` ends early. A set bit at a later position is refused.
    pub fn from_bytes(bytes: &[u8], num_pieces: usize) -> (r: Result<Bitfield, TorrentError>)
        requires
            num_pieces <= MAX_PIECES,
        ensures
            match r {
                Ok(b) => !stray_bit(bytes@, num_pieces as nat) && b@ == unpacked(
                    bytes@,
                    num_pieces as nat,
                ),
                Err(e) => stray_bit(bytes@, num_pieces as nat) && e == TorrentError::Protocol(
                    ProtocolError::InvalidBitfield,
                ),
            },
    {
        let mut bits = bits_new();
        let mut q: usize = 0;
        while q < bytes.len()
            invariant
                q <= bytes.len(),
                num_pieces <= MAX_PIECES,
                bits_of(bits).len() == if 8 * q <= num_pieces {
                    8 * q
                } else {
                    num_pieces as int
                },
                forall|i: int| 0 <= i < bits_of(bits).len() ==> bits_of(bits)[i] == bit_at(bytes@, i),
                forall|i: int| num_pieces <= i < 8 * q ==> !#[trigger] bit_at(bytes@, i),
            decreases bytes.len() - q,
        {
            let byte = bytes[q];
            let mut k: u8 = 0;
            while k < 8
                invariant
                    k <= 8,
                    q < bytes.len(),
                    byte == bytes@[q as int],
                    num_pieces <= MAX_PIECES,
                    bits_of(bits).len() == if 8 * q + k <= num_pieces {
                        8 * q + k
                    } else {
                        num_pieces as int
                    },
                    forall|i: int|
                        0 <= i < bits_of(bits).len() ==> bits_of(bits)[i] == bit_at(bytes@, i),
                    forall|i: int| num_pieces <= i < 8 * q + k ==> !#[trigger] bit_at(bytes@, i),
                decreases 8 - k,
            {
                let bit = (byte >> (7 - k)) & 1 == 1;
                let ghost i = 8 * q + k;
                assert(i / 8 == q && i % 8 == k as int);
                assert(bit == bit_at(bytes@, i));
                if bits_len(&bits) < num_pieces {
                    bits_push(&mut bits, bit);
                } else if bit {
                    return Err(TorrentError::Protocol(ProtocolError::InvalidBitfield));
                }
                k += 1;
            }
            q += 1;
        }
        bits_resize(&mut bits, num_pieces, false);
        assert(bits_of(bits) =~= unpacked(bytes@, num_pieces as nat));
        Ok(Bitfield { bits, num_pieces })
    }

    /// The bits packed for the wire, padding clear.
    pub fn to_bytes(&self) -> (bytes: Vec<u8>)
        ensures
            packed(self@, bytes@),
    {
        proof {
            use_type_invariant(self);
        }
        let mut bytes: Vec<u8> = Vec::new();
        let mut current_byte: u8 = 0;
        let n = self.num_pieces;
        let mut i: usize = 0;
        assert forall|k: u8| k < 8 implies ((#[trigger] (current_byte >> k)) & 1u8 == 1u8)
            == false by {
            lemma_bit_of_or(0u8, 0u8, k);
        }
        while i < n
            invariant
                i <= n,
                n == self@.len(),
                n <= MAX_PIECES,
                bytes@.len() == (if i == n {
                    (n + 7) / 8
                } else {
                    i as int / 8
                }),
                forall|j: int|
                    0 <= j < 8 * bytes@.len() ==> #[trigger] bit_at(bytes@, j) == (j < n
                        && self@[j]),
                i < n ==> forall|k: u8|
                    k < 8 ==> ((#[trigger] (current_byte >> k)) & 1u8 == 1u8) == (7 - k < i % 8
                        && self@[8 * (i / 8) + 7 - k]),
            decreases n - i,
        {
            let bit = match bits_get(&self.bits, i) {
                Some(b) => b,
                None => false,
            };
            let shift: u8 = (7 - (i % 8)) as u8;
            let ghost before = current_byte;
            if bit {
                current_byte = current_byte | (1u8 << shift);
            }
            assert forall|k: u8| k < 8 implies ((#[trigger] (current_byte >> k)) & 1u8 == 1u8) == (7
                - k < i % 8 + 1 && self@[8 * (i / 8) + 7 - k]) by {
                lemma_bit_of_or(before, shift, k);
                assert(((before >> k) & 1u8 == 1u8) == (7 - k < i % 8 && self@[8 * (i / 8) + 7 - k]));
            }
            if (i + 1) % 8 == 0 || i == n - 1 {
                let ghost done = bytes@;
                bytes.push(current_byte);
                assert forall|j: int| 0 <= j < 8 * bytes@.len() implies #[trigger] bit_at(bytes@, j)
                    == (j < n && self@[j]) by {
                    if j < 8 * (i / 8) {
                        assert(bytes@[j / 8] == done[j / 8]);
                        assert(bit_at(done, j) == (j < n && self@[j]));
                    } else {
                        let k = (7 - j % 8) as u8;
                        assert(j / 8 == i / 8);
                        assert(bytes@[j / 8] == current_byte);
                        assert(((current_byte >> k) & 1u8 == 1u8) == (7 - k < i % 8 + 1 && self@[8
                            * (i / 8) + 7 - k]));
                    }
                }
                current_byte = 0;
                assert forall|k: u8| k < 8 implies ((#[trigger] (current_byte >> k)) & 1u8 == 1u8)
                    == false by {
                    lemma_bit_of_or(0u8, 0u8, k);
                }
            }
            i += 1;
        }
        bytes
    }

    /// Sets the bit of a piece; an index past the end changes nothing.
    pub fn set_piece(&mut self, piece_index: PieceIndex)
        ensures
            final(self)@ == if piece_index < old(self)@.len() {
                old(self)@.update(piece_index as int, true)
            } else {
                old(self)@
            },
    {
        proof {
            use_type_invariant(&*self);
        }
        if (piece_index as usize) < self.num_pieces {
            bits_set(&mut self.bits, piece_index as usize, true);
        }
    }

    /// Clears the bit of a piece; an index past the end changes nothing.
    pub fn unset_piece(&mut self, piece_index: PieceIndex)
        ensures
            final(self)@ == if piece_index < old(self)@.len() {
                old(self)@.update(piece_index as int, false)
            } else {
                old(self)@
            },
    {
        proof {
            use_type_invariant(&*self);
        }
        if (piece_index as usize) < self.num_pieces {
            bits_set(&mut self.bits, piece_index as usize, false);
        }
    }

    /// Whether the bit of a piece is set; no piece past the end is present.
    pub fn has_piece(&self, piece_index: PieceIndex) -> (present: bool)
        ensures
            present == (piece_index < self@.len() && self@[piece_index as int]),
    {
        match bits_get(&self.bits, piece_index as usize) {
            Some(b) => b,
            None => false,
        }
    }

    /// The number of pieces present.
    pub fn count_pieces(&self) -> (n: usize)
        ensures
            n == count_true(self@),
            n <= self@.len(),
    {
        proof {
            lemma_count_true(self@);
        }
        bits_count_ones(&self.bits)
    }

    /// The number of pieces spoken of, present or not.
    pub fn total_pieces(&self) -> (n: usize)
        ensures
            n == self@.len(),
            n <= MAX_PIECES,
    {
        proof {
            use_type_invariant(self);
        }
        self.num_pieces
    }

    /// Whether every piece is present.
    pub fn is_complete(&self) -> (complete: bool)
        ensures
            complete == (forall|i: int| 0 <= i < self@.len() ==> self@[i]),
            complete == (count_true(self@) == self@.len()),
    {
        proof {
            use_type_invariant(self);
            lemma_count_true(self@);
        }
        self.count_pieces() == self.num_pieces
    }

    /// The indices of the pieces that are absent, ascending.
    pub fn missing_pieces(&self) -> (missing: Vec<PieceIndex>)
        ensures
            missing@ == positions(self@, false),
    {
        self.pieces_where(false)
    }

    /// The indices of the pieces that are present, ascending.
    pub fn available_pieces(&self) -> (available: Vec<PieceIndex>)
        ensures
            available@ == positions(self@, true),
    {
        self.pieces_where(true)
    }

    fn pieces_where(&self, want: bool) -> (found: Vec<PieceIndex>)
        ensures
            found@ == positions(self@, want),
    {
        proof {
            use_type_invariant(self);
        }
        let mut found: Vec<PieceIndex> = Vec::new();
        let n = self.num_pieces;
        let mut i: usize = 0;
        assert(self@.take(0) =~= Seq::<bool>::empty());
        while i < n
            invariant
                i <= n,
                n == self@.len(),
                n <= MAX_PIECES,
                found@ == positions(self@.take(i as int), want),
            decreases n - i,
        {
            let bit = match bits_get(&self.bits, i) {
                Some(b) => b,
                None => false,
            };
            assert(self@.take(i + 1).drop_last() =~= self@.take(i as int));
            if bit == want {
                found.push(i as PieceIndex);
            }
            i += 1;
        }
        assert(self@.take(n as int) =~= self@);
        found
    }
}

} // verus!
