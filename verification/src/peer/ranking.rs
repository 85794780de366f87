//! Putting peers in order: by a first number, by a second where the first is
//! the same, and by their ids where both are.

use crate::common::bits::count_true;
use crate::common::types::PeerId;
use vstd::prelude::*;

verus! {

/// Whether `a` comes before `b` from position `k` on, byte by byte.
pub open spec fn id_before_from(a: Seq<u8>, b: Seq<u8>, k: int) -> bool
    decreases a.len() - k,
{
    if k < 0 || k >= a.len() || k >= b.len() {
        false
    } else if a[k] != b[k] {
        a[k] < b[k]
    } else {
        id_before_from(a, b, k + 1)
    }
}

/// Whether `a` comes before `b`, byte by byte: the lower id first.
pub open spec fn id_before(a: Seq<u8>, b: Seq<u8>) -> bool {
    id_before_from(a, b, 0)
}

/// Of two different ids of one length that agree up to `k`, one comes
/// before the other.
pub proof fn lemma_id_total(a: Seq<u8>, b: Seq<u8>, k: int)
    requires
        a.len() == b.len(),
        0 <= k <= a.len(),
        forall|j: int| 0 <= j < k ==> a[j] == b[j],
        a != b,
    ensures
        id_before_from(a, b, k) || id_before_from(b, a, k),
    decreases a.len() - k,
{
    if k >= a.len() {
        assert(a =~= b);
    } else if a[k] == b[k] {
        lemma_id_total(a, b, k + 1);
    }
}

/// No id comes both before and after another.
pub proof fn lemma_id_one_way(a: Seq<u8>, b: Seq<u8>, k: int)
    requires
        0 <= k,
    ensures
        !(id_before_from(a, b, k) && id_before_from(b, a, k)),
    decreases a.len() - k,
{
    if k < a.len() && k < b.len() && a[k] == b[k] {
        lemma_id_one_way(a, b, k + 1);
    }
}

/// What comes before an id comes before all that the id comes before.
pub proof fn lemma_id_chain(a: Seq<u8>, b: Seq<u8>, c: Seq<u8>, k: int)
    requires
        0 <= k,
        id_before_from(a, b, k),
        id_before_from(b, c, k),
    ensures
        id_before_from(a, c, k),
    decreases a.len() - k,
{
    if a[k] == b[k] && b[k] == c[k] {
        lemma_id_chain(a, b, c, k + 1);
    }
}

/// Whether the id `a` comes before the id `b`.
pub fn id_less(a: &PeerId, b: &PeerId) -> (before: bool)
    ensures
        before == id_before(a@, b@),
{
    let mut k: usize = 0;
    while k < 20
        invariant
            k <= 20,
            id_before(a@, b@) == id_before_from(a@, b@, k as int),
        decreases 20 - k,
    {
        if a[k] != b[k] {
            return a[k] < b[k];
        }
        k += 1;
    }
    false
}

/// What a peer is ranked by.
#[derive(Debug, Clone, Copy)]
pub struct RankEntry {
    /// Whether the peer takes part.
    pub eligible: bool,
    pub primary: u128,
    pub secondary: u64,
    pub id: PeerId,
}

/// Whether `a` is ranked before `b`: its first number is higher, or its
/// second where the first is the same, or its id is lower where both are.
pub open spec fn goes_before(a: RankEntry, b: RankEntry) -> bool {
    a.primary > b.primary || (a.primary == b.primary && (a.secondary > b.secondary || (a.secondary
        == b.secondary && id_before(a.id@, b.id@))))
}

/// Whether `ranking` lists the positions of the entries that take part,
/// each once, in their rank.
pub open spec fn is_ranking(entries: Seq<RankEntry>, ranking: Seq<usize>) -> bool {
    &&& forall|k: int|
        0 <= k < ranking.len() ==> (#[trigger] ranking[k]) < entries.len()
            && entries[ranking[k] as int].eligible
    &&& forall|j: int|
        0 <= j < entries.len() && (#[trigger] entries[j]).eligible ==> ranking.contains(j as usize)
    &&& forall|k: int, l: int|
        0 <= k < l < ranking.len() ==> goes_before(
            entries[(#[trigger] ranking[k]) as int],
            entries[(#[trigger] ranking[l]) as int],
        )
}

/// Whether no two entries share an id.
pub open spec fn distinct_entries(entries: Seq<RankEntry>) -> bool {
    forall|i: int, j: int|
        0 <= i < j < entries.len() ==> (#[trigger] entries[i]).id@ != (#[trigger] entries[j]).id@
}

/// Of two entries with different ids, exactly one is ranked before the
/// other.
pub proof fn lemma_rank_total(a: RankEntry, b: RankEntry)
    requires
        a.id@ != b.id@,
    ensures
        goes_before(a, b) != goes_before(b, a),
{
    lemma_id_total(a.id@, b.id@, 0);
    lemma_id_one_way(a.id@, b.id@, 0);
}

/// What is ranked before an entry is ranked before all that the entry is
/// ranked before.
pub proof fn lemma_rank_chain(a: RankEntry, b: RankEntry, c: RankEntry)
    requires
        goes_before(a, b),
        goes_before(b, c),
    ensures
        goes_before(a, c),
{
    if a.primary == b.primary && b.primary == c.primary && a.secondary == b.secondary && b.secondary
        == c.secondary {
        lemma_id_chain(a.id@, b.id@, c.id@, 0);
    }
}

/// No position is listed twice in a ranking.
pub proof fn lemma_ranking_distinct(entries: Seq<RankEntry>, ranking: Seq<usize>)
    requires
        is_ranking(entries, ranking),
    ensures
        forall|k: int, l: int|
            0 <= k < l < ranking.len() ==> (#[trigger] ranking[k]) != (#[trigger] ranking[l]),
{
    assert forall|k: int, l: int| 0 <= k < l < ranking.len() implies (#[trigger] ranking[k]) != (
    #[trigger] ranking[l]) by {
        let a = entries[ranking[k] as int];
        assert(goes_before(a, entries[ranking[l] as int]));
        lemma_id_one_way(a.id@, a.id@, 0);
    }
}

/// Whether `a` is ranked before `b`.
pub fn ranked_before(a: &RankEntry, b: &RankEntry) -> (before: bool)
    ensures
        before == goes_before(*a, *b),
{
    if a.primary != b.primary {
        return a.primary > b.primary;
    }
    if a.secondary != b.secondary {
        return a.secondary > b.secondary;
    }
    id_less(&a.id, &b.id)
}

/// The positions of the entries that take part, in their rank.
pub fn rank(entries: &Vec<RankEntry>) -> (ranking: Vec<usize>)
    requires
        distinct_entries(entries@),
    ensures
        is_ranking(entries@, ranking@),
{
    let n = entries.len();
    let mut taken: Vec<bool> = Vec::new();
    let mut i: usize = 0;
    while i < n
        invariant
            i <= n,
            taken@.len() == i,
            forall|j: int| 0 <= j < i ==> !#[trigger] taken@[j],
            count_true(taken@) == 0,
        decreases n - i,
    {
        let ghost before = taken@;
        taken.push(false);
        assert(taken@.drop_last() =~= before);
        i += 1;
    }
    let mut ranking: Vec<usize> = Vec::new();
    loop
        invariant
            n == entries@.len(),
            taken@.len() == n,
            distinct_entries(entries@),
            ranking@.len() == count_true(taken@),
            forall|k: int|
                0 <= k < ranking@.len() ==> (#[trigger] ranking@[k]) < n
                    && entries@[ranking@[k] as int].eligible && taken@[ranking@[k] as int],
            forall|j: int| 0 <= j < n && #[trigger] taken@[j] ==> ranking@.contains(j as usize),
            forall|k: int, l: int|
                0 <= k < l < ranking@.len() ==> goes_before(
                    entries@[(#[trigger] ranking@[k]) as int],
                    entries@[(#[trigger] ranking@[l]) as int],
                ),
            forall|k: int, j: int|
                0 <= k < ranking@.len() && 0 <= j < n && (#[trigger] entries@[j]).eligible
                    && !taken@[j] ==> goes_before(entries@[(#[trigger] ranking@[k]) as int], entries@[j]),
        ensures
            is_ranking(entries@, ranking@),
        decreases n - ranking@.len(),
    {
        let mut best: usize = n;
        let mut m: usize = 0;
        while m < n
            invariant
                m <= n,
                n == entries@.len(),
                taken@.len() == n,
                distinct_entries(entries@),
                best <= n,
                best < n ==> best < m && entries@[best as int].eligible && !taken@[best as int],
                forall|j: int|
                    0 <= j < m && (#[trigger] entries@[j]).eligible && !taken@[j] && j != best
                        ==> best < n && goes_before(entries@[best as int], entries@[j]),
            decreases n - m,
        {
            if entries[m].eligible && !taken[m] {
                if best == n {
                    best = m;
                } else if ranked_before(&entries[m], &entries[best]) {
                    proof {
                        let old_best = best as int;
                        assert forall|j: int|
                            0 <= j < m + 1 && (#[trigger] entries@[j]).eligible && !taken@[j] && j
                                != m implies goes_before(entries@[m as int], entries@[j]) by {
                            if j != old_best {
                                lemma_rank_chain(entries@[m as int], entries@[old_best], entries@[j]);
                            }
                        }
                    }
                    best = m;
                } else {
                    proof {
                        assert(entries@[best as int].id@ != entries@[m as int].id@);
                        lemma_rank_total(entries@[best as int], entries@[m as int]);
                    }
                }
            }
            m += 1;
        }
        if best == n {
            assert forall|j: int| 0 <= j < n && (#[trigger] entries@[j]).eligible implies ranking@.contains(
                j as usize,
            ) by {
                assert(taken@[j]);
            }
            break;
        }
        proof {
            crate::common::bitfield::lemma_count_true(taken@);
            crate::common::bitfield::lemma_count_update(taken@, best as int, true);
        }
        let ghost before = ranking@;
        let ghost flags = taken@;
        ranking.push(best);
        taken[best] = true;
        proof {
            assert forall|j: int| 0 <= j < n && #[trigger] taken@[j] implies ranking@.contains(
                j as usize,
            ) by {
                if j == best {
                    assert(ranking@[ranking@.len() - 1] == best);
                } else {
                    assert(flags[j]);
                    assert(before.contains(j as usize));
                    let q = choose|q: int| 0 <= q < before.len() && before[q] == j as usize;
                    assert(ranking@[q] == j as usize);
                }
            }
            assert forall|k: int, l: int| 0 <= k < l < ranking@.len() implies goes_before(
                entries@[(#[trigger] ranking@[k]) as int],
                entries@[(#[trigger] ranking@[l]) as int],
            ) by {
                assert(ranking@[k] == before[k]);
                if l < before.len() {
                    assert(ranking@[l] == before[l]);
                }
            }
            assert forall|k: int, j: int|
                0 <= k < ranking@.len() && 0 <= j < n && (#[trigger] entries@[j]).eligible
                    && !taken@[j] implies goes_before(
                entries@[(#[trigger] ranking@[k]) as int],
                entries@[j],
            ) by {
                if k < before.len() {
                    assert(ranking@[k] == before[k]);
                    assert(!flags[j]);
                }
            }
            assert forall|k: int| 0 <= k < ranking@.len() implies (#[trigger] ranking@[k]) < n
                && entries@[ranking@[k] as int].eligible && taken@[ranking@[k] as int] by {
                if k < before.len() {
                    assert(ranking@[k] == before[k]);
                }
            }
        }
    }
    ranking
}

} // verus!
