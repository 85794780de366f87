//! Whom to serve: the peers that give us most, and one more that gets a
//! chance.

use crate::common::types::PeerId;
use crate::peer::manager::lemma_has_position;
use crate::peer::manager::lemma_position_of;
use crate::peer::manager::position_of;
use crate::peer::manager::round_due;
use crate::peer::manager::PeerManager;
use crate::peer::manager::RegistryView;
use crate::peer::peer::ChokingState;
use crate::peer::peer::InterestState;
use crate::peer::peer::Peer;
use crate::peer::peer::PeerState;
use crate::peer::ranking::distinct_entries;
use crate::peer::ranking::is_ranking;
use crate::peer::ranking::rank;
use crate::peer::ranking::RankEntry;
use vstd::prelude::*;

verus! {

/// A change to tell a peer of: that we choke it now, or no longer.
#[derive(Debug, Clone, Copy)]
pub struct ChokeCommand {
    pub peer_id: PeerId,
    pub choking: ChokingState,
}

/// `rand::random::<u64>()`: a number drawn at random. Nothing is known of
/// it.
#[verifier::external_body]
pub(crate) fn random_u64() -> (n: u64) {
    rand::random::<u64>()
}

/// Whether a peer is ready and wants pieces of us.
pub open spec fn wants_service(p: Peer) -> bool {
    p.state == PeerState::Ready && p.peer_interested == InterestState::Interested
}

/// Whether we have every piece.
pub open spec fn seeding(ours: Seq<bool>) -> bool {
    forall|i: int| 0 <= i < ours.len() ==> ours[i]
}

/// What a peer is ranked by for service: the rate at which it sends to us,
/// or, once we have every piece, the rate at which it takes from us.
pub open spec fn serving_entry(p: Peer, seed: bool) -> RankEntry {
    RankEntry {
        eligible: wants_service(p),
        primary: if seed {
            p.upload_rate as u128
        } else {
            p.download_rate as u128
        },
        secondary: 0,
        id: p.id,
    }
}

/// What the peers of a registry are ranked by for service.
pub open spec fn serving_entries(v: RegistryView) -> Seq<RankEntry> {
    Seq::new(v.peers.len(), |k: int| serving_entry(v.peers[k], seeding(v.ours)))
}

/// How many peers are served for their rank: one fewer than are served at
/// a time, as far as there are peers to serve.
pub open spec fn regular_count(v: RegistryView, ranking: Seq<usize>) -> int {
    let slots = if v.max_unchoked == 0 {
        0
    } else {
        v.max_unchoked - 1
    };
    if slots < ranking.len() {
        slots
    } else {
        ranking.len() as int
    }
}

/// The positions of the peers that are served for their rank.
pub open spec fn regulars(v: RegistryView, ranking: Seq<usize>) -> Seq<usize> {
    ranking.take(regular_count(v, ranking))
}

/// Whether the peer at `k` may get the optimistic slot: it wants service
/// and is not served for its rank; and, where only fresh peers are looked
/// for, no rate has been seen of it.
pub open spec fn is_candidate(v: RegistryView, ranking: Seq<usize>, k: int, fresh_only: bool) -> bool {
    &&& wants_service(v.peers[k])
    &&& !regulars(v, ranking).contains(k as usize)
    &&& fresh_only ==> v.peers[k].download_rate == 0 && v.peers[k].upload_rate == 0
}

/// The positions below `m` of the peers that may get the optimistic slot,
/// ascending.
pub open spec fn candidates_upto(
    v: RegistryView,
    ranking: Seq<usize>,
    fresh_only: bool,
    m: int,
) -> Seq<usize>
    decreases m,
{
    if m <= 0 {
        Seq::empty()
    } else if is_candidate(v, ranking, m - 1, fresh_only) {
        candidates_upto(v, ranking, fresh_only, m - 1).push((m - 1) as usize)
    } else {
        candidates_upto(v, ranking, fresh_only, m - 1)
    }
}

/// The position of the holder of the optimistic slot, if it may keep the
/// slot: it is still there, wants service and is not served for its rank.
pub open spec fn standing(v: RegistryView, ranking: Seq<usize>) -> Option<usize> {
    match v.optimistic {
        Some(id) => {
            let k = position_of(v.peers, id);
            if k < v.peers.len() && is_candidate(v, ranking, k, false) {
                Some(k as usize)
            } else {
                None
            }
        },
        None => None,
    }
}

/// The position of the peer that holds the optimistic slot after the round.
/// No peer holds it where none is served at all. Its holder keeps it through
/// two rounds of three if it may; else one of the fresh peers that may get it
/// is drawn, or, where none is fresh, one of all that may.
pub open spec fn optimistic_pick(v: RegistryView, ranking: Seq<usize>, random: u64) -> Option<
    usize,
> {
    let fresh = candidates_upto(v, ranking, true, v.peers.len() as int);
    let all = candidates_upto(v, ranking, false, v.peers.len() as int);
    if v.max_unchoked == 0 {
        None
    } else if v.rounds % 3 != 0 && standing(v, ranking) is Some {
        standing(v, ranking)
    } else if fresh.len() > 0 {
        Some(fresh[random as int % fresh.len() as int])
    } else if all.len() > 0 {
        Some(all[random as int % all.len() as int])
    } else {
        None
    }
}

/// Whether the peer at `k` is served after the round.
pub open spec fn served(v: RegistryView, ranking: Seq<usize>, random: u64, k: int) -> bool {
    regulars(v, ranking).contains(k as usize) || optimistic_pick(v, ranking, random) == Some(
        k as usize,
    )
}

/// Whether we choke the peer at `k` after the round.
pub open spec fn choking_after(v: RegistryView, ranking: Seq<usize>, random: u64, k: int) -> ChokingState {
    if served(v, ranking, random, k) {
        ChokingState::Unchoked
    } else {
        ChokingState::Choked
    }
}

/// The registry after a round of choking made at `now`.
pub open spec fn after_round(v: RegistryView, ranking: Seq<usize>, random: u64, now: u64) -> RegistryView {
    RegistryView {
        peers: Seq::new(
            v.peers.len(),
            |k: int| Peer { am_choking: choking_after(v, ranking, random, k), ..v.peers[k] },
        ),
        optimistic: match optimistic_pick(v, ranking, random) {
            Some(k) => Some(v.peers[k as int].id@),
            None => None,
        },
        last_choke_time: now,
        rounds: if v.rounds < u64::MAX {
            v.rounds + 1
        } else {
            v.rounds
        },
        ..v
    }
}

/// What the round has to tell the peers below `m`: each ready peer that is
/// choked now and was not, or the other way round, in the order of the
/// peers.
pub open spec fn commands_upto(v: RegistryView, ranking: Seq<usize>, random: u64, m: int) -> Seq<
    ChokeCommand,
>
    decreases m,
{
    if m <= 0 {
        Seq::empty()
    } else if v.peers[m - 1].state == PeerState::Ready && v.peers[m - 1].am_choking
        != choking_after(v, ranking, random, m - 1) {
        commands_upto(v, ranking, random, m - 1).push(
            ChokeCommand {
                peer_id: v.peers[m - 1].id,
                choking: choking_after(v, ranking, random, m - 1),
            },
        )
    } else {
        commands_upto(v, ranking, random, m - 1)
    }
}

/// What a round of choking with a given draw does to a registry and
/// returns.
pub open spec fn round_made(
    before: RegistryView,
    now: u64,
    random: u64,
    after: RegistryView,
    commands: Seq<ChokeCommand>,
) -> bool {
    exists|ranking: Seq<usize>|
        {
            &&& #[trigger] is_ranking(serving_entries(before), ranking)
            &&& after == after_round(before, ranking, random, now)
            &&& commands == commands_upto(before, ranking, random, before.peers.len() as int)
        }
}

/// The peers that may get the optimistic slot are listed, each once and
/// ascending, and none else.
pub proof fn lemma_candidates(v: RegistryView, ranking: Seq<usize>, fresh_only: bool, m: int)
    requires
        0 <= m <= v.peers.len() <= usize::MAX,
    ensures
        forall|q: int|
            0 <= q < candidates_upto(v, ranking, fresh_only, m).len() ==> (
            #[trigger] candidates_upto(v, ranking, fresh_only, m)[q]) < m && is_candidate(
                v,
                ranking,
                candidates_upto(v, ranking, fresh_only, m)[q] as int,
                fresh_only,
            ),
        forall|k: int|
            0 <= k < m && is_candidate(v, ranking, k, fresh_only) ==> candidates_upto(
                v,
                ranking,
                fresh_only,
                m,
            ).contains(k as usize),
    decreases m,
{
    if m > 0 {
        lemma_candidates(v, ranking, fresh_only, m - 1);
        let now = candidates_upto(v, ranking, fresh_only, m);
        let before = candidates_upto(v, ranking, fresh_only, m - 1);
        assert forall|k: int| 0 <= k < m && is_candidate(v, ranking, k, fresh_only) implies now.contains(
            k as usize,
        ) by {
            if k < m - 1 {
                assert(before.contains(k as usize));
                let q = choose|q: int| 0 <= q < before.len() && before[q] == k as usize;
                assert(now[q] == k as usize);
            } else {
                assert(now[now.len() - 1] == k as usize);
            }
        }
        assert forall|q: int| 0 <= q < now.len() implies (#[trigger] now[q]) < m && is_candidate(
            v,
            ranking,
            now[q] as int,
            fresh_only,
        ) by {
            if q < before.len() {
                assert(now[q] == before[q]);
            }
        }
    }
}

/// The positions of the peers that we do not choke.
pub open spec fn unchoked_positions(peers: Seq<Peer>) -> Set<int> {
    Set::new(|k: int| 0 <= k < peers.len() && peers[k].am_choking == ChokingState::Unchoked)
}

/// After a round of choking no more peers are served than may be at a
/// time; and where peers may be served at all and one that is ready wants
/// service, one such peer is served.
pub proof fn lemma_round_quota(v: RegistryView, ranking: Seq<usize>, random: u64, now: u64)
    requires
        v.peers.len() <= usize::MAX,
        is_ranking(serving_entries(v), ranking),
    ensures
        unchoked_positions(after_round(v, ranking, random, now).peers).finite(),
        unchoked_positions(after_round(v, ranking, random, now).peers).len() <= v.max_unchoked,
        v.max_unchoked > 0 && (exists|k: int| 0 <= k < v.peers.len() && wants_service(#[trigger] v.peers[k]))
            ==> exists|k: int|
            0 <= k < v.peers.len() && wants_service(
                #[trigger] after_round(v, ranking, random, now).peers[k],
            ) && after_round(v, ranking, random, now).peers[k].am_choking == ChokingState::Unchoked,
{
    let after = after_round(v, ranking, random, now);
    let regular = regulars(v, ranking);
    let pick = optimistic_pick(v, ranking, random);
    let chosen = regular.map(|i: int, k: usize| k as int).to_set();
    let with_pick = match pick {
        Some(k) => chosen.insert(k as int),
        None => chosen,
    };
    let positions = regular.map(|i: int, k: usize| k as int);
    positions.lemma_cardinality_of_set();
    vstd::seq_lib::seq_to_set_is_finite(positions);
    if let Some(k) = pick {
        vstd::set::axiom_set_insert_finite(chosen, k as int);
        vstd::set::axiom_set_insert_len(chosen, k as int);
    }
    assert(unchoked_positions(after.peers).subset_of(with_pick)) by {
        assert forall|k: int| unchoked_positions(after.peers).contains(k) implies with_pick.contains(
            k,
        ) by {
            assert(served(v, ranking, random, k));
            if regular.contains(k as usize) {
                let q = choose|q: int| 0 <= q < regular.len() && regular[q] == k as usize;
                assert(positions[q] == k);
                assert(positions.contains(k));
            }
        }
    }
    vstd::set_lib::lemma_len_subset(unchoked_positions(after.peers), with_pick);
    if v.max_unchoked == 0 {
        assert(regular.len() == 0);
        assert(pick is None);
    }
    if v.max_unchoked > 0 && exists|k: int| 0 <= k < v.peers.len() && wants_service(#[trigger] v.peers[k]) {
        let k = choose|k: int| 0 <= k < v.peers.len() && wants_service(#[trigger] v.peers[k]);
        assert(serving_entries(v)[k].eligible);
        assert(ranking.contains(k as usize));
        lemma_candidates(v, ranking, false, v.peers.len() as int);
        lemma_candidates(v, ranking, true, v.peers.len() as int);
        let fresh = candidates_upto(v, ranking, true, v.peers.len() as int);
        let all = candidates_upto(v, ranking, false, v.peers.len() as int);
        if regular.len() > 0 {
            let first = regular[0] as int;
            assert(regular[0] == ranking[0]);
            assert(serving_entries(v)[first].eligible);
            assert(regular.contains(first as usize));
            assert(served(v, ranking, random, first));
            assert(wants_service(after.peers[first]));
            assert(after.peers[first].am_choking == ChokingState::Unchoked);
        } else {
            assert(is_candidate(v, ranking, k, false));
            assert(all.contains(k as usize));
            if v.rounds % 3 != 0 && standing(v, ranking) is Some {
                let s = standing(v, ranking)->0 as int;
                lemma_position_of(v.peers, v.optimistic->0);
                assert(0 <= s < v.peers.len());
                assert(served(v, ranking, random, s));
                assert(wants_service(after.peers[s]));
                assert(after.peers[s].am_choking == ChokingState::Unchoked);
            } else if fresh.len() > 0 {
                let q = random as int % fresh.len() as int;
                let s = fresh[q] as int;
                assert(is_candidate(v, ranking, s, true));
                assert(served(v, ranking, random, s));
                assert(wants_service(after.peers[s]));
                assert(after.peers[s].am_choking == ChokingState::Unchoked);
            } else {
                let q = random as int % all.len() as int;
                let s = all[q] as int;
                assert(is_candidate(v, ranking, s, false));
                assert(served(v, ranking, random, s));
                assert(wants_service(after.peers[s]));
                assert(after.peers[s].am_choking == ChokingState::Unchoked);
            }
        }
    }
}

impl PeerManager {
    /// Makes a round of choking at `now` if one is due, with a number drawn
    /// at random for the optimistic slot; see `choking_round`. Where none is
    /// due, nothing changes and nothing is to be told.
    pub fn update_choking(&mut self, now: u64) -> (commands: Vec<ChokeCommand>)
        requires
            old(self).wf(),
        ensures
            final(self).wf(),
            !round_due(old(self)@, now) ==> final(self)@ == old(self)@ && commands@ == Seq::<
                ChokeCommand,
            >::empty(),
            round_due(old(self)@, now) ==> exists|random: u64| #[trigger]
                round_made(old(self)@, now, random, final(self)@, commands@),
    {
        if !self.choking_due(now) {
            return Vec::new();
        }
        let random = random_u64();
        let commands = self.choking_round(now, random);
        assert(round_made(old(self)@, now, random, self@, commands@));
        commands
    }

    /// Makes a round of choking at `now`: the peers that are ready and want
    /// service are ranked by the rate at which they send to us, or take from
    /// us once we have every piece; the first of them are served, one fewer
    /// than may be served at a time; one more holds the optimistic slot, for
    /// which `random` decides; and all others are choked. Handed back is
    /// what is to be told to the peers that are ready.
    pub fn choking_round(&mut self, now: u64, random: u64) -> (commands: Vec<ChokeCommand>)
        requires
            old(self).wf(),
        ensures
            final(self).wf(),
            round_made(old(self)@, now, random, final(self)@, commands@),
            unchoked_positions(final(self)@.peers).finite(),
            unchoked_positions(final(self)@.peers).len() <= final(self)@.max_unchoked,
    {
        let ghost v = self@;
        let n = self.peers().len();
        let seed = self.is_complete();
        let mut entries: Vec<RankEntry> = Vec::new();
        let mut k: usize = 0;
        while k < n
            invariant
                k <= n,
                n == v.peers.len(),
                self@ == v,
                seed == seeding(v.ours),
                entries@.len() == k,
                forall|j: int| 0 <= j < k ==> (#[trigger] entries@[j]) == serving_entries(v)[j],
            decreases n - k,
        {
            let p = &self.peers()[k];
            entries.push(
                RankEntry {
                    eligible: p.state == PeerState::Ready && p.peer_interested
                        == InterestState::Interested,
                    primary: if seed {
                        p.upload_rate as u128
                    } else {
                        p.download_rate as u128
                    },
                    secondary: 0,
                    id: p.id,
                },
            );
            k += 1;
        }
        assert(entries@ =~= serving_entries(v));
        assert(distinct_entries(entries@)) by {
            assert forall|i: int, j: int| 0 <= i < j < entries@.len() implies (
            #[trigger] entries@[i]).id@ != (#[trigger] entries@[j]).id@ by {
                assert(v.peers[i].id@ != v.peers[j].id@);
            }
        }
        let ranking = rank(&entries);
        let ghost r = ranking@;
        let slots = if self.max_unchoked() == 0 {
            0
        } else {
            self.max_unchoked() - 1
        };
        let regular_n = if slots < ranking.len() {
            slots
        } else {
            ranking.len()
        };
        assert(regular_n == regular_count(v, r));
        let mut flags: Vec<bool> = Vec::new();
        let mut k: usize = 0;
        while k < n
            invariant
                k <= n,
                flags@.len() == k,
                forall|j: int| 0 <= j < k ==> !#[trigger] flags@[j],
            decreases n - k,
        {
            flags.push(false);
            k += 1;
        }
        let mut q: usize = 0;
        while q < regular_n
            invariant
                q <= regular_n <= r.len(),
                r == ranking@,
                n == v.peers.len(),
                flags@.len() == n,
                is_ranking(serving_entries(v), r),
                forall|j: int| 0 <= j < n ==> #[trigger] flags@[j] == r.take(q as int).contains(j as usize),
            decreases regular_n - q,
        {
            let ghost before = flags@;
            let position = ranking[q];
            flags[position] = true;
            proof {
                let shorter = r.take(q as int);
                let longer = r.take(q + 1);
                assert forall|j: int| 0 <= j < n implies #[trigger] flags@[j] == longer.contains(
                    j as usize,
                ) by {
                    if longer.contains(j as usize) {
                        let m = choose|m: int| 0 <= m < longer.len() && longer[m] == j as usize;
                        if m < q {
                            assert(shorter[m] == j as usize);
                        }
                    }
                    if before[j] {
                        let m = choose|m: int| 0 <= m < shorter.len() && shorter[m] == j as usize;
                        assert(longer[m] == j as usize);
                    }
                    if j == position {
                        assert(longer[q as int] == j as usize);
                    }
                }
            }
            q += 1;
        }
        assert(r.take(regular_n as int) == regulars(v, r));
        let holder = self.optimistic_unchoke();
        let standing_at: Option<usize> = match holder {
            Some(id) => {
                let k = self.find(&id);
                if k < n && self.peers()[k].state == PeerState::Ready && self.peers()[k].peer_interested
                    == InterestState::Interested && !flags[k] {
                    Some(k)
                } else {
                    None
                }
            },
            None => None,
        };
        assert(standing_at == standing(v, r));
        let rounds = self.choke_rounds();
        let mut pick: Option<usize> = None;
        if self.max_unchoked() == 0 {
        } else if rounds % 3 != 0 && standing_at.is_some() {
            pick = standing_at;
        } else {
            let mut fresh: Vec<usize> = Vec::new();
            let mut all: Vec<usize> = Vec::new();
            let mut k: usize = 0;
            while k < n
                invariant
                    k <= n,
                    n == v.peers.len(),
                    self@ == v,
                    flags@.len() == n,
                    forall|j: int|
                        0 <= j < n ==> #[trigger] flags@[j] == regulars(v, r).contains(j as usize),
                    fresh@ == candidates_upto(v, r, true, k as int),
                    all@ == candidates_upto(v, r, false, k as int),
                    fresh@.len() <= k,
                    all@.len() <= k,
                decreases n - k,
            {
                let p = &self.peers()[k];
                if p.state == PeerState::Ready && p.peer_interested == InterestState::Interested
                    && !flags[k] {
                    all.push(k);
                    if p.download_rate == 0 && p.upload_rate == 0 {
                        fresh.push(k);
                    }
                }
                k += 1;
            }
            if fresh.len() > 0 {
                let len = fresh.len() as u64;
                pick = Some(fresh[(random % len) as usize]);
            } else if all.len() > 0 {
                let len = all.len() as u64;
                pick = Some(all[(random % len) as usize]);
            }
        }
        assert(pick == optimistic_pick(v, r, random));
        proof {
            lemma_candidates(v, r, true, n as int);
            lemma_candidates(v, r, false, n as int);
        }
        let mut commands: Vec<ChokeCommand> = Vec::new();
        let mut k: usize = 0;
        while k < n
            invariant
                k <= n,
                n == v.peers.len(),
                self.wf(),
                flags@.len() == n,
                pick == optimistic_pick(v, r, random),
                forall|j: int|
                    0 <= j < n ==> #[trigger] flags@[j] == regulars(v, r).contains(j as usize),
                self@ == (RegistryView { peers: self@.peers, ..v }),
                self@.peers.len() == n,
                forall|j: int| k <= j < n ==> self@.peers[j] == v.peers[j],
                forall|j: int|
                    0 <= j < k ==> self@.peers[j] == (Peer {
                        am_choking: choking_after(v, r, random, j),
                        ..v.peers[j]
                    }),
                commands@ == commands_upto(v, r, random, k as int),
            decreases n - k,
        {
            let is_pick = match pick {
                Some(chosen) => chosen == k,
                None => false,
            };
            let choking = if flags[k] || is_pick {
                ChokingState::Unchoked
            } else {
                ChokingState::Choked
            };
            assert(choking == choking_after(v, r, random, k as int));
            let p = &self.peers()[k];
            if p.state == PeerState::Ready && p.am_choking != choking {
                commands.push(ChokeCommand { peer_id: p.id, choking });
            }
            self.set_am_choking(k, choking);
            k += 1;
        }
        let chosen_id: Option<PeerId> = match pick {
            Some(chosen) => Some(self.peers()[chosen].id),
            None => None,
        };
        proof {
            if let Some(chosen) = pick {
                assert(chosen < n);
                lemma_has_position(self@.peers, self@.peers[chosen as int].id@, chosen as int);
            }
        }
        self.close_round(chosen_id, now);
        proof {
            assert(self@.peers =~= after_round(v, r, random, now).peers);
            assert(self@ == after_round(v, r, random, now));
            assert(is_ranking(serving_entries(v), r));
            lemma_round_quota(v, r, random, now);
        }
        commands
    }
}

} // verus!
