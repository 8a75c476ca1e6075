//! The counting session: a cache of in-progress raw ballots in front of
//! the ballot store, and the caller-facing counting operations.
//!
//! Raw rankings arrive one preference position at a time, keyed by an
//! opaque ballot identifier.  `flush` validates every pending ballot
//! and moves all of them into the store, or fails atomically, leaving
//! everything unchanged.

use vstd::prelude::*;
use crate::vote::RankedVote;
use crate::vote::VoteErrors;
use crate::vote::WITHHOLD_VALUE;
use crate::vote::as_ints;
use crate::vote::spec_is_valid;
use crate::vote::spec_validation_error;
use crate::store::BallotStore;
use crate::store::ballot_ranks;
use crate::elimination::run_election;
use crate::elimination::spec_winner;

verus! {

/// A validation failure surfaced at the engine boundary: the broken
/// rule, with its human-readable message.
#[derive(Debug)]
pub struct ValidationError {
    kind: VoteErrors,
}

impl ValidationError {
    pub closed spec fn spec_kind(self) -> VoteErrors {
        self.kind
    }

    pub fn kind(&self) -> (k: VoteErrors)
        ensures
            k == self.spec_kind(),
    {
        self.kind
    }

    pub fn message(&self) -> (m: String)
        ensures
            m@ == self.spec_kind().spec_message(),
    {
        self.kind.to_error_message()
    }
}

/// The error that a flush of the given pending rankings reports: the
/// validation error of the first invalid one, scanning in arrival
/// order from position `k`.
pub open spec fn first_flush_error_from(pending: Seq<Seq<int>>, k: int) -> Option<VoteErrors>
    decreases pending.len() - k,
{
    if k < 0 || k >= pending.len() {
        None
    } else if spec_validation_error(pending[k]) is Some {
        spec_validation_error(pending[k])
    } else {
        first_flush_error_from(pending, k + 1)
    }
}

/// The validation error of the first invalid pending ranking, if any.
pub open spec fn first_flush_error(pending: Seq<Seq<int>>) -> Option<VoteErrors> {
    first_flush_error_from(pending, 0)
}

/// Candidate `c` is ranked in some of the given pending rankings.
pub open spec fn any_ranks(pending: Seq<Seq<int>>, c: u32) -> bool {
    exists|i: int| 0 <= i < pending.len() && ballot_ranks(#[trigger] pending[i], c)
}

/// What `first_flush_error_from` finds: nothing when every ranking from
/// `k` on is valid, else the error of the first invalid one.
proof fn lemma_first_flush_error_from(pending: Seq<Seq<int>>, k: int)
    requires
        0 <= k <= pending.len(),
    ensures
        ({
            let r = first_flush_error_from(pending, k);
            &&& r is None ==> forall|i: int| k <= i < pending.len() ==> spec_is_valid(
                #[trigger] pending[i],
            )
            &&& r is Some ==> exists|i: int|
                k <= i < pending.len() && spec_validation_error(#[trigger] pending[i]) == r
                    && forall|j: int| k <= j < i ==> spec_is_valid(#[trigger] pending[j])
        }),
    decreases pending.len() - k,
{
    if k < pending.len() && spec_validation_error(pending[k]) is None {
        lemma_first_flush_error_from(pending, k + 1);
    }
}

/// A ballot of one withhold entry passes validation.
proof fn lemma_single_withhold_valid()
    ensures
        spec_is_valid(seq![WITHHOLD_VALUE as int]),
{
    let s = seq![WITHHOLD_VALUE as int];
    assert(s.len() == 1);
    assert(!crate::vote::has_duplicate(s)) by {
        if crate::vote::has_duplicate(s) {
            let (i, j) = choose|i: int, j: int| 0 <= i < j < s.len() && s[i] == s[j];
            assert(false);
        }
    }
    assert(!crate::vote::has_nonfinal_special(s)) by {
        if crate::vote::has_nonfinal_special(s) {
            let i = choose|i: int| 0 <= i < s.len() - 1 && s[i] < 0;
            assert(false);
        }
    }
    assert(s[0] == -1);
}

/// The rankings a list of raw vectors stands for.
pub open spec fn rankings_of(vs: Seq<Vec<i32>>) -> Seq<Seq<int>> {
    vs.map_values(|v: Vec<i32>| as_ints(v@))
}

/// Validates the pending raw rankings in order and reports the error
/// of the first invalid one, if any.
fn first_invalid(pending: &Vec<Vec<i32>>) -> (r: Option<VoteErrors>)
    ensures
        r == first_flush_error(rankings_of(pending@)),
        r is None ==> forall|j: int| 0 <= j < pending@.len() ==> spec_is_valid(
            #[trigger] rankings_of(pending@)[j],
        ),
{
    let ghost pend = rankings_of(pending@);
    let n = pending.len();
    let mut i: usize = 0;
    while i < n
        invariant
            0 <= i <= n,
            n == pending@.len(),
            pend == rankings_of(pending@),
            forall|j: int| 0 <= j < i ==> spec_is_valid(#[trigger] pend[j]),
        decreases n - i,
    {
        match RankedVote::from_vector(&pending[i]) {
            Ok(_) => {},
            Err(e) => {
                proof {
                    assert(pend[i as int] == as_ints(pending@[i as int]@));
                    lemma_first_flush_error_from(pend, 0);
                    if first_flush_error_from(pend, 0) is None {
                        assert(spec_is_valid(pend[i as int]));
                    }
                    let w = choose|w: int|
                        0 <= w < pend.len() && spec_validation_error(#[trigger] pend[w])
                            == first_flush_error_from(pend, 0) && forall|j: int|
                            0 <= j < w ==> spec_is_valid(#[trigger] pend[j]);
                    if w < i {
                        assert(spec_is_valid(pend[w]));
                    }
                    if w > i {
                        assert(spec_is_valid(pend[i as int]));
                    }
                    assert(first_flush_error(pend) == Some(e));
                }
                return Some(e);
            },
        }
        i += 1;
    }
    proof {
        lemma_first_flush_error_from(pend, 0);
        if first_flush_error_from(pend, 0) is Some {
            let w = choose|w: int|
                0 <= w < pend.len() && spec_validation_error(#[trigger] pend[w])
                    == first_flush_error_from(pend, 0) && forall|j: int|
                    0 <= j < w ==> spec_is_valid(#[trigger] pend[j]);
            assert(spec_is_valid(pend[w]));
        }
    }
    None
}

/// The position of an identifier in the pending-identifier list.
fn find_id(ids: &Vec<u64>, id: u64) -> (r: Option<usize>)
    ensures
        match r {
            Some(k) => k < ids@.len() && ids@[k as int] == id,
            None => !ids@.contains(id),
        },
{
    let n = ids.len();
    let mut k: usize = 0;
    while k < n
        invariant
            0 <= k <= n,
            n == ids@.len(),
            forall|p: int| 0 <= p < k ==> ids@[p] != id,
        decreases n - k,
    {
        if ids[k] == id {
            return Some(k);
        }
        k += 1;
    }
    proof {
        if ids@.contains(id) {
            let p = choose|p: int| 0 <= p < ids@.len() && ids@[p] == id;
            assert(false);
        }
    }
    None
}

/// One counting session: the ballots already stored, and the raw
/// per-identifier rankings still pending.
pub struct VotesCounter {
    store: BallotStore,
    pending_ids: Vec<u64>,
    pending_votes: Vec<Vec<i32>>,
}

impl VotesCounter {
    /// The stored (finalized) ballots, in insertion order.
    pub closed spec fn ballots(self) -> Seq<Seq<int>> {
        self.store.ballots()
    }

    /// The distinct candidates ranked in any stored ballot.
    pub closed spec fn candidate_seq(self) -> Seq<u32> {
        self.store.candidate_seq()
    }

    /// The identifiers of the pending ballots, in first-seen order.
    pub closed spec fn pending_ids(self) -> Seq<u64> {
        self.pending_ids@
    }

    /// The pending raw rankings, parallel to `pending_ids`.
    pub closed spec fn pending_rankings(self) -> Seq<Seq<int>> {
        self.pending_votes@.map_values(|v: Vec<i32>| as_ints(v@))
    }

    /// Ballots counted so far: stored plus pending.
    pub open spec fn spec_total(self) -> int {
        self.ballots().len() as int + self.pending_ids().len() as int
    }

    /// Every pending ranking passes validation.
    pub open spec fn all_pending_valid(self) -> bool {
        forall|i: int| 0 <= i < self.pending_rankings().len() ==> spec_is_valid(
            #[trigger] self.pending_rankings()[i],
        )
    }

    /// The session invariant: a well-formed store, one pending ranking
    /// per distinct identifier, and a ballot count that keeps the
    /// round arithmetic exact.
    pub open spec fn wf(self) -> bool {
        &&& self.store_wf()
        &&& self.pending_ids().no_duplicates()
        &&& self.pending_ids().len() == self.pending_rankings().len()
        &&& self.spec_total() <= 0xFFFF_FFFF
    }

    /// The well-formedness of the underlying ballot store.
    pub closed spec fn store_wf(self) -> bool {
        self.store.wf()
    }

    /// A fresh session: nothing stored, nothing pending.
    pub fn new() -> (c: VotesCounter)
        ensures
            c.wf(),
            c.spec_total() == 0,
            c.ballots() == Seq::<Seq<int>>::empty(),
            c.pending_ids() == Seq::<u64>::empty(),
            c.candidate_seq() == Seq::<u32>::empty(),
    {
        let c = VotesCounter {
            store: BallotStore::new(),
            pending_ids: Vec::new(),
            pending_votes: Vec::new(),
        };
        proof {
            assert(c.pending_rankings() =~= Seq::<Seq<int>>::empty());
        }
        c
    }

    /// Ballots cast so far: already stored plus still pending.
    pub fn total_count(&self) -> (n: u64)
        requires
            self.wf(),
        ensures
            n as int == self.spec_total(),
    {
        (self.store.ballot_count() as u64) + (self.pending_ids.len() as u64)
    }

    /// Checks one raw ranking against every validation rule, without
    /// touching any session state.
    pub fn validate_raw_vote(rankings: &Vec<i32>) -> (r: crate::vote::ValidateVoteResult)
        ensures
            r.spec_valid() == spec_is_valid(as_ints(rankings@)),
            r.spec_error_message() == match spec_validation_error(as_ints(rankings@)) {
                None => Seq::<char>::empty(),
                Some(e) => e.spec_message(),
            },
    {
        crate::vote::validate(rankings)
    }

    /// Appends one ranking value to the pending ballot with the given
    /// identifier, starting a new pending ballot for a new identifier.
    /// Call order is preference order; nothing is validated here.
    pub fn insert_ranking(&mut self, ballot_id: u64, value: i32)
        requires
            old(self).wf(),
            old(self).spec_total() < 0xFFFF_FFFF,
        ensures
            final(self).wf(),
            final(self).ballots() == old(self).ballots(),
            final(self).candidate_seq() == old(self).candidate_seq(),
            old(self).pending_ids().contains(ballot_id) ==> {
                &&& final(self).pending_ids() == old(self).pending_ids()
                &&& exists|k: int|
                    #![auto]
                    0 <= k < old(self).pending_ids().len() && old(self).pending_ids()[k]
                        == ballot_id && final(self).pending_rankings() == old(
                        self,
                    ).pending_rankings().update(
                        k,
                        old(self).pending_rankings()[k].push(value as int),
                    )
            },
            !old(self).pending_ids().contains(ballot_id) ==> {
                &&& final(self).pending_ids() == old(self).pending_ids().push(ballot_id)
                &&& final(self).pending_rankings() == old(self).pending_rankings().push(
                    seq![value as int],
                )
            },
    {
        let ghost old_ids = self.pending_ids@;
        let ghost old_rankings = self.pending_rankings();
        match find_id(&self.pending_ids, ballot_id) {
            Some(k) => {
                self.pending_votes[k].push(value);
                proof {
                    assert(old_ids[k as int] == ballot_id);
                    assert(old_ids.contains(ballot_id));
                    assert(self.pending_rankings() =~~= old_rankings.update(
                        k as int,
                        old_rankings[k as int].push(value as int),
                    ));
                }
            },
            None => {
                let mut first: Vec<i32> = Vec::new();
                first.push(value);
                self.pending_ids.push(ballot_id);
                self.pending_votes.push(first);
                proof {
                    assert(as_ints(first@) =~= seq![value as int]);
                    assert(self.pending_rankings() =~= old_rankings.push(seq![value as int]));
                    assert(self.pending_ids@.no_duplicates()) by {
                        assert forall|p: int, q: int|
                            0 <= p < q < self.pending_ids@.len()
                            implies self.pending_ids@[p] != self.pending_ids@[q] by {
                            if q == old_ids.len() as int {
                                assert(self.pending_ids@[p] == old_ids[p]);
                                if old_ids[p] == ballot_id {
                                    assert(old_ids.contains(ballot_id));
                                }
                            }
                        }
                    }
                }
            },
        }
    }

    /// Registers `count` ballots of a single withhold entry each: voters
    /// who took part but ranked nobody.  They raise the total count and
    /// can never contribute to any candidate.
    pub fn insert_empty_ballots(&mut self, count: u64)
        requires
            old(self).wf(),
            old(self).spec_total() + count <= 0xFFFF_FFFF,
        ensures
            final(self).wf(),
            final(self).ballots() == old(self).ballots() + Seq::new(
                count as nat,
                |i: int| seq![WITHHOLD_VALUE as int],
            ),
            final(self).pending_ids() == old(self).pending_ids(),
            final(self).pending_rankings() == old(self).pending_rankings(),
            final(self).spec_total() == old(self).spec_total() + count,
            final(self).candidate_seq() == old(self).candidate_seq(),
    {
        let ghost old_ballots = self.ballots();
        let ghost old_cands = self.candidate_seq();
        let mut i: u64 = 0;
        while i < count
            invariant
                0 <= i <= count,
                old(self).spec_total() + count <= 0xFFFF_FFFF,
                self.store.wf(),
                self.pending_ids@ == old(self).pending_ids@,
                self.pending_votes@ == old(self).pending_votes@,
                self.pending_ids@.no_duplicates(),
                self.pending_ids@.len() == self.pending_rankings().len(),
                old_ballots == old(self).ballots(),
                old_cands == old(self).candidate_seq(),
                old_ballots.len() + self.pending_ids@.len() == old(self).spec_total(),
                self.ballots() == old_ballots + Seq::new(
                    i as nat,
                    |p: int| seq![WITHHOLD_VALUE as int],
                ),
                self.candidate_seq() == old_cands,
            decreases count - i,
        {
            let mut raw: Vec<i32> = Vec::new();
            raw.push(WITHHOLD_VALUE);
            proof {
                assert(as_ints(raw@) =~= seq![WITHHOLD_VALUE as int]);
                lemma_single_withhold_valid();
            }
            match RankedVote::from_vector(&raw) {
                Ok(vote) => {
                    let ghost vv = vote@;
                    let ghost before_cands = self.candidate_seq();
                    self.store.insert(vote);
                    proof {
                        assert(self.ballots() =~= old_ballots + Seq::new(
                            (i + 1) as nat,
                            |p: int| seq![WITHHOLD_VALUE as int],
                        ));
                        assert forall|c: u32| ballot_ranks(vv, c)
                            implies before_cands.contains(c) by {
                            let j = choose|j: int| 0 <= j < vv.len() && vv[j] == c as int;
                            assert(false);
                        }
                        assert(self.candidate_seq() == old_cands);
                    }
                },
                Err(_) => {
                    proof {
                        assert(false);
                    }
                },
            }
            i += 1;
        }
    }

    /// Validates every pending ballot and, only if all pass, moves all
    /// of them into the store (in arrival order) and clears the cache:
    /// all or nothing.  Returns whether any ballot was moved; on
    /// failure, the error of the first invalid pending ballot, with the
    /// whole session left unchanged.
    pub fn flush(&mut self) -> (r: Result<bool, ValidationError>)
        requires
            old(self).wf(),
        ensures
            final(self).wf(),
            match r {
                Ok(inserted) => {
                    &&& first_flush_error(old(self).pending_rankings()) is None
                    &&& final(self).ballots() == old(self).ballots() + old(
                        self,
                    ).pending_rankings()
                    &&& final(self).pending_ids() == Seq::<u64>::empty()
                    &&& final(self).pending_rankings() == Seq::<Seq<int>>::empty()
                    &&& inserted == (old(self).pending_ids().len() > 0)
                    &&& final(self).spec_total() == old(self).spec_total()
                    &&& forall|c: u32| #[trigger] final(self).candidate_seq().contains(c) <==> (old(
                        self,
                    ).candidate_seq().contains(c) || any_ranks(old(self).pending_rankings(), c))
                },
                Err(e) => {
                    &&& final(self).ballots() == old(self).ballots()
                    &&& final(self).pending_ids() == old(self).pending_ids()
                    &&& final(self).pending_rankings() == old(self).pending_rankings()
                    &&& final(self).candidate_seq() == old(self).candidate_seq()
                    &&& *final(self) == *old(self)
                    &&& first_flush_error(old(self).pending_rankings()) == Some(e.spec_kind())
                },
            },
    {
        let ghost pend = self.pending_rankings();
        proof {
            assert(pend == rankings_of(self.pending_votes@));
        }
        match first_invalid(&self.pending_votes) {
            Some(e) => {
                return Err(ValidationError { kind: e });
            },
            None => {},
        }
        let n = self.pending_votes.len();
        let ghost old_ballots = self.ballots();
        let ghost old_cands = self.candidate_seq();
        let mut m: usize = 0;
        while m < n
            invariant
                0 <= m <= n,
                n == self.pending_votes@.len(),
                self.pending_ids@ == old(self).pending_ids@,
                self.pending_votes@ == old(self).pending_votes@,
                pend == self.pending_rankings(),
                forall|j: int| 0 <= j < n ==> spec_is_valid(#[trigger] pend[j]),
                self.store.wf(),
                old_ballots == old(self).ballots(),
                old_cands == old(self).candidate_seq(),
                self.ballots() == old_ballots + pend.take(m as int),
                forall|c: u32| #[trigger] self.candidate_seq().contains(c) <==> (old_cands.contains(
                    c,
                ) || exists|j: int| 0 <= j < m && ballot_ranks(#[trigger] pend[j], c)),
            decreases n - m,
        {
            let ghost before_cands = self.candidate_seq();
            match RankedVote::from_vector(&self.pending_votes[m]) {
                Ok(v) => {
                    let ghost vv = v@;
                    proof {
                        assert(pend[m as int] == as_ints(self.pending_votes@[m as int]@));
                        assert(vv == pend[m as int]);
                    }
                    self.store.insert(v);
                    proof {
                        assert(self.ballots() =~= old_ballots + pend.take(m as int + 1));
                        assert forall|c: u32| #[trigger] self.candidate_seq().contains(c)
                            implies (old_cands.contains(c) || exists|j: int|
                            0 <= j < m + 1 && ballot_ranks(#[trigger] pend[j], c)) by {
                            if !old_cands.contains(c) {
                                if before_cands.contains(c) {
                                    let j = choose|j: int|
                                        0 <= j < m && ballot_ranks(#[trigger] pend[j], c);
                                    assert(ballot_ranks(pend[j], c));
                                } else {
                                    assert(ballot_ranks(pend[m as int], c));
                                }
                            }
                        }
                        assert forall|c: u32|
                            (old_cands.contains(c) || exists|j: int|
                                0 <= j < m + 1 && ballot_ranks(#[trigger] pend[j], c))
                            implies #[trigger] self.candidate_seq().contains(c) by {
                            if !old_cands.contains(c) {
                                let j = choose|j: int|
                                    0 <= j < m + 1 && ballot_ranks(#[trigger] pend[j], c);
                                if j < m {
                                    assert(before_cands.contains(c));
                                } else {
                                    assert(ballot_ranks(vv, c));
                                }
                            }
                        }
                    }
                },
                Err(_) => {
                    proof {
                        assert(pend[m as int] == as_ints(self.pending_votes@[m as int]@));
                        assert(spec_is_valid(pend[m as int]));
                        assert(false);
                    }
                },
            }
            m += 1;
        }
        let ghost final_cands = self.candidate_seq();
        proof {
            assert(pend == old(self).pending_rankings());
            assert(old_cands == old(self).candidate_seq());
            assert(self.ballots() =~= old_ballots + pend);
            assert forall|c: u32| #[trigger] final_cands.contains(c) <==> (old(
                self,
            ).candidate_seq().contains(c) || any_ranks(old(self).pending_rankings(), c)) by {
                assert(final_cands.contains(c) == self.candidate_seq().contains(c));
                if final_cands.contains(c) && !old_cands.contains(c) {
                    let j = choose|j: int| 0 <= j < n && ballot_ranks(#[trigger] pend[j], c);
                    assert(0 <= j < pend.len() && ballot_ranks(pend[j], c));
                    assert(any_ranks(pend, c));
                }
                if any_ranks(pend, c) {
                    let j = choose|j: int|
                        0 <= j < pend.len() && ballot_ranks(#[trigger] pend[j], c);
                    assert(exists|jj: int| 0 <= jj < n && ballot_ranks(#[trigger] pend[jj], c));
                }
            }
        }
        let had = self.pending_ids.len() > 0;
        self.pending_ids = Vec::new();
        self.pending_votes = Vec::new();
        proof {
            assert(self.candidate_seq() == final_cands);
            assert(self.pending_rankings() =~= Seq::<Seq<int>>::empty());
        }
        Ok(had)
    }

    /// Flushes any pending ballots, then runs the elimination count on
    /// everything stored and returns the winner, if one exists.  Fails,
    /// changing nothing, exactly when the flush does.
    pub fn determine_winner(&mut self) -> (r: Result<Option<u32>, ValidationError>)
        requires
            old(self).wf(),
        ensures
            final(self).wf(),
            match r {
                Ok(w) => {
                    &&& first_flush_error(old(self).pending_rankings()) is None
                    &&& final(self).ballots() == old(self).ballots() + old(
                        self,
                    ).pending_rankings()
                    &&& final(self).pending_ids() == Seq::<u64>::empty()
                    &&& final(self).spec_total() == old(self).spec_total()
                    &&& w == spec_winner(final(self).ballots(), final(self).candidate_seq())
                    &&& match w {
                        Some(c) => final(self).candidate_seq().contains(c),
                        None => true,
                    }
                },
                Err(e) => {
                    &&& *final(self) == *old(self)
                    &&& first_flush_error(old(self).pending_rankings()) == Some(e.spec_kind())
                },
            },
    {
        match self.flush() {
            Err(e) => Err(e),
            Ok(_) => Ok(run_election(&self.store)),
        }
    }
}

} // verus!
