//! Canonical storage of finalized ballots.
//!
//! Ballots are kept as a flat list in insertion order, together with the
//! set of distinct candidate identifiers ranked anywhere in them.  The
//! list supports the repeated re-tallying that the elimination rounds
//! perform; the candidate set seeds the first round's active set.

use vstd::prelude::*;
use crate::vote::RankedVote;
use crate::vote::spec_is_valid;

verus! {

/// The candidate `c` is ranked somewhere in one of the ballots.
pub open spec fn candidate_appears(bs: Seq<Seq<int>>, c: u32) -> bool {
    exists|i: int, j: int| 0 <= i < bs.len() && 0 <= j < bs[i].len() && #[trigger] bs[i][j] == c as int
}

/// The candidate `c` is ranked somewhere in the one ballot `b`.
pub open spec fn ballot_ranks(b: Seq<int>, c: u32) -> bool {
    exists|j: int| 0 <= j < b.len() && b[j] == c as int
}

proof fn lemma_appears_push(bs: Seq<Seq<int>>, b: Seq<int>, c: u32)
    ensures
        candidate_appears(bs.push(b), c) <==> (candidate_appears(bs, c) || ballot_ranks(b, c)),
{
    if candidate_appears(bs.push(b), c) {
        let (i, j) = choose|i: int, j: int|
            0 <= i < bs.push(b).len() && 0 <= j < bs.push(b)[i].len()
                && #[trigger] bs.push(b)[i][j] == c as int;
        if i < bs.len() {
            assert(bs.push(b)[i] == bs[i]);
            assert(candidate_appears(bs, c));
        } else {
            assert(bs.push(b)[i] == b);
            assert(ballot_ranks(b, c));
        }
    }
    if candidate_appears(bs, c) {
        let (i, j) = choose|i: int, j: int|
            0 <= i < bs.len() && 0 <= j < bs[i].len() && #[trigger] bs[i][j] == c as int;
        assert(bs.push(b)[i] == bs[i]);
        assert(candidate_appears(bs.push(b), c));
    }
    if ballot_ranks(b, c) {
        let j = choose|j: int| 0 <= j < b.len() && b[j] == c as int;
        assert(bs.push(b)[bs.len() as int] == b);
        assert(candidate_appears(bs.push(b), c));
    }
}

proof fn lemma_push_contains_u32(s: Seq<u32>, x: u32, c: u32)
    ensures
        s.push(x).contains(c) <==> (s.contains(c) || c == x),
{
    vstd::seq_lib::lemma_seq_contains_after_push(s, x, c);
}

/// Whether a plain vector contains a value, by linear scan.
pub(crate) fn vec_contains_u32(v: &Vec<u32>, x: u32) -> (r: bool)
    ensures
        r == v@.contains(x),
{
    let mut i: usize = 0;
    let n = v.len();
    while i < n
        invariant
            0 <= i <= n,
            n == v.len(),
            forall|p: int| 0 <= p < i ==> v@[p] != x,
        decreases n - i,
    {
        if v[i] == x {
            return true;
        }
        i += 1;
    }
    false
}

/// The store of finalized ballots, with the distinct candidates ranked
/// in them.
pub struct BallotStore {
    votes: Vec<RankedVote>,
    candidates: Vec<u32>,
}

impl BallotStore {
    /// The mathematical content of the store: each ballot's entry
    /// sequence, in insertion order.
    pub closed spec fn ballots(self) -> Seq<Seq<int>> {
        self.votes@.map_values(|v: RankedVote| v@)
    }

    /// The distinct candidates ranked anywhere, in first-seen order.
    pub closed spec fn candidate_seq(self) -> Seq<u32> {
        self.candidates@
    }

    /// Every stored ballot is valid; the candidate list holds exactly
    /// the candidates ranked in some ballot, each once.
    pub open spec fn wf(self) -> bool {
        &&& forall|i: int| 0 <= i < self.ballots().len() ==> spec_is_valid(#[trigger] self.ballots()[i])
        &&& self.candidate_seq().no_duplicates()
        &&& forall|c: u32| #[trigger] self.candidate_seq().contains(c) <==> candidate_appears(self.ballots(), c)
    }

    pub fn new() -> (s: BallotStore)
        ensures
            s.wf(),
            s.ballots() == Seq::<Seq<int>>::empty(),
            s.candidate_seq() == Seq::<u32>::empty(),
    {
        let s = BallotStore { votes: Vec::new(), candidates: Vec::new() };
        proof {
            assert(forall|c: u32| !candidate_appears(s.ballots(), c));
        }
        s
    }

    pub fn ballot_count(&self) -> (n: usize)
        ensures
            n == self.ballots().len(),
    {
        self.votes.len()
    }

    pub fn candidate_count(&self) -> (n: usize)
        ensures
            n == self.candidate_seq().len(),
    {
        self.candidates.len()
    }

    /// Borrows the `i`-th stored ballot.
    pub fn ballot(&self, i: usize) -> (v: &RankedVote)
        requires
            i < self.ballots().len(),
        ensures
            v@ == self.ballots()[i as int],
    {
        &self.votes[i]
    }

    /// A copy of the candidate list, to seed the first elimination round.
    pub fn active_candidates(&self) -> (v: Vec<u32>)
        ensures
            v@ == self.candidate_seq(),
    {
        let mut out: Vec<u32> = Vec::new();
        let mut i: usize = 0;
        let n = self.candidates.len();
        while i < n
            invariant
                0 <= i <= n,
                n == self.candidates.len(),
                out@ == self.candidates@.take(i as int),
            decreases n - i,
        {
            out.push(self.candidates[i]);
            assert(out@ =~= self.candidates@.take(i + 1));
            i += 1;
        }
        assert(out@ =~= self.candidates@);
        out
    }

    /// Records one finalized ballot, in full preference order, and adds
    /// its candidates to the candidate list.
    pub fn insert(&mut self, vote: RankedVote)
        requires
            old(self).wf(),
            vote.wf(),
        ensures
            final(self).wf(),
            final(self).ballots() == old(self).ballots().push(vote@),
            final(self).candidate_seq().len() >= old(self).candidate_seq().len(),
            forall|c: u32| #[trigger] final(self).candidate_seq().contains(c)
                <==> (old(self).candidate_seq().contains(c) || ballot_ranks(vote@, c)),
            (forall|c: u32| ballot_ranks(vote@, c) ==> old(self).candidate_seq().contains(c))
                ==> final(self).candidate_seq() == old(self).candidate_seq(),
    {
        let ghost b = vote@;
        let n = vote.len();
        let mut m: usize = 0;
        while m < n
            invariant
                0 <= m <= n,
                b == vote@,
                n == b.len(),
                self.votes@ == old(self).votes@,
                self.candidates@.len() >= old(self).candidates@.len(),
                self.candidates@.no_duplicates(),
                forall|c: u32| #[trigger] self.candidates@.contains(c)
                    <==> (old(self).candidates@.contains(c)
                        || exists|j: int| 0 <= j < m && b[j] == c as int),
                (forall|c: u32| ballot_ranks(b, c) ==> old(self).candidates@.contains(c))
                    ==> self.candidates@ == old(self).candidates@,
            decreases n - m,
        {
            let ghost prev = self.candidates@;
            let e: i32 = vote.get(m);
            if e >= 0 {
                let c0 = e as u32;
                assert(b[m as int] == c0 as int);
                if !vec_contains_u32(&self.candidates, c0) {
                    self.candidates.push(c0);
                    proof {
                        if forall|c: u32| ballot_ranks(b, c) ==> old(self).candidates@.contains(c) {
                            assert(ballot_ranks(b, c0));
                            assert(old(self).candidates@.contains(c0));
                            assert(prev.contains(c0));
                            assert(false);
                        }
                        assert(self.candidates@ == prev.push(c0));
                        assert(self.candidates@.no_duplicates()) by {
                            assert forall|p: int, q: int|
                                0 <= p < q < self.candidates@.len()
                                implies self.candidates@[p] != self.candidates@[q] by {
                                if q == prev.len() as int {
                                    assert(self.candidates@[p] == prev[p]);
                                    if prev[p] == c0 {
                                        assert(prev.contains(c0));
                                    }
                                }
                            }
                        }
                        assert forall|c: u32| #[trigger] self.candidates@.contains(c)
                            implies (old(self).candidates@.contains(c)
                                || exists|j: int| 0 <= j < m + 1 && b[j] == c as int) by {
                            lemma_push_contains_u32(prev, c0, c);
                            if c == c0 {
                                assert(b[m as int] == c as int);
                            }
                        }
                        assert forall|c: u32| (old(self).candidates@.contains(c)
                                || exists|j: int| 0 <= j < m + 1 && b[j] == c as int)
                            implies #[trigger] self.candidates@.contains(c) by {
                            lemma_push_contains_u32(prev, c0, c);
                            if !old(self).candidates@.contains(c) {
                                let j = choose|j: int| 0 <= j < m + 1 && b[j] == c as int;
                                if j < m {
                                    assert(prev.contains(c));
                                } else {
                                    assert(c as int == c0 as int);
                                }
                            }
                        }
                    }
                } else {
                    proof {
                        assert forall|c: u32| (old(self).candidates@.contains(c)
                                || exists|j: int| 0 <= j < m + 1 && b[j] == c as int)
                            implies #[trigger] self.candidates@.contains(c) by {
                            if !old(self).candidates@.contains(c) {
                                let j = choose|j: int| 0 <= j < m + 1 && b[j] == c as int;
                                if j == m {
                                    assert(c as int == c0 as int);
                                    assert(self.candidates@.contains(c0));
                                }
                            }
                        }
                    }
                }
            } else {
                proof {
                    assert forall|c: u32| (old(self).candidates@.contains(c)
                            || exists|j: int| 0 <= j < m + 1 && b[j] == c as int)
                        implies #[trigger] self.candidates@.contains(c) by {
                        if !old(self).candidates@.contains(c) {
                            let j = choose|j: int| 0 <= j < m + 1 && b[j] == c as int;
                            assert(j < m);
                        }
                    }
                }
            }
            m += 1;
        }
        let ghost old_bs = self.ballots();
        self.votes.push(vote);
        proof {
            assert(self.ballots() =~= old_bs.push(b));
            assert(old_bs == old(self).ballots());
            assert forall|c: u32| #[trigger] self.candidates@.contains(c)
                <==> candidate_appears(self.ballots(), c) by {
                lemma_appears_push(old_bs, b, c);
                assert((exists|j: int| 0 <= j < n && b[j] == c as int) == ballot_ranks(b, c));
            }
            assert forall|i: int| 0 <= i < self.ballots().len()
                implies spec_is_valid(#[trigger] self.ballots()[i]) by {
                if i < old_bs.len() {
                    assert(self.ballots()[i] == old_bs[i]);
                } else {
                    assert(self.ballots()[i] == b);
                }
            }
        }
    }
}

} // verus!
