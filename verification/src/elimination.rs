//! The elimination engine: repeated counting rounds over a fixed ballot
//! list and a shrinking active-candidate set.
//!
//! Each round counts, for every active candidate, the ballots whose
//! effective preference (first entry still active) is that candidate,
//! and a Dowdall positional score.  A candidate holding a strict
//! majority of the non-exhausted ballots wins; otherwise the candidates
//! with the strictly lowest score are all eliminated at once, and the
//! next round runs on the survivors.  An election with no candidates
//! left, or a lone candidate nobody effectively prefers, has no winner.
//!
//! Scores are exact rationals `1/p` held as scaled integers: the scale
//! is the least common multiple of `1..=64`, so `DOWDALL_SCALE / p` is
//! exact for every preference position up to 64 — that is, for any
//! election of at most 64 candidates, since a valid ballot ranks each
//! candidate at most once.

use vstd::prelude::*;
use vstd::arithmetic::div_mod::lemma_div_nonincreasing;
use vstd::arithmetic::div_mod::lemma_div_pos_is_pos;
use crate::vote::RankedVote;
use crate::store::BallotStore;
use crate::store::vec_contains_u32;

verus! {

broadcast use vstd::seq_lib::lemma_seq_contains_after_push;

/// The common scale of all Dowdall scores: lcm(1..=64).  A ballot whose
/// effective preference stands at 1-indexed position `p` contributes
/// `DOWDALL_SCALE / p` to that candidate's round score.
pub const DOWDALL_SCALE: u128 = 1182266884102822267511361600;

/// The entry `v` names a candidate of the active set.
pub open spec fn is_active(active: Seq<u32>, v: int) -> bool {
    v >= 0 && active.contains(v as u32)
}

/// The index of the first active entry of the ballot at or after
/// position `k`, or `-1` if there is none.
pub open spec fn eff_index_from(b: Seq<int>, active: Seq<u32>, k: int) -> int
    decreases b.len() - k,
{
    if k < 0 || k >= b.len() {
        -1
    } else if is_active(active, b[k]) {
        k
    } else {
        eff_index_from(b, active, k + 1)
    }
}

/// The index of the ballot's effective preference: its first entry that
/// names an active candidate; `-1` when the ballot is exhausted.
pub open spec fn eff_index(b: Seq<int>, active: Seq<u32>) -> int {
    eff_index_from(b, active, 0)
}

/// No entry of the ballot names an active candidate.
pub open spec fn exhausted(b: Seq<int>, active: Seq<u32>) -> bool {
    eff_index(b, active) == -1
}

/// The ballot's effective preference is the candidate `c`.
pub open spec fn prefers(b: Seq<int>, active: Seq<u32>, c: u32) -> bool {
    eff_index(b, active) != -1 && b[eff_index(b, active)] == c as int
}

/// The ballot's scaled Dowdall contribution to candidate `c`'s round
/// score: `DOWDALL_SCALE / p` with `p` the 1-indexed position of the
/// effective preference, if that preference is `c`.
pub open spec fn score_contrib(b: Seq<int>, active: Seq<u32>, c: u32) -> int {
    if prefers(b, active, c) {
        DOWDALL_SCALE as int / (eff_index(b, active) + 1)
    } else {
        0
    }
}

/// How many of the first `n` ballots effectively prefer candidate `c`.
pub open spec fn tally_upto(bs: Seq<Seq<int>>, active: Seq<u32>, c: u32, n: int) -> int
    decreases n,
{
    if n <= 0 {
        0
    } else {
        tally_upto(bs, active, c, n - 1) + if prefers(bs[n - 1], active, c) {
            1int
        } else {
            0int
        }
    }
}

/// The round's first-choice tally of candidate `c`.
pub open spec fn tally(bs: Seq<Seq<int>>, active: Seq<u32>, c: u32) -> int {
    tally_upto(bs, active, c, bs.len() as int)
}

/// How many of the first `n` ballots are not exhausted.
pub open spec fn total_upto(bs: Seq<Seq<int>>, active: Seq<u32>, n: int) -> int
    decreases n,
{
    if n <= 0 {
        0
    } else {
        total_upto(bs, active, n - 1) + if !exhausted(bs[n - 1], active) {
            1int
        } else {
            0int
        }
    }
}

/// The round's number of non-exhausted ballots: the majority denominator.
pub open spec fn round_total(bs: Seq<Seq<int>>, active: Seq<u32>) -> int {
    total_upto(bs, active, bs.len() as int)
}

/// The scaled Dowdall score of candidate `c` over the first `n` ballots.
pub open spec fn score_upto(bs: Seq<Seq<int>>, active: Seq<u32>, c: u32, n: int) -> int
    decreases n,
{
    if n <= 0 {
        0
    } else {
        score_upto(bs, active, c, n - 1) + score_contrib(bs[n - 1], active, c)
    }
}

/// The round's scaled Dowdall score of candidate `c`.
pub open spec fn score(bs: Seq<Seq<int>>, active: Seq<u32>, c: u32) -> int {
    score_upto(bs, active, c, bs.len() as int)
}

/// Candidate `c` holds a strict majority of the non-exhausted ballots.
pub open spec fn has_majority(bs: Seq<Seq<int>>, active: Seq<u32>, c: u32) -> bool {
    2 * tally(bs, active, c) > round_total(bs, active)
}

/// Some active candidate holds a strict majority.
pub open spec fn exists_majority(bs: Seq<Seq<int>>, active: Seq<u32>) -> bool {
    exists|k: int| 0 <= k < active.len() && has_majority(bs, active, #[trigger] active[k])
}

/// The active candidate holding a strict majority (unique when it
/// exists, since two strict majorities cannot share one denominator).
pub open spec fn majority_winner(bs: Seq<Seq<int>>, active: Seq<u32>) -> u32 {
    active[choose|k: int| 0 <= k < active.len() && has_majority(bs, active, #[trigger] active[k])]
}

/// The lowest score among the first `n` active candidates.
pub open spec fn min_score_upto(bs: Seq<Seq<int>>, active: Seq<u32>, n: int) -> int
    decreases n,
{
    if n <= 1 {
        score(bs, active, active[0])
    } else {
        let prev = min_score_upto(bs, active, n - 1);
        let s = score(bs, active, active[n - 1]);
        if s < prev {
            s
        } else {
            prev
        }
    }
}

/// The round's lowest score among active candidates.
pub open spec fn min_score(bs: Seq<Seq<int>>, active: Seq<u32>) -> int {
    min_score_upto(bs, active, active.len() as int)
}

/// The first `n` active candidates whose score strictly exceeds `ms`,
/// in order.
pub open spec fn surviving_upto(bs: Seq<Seq<int>>, active: Seq<u32>, ms: int, n: int) -> Seq<u32>
    decreases n,
{
    if n <= 0 {
        Seq::empty()
    } else {
        let rest = surviving_upto(bs, active, ms, n - 1);
        if score(bs, active, active[n - 1]) > ms {
            rest.push(active[n - 1])
        } else {
            rest
        }
    }
}

/// The candidates left after one elimination step: those scoring
/// strictly above the round's lowest score.
pub open spec fn survivors(bs: Seq<Seq<int>>, active: Seq<u32>) -> Seq<u32> {
    surviving_upto(bs, active, min_score(bs, active), active.len() as int)
}

/// The outcome of the election run on the given ballots and active
/// candidates, unwound for at most `fuel` rounds.  One more round than
/// there are candidates always suffices, since every round eliminates
/// at least one.
pub open spec fn spec_winner_rec(bs: Seq<Seq<int>>, active: Seq<u32>, fuel: nat) -> Option<u32>
    decreases fuel,
{
    if fuel == 0 {
        None
    } else if active.len() == 0 {
        None
    } else if exists_majority(bs, active) {
        Some(majority_winner(bs, active))
    } else if active.len() == 1 {
        if tally(bs, active, active[0]) > 0 {
            Some(active[0])
        } else {
            None
        }
    } else {
        spec_winner_rec(bs, survivors(bs, active), (fuel - 1) as nat)
    }
}

/// The outcome of the election: the winner of the instant-runoff count,
/// or `None` when every candidate is eliminated or the last one has no
/// effective support.
pub open spec fn spec_winner(bs: Seq<Seq<int>>, active: Seq<u32>) -> Option<u32> {
    spec_winner_rec(bs, active, (active.len() + 1) as nat)
}

/// What `eff_index_from` finds: the first active entry at or after `k`,
/// or nothing at all.
proof fn lemma_eff_index_from(b: Seq<int>, active: Seq<u32>, k: int)
    requires
        0 <= k <= b.len(),
    ensures
        ({
            let r = eff_index_from(b, active, k);
            &&& r == -1 ==> forall|i: int| k <= i < b.len() ==> !is_active(active, #[trigger] b[i])
            &&& r != -1 ==> k <= r < b.len() && is_active(active, b[r]) && forall|i: int|
                k <= i < r ==> !is_active(active, #[trigger] b[i])
        }),
    decreases b.len() - k,
{
    if k < b.len() && !is_active(active, b[k]) {
        lemma_eff_index_from(b, active, k + 1);
    }
}

/// Two distinct candidates' tallies never outgrow the denominator: each
/// ballot effectively prefers at most one of them.
proof fn lemma_tally_pair(bs: Seq<Seq<int>>, active: Seq<u32>, c: u32, d: u32, n: int)
    requires
        c != d,
        0 <= n <= bs.len(),
    ensures
        tally_upto(bs, active, c, n) + tally_upto(bs, active, d, n) <= total_upto(bs, active, n),
    decreases n,
{
    if n > 0 {
        lemma_tally_pair(bs, active, c, d, n - 1);
    }
}

/// A strict majority is unique.
pub proof fn lemma_majority_unique(bs: Seq<Seq<int>>, active: Seq<u32>, c: u32, d: u32)
    requires
        has_majority(bs, active, c),
        has_majority(bs, active, d),
    ensures
        c == d,
{
    if c != d {
        lemma_tally_pair(bs, active, c, d, bs.len() as int);
    }
}

/// The lowest prefix score is a lower bound, and is attained.
proof fn lemma_min_score_upto(bs: Seq<Seq<int>>, active: Seq<u32>, n: int)
    requires
        1 <= n <= active.len(),
    ensures
        forall|k: int| 0 <= k < n ==> min_score_upto(bs, active, n) <= score(
            bs,
            active,
            #[trigger] active[k],
        ),
        exists|k: int| 0 <= k < n && min_score_upto(bs, active, n) == score(
            bs,
            active,
            #[trigger] active[k],
        ),
    decreases n,
{
    if n > 1 {
        lemma_min_score_upto(bs, active, n - 1);
        let prev = min_score_upto(bs, active, n - 1);
        let s = score(bs, active, active[n - 1]);
        if s < prev {
            assert(min_score_upto(bs, active, n) == score(bs, active, active[n - 1]));
        } else {
            let k = choose|k: int|
                0 <= k < n - 1 && prev == score(bs, active, #[trigger] active[k]);
            assert(min_score_upto(bs, active, n) == score(bs, active, active[k]));
        }
    } else {
        assert(min_score_upto(bs, active, n) == score(bs, active, active[0]));
    }
}

/// Survivors are drawn from the active prefix, in order and without
/// repeats when the active list has none.
proof fn lemma_surviving_upto(bs: Seq<Seq<int>>, active: Seq<u32>, ms: int, n: int)
    requires
        0 <= n <= active.len(),
        active.no_duplicates(),
    ensures
        surviving_upto(bs, active, ms, n).len() <= n,
        surviving_upto(bs, active, ms, n).no_duplicates(),
        forall|c: u32| #[trigger] surviving_upto(bs, active, ms, n).contains(c) ==> exists|k: int|
            0 <= k < n && active[k] == c,
        forall|c: u32| #[trigger] surviving_upto(bs, active, ms, n).contains(c) ==> active.contains(
            c,
        ) && score(bs, active, c) > ms,
    decreases n,
{
    if n > 0 {
        lemma_surviving_upto(bs, active, ms, n - 1);
        let rest = surviving_upto(bs, active, ms, n - 1);
        let cur = surviving_upto(bs, active, ms, n);
        if score(bs, active, active[n - 1]) > ms {
            assert(cur == rest.push(active[n - 1]));
            assert(cur.no_duplicates()) by {
                assert forall|p: int, q: int| 0 <= p < q < cur.len() implies cur[p] != cur[q] by {
                    if q == cur.len() - 1 {
                        assert(cur[p] == rest[p]);
                        if rest[p] == active[n - 1] {
                            assert(rest.contains(active[n - 1]));
                            let k = choose|k: int| 0 <= k < n - 1 && #[trigger] active[k] == active[n - 1];
                            assert(false);
                        }
                    }
                }
            }
            assert forall|c: u32| #[trigger] cur.contains(c) implies (exists|k: int|
                0 <= k < n && active[k] == c) && active.contains(c) && score(bs, active, c)
                > ms by {
                if c == active[n - 1] {
                    assert(active[n - 1] == c);
                    assert(active.contains(c));
                } else {
                    assert(rest.contains(c));
                }
            }
        }
    }
}

/// An attained lowest score eliminates its holder: the survivor list is
/// strictly shorter than the prefix it came from.
proof fn lemma_surviving_strict(
    bs: Seq<Seq<int>>,
    active: Seq<u32>,
    ms: int,
    n: int,
    w: int,
)
    requires
        0 <= w < n <= active.len(),
        active.no_duplicates(),
        score(bs, active, active[w]) == ms,
    ensures
        surviving_upto(bs, active, ms, n).len() < n,
    decreases n,
{
    lemma_surviving_upto(bs, active, ms, n - 1);
    if w == n - 1 {
    } else {
        lemma_surviving_strict(bs, active, ms, n - 1, w);
    }
}

/// The unwinding depth does not matter once it covers every possible
/// round: the recursion needs at most one round per candidate.
proof fn lemma_winner_fuel(bs: Seq<Seq<int>>, active: Seq<u32>, f1: nat, f2: nat)
    requires
        active.len() + 1 <= f1,
        active.len() + 1 <= f2,
        active.no_duplicates(),
    ensures
        spec_winner_rec(bs, active, f1) == spec_winner_rec(bs, active, f2),
    decreases f1,
{
    if active.len() >= 2 && !exists_majority(bs, active) {
        let ms = min_score(bs, active);
        let surv = survivors(bs, active);
        lemma_min_score_upto(bs, active, active.len() as int);
        let w = choose|k: int|
            0 <= k < active.len() && min_score_upto(bs, active, active.len() as int) == score(
                bs,
                active,
                #[trigger] active[k],
            );
        lemma_surviving_strict(bs, active, ms, active.len() as int, w);
        lemma_surviving_upto(bs, active, ms, active.len() as int);
        lemma_winner_fuel(bs, surv, (f1 - 1) as nat, (f2 - 1) as nat);
    }
}

/// Law: a determined winner is one of the candidates that entered the
/// count as active — never a special vote, which is not a candidate.
proof fn lemma_winner_rec_active(bs: Seq<Seq<int>>, active: Seq<u32>, fuel: nat)
    requires
        active.no_duplicates(),
    ensures
        match spec_winner_rec(bs, active, fuel) {
            Some(c) => active.contains(c),
            None => true,
        },
    decreases fuel,
{
    if fuel > 0 && active.len() > 0 {
        if exists_majority(bs, active) {
            let k = choose|k: int|
                0 <= k < active.len() && has_majority(bs, active, #[trigger] active[k]);
            assert(active.contains(active[k]));
        } else if active.len() == 1 {
            assert(active.contains(active[0]));
        } else {
            let ms = min_score(bs, active);
            lemma_surviving_upto(bs, active, ms, active.len() as int);
            lemma_winner_rec_active(bs, survivors(bs, active), (fuel - 1) as nat);
        }
    }
}

/// Law: the winner of an election, when there is one, is an active
/// candidate — some ballot ranks it, so a withheld or abstained ballot
/// can never be the winner.
pub proof fn lemma_winner_is_active(bs: Seq<Seq<int>>, active: Seq<u32>)
    requires
        active.no_duplicates(),
    ensures
        match spec_winner(bs, active) {
            Some(c) => active.contains(c),
            None => true,
        },
{
    lemma_winner_rec_active(bs, active, (active.len() + 1) as nat);
}

/// Prefix counts read only the first `n` ballots: appending one more
/// ballot changes none of them.
proof fn lemma_counts_of_prefix(bs: Seq<Seq<int>>, w: Seq<int>, active: Seq<u32>, c: u32, n: int)
    requires
        0 <= n <= bs.len(),
    ensures
        tally_upto(bs.push(w), active, c, n) == tally_upto(bs, active, c, n),
        total_upto(bs.push(w), active, n) == total_upto(bs, active, n),
        score_upto(bs.push(w), active, c, n) == score_upto(bs, active, c, n),
    decreases n,
{
    if n > 0 {
        lemma_counts_of_prefix(bs, w, active, c, n - 1);
        assert(bs.push(w)[n - 1] == bs[n - 1]);
    }
}

/// A ballot with no active entry is inert: it raises no tally, no
/// denominator and no score of the round.
proof fn lemma_inert_ballot_counts(bs: Seq<Seq<int>>, w: Seq<int>, active: Seq<u32>, c: u32)
    requires
        exhausted(w, active),
    ensures
        tally(bs.push(w), active, c) == tally(bs, active, c),
        round_total(bs.push(w), active) == round_total(bs, active),
        score(bs.push(w), active, c) == score(bs, active, c),
{
    lemma_counts_of_prefix(bs, w, active, c, bs.len() as int);
    assert(bs.push(w)[bs.len() as int] == w);
    assert(!prefers(w, active, c));
}

/// Exhaustion survives shrinking the active set: a ballot with no
/// entry in `big` has none in any `small` drawn from it.
proof fn lemma_exhausted_in_subset(b: Seq<int>, big: Seq<u32>, small: Seq<u32>)
    requires
        exhausted(b, big),
        forall|c: u32| small.contains(c) ==> big.contains(c),
    ensures
        exhausted(b, small),
{
    lemma_eff_index_from(b, big, 0);
    lemma_eff_index_from(b, small, 0);
    let r = eff_index_from(b, small, 0);
    if r != -1 {
        assert(is_active(big, b[r]));
    }
}

proof fn lemma_inert_ballot_winner_rec(bs: Seq<Seq<int>>, w: Seq<int>, active: Seq<u32>, fuel: nat)
    requires
        exhausted(w, active),
        active.no_duplicates(),
    ensures
        spec_winner_rec(bs.push(w), active, fuel) == spec_winner_rec(bs, active, fuel),
    decreases fuel,
{
    if fuel > 0 && active.len() > 0 {
        assert forall|c: u32|
            tally(bs.push(w), active, c) == tally(bs, active, c) && score(bs.push(w), active, c)
                == score(bs, active, c) by {
            lemma_inert_ballot_counts(bs, w, active, c);
        }
        lemma_inert_ballot_counts(bs, w, active, active[0]);
        assert(exists_majority(bs.push(w), active) == exists_majority(bs, active));
        if exists_majority(bs, active) {
            let k1 = choose|k: int|
                0 <= k < active.len() && has_majority(bs.push(w), active, #[trigger] active[k]);
            let k2 = choose|k: int|
                0 <= k < active.len() && has_majority(bs, active, #[trigger] active[k]);
            assert(has_majority(bs.push(w), active, active[k2]));
            lemma_majority_unique(bs.push(w), active, active[k1], active[k2]);
        } else if active.len() >= 2 {
            assert forall|n: int| 1 <= n <= active.len() implies min_score_upto(
                bs.push(w),
                active,
                n,
            ) == min_score_upto(bs, active, n) by {
                lemma_min_upto_same(bs, w, active, n);
            }
            let ms = min_score(bs, active);
            assert forall|n: int| 0 <= n <= active.len() implies surviving_upto(
                bs.push(w),
                active,
                ms,
                n,
            ) == surviving_upto(bs, active, ms, n) by {
                lemma_surviving_upto_same(bs, w, active, ms, n);
            }
            let surv = survivors(bs, active);
            lemma_surviving_upto(bs, active, ms, active.len() as int);
            assert forall|c: u32| surv.contains(c) implies active.contains(c) by {}
            lemma_exhausted_in_subset(w, active, surv);
            lemma_inert_ballot_winner_rec(bs, w, surv, (fuel - 1) as nat);
        }
    }
}

proof fn lemma_min_upto_same(bs: Seq<Seq<int>>, w: Seq<int>, active: Seq<u32>, n: int)
    requires
        exhausted(w, active),
        1 <= n <= active.len(),
    ensures
        min_score_upto(bs.push(w), active, n) == min_score_upto(bs, active, n),
    decreases n,
{
    lemma_inert_ballot_counts(bs, w, active, active[n - 1]);
    lemma_inert_ballot_counts(bs, w, active, active[0]);
    if n > 1 {
        lemma_min_upto_same(bs, w, active, n - 1);
    }
}

proof fn lemma_surviving_upto_same(
    bs: Seq<Seq<int>>,
    w: Seq<int>,
    active: Seq<u32>,
    ms: int,
    n: int,
)
    requires
        exhausted(w, active),
        0 <= n <= active.len(),
    ensures
        surviving_upto(bs.push(w), active, ms, n) == surviving_upto(bs, active, ms, n),
    decreases n,
{
    if n > 0 {
        lemma_inert_ballot_counts(bs, w, active, active[n - 1]);
        lemma_surviving_upto_same(bs, w, active, ms, n - 1);
    }
}

/// Law: a ballot that ranks no active candidate — above all a withheld
/// or abstained ballot — counts toward nothing a round reads, so
/// appending it to an election leaves the outcome exactly as it was.
pub proof fn lemma_inert_ballot_keeps_winner(bs: Seq<Seq<int>>, w: Seq<int>, active: Seq<u32>)
    requires
        exhausted(w, active),
        active.no_duplicates(),
    ensures
        spec_winner(bs.push(w), active) == spec_winner(bs, active),
{
    lemma_inert_ballot_winner_rec(bs, w, active, (active.len() + 1) as nat);
}

/// Law: a ballot holding the single withhold entry is inert in every
/// election: the withhold sentinel is no candidate.
pub proof fn lemma_withheld_ballot_keeps_winner(bs: Seq<Seq<int>>, active: Seq<u32>)
    requires
        active.no_duplicates(),
    ensures
        spec_winner(bs.push(seq![-1int]), active) == spec_winner(bs, active),
{
    let w = seq![-1int];
    lemma_eff_index_from(w, active, 0);
    let r = eff_index_from(w, active, 0);
    if r != -1 {
        assert(is_active(active, w[r]));
    }
    lemma_inert_ballot_keeps_winner(bs, w, active);
}

/// Law: registering any number of ballots that each hold the single
/// withhold entry raises no count any round reads, so the winner stays
/// exactly what it was.
pub proof fn lemma_withheld_ballots_keep_winner(bs: Seq<Seq<int>>, active: Seq<u32>, k: nat)
    requires
        active.no_duplicates(),
    ensures
        spec_winner(bs + Seq::new(k, |i: int| seq![-1int]), active) == spec_winner(bs, active),
    decreases k,
{
    if k > 0 {
        lemma_withheld_ballots_keep_winner(bs, active, (k - 1) as nat);
        let shorter = bs + Seq::new((k - 1) as nat, |i: int| seq![-1int]);
        assert(bs + Seq::new(k, |i: int| seq![-1int]) =~= shorter.push(seq![-1int]));
        lemma_withheld_ballot_keeps_winner(shorter, active);
    } else {
        assert(bs + Seq::new(0nat, |i: int| seq![-1int]) =~= bs);
    }
}

/// The first entry of the ballot naming an active candidate, as its
/// index into the ballot, or `None` when the ballot is exhausted for
/// this round.
pub fn effective_preference(vote: &RankedVote, active: &Vec<u32>) -> (r: Option<usize>)
    ensures
        match r {
            Some(idx) => idx as int == eff_index(vote@, active@) && idx < vote@.len()
                && is_active(active@, vote@[idx as int]),
            None => exhausted(vote@, active@),
        },
{
    let n = vote.len();
    let mut i: usize = 0;
    while i < n
        invariant
            0 <= i <= n,
            n == vote@.len(),
            forall|p: int| 0 <= p < i ==> !is_active(active@, #[trigger] vote@[p]),
        decreases n - i,
    {
        let e = vote.get(i);
        if e >= 0 && vec_contains_u32(active, e as u32) {
            proof {
                assert(vote@[i as int] == e as int);
                assert(vote@[i as int] as u32 == e as u32);
                assert(is_active(active@, vote@[i as int]));
                lemma_eff_index_from(vote@, active@, 0);
            }
            return Some(i);
        }
        i += 1;
    }
    proof {
        lemma_eff_index_from(vote@, active@, 0);
    }
    None
}

/// The first-choice tally of candidate `c` for a round over the stored
/// ballots.
#[verifier::loop_isolation(false)]
fn tally_for(store: &BallotStore, active: &Vec<u32>, c: u32) -> (t: u64)
    requires
        store.wf(),
        store.ballots().len() <= 0xFFFF_FFFF,
    ensures
        t as int == tally(store.ballots(), active@, c),
        t as int <= store.ballots().len(),
{
    let ghost bs = store.ballots();
    let n = store.ballot_count();
    let mut t: u64 = 0;
    let mut i: usize = 0;
    while i < n
        invariant
            0 <= i <= n,
            t as int == tally_upto(bs, active@, c, i as int),
            t <= i,
        decreases n - i,
    {
        let v = store.ballot(i);
        match effective_preference(v, active) {
            Some(idx) => {
                let e = v.get(idx);
                if e >= 0 && e as u32 == c {
                    proof {
                        assert(prefers(bs[i as int], active@, c));
                    }
                    t += 1;
                } else {
                    proof {
                        assert(bs[i as int][eff_index(bs[i as int], active@)] == e as int);
                        assert(!prefers(bs[i as int], active@, c));
                    }
                }
            },
            None => {
                proof {
                    assert(!prefers(bs[i as int], active@, c));
                }
            },
        }
        i += 1;
    }
    t
}

/// The number of non-exhausted ballots for a round: the denominator of
/// the majority test.
#[verifier::loop_isolation(false)]
fn total_for(store: &BallotStore, active: &Vec<u32>) -> (t: u64)
    requires
        store.wf(),
        store.ballots().len() <= 0xFFFF_FFFF,
    ensures
        t as int == round_total(store.ballots(), active@),
        t as int <= store.ballots().len(),
{
    let ghost bs = store.ballots();
    let n = store.ballot_count();
    let mut t: u64 = 0;
    let mut i: usize = 0;
    while i < n
        invariant
            0 <= i <= n,
            t as int == total_upto(bs, active@, i as int),
            t <= i,
        decreases n - i,
    {
        let v = store.ballot(i);
        match effective_preference(v, active) {
            Some(_) => {
                t += 1;
            },
            None => {
            },
        }
        i += 1;
    }
    t
}

/// The scaled Dowdall score of candidate `c` for a round over the
/// stored ballots.
#[verifier::loop_isolation(false)]
fn score_for(store: &BallotStore, active: &Vec<u32>, c: u32) -> (s: u128)
    requires
        store.wf(),
        store.ballots().len() <= 0xFFFF_FFFF,
    ensures
        s as int == score(store.ballots(), active@, c),
{
    let ghost bs = store.ballots();
    let n = store.ballot_count();
    let mut s: u128 = 0;
    let mut i: usize = 0;
    while i < n
        invariant
            0 <= i <= n,
            s as int == score_upto(bs, active@, c, i as int),
            s as int <= i as int * (DOWDALL_SCALE as int),
        decreases n - i,
    {
        let v = store.ballot(i);
        match effective_preference(v, active) {
            Some(idx) => {
                let e = v.get(idx);
                if e >= 0 && e as u32 == c {
                    proof {
                        assert(prefers(bs[i as int], active@, c));
                        lemma_div_nonincreasing(DOWDALL_SCALE as int, idx as int + 1);
                        lemma_div_pos_is_pos(DOWDALL_SCALE as int, idx as int + 1);
                        assert((i + 1) as int * (DOWDALL_SCALE as int) <= 0x1_0000_0000 * (
                        DOWDALL_SCALE as int)) by (nonlinear_arith)
                            requires
                                i + 1 <= 0x1_0000_0000,
                        ;
                        assert(i as int * (DOWDALL_SCALE as int) + DOWDALL_SCALE as int == (i + 1)
                            as int * (DOWDALL_SCALE as int)) by (nonlinear_arith);
                    }
                    let share: u128 = DOWDALL_SCALE / (idx as u128 + 1);
                    s += share;
                } else {
                    proof {
                        assert(bs[i as int][eff_index(bs[i as int], active@)] == e as int);
                        assert(!prefers(bs[i as int], active@, c));
                    }
                }
            },
            None => {
                proof {
                    assert(!prefers(bs[i as int], active@, c));
                }
            },
        }
        i += 1;
    }
    s
}

/// Runs the whole elimination count on the stored ballots, starting
/// from every candidate active, and returns the winner if one exists.
///
/// The ballot bound is what lets the scaled scores stay exact in
/// 128-bit arithmetic.
#[verifier::loop_isolation(false)]
pub fn run_election(store: &BallotStore) -> (r: Option<u32>)
    requires
        store.wf(),
        store.ballots().len() <= 0xFFFF_FFFF,
    ensures
        r == spec_winner(store.ballots(), store.candidate_seq()),
        match r {
            Some(c) => store.candidate_seq().contains(c),
            None => true,
        },
{
    let ghost bs = store.ballots();
    let ghost init = store.candidate_seq();
    let mut active: Vec<u32> = store.active_candidates();
    loop
        invariant
            active@.no_duplicates(),
            forall|c: u32| #[trigger] active@.contains(c) ==> init.contains(c),
            spec_winner_rec(bs, active@, (active@.len() + 1) as nat) == spec_winner(bs, init),
        decreases active@.len(),
    {
        let m = active.len();
        if m == 0 {
            proof {
                assert(spec_winner_rec(bs, active@, 1nat) == None::<u32>);
            }
            return None;
        }
        let total = total_for(store, &active);
        let mut k: usize = 0;
        while k < m
            invariant
                0 <= k <= m,
                forall|j: int| 0 <= j < k ==> !has_majority(bs, active@, #[trigger] active@[j]),
            decreases m - k,
        {
            let t = tally_for(store, &active, active[k]);
            if 2 * t > total {
                proof {
                    assert(has_majority(bs, active@, active@[k as int]));
                    assert(exists_majority(bs, active@));
                    let kk = choose|kk: int|
                        0 <= kk < active@.len() && has_majority(bs, active@, #[trigger] active@[kk]);
                    lemma_majority_unique(bs, active@, active@[kk], active@[k as int]);
                    assert(majority_winner(bs, active@) == active@[k as int]);
                    assert(active@.contains(active@[k as int]));
                }
                return Some(active[k]);
            }
            k += 1;
        }
        proof {
            assert(!exists_majority(bs, active@));
        }
        if m == 1 {
            let t = tally_for(store, &active, active[0]);
            if t > 0 {
                proof {
                    assert(active@.contains(active@[0]));
                }
                return Some(active[0]);
            } else {
                return None;
            }
        }
        let mut ms: u128 = score_for(store, &active, active[0]);
        let mut min_idx: usize = 0;
        let mut j: usize = 1;
        proof {
            assert(ms as int == min_score_upto(bs, active@, 1));
        }
        while j < m
            invariant
                1 <= j <= m,
                0 <= min_idx < j,
                ms as int == min_score_upto(bs, active@, j as int),
                ms as int == score(bs, active@, active@[min_idx as int]),
            decreases m - j,
        {
            let s = score_for(store, &active, active[j]);
            if s < ms {
                ms = s;
                min_idx = j;
            }
            j += 1;
        }
        let mut new_active: Vec<u32> = Vec::new();
        let mut p: usize = 0;
        while p < m
            invariant
                0 <= p <= m,
                new_active@ == surviving_upto(bs, active@, ms as int, p as int),
                new_active@.len() <= p,
            decreases m - p,
        {
            let s = score_for(store, &active, active[p]);
            let ghost prev_new = new_active@;
            if s > ms {
                new_active.push(active[p]);
            }
            proof {
                assert(new_active@ == surviving_upto(bs, active@, ms as int, p as int + 1));
            }
            p += 1;
        }
        proof {
            assert(ms as int == min_score(bs, active@));
            assert(new_active@ == survivors(bs, active@));
            lemma_surviving_strict(bs, active@, ms as int, m as int, min_idx as int);
            lemma_surviving_upto(bs, active@, ms as int, m as int);
            assert(spec_winner_rec(bs, active@, (m + 1) as nat) == spec_winner_rec(
                bs,
                new_active@,
                m as nat,
            ));
            lemma_winner_fuel(bs, new_active@, m as nat, (new_active@.len() + 1) as nat);
            assert forall|c: u32| #[trigger] new_active@.contains(c) implies init.contains(c) by {
                assert(active@.contains(c));
            }
        }
        active = new_active;
    }
}

} // verus!
