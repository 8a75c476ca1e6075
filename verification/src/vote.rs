//! Ballot validation: raw integer rankings are checked and canonicalized
//! into `RankedVote` values.
//!
//! A raw ranking is a sequence of `i32` entries, first preference first.
//! Non-negative entries name candidates; negative entries are special
//! votes (`-1` withhold, `-2` abstain) and may only stand in the final
//! position.  Any other negative value is treated as a malformed special
//! vote.

use vstd::prelude::*;

verus! {

/// Sentinel ranking value for a withheld vote.
pub const WITHHOLD_VALUE: i32 = -1;

/// Sentinel ranking value for an abstained vote.
pub const ABSTAIN_VALUE: i32 = -2;

/// The closed set of non-candidate ranking values.
#[derive(Clone, Copy, PartialEq, Eq, Structural, Debug)]
pub enum SpecialVotes {
    Withhold,
    Abstain,
}

/// Everything that can be wrong with a raw ranking sequence.
///
/// `ReadOutOfBounds` and `InvalidCastToCandidate` belong to the error
/// surface of the engine boundary but cannot arise from `i32` rankings:
/// every non-negative `i32` is a representable candidate identifier, and
/// every negative entry is read as a special vote.
#[derive(Clone, Copy, PartialEq, Eq, Structural, Debug)]
pub enum VoteErrors {
    EmptyVote,
    DuplicateVotes,
    NonFinalSpecialVote,
    ReadOutOfBounds,
    InvalidCastToCandidate,
    InvalidCastToSpecialVote,
}

impl SpecialVotes {
    /// The integer encoding shared with callers and storage.
    pub open spec fn spec_to_int(self) -> int {
        match self {
            SpecialVotes::Withhold => -1,
            SpecialVotes::Abstain => -2,
        }
    }

    pub fn to_int(self) -> (r: i32)
        ensures
            r as int == self.spec_to_int(),
    {
        match self {
            SpecialVotes::Withhold => WITHHOLD_VALUE,
            SpecialVotes::Abstain => ABSTAIN_VALUE,
        }
    }

    /// Decodes a raw value; only the two sentinels are accepted.
    pub fn from_int(raw_value: i32) -> (r: Result<SpecialVotes, VoteErrors>)
        ensures
            match r {
                Ok(s) => s.spec_to_int() == raw_value as int,
                Err(e) => {
                    &&& e == VoteErrors::InvalidCastToSpecialVote
                    &&& !spec_is_special(raw_value as int)
                },
            },
    {
        match raw_value {
            WITHHOLD_VALUE => Ok(SpecialVotes::Withhold),
            ABSTAIN_VALUE => Ok(SpecialVotes::Abstain),
            _ => Err(VoteErrors::InvalidCastToSpecialVote),
        }
    }
}

impl VoteErrors {
    /// The human-readable message of each error.
    pub open spec fn spec_message(self) -> Seq<char> {
        match self {
            VoteErrors::EmptyVote => "Vote is empty"@,
            VoteErrors::DuplicateVotes => "Duplicate vote rankings"@,
            VoteErrors::NonFinalSpecialVote => "Special vote value can only be ranked once as the last choice"@,
            VoteErrors::ReadOutOfBounds => "Read out of bounds"@,
            VoteErrors::InvalidCastToCandidate => "Invalid candidate"@,
            VoteErrors::InvalidCastToSpecialVote => "Invalid cast to special vote"@,
        }
    }

    pub fn to_error_message(&self) -> (r: String)
        ensures
            r@ == self.spec_message(),
    {
        match self {
            VoteErrors::EmptyVote => "Vote is empty".to_owned(),
            VoteErrors::DuplicateVotes => "Duplicate vote rankings".to_owned(),
            VoteErrors::NonFinalSpecialVote => "Special vote value can only be ranked once as the last choice".to_owned(),
            VoteErrors::ReadOutOfBounds => "Read out of bounds".to_owned(),
            VoteErrors::InvalidCastToCandidate => "Invalid candidate".to_owned(),
            VoteErrors::InvalidCastToSpecialVote => "Invalid cast to special vote".to_owned(),
        }
    }
}

/// A value that stands for a special (non-candidate) vote.
pub open spec fn spec_is_special(v: int) -> bool {
    v == -1 || v == -2
}

/// The mathematical reading of a raw ranking vector.
pub open spec fn as_ints(s: Seq<i32>) -> Seq<int> {
    s.map_values(|v: i32| v as int)
}

/// Two entries of the ranking are equal.
pub open spec fn has_duplicate(s: Seq<int>) -> bool {
    exists|i: int, j: int| 0 <= i < j < s.len() && s[i] == s[j]
}

/// Some special (negative) entry stands before the final position.
pub open spec fn has_nonfinal_special(s: Seq<int>) -> bool {
    exists|i: int| 0 <= i < s.len() - 1 && s[i] < 0
}

/// The validation outcome of a raw ranking: the first rule it breaks,
/// or `None` when it is a well-formed ballot.  Rules, in order: the
/// ranking is non-empty; no entry repeats; a special (negative) entry
/// stands only in the final position; a final negative entry is one of
/// the two sentinels.
pub open spec fn spec_validation_error(s: Seq<int>) -> Option<VoteErrors> {
    if s.len() == 0 {
        Some(VoteErrors::EmptyVote)
    } else if has_duplicate(s) {
        Some(VoteErrors::DuplicateVotes)
    } else if has_nonfinal_special(s) {
        Some(VoteErrors::NonFinalSpecialVote)
    } else if s[s.len() - 1] < 0 && !spec_is_special(s[s.len() - 1]) {
        Some(VoteErrors::InvalidCastToSpecialVote)
    } else {
        None
    }
}

/// A raw ranking that passes every validation rule.
pub open spec fn spec_is_valid(s: Seq<int>) -> bool {
    spec_validation_error(s) is None
}

/// Law: under well-formed entries (each a candidate identifier or one of
/// the two sentinels), a ranking validates exactly when it is non-empty,
/// free of duplicates, and keeps any special entry in the final position.
pub proof fn lemma_validate_characterization(s: Seq<int>)
    requires
        forall|i: int| 0 <= i < s.len() ==> s[i] >= 0 || spec_is_special(#[trigger] s[i]),
    ensures
        spec_is_valid(s) <==> {
            &&& s.len() > 0
            &&& !has_duplicate(s)
            &&& forall|i: int| 0 <= i < s.len() && spec_is_special(#[trigger] s[i]) ==> i == s.len() - 1
        },
{
    if s.len() > 0 && !has_duplicate(s) {
        assert(has_nonfinal_special(s) <==> exists|i: int|
            0 <= i < s.len() - 1 && spec_is_special(#[trigger] s[i]));
    }
}

/// A finalized, validated ballot: the raw entries in preference order,
/// known to satisfy every validation rule.
#[derive(Debug)]
pub struct RankedVote {
    entries: Vec<i32>,
}

impl View for RankedVote {
    type V = Seq<int>;

    closed spec fn view(&self) -> Seq<int> {
        as_ints(self.entries@)
    }
}

impl RankedVote {
    /// Every finalized ballot carries a valid entry sequence.
    pub open spec fn wf(self) -> bool {
        spec_is_valid(self@)
    }

    /// Validates a raw ranking vector and canonicalizes it into a ballot.
    /// Returns the first broken rule otherwise.
    pub fn from_vector(raw_ranked_vote: &Vec<i32>) -> (r: Result<RankedVote, VoteErrors>)
        ensures
            match r {
                Ok(v) => {
                    &&& spec_validation_error(as_ints(raw_ranked_vote@)) is None
                    &&& v@ == as_ints(raw_ranked_vote@)
                    &&& v.wf()
                },
                Err(e) => spec_validation_error(as_ints(raw_ranked_vote@)) == Some(e),
            },
    {
        let ghost s = as_ints(raw_ranked_vote@);
        let n = raw_ranked_vote.len();
        if n == 0 {
            return Err(VoteErrors::EmptyVote);
        }
        let mut i: usize = 1;
        while i < n
            invariant
                1 <= i <= n,
                n == raw_ranked_vote.len(),
                s == as_ints(raw_ranked_vote@),
                forall|p: int, q: int| 0 <= p < q < i ==> s[p] != s[q],
            decreases n - i,
        {
            let mut j: usize = 0;
            while j < i
                invariant
                    0 <= j <= i < n,
                    n == raw_ranked_vote.len(),
                    s == as_ints(raw_ranked_vote@),
                    forall|q: int| 0 <= q < j ==> s[q] != s[i as int],
                decreases i - j,
            {
                if raw_ranked_vote[j] == raw_ranked_vote[i] {
                    assert(s[j as int] == raw_ranked_vote@[j as int] as int);
                    assert(s[i as int] == raw_ranked_vote@[i as int] as int);
                    assert(has_duplicate(s));
                    return Err(VoteErrors::DuplicateVotes);
                }
                j += 1;
            }
            i += 1;
        }
        assert(!has_duplicate(s));
        let mut k: usize = 0;
        while k < n - 1
            invariant
                0 <= k <= n - 1,
                n == raw_ranked_vote.len(),
                n >= 1,
                s == as_ints(raw_ranked_vote@),
                !has_duplicate(s),
                forall|p: int| 0 <= p < k ==> s[p] >= 0,
            decreases n - k,
        {
            if raw_ranked_vote[k] < 0 {
                assert(s[k as int] == raw_ranked_vote@[k as int] as int);
                assert(0 <= k < s.len() - 1 && s[k as int] < 0);
                assert(has_nonfinal_special(s));
                return Err(VoteErrors::NonFinalSpecialVote);
            }
            k += 1;
        }
        assert(!has_nonfinal_special(s));
        let last = raw_ranked_vote[n - 1];
        if last < 0 && last != WITHHOLD_VALUE && last != ABSTAIN_VALUE {
            return Err(VoteErrors::InvalidCastToSpecialVote);
        }
        let mut entries: Vec<i32> = Vec::new();
        let mut m: usize = 0;
        while m < n
            invariant
                0 <= m <= n,
                n == raw_ranked_vote.len(),
                entries@ == raw_ranked_vote@.take(m as int),
            decreases n - m,
        {
            entries.push(raw_ranked_vote[m]);
            assert(entries@ =~= raw_ranked_vote@.take(m + 1));
            m += 1;
        }
        assert(entries@ =~= raw_ranked_vote@);
        Ok(RankedVote { entries })
    }

    /// The number of entries ranked on the ballot.
    pub fn len(&self) -> (n: usize)
        ensures
            n == self@.len(),
    {
        self.entries.len()
    }

    /// The entry at the given preference position (0-indexed).
    pub fn get(&self, i: usize) -> (r: i32)
        requires
            i < self@.len(),
        ensures
            r as int == self@[i as int],
    {
        self.entries[i]
    }

    /// The ballot's entries, back as the raw vector they were made from.
    pub fn to_vector(&self) -> (r: Vec<i32>)
        ensures
            as_ints(r@) == self@,
    {
        let mut out: Vec<i32> = Vec::new();
        let mut m: usize = 0;
        let n = self.entries.len();
        while m < n
            invariant
                0 <= m <= n,
                n == self.entries.len(),
                out@ == self.entries@.take(m as int),
            decreases n - m,
        {
            out.push(self.entries[m]);
            assert(out@ =~= self.entries@.take(m + 1));
            m += 1;
        }
        assert(out@ =~= self.entries@);
        out
    }
}

/// The outcome of validating one raw ranking: a flag and, on failure,
/// the broken rule's message.
pub struct ValidateVoteResult {
    valid: bool,
    error_message: String,
}

impl ValidateVoteResult {
    pub closed spec fn spec_valid(self) -> bool {
        self.valid
    }

    pub closed spec fn spec_error_message(self) -> Seq<char> {
        self.error_message@
    }

    /// Wraps a cast result: success carries an empty message, failure the
    /// message of its error.
    pub fn new(cast_result: Result<RankedVote, VoteErrors>) -> (r: ValidateVoteResult)
        ensures
            r.spec_valid() == cast_result is Ok,
            r.spec_error_message() == match cast_result {
                Ok(_) => Seq::<char>::empty(),
                Err(e) => e.spec_message(),
            },
    {
        let valid = cast_result.is_ok();
        let error_message = match cast_result {
            Ok(_) => String::new(),
            Err(err) => err.to_error_message(),
        };
        ValidateVoteResult { valid, error_message }
    }

    pub fn get_valid(&self) -> (r: bool)
        ensures
            r == self.spec_valid(),
    {
        self.valid
    }

    pub fn get_error_message(&self) -> (r: String)
        ensures
            r@ == self.spec_error_message(),
    {
        self.error_message.clone()
    }
}

/// Checks a raw ranking sequence against every validation rule; usable
/// on its own, without any engine state.
pub fn validate(rankings: &Vec<i32>) -> (r: ValidateVoteResult)
    ensures
        r.spec_valid() == spec_is_valid(as_ints(rankings@)),
        r.spec_error_message() == match spec_validation_error(as_ints(rankings@)) {
            None => Seq::<char>::empty(),
            Some(e) => e.spec_message(),
        },
{
    ValidateVoteResult::new(RankedVote::from_vector(rankings))
}

} // verus!

