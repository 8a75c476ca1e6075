//! The lifecycle layer: small state machines that a host walks while a
//! poll or a vote is being put together.
//!
//! Each context owns a bound on its growing list and checks one more
//! entry per transition; a vote context also holds every intermediate
//! ranking to the same validation rules the counting engine applies.
//! Serialization of the intermediate states is the host's business;
//! the logic here works on the plain state values.

use vstd::prelude::*;
use vstd::string::StringSliceAdditionalSpecFns;
use crate::vote::RankedVote;
use crate::vote::as_ints;
use crate::vote::spec_is_valid;

verus! {

/// The kinds of failure of the lifecycle layer.
#[derive(Clone, Copy, PartialEq, Eq, Structural, Debug)]
pub enum ContextErrorKind {
    InvalidContextType,
    InvalidState,
    CapacityExceeded,
    InvalidRanking,
}

/// A lifecycle failure: its kind, a human-readable description, and
/// optionally the failure that caused it.
#[derive(Debug)]
pub struct ContextError {
    kind: ContextErrorKind,
    description: String,
    cause: Option<Box<ContextError>>,
}

impl ContextError {
    pub closed spec fn spec_kind(self) -> ContextErrorKind {
        self.kind
    }

    pub closed spec fn spec_description(self) -> Seq<char> {
        self.description@
    }

    pub closed spec fn spec_cause(self) -> Option<Box<ContextError>> {
        self.cause
    }

    /// The failure this one grew out of, if any was recorded.
    pub fn cause(&self) -> (c: &Option<Box<ContextError>>)
        ensures
            *c == self.spec_cause(),
    {
        &self.cause
    }

    /// The failure a host reports when a serialized intermediate state
    /// cannot be read back.
    pub fn invalid_state() -> (e: ContextError)
        ensures
            e.spec_kind() == ContextErrorKind::InvalidState,
            e.spec_description() == "INVALID POLL STATE"@,
    {
        ContextError {
            kind: ContextErrorKind::InvalidState,
            description: "INVALID POLL STATE".to_owned(),
            cause: None,
        }
    }

    pub fn kind(&self) -> (k: ContextErrorKind)
        ensures
            k == self.spec_kind(),
    {
        self.kind
    }

    pub fn description(&self) -> (d: String)
        ensures
            d@ == self.spec_description(),
    {
        self.description.clone()
    }
}

/// Whether two byte strings hold the same bytes.
fn bytes_eq(a: &[u8], b: &[u8]) -> (r: bool)
    ensures
        r == (a@ == b@),
{
    let n = a.len();
    if n != b.len() {
        proof {
            if a@ =~= b@ {
                assert(false);
            }
        }
        return false;
    }
    let mut i: usize = 0;
    while i < n
        invariant
            0 <= i <= n,
            n == a@.len(),
            n == b@.len(),
            forall|p: int| 0 <= p < i ==> a@[p] == b@[p],
        decreases n - i,
    {
        if a[i] != b[i] {
            proof {
                if a@ =~= b@ {
                    assert(false);
                }
            }
            return false;
        }
        i += 1;
    }
    proof {
        assert(a@ =~= b@);
    }
    true
}

/// The two kinds of creation flow a serialized context can belong to.
#[derive(Clone, Copy, PartialEq, Eq, Structural, Debug, Hash)]
pub enum ContextTypes {
    PollCreation,
    VoteCreation,
}

impl ContextTypes {
    /// Reads a context type from its tag; any other tag is an invalid
    /// context type.
    pub fn from_str(context_type: &str) -> (r: Result<ContextTypes, ContextError>)
        ensures
            r is Ok <==> (context_type.spec_bytes() == "POLL_CREATION".spec_bytes()
                || context_type.spec_bytes() == "VOTE_CREATION".spec_bytes()),
            match r {
                Ok(t) => (t == ContextTypes::PollCreation <==> context_type.spec_bytes()
                    == "POLL_CREATION".spec_bytes()),
                Err(e) => e.spec_kind() == ContextErrorKind::InvalidContextType,
            },
    {
        if bytes_eq(context_type.as_bytes(), "POLL_CREATION".as_bytes()) {
            Ok(ContextTypes::PollCreation)
        } else if bytes_eq(context_type.as_bytes(), "VOTE_CREATION".as_bytes()) {
            Ok(ContextTypes::VoteCreation)
        } else {
            Err(
                ContextError {
                    kind: ContextErrorKind::InvalidContextType,
                    description: "INVALID CONTEXT TYPE".to_owned(),
                    cause: None,
                },
            )
        }
    }

    /// The tag under which this context type is serialized.
    pub fn to_str(&self) -> (r: String)
        ensures
            r@ == match self {
                ContextTypes::PollCreation => "POLL_CREATION"@,
                ContextTypes::VoteCreation => "VOTE_CREATION"@,
            },
    {
        match self {
            ContextTypes::PollCreation => "POLL_CREATION".to_owned(),
            ContextTypes::VoteCreation => "VOTE_CREATION".to_owned(),
        }
    }
}

/// The intermediate state of one vote being put together: the poll it
/// belongs to and the raw ranking collected so far.
#[derive(Debug)]
pub struct VoteCreationState {
    pub poll_id: u64,
    pub raw_vote: Vec<i32>,
}

/// The vote-creation flow: admits one more ranking entry per step, up
/// to a bound, and only while the entries form a valid ranking.
pub struct VoteCreationContext {
    max_vote_options: u64,
}

impl VoteCreationContext {
    /// The bound on how many entries a vote may rank.
    pub closed spec fn spec_max(self) -> u64 {
        self.max_vote_options
    }

    pub fn new(max_options: u64) -> (c: VoteCreationContext)
        ensures
            c.spec_max() == max_options,
    {
        VoteCreationContext { max_vote_options: max_options }
    }

    /// The state a fresh vote starts from: no entries ranked yet.
    pub fn initial_state(&self, poll_id: u64) -> (s: VoteCreationState)
        ensures
            s.poll_id == poll_id,
            s.raw_vote@ == Seq::<i32>::empty(),
    {
        VoteCreationState { poll_id, raw_vote: Vec::new() }
    }

    /// Adds one ranking entry to the in-progress vote: accepted exactly
    /// when the grown ranking stays within the bound and still
    /// validates.
    pub fn transition(&self, state: VoteCreationState, option: i32) -> (r: Result<
        VoteCreationState,
        ContextError,
    >)
        ensures
            ({
                let grown = state.raw_vote@.push(option);
                match r {
                    Ok(s) => {
                        &&& grown.len() <= self.spec_max()
                        &&& spec_is_valid(as_ints(grown))
                        &&& s.poll_id == state.poll_id
                        &&& s.raw_vote@ == grown
                    },
                    Err(e) => {
                        &&& !(grown.len() <= self.spec_max() && spec_is_valid(as_ints(grown)))
                        &&& if grown.len() > self.spec_max() {
                            &&& e.spec_kind() == ContextErrorKind::CapacityExceeded
                            &&& e.spec_description() == "Ranked vote is too long"@
                        } else {
                            &&& e.spec_kind() == ContextErrorKind::InvalidRanking
                            &&& e.spec_description() == "Ranked vote is invalid"@
                        }
                    },
                }
            }),
    {
        let mut grown = state.raw_vote;
        grown.push(option);
        if grown.len() as u64 > self.max_vote_options {
            return Err(
                ContextError {
                    kind: ContextErrorKind::CapacityExceeded,
                    description: "Ranked vote is too long".to_owned(),
                    cause: None,
                },
            );
        }
        match RankedVote::from_vector(&grown) {
            Ok(_) => Ok(VoteCreationState { poll_id: state.poll_id, raw_vote: grown }),
            Err(_) => Err(
                ContextError {
                    kind: ContextErrorKind::InvalidRanking,
                    description: "Ranked vote is invalid".to_owned(),
                    cause: None,
                },
            ),
        }
    }
}

/// The intermediate state of one poll being put together: its title
/// and the answer options collected so far.
#[derive(Debug)]
pub struct PollCreationState {
    pub poll_title: String,
    pub options: Vec<String>,
}

/// The poll-creation flow: admits one more option per step, up to a
/// bound.
pub struct PollCreationContext {
    max_options: u64,
}

impl PollCreationContext {
    /// The bound on how many options a poll may offer.
    pub closed spec fn spec_max(self) -> u64 {
        self.max_options
    }

    pub fn new(max_options: u64) -> (c: PollCreationContext)
        ensures
            c.spec_max() == max_options,
    {
        PollCreationContext { max_options }
    }

    /// The state a fresh poll starts from: a title and no options yet.
    pub fn initial_state(&self, poll_title: String) -> (s: PollCreationState)
        ensures
            s.poll_title@ == poll_title@,
            s.options@ == Seq::<String>::empty(),
    {
        PollCreationState { poll_title, options: Vec::new() }
    }

    /// Adds one option to the poll: accepted exactly when the grown
    /// option list stays within the bound.
    pub fn transition(&self, state: PollCreationState, option: String) -> (r: Result<
        PollCreationState,
        ContextError,
    >)
        ensures
            ({
                let grown = state.options@.push(option);
                match r {
                    Ok(s) => {
                        &&& grown.len() <= self.spec_max()
                        &&& s.poll_title@ == state.poll_title@
                        &&& s.options@ == grown
                    },
                    Err(e) => {
                        &&& grown.len() > self.spec_max()
                        &&& e.spec_kind() == ContextErrorKind::CapacityExceeded
                        &&& e.spec_description() == "Too many options"@
                    },
                }
            }),
    {
        let mut grown = state.options;
        grown.push(option);
        if grown.len() as u64 > self.max_options {
            return Err(
                ContextError {
                    kind: ContextErrorKind::CapacityExceeded,
                    description: "Too many options".to_owned(),
                    cause: None,
                },
            );
        }
        Ok(PollCreationState { poll_title: state.poll_title, options: grown })
    }
}

/// A placeholder for a dispatcher over the context types; the host
/// routes serialized states to the matching context itself.
pub struct ContextProcessor {}

} // verus!
