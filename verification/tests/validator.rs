use rcv_engine::vote::ABSTAIN_VALUE;
use rcv_engine::vote::RankedVote;
use rcv_engine::vote::SpecialVotes;
use rcv_engine::vote::ValidateVoteResult;
use rcv_engine::vote::VoteErrors;
use rcv_engine::vote::WITHHOLD_VALUE;
use rcv_engine::vote::validate;

#[test]
fn accepts_plain_ranking() {
    let r = validate(&vec![1, 2, 3]);
    assert!(r.get_valid());
    assert_eq!(r.get_error_message(), "");
}

#[test]
fn accepts_ranking_with_final_withhold() {
    let r = validate(&vec![1, 2, WITHHOLD_VALUE]);
    assert!(r.get_valid());
}

#[test]
fn accepts_single_withhold() {
    assert!(validate(&vec![WITHHOLD_VALUE]).get_valid());
}

#[test]
fn accepts_single_abstain() {
    assert!(validate(&vec![ABSTAIN_VALUE]).get_valid());
}

#[test]
fn rejects_empty_ranking() {
    let r = validate(&vec![]);
    assert!(!r.get_valid());
    assert_eq!(r.get_error_message(), "Vote is empty");
}

#[test]
fn rejects_duplicate_rankings() {
    let r = validate(&vec![1, 2, 2]);
    assert!(!r.get_valid());
    assert_eq!(r.get_error_message(), "Duplicate vote rankings");
}

#[test]
fn rejects_non_final_special_vote() {
    let r = validate(&vec![WITHHOLD_VALUE, 1]);
    assert!(!r.get_valid());
    assert_eq!(
        r.get_error_message(),
        "Special vote value can only be ranked once as the last choice"
    );
}

#[test]
fn rejects_malformed_special_value() {
    let r = validate(&vec![1, -5]);
    assert!(!r.get_valid());
    assert_eq!(r.get_error_message(), "Invalid cast to special vote");
}

#[test]
fn duplicate_check_precedes_placement_check() {
    let r = validate(&vec![WITHHOLD_VALUE, WITHHOLD_VALUE]);
    assert!(!r.get_valid());
    assert_eq!(r.get_error_message(), "Duplicate vote rankings");
}

#[test]
fn from_vector_to_vector_round_trip() {
    let raw = vec![1, 2, 6, 3];
    let vote = RankedVote::from_vector(&raw).unwrap();
    assert_eq!(vote.to_vector(), raw);
}

#[test]
fn from_vector_keeps_trailing_special() {
    let raw = vec![4, 7, ABSTAIN_VALUE];
    let vote = RankedVote::from_vector(&raw).unwrap();
    assert_eq!(vote.to_vector(), raw);
}

#[test]
fn from_vector_reports_first_broken_rule() {
    assert!(matches!(
        RankedVote::from_vector(&vec![]),
        Err(VoteErrors::EmptyVote)
    ));
    assert!(matches!(
        RankedVote::from_vector(&vec![3, 1, 3]),
        Err(VoteErrors::DuplicateVotes)
    ));
    assert!(matches!(
        RankedVote::from_vector(&vec![WITHHOLD_VALUE, 2]),
        Err(VoteErrors::NonFinalSpecialVote)
    ));
    assert!(matches!(
        RankedVote::from_vector(&vec![-9]),
        Err(VoteErrors::InvalidCastToSpecialVote)
    ));
}

#[test]
fn special_vote_int_round_trip() {
    let w = SpecialVotes::from_int(SpecialVotes::Withhold.to_int()).unwrap();
    let a = SpecialVotes::from_int(SpecialVotes::Abstain.to_int()).unwrap();
    assert_ne!(w, a);
    assert_eq!(w, SpecialVotes::Withhold);
    assert_eq!(a, SpecialVotes::Abstain);
    assert_eq!(SpecialVotes::Withhold.to_int(), WITHHOLD_VALUE);
    assert_eq!(SpecialVotes::Abstain.to_int(), ABSTAIN_VALUE);
    assert!(SpecialVotes::from_int(0).is_err());
}

#[test]
fn every_error_has_its_message() {
    assert_eq!(VoteErrors::EmptyVote.to_error_message(), "Vote is empty");
    assert_eq!(
        VoteErrors::DuplicateVotes.to_error_message(),
        "Duplicate vote rankings"
    );
    assert_eq!(
        VoteErrors::NonFinalSpecialVote.to_error_message(),
        "Special vote value can only be ranked once as the last choice"
    );
    assert_eq!(
        VoteErrors::ReadOutOfBounds.to_error_message(),
        "Read out of bounds"
    );
    assert_eq!(
        VoteErrors::InvalidCastToCandidate.to_error_message(),
        "Invalid candidate"
    );
    assert_eq!(
        VoteErrors::InvalidCastToSpecialVote.to_error_message(),
        "Invalid cast to special vote"
    );
}

#[test]
fn validate_result_wraps_cast_outcome() {
    let ok = ValidateVoteResult::new(RankedVote::from_vector(&vec![1]));
    assert!(ok.get_valid());
    assert_eq!(ok.get_error_message(), "");
    let bad = ValidateVoteResult::new(RankedVote::from_vector(&vec![1, 1]));
    assert!(!bad.get_valid());
    assert_eq!(bad.get_error_message(), "Duplicate vote rankings");
}
