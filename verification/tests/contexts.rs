use rcv_engine::contexts::ContextErrorKind;
use rcv_engine::contexts::ContextTypes;
use rcv_engine::contexts::PollCreationContext;
use rcv_engine::contexts::VoteCreationContext;
use rcv_engine::vote::WITHHOLD_VALUE;

#[test]
fn context_type_tags_round_trip() {
    assert_eq!(ContextTypes::PollCreation.to_str(), "POLL_CREATION");
    assert_eq!(ContextTypes::VoteCreation.to_str(), "VOTE_CREATION");
    assert_eq!(
        ContextTypes::from_str("POLL_CREATION").unwrap(),
        ContextTypes::PollCreation
    );
    assert_eq!(
        ContextTypes::from_str("VOTE_CREATION").unwrap(),
        ContextTypes::VoteCreation
    );
}

#[test]
fn unknown_context_type_is_rejected() {
    let err = ContextTypes::from_str("BALLOT_CREATION").unwrap_err();
    assert_eq!(err.kind(), ContextErrorKind::InvalidContextType);
    assert_eq!(err.description(), "INVALID CONTEXT TYPE");
    assert!(err.cause().is_none());
}

#[test]
fn vote_context_accumulates_rankings() {
    let ctx = VoteCreationContext::new(4);
    let s0 = ctx.initial_state(7);
    assert_eq!(s0.poll_id, 7);
    assert!(s0.raw_vote.is_empty());
    let s1 = ctx.transition(s0, 3).unwrap();
    let s2 = ctx.transition(s1, 1).unwrap();
    assert_eq!(s2.poll_id, 7);
    assert_eq!(s2.raw_vote, vec![3, 1]);
}

#[test]
fn vote_context_rejects_overlong_vote() {
    let ctx = VoteCreationContext::new(2);
    let s0 = ctx.initial_state(1);
    let s1 = ctx.transition(s0, 3).unwrap();
    let s2 = ctx.transition(s1, 1).unwrap();
    let err = ctx.transition(s2, 2).unwrap_err();
    assert_eq!(err.kind(), ContextErrorKind::CapacityExceeded);
    assert_eq!(err.description(), "Ranked vote is too long");
}

#[test]
fn vote_context_rejects_invalid_ranking() {
    let ctx = VoteCreationContext::new(8);
    let s0 = ctx.initial_state(1);
    let s1 = ctx.transition(s0, 3).unwrap();
    let dup = ctx.transition(s1, 3).unwrap_err();
    assert_eq!(dup.kind(), ContextErrorKind::InvalidRanking);
    assert_eq!(dup.description(), "Ranked vote is invalid");
}

#[test]
fn vote_context_allows_final_withhold_only() {
    let ctx = VoteCreationContext::new(8);
    let s0 = ctx.initial_state(1);
    let s1 = ctx.transition(s0, WITHHOLD_VALUE).unwrap();
    assert_eq!(s1.raw_vote, vec![WITHHOLD_VALUE]);
    let err = ctx.transition(s1, 2).unwrap_err();
    assert_eq!(err.kind(), ContextErrorKind::InvalidRanking);
}

#[test]
fn poll_context_accumulates_options_up_to_bound() {
    let ctx = PollCreationContext::new(2);
    let s0 = ctx.initial_state("favorite color".to_string());
    let s1 = ctx.transition(s0, "red".to_string()).unwrap();
    let s2 = ctx.transition(s1, "blue".to_string()).unwrap();
    assert_eq!(s2.poll_title, "favorite color");
    assert_eq!(s2.options, vec!["red".to_string(), "blue".to_string()]);
    let err = ctx.transition(s2, "green".to_string()).unwrap_err();
    assert_eq!(err.kind(), ContextErrorKind::CapacityExceeded);
    assert_eq!(err.description(), "Too many options");
}
