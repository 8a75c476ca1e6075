use rcv_engine::counter::VotesCounter;
use rcv_engine::elimination::run_election;
use rcv_engine::store::BallotStore;
use rcv_engine::vote::RankedVote;
use rcv_engine::vote::WITHHOLD_VALUE;

fn store_of(ballots: &[Vec<i32>]) -> BallotStore {
    let mut store = BallotStore::new();
    for raw in ballots {
        store.insert(RankedVote::from_vector(raw).unwrap());
    }
    store
}

#[test]
fn single_candidate_single_ballot_wins() {
    let store = store_of(&[vec![1]]);
    assert_eq!(run_election(&store), Some(1));
}

#[test]
fn strict_majority_wins_first_round() {
    let store = store_of(&[vec![1, 2], vec![1, 3], vec![2, 1]]);
    assert_eq!(run_election(&store), Some(1));
}

#[test]
fn all_withheld_ballots_have_no_winner() {
    let store = store_of(&[vec![WITHHOLD_VALUE], vec![WITHHOLD_VALUE]]);
    assert_eq!(run_election(&store), None);
}

#[test]
fn empty_store_has_no_winner() {
    let store = BallotStore::new();
    assert_eq!(run_election(&store), None);
}

#[test]
fn full_three_way_tie_has_no_winner() {
    // Every candidate shares the lowest score, so the round eliminates
    // all of them at once.
    let store = store_of(&[vec![1, 3, 2], vec![2, 3, 1], vec![3, 2, 1]]);
    assert_eq!(run_election(&store), None);
}

#[test]
fn transfer_after_elimination_decides() {
    // Round one eliminates candidate 3 alone; its ballot transfers to
    // candidate 2, who then holds a strict majority.
    let store = store_of(&[vec![1, 2], vec![1, 2], vec![2], vec![2], vec![3, 2]]);
    assert_eq!(run_election(&store), Some(2));
}

#[test]
fn dowdall_score_breaks_equal_tallies() {
    // Round one: only candidate 4 holds the lowest tally and leaves.
    // Round two: candidates 1, 2 and 3 all tally three ballots, but 3's
    // third ballot arrived by transfer at second position, worth 1/2
    // instead of 1, so 3 alone scores lowest and leaves.  Round three:
    // the freed ballot ranking 1 second gives 1 a strict majority.
    let store = store_of(&[
        vec![1],
        vec![1],
        vec![1],
        vec![2],
        vec![2],
        vec![2, 1],
        vec![3],
        vec![3, 1],
        vec![4, 3],
    ]);
    assert_eq!(run_election(&store), Some(1));
}

#[test]
fn store_counts_ballots_and_candidates() {
    let store = store_of(&[vec![1, 2], vec![2, 7], vec![WITHHOLD_VALUE]]);
    assert_eq!(store.ballot_count(), 3);
    assert_eq!(store.candidate_count(), 3);
}

#[test]
fn total_count_after_flush_equals_ballots_cast() {
    let mut counter = VotesCounter::new();
    counter.insert_ranking(10, 1);
    counter.insert_ranking(11, 2);
    counter.insert_ranking(11, 1);
    counter.insert_ranking(12, 1);
    assert_eq!(counter.total_count(), 3);
    assert_eq!(counter.flush().unwrap(), true);
    assert_eq!(counter.total_count(), 3);
}

#[test]
fn flush_of_empty_cache_is_idempotent() {
    let mut counter = VotesCounter::new();
    counter.insert_ranking(1, 5);
    assert_eq!(counter.flush().unwrap(), true);
    let before = counter.total_count();
    assert_eq!(counter.flush().unwrap(), false);
    assert_eq!(counter.total_count(), before);
}

#[test]
fn empty_ballots_raise_total_but_never_win() {
    let mut counter = VotesCounter::new();
    counter.insert_empty_ballots(4);
    assert_eq!(counter.total_count(), 4);
    assert_eq!(counter.determine_winner().unwrap(), None);
    counter.insert_ranking(1, 9);
    counter.insert_empty_ballots(2);
    assert_eq!(counter.total_count(), 7);
    assert_eq!(counter.determine_winner().unwrap(), Some(9));
}

#[test]
fn failed_flush_is_atomic() {
    let mut counter = VotesCounter::new();
    counter.insert_ranking(1, 3);
    counter.insert_ranking(2, 4);
    counter.insert_ranking(2, 4);
    let err = counter.flush().unwrap_err();
    assert_eq!(err.message(), "Duplicate vote rankings");
    // Nothing moved into the store and nothing was dropped: both
    // ballots are still pending.
    assert_eq!(counter.total_count(), 2);
    // The same failure again on the next attempt.
    let again = counter.determine_winner().unwrap_err();
    assert_eq!(again.message(), "Duplicate vote rankings");
    assert_eq!(counter.total_count(), 2);
}

#[test]
fn determine_winner_flushes_pending_ballots() {
    let mut counter = VotesCounter::new();
    counter.insert_ranking(21, 1);
    counter.insert_ranking(21, 2);
    counter.insert_ranking(22, 1);
    counter.insert_ranking(23, 2);
    counter.insert_ranking(23, 1);
    assert_eq!(counter.determine_winner().unwrap(), Some(1));
    assert_eq!(counter.total_count(), 3);
}

#[test]
fn counter_reports_first_pending_error_in_order() {
    let mut counter = VotesCounter::new();
    counter.insert_ranking(1, WITHHOLD_VALUE);
    counter.insert_ranking(1, 2);
    counter.insert_ranking(2, 2);
    counter.insert_ranking(2, 2);
    let err = counter.flush().unwrap_err();
    assert_eq!(
        err.message(),
        "Special vote value can only be ranked once as the last choice"
    );
}

#[test]
fn withheld_ballots_change_nothing_but_the_total() {
    let mut counter = VotesCounter::new();
    counter.insert_ranking(1, 1);
    counter.insert_ranking(1, 2);
    counter.insert_ranking(2, 1);
    counter.insert_ranking(3, 2);
    counter.insert_ranking(3, 1);
    assert_eq!(counter.determine_winner().unwrap(), Some(1));
    counter.insert_empty_ballots(10);
    assert_eq!(counter.total_count(), 13);
    assert_eq!(counter.determine_winner().unwrap(), Some(1));
}
