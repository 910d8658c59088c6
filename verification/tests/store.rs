//! Tests of the in-memory ballot store.

use poll::irv::run_instant_runoff_voting;
use poll::irv::PollResult;
use poll::store::RankingStore;
use poll::store::StoreError;

const UUID_A: &str = "550e8400-e29b-41d4-a716-446655440000";
const UUID_B: &str = "67e55044-10b1-426f-9247-bb680e5fe0c8";

#[test]
fn store_register_and_find() {
    let mut store = RankingStore::new();
    let value = store.register(UUID_A).unwrap();
    let ballot = store.find_by_uuid(value).unwrap();
    assert_eq!(ballot.uuid, value);
    assert_eq!(ballot.id, 1);
    let again = store.find_ballot(UUID_A).unwrap();
    assert_eq!(again, ballot);
}

#[test]
fn store_register_rejects_invalid_uuid() {
    let mut store = RankingStore::new();
    assert_eq!(store.register("not a uuid").unwrap_err(), StoreError::InvalidUuid);
    assert!(store.find_ballot("not a uuid").is_none());
}

#[test]
fn store_register_ignores_conflict() {
    let mut store = RankingStore::new();
    let first = store.register(UUID_A).unwrap();
    let second = store.register(UUID_A).unwrap();
    assert_eq!(first, second);
    let b = store.save_ignoring_conflict(first);
    assert_eq!(b.id, 1);
}

#[test]
fn store_replace_rankings_reads_back_exactly() {
    let mut store = RankingStore::new();
    store.register(UUID_A).unwrap();
    store.register(UUID_B).unwrap();

    store.replace_rankings(1, &vec![30, 10, 20]).unwrap();
    store.replace_rankings(2, &vec![10]).unwrap();
    assert_eq!(store.get_ballot_rankings(1), vec![30, 10, 20]);
    assert_eq!(store.get_ballot_rankings(2), vec![10]);

    // A second replacement discards the previous list in full.
    store.replace_rankings(1, &vec![20]).unwrap();
    assert_eq!(store.get_ballot_rankings(1), vec![20]);
    // Other ballots are untouched.
    assert_eq!(store.get_ballot_rankings(2), vec![10]);
}

#[test]
fn store_replace_rankings_with_empty_list() {
    let mut store = RankingStore::new();
    store.register(UUID_A).unwrap();
    store.replace_rankings(1, &vec![5, 6]).unwrap();
    store.replace_rankings(1, &vec![]).unwrap();
    assert_eq!(store.get_ballot_rankings(1), Vec::<i64>::new());
}

#[test]
fn store_failed_replace_leaves_rankings_intact() {
    let mut store = RankingStore::new();
    store.register(UUID_A).unwrap();
    store.replace_rankings(1, &vec![7, 8]).unwrap();

    let err = store.replace_rankings(9, &vec![1, 2, 3]).unwrap_err();
    assert_eq!(err, StoreError::BallotNotFound);
    assert_eq!(store.get_ballot_rankings(1), vec![7, 8]);
    assert_eq!(store.get_ballot_rankings(9), Vec::<i64>::new());
}

#[test]
fn store_snapshot_feeds_tabulation() {
    let mut store = RankingStore::new();
    store.register(UUID_A).unwrap();
    store.register(UUID_B).unwrap();
    store.replace_rankings(1, &vec![10, 20]).unwrap();
    store.replace_rankings(2, &vec![10]).unwrap();

    let snapshot = store.ballot_snapshots();
    assert_eq!(snapshot, vec![vec![10, 20], vec![10]]);
    match run_instant_runoff_voting(&snapshot) {
        PollResult::Winner(winner) => assert_eq!(winner, 10),
        _ => unreachable!(),
    };
}
