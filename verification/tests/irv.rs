//! Tests of the instant-runoff tabulator.

use poll::irv::run_instant_runoff_voting;
use poll::irv::PollResult;
use poll::model::Item;

fn ballot(names: &[&str]) -> Vec<String> {
    names.iter().map(|n| n.to_string()).collect()
}

#[test]
fn irv_basic_poll() {
    let vote_a = ballot(&["bob", "bill", "sue"]);
    let vote_b = ballot(&["sue", "bob", "bill"]);
    let vote_c = ballot(&["bill", "sue", "bob"]);
    let vote_d = ballot(&["bob", "bill", "sue"]);
    let vote_e = ballot(&["sue", "bob", "bill"]);

    let votes = vec![vote_a, vote_b, vote_c, vote_d, vote_e];
    match run_instant_runoff_voting(&votes) {
        PollResult::NoWinner => unreachable!(),
        PollResult::Tied(_) => unreachable!(),
        PollResult::Winner(winner) => assert_eq!(winner, "sue"),
    };
}

#[test]
fn irv_tied_01() {
    let vote_a = ballot(&["bob"]);
    let vote_b = ballot(&["sue"]);

    let votes = vec![vote_a, vote_b];
    match run_instant_runoff_voting(&votes) {
        PollResult::NoWinner => unreachable!(),
        PollResult::Winner(_) => unreachable!(),
        PollResult::Tied(options) => {
            assert!(options.contains(&"sue".to_string()));
            assert!(options.contains(&"bob".to_string()));
        }
    };
}

#[test]
fn irv_tied_02() {
    let vote_a = ballot(&["bob", "sue"]);
    let vote_b = ballot(&["sue", "bob"]);

    let votes = vec![vote_a, vote_b];
    match run_instant_runoff_voting(&votes) {
        PollResult::NoWinner => unreachable!(),
        PollResult::Winner(_) => unreachable!(),
        PollResult::Tied(options) => {
            assert!(options.contains(&"sue".to_string()));
            assert!(options.contains(&"bob".to_string()));
        }
    };
}

#[test]
fn irv_no_vote() {
    let votes: Vec<Vec<String>> = vec![];
    match run_instant_runoff_voting(&votes) {
        PollResult::Tied(_) => unreachable!(),
        PollResult::Winner(_) => unreachable!(),
        PollResult::NoWinner => {}
    };
}

#[test]
fn irv_single_ballot_single_item() {
    let votes = vec![ballot(&["ada"])];
    match run_instant_runoff_voting(&votes) {
        PollResult::Winner(winner) => assert_eq!(winner, "ada"),
        _ => unreachable!(),
    };
}

#[test]
fn irv_unanimous_first_choice() {
    let votes = vec![
        ballot(&["ada", "bob", "cyd"]),
        ballot(&["ada", "cyd", "bob"]),
        ballot(&["ada", "bob", "cyd"]),
    ];
    match run_instant_runoff_voting(&votes) {
        PollResult::Winner(winner) => assert_eq!(winner, "ada"),
        _ => unreachable!(),
    };
}

#[test]
fn irv_all_ballots_empty() {
    let votes: Vec<Vec<String>> = vec![vec![], vec![], vec![]];
    match run_instant_runoff_voting(&votes) {
        PollResult::NoWinner => {}
        _ => unreachable!(),
    };
}

#[test]
fn irv_exhausted_ballot_casts_nothing() {
    // The only "cyd" voter ranks nobody else: once "cyd" is eliminated the
    // ballot is exhausted, and the remaining two options tie.
    let votes = vec![
        ballot(&["cyd"]),
        ballot(&["ada"]),
        ballot(&["ada"]),
        ballot(&["bob"]),
        ballot(&["bob"]),
    ];
    match run_instant_runoff_voting(&votes) {
        PollResult::Tied(options) => {
            assert_eq!(options.len(), 2);
            assert!(options.contains(&"ada".to_string()));
            assert!(options.contains(&"bob".to_string()));
        }
        _ => unreachable!(),
    };
}

#[test]
fn irv_second_preference_decides() {
    // Round 1: ada 2, bob 2, cyd 1. "cyd" is eliminated and its voter's
    // second preference decides the poll.
    let votes = vec![
        ballot(&["ada", "bob"]),
        ballot(&["ada"]),
        ballot(&["bob"]),
        ballot(&["bob", "ada"]),
        ballot(&["cyd", "ada"]),
    ];
    match run_instant_runoff_voting(&votes) {
        PollResult::Winner(winner) => assert_eq!(winner, "ada"),
        _ => unreachable!(),
    };
}

#[test]
fn irv_eliminates_all_tied_losers_at_once() {
    // Round 1: ada 2, zoe 2, bob 1, cyd 1. Both last-placed options leave
    // in the same round, and their ballots fall through to "ada".
    let votes = vec![
        ballot(&["ada"]),
        ballot(&["ada"]),
        ballot(&["zoe"]),
        ballot(&["zoe"]),
        ballot(&["bob", "ada"]),
        ballot(&["cyd", "ada"]),
    ];
    match run_instant_runoff_voting(&votes) {
        PollResult::Winner(winner) => assert_eq!(winner, "ada"),
        _ => unreachable!(),
    };
}

#[test]
fn irv_duplicate_entries_on_one_ballot() {
    // A ballot may repeat an option; only its highest surviving entry
    // casts the vote.
    let votes = vec![
        ballot(&["ada", "ada", "bob"]),
        ballot(&["bob", "ada"]),
        ballot(&["ada"]),
    ];
    match run_instant_runoff_voting(&votes) {
        PollResult::Winner(winner) => assert_eq!(winner, "ada"),
        _ => unreachable!(),
    };
}

#[test]
fn irv_repeated_run_is_identical() {
    let votes = vec![
        ballot(&["bob", "bill", "sue"]),
        ballot(&["sue", "bob", "bill"]),
        ballot(&["bill", "sue", "bob"]),
    ];
    let first = run_instant_runoff_voting(&votes);
    let second = run_instant_runoff_voting(&votes);
    match (first, second) {
        (PollResult::NoWinner, PollResult::NoWinner) => {}
        (PollResult::Winner(a), PollResult::Winner(b)) => assert_eq!(a, b),
        (PollResult::Tied(a), PollResult::Tied(b)) => assert_eq!(a, b),
        _ => panic!("the two runs disagree"),
    };
}

fn item(id: i64, title: &str) -> Item {
    Item {
        id,
        title: title.to_string(),
        content: String::new(),
        done: false,
    }
}

#[test]
fn irv_items_key_on_identifier() {
    // Two records of item 1 differ in their display payload; tallying keys
    // on the identifier, so they count as the same candidate.
    let votes = vec![
        vec![item(1, "coffee"), item(2, "tea")],
        vec![item(1, "coffee, freshly ground"), item(2, "tea")],
        vec![item(2, "tea"), item(1, "coffee")],
    ];
    match run_instant_runoff_voting(&votes) {
        PollResult::Winner(winner) => assert_eq!(winner.id, 1),
        _ => unreachable!(),
    };
}

#[test]
fn irv_integer_ballots() {
    let votes: Vec<Vec<i64>> = vec![vec![7, 9], vec![9, 7], vec![7]];
    match run_instant_runoff_voting(&votes) {
        PollResult::Winner(winner) => assert_eq!(winner, 7),
        _ => unreachable!(),
    };
}
