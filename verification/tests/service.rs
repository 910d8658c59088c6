//! Tests of the ranking service computations.

use poll::model::Ballot;
use poll::model::Item;
use poll::model::JoinedRanking;
use poll::model::NewRanking;
use poll::model::Ranking;
use poll::service::get_instant_runoff_result;
use poll::service::group_rankings;
use poll::service::number_rankings;

fn item(id: i64, title: &str) -> Item {
    Item {
        id,
        title: title.to_string(),
        content: String::new(),
        done: false,
    }
}

fn ranking(id: i64, ord: i64, it: Item, ballot_id: i64) -> Ranking {
    Ranking {
        id,
        ord,
        item: it,
        ballot: Ballot {
            id: ballot_id,
            uuid: ballot_id as u128,
        },
    }
}

/// The classic elimination example as stored rankings: five ballots over
/// bob, sue and bill.
fn classic_rankings() -> Vec<Ranking> {
    let bob = || item(1, "bob");
    let sue = || item(2, "sue");
    let bill = || item(3, "bill");
    let mut rows = Vec::new();
    let ballots = [
        [bob(), bill(), sue()],
        [sue(), bob(), bill()],
        [bill(), sue(), bob()],
        [bob(), bill(), sue()],
        [sue(), bob(), bill()],
    ];
    let mut row_id = 1;
    for (b, ballot) in ballots.into_iter().enumerate() {
        for (ord, it) in ballot.into_iter().enumerate() {
            rows.push(ranking(row_id, ord as i64, it, b as i64 + 1));
            row_id += 1;
        }
    }
    rows
}

#[test]
fn service_classic_elimination() {
    let rows = classic_rankings();
    let best = get_instant_runoff_result(&rows).unwrap();
    assert_eq!(best.id, 2);
    assert_eq!(best.title, "sue");
}

#[test]
fn service_no_rankings_no_result() {
    assert!(get_instant_runoff_result(&Vec::new()).is_none());
}

#[test]
fn service_tie_has_no_result() {
    let rows = vec![
        ranking(1, 0, item(1, "bob"), 1),
        ranking(2, 0, item(2, "sue"), 2),
    ];
    assert!(get_instant_runoff_result(&rows).is_none());
}

#[test]
fn service_group_rankings_by_ballot() {
    let rows = vec![
        ranking(1, 0, item(1, "bob"), 1),
        ranking(2, 1, item(2, "sue"), 1),
        ranking(3, 0, item(2, "sue"), 2),
    ];
    let ballots = group_rankings(&rows);
    assert_eq!(ballots.len(), 2);
    assert_eq!(ballots[0].len(), 2);
    assert_eq!(ballots[0][0].id, 1);
    assert_eq!(ballots[0][1].id, 2);
    assert_eq!(ballots[1].len(), 1);
    assert_eq!(ballots[1][0].id, 2);
}

#[test]
fn service_group_of_nothing_is_one_empty_ballot() {
    let ballots = group_rankings(&Vec::new());
    assert_eq!(ballots.len(), 1);
    assert!(ballots[0].is_empty());
}

#[test]
fn service_number_rankings_from_zero() {
    let rows = number_rankings(7, &vec![30, 10, 20]);
    assert_eq!(
        rows,
        vec![
            NewRanking { ord: 0, item_id: 30, ballot_id: 7 },
            NewRanking { ord: 1, item_id: 10, ballot_id: 7 },
            NewRanking { ord: 2, item_id: 20, ballot_id: 7 },
        ]
    );
}

#[test]
fn service_ranking_from_joined_row() {
    let joined = JoinedRanking {
        id: 4,
        ord: 2,
        item_id: 9,
        item_title: "tea".to_string(),
        item_content: "with milk".to_string(),
        item_done: false,
        ballot_id: 3,
        ballot_uuid: 77,
    };
    let r = Ranking::from(joined);
    assert_eq!(r.id, 4);
    assert_eq!(r.ord, 2);
    assert_eq!(r.item.id, 9);
    assert_eq!(r.item.title, "tea");
    assert_eq!(r.item.content, "with milk");
    assert!(!r.item.done);
    assert_eq!(r.ballot, Ballot { id: 3, uuid: 77 });
}
