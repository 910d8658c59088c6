//! The computational core of the ranking service: grouping persisted
//! rankings into ballots, tabulating them, and numbering a ballot's new
//! rankings for storage.

use vstd::prelude::*;

use crate::irv::ballot_views;
use crate::irv::poll_outcome;
use crate::irv::run_instant_runoff_voting;
use crate::irv::PollOption;
use crate::irv::PollResult;
use crate::irv::SpecPollResult;
use crate::model::Item;
use crate::model::NewRanking;
use crate::model::Ranking;

verus! {

/// The ballots that a sorted sequence of rankings describes: a ranking with
/// the same ballot as its predecessor joins that ballot's group, any other
/// ranking starts a new group. With no rankings at all there is one empty
/// ballot. The store hands rankings out ordered by ballot and rank
/// position, so the groups are the per-ballot preference lists.
pub open spec fn grouped_items(rankings: Seq<Ranking>) -> Seq<Seq<Item>>
    decreases rankings.len(),
{
    if rankings.len() == 0 {
        seq![Seq::<Item>::empty()]
    } else {
        let prev = grouped_items(rankings.drop_last());
        let r = rankings.last();
        if rankings.len() >= 2 && rankings[rankings.len() - 2].ballot.id != r.ballot.id {
            prev.push(seq![r.item])
        } else {
            prev.update(prev.len() - 1, prev.last().push(r.item))
        }
    }
}

proof fn lemma_grouped_items_len(rankings: Seq<Ranking>)
    ensures
        grouped_items(rankings).len() >= 1,
    decreases rankings.len(),
{
    if rankings.len() > 0 {
        lemma_grouped_items_len(rankings.drop_last());
    }
}

/// Group the stored rankings into ballots: each ballot the ordered items of
/// one voter, highest preference first.
pub fn group_rankings(rankings: &Vec<Ranking>) -> (ballots: Vec<Vec<Item>>)
    ensures
        ballot_views(ballots@) == grouped_items(rankings@),
{
    let mut groups: Vec<Vec<Item>> = Vec::new();
    let mut current: Vec<Item> = Vec::new();
    proof {
        assert(rankings@.take(0) =~= Seq::<Ranking>::empty());
        assert(ballot_views(groups@).push(current@) =~= grouped_items(rankings@.take(0)));
    }
    let mut j: usize = 0;
    while j < rankings.len()
        invariant
            j <= rankings@.len(),
            ballot_views(groups@).push(current@) == grouped_items(rankings@.take(j as int)),
        decreases rankings@.len() - j,
    {
        proof {
            assert(rankings@.take(j as int + 1).drop_last() =~= rankings@.take(j as int));
            assert(rankings@.take(j as int + 1).last() == rankings@[j as int]);
            lemma_grouped_items_len(rankings@.take(j as int));
        }
        if j > 0 && rankings[j - 1].ballot.id != rankings[j].ballot.id {
            let ghost old_groups = groups@;
            groups.push(current);
            current = Vec::new();
            proof {
                assert(rankings@.take(j as int + 1)[j as int - 1] == rankings@[j - 1]);
                assert(ballot_views(groups@) =~= ballot_views(old_groups).push(
                    grouped_items(rankings@.take(j as int)).last(),
                ));
            }
        }
        current.push(rankings[j].item.duplicate());
        proof {
            let prev = grouped_items(rankings@.take(j as int));
            let cur = grouped_items(rankings@.take(j as int + 1));
            if j > 0 && rankings@[j as int - 1].ballot.id != rankings@[j as int].ballot.id {
                assert(cur == prev.push(seq![rankings@[j as int].item]));
                assert(current@ =~= seq![rankings@[j as int].item]);
                assert(ballot_views(groups@).push(current@) =~= cur);
            } else {
                assert(cur == prev.update(prev.len() - 1, prev.last().push(
                    rankings@[j as int].item,
                )));
                assert(ballot_views(groups@).push(current@) =~= cur);
            }
        }
        j += 1;
    }
    proof {
        assert(rankings@.take(rankings@.len() as int) =~= rankings@);
    }
    groups.push(current);
    proof {
        assert(ballot_views(groups@) =~= grouped_items(rankings@));
    }
    groups
}

/// The single best item of the stored rankings, determined by instant-runoff
/// voting over the ballots they describe; nothing when the tabulation ends
/// with no winner or with a tie.
pub fn get_instant_runoff_result(rankings: &Vec<Ranking>) -> (best: Option<Item>)
    ensures
        match poll_outcome(grouped_items(rankings@)) {
            SpecPollResult::Winner(item) => best == Some(item),
            _ => best is None,
        },
{
    let ballots = group_rankings(rankings);
    match run_instant_runoff_voting(&ballots) {
        PollResult::Winner(item) => Some(item),
        _ => None,
    }
}

/// The rows that a full ranking replacement stores: each ranked item
/// numbered with its position, starting at 0 in preference order.
pub fn number_rankings(ballot_id: i64, ranked_item_ids: &Vec<i64>) -> (rows: Vec<NewRanking>)
    requires
        ranked_item_ids@.len() <= i64::MAX,
    ensures
        rows@.len() == ranked_item_ids@.len(),
        forall|i: int|
            0 <= i < rows@.len() ==> #[trigger] rows@[i] == (NewRanking {
                ord: i as i64,
                item_id: ranked_item_ids@[i],
                ballot_id,
            }),
{
    let mut rows: Vec<NewRanking> = Vec::new();
    let mut i: usize = 0;
    while i < ranked_item_ids.len()
        invariant
            i <= ranked_item_ids@.len(),
            ranked_item_ids@.len() <= i64::MAX,
            rows@.len() == i,
            forall|p: int|
                0 <= p < i ==> #[trigger] rows@[p] == (NewRanking {
                    ord: p as i64,
                    item_id: ranked_item_ids@[p],
                    ballot_id,
                }),
        decreases ranked_item_ids@.len() - i,
    {
        rows.push(NewRanking { ord: i as i64, item_id: ranked_item_ids[i], ballot_id });
        i += 1;
    }
    rows
}

} // verus!
