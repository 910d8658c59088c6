//! Data model: poll items, ballots, and persisted rankings.

use vstd::prelude::*;

use crate::irv::PollOption;

verus! {

/// A candidate option of the poll. The stable identifier `id` is what
/// tabulation keys on; `title`, `content` and `done` are display payload.
/// Retired items (`done == true`) are excluded from tabulation by the
/// snapshot provider.
#[derive(Clone, Debug, PartialEq, Eq)]
pub struct Item {
    pub id: i64,
    pub title: String,
    pub content: String,
    pub done: bool,
}

/// An item takes part in a poll under its stable identifier alone: two
/// records with the same `id` stand for the same candidate even when their
/// display payload differs.
impl PollOption for Item {
    type K = i64;

    open spec fn key(self) -> i64 {
        self.id
    }

    fn key_eq(&self, other: &Self) -> (r: bool) {
        self.id == other.id
    }

    fn duplicate(&self) -> (r: Self) {
        Item {
            id: self.id,
            title: self.title.clone(),
            content: self.content.clone(),
            done: self.done,
        }
    }
}

/// A string option keys on its own characters.
impl PollOption for String {
    type K = Seq<char>;

    open spec fn key(self) -> Seq<char> {
        self@
    }

    fn key_eq(&self, other: &Self) -> (r: bool) {
        self.eq(other)
    }

    fn duplicate(&self) -> (r: Self) {
        self.clone()
    }
}

/// A plain integer option, such as an item identifier, keys on itself.
impl PollOption for i64 {
    type K = i64;

    open spec fn key(self) -> i64 {
        self
    }

    fn key_eq(&self, other: &Self) -> (r: bool) {
        *self == *other
    }

    fn duplicate(&self) -> (r: Self) {
        *self
    }
}

/// One voter's anonymous ballot. The `uuid` is the 128-bit value of the
/// voter's ballot identifier.
#[derive(Clone, Copy, Debug, PartialEq, Eq)]
pub struct Ballot {
    pub id: i64,
    pub uuid: u128,
}

/// A persisted ranking row joined with its item and its ballot, as the
/// relational store hands it out.
#[derive(Clone, Debug)]
pub struct JoinedRanking {
    pub id: i64,
    pub ord: i64,
    pub item_id: i64,
    pub item_title: String,
    pub item_content: String,
    pub item_done: bool,
    pub ballot_id: i64,
    pub ballot_uuid: u128,
}

/// A persisted ranking: one position of one ballot's preference list.
#[derive(Clone, Debug)]
pub struct Ranking {
    pub id: i64,
    pub ord: i64,
    pub item: Item,
    pub ballot: Ballot,
}

impl From<JoinedRanking> for Ranking {
    /// Regroup a joined row into the nested data model.
    fn from(r: JoinedRanking) -> (result: Ranking) {
        Ranking {
            id: r.id,
            ord: r.ord,
            item: Item { id: r.item_id, title: r.item_title, content: r.item_content, done: r.item_done },
            ballot: Ballot { id: r.ballot_id, uuid: r.ballot_uuid },
        }
    }
}

impl vstd::std_specs::convert::FromSpecImpl<JoinedRanking> for Ranking {
    open spec fn obeys_from_spec() -> bool {
        true
    }

    open spec fn from_spec(r: JoinedRanking) -> Ranking {
        Ranking {
            id: r.id,
            ord: r.ord,
            item: Item { id: r.item_id, title: r.item_title, content: r.item_content, done: r.item_done },
            ballot: Ballot { id: r.ballot_id, uuid: r.ballot_uuid },
        }
    }
}

/// A ranking row to be inserted: the position `ord` that `item_id` holds on
/// the ballot `ballot_id`.
#[derive(Clone, Debug, PartialEq, Eq)]
pub struct NewRanking {
    pub ord: i64,
    pub item_id: i64,
    pub ballot_id: i64,
}

} // verus!
