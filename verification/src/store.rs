//! An in-memory ballot store.
//!
//! This is the reference implementation of the contract that any store
//! backing the poll must honor: ballots are registered under a unique
//! 128-bit identifier, a voter's rankings are replaced in full or not at
//! all, and a tabulation snapshot hands every ballot out as the ordered
//! list of its item identifiers.

use vstd::prelude::*;

use crate::model::Ballot;

verus! {

/// What the in-memory store can report to its caller.
#[derive(Clone, Copy, Debug, PartialEq, Eq)]
pub enum StoreError {
    /// The named ballot is not registered.
    BallotNotFound,
    /// The given text is not a ballot identifier.
    InvalidUuid,
}

/// What Uuid::parse_str accepts, as a 128-bit value.
///
/// Relies on uuid::Uuid::parse_str, whose result is a function of the
/// input characters alone.
pub uninterp spec fn parsed_uuid(s: Seq<char>) -> Option<u128>;

/// Relies on uuid::Uuid::parse_str (the simple, hyphenated, urn and GUID
/// formats) and uuid::Uuid::as_u128 for the parsed value.
#[verifier::external_body]
fn parse_uuid(s: &str) -> (r: Option<u128>)
    ensures
        r == parsed_uuid(s@),
{
    match uuid::Uuid::parse_str(s) {
        Ok(u) => Some(u.as_u128()),
        Err(_) => None,
    }
}

/// One registered ballot and its current rankings: the identifiers of the
/// ranked items, highest preference first.
struct StoredBallot {
    ballot: Ballot,
    item_ids: Vec<i64>,
}

/// The in-memory ballot store. Ballots receive consecutive identifiers
/// starting at 1, as a relational store's auto-increment column would.
pub struct RankingStore {
    entries: Vec<StoredBallot>,
}

impl RankingStore {
    /// Well-formedness: ballot identifiers are consecutive from 1, so they
    /// are unique, and no two ballots share a uuid.
    pub closed spec fn wf(self) -> bool {
        &&& forall|i: int|
            0 <= i < self.entries@.len() ==> (#[trigger] self.entries@[i].ballot.id) == i + 1
        &&& forall|i: int, j: int|
            0 <= i < j < self.entries@.len() ==> (#[trigger] self.entries@[i].ballot.uuid) != (
            #[trigger] self.entries@[j].ballot.uuid)
        &&& self.entries@.len() <= i64::MAX
    }

    /// The registered ballots, in order of registration.
    pub closed spec fn ballots(self) -> Seq<Ballot> {
        self.entries@.map_values(|e: StoredBallot| e.ballot)
    }

    /// The rankings stored for a ballot: its ranked item identifiers in
    /// preference order, empty for an unknown ballot.
    pub closed spec fn rankings_of(self, ballot_id: i64) -> Seq<i64> {
        if 1 <= ballot_id <= self.entries@.len() {
            self.entries@[ballot_id - 1].item_ids@
        } else {
            Seq::empty()
        }
    }

    /// Whether a ballot with this identifier is registered.
    pub open spec fn has_ballot(self, ballot_id: i64) -> bool {
        exists|i: int| 0 <= i < self.ballots().len() && (#[trigger] self.ballots()[i].id) == ballot_id
    }

    /// An empty store.
    pub fn new() -> (store: RankingStore)
        ensures
            store.wf(),
            store.ballots() == Seq::<Ballot>::empty(),
            forall|id: i64| #[trigger] store.rankings_of(id) == Seq::<i64>::empty(),
    {
        let store = RankingStore { entries: Vec::new() };
        proof {
            assert(store.entries@.map_values(|e: StoredBallot| e.ballot) =~= Seq::<Ballot>::empty());
        }
        store
    }

    /// Create a new ballot with the given uuid and do nothing if the uuid
    /// already exists; either way return the ballot registered under it.
    pub fn save_ignoring_conflict(&mut self, uuid: u128) -> (b: Ballot)
        requires
            old(self).wf(),
            old(self).ballots().len() < i64::MAX,
        ensures
            final(self).wf(),
            b.uuid == uuid,
            final(self).has_ballot(b.id),
            final(self).ballots().contains(b),
            forall|id: i64| #[trigger] final(self).rankings_of(id) == old(self).rankings_of(id),
            if has_uuid(old(self).ballots(), uuid) {
                final(self).ballots() == old(self).ballots()
            } else {
                final(self).ballots() == old(self).ballots().push(b)
            },
    {
        let ghost old_entries = self.entries@;
        match self.find_by_uuid(uuid) {
            Some(existing) => {
                proof {
                    let i = choose|i: int|
                        0 <= i < self.ballots().len() && (#[trigger] self.ballots()[i]).uuid == uuid;
                    assert(self.ballots()[i] == existing);
                    assert(self.has_ballot(existing.id));
                }
                existing
            },
            None => {
                let id = self.entries.len() as i64 + 1;
                let ballot = Ballot { id, uuid };
                self.entries.push(StoredBallot { ballot, item_ids: Vec::new() });
                proof {
                    assert(self.entries@.drop_last() == old_entries);
                    assert(self.ballots() =~= old_entries.map_values(|e: StoredBallot| e.ballot).push(
                        ballot,
                    ));
                    assert forall|i: int, j: int|
                        0 <= i < j < self.entries@.len() implies (
                    #[trigger] self.entries@[i].ballot.uuid) != (
                    #[trigger] self.entries@[j].ballot.uuid) by {
                        if j == self.entries@.len() - 1 {
                            assert(old(self).ballots()[i].uuid != uuid);
                        }
                    }
                    assert(self.has_ballot(ballot.id)) by {
                        assert(self.ballots()[self.ballots().len() - 1].id == ballot.id);
                    }
                    assert forall|bid: i64| #[trigger] self.rankings_of(bid) == old(
                        self,
                    ).rankings_of(bid) by {
                        if 1 <= bid <= old_entries.len() {
                            assert(self.entries@[bid - 1] == old_entries[bid - 1]);
                        } else if bid == old_entries.len() + 1 {
                            assert(self.entries@[bid - 1].item_ids@ =~= Seq::<i64>::empty());
                        }
                    }
                }
                ballot
            },
        }
    }

    /// Find the ballot registered under a uuid.
    pub fn find_by_uuid(&self, uuid: u128) -> (r: Option<Ballot>)
        requires
            self.wf(),
        ensures
            match r {
                Some(b) => b.uuid == uuid && self.ballots().contains(b) && self.has_ballot(b.id),
                None => !has_uuid(self.ballots(), uuid),
            },
    {
        let mut i: usize = 0;
        while i < self.entries.len()
            invariant
                self.wf(),
                i <= self.entries@.len(),
                forall|j: int| 0 <= j < i ==> (#[trigger] self.entries@[j].ballot.uuid) != uuid,
            decreases self.entries@.len() - i,
        {
            if self.entries[i].ballot.uuid == uuid {
                let b = self.entries[i].ballot;
                proof {
                    assert(self.ballots()[i as int] == b);
                    assert(self.has_ballot(b.id)) by {
                        assert(self.ballots()[i as int].id == b.id);
                    }
                }
                return Some(b);
            }
            i += 1;
        }
        proof {
            assert forall|j: int| 0 <= j < self.ballots().len() implies (
            #[trigger] self.ballots()[j].uuid) != uuid by {
                assert(self.entries@[j].ballot.uuid != uuid);
            }
        }
        None
    }

    /// Atomically discard every stored ranking of the ballot and store the
    /// given ordered item identifiers in its place, numbering from the
    /// highest preference down. An unknown ballot leaves the store
    /// unchanged. Duplicate identifiers in the list are stored as given,
    /// silently; tabulation only ever counts an identifier's highest
    /// surviving occurrence.
    pub fn replace_rankings(&mut self, ballot_id: i64, ordered_item_ids: &Vec<i64>) -> (r: Result<
        (),
        StoreError,
    >)
        requires
            old(self).wf(),
        ensures
            final(self).wf(),
            r is Ok <==> old(self).has_ballot(ballot_id),
            r is Err ==> *final(self) == *old(self) && r == Err::<(), StoreError>(
                StoreError::BallotNotFound,
            ),
            final(self).ballots() == old(self).ballots(),
            r is Ok ==> final(self).rankings_of(ballot_id) == ordered_item_ids@,
            forall|id: i64|
                id != ballot_id ==> #[trigger] final(self).rankings_of(id) == old(self).rankings_of(
                    id,
                ),
    {
        if ballot_id < 1 || ballot_id > self.entries.len() as i64 {
            proof {
                assert forall|i: int| 0 <= i < self.ballots().len() implies (
                #[trigger] self.ballots()[i].id) != ballot_id by {
                    assert(self.entries@[i].ballot.id == i + 1);
                }
            }
            return Err(StoreError::BallotNotFound);
        }
        let ghost old_entries = self.entries@;
        let index = (ballot_id - 1) as usize;
        let ballot = self.entries[index].ballot;
        let mut item_ids: Vec<i64> = Vec::new();
        let mut k: usize = 0;
        while k < ordered_item_ids.len()
            invariant
                k <= ordered_item_ids@.len(),
                item_ids@ == ordered_item_ids@.take(k as int),
            decreases ordered_item_ids@.len() - k,
        {
            item_ids.push(ordered_item_ids[k]);
            proof {
                assert(item_ids@ =~= ordered_item_ids@.take(k as int + 1));
            }
            k += 1;
        }
        proof {
            assert(item_ids@ =~= ordered_item_ids@);
        }
        self.entries.set(index, StoredBallot { ballot, item_ids });
        proof {
            assert(self.entries@ == old_entries.update(index as int, self.entries@[index as int]));
            assert(self.ballots() =~= old(self).ballots());
            assert(old(self).has_ballot(ballot_id)) by {
                assert(old(self).ballots()[index as int].id == ballot_id);
            }
            assert forall|id: i64| id != ballot_id implies #[trigger] self.rankings_of(id) == old(
                self,
            ).rankings_of(id) by {
                if 1 <= id <= self.entries@.len() {
                    assert(self.entries@[id - 1] == old_entries[id - 1]);
                }
            }
        }
        Ok(())
    }

    /// The stored rankings of a ballot: its ranked item identifiers in
    /// preference order. An unknown ballot has none.
    pub fn get_ballot_rankings(&self, ballot_id: i64) -> (r: Vec<i64>)
        requires
            self.wf(),
        ensures
            r@ == self.rankings_of(ballot_id),
    {
        if ballot_id < 1 || ballot_id > self.entries.len() as i64 {
            return Vec::new();
        }
        let index = (ballot_id - 1) as usize;
        let mut r: Vec<i64> = Vec::new();
        let mut k: usize = 0;
        while k < self.entries[index].item_ids.len()
            invariant
                index < self.entries@.len(),
                k <= self.entries@[index as int].item_ids@.len(),
                r@ == self.entries@[index as int].item_ids@.take(k as int),
            decreases self.entries@[index as int].item_ids@.len() - k,
        {
            r.push(self.entries[index].item_ids[k]);
            proof {
                assert(r@ =~= self.entries@[index as int].item_ids@.take(k as int + 1));
            }
            k += 1;
        }
        proof {
            assert(r@ =~= self.entries@[index as int].item_ids@);
        }
        r
    }

    /// A tabulation snapshot: every registered ballot's ranked item
    /// identifiers, grouped by ballot and ordered by registration.
    pub fn ballot_snapshots(&self) -> (snapshot: Vec<Vec<i64>>)
        requires
            self.wf(),
        ensures
            snapshot@.len() == self.ballots().len(),
            forall|i: int|
                0 <= i < snapshot@.len() ==> (#[trigger] snapshot@[i]@) == self.rankings_of(
                    self.ballots()[i].id,
                ),
    {
        let mut snapshot: Vec<Vec<i64>> = Vec::new();
        let mut i: usize = 0;
        while i < self.entries.len()
            invariant
                self.wf(),
                i <= self.entries@.len(),
                snapshot@.len() == i,
                forall|j: int|
                    0 <= j < i ==> (#[trigger] snapshot@[j]@) == self.rankings_of(
                        self.ballots()[j].id,
                    ),
            decreases self.entries@.len() - i,
        {
            let ballot = self.entries[i].ballot;
            let ids = self.get_ballot_rankings(ballot.id);
            snapshot.push(ids);
            proof {
                assert(self.ballots()[i as int].id == ballot.id);
            }
            i += 1;
        }
        snapshot
    }

    /// Find the ballot registered under the textual identifier; guaranteed
    /// to be `None` when the text is not a valid uuid.
    pub fn find_ballot(&self, uuid_str: &str) -> (r: Option<Ballot>)
        requires
            self.wf(),
        ensures
            match parsed_uuid(uuid_str@) {
                None => r is None,
                Some(u) => match r {
                    Some(b) => b.uuid == u && self.ballots().contains(b) && self.has_ballot(b.id),
                    None => !has_uuid(self.ballots(), u),
                },
            },
    {
        match parse_uuid(uuid_str) {
            None => None,
            Some(u) => self.find_by_uuid(u),
        }
    }

    /// Register a ballot under the textual identifier: parse it, create the
    /// ballot unless the identifier is already taken, and return the
    /// 128-bit value. Text that is not a valid uuid is rejected and leaves
    /// the store unchanged.
    pub fn register(&mut self, uuid_str: &str) -> (r: Result<u128, StoreError>)
        requires
            old(self).wf(),
            old(self).ballots().len() < i64::MAX,
        ensures
            final(self).wf(),
            match parsed_uuid(uuid_str@) {
                None => r == Err::<u128, StoreError>(StoreError::InvalidUuid) && *final(self)
                    == *old(self),
                Some(u) => {
                    &&& r == Ok::<u128, StoreError>(u)
                    &&& has_uuid(final(self).ballots(), u)
                    &&& forall|id: i64|
                        #[trigger] final(self).rankings_of(id) == old(self).rankings_of(id)
                    &&& if has_uuid(old(self).ballots(), u) {
                        final(self).ballots() == old(self).ballots()
                    } else {
                        final(self).ballots().len() == old(self).ballots().len() + 1
                    }
                },
            },
    {
        match parse_uuid(uuid_str) {
            None => Err(StoreError::InvalidUuid),
            Some(u) => {
                let b = self.save_ignoring_conflict(u);
                proof {
                    let i = choose|i: int|
                        0 <= i < self.ballots().len() && (#[trigger] self.ballots()[i]) == b;
                    assert(self.ballots()[i].uuid == u);
                }
                Ok(u)
            },
        }
    }
}

/// Whether some ballot of `ballots` carries the uuid `uuid`.
pub open spec fn has_uuid(ballots: Seq<Ballot>, uuid: u128) -> bool {
    exists|i: int| 0 <= i < ballots.len() && (#[trigger] ballots[i]).uuid == uuid
}

} // verus!
