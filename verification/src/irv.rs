//! Instant-runoff voting.
//!
//! The tabulator consumes a collection of ranked ballots — each ballot an
//! ordered list of options, highest preference first — and repeatedly plays
//! rounds: every ballot casts one vote for its highest-ranked option that has
//! not been eliminated, and then either a single option holds the most votes
//! (it wins), all options hold equally many votes (they tie), or the options
//! with the fewest votes are eliminated and the next round begins.
//!
//! The specification models a round with [`tally`] (how many votes a key
//! receives), [`voted_options`] (the options that received votes, in the
//! order they were first reached), and the elimination process with
//! [`eliminated_after`] (the keys eliminated after a number of rounds).
//! [`poll_outcome`] is the resulting mathematical outcome; the executable
//! [`run_instant_runoff_voting`] is proved to return exactly it.
//!
//! Tallying keys on [`PollOption::key`], a mathematical identity chosen by
//! each option type. Plain values such as strings key on themselves; a poll
//! item keys on its stable identifier, so that display payload never affects
//! counting.

use vstd::prelude::*;

verus! {

/// An option (candidate) that ballots can rank.
///
/// `key` gives the identity that tallying counts by; two options with equal
/// keys are the same candidate, whatever other payload they carry.
pub trait PollOption: Sized {
    /// The type of the identity that tallying keys on.
    type K;

    /// The identity of this option.
    spec fn key(self) -> Self::K;

    /// Decides whether two options stand for the same candidate.
    fn key_eq(&self, other: &Self) -> (r: bool)
        ensures
            r == (self.key() == other.key()),
    ;

    /// An owned copy of this option.
    fn duplicate(&self) -> (r: Self)
        ensures
            r == *self,
    ;
}

/// Result of a poll.
pub enum PollResult<T> {
    /// Could not finish the poll: no ballot cast a vote in the final round.
    NoWinner,
    /// The poll results in multiple winners that the rounds cannot separate.
    Tied(Vec<T>),
    /// The poll results in one winner.
    Winner(T),
}

/// The mathematical counterpart of [`PollResult`].
pub enum SpecPollResult<T> {
    /// No ballot cast a vote in the final round.
    NoWinner,
    /// The tied options, in the order their first votes were reached.
    Tied(Seq<T>),
    /// The single winning option.
    Winner(T),
}

impl<T> View for PollResult<T> {
    type V = SpecPollResult<T>;

    open spec fn view(&self) -> SpecPollResult<T> {
        match self {
            PollResult::NoWinner => SpecPollResult::NoWinner,
            PollResult::Tied(options) => SpecPollResult::Tied(options@),
            PollResult::Winner(option) => SpecPollResult::Winner(*option),
        }
    }
}

/// The ballots of a ballot collection, as mathematical sequences.
pub open spec fn ballot_views<T>(ballots: Seq<Vec<T>>) -> Seq<Seq<T>> {
    ballots.map_values(|ballot: Vec<T>| ballot@)
}

/// Whether some entry of `options` carries the key `k`.
pub open spec fn has_key<T: PollOption>(options: Seq<T>, k: T::K) -> bool {
    exists|i: int| 0 <= i < options.len() && (#[trigger] options[i].key()) == k
}

/// The keys of the entries of `options`.
pub open spec fn key_set<T: PollOption>(options: Seq<T>) -> Set<T::K> {
    options.map_values(|t: T| t.key()).to_set()
}

/// No two entries of `options` carry the same key.
pub open spec fn distinct_keys<T: PollOption>(options: Seq<T>) -> bool {
    forall|i: int, j: int|
        0 <= i < j < options.len() ==> #[trigger] options[i].key() != #[trigger] options[j].key()
}

/// The vote a ballot casts: its highest-ranked option whose key has not been
/// eliminated, or nothing when every ranked option has been eliminated (an
/// exhausted ballot).
pub open spec fn first_choice<T: PollOption>(ballot: Seq<T>, elim: Set<T::K>) -> Option<T>
    decreases ballot.len(),
{
    if ballot.len() == 0 {
        None
    } else if !elim.contains(ballot[0].key()) {
        Some(ballot[0])
    } else {
        first_choice(ballot.drop_first(), elim)
    }
}

/// How many ballots cast their vote for the key `k` in the round whose
/// eliminated keys are `elim`.
pub open spec fn tally<T: PollOption>(ballots: Seq<Seq<T>>, elim: Set<T::K>, k: T::K) -> nat
    decreases ballots.len(),
{
    if ballots.len() == 0 {
        0
    } else {
        tally(ballots.drop_last(), elim, k) + (match first_choice(ballots.last(), elim) {
            Some(t) => if t.key() == k {
                1nat
            } else {
                0nat
            },
            None => 0nat,
        })
    }
}

/// The options that receive at least one vote this round: one entry per key,
/// each carrying the payload of the first ballot's vote that reached it, in
/// ballot order.
pub open spec fn voted_options<T: PollOption>(ballots: Seq<Seq<T>>, elim: Set<T::K>) -> Seq<T>
    decreases ballots.len(),
{
    if ballots.len() == 0 {
        Seq::empty()
    } else {
        let prev = voted_options(ballots.drop_last(), elim);
        match first_choice(ballots.last(), elim) {
            Some(t) => if has_key(prev, t.key()) {
                prev
            } else {
                prev.push(t)
            },
            None => prev,
        }
    }
}

/// Whether any ballot casts a vote this round.
pub open spec fn round_has_votes<T: PollOption>(ballots: Seq<Seq<T>>, elim: Set<T::K>) -> bool {
    exists|k: T::K| #[trigger] tally(ballots, elim, k) > 0
}

/// Whether `w`'s key holds strictly more votes this round than every other
/// key.
pub open spec fn strictly_best<T: PollOption>(ballots: Seq<Seq<T>>, elim: Set<T::K>, w: T) -> bool {
    &&& tally(ballots, elim, w.key()) > 0
    &&& forall|k: T::K|
        k != w.key() ==> #[trigger] tally(ballots, elim, k) < tally(ballots, elim, w.key())
}

/// Whether `w` wins the round outright: it received a vote, holds strictly
/// more votes than every other option, and is the entry that the round's
/// vote order reached.
pub open spec fn is_round_winner<T: PollOption>(
    ballots: Seq<Seq<T>>,
    elim: Set<T::K>,
    w: T,
) -> bool {
    voted_options(ballots, elim).contains(w) && strictly_best(ballots, elim, w)
}

/// Whether the round cannot discriminate at all: at least two keys received
/// votes and all keys that received votes received equally many.
pub open spec fn round_tied<T: PollOption>(ballots: Seq<Seq<T>>, elim: Set<T::K>) -> bool {
    &&& exists|k1: T::K, k2: T::K|
        k1 != k2 && #[trigger] tally(ballots, elim, k1) > 0 && #[trigger] tally(
            ballots,
            elim,
            k2,
        ) > 0
    &&& forall|k1: T::K, k2: T::K|
        #[trigger] tally(ballots, elim, k1) > 0 && #[trigger] tally(ballots, elim, k2) > 0
            ==> tally(ballots, elim, k1) == tally(ballots, elim, k2)
}

/// The keys tied for last place this round: those that received at least one
/// vote and no more votes than any other key that received one.
pub open spec fn worst_keys<T: PollOption>(ballots: Seq<Seq<T>>, elim: Set<T::K>) -> Set<T::K> {
    Set::new(
        |k: T::K|
            tally(ballots, elim, k) > 0 && forall|k2: T::K|
                #[trigger] tally(ballots, elim, k2) > 0 ==> tally(ballots, elim, k) <= tally(
                    ballots,
                    elim,
                    k2,
                ),
    )
}

/// Whether the round neither crowns a winner nor ends in a tie nor runs out
/// of votes, so that the losers are eliminated and another round is played.
pub open spec fn round_continues<T: PollOption>(ballots: Seq<Seq<T>>, elim: Set<T::K>) -> bool {
    &&& round_has_votes(ballots, elim)
    &&& !(exists|w: T| #[trigger] is_round_winner(ballots, elim, w))
    &&& !round_tied(ballots, elim)
}

/// The keys eliminated after `n` rounds: every round that continues adds the
/// keys tied for last place, and a round that terminates changes nothing.
pub open spec fn eliminated_after<T: PollOption>(ballots: Seq<Seq<T>>, n: nat) -> Set<T::K>
    decreases n,
{
    if n == 0 {
        Set::empty()
    } else {
        let e = eliminated_after(ballots, (n - 1) as nat);
        if round_continues(ballots, e) {
            e.union(worst_keys(ballots, e))
        } else {
            e
        }
    }
}

/// The keys of every option that any ballot ranks.
pub open spec fn candidate_keys<T: PollOption>(ballots: Seq<Seq<T>>) -> Set<T::K> {
    Set::new(
        |k: T::K|
            exists|i: int, j: int|
                0 <= i < ballots.len() && 0 <= j < ballots[i].len() && (#[trigger] ballots[i][j].key())
                    == k,
    )
}

/// The keys eliminated when the rounds have terminated. A continuing round
/// eliminates at least one key, so after as many rounds as there are distinct
/// candidate keys the process has long stabilized.
pub open spec fn final_eliminated<T: PollOption>(ballots: Seq<Seq<T>>) -> Set<T::K> {
    eliminated_after(ballots, candidate_keys(ballots).len())
}

/// The outcome of tabulating `ballots`: the final round's single winner, its
/// tied options in vote order, or no winner when no ballot still casts a
/// vote.
pub open spec fn poll_outcome<T: PollOption>(ballots: Seq<Seq<T>>) -> SpecPollResult<T> {
    let e = final_eliminated(ballots);
    if exists|w: T| #[trigger] is_round_winner(ballots, e, w) {
        SpecPollResult::Winner(choose|w: T| is_round_winner(ballots, e, w))
    } else if round_tied(ballots, e) {
        SpecPollResult::Tied(voted_options(ballots, e))
    } else {
        SpecPollResult::NoWinner
    }
}

// ---------------------------------------------------------------------------
// Facts about keys of option sequences.
// ---------------------------------------------------------------------------

proof fn lemma_key_set_membership<T: PollOption>(options: Seq<T>, k: T::K)
    ensures
        key_set(options).contains(k) <==> has_key(options, k),
{
    let mapped = options.map_values(|t: T| t.key());
    if has_key(options, k) {
        let i = choose|i: int| 0 <= i < options.len() && (#[trigger] options[i].key()) == k;
        assert(mapped[i] == k);
        assert(mapped.contains(k));
    }
    if key_set(options).contains(k) {
        let i = choose|i: int| 0 <= i < mapped.len() && mapped[i] == k;
        assert(options[i].key() == k);
    }
}

proof fn lemma_key_set_finite<T: PollOption>(options: Seq<T>)
    ensures
        key_set(options).finite(),
{
    broadcast use vstd::seq_lib::seq_to_set_is_finite;

}

proof fn lemma_key_set_concat<T: PollOption>(left: Seq<T>, right: Seq<T>)
    ensures
        key_set(left + right) =~= key_set(left).union(key_set(right)),
{
    assert forall|k: T::K| key_set(left + right).contains(k) implies key_set(left).union(
        key_set(right),
    ).contains(k) by {
        lemma_key_set_membership(left + right, k);
        let i = choose|i: int| 0 <= i < (left + right).len() && (#[trigger] (left + right)[i].key())
            == k;
        if i < left.len() {
            assert(left[i].key() == k);
            lemma_key_set_membership(left, k);
        } else {
            assert(right[i - left.len()].key() == k);
            lemma_key_set_membership(right, k);
        }
    }
    assert forall|k: T::K| key_set(left).union(key_set(right)).contains(k) implies key_set(
        left + right,
    ).contains(k) by {
        lemma_key_set_membership(left, k);
        lemma_key_set_membership(right, k);
        lemma_key_set_membership(left + right, k);
        if has_key(left, k) {
            let i = choose|i: int| 0 <= i < left.len() && (#[trigger] left[i].key()) == k;
            assert((left + right)[i].key() == k);
        } else {
            let i = choose|i: int| 0 <= i < right.len() && (#[trigger] right[i].key()) == k;
            assert((left + right)[left.len() + i].key() == k);
        }
    }
}

/// A sequence of options with pairwise distinct keys has exactly as many
/// entries as it has keys.
proof fn lemma_distinct_keys_count<T: PollOption>(options: Seq<T>)
    requires
        distinct_keys(options),
    ensures
        key_set(options).finite(),
        key_set(options).len() == options.len(),
{
    let mapped = options.map_values(|t: T| t.key());
    assert(mapped.no_duplicates());
    mapped.unique_seq_to_set();
    lemma_key_set_finite(options);
}

// ---------------------------------------------------------------------------
// Facts about a single round.
// ---------------------------------------------------------------------------

/// What a ballot's vote is made of: a cast vote is a ranked option whose key
/// survives, and a ballot casts no vote only when every ranked option has
/// been eliminated.
proof fn lemma_first_choice_props<T: PollOption>(ballot: Seq<T>, elim: Set<T::K>)
    ensures
        match first_choice(ballot, elim) {
            Some(t) => ballot.contains(t) && !elim.contains(t.key()),
            None => forall|j: int| 0 <= j < ballot.len() ==> elim.contains(#[trigger] ballot[j].key()),
        },
    decreases ballot.len(),
{
    if ballot.len() > 0 && elim.contains(ballot[0].key()) {
        lemma_first_choice_props(ballot.drop_first(), elim);
        match first_choice(ballot.drop_first(), elim) {
            Some(t) => {
                let i = choose|i: int|
                    0 <= i < ballot.drop_first().len() && ballot.drop_first()[i] == t;
                assert(ballot[i + 1] == t);
            },
            None => {
                assert forall|j: int| 0 <= j < ballot.len() implies elim.contains(
                    #[trigger] ballot[j].key(),
                ) by {
                    if j > 0 {
                        assert(ballot.drop_first()[j - 1] == ballot[j]);
                    }
                }
            },
        }
    }
}

/// The options that received votes this round: their keys are pairwise
/// distinct, they are exactly the keys with a positive tally, they are not
/// eliminated, and each entry is ranked by some ballot.
proof fn lemma_voted_options_props<T: PollOption>(ballots: Seq<Seq<T>>, elim: Set<T::K>)
    ensures
        distinct_keys(voted_options(ballots, elim)),
        forall|k: T::K| #[trigger] tally(ballots, elim, k) > 0 <==> has_key(
            voted_options(ballots, elim),
            k,
        ),
        forall|i: int|
            0 <= i < voted_options(ballots, elim).len() ==> !elim.contains(
                #[trigger] voted_options(ballots, elim)[i].key(),
            ),
        forall|i: int|
            0 <= i < voted_options(ballots, elim).len() ==> candidate_keys(ballots).contains(
                #[trigger] voted_options(ballots, elim)[i].key(),
            ),
    decreases ballots.len(),
{
    let vs = voted_options(ballots, elim);
    if ballots.len() == 0 {
        assert forall|k: T::K| #[trigger] tally(ballots, elim, k) > 0 implies has_key(vs, k) by {}
    } else {
        let prefix = ballots.drop_last();
        let prev = voted_options(prefix, elim);
        lemma_voted_options_props(prefix, elim);
        lemma_first_choice_props(ballots.last(), elim);
        // Keys of the prefix's candidates stay candidates of the whole.
        assert forall|k: T::K| candidate_keys(prefix).contains(k) implies candidate_keys(
            ballots,
        ).contains(k) by {
            let (i, j) = choose|i: int, j: int|
                0 <= i < prefix.len() && 0 <= j < prefix[i].len() && (#[trigger] prefix[i][j].key())
                    == k;
            assert(ballots[i][j].key() == k);
        }
        match first_choice(ballots.last(), elim) {
            None => {
                assert(vs == prev);
                assert forall|k: T::K| #[trigger] tally(ballots, elim, k) > 0 implies has_key(
                    vs,
                    k,
                ) by {
                    assert(tally(ballots, elim, k) == tally(prefix, elim, k));
                }
                assert forall|k: T::K| has_key(vs, k) implies tally(ballots, elim, k) > 0 by {
                    assert(tally(prefix, elim, k) > 0);
                    assert(tally(ballots, elim, k) >= tally(prefix, elim, k));
                }
            },
            Some(t) => {
                // The vote is an entry of the last ballot, hence a candidate.
                let j = choose|j: int| 0 <= j < ballots.last().len() && ballots.last()[j] == t;
                assert(ballots[ballots.len() - 1][j].key() == t.key());
                assert(candidate_keys(ballots).contains(t.key()));
                if has_key(prev, t.key()) {
                    assert(vs == prev);
                    assert forall|k: T::K| #[trigger] tally(ballots, elim, k) > 0 implies has_key(
                        vs,
                        k,
                    ) by {
                        if k != t.key() {
                            assert(tally(ballots, elim, k) == tally(prefix, elim, k));
                        }
                    }
                    assert forall|k: T::K| has_key(vs, k) implies tally(ballots, elim, k) > 0 by {
                        assert(tally(prefix, elim, k) > 0);
                        assert(tally(ballots, elim, k) >= tally(prefix, elim, k));
                    }
                } else {
                    assert(vs == prev.push(t));
                    assert forall|i: int, j2: int| 0 <= i < j2 < vs.len() implies (
                    #[trigger] vs[i].key()) != (#[trigger] vs[j2].key()) by {
                        if j2 == vs.len() - 1 {
                            assert(vs[i] == prev[i]);
                            assert(!has_key(prev, t.key()));
                        } else {
                            assert(vs[i] == prev[i] && vs[j2] == prev[j2]);
                        }
                    }
                    assert forall|k: T::K| #[trigger] tally(ballots, elim, k) > 0 implies has_key(
                        vs,
                        k,
                    ) by {
                        if k != t.key() {
                            assert(tally(prefix, elim, k) > 0);
                            let i = choose|i: int|
                                0 <= i < prev.len() && (#[trigger] prev[i].key()) == k;
                            assert(vs[i].key() == k);
                        } else {
                            assert(vs[vs.len() - 1].key() == k);
                        }
                    }
                    assert forall|k: T::K| has_key(vs, k) implies tally(ballots, elim, k) > 0 by {
                        let i = choose|i: int| 0 <= i < vs.len() && (#[trigger] vs[i].key()) == k;
                        if i < prev.len() {
                            assert(prev[i].key() == k);
                            assert(tally(prefix, elim, k) > 0);
                        }
                    }
                }
            },
        }
    }
}

/// Every key with a positive tally is a candidate key outside the eliminated
/// set.
proof fn lemma_tally_positive<T: PollOption>(ballots: Seq<Seq<T>>, elim: Set<T::K>, k: T::K)
    requires
        tally(ballots, elim, k) > 0,
    ensures
        candidate_keys(ballots).contains(k),
        !elim.contains(k),
{
    lemma_voted_options_props(ballots, elim);
    let vs = voted_options(ballots, elim);
    let i = choose|i: int| 0 <= i < vs.len() && (#[trigger] vs[i].key()) == k;
    assert(vs[i].key() == k);
}

/// At most one option can win a round.
proof fn lemma_winner_unique<T: PollOption>(ballots: Seq<Seq<T>>, elim: Set<T::K>, w1: T, w2: T)
    requires
        is_round_winner(ballots, elim, w1),
        is_round_winner(ballots, elim, w2),
    ensures
        w1 == w2,
{
    if w1.key() != w2.key() {
        assert(tally(ballots, elim, w1.key()) < tally(ballots, elim, w2.key()));
        assert(tally(ballots, elim, w2.key()) < tally(ballots, elim, w1.key()));
    }
    let vs = voted_options(ballots, elim);
    lemma_voted_options_props(ballots, elim);
    let i1 = choose|i: int| 0 <= i < vs.len() && vs[i] == w1;
    let i2 = choose|i: int| 0 <= i < vs.len() && vs[i] == w2;
    assert(vs[i1].key() == vs[i2].key());
    assert(i1 == i2);
}

/// A winning round is not a tied round.
proof fn lemma_winner_not_tied<T: PollOption>(ballots: Seq<Seq<T>>, elim: Set<T::K>, w: T)
    requires
        is_round_winner(ballots, elim, w),
    ensures
        !round_tied(ballots, elim),
{
    if round_tied(ballots, elim) {
        let (k1, k2) = choose|k1: T::K, k2: T::K|
            k1 != k2 && #[trigger] tally(ballots, elim, k1) > 0 && #[trigger] tally(
                ballots,
                elim,
                k2,
            ) > 0;
        let other: T::K = if k1 == w.key() {
            k2
        } else {
            k1
        };
        assert(tally(ballots, elim, other) < tally(ballots, elim, w.key()));
        assert(tally(ballots, elim, other) == tally(ballots, elim, w.key()));
    }
}

// ---------------------------------------------------------------------------
// Facts about the elimination process.
// ---------------------------------------------------------------------------

/// The candidate keys form a finite set.
proof fn lemma_candidate_keys_finite<T: PollOption>(ballots: Seq<Seq<T>>)
    ensures
        candidate_keys(ballots).finite(),
    decreases ballots.len(),
{
    if ballots.len() == 0 {
        assert(candidate_keys(ballots) =~= Set::<T::K>::empty());
    } else {
        let prefix = ballots.drop_last();
        lemma_candidate_keys_finite(prefix);
        lemma_key_set_finite(ballots.last());
        let whole = candidate_keys(prefix).union(key_set(ballots.last()));
        assert forall|k: T::K| candidate_keys(ballots).contains(k) implies whole.contains(k) by {
            let (i, j) = choose|i: int, j: int|
                0 <= i < ballots.len() && 0 <= j < ballots[i].len() && (
                #[trigger] ballots[i][j].key()) == k;
            if i < ballots.len() - 1 {
                assert(prefix[i][j].key() == k);
            } else {
                lemma_key_set_membership(ballots.last(), k);
                assert(ballots.last()[j].key() == k);
            }
        }
        assert forall|k: T::K| whole.contains(k) implies candidate_keys(ballots).contains(k) by {
            if candidate_keys(prefix).contains(k) {
                let (i, j) = choose|i: int, j: int|
                    0 <= i < prefix.len() && 0 <= j < prefix[i].len() && (
                    #[trigger] prefix[i][j].key()) == k;
                assert(ballots[i][j].key() == k);
            } else {
                lemma_key_set_membership(ballots.last(), k);
                let j = choose|j: int|
                    0 <= j < ballots.last().len() && (#[trigger] ballots.last()[j].key()) == k;
                assert(ballots[ballots.len() - 1][j].key() == k);
            }
        }
        assert(candidate_keys(ballots) =~= whole);
    }
}

/// Whether the entry at `i` holds a tally no larger than any entry of
/// `options`.
spec fn min_tally_at<T: PollOption>(
    ballots: Seq<Seq<T>>,
    elim: Set<T::K>,
    options: Seq<T>,
    i: int,
) -> bool {
    forall|j: int|
        0 <= j < options.len() ==> tally(ballots, elim, options[i].key()) <= tally(
            ballots,
            elim,
            #[trigger] options[j].key(),
        )
}

/// In a round with votes, some key is tied for last place.
proof fn lemma_worst_keys_nonempty<T: PollOption>(ballots: Seq<Seq<T>>, elim: Set<T::K>)
    requires
        round_has_votes(ballots, elim),
    ensures
        exists|k: T::K| worst_keys(ballots, elim).contains(k),
{
    let vs = voted_options(ballots, elim);
    lemma_voted_options_props(ballots, elim);
    assert(vs.len() > 0) by {
        let k0 = choose|k: T::K| #[trigger] tally(ballots, elim, k) > 0;
        assert(has_key(vs, k0));
    }
    lemma_min_tally_index(ballots, elim, vs);
    let i = choose|i: int| 0 <= i < vs.len() && #[trigger] min_tally_at(ballots, elim, vs, i);
    let k = vs[i].key();
    assert(worst_keys(ballots, elim).contains(k)) by {
        assert(tally(ballots, elim, k) > 0);
        assert forall|k2: T::K| #[trigger] tally(ballots, elim, k2) > 0 implies tally(
            ballots,
            elim,
            k,
        ) <= tally(ballots, elim, k2) by {
            assert(has_key(vs, k2));
            let j = choose|j: int| 0 <= j < vs.len() && (#[trigger] vs[j].key()) == k2;
            assert(tally(ballots, elim, vs[i].key()) <= tally(ballots, elim, vs[j].key()));
        }
    }
}

/// Some entry of a nonempty option sequence has a minimal tally.
proof fn lemma_min_tally_index<T: PollOption>(ballots: Seq<Seq<T>>, elim: Set<T::K>, options: Seq<T>)
    requires
        options.len() > 0,
    ensures
        exists|i: int| 0 <= i < options.len() && #[trigger] min_tally_at(ballots, elim, options, i),
    decreases options.len(),
{
    if options.len() == 1 {
        assert(min_tally_at(ballots, elim, options, 0));
    } else {
        let prefix = options.drop_last();
        lemma_min_tally_index(ballots, elim, prefix);
        let p = choose|i: int|
            0 <= i < prefix.len() && #[trigger] min_tally_at(ballots, elim, prefix, i);
        let best: int = if tally(ballots, elim, options.last().key()) < tally(
            ballots,
            elim,
            prefix[p].key(),
        ) {
            options.len() - 1
        } else {
            p
        };
        assert forall|j: int| 0 <= j < options.len() implies tally(
            ballots,
            elim,
            options[best].key(),
        ) <= tally(ballots, elim, #[trigger] options[j].key()) by {
            if j < options.len() - 1 {
                assert(options[j] == prefix[j]);
                assert(tally(ballots, elim, prefix[p].key()) <= tally(
                    ballots,
                    elim,
                    prefix[j].key(),
                ));
            }
        }
        assert(min_tally_at(ballots, elim, options, best));
    }
}

/// As long as rounds continue, every round eliminates at least one further
/// candidate key.
proof fn lemma_elimination_card<T: PollOption>(ballots: Seq<Seq<T>>, n: nat)
    requires
        forall|m: nat| m < n ==> #[trigger] round_continues(ballots, eliminated_after(ballots, m)),
    ensures
        eliminated_after(ballots, n).finite(),
        eliminated_after(ballots, n).len() >= n,
        eliminated_after(ballots, n).subset_of(candidate_keys(ballots)),
    decreases n,
{
    lemma_candidate_keys_finite(ballots);
    if n == 0 {
        assert(eliminated_after(ballots, n) =~= Set::<T::K>::empty());
    } else {
        lemma_elimination_card(ballots, (n - 1) as nat);
        let e = eliminated_after(ballots, (n - 1) as nat);
        assert(round_continues(ballots, e));
        assert forall|k: T::K| worst_keys(ballots, e).contains(k) implies candidate_keys(
            ballots,
        ).contains(k) && !e.contains(k) by {
            lemma_tally_positive(ballots, e, k);
        }
        vstd::set_lib::lemma_len_subset(worst_keys(ballots, e), candidate_keys(ballots));
        lemma_worst_keys_nonempty(ballots, e);
        let w = choose|k: T::K| worst_keys(ballots, e).contains(k);
        assert(eliminated_after(ballots, n) == e.union(worst_keys(ballots, e)));
        assert(e.union(worst_keys(ballots, e)).len() >= e.insert(w).len()) by {
            vstd::set_lib::lemma_len_subset(e.insert(w), e.union(worst_keys(ballots, e)));
        }
        assert(e.insert(w).len() == e.len() + 1);
    }
}

/// Once a round terminates, later rounds change nothing.
proof fn lemma_elimination_stable<T: PollOption>(ballots: Seq<Seq<T>>, n: nat, m: nat)
    requires
        !round_continues(ballots, eliminated_after(ballots, n)),
        n <= m,
    ensures
        eliminated_after(ballots, m) == eliminated_after(ballots, n),
    decreases m,
{
    if m > n {
        lemma_elimination_stable(ballots, n, (m - 1) as nat);
    }
}

// ---------------------------------------------------------------------------
// The tabulator.
// ---------------------------------------------------------------------------

/// The entries of `options` before `upto` whose parallel count equals `c`,
/// in order.
spec fn filter_by_count<T>(options: Seq<T>, counts: Seq<usize>, upto: int, c: usize) -> Seq<T>
    decreases upto,
{
    if upto <= 0 {
        Seq::empty()
    } else {
        let prev = filter_by_count(options, counts, upto - 1, c);
        if counts[upto - 1] == c {
            prev.push(options[upto - 1])
        } else {
            prev
        }
    }
}

proof fn lemma_filter_by_count<T: PollOption>(
    options: Seq<T>,
    counts: Seq<usize>,
    upto: int,
    c: usize,
)
    requires
        0 <= upto <= options.len(),
    ensures
        forall|p: int|
            0 <= p < filter_by_count(options, counts, upto, c).len() ==> exists|q: int|
                0 <= q < upto && options[q] == #[trigger] filter_by_count(options, counts, upto, c)[p]
                    && counts[q] == c,
        forall|q: int|
            0 <= q < upto && counts[q] == c ==> filter_by_count(options, counts, upto, c).contains(
                #[trigger] options[q],
            ),
        (forall|q: int| 0 <= q < upto ==> counts[q] == c) ==> filter_by_count(
            options,
            counts,
            upto,
            c,
        ) =~= options.take(upto),
        distinct_keys(options) ==> distinct_keys(filter_by_count(options, counts, upto, c)),
    decreases upto,
{
    if upto > 0 {
        lemma_filter_by_count(options, counts, upto - 1, c);
        let prev = filter_by_count(options, counts, upto - 1, c);
        let cur = filter_by_count(options, counts, upto, c);
        if counts[upto - 1] == c {
            assert(cur == prev.push(options[upto - 1]));
            assert forall|q: int| 0 <= q < upto && counts[q] == c implies cur.contains(
                #[trigger] options[q],
            ) by {
                if q < upto - 1 {
                    let p = choose|p: int| 0 <= p < prev.len() && prev[p] == options[q];
                    assert(cur[p] == options[q]);
                } else {
                    assert(cur[cur.len() - 1] == options[q]);
                }
            }
            if distinct_keys(options) {
                assert forall|p1: int, p2: int| 0 <= p1 < p2 < cur.len() implies (
                #[trigger] cur[p1].key()) != (#[trigger] cur[p2].key()) by {
                    if p2 == cur.len() - 1 {
                        let q1 = choose|q: int|
                            0 <= q < upto - 1 && options[q] == prev[p1] && counts[q] == c;
                        assert(options[q1].key() != options[upto - 1].key());
                    } else {
                        assert(cur[p1] == prev[p1] && cur[p2] == prev[p2]);
                    }
                }
            }
        } else {
            assert(cur == prev);
            assert forall|q: int| 0 <= q < upto && counts[q] == c implies cur.contains(
                #[trigger] options[q],
            ) by {
                let p = choose|p: int| 0 <= p < prev.len() && prev[p] == options[q];
                assert(cur[p] == options[q]);
            }
        }
    }
}

/// Whether any entry of `options` carries the key of `t`.
fn contains_key<T: PollOption>(options: &Vec<T>, t: &T) -> (r: bool)
    ensures
        r == has_key(options@, t.key()),
{
    let mut i: usize = 0;
    while i < options.len()
        invariant
            i <= options@.len(),
            forall|j: int| 0 <= j < i ==> (#[trigger] options@[j].key()) != t.key(),
        decreases options@.len() - i,
    {
        if options[i].key_eq(t) {
            return true;
        }
        i += 1;
    }
    false
}

/// The position of the entry of `options` that carries the key of `t`.
fn find_key<T: PollOption>(options: &Vec<T>, t: &T) -> (r: Option<usize>)
    ensures
        match r {
            Some(i) => i < options@.len() && options@[i as int].key() == t.key(),
            None => !has_key(options@, t.key()),
        },
{
    let mut i: usize = 0;
    while i < options.len()
        invariant
            i <= options@.len(),
            forall|j: int| 0 <= j < i ==> (#[trigger] options@[j].key()) != t.key(),
        decreases options@.len() - i,
    {
        if options[i].key_eq(t) {
            return Some(i);
        }
        i += 1;
    }
    None
}

/// The vote `ballot` casts: a reference to its highest-ranked option whose
/// key does not appear in `eliminated`.
#[verifier::loop_isolation(false)]
fn first_surviving<'a, T: PollOption>(ballot: &'a Vec<T>, eliminated: &Vec<T>) -> (r: Option<
    &'a T,
>)
    ensures
        match r {
            Some(t) => first_choice(ballot@, key_set(eliminated@)) == Some(*t),
            None => first_choice(ballot@, key_set(eliminated@)) is None,
        },
{
    let ghost e = key_set(eliminated@);
    proof {
        assert(ballot@.skip(0) =~= ballot@);
    }
    let mut i: usize = 0;
    while i < ballot.len()
        invariant
            i <= ballot@.len(),
            first_choice(ballot@, e) == first_choice(ballot@.skip(i as int), e),
        decreases ballot@.len() - i,
    {
        let survives = !contains_key(eliminated, &ballot[i]);
        proof {
            lemma_key_set_membership(eliminated@, ballot@[i as int].key());
            assert(ballot@.skip(i as int)[0] == ballot@[i as int]);
        }
        if survives {
            proof {
                assert(!e.contains(ballot@[i as int].key()));
                assert(first_choice(ballot@.skip(i as int), e) == Some(ballot@[i as int]));
            }
            return Some(&ballot[i]);
        }
        proof {
            assert(ballot@.skip(i as int).drop_first() =~= ballot@.skip(i as int + 1));
            assert(first_choice(ballot@.skip(i as int), e) == first_choice(
                ballot@.skip(i as int + 1),
                e,
            ));
        }
        i += 1;
    }
    proof {
        assert(ballot@.skip(ballot@.len() as int) =~= Seq::<T>::empty());
    }
    None
}


/// The relation between one round's executable tally and its specification:
/// `tallied` lists the options that received votes, in vote order, and
/// `counts` holds their tallies, in parallel.
spec fn counts_match<T: PollOption>(
    ballots: Seq<Seq<T>>,
    elim: Set<T::K>,
    tallied: Seq<T>,
    counts: Seq<usize>,
) -> bool {
    &&& tallied == voted_options(ballots, elim)
    &&& counts.len() == tallied.len()
    &&& forall|p: int|
        0 <= p < counts.len() ==> #[trigger] counts[p] == tally(ballots, elim, tallied[p].key())
}

/// Count the votes of one round: every ballot's highest-ranked option whose
/// key does not appear in `eliminated` receives one vote.
#[verifier::loop_isolation(false)]
fn count_votes<T: PollOption>(ballots: &Vec<Vec<T>>, eliminated: &Vec<T>) -> (r: (Vec<T>, Vec<
    usize,
>))
    ensures
        counts_match(ballot_views(ballots@), key_set(eliminated@), r.0@, r.1@),
{
    let ghost bs = ballot_views(ballots@);
    let ghost e = key_set(eliminated@);
    let mut tallied: Vec<T> = Vec::new();
    let mut counts: Vec<usize> = Vec::new();
    proof {
        assert(bs.take(0) =~= Seq::<Seq<T>>::empty());
    }
    let mut j: usize = 0;
    while j < ballots.len()
        invariant
            j <= ballots@.len(),
            tallied@ == voted_options(bs.take(j as int), e),
            counts@.len() == tallied@.len(),
            forall|p: int|
                0 <= p < counts@.len() ==> #[trigger] counts@[p] == tally(
                    bs.take(j as int),
                    e,
                    tallied@[p].key(),
                ),
            forall|p: int| 0 <= p < counts@.len() ==> #[trigger] counts@[p] <= j,
        decreases ballots@.len() - j,
    {
        let choice = first_surviving(&ballots[j], eliminated);
        proof {
            assert(bs[j as int] == ballots@[j as int]@);
            assert(bs.take(j as int + 1).drop_last() =~= bs.take(j as int));
            assert(bs.take(j as int + 1).last() == bs[j as int]);
            lemma_voted_options_props(bs.take(j as int), e);
        }
        match choice {
            None => {
                proof {
                    assert(voted_options(bs.take(j as int + 1), e) == tallied@);
                    assert forall|p: int| 0 <= p < counts@.len() implies #[trigger] counts@[p]
                        == tally(bs.take(j as int + 1), e, tallied@[p].key()) by {
                        assert(tally(bs.take(j as int + 1), e, tallied@[p].key()) == tally(
                            bs.take(j as int),
                            e,
                            tallied@[p].key(),
                        ));
                    }
                }
            },
            Some(t) => {
                match find_key(&tallied, t) {
                    Some(p) => {
                        let c = counts[p];
                        counts.set(p, c + 1);
                        proof {
                            assert(has_key(tallied@, t.key()));
                            assert(voted_options(bs.take(j as int + 1), e) == tallied@);
                            assert forall|p2: int| 0 <= p2 < counts@.len() implies
                                #[trigger] counts@[p2] == tally(
                                bs.take(j as int + 1),
                                e,
                                tallied@[p2].key(),
                            ) by {
                                if p2 == p as int {
                                    assert(tallied@[p2].key() == t.key());
                                    assert(tally(bs.take(j as int + 1), e, t.key()) == tally(
                                        bs.take(j as int),
                                        e,
                                        t.key(),
                                    ) + 1);
                                } else {
                                    assert(tallied@[p2].key() != tallied@[p as int].key());
                                    assert(tally(bs.take(j as int + 1), e, tallied@[p2].key())
                                        == tally(bs.take(j as int), e, tallied@[p2].key()));
                                }
                            }
                        }
                    },
                    None => {
                        tallied.push(t.duplicate());
                        counts.push(1);
                        proof {
                            let prev = tallied@.drop_last();
                            assert(prev == voted_options(bs.take(j as int), e));
                            assert(!has_key(prev, t.key()));
                            assert(voted_options(bs.take(j as int + 1), e) == prev.push(*t));
                            assert(tallied@ == prev.push(*t));
                            assert forall|p2: int| 0 <= p2 < counts@.len() implies
                                #[trigger] counts@[p2] == tally(
                                bs.take(j as int + 1),
                                e,
                                tallied@[p2].key(),
                            ) by {
                                if p2 == counts@.len() - 1 {
                                    assert(tallied@[p2] == *t);
                                    assert(tally(bs.take(j as int), e, t.key()) == 0);
                                    assert(tally(bs.take(j as int + 1), e, t.key()) == 1);
                                } else {
                                    assert(tallied@[p2] == prev[p2]);
                                    assert(prev[p2].key() != t.key());
                                    assert(tally(bs.take(j as int + 1), e, prev[p2].key()) == tally(
                                        bs.take(j as int),
                                        e,
                                        prev[p2].key(),
                                    ));
                                }
                            }
                        }
                    },
                }
            },
        }
        j += 1;
    }
    proof {
        assert(bs.take(ballots@.len() as int) =~= bs);
    }
    (tallied, counts)
}

/// Whether `c` is the largest entry of `counts`.
spec fn is_max_count(counts: Seq<usize>, c: usize) -> bool {
    &&& exists|p: int| 0 <= p < counts.len() && #[trigger] counts[p] == c
    &&& forall|p: int| 0 <= p < counts.len() ==> #[trigger] counts[p] <= c
}

/// Whether `c` is the smallest entry of `counts`.
spec fn is_min_count(counts: Seq<usize>, c: usize) -> bool {
    &&& exists|p: int| 0 <= p < counts.len() && #[trigger] counts[p] == c
    &&& forall|p: int| 0 <= p < counts.len() ==> #[trigger] counts[p] >= c
}

/// The largest and the smallest entry of a nonempty count list.
#[verifier::loop_isolation(false)]
fn max_min_counts(counts: &Vec<usize>) -> (r: (usize, usize))
    requires
        counts@.len() > 0,
    ensures
        is_max_count(counts@, r.0),
        is_min_count(counts@, r.1),
{
    let mut max_count: usize = counts[0];
    let mut min_count: usize = counts[0];
    let mut i: usize = 1;
    while i < counts.len()
        invariant
            1 <= i <= counts@.len(),
            exists|p: int| 0 <= p < i && #[trigger] counts@[p] == max_count,
            forall|p: int| 0 <= p < i ==> #[trigger] counts@[p] <= max_count,
            exists|p: int| 0 <= p < i && #[trigger] counts@[p] == min_count,
            forall|p: int| 0 <= p < i ==> #[trigger] counts@[p] >= min_count,
        decreases counts@.len() - i,
    {
        let c = counts[i];
        if c > max_count {
            max_count = c;
        }
        if c < min_count {
            min_count = c;
        }
        i += 1;
    }
    (max_count, min_count)
}

/// The options whose parallel count equals `c`, in order.
#[verifier::loop_isolation(false)]
fn options_with_count<T: PollOption>(options: &Vec<T>, counts: &Vec<usize>, c: usize) -> (r: Vec<
    T,
>)
    requires
        counts@.len() == options@.len(),
    ensures
        r@ == filter_by_count(options@, counts@, options@.len() as int, c),
{
    let mut picked: Vec<T> = Vec::new();
    let mut i: usize = 0;
    while i < options.len()
        invariant
            i <= options@.len(),
            picked@ == filter_by_count(options@, counts@, i as int, c),
        decreases options@.len() - i,
    {
        if counts[i] == c {
            picked.push(options[i].duplicate());
        }
        i += 1;
    }
    picked
}

/// A round in which no ballot cast a vote terminates with no winner.
proof fn lemma_round_no_votes<T: PollOption>(ballots: Seq<Seq<T>>, elim: Set<T::K>)
    requires
        voted_options(ballots, elim).len() == 0,
    ensures
        !round_has_votes(ballots, elim),
        forall|w: T| !(#[trigger] is_round_winner(ballots, elim, w)),
        !round_tied(ballots, elim),
        !round_continues(ballots, elim),
{
    let vs = voted_options(ballots, elim);
    lemma_voted_options_props(ballots, elim);
    assert forall|k: T::K| !(#[trigger] tally(ballots, elim, k) > 0) by {
        assert(!has_key(vs, k));
    }
    assert forall|w: T| !(#[trigger] is_round_winner(ballots, elim, w)) by {
        assert(!(tally(ballots, elim, w.key()) > 0));
    }
}

/// A round whose tally has a single strictly largest entry terminates with
/// that entry as the winner.
proof fn lemma_round_winner<T: PollOption>(
    ballots: Seq<Seq<T>>,
    elim: Set<T::K>,
    tallied: Seq<T>,
    counts: Seq<usize>,
    max_count: usize,
    best: Seq<T>,
)
    requires
        counts_match(ballots, elim, tallied, counts),
        is_max_count(counts, max_count),
        best == filter_by_count(tallied, counts, tallied.len() as int, max_count),
        best.len() == 1,
    ensures
        is_round_winner(ballots, elim, best[0]),
        !round_continues(ballots, elim),
        poll_outcome(ballots) == SpecPollResult::Winner(best[0]) || final_eliminated(ballots)
            != elim,
{
    let vs = voted_options(ballots, elim);
    let w = best[0];
    lemma_voted_options_props(ballots, elim);
    lemma_filter_by_count(tallied, counts, tallied.len() as int, max_count);
    let q = choose|q: int| 0 <= q < tallied.len() && tallied[q] == best[0] && counts[q] == max_count;
    assert(vs.contains(w)) by {
        assert(vs[q] == w);
    }
    assert(tally(ballots, elim, w.key()) == max_count);
    assert(tally(ballots, elim, w.key()) > 0) by {
        assert(has_key(vs, vs[q].key()));
    }
    assert forall|k: T::K| k != w.key() implies #[trigger] tally(ballots, elim, k) < tally(
        ballots,
        elim,
        w.key(),
    ) by {
        if tally(ballots, elim, k) > 0 {
            assert(has_key(vs, k));
            let p = choose|p: int| 0 <= p < vs.len() && (#[trigger] vs[p].key()) == k;
            assert(counts[p] == tally(ballots, elim, k));
            assert(counts[p] <= max_count);
            if counts[p] == max_count {
                assert(best.contains(tallied[p]));
                assert(best[0] == tallied[p]);
                assert(vs[p].key() == w.key());
                assert(false);
            }
        }
    }
    assert(is_round_winner(ballots, elim, w));
    if final_eliminated(ballots) == elim {
        let w2 = choose|w2: T| is_round_winner(ballots, elim, w2);
        lemma_winner_unique(ballots, elim, w2, w);
        assert(poll_outcome(ballots) == SpecPollResult::Winner(w));
    }
}

/// A round in which every voted option received the same number of votes,
/// from more than one option, terminates in a tie over all of them.
proof fn lemma_round_all_equal<T: PollOption>(
    ballots: Seq<Seq<T>>,
    elim: Set<T::K>,
    tallied: Seq<T>,
    counts: Seq<usize>,
    c: usize,
)
    requires
        counts_match(ballots, elim, tallied, counts),
        tallied.len() >= 2,
        forall|p: int| 0 <= p < counts.len() ==> #[trigger] counts[p] == c,
    ensures
        round_tied(ballots, elim),
        forall|w: T| !(#[trigger] is_round_winner(ballots, elim, w)),
        !round_continues(ballots, elim),
        poll_outcome(ballots) == SpecPollResult::Tied(tallied) || final_eliminated(ballots)
            != elim,
{
    let vs = voted_options(ballots, elim);
    lemma_voted_options_props(ballots, elim);
    let k1 = vs[0].key();
    let k2 = vs[1].key();
    assert(k1 != k2);
    assert(tally(ballots, elim, k1) > 0) by {
        assert(has_key(vs, k1));
    }
    assert(tally(ballots, elim, k2) > 0) by {
        assert(has_key(vs, k2));
    }
    assert forall|ka: T::K, kb: T::K|
        #[trigger] tally(ballots, elim, ka) > 0 && #[trigger] tally(ballots, elim, kb)
            > 0 implies tally(ballots, elim, ka) == tally(ballots, elim, kb) by {
        let pa = choose|p: int| 0 <= p < vs.len() && (#[trigger] vs[p].key()) == ka;
        let pb = choose|p: int| 0 <= p < vs.len() && (#[trigger] vs[p].key()) == kb;
        assert(counts[pa] == tally(ballots, elim, ka));
        assert(counts[pb] == tally(ballots, elim, kb));
    }
    assert(round_tied(ballots, elim));
    assert forall|w: T| !(#[trigger] is_round_winner(ballots, elim, w)) by {
        if is_round_winner(ballots, elim, w) {
            lemma_winner_not_tied(ballots, elim, w);
        }
    }
}

/// A round whose tally has several largest entries and at least two distinct
/// values continues: the options with the fewest votes are eliminated.
proof fn lemma_round_continues<T: PollOption>(
    ballots: Seq<Seq<T>>,
    elim: Set<T::K>,
    tallied: Seq<T>,
    counts: Seq<usize>,
    max_count: usize,
    min_count: usize,
    best: Seq<T>,
    worst: Seq<T>,
)
    requires
        counts_match(ballots, elim, tallied, counts),
        tallied.len() > 0,
        is_max_count(counts, max_count),
        is_min_count(counts, min_count),
        best == filter_by_count(tallied, counts, tallied.len() as int, max_count),
        worst == filter_by_count(tallied, counts, tallied.len() as int, min_count),
        best.len() != 1,
        max_count != min_count,
    ensures
        round_continues(ballots, elim),
        key_set(worst) =~= worst_keys(ballots, elim),
        distinct_keys(worst),
        worst.len() >= 1,
        forall|i: int|
            0 <= i < worst.len() ==> !elim.contains(#[trigger] worst[i].key()) && candidate_keys(
                ballots,
            ).contains(worst[i].key()),
{
    let vs = voted_options(ballots, elim);
    lemma_voted_options_props(ballots, elim);
    lemma_filter_by_count(tallied, counts, tallied.len() as int, max_count);
    lemma_filter_by_count(tallied, counts, tallied.len() as int, min_count);
    // There are votes.
    assert(tally(ballots, elim, vs[0].key()) > 0) by {
        assert(has_key(vs, vs[0].key()));
    }
    assert(round_has_votes(ballots, elim));
    // No option is strictly best, else the best options were a single entry.
    assert forall|w: T| !(#[trigger] is_round_winner(ballots, elim, w)) by {
        if is_round_winner(ballots, elim, w) {
            let q = choose|q: int| 0 <= q < vs.len() && vs[q] == w;
            assert(counts[q] == tally(ballots, elim, w.key()));
            let p0 = choose|p: int| 0 <= p < counts.len() && #[trigger] counts[p] == max_count;
            if p0 != q {
                assert(vs[p0].key() != vs[q].key());
                assert(tally(ballots, elim, vs[p0].key()) < tally(ballots, elim, w.key())) by {
                    assert(has_key(vs, vs[p0].key()));
                }
                assert(counts[p0] < counts[q]);
                assert(counts[q] <= max_count);
                assert(false);
            }
            assert(counts[q] == max_count);
            assert forall|p: int| 0 <= p < counts.len() && p != q implies #[trigger] counts[p]
                != max_count by {
                assert(vs[p].key() != vs[q].key());
                assert(tally(ballots, elim, vs[p].key()) > 0) by {
                    assert(has_key(vs, vs[p].key()));
                }
                assert(tally(ballots, elim, vs[p].key()) < tally(ballots, elim, w.key()));
            }
            assert(best.contains(tallied[q]));
            assert(best.len() >= 1);
            if best.len() >= 2 {
                let q0 = choose|q2: int|
                    0 <= q2 < tallied.len() && tallied[q2] == best[0] && counts[q2] == max_count;
                let q1 = choose|q2: int|
                    0 <= q2 < tallied.len() && tallied[q2] == best[1] && counts[q2] == max_count;
                assert(q0 == q);
                assert(q1 == q);
                assert(best[0].key() == best[1].key());
                assert(distinct_keys(best));
                assert(false);
            }
            assert(false);
        }
    }
    // The round is not tied: two counts differ.
    assert(!round_tied(ballots, elim)) by {
        let pmax = choose|p: int| 0 <= p < counts.len() && #[trigger] counts[p] == max_count;
        let pmin = choose|p: int| 0 <= p < counts.len() && #[trigger] counts[p] == min_count;
        assert(tally(ballots, elim, vs[pmax].key()) == max_count);
        assert(tally(ballots, elim, vs[pmin].key()) == min_count);
        assert(tally(ballots, elim, vs[pmax].key()) > 0) by {
            assert(has_key(vs, vs[pmax].key()));
        }
        assert(tally(ballots, elim, vs[pmin].key()) > 0) by {
            assert(has_key(vs, vs[pmin].key()));
        }
    }
    assert(round_continues(ballots, elim));
    // The worst options carry exactly the keys tied for last place.
    assert forall|k: T::K| key_set(worst).contains(k) implies worst_keys(ballots, elim).contains(
        k,
    ) by {
        lemma_key_set_membership(worst, k);
        let i2 = choose|i2: int| 0 <= i2 < worst.len() && (#[trigger] worst[i2].key()) == k;
        let q = choose|q: int|
            0 <= q < tallied.len() && tallied[q] == worst[i2] && counts[q] == min_count;
        assert(tally(ballots, elim, k) == min_count);
        assert(tally(ballots, elim, k) > 0) by {
            assert(has_key(vs, vs[q].key()));
        }
        assert forall|k2: T::K| #[trigger] tally(ballots, elim, k2) > 0 implies tally(
            ballots,
            elim,
            k,
        ) <= tally(ballots, elim, k2) by {
            let p = choose|p: int| 0 <= p < vs.len() && (#[trigger] vs[p].key()) == k2;
            assert(counts[p] == tally(ballots, elim, k2));
            assert(counts[p] >= min_count);
        }
    }
    assert forall|k: T::K| worst_keys(ballots, elim).contains(k) implies key_set(worst).contains(
        k,
    ) by {
        assert(tally(ballots, elim, k) > 0);
        assert(has_key(vs, k));
        let q = choose|q: int| 0 <= q < vs.len() && (#[trigger] vs[q].key()) == k;
        assert(counts[q] == tally(ballots, elim, k));
        let pmin = choose|p: int| 0 <= p < counts.len() && #[trigger] counts[p] == min_count;
        assert(tally(ballots, elim, vs[pmin].key()) == min_count);
        assert(tally(ballots, elim, vs[pmin].key()) > 0) by {
            assert(has_key(vs, vs[pmin].key()));
        }
        assert(tally(ballots, elim, k) <= min_count);
        assert(counts[q] >= min_count);
        assert(counts[q] == min_count);
        assert(worst.contains(tallied[q]));
        let i2 = choose|i2: int| 0 <= i2 < worst.len() && worst[i2] == tallied[q];
        lemma_key_set_membership(worst, k);
        assert(worst[i2].key() == k);
    }
    // The worst options are not empty and not yet eliminated.
    assert(worst.len() >= 1) by {
        let pmin = choose|p: int| 0 <= p < counts.len() && #[trigger] counts[p] == min_count;
        assert(worst.contains(tallied[pmin]));
    }
    assert forall|i: int| 0 <= i < worst.len() implies !elim.contains(#[trigger] worst[i].key())
        && candidate_keys(ballots).contains(worst[i].key()) by {
        let q = choose|q: int|
            0 <= q < tallied.len() && tallied[q] == worst[i] && counts[q] == min_count;
        assert(vs[q].key() == worst[i].key());
    }
}

/// Appending freshly eliminated options keeps the eliminated list's keys
/// distinct and within the candidate keys.
proof fn lemma_extend_eliminated<T: PollOption>(
    ballots: Seq<Seq<T>>,
    old_options: Seq<T>,
    worst: Seq<T>,
)
    requires
        distinct_keys(old_options),
        distinct_keys(worst),
        key_set(old_options).subset_of(candidate_keys(ballots)),
        forall|i: int|
            0 <= i < worst.len() ==> !key_set(old_options).contains(#[trigger] worst[i].key())
                && candidate_keys(ballots).contains(worst[i].key()),
    ensures
        distinct_keys(old_options + worst),
        key_set(old_options + worst) =~= key_set(old_options).union(key_set(worst)),
        key_set(old_options + worst).subset_of(candidate_keys(ballots)),
        (old_options + worst).len() <= candidate_keys(ballots).len() || !candidate_keys(
            ballots,
        ).finite(),
{
    let combined = old_options + worst;
    lemma_key_set_concat(old_options, worst);
    assert forall|i1: int, j1: int| 0 <= i1 < j1 < combined.len() implies (
    #[trigger] combined[i1].key()) != (#[trigger] combined[j1].key()) by {
        if i1 < old_options.len() && j1 >= old_options.len() {
            assert(combined[i1] == old_options[i1]);
            assert(combined[j1] == worst[j1 - old_options.len()]);
            assert(key_set(old_options).contains(old_options[i1].key())) by {
                lemma_key_set_membership(old_options, old_options[i1].key());
                assert(has_key(old_options, old_options[i1].key()));
            }
        } else if j1 < old_options.len() {
            assert(combined[i1] == old_options[i1]);
            assert(combined[j1] == old_options[j1]);
        } else {
            assert(combined[i1] == worst[i1 - old_options.len()]);
            assert(combined[j1] == worst[j1 - old_options.len()]);
        }
    }
    assert forall|k: T::K| key_set(combined).contains(k) implies candidate_keys(ballots).contains(
        k,
    ) by {
        lemma_key_set_membership(worst, k);
        if has_key(worst, k) {
            let i = choose|i: int| 0 <= i < worst.len() && (#[trigger] worst[i].key()) == k;
            assert(candidate_keys(ballots).contains(worst[i].key()));
        }
    }
    if candidate_keys(ballots).finite() {
        lemma_distinct_keys_count(combined);
        vstd::set_lib::lemma_len_subset(key_set(combined), candidate_keys(ballots));
    }
}

/// Play one round: count the votes, and either decide the poll or extend
/// the eliminated options with those tied for last place.
#[verifier::rlimit(100)]
fn play_round<T: PollOption>(
    ballots: &Vec<Vec<T>>,
    eliminated: &mut Vec<T>,
    Ghost(round): Ghost<nat>,
) -> (decision: Option<PollResult<T>>)
    requires
        key_set(old(eliminated)@) == eliminated_after(ballot_views(ballots@), round),
        distinct_keys(old(eliminated)@),
        key_set(old(eliminated)@).subset_of(candidate_keys(ballot_views(ballots@))),
        round <= old(eliminated)@.len(),
    ensures
        match decision {
            Some(result) => result@ == poll_outcome(ballot_views(ballots@)),
            None => {
                let bs = ballot_views(ballots@);
                &&& key_set(final(eliminated)@) == eliminated_after(bs, round + 1)
                &&& distinct_keys(final(eliminated)@)
                &&& key_set(final(eliminated)@).subset_of(candidate_keys(bs))
                &&& old(eliminated)@.len() < final(eliminated)@.len()
                &&& round + 1 <= final(eliminated)@.len()
                &&& final(eliminated)@.len() <= candidate_keys(bs).len()
            },
        },
{
    let ghost bs = ballot_views(ballots@);
    let ghost e = key_set(eliminated@);
    let ghost total = candidate_keys(bs).len();
    proof {
        lemma_candidate_keys_finite(bs);
        lemma_distinct_keys_count(eliminated@);
        vstd::set_lib::lemma_len_subset(key_set(eliminated@), candidate_keys(bs));
        assert(round <= total);
    }

    // Count votes.
    let (tallied, counts) = count_votes(ballots, eliminated);

    // There is no vote.
    if tallied.len() == 0 {
        proof {
            lemma_round_no_votes(bs, e);
            lemma_elimination_stable(bs, round, total);
            assert(final_eliminated(bs) == e);
            assert(poll_outcome(bs) == SpecPollResult::<T>::NoWinner);
        }
        return Some(PollResult::NoWinner);
    }

    // Get options with the most votes and options with the fewest votes.
    let (max_count, min_count) = max_min_counts(&counts);
    let mut best = options_with_count(&tallied, &counts, max_count);
    let mut worst = options_with_count(&tallied, &counts, min_count);

    // Only one option received the most votes: it wins.
    if best.len() == 1 {
        proof {
            lemma_round_winner(bs, e, tallied@, counts@, max_count, best@);
            lemma_elimination_stable(bs, round, total);
            assert(final_eliminated(bs) == e);
        }
        let winner = match best.pop() {
            Some(t) => t,
            None => vstd::pervasive::unreached(),
        };
        return Some(PollResult::Winner(winner));
    }

    // Tied when votes are evenly distributed.
    if max_count == min_count {
        proof {
            lemma_filter_by_count(tallied@, counts@, tallied@.len() as int, max_count);
            assert forall|q: int| 0 <= q < counts@.len() implies #[trigger] counts@[q]
                == max_count by {
                assert(counts@[q] <= max_count);
                assert(counts@[q] >= min_count);
            }
            assert(best@ =~= tallied@.take(tallied@.len() as int));
            assert(tallied@.take(tallied@.len() as int) =~= tallied@);
            assert(best@ == tallied@);
            assert(tallied@.len() >= 2);
            lemma_round_all_equal(bs, e, tallied@, counts@, max_count);
            lemma_elimination_stable(bs, round, total);
            assert(final_eliminated(bs) == e);
        }
        return Some(PollResult::Tied(best));
    }

    // Eliminate every option tied for last place and play another round.
    proof {
        lemma_round_continues(bs, e, tallied@, counts@, max_count, min_count, best@, worst@);
    }
    eliminate_worst(eliminated, worst, Ghost(ballot_views(ballots@)), Ghost(round));
    None
}

/// Add the round's worst options to the eliminated list, establishing the
/// next round's elimination set.
fn eliminate_worst<T: PollOption>(
    eliminated: &mut Vec<T>,
    worst: Vec<T>,
    Ghost(ballots): Ghost<Seq<Seq<T>>>,
    Ghost(round): Ghost<nat>,
)
    requires
        key_set(old(eliminated)@) == eliminated_after(ballots, round),
        distinct_keys(old(eliminated)@),
        key_set(old(eliminated)@).subset_of(candidate_keys(ballots)),
        round <= old(eliminated)@.len(),
        candidate_keys(ballots).finite(),
        round_continues(ballots, key_set(old(eliminated)@)),
        key_set(worst@) =~= worst_keys(ballots, key_set(old(eliminated)@)),
        distinct_keys(worst@),
        worst@.len() >= 1,
        forall|i: int|
            0 <= i < worst@.len() ==> !key_set(old(eliminated)@).contains(
                #[trigger] worst@[i].key(),
            ) && candidate_keys(ballots).contains(worst@[i].key()),
    ensures
        key_set(final(eliminated)@) == eliminated_after(ballots, round + 1),
        distinct_keys(final(eliminated)@),
        key_set(final(eliminated)@).subset_of(candidate_keys(ballots)),
        old(eliminated)@.len() < final(eliminated)@.len(),
        round + 1 <= final(eliminated)@.len(),
        final(eliminated)@.len() <= candidate_keys(ballots).len(),
{
    let ghost e = key_set(eliminated@);
    let ghost worst_seq = worst@;
    let ghost old_eliminated = eliminated@;
    let mut worst = worst;
    eliminated.append(&mut worst);
    proof {
        assert(eliminated@ == old_eliminated + worst_seq);
        lemma_extend_eliminated(ballots, old_eliminated, worst_seq);
        assert(key_set(eliminated@) =~= e.union(worst_keys(ballots, e)));
        assert(eliminated_after(ballots, round + 1) == e.union(worst_keys(ballots, e)));
    }
}

/// Determine the best option(s) using the instant-runoff voting system.
///
/// Each ballot ranks options from highest preference to lowest. In every
/// round each ballot casts one vote for its highest-ranked option that has
/// not been eliminated; a single option with strictly the most votes wins,
/// a round in which every voted option holds equally many votes ends in a
/// tie, a round without votes ends with no winner, and otherwise every
/// option tied for the fewest votes is eliminated and the next round
/// begins.
///
/// This function does not guarantee the winner to be the one that receives
/// the majority of votes: the winner holds a strict plurality in the final
/// discriminating round.
pub fn run_instant_runoff_voting<T: PollOption>(ballots: &Vec<Vec<T>>) -> (result: PollResult<T>)
    ensures
        result@ == poll_outcome(ballot_views(ballots@)),
{
    let ghost bs = ballot_views(ballots@);
    proof {
        lemma_candidate_keys_finite(bs);
    }
    let mut eliminated: Vec<T> = Vec::new();
    let ghost mut round: nat = 0nat;
    proof {
        assert(eliminated@.map_values(|t: T| t.key()) =~= Seq::<T::K>::empty());
        assert(key_set(eliminated@) =~= eliminated_after(bs, 0nat));
        assert(key_set(eliminated@).subset_of(candidate_keys(bs)));
    }
    loop
        invariant
            bs == ballot_views(ballots@),
            candidate_keys(bs).finite(),
            key_set(eliminated@) == eliminated_after(bs, round),
            distinct_keys(eliminated@),
            key_set(eliminated@).subset_of(candidate_keys(bs)),
            round <= eliminated@.len(),
            eliminated@.len() <= candidate_keys(bs).len(),
        decreases candidate_keys(bs).len() - eliminated@.len(),
    {
        match play_round(ballots, &mut eliminated, Ghost(round)) {
            Some(result) => {
                return result;
            },
            None => {
                proof {
                    round = round + 1nat;
                }
            },
        }
    }
}

// ---------------------------------------------------------------------------
// Laws of the tabulator.
// ---------------------------------------------------------------------------

/// Tabulating no ballots yields no winner.
pub proof fn lemma_no_ballots_no_winner<T: PollOption>()
    ensures
        poll_outcome(Seq::<Seq<T>>::empty()) == SpecPollResult::<T>::NoWinner,
{
    let bs = Seq::<Seq<T>>::empty();
    lemma_round_no_votes(bs, final_eliminated(bs));
}

/// Tabulating the same snapshot twice yields the identical outcome: the
/// result is a function of the ballots alone, with no hidden state.
pub proof fn lemma_tabulation_deterministic<T: PollOption>(
    ballots: Seq<Seq<T>>,
    r1: SpecPollResult<T>,
    r2: SpecPollResult<T>,
)
    requires
        r1 == poll_outcome(ballots),
        r2 == poll_outcome(ballots),
    ensures
        r1 == r2,
{
}

/// Between rounds the set of eliminated keys only grows.
pub proof fn lemma_elimination_monotone<T: PollOption>(ballots: Seq<Seq<T>>, n: nat, m: nat)
    requires
        n <= m,
    ensures
        eliminated_after(ballots, n).subset_of(eliminated_after(ballots, m)),
    decreases m,
{
    if m > n {
        lemma_elimination_monotone(ballots, n, (m - 1) as nat);
    }
}

/// The rounds terminate after at most as many rounds as there are distinct
/// candidate keys: at that point no further round continues, so the
/// elimination process has stabilized.
pub proof fn lemma_rounds_terminate_within_candidates<T: PollOption>(ballots: Seq<Seq<T>>)
    ensures
        !round_continues(ballots, final_eliminated(ballots)),
        forall|m: nat|
            candidate_keys(ballots).len() <= m ==> #[trigger] eliminated_after(ballots, m)
                == final_eliminated(ballots),
{
    let total = candidate_keys(ballots).len();
    lemma_candidate_keys_finite(ballots);
    if forall|m: nat| m < total + 1 ==> #[trigger] round_continues(
        ballots,
        eliminated_after(ballots, m),
    ) {
        // Every round up to the candidate count eliminated a further key:
        // one key too many for the candidate set to hold.
        lemma_elimination_card(ballots, total + 1);
        vstd::set_lib::lemma_len_subset(
            eliminated_after(ballots, total + 1),
            candidate_keys(ballots),
        );
        assert(false);
    } else {
        let m = choose|m: nat|
            m < total + 1 && !#[trigger] round_continues(ballots, eliminated_after(ballots, m));
        lemma_elimination_stable(ballots, m, total);
    }
    assert forall|m: nat| total <= m implies #[trigger] eliminated_after(ballots, m)
        == final_eliminated(ballots) by {
        lemma_elimination_stable(ballots, total, m);
    }
}

/// A ballot none of whose ranked options survives casts no vote.
proof fn lemma_exhausted_no_choice<T: PollOption>(ballot: Seq<T>, elim: Set<T::K>)
    requires
        forall|j: int| 0 <= j < ballot.len() ==> elim.contains(#[trigger] ballot[j].key()),
    ensures
        first_choice(ballot, elim) is None,
    decreases ballot.len(),
{
    if ballot.len() > 0 {
        assert(elim.contains(ballot[0].key()));
        assert forall|j: int| 0 <= j < ballot.drop_first().len() implies elim.contains(
            #[trigger] ballot.drop_first()[j].key(),
        ) by {
            assert(ballot.drop_first()[j] == ballot[j + 1]);
        }
        lemma_exhausted_no_choice(ballot.drop_first(), elim);
    }
}

/// An exhausted ballot contributes nothing: when every option a ballot ranks
/// has been eliminated, each key's tally is as if the ballot were absent.
pub proof fn lemma_exhausted_ballot_casts_nothing<T: PollOption>(
    ballots: Seq<Seq<T>>,
    elim: Set<T::K>,
    i: int,
)
    requires
        0 <= i < ballots.len(),
        forall|j: int| 0 <= j < ballots[i].len() ==> elim.contains(#[trigger] ballots[i][j].key()),
    ensures
        forall|k: T::K| #[trigger] tally(ballots, elim, k) == tally(ballots.remove(i), elim, k),
    decreases ballots.len(),
{
    lemma_exhausted_no_choice(ballots[i], elim);
    if i == ballots.len() - 1 {
        assert(ballots.remove(i) =~= ballots.drop_last());
        assert forall|k: T::K| #[trigger] tally(ballots, elim, k) == tally(
            ballots.remove(i),
            elim,
            k,
        ) by {
            assert(first_choice(ballots.last(), elim) is None);
        }
    } else {
        let prefix = ballots.drop_last();
        assert(prefix[i] == ballots[i]);
        lemma_exhausted_ballot_casts_nothing(prefix, elim, i);
        assert forall|k: T::K| #[trigger] tally(ballots, elim, k) == tally(
            ballots.remove(i),
            elim,
            k,
        ) by {
            assert(ballots.remove(i).drop_last() =~= prefix.remove(i));
            assert(ballots.remove(i).last() == ballots.last());
            assert(tally(ballots, elim, k) == tally(prefix, elim, k) + (
            match first_choice(ballots.last(), elim) {
                Some(t) => if t.key() == k {
                    1nat
                } else {
                    0nat
                },
                None => 0nat,
            }));
            assert(tally(prefix, elim, k) == tally(prefix.remove(i), elim, k));
        }
    }
}

/// When every ballot ranks the same option first, the tallies of the first
/// round are unanimous.
proof fn lemma_unanimous_tally<T: PollOption>(ballots: Seq<Seq<T>>, a: T)
    requires
        forall|i: int| 0 <= i < ballots.len() ==> ballots[i].len() > 0 && ballots[i][0] == a,
    ensures
        tally(ballots, Set::<T::K>::empty(), a.key()) == ballots.len(),
        forall|k: T::K| k != a.key() ==> #[trigger] tally(ballots, Set::<T::K>::empty(), k) == 0,
        ballots.len() > 0 ==> voted_options(ballots, Set::<T::K>::empty()) =~= seq![a],
    decreases ballots.len(),
{
    let e0 = Set::<T::K>::empty();
    if ballots.len() > 0 {
        let prefix = ballots.drop_last();
        assert forall|i: int| 0 <= i < prefix.len() implies (#[trigger] prefix[i]).len() > 0
            && prefix[i][0] == a by {
            assert(prefix[i] == ballots[i]);
        }
        lemma_unanimous_tally(prefix, a);
        assert(first_choice(ballots.last(), e0) == Some(a));
        assert forall|k: T::K| k != a.key() implies #[trigger] tally(ballots, e0, k) == 0 by {
            assert(tally(prefix, e0, k) == 0);
        }
        if prefix.len() > 0 {
            assert(has_key(voted_options(prefix, e0), a.key())) by {
                assert(voted_options(prefix, e0)[0] == a);
            }
            assert(voted_options(ballots, e0) == voted_options(prefix, e0));
        } else {
            assert(voted_options(prefix, e0) =~= Seq::<T>::empty());
            assert(!has_key(voted_options(prefix, e0), a.key()));
            assert(voted_options(ballots, e0) =~= seq![a]);
        }
    }
}

/// A unanimous first choice wins in the first round, whatever else the
/// ballots rank and however long they are.
pub proof fn lemma_unanimous_first_choice<T: PollOption>(ballots: Seq<Seq<T>>, a: T)
    requires
        ballots.len() > 0,
        forall|i: int| 0 <= i < ballots.len() ==> ballots[i].len() > 0 && ballots[i][0] == a,
    ensures
        poll_outcome(ballots) == SpecPollResult::Winner(a),
{
    let e0 = Set::<T::K>::empty();
    lemma_unanimous_tally(ballots, a);
    assert(is_round_winner(ballots, e0, a)) by {
        assert(voted_options(ballots, e0).contains(a)) by {
            assert(voted_options(ballots, e0)[0] == a);
        }
        assert forall|k: T::K| k != a.key() implies #[trigger] tally(ballots, e0, k) < tally(
            ballots,
            e0,
            a.key(),
        ) by {
            assert(tally(ballots, e0, k) == 0);
        }
    }
    assert(!round_continues(ballots, e0));
    assert(eliminated_after(ballots, 0nat) == e0);
    lemma_elimination_stable(ballots, 0nat, candidate_keys(ballots).len());
    assert(final_eliminated(ballots) == e0);
    let w2 = choose|w: T| is_round_winner(ballots, e0, w);
    lemma_winner_unique(ballots, e0, w2, a);
}

} // verus!
