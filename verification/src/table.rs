//! The table of quotients, kept in the order of the ranking while it is filled.

use vstd::prelude::*;
use vstd::relations::sorted_by;
use vstd::seq_lib::{lemma_sorted_unique, to_multiset_build, to_multiset_insert};
use crate::rational::{divide, less, Fraction, Rat, lemma_above_respects_same};
use crate::highest_averages::{
    candidates, entered_before, lemma_divisor_sign, lemma_order_total, lemma_quotient_wf,
    lemma_ranks_before_transitive, order, quotient, ranking, ranks_before, row, Candidate,
    Method, MAX_VOTES,
};

verus! {

/// One entry of the table: a party, a divisor rank, and the party's votes
/// over the divisor of that rank.
#[derive(Clone, Copy, Debug)]
pub struct Entry {
    pub party: usize,
    pub rank: u64,
    pub quotient: Fraction,
}

impl Entry {
    /// The candidate that the entry stands for.
    pub open spec fn key(&self) -> Candidate {
        Candidate { party: self.party as nat, rank: self.rank as nat }
    }

    /// The entry is of a party on the list and holds that candidate's quotient.
    pub open spec fn fits(&self, method: Method, votes: Seq<usize>) -> bool {
        &&& self.party < votes.len()
        &&& self.quotient.denom > 0
        &&& self.quotient@.same(quotient(method, votes, self.key()))
    }
}

/// The candidates of the entries, in their order.
pub open spec fn keys(entries: Seq<Entry>) -> Seq<Candidate> {
    entries.map_values(|e: Entry| e.key())
}

/// The entries are those of the first `rows` ranks, each once, best first.
pub open spec fn table_ok(entries: Seq<Entry>, method: Method, votes: Seq<usize>, rows: nat) -> bool {
    &&& sorted_by(keys(entries), order(method, votes))
    &&& keys(entries).to_multiset() == candidates(votes.len(), rows).to_multiset()
    &&& forall|j: int|
        0 <= j < entries.len() ==> (#[trigger] entries[j]).fits(method, votes) && entries[j].rank
            < rows
}

/// A fraction that is `votes` over a fraction equal to the divisor is the quotient.
proof fn lemma_quotient_same(q: Rat, v: int, d: Rat, big_d: Rat)
    requires
        q.den > 0,
        d.den > 0,
        big_d.den > 0,
        big_d.num != 0,
        d.same(big_d),
        q.num * (1 * d.num) == (v * d.den) * q.den,
    ensures
        q.same(Rat::whole(v).over(big_d)),
{
    assert(q.num * big_d.num == (v * big_d.den) * q.den) by (nonlinear_arith)
        requires
            q.num * (1 * d.num) == (v * d.den) * q.den,
            d.num * big_d.den == big_d.num * d.den,
            d.den > 0,
    {
        assert((q.num * big_d.num) * d.den == ((v * big_d.den) * q.den) * d.den);
    }
    assert(q.num * (1 * big_d.num) == q.num * big_d.num) by (nonlinear_arith);
    assert(q.num * (-(1 * big_d.num)) == -(q.num * big_d.num)) by (nonlinear_arith);
    assert((-(v * big_d.den)) * q.den == -((v * big_d.den) * q.den)) by (nonlinear_arith);
}

/// The entry of `party` at `rank`: its votes over `divisor`.
fn make_entry(
    votes: usize,
    party: usize,
    rank: u64,
    divisor: Fraction,
    Ghost(method): Ghost<Method>,
    Ghost(all): Ghost<Seq<usize>>,
) -> (entry: Entry)
    requires
        party < all.len(),
        all[party as int] == votes,
        votes <= MAX_VOTES,
        divisor.wf(),
        divisor@.same(crate::highest_averages::divisor(method, rank as nat)),
        divisor.numer != 0,
        divisor.numer > i64::MIN,
        divisor.denom <= 2,
    ensures
        entry.party == party,
        entry.rank == rank,
        entry.fits(method, all),
{
    let whole = Fraction::from_integer(votes as i64);
    assert(votes * divisor.denom <= 2 * votes) by (nonlinear_arith)
        requires
            0 < divisor.denom <= 2,
            votes >= 0,
    ;
    assert(votes * divisor.denom >= 0) by (nonlinear_arith)
        requires
            0 < divisor.denom,
            votes >= 0,
    ;
    assert(1 * divisor.numer == divisor.numer);
    let q = divide(whole, divisor);
    let entry = Entry { party: party, rank: rank, quotient: q };
    proof {
        lemma_divisor_sign(method, rank as nat);
        lemma_quotient_same(
            q@,
            votes as int,
            divisor@,
            crate::highest_averages::divisor(method, rank as nat),
        );
    }
    entry
}

/// Two fitting entries compare as their candidates' quotients do.
proof fn lemma_less_is_above(a: Entry, b: Entry, method: Method, votes: Seq<usize>)
    requires
        a.fits(method, votes),
        b.fits(method, votes),
    ensures
        b.quotient@.above(a.quotient@) == quotient(method, votes, b.key()).above(
            quotient(method, votes, a.key()),
        ),
        b.quotient@.same(a.quotient@) == quotient(method, votes, b.key()).same(
            quotient(method, votes, a.key()),
        ),
{
    lemma_quotient_wf(method, votes, a.key());
    lemma_quotient_wf(method, votes, b.key());
    lemma_above_respects_same(
        b.quotient@,
        quotient(method, votes, b.key()),
        a.quotient@,
        quotient(method, votes, a.key()),
    );
}

/// Puts `entry` at its place in the ranking. It is the newest entry, so it
/// goes behind every entry of equal quotient.
fn insert_entry(
    matrix: &mut Vec<Entry>,
    entry: Entry,
    Ghost(method): Ghost<Method>,
    Ghost(votes): Ghost<Seq<usize>>,
)
    requires
        sorted_by(keys(old(matrix)@), order(method, votes)),
        forall|j: int|
            0 <= j < old(matrix)@.len() ==> (#[trigger] old(matrix)@[j]).fits(method, votes)
                && entered_before(old(matrix)@[j].key(), entry.key()),
        entry.fits(method, votes),
    ensures
        sorted_by(keys(final(matrix)@), order(method, votes)),
        exists|pos: int|
            0 <= pos <= old(matrix)@.len() && final(matrix)@ == #[trigger] old(matrix)@.insert(
                pos,
                entry,
            ),
{
    let ghost before = matrix@;
    let mut pos: usize = matrix.len();
    while pos > 0 && less(matrix[pos - 1].quotient, entry.quotient)
        invariant
            matrix@ == before,
            pos <= before.len(),
            entry.fits(method, votes),
            forall|j: int| 0 <= j < before.len() ==> (#[trigger] before[j]).fits(method, votes),
            forall|j: int|
                pos <= j < before.len() ==> ranks_before(
                    method,
                    votes,
                    entry.key(),
                    (#[trigger] before[j]).key(),
                ),
        decreases pos,
    {
        proof {
            lemma_less_is_above(before[pos - 1], entry, method, votes);
        }
        pos -= 1;
    }
    matrix.insert(pos, entry);
    proof {
        let after = matrix@;
        let r = order(method, votes);
        if pos > 0 {
            lemma_less_is_above(before[pos - 1], entry, method, votes);
            lemma_less_is_above(entry, before[pos - 1], method, votes);
            assert(ranks_before(method, votes, before[pos - 1].key(), entry.key()));
        }
        assert forall|i: int, j: int| 0 <= i < j < keys(after).len() implies #[trigger] r(
            keys(after)[i],
            keys(after)[j],
        ) by {
            if j < pos {
                assert(r(keys(before)[i], keys(before)[j]));
            } else if j == pos {
                if i < pos - 1 {
                    assert(r(keys(before)[i], keys(before)[pos - 1]));
                    lemma_ranks_before_transitive(
                        method,
                        votes,
                        before[i].key(),
                        before[pos - 1].key(),
                        entry.key(),
                    );
                }
            } else if i < pos {
                assert(r(keys(before)[i], keys(before)[j - 1]));
            } else if i == pos {
                assert(ranks_before(method, votes, entry.key(), before[j - 1].key()));
            } else {
                assert(r(keys(before)[i - 1], keys(before)[j - 1]));
            }
        }
    }
}

/// Enters the quotients of `rank` for every party. The table then holds
/// the ranking of the ranks up to and with `rank`.
pub(crate) fn fill_row(
    matrix: &mut Vec<Entry>,
    parties: &Vec<usize>,
    divisor: Fraction,
    rank: u64,
    Ghost(method): Ghost<Method>,
)
    requires
        table_ok(old(matrix)@, method, parties@, rank as nat),
        forall|p: int| 0 <= p < parties@.len() ==> #[trigger] parties@[p] <= MAX_VOTES,
        divisor.wf(),
        divisor@.same(crate::highest_averages::divisor(method, rank as nat)),
        divisor.numer != 0,
        divisor.numer > i64::MIN,
        divisor.denom <= 2,
    ensures
        table_ok(final(matrix)@, method, parties@, (rank + 1) as nat),
        keys(final(matrix)@) == ranking(method, parties@, (rank + 1) as nat),
{
    let ghost votes = parties@;
    let ghost earlier = candidates(votes.len(), rank as nat);
    let ghost this_row = row(votes.len(), rank as nat);
    let mut p: usize = 0;
    assert(earlier + this_row.take(0) =~= earlier);
    while p < parties.len()
        invariant
            p <= parties.len(),
            votes == parties@,
            earlier == candidates(votes.len(), rank as nat),
            this_row == row(votes.len(), rank as nat),
            sorted_by(keys(matrix@), order(method, votes)),
            keys(matrix@).to_multiset() == (earlier + this_row.take(p as int)).to_multiset(),
            forall|j: int|
                0 <= j < matrix@.len() ==> (#[trigger] matrix@[j]).fits(method, votes) && (
                matrix@[j].rank < rank || (matrix@[j].rank == rank && matrix@[j].party < p)),
            forall|q: int| 0 <= q < parties@.len() ==> #[trigger] parties@[q] <= MAX_VOTES,
            divisor.wf(),
            divisor@.same(crate::highest_averages::divisor(method, rank as nat)),
            divisor.numer != 0,
            divisor.numer > i64::MIN,
            divisor.denom <= 2,
        decreases parties.len() - p,
    {
        let entry = make_entry(parties[p], p, rank, divisor, Ghost(method), Ghost(votes));
        let ghost before = matrix@;
        insert_entry(matrix, entry, Ghost(method), Ghost(votes));
        proof {
            let pos = choose|pos: int|
                0 <= pos <= before.len() && matrix@ == #[trigger] before.insert(pos, entry);
            assert(keys(matrix@) =~= keys(before).insert(pos, entry.key()));
            to_multiset_insert(keys(before), pos, entry.key());
            let sofar = earlier + this_row.take(p as int);
            assert(earlier + this_row.take(p + 1) =~= sofar.push(entry.key()));
            to_multiset_build(sofar, entry.key());
        }
        p += 1;
    }
    proof {
        assert(this_row.take(p as int) =~= this_row);
        let all = candidates(votes.len(), (rank + 1) as nat);
        assert(all == earlier + this_row);
        lemma_order_total(method, votes);
        all.lemma_sort_by_ensures(order(method, votes));
        lemma_sorted_unique(keys(matrix@), all.sort_by(order(method, votes)), order(method, votes));
    }
}

} // verus!
