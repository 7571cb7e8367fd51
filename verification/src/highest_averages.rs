//! The highest-averages method: divisor sequences, the ranking of the
//! quotients, and the allocation of seats to the best-ranked of them.

use vstd::prelude::*;
use vstd::relations::total_ordering;
use crate::rational::{divides, reduce, scale, Fraction, Rat, lemma_above_transitive};
use crate::table::{fill_row, keys, table_ok, Entry};
use crate::{AllocateSeats, AllocationError};

verus! {

/// The method that fixes the sequence of divisors.
#[derive(Clone, Copy, Debug, PartialEq, Eq, Structural)]
pub enum Method {
    DHondt,
    SainteLague,
    Imperiali,
    HuntingtonHill,
    Danish,
}

/// The highest divisor rank, and so the highest seat count, that is
/// worked with: every divisor up to it fits a signed 64-bit integer.
pub const MAX_RANK: u64 = 3_000_000_000;

/// The highest vote count that is worked with: twice as much still fits
/// a signed 64-bit integer.
pub const MAX_VOTES: u64 = 4_611_686_018_427_387_903;

/// The divisor of `method` at `rank`, counted from zero.
///
/// The divisors of Huntington-Hill are negative: `-(rank + 1)(rank + 2)`.
pub open spec fn divisor(method: Method, rank: nat) -> Rat {
    match method {
        Method::DHondt => Rat { num: (rank + 1) as int, den: 1 },
        Method::SainteLague => Rat { num: (2 * rank + 1) as int, den: 1 },
        Method::Imperiali => Rat { num: (rank + 2) as int, den: 2 },
        Method::HuntingtonHill => Rat { num: -((rank + 1) * (rank + 2)), den: 1 },
        Method::Danish => Rat { num: (3 * rank + 1) as int, den: 1 },
    }
}

/// The divisor of `method` at `rank` with numerator and denominator in
/// lowest terms: every second divisor of Imperiali is a whole number.
pub open spec fn divisor_reduced(method: Method, rank: nat) -> Rat {
    let d = divisor(method, rank);
    if d.den == 2 && d.num % 2 == 0 {
        Rat { num: d.num / 2, den: 1 }
    } else {
        d
    }
}

/// Every divisor is well formed and not zero; all but those of
/// Huntington-Hill are positive.
pub proof fn lemma_divisor_sign(method: Method, rank: nat)
    ensures
        divisor(method, rank).wf(),
        divisor(method, rank).num != 0,
        method != Method::HuntingtonHill ==> divisor(method, rank).num > 0,
        method == Method::HuntingtonHill ==> divisor(method, rank).num < 0,
{
    assert((rank + 1) * (rank + 2) > 0) by (nonlinear_arith);
}

/// The divisor of `method` at `rank`, in lowest terms.
pub fn divisor_at(method: Method, rank: u64) -> (f: Fraction)
    requires
        rank <= MAX_RANK,
    ensures
        f.wf(),
        f@ == divisor_reduced(method, rank as nat),
        f@.same(divisor(method, rank as nat)),
        f.numer != 0,
        f.numer > i64::MIN,
        f.denom <= 2,
{
    let i: i64 = rank as i64;
    match method {
        Method::DHondt => integer(i + 1),
        Method::SainteLague => integer(i * 2 + 1),
        Method::Imperiali => {
            let f = reduce(i + 2, 2);
            proof {
                if f.denom == 1 {
                    assert(f.numer * 2 == i + 2) by (nonlinear_arith)
                        requires
                            f.numer * 2 == (i + 2) * f.denom,
                            f.denom == 1,
                    ;
                } else {
                    assert(f.numer == i + 2) by (nonlinear_arith)
                        requires
                            f.numer * 2 == (i + 2) * f.denom,
                            f.denom == 2,
                    ;
                    assert(divides(2, 2));
                    assert(!divides(2, f.numer as int));
                }
            }
            f
        },
        Method::HuntingtonHill => {
            assert(0 < (i + 1) * (i + 2) <= 9_000_000_009_000_000_002) by (nonlinear_arith)
                requires
                    0 <= i <= 3_000_000_000,
            ;
            let product = integer((i + 1) * (i + 2));
            let f = scale(product, -1);
            assert(f.numer == -product.numer) by (nonlinear_arith)
                requires
                    f.numer * 1 == (product.numer * -1) * f.denom,
                    f.denom == 1,
            ;
            f
        },
        Method::Danish => integer(i * 3 + 1),
    }
}

/// The integer `n` as a fraction in lowest terms.
fn integer(n: i64) -> (f: Fraction)
    requires
        n > i64::MIN,
    ensures
        f.wf(),
        f.numer == n,
        f.denom == 1,
{
    let f = reduce(n, 1);
    assert(f.numer == n) by (nonlinear_arith)
        requires
            f.numer * 1 == n * f.denom,
            f.denom == 1,
    ;
    f
}

/// The divisors of one method, rank after rank.
pub struct Divisors {
    method: Method,
    idx: u64,
}

impl Divisors {
    pub closed spec fn method(&self) -> Method {
        self.method
    }

    /// The rank of the divisor that comes next.
    pub closed spec fn rank(&self) -> nat {
        self.idx as nat
    }

    /// The rank of the divisor that comes next.
    pub fn next_rank(&self) -> (r: u64)
        ensures
            r == self.rank(),
    {
        self.idx
    }

    /// Hands out the divisor at the current rank and moves on to the next.
    /// The sequence has no end; the machine's integers carry it up to
    /// `MAX_RANK`.
    pub fn next(&mut self) -> (result: Option<Fraction>)
        requires
            old(self).rank() <= MAX_RANK,
        ensures
            final(self).rank() == old(self).rank() + 1,
            final(self).method() == old(self).method(),
            result matches Some(f) && f.wf() && f@ == divisor_reduced(
                old(self).method(),
                old(self).rank(),
            ) && f@.same(divisor(old(self).method(), old(self).rank())) && f.numer != 0 && f.numer
                > i64::MIN && f.denom <= 2,
    {
        let f = divisor_at(self.method, self.idx);
        self.idx = self.idx + 1;
        Some(f)
    }
}

/// The highest-averages method, or divisor method, of seat allocation.
pub struct HighestAverages {
    method: Method,
}

impl HighestAverages {
    pub closed spec fn method(&self) -> Method {
        self.method
    }

    pub fn new(method: Method) -> (allocator: HighestAverages)
        ensures
            allocator.method() == method,
    {
        HighestAverages { method: method }
    }

    /// The divisors of this allocator's method, from rank zero.
    pub fn divisors(&self) -> (d: Divisors)
        ensures
            d.method() == self.method(),
            d.rank() == 0,
    {
        Divisors { method: self.method, idx: 0 }
    }
}

/// One quotient of the table: that of `party` at divisor rank `rank`.
pub struct Candidate {
    pub party: nat,
    pub rank: nat,
}

/// The votes of `party`; a party that is not on the list has none.
pub open spec fn votes_of(votes: Seq<usize>, party: nat) -> int {
    if party < votes.len() {
        votes[party as int] as int
    } else {
        0
    }
}

/// The quotient of a candidate: its party's votes over the divisor at its rank.
pub open spec fn quotient(method: Method, votes: Seq<usize>, c: Candidate) -> Rat {
    Rat::whole(votes_of(votes, c.party)).over(divisor(method, c.rank))
}

/// `a` was entered in the table no later than `b`: the table is filled rank
/// by rank, and each rank party by party.
pub open spec fn entered_before(a: Candidate, b: Candidate) -> bool {
    a.rank < b.rank || (a.rank == b.rank && a.party <= b.party)
}

/// `a` comes no later than `b` in the ranking: the larger quotient first,
/// and of two equal quotients the one of lower rank, then of lower party
/// index.
pub open spec fn ranks_before(method: Method, votes: Seq<usize>, a: Candidate, b: Candidate) -> bool {
    let qa = quotient(method, votes, a);
    let qb = quotient(method, votes, b);
    qa.above(qb) || (qa.same(qb) && entered_before(a, b))
}

/// The order of the ranking as a relation.
pub open spec fn order(method: Method, votes: Seq<usize>) -> spec_fn(Candidate, Candidate) -> bool {
    |a: Candidate, b: Candidate| ranks_before(method, votes, a, b)
}

pub proof fn lemma_quotient_wf(method: Method, votes: Seq<usize>, c: Candidate)
    ensures
        quotient(method, votes, c).wf(),
{
    lemma_divisor_sign(method, c.rank);
}

/// The ranking is transitive.
pub proof fn lemma_ranks_before_transitive(
    method: Method,
    votes: Seq<usize>,
    a: Candidate,
    b: Candidate,
    c: Candidate,
)
    requires
        ranks_before(method, votes, a, b),
        ranks_before(method, votes, b, c),
    ensures
        ranks_before(method, votes, a, c),
{
    lemma_quotient_wf(method, votes, a);
    lemma_quotient_wf(method, votes, b);
    lemma_quotient_wf(method, votes, c);
    lemma_above_transitive(
        quotient(method, votes, a),
        quotient(method, votes, b),
        quotient(method, votes, c),
    );
}

/// The ranking is a total order of the candidates: no two share a place.
pub proof fn lemma_order_total(method: Method, votes: Seq<usize>)
    ensures
        total_ordering(order(method, votes)),
{
    let r = order(method, votes);
    assert forall|x: Candidate, y: Candidate, z: Candidate| #[trigger]
        r(x, y) && #[trigger] r(y, z) implies r(x, z) by {
        lemma_ranks_before_transitive(method, votes, x, y, z);
    }
    assert forall|x: Candidate, y: Candidate| #[trigger] r(x, y) && #[trigger] r(y, x) implies x
        == y by {
        assert(x.rank == y.rank && x.party == y.party);
    }
}

/// The candidates of one rank, in the order of the parties.
pub open spec fn row(parties: nat, rank: nat) -> Seq<Candidate> {
    Seq::new(parties, |p: int| Candidate { party: p as nat, rank: rank })
}

/// The candidates of the first `rows` ranks, in the order in which the table is filled.
pub open spec fn candidates(parties: nat, rows: nat) -> Seq<Candidate>
    decreases rows,
{
    if rows == 0 {
        Seq::empty()
    } else {
        candidates(parties, (rows - 1) as nat) + row(parties, (rows - 1) as nat)
    }
}

/// The candidates of the first `rows` ranks, best first.
pub open spec fn ranking(method: Method, votes: Seq<usize>, rows: nat) -> Seq<Candidate> {
    candidates(votes.len(), rows).sort_by(order(method, votes))
}

/// With the table filled up to `rank`, there are enough candidates and
/// none of the best `nb_seats` comes from the newest rank.
pub open spec fn settled(method: Method, votes: Seq<usize>, nb_seats: nat, rank: nat) -> bool {
    let r = ranking(method, votes, rank + 1);
    nb_seats <= r.len() && forall|i: int| 0 <= i < nb_seats ==> (#[trigger] r[i]).rank != rank
}

/// The first rank from `from` up to `nb_seats` at which the ranking is settled.
pub open spec fn first_settled(method: Method, votes: Seq<usize>, nb_seats: nat, from: nat) -> Option<
    nat,
>
    decreases nb_seats + 1 - from,
{
    if from > nb_seats {
        None
    } else if settled(method, votes, nb_seats, from) {
        Some(from)
    } else {
        first_settled(method, votes, nb_seats, from + 1)
    }
}

/// How many of `winners` belong to `party`.
pub open spec fn seats_won(winners: Seq<Candidate>, party: nat) -> nat
    decreases winners.len(),
{
    if winners.len() == 0 {
        0
    } else {
        seats_won(winners.drop_last(), party) + if winners.last().party == party {
            1nat
        } else {
            0nat
        }
    }
}

/// The seats of each party: the table is filled up to the first settled
/// rank, and each of the best `nb_seats` candidates brings its party a
/// seat. There is none where no rank up to `nb_seats` is settled.
pub open spec fn allocation(method: Method, votes: Seq<usize>, nb_seats: nat) -> Option<Seq<nat>> {
    match first_settled(method, votes, nb_seats, 0) {
        None => None,
        Some(rank) => Some(
            Seq::new(
                votes.len(),
                |p: int|
                    seats_won(ranking(method, votes, rank + 1).take(nb_seats as int), p as nat),
            ),
        ),
    }
}

/// The sum of a seat vector.
pub open spec fn total_seats(seats: Seq<usize>) -> nat
    decreases seats.len(),
{
    if seats.len() == 0 {
        0
    } else {
        total_seats(seats.drop_last()) + seats.last() as nat
    }
}

/// The seat count and every vote count are within what is worked with.
pub open spec fn in_range(votes: Seq<usize>, nb_seats: nat) -> bool {
    nb_seats <= MAX_RANK && forall|p: int| 0 <= p < votes.len() ==> #[trigger] votes[p] <= MAX_VOTES
}

/// What an allocation of `nb_seats` seats on `votes` comes to.
pub open spec fn outcome(method: Method, votes: Seq<usize>, nb_seats: nat) -> Result<
    Seq<nat>,
    AllocationError,
> {
    if nb_seats == 0 {
        Ok(Seq::new(votes.len(), |p: int| 0nat))
    } else if votes.len() == 0 {
        Err(AllocationError::InvalidInput)
    } else if !in_range(votes, nb_seats) {
        Err(AllocationError::OutOfRange)
    } else {
        match allocation(method, votes, nb_seats) {
            None => Err(AllocationError::Unsettled),
            Some(seats) => Ok(seats),
        }
    }
}

/// A seat vector as a sequence of natural numbers.
pub open spec fn seat_counts(seats: Seq<usize>) -> Seq<nat> {
    seats.map_values(|s: usize| s as nat)
}

/// The first settled rank is `rank` when no rank from `from` up to it is settled.
pub proof fn lemma_first_settled(
    method: Method,
    votes: Seq<usize>,
    nb_seats: nat,
    from: nat,
    rank: nat,
)
    requires
        from <= rank <= nb_seats,
        forall|r: nat| from <= r < rank ==> !settled(method, votes, nb_seats, r),
        settled(method, votes, nb_seats, rank),
    ensures
        first_settled(method, votes, nb_seats, from) == Some(rank),
    decreases rank - from,
{
    if from < rank {
        lemma_first_settled(method, votes, nb_seats, from + 1, rank);
    }
}

/// There is no first settled rank when no rank from `from` up to `nb_seats` is settled.
pub proof fn lemma_none_settled(method: Method, votes: Seq<usize>, nb_seats: nat, from: nat)
    requires
        forall|r: nat| from <= r <= nb_seats ==> !settled(method, votes, nb_seats, r),
    ensures
        first_settled(method, votes, nb_seats, from) == None::<nat>,
    decreases nb_seats + 1 - from,
{
    if from <= nb_seats {
        lemma_none_settled(method, votes, nb_seats, from + 1);
    }
}

/// Changing one entry of a seat vector changes its sum by as much.
pub proof fn lemma_total_update(seats: Seq<usize>, p: int, v: usize)
    requires
        0 <= p < seats.len(),
    ensures
        total_seats(seats.update(p, v)) == total_seats(seats) - seats[p] + v,
    decreases seats.len(),
{
    let changed = seats.update(p, v);
    if p == seats.len() - 1 {
        assert(changed.drop_last() =~= seats.drop_last());
    } else {
        assert(changed.drop_last() =~= seats.drop_last().update(p, v));
        lemma_total_update(seats.drop_last(), p, v);
    }
}

/// A vector of `n` zeros.
fn zeros(n: usize) -> (seats: Vec<usize>)
    ensures
        seats@.len() == n,
        forall|p: int| 0 <= p < n ==> seats@[p] == 0,
        total_seats(seats@) == 0,
{
    let mut seats: Vec<usize> = Vec::new();
    while seats.len() < n
        invariant
            seats@.len() <= n,
            forall|p: int| 0 <= p < seats@.len() ==> seats@[p] == 0,
            total_seats(seats@) == 0,
        decreases n - seats@.len(),
    {
        let ghost before = seats@;
        seats.push(0);
        assert(seats@.drop_last() =~= before);
    }
    seats
}

/// Whether every vote count is within what is worked with.
fn votes_in_range(parties: &Vec<usize>) -> (ok: bool)
    ensures
        ok == forall|p: int| 0 <= p < parties@.len() ==> #[trigger] parties@[p] <= MAX_VOTES,
{
    let mut p: usize = 0;
    while p < parties.len()
        invariant
            p <= parties.len(),
            forall|q: int| 0 <= q < p ==> #[trigger] parties@[q] <= MAX_VOTES,
        decreases parties.len() - p,
    {
        if parties[p] as u64 > MAX_VOTES {
            return false;
        }
        p += 1;
    }
    true
}

/// Whether one of the best `nb_seats` entries is of rank `rank`.
fn newest_row_wins(matrix: &Vec<Entry>, nb_seats: usize, rank: u64) -> (wins: bool)
    requires
        nb_seats <= matrix@.len(),
    ensures
        wins == !(forall|i: int| 0 <= i < nb_seats ==> (#[trigger] matrix@[i]).rank != rank),
{
    let mut i: usize = 0;
    while i < nb_seats
        invariant
            i <= nb_seats <= matrix@.len(),
            forall|j: int| 0 <= j < i ==> (#[trigger] matrix@[j]).rank != rank,
        decreases nb_seats - i,
    {
        if matrix[i].rank == rank {
            return true;
        }
        i += 1;
    }
    false
}

/// Counts, for each party, its entries among the best `nb_seats`.
fn count_seats(matrix: &Vec<Entry>, nb_seats: usize, n_parties: usize) -> (seats: Vec<usize>)
    requires
        nb_seats <= matrix@.len(),
        forall|j: int| 0 <= j < matrix@.len() ==> (#[trigger] matrix@[j]).party < n_parties,
    ensures
        seats@.len() == n_parties,
        forall|p: int|
            0 <= p < n_parties ==> #[trigger] seats@[p] == seats_won(
                keys(matrix@).take(nb_seats as int),
                p as nat,
            ),
        total_seats(seats@) == nb_seats,
{
    let mut seats = zeros(n_parties);
    let ghost winners = keys(matrix@).take(nb_seats as int);
    let mut i: usize = 0;
    while i < nb_seats
        invariant
            i <= nb_seats <= matrix@.len(),
            seats@.len() == n_parties,
            winners == keys(matrix@).take(nb_seats as int),
            forall|j: int| 0 <= j < matrix@.len() ==> (#[trigger] matrix@[j]).party < n_parties,
            forall|p: int|
                0 <= p < n_parties ==> #[trigger] seats@[p] == seats_won(
                    winners.take(i as int),
                    p as nat,
                ) && seats@[p] <= i,
            total_seats(seats@) == i,
        decreases nb_seats - i,
    {
        let party: usize = matrix[i].party;
        let ghost before = seats@;
        let won: usize = seats[party];
        seats.set(party, won + 1);
        proof {
            lemma_total_update(before, party as int, (won + 1) as usize);
            assert(winners.take(i + 1).drop_last() =~= winners.take(i as int));
            assert(winners.take(i + 1).last() == matrix@[i as int].key());
        }
        i += 1;
    }
    assert(winners.take(nb_seats as int) =~= winners);
    seats
}

impl AllocateSeats for HighestAverages {
    /// Fills the table of quotients rank by rank until the ranking is
    /// settled, and gives each party as many seats as it has entries among
    /// the best `nb_seats`. No seats are handed out without filling the
    /// table; seats for no party are `InvalidInput`; a seat count above
    /// `MAX_RANK` or a vote count above `MAX_VOTES` is `OutOfRange`; and
    /// where no rank up to `nb_seats` settles the ranking, the result is
    /// `Unsettled`.
    fn allocate_seats(&self, nb_seats: usize, parties: Vec<usize>) -> (result: Result<
        Vec<usize>,
        AllocationError,
    >)
        ensures
            match result {
                Ok(seats) => outcome(self.method(), parties@, nb_seats as nat) == Ok::<
                    Seq<nat>,
                    AllocationError,
                >(seat_counts(seats@)),
                Err(e) => outcome(self.method(), parties@, nb_seats as nat) == Err::<
                    Seq<nat>,
                    AllocationError,
                >(e),
            },
    {
        let n_parties: usize = parties.len();
        let ghost votes = parties@;
        let ghost method = self.method;
        if nb_seats == 0 {
            let seats = zeros(n_parties);
            assert(seat_counts(seats@) =~= Seq::new(votes.len(), |p: int| 0nat));
            return Ok(seats);
        }
        if n_parties == 0 {
            return Err(AllocationError::InvalidInput);
        }
        if nb_seats as u64 > MAX_RANK || !votes_in_range(&parties) {
            return Err(AllocationError::OutOfRange);
        }
        let mut matrix: Vec<Entry> = Vec::new();
        let mut divisors = self.divisors();
        let mut rank: u64 = 0;
        assert(keys(matrix@) =~= candidates(votes.len(), 0));
        loop
            invariant_except_break
                table_ok(matrix@, method, votes, rank as nat),
                divisors.rank() == rank,
            invariant
                0 < nb_seats <= MAX_RANK,
                rank <= nb_seats,
                divisors.method() == method,
                method == self.method(),
                votes == parties@,
                0 < n_parties == parties@.len(),
                forall|p: int| 0 <= p < parties@.len() ==> #[trigger] parties@[p] <= MAX_VOTES,
                forall|r: nat| r < rank ==> !settled(method, votes, nb_seats as nat, r),
            ensures
                table_ok(matrix@, method, votes, (rank + 1) as nat),
                keys(matrix@) == ranking(method, votes, (rank + 1) as nat),
                settled(method, votes, nb_seats as nat, rank as nat),
                nb_seats <= matrix@.len(),
            decreases nb_seats - rank,
        {
            let divisor = divisors.next().unwrap();
            fill_row(&mut matrix, &parties, divisor, rank, Ghost(method));
            let ghost sorted = ranking(method, votes, (rank + 1) as nat);
            assert(forall|i: int|
                0 <= i < matrix@.len() ==> (#[trigger] sorted[i]).rank == matrix@[i].rank);
            if matrix.len() >= nb_seats && !newest_row_wins(&matrix, nb_seats, rank) {
                assert forall|i: int| 0 <= i < nb_seats implies (#[trigger] sorted[i]).rank
                    != rank by {
                    assert(matrix@[i].rank != rank);
                }
                break ;
            }
            proof {
                if matrix@.len() >= nb_seats {
                    let i = choose|i: int| 0 <= i < nb_seats && (#[trigger] matrix@[i]).rank == rank;
                    assert(sorted[i].rank == rank);
                }
                assert(!settled(method, votes, nb_seats as nat, rank as nat));
            }
            if rank == nb_seats as u64 {
                proof {
                    lemma_none_settled(method, votes, nb_seats as nat, 0);
                }
                return Err(AllocationError::Unsettled);
            }
            rank += 1;
        }
        let seats = count_seats(&matrix, nb_seats, n_parties);
        proof {
            lemma_first_settled(method, votes, nb_seats as nat, 0, rank as nat);
            assert(seat_counts(seats@) =~= allocation(method, votes, nb_seats as nat).unwrap());
        }
        Ok(seats)
    }
}

} // verus!
