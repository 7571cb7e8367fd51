//! Counting the winners of each party: the seats add up to the seat count,
//! and more votes never cost a party seats.

use vstd::prelude::*;
use crate::highest_averages::{
    allocation, candidates, divisor, first_settled, lemma_divisor_sign, order, quotient, ranking,
    ranks_before, row, seats_won, settled, votes_of, Candidate, Method,
};
use crate::theorems::{
    candidate, lemma_allocation_exists, lemma_candidates, lemma_lower_rank_first, lemma_ranking,
};

verus! {

/// `more` is `votes` with the votes of `party` raised, or left as they are.
pub open spec fn raised(votes: Seq<usize>, more: Seq<usize>, party: nat) -> bool {
    &&& more.len() == votes.len()
    &&& party < votes.len()
    &&& more[party as int] >= votes[party as int]
    &&& forall|q: int| 0 <= q < votes.len() && q != party ==> #[trigger] more[q] == votes[q]
}

/// The seats that `winners` bring the first `parties` parties together.
pub open spec fn total_won(winners: Seq<Candidate>, parties: nat) -> nat
    decreases parties,
{
    if parties == 0 {
        0
    } else {
        total_won(winners, (parties - 1) as nat) + seats_won(winners, (parties - 1) as nat)
    }
}

/// No candidate is in the table twice.
pub proof fn lemma_candidates_distinct(parties: nat, rows: nat)
    ensures
        candidates(parties, rows).no_duplicates(),
    decreases rows,
{
    if rows > 0 {
        let earlier = candidates(parties, (rows - 1) as nat);
        let newest = row(parties, (rows - 1) as nat);
        let all = candidates(parties, rows);
        lemma_candidates_distinct(parties, (rows - 1) as nat);
        lemma_candidates(parties, (rows - 1) as nat);
        assert forall|i: int, j: int| 0 <= i < j < all.len() implies all[i] != all[j] by {
            if j < earlier.len() {
                assert(earlier[i] != earlier[j]);
            } else if i < earlier.len() {
                assert(earlier.contains(earlier[i]));
                assert(all[j] == newest[j - earlier.len()]);
            } else {
                assert(all[i] == newest[i - earlier.len()]);
                assert(all[j] == newest[j - earlier.len()]);
            }
        }
    }
}

/// No candidate is in the ranking twice.
pub proof fn lemma_ranking_distinct(method: Method, votes: Seq<usize>, rows: nat)
    ensures
        ranking(method, votes, rows).no_duplicates(),
{
    let all = candidates(votes.len(), rows);
    lemma_candidates_distinct(votes.len(), rows);
    lemma_ranking(method, votes, rows);
    all.lemma_multiset_has_no_duplicates();
    ranking(method, votes, rows).lemma_multiset_has_no_duplicates_conv();
}

/// With positive divisors, the best `i` candidates hold of each party the
/// ranks below its number of seats among them, and no others.
pub proof fn lemma_winners_by_rank(method: Method, votes: Seq<usize>, rows: nat, i: int)
    requires
        method != Method::HuntingtonHill,
        0 <= i <= ranking(method, votes, rows).len(),
    ensures
        forall|c: Candidate| #[trigger]
            ranking(method, votes, rows).take(i).contains(c) <==> c.rank < seats_won(
                ranking(method, votes, rows).take(i),
                c.party,
            ),
    decreases i,
{
    let sorted = ranking(method, votes, rows);
    let now = sorted.take(i);
    if i == 0 {
        assert forall|c: Candidate| #[trigger] now.contains(c) <==> c.rank < seats_won(
            now,
            c.party,
        ) by {}
    } else {
        let prev = sorted.take(i - 1);
        let e = sorted[i - 1];
        let won = seats_won(prev, e.party);
        lemma_winners_by_rank(method, votes, rows, i - 1);
        lemma_ranking(method, votes, rows);
        lemma_ranking_distinct(method, votes, rows);
        assert(now.drop_last() =~= prev);
        assert(now.last() == e);
        assert(sorted.contains(e));
        if prev.contains(e) {
            let j = choose|j: int| 0 <= j < prev.len() && prev[j] == e;
            assert(sorted[j] == sorted[i - 1]);
        }
        assert(e.rank >= won);
        if e.rank > 0 {
            let below = candidate(e.party, (e.rank - 1) as nat);
            assert(sorted.contains(below));
            let j = choose|j: int| 0 <= j < sorted.len() && sorted[j] == below;
            lemma_lower_rank_first(method, votes, e.party, (e.rank - 1) as nat, e.rank);
            assert(e == candidate(e.party, e.rank));
            if j > i - 1 {
                assert(order(method, votes)(sorted[i - 1], sorted[j]));
            }
            assert(prev[j] == below);
            assert(prev.contains(below));
        }
        assert(e.rank == won);
        assert forall|c: Candidate| #[trigger] now.contains(c) <==> c.rank < seats_won(
            now,
            c.party,
        ) by {
            if now.contains(c) {
                let j = choose|j: int| 0 <= j < now.len() && now[j] == c;
                if j < i - 1 {
                    assert(prev[j] == c);
                    assert(prev.contains(c));
                }
            }
            if prev.contains(c) {
                let j = choose|j: int| 0 <= j < prev.len() && prev[j] == c;
                assert(now[j] == c);
            }
            if c == e {
                assert(now[i - 1] == c);
            }
        }
    }
}

/// One more winner of a listed party is one more seat in all.
pub proof fn lemma_total_won_step(winners: Seq<Candidate>, parties: nat)
    requires
        winners.len() > 0,
    ensures
        total_won(winners, parties) == total_won(winners.drop_last(), parties) + if winners.last().party
            < parties {
            1nat
        } else {
            0nat
        },
    decreases parties,
{
    if parties > 0 {
        lemma_total_won_step(winners, (parties - 1) as nat);
    }
}

/// Winners of listed parties bring as many seats as there are winners.
pub proof fn lemma_total_won(winners: Seq<Candidate>, parties: nat)
    requires
        forall|i: int| 0 <= i < winners.len() ==> (#[trigger] winners[i]).party < parties,
    ensures
        total_won(winners, parties) == winners.len(),
    decreases winners.len(),
{
    if winners.len() == 0 {
        lemma_total_won_none(winners, parties);
    } else {
        lemma_total_won_step(winners, parties);
        lemma_total_won(winners.drop_last(), parties);
    }
}

proof fn lemma_total_won_none(winners: Seq<Candidate>, parties: nat)
    requires
        winners.len() == 0,
    ensures
        total_won(winners, parties) == 0,
    decreases parties,
{
    if parties > 0 {
        lemma_total_won_none(winners, (parties - 1) as nat);
    }
}

/// Where no party among the first `parties` gains a seat from `a` to `b`,
/// their seats together do not grow, and shrink if `loser` is among them
/// and lost one.
pub proof fn lemma_total_won_compare(
    a: Seq<Candidate>,
    b: Seq<Candidate>,
    parties: nat,
    loser: nat,
)
    requires
        forall|q: nat| q < parties ==> seats_won(b, q) <= seats_won(a, q),
        seats_won(b, loser) < seats_won(a, loser),
    ensures
        total_won(b, parties) <= total_won(a, parties),
        loser < parties ==> total_won(b, parties) < total_won(a, parties),
    decreases parties,
{
    if parties > 0 {
        lemma_total_won_compare(a, b, (parties - 1) as nat, loser);
    }
}

/// The first settled rank is settled, and no higher than the seat count.
pub proof fn lemma_first_settled_is_settled(
    method: Method,
    votes: Seq<usize>,
    nb_seats: nat,
    from: nat,
)
    requires
        first_settled(method, votes, nb_seats, from) is Some,
    ensures
        settled(method, votes, nb_seats, first_settled(method, votes, nb_seats, from).unwrap()),
        from <= first_settled(method, votes, nb_seats, from).unwrap() <= nb_seats,
    decreases nb_seats + 1 - from,
{
    if from <= nb_seats && !settled(method, votes, nb_seats, from) {
        lemma_first_settled_is_settled(method, votes, nb_seats, from + 1);
    }
}

/// With positive divisors, raising the votes of a party keeps each of
/// its candidates ahead of every candidate of another party that it
/// was ahead of.
pub proof fn lemma_raised_stays_ahead(
    method: Method,
    votes: Seq<usize>,
    more: Seq<usize>,
    party: nat,
    a: Candidate,
    b: Candidate,
)
    requires
        method != Method::HuntingtonHill,
        raised(votes, more, party),
        a.party == party,
        b.party != party,
        ranks_before(method, votes, a, b),
    ensures
        ranks_before(method, more, a, b),
        !ranks_before(method, more, b, a),
{
    let da = divisor(method, a.rank);
    let db = divisor(method, b.rank);
    lemma_divisor_sign(method, a.rank);
    lemma_divisor_sign(method, b.rank);
    let va = votes_of(votes, a.party);
    let wa = votes_of(more, a.party);
    let vb = votes_of(votes, b.party);
    assert(votes_of(more, b.party) == vb) by {
        if b.party < votes.len() {
            assert(more[b.party as int] == votes[b.party as int]);
        }
    }
    assert(wa >= va);
    let old_left = (va * da.den) * (1 * db.num);
    let new_left = (wa * da.den) * (1 * db.num);
    let right = (vb * db.den) * (1 * da.num);
    assert(new_left >= old_left) by (nonlinear_arith)
        requires
            wa >= va,
            da.den > 0,
            db.num > 0,
            old_left == (va * da.den) * (1 * db.num),
            new_left == (wa * da.den) * (1 * db.num),
    ;
    assert(quotient(method, votes, a).above(quotient(method, votes, b)) == (old_left > right));
    assert(quotient(method, more, a).above(quotient(method, more, b)) == (new_left > right));
    assert(quotient(method, more, b).above(quotient(method, more, a)) == (right > new_left));
}

/// With positive divisors, where the ranking is settled at `rank` no
/// party has more than `rank` of the best `nb_seats` candidates.
pub proof fn lemma_seats_below_settled_rank(
    method: Method,
    votes: Seq<usize>,
    nb_seats: nat,
    rank: nat,
    party: nat,
)
    requires
        method != Method::HuntingtonHill,
        settled(method, votes, nb_seats, rank),
    ensures
        seats_won(ranking(method, votes, rank + 1).take(nb_seats as int), party) <= rank,
{
    let sorted = ranking(method, votes, rank + 1);
    let best = sorted.take(nb_seats as int);
    if seats_won(best, party) > rank {
        let c = candidate(party, rank);
        lemma_winners_by_rank(method, votes, rank + 1, nb_seats as int);
        assert(best.contains(c));
        let i = choose|i: int| 0 <= i < best.len() && best[i] == c;
        assert(sorted[i].rank == rank);
    }
}

/// Monotonicity: with any method but Huntington-Hill, raising the votes
/// of one party while the others keep theirs never costs that party a seat.
pub proof fn lemma_more_votes_no_fewer_seats(
    method: Method,
    votes: Seq<usize>,
    more: Seq<usize>,
    party: nat,
    nb_seats: nat,
)
    requires
        method != Method::HuntingtonHill,
        raised(votes, more, party),
    ensures
        allocation(method, votes, nb_seats) is Some,
        allocation(method, more, nb_seats) is Some,
        allocation(method, more, nb_seats).unwrap()[party as int] >= allocation(
            method,
            votes,
            nb_seats,
        ).unwrap()[party as int],
{
    lemma_allocation_exists(method, votes, nb_seats);
    lemma_allocation_exists(method, more, nb_seats);
    lemma_first_settled_is_settled(method, votes, nb_seats, 0);
    lemma_first_settled_is_settled(method, more, nb_seats, 0);
    let r1 = first_settled(method, votes, nb_seats, 0).unwrap();
    let r2 = first_settled(method, more, nb_seats, 0).unwrap();
    let s1 = ranking(method, votes, r1 + 1);
    let s2 = ranking(method, more, r2 + 1);
    let t1 = s1.take(nb_seats as int);
    let t2 = s2.take(nb_seats as int);
    let parties = votes.len();
    assert(allocation(method, votes, nb_seats).unwrap()[party as int] == seats_won(t1, party));
    assert(allocation(method, more, nb_seats).unwrap()[party as int] == seats_won(t2, party));
    if seats_won(t2, party) < seats_won(t1, party) {
        lemma_ranking(method, votes, r1 + 1);
        lemma_ranking(method, more, r2 + 1);
        assert forall|i: int| 0 <= i < t1.len() implies (#[trigger] t1[i]).party < parties by {
            assert(s1.contains(s1[i]));
        }
        assert forall|i: int| 0 <= i < t2.len() implies (#[trigger] t2[i]).party < parties by {
            assert(s2.contains(s2[i]));
        }
        lemma_total_won(t1, parties);
        lemma_total_won(t2, parties);
        if forall|q: nat| q < parties ==> seats_won(t2, q) <= seats_won(t1, q) {
            lemma_total_won_compare(t1, t2, parties, party);
        }
        let q = choose|q: nat| q < parties && seats_won(t2, q) > seats_won(t1, q);
        let x = candidate(party, seats_won(t2, party));
        let y = candidate(q, seats_won(t1, q));
        lemma_winners_by_rank(method, votes, r1 + 1, nb_seats as int);
        lemma_winners_by_rank(method, more, r2 + 1, nb_seats as int);
        assert(t1.contains(x));
        assert(!t1.contains(y));
        assert(t2.contains(y));
        assert(!t2.contains(x));
        lemma_seats_below_settled_rank(method, votes, nb_seats, r1, q);
        lemma_seats_below_settled_rank(method, more, nb_seats, r2, party);
        assert(s1.contains(y));
        assert(s2.contains(x));
        let ix = choose|i: int| 0 <= i < t1.len() && t1[i] == x;
        let jy = choose|j: int| 0 <= j < s1.len() && s1[j] == y;
        if jy < nb_seats {
            assert(t1[jy] == y);
        }
        assert(order(method, votes)(s1[ix], s1[jy]));
        let iy = choose|i: int| 0 <= i < t2.len() && t2[i] == y;
        let jx = choose|j: int| 0 <= j < s2.len() && s2[j] == x;
        if jx < nb_seats {
            assert(t2[jx] == x);
        }
        assert(order(method, more)(s2[iy], s2[jx]));
        lemma_raised_stays_ahead(method, votes, more, party, x, y);
    }
}

/// The sum of a sequence of seat counts.
pub open spec fn seat_sum(seats: Seq<nat>) -> nat
    decreases seats.len(),
{
    if seats.len() == 0 {
        0
    } else {
        seat_sum(seats.drop_last()) + seats.last()
    }
}

proof fn lemma_seat_sum_is_total_won(seats: Seq<nat>, winners: Seq<Candidate>)
    requires
        forall|p: int| 0 <= p < seats.len() ==> #[trigger] seats[p] == seats_won(winners, p as nat),
    ensures
        seat_sum(seats) == total_won(winners, seats.len()),
    decreases seats.len(),
{
    if seats.len() > 0 {
        lemma_seat_sum_is_total_won(seats.drop_last(), winners);
    }
}

/// Every allocation has one entry for each party, and its entries add
/// up to the seat count.
pub proof fn lemma_seats_add_up(method: Method, votes: Seq<usize>, nb_seats: nat)
    requires
        allocation(method, votes, nb_seats) is Some,
    ensures
        allocation(method, votes, nb_seats).unwrap().len() == votes.len(),
        seat_sum(allocation(method, votes, nb_seats).unwrap()) == nb_seats,
{
    lemma_first_settled_is_settled(method, votes, nb_seats, 0);
    let rank = first_settled(method, votes, nb_seats, 0).unwrap();
    let sorted = ranking(method, votes, rank + 1);
    let best = sorted.take(nb_seats as int);
    lemma_ranking(method, votes, rank + 1);
    assert forall|i: int| 0 <= i < best.len() implies (#[trigger] best[i]).party < votes.len() by {
        assert(sorted.contains(sorted[i]));
    }
    lemma_total_won(best, votes.len());
    lemma_seat_sum_is_total_won(allocation(method, votes, nb_seats).unwrap(), best);
}

} // verus!
