//! What holds of every allocation.

use vstd::prelude::*;
use vstd::relations::sorted_by;
use vstd::seq_lib::{to_multiset_contains, to_multiset_len};
use crate::rational::lemma_scaling_keeps_order;
use crate::highest_averages::{
    allocation, candidates, divisor, first_settled, in_range, lemma_divisor_sign,
    lemma_none_settled, lemma_order_total, order, outcome, quotient, ranking, ranks_before, row, settled, votes_of,
    Candidate, Method,
};

verus! {

/// `scaled` holds the votes of `votes`, each multiplied by `factor`.
pub open spec fn scaled_by(scaled: Seq<usize>, votes: Seq<usize>, factor: int) -> bool {
    scaled.len() == votes.len() && forall|p: int|
        0 <= p < votes.len() ==> #[trigger] scaled[p] == factor * votes[p]
}

/// Multiplying every vote count by the same positive factor multiplies
/// the numerator of every quotient by it.
pub proof fn lemma_quotient_scaled(
    method: Method,
    votes: Seq<usize>,
    scaled: Seq<usize>,
    factor: int,
    c: Candidate,
)
    requires
        scaled_by(scaled, votes, factor),
    ensures
        quotient(method, scaled, c) == quotient(method, votes, c).times(factor),
{
    let v = votes_of(votes, c.party);
    let d = divisor(method, c.rank);
    assert(votes_of(scaled, c.party) == factor * v) by {
        if c.party < votes.len() {
            assert(scaled[c.party as int] == factor * votes[c.party as int]);
        } else {
            assert(factor * 0 == 0);
        }
    }
    assert((factor * v) * d.den == factor * (v * d.den)) by (nonlinear_arith);
    assert(-(factor * (v * d.den)) == factor * (-(v * d.den))) by (nonlinear_arith);
}

/// Multiplying every vote count by the same positive factor leaves the
/// ranking of the candidates as it is.
pub proof fn lemma_order_scaled(method: Method, votes: Seq<usize>, scaled: Seq<usize>, factor: int)
    requires
        factor > 0,
        scaled_by(scaled, votes, factor),
    ensures
        order(method, scaled) == order(method, votes),
{
    assert forall|a: Candidate, b: Candidate|
        ranks_before(method, scaled, a, b) == ranks_before(method, votes, a, b) by {
        lemma_quotient_scaled(method, votes, scaled, factor, a);
        lemma_quotient_scaled(method, votes, scaled, factor, b);
        lemma_scaling_keeps_order(
            quotient(method, votes, a),
            quotient(method, votes, b),
            factor,
        );
    }
    assert(order(method, scaled) =~= order(method, votes));
}

proof fn lemma_first_settled_scaled(
    method: Method,
    votes: Seq<usize>,
    scaled: Seq<usize>,
    factor: int,
    nb_seats: nat,
    from: nat,
)
    requires
        factor > 0,
        scaled_by(scaled, votes, factor),
    ensures
        first_settled(method, scaled, nb_seats, from) == first_settled(
            method,
            votes,
            nb_seats,
            from,
        ),
    decreases nb_seats + 1 - from,
{
    lemma_order_scaled(method, votes, scaled, factor);
    if from <= nb_seats {
        assert(ranking(method, scaled, from + 1) == ranking(method, votes, from + 1));
        lemma_first_settled_scaled(method, votes, scaled, factor, nb_seats, from + 1);
    }
}

/// Scale invariance: multiplying every party's votes by the same positive
/// factor does not change the seats. Where the scaled votes are within
/// range, the outcome of the allocation is the same as well.
pub proof fn lemma_scale_invariance(
    method: Method,
    votes: Seq<usize>,
    scaled: Seq<usize>,
    factor: int,
    nb_seats: nat,
)
    requires
        factor > 0,
        scaled_by(scaled, votes, factor),
    ensures
        allocation(method, scaled, nb_seats) == allocation(method, votes, nb_seats),
        in_range(scaled, nb_seats) ==> outcome(method, scaled, nb_seats) == outcome(
            method,
            votes,
            nb_seats,
        ),
{
    lemma_order_scaled(method, votes, scaled, factor);
    lemma_first_settled_scaled(method, votes, scaled, factor, nb_seats, 0);
    match first_settled(method, votes, nb_seats, 0) {
        None => {},
        Some(rank) => {
            assert(ranking(method, scaled, rank + 1) == ranking(method, votes, rank + 1));
            assert(allocation(method, scaled, nb_seats).unwrap() =~= allocation(
                method,
                votes,
                nb_seats,
            ).unwrap());
        },
    }
    if in_range(scaled, nb_seats) {
        assert forall|p: int| 0 <= p < votes.len() implies #[trigger] votes[p]
            <= crate::highest_averages::MAX_VOTES by {
            assert(scaled[p] == factor * votes[p]);
            assert(factor * votes[p] >= votes[p]) by (nonlinear_arith)
                requires
                    factor >= 1,
                    votes[p] >= 0,
            ;
        }
    }
}

/// The candidate of `party` at `rank`.
pub open spec fn candidate(party: nat, rank: nat) -> Candidate {
    Candidate { party: party, rank: rank }
}

/// The table of `rows` ranks holds one candidate for each party and rank.
pub proof fn lemma_candidates(parties: nat, rows: nat)
    ensures
        candidates(parties, rows).len() == rows * parties,
        forall|c: Candidate| #[trigger]
            candidates(parties, rows).contains(c) <==> c.party < parties && c.rank < rows,
    decreases rows,
{
    if rows == 0 {
        assert(0 * parties == 0);
    } else {
        let earlier = candidates(parties, (rows - 1) as nat);
        let newest = row(parties, (rows - 1) as nat);
        let all = candidates(parties, rows);
        lemma_candidates(parties, (rows - 1) as nat);
        assert((rows - 1) * parties + parties == rows * parties) by (nonlinear_arith);
        assert forall|c: Candidate| #[trigger]
            all.contains(c) <==> c.party < parties && c.rank < rows by {
            if all.contains(c) {
                let i = choose|i: int| 0 <= i < all.len() && all[i] == c;
                if i < earlier.len() {
                    assert(earlier[i] == c);
                    assert(earlier.contains(c));
                } else {
                    assert(newest[i - earlier.len()] == c);
                }
            }
            if c.party < parties && c.rank < rows {
                if c.rank < rows - 1 {
                    assert(earlier.contains(c));
                    let i = choose|i: int| 0 <= i < earlier.len() && earlier[i] == c;
                    assert(all[i] == c);
                } else {
                    assert(newest[c.party as int] == c);
                    assert(all[(earlier.len() + c.party) as int] == c);
                }
            }
        }
    }
}

/// The ranking of `rows` ranks is in order, best first, and holds one
/// candidate for each party and rank.
pub proof fn lemma_ranking(method: Method, votes: Seq<usize>, rows: nat)
    ensures
        sorted_by(ranking(method, votes, rows), order(method, votes)),
        ranking(method, votes, rows).to_multiset() == candidates(votes.len(), rows).to_multiset(),
        ranking(method, votes, rows).len() == rows * votes.len(),
        forall|c: Candidate| #[trigger]
            ranking(method, votes, rows).contains(c) <==> c.party < votes.len() && c.rank < rows,
{
    let all = candidates(votes.len(), rows);
    let sorted = ranking(method, votes, rows);
    lemma_order_total(method, votes);
    all.lemma_sort_by_ensures(order(method, votes));
    lemma_candidates(votes.len(), rows);
    to_multiset_len(all);
    to_multiset_len(sorted);
    assert forall|c: Candidate| #[trigger]
        sorted.contains(c) <==> c.party < votes.len() && c.rank < rows by {
        to_multiset_contains(all, c);
        to_multiset_contains(sorted, c);
        assert(all.contains(c) <==> c.party < votes.len() && c.rank < rows);
    }
}

/// The quotients of `party` do not grow with the rank: the divisors are
/// positive, or the party has no votes.
pub open spec fn falling(method: Method, votes: Seq<usize>, party: nat) -> bool {
    method != Method::HuntingtonHill || votes_of(votes, party) == 0
}

/// Where a party's quotients do not grow, its quotient of lower rank comes first.
pub proof fn lemma_lower_rank_first(
    method: Method,
    votes: Seq<usize>,
    party: nat,
    low: nat,
    high: nat,
)
    requires
        falling(method, votes, party),
        low < high,
    ensures
        ranks_before(method, votes, candidate(party, low), candidate(party, high)),
        !ranks_before(method, votes, candidate(party, high), candidate(party, low)),
{
    let v = votes_of(votes, party);
    let dl = divisor(method, low);
    let dh = divisor(method, high);
    lemma_divisor_sign(method, low);
    lemma_divisor_sign(method, high);
    assert(dl.den == dh.den);
    let x = v * dl.den;
    if method == Method::HuntingtonHill {
        assert(x == 0) by (nonlinear_arith)
            requires
                x == v * dl.den,
                v == 0,
        ;
        assert((-x) * (-(1 * dh.num)) == 0 && (-x) * (-(1 * dl.num)) == 0) by (nonlinear_arith)
            requires
                x == 0,
        ;
    } else {
        assert(dl.num < dh.num);
        assert(x >= 0) by (nonlinear_arith)
            requires
                x == v * dl.den,
                v >= 0,
                dl.den > 0,
        ;
        assert(x * (1 * dh.num) >= x * (1 * dl.num) && (x * (1 * dh.num) == x * (1 * dl.num)
            ==> x == 0) && (x == 0 ==> x * (1 * dh.num) == x * (1 * dl.num))) by (nonlinear_arith)
            requires
                x >= 0,
                0 < dl.num < dh.num,
        ;
    }
}

/// Where a party's quotients do not grow, its candidate of rank `rank`
/// has at least `rank` candidates before it in the ranking: those of its
/// own party.
pub proof fn lemma_place_at_least_rank(
    method: Method,
    votes: Seq<usize>,
    rows: nat,
    party: nat,
    rank: nat,
    i: int,
)
    requires
        falling(method, votes, party),
        0 <= i < ranking(method, votes, rows).len(),
        ranking(method, votes, rows)[i] == candidate(party, rank),
    ensures
        i >= rank,
    decreases rank,
{
    if rank > 0 {
        let sorted = ranking(method, votes, rows);
        let c = candidate(party, rank);
        let below = candidate(party, (rank - 1) as nat);
        lemma_ranking(method, votes, rows);
        assert(sorted.contains(c));
        assert(sorted.contains(below));
        let j = choose|j: int| 0 <= j < sorted.len() && sorted[j] == below;
        lemma_place_at_least_rank(method, votes, rows, party, (rank - 1) as nat, j);
        lemma_lower_rank_first(method, votes, party, (rank - 1) as nat, rank);
        if j > i {
            assert(order(method, votes)(sorted[i], sorted[j]));
        }
    }
}

/// Seats are asked for that the ranking never settles on: there is no
/// party, or the divisors are those of Huntington-Hill and every party
/// has votes, so that the newest row always holds the best quotient.
pub open spec fn never_settles(method: Method, votes: Seq<usize>, nb_seats: nat) -> bool {
    nb_seats > 0 && (votes.len() == 0 || (method == Method::HuntingtonHill && forall|p: int|
        0 <= p < votes.len() ==> #[trigger] votes[p] > 0))
}

/// A party without votes comes before a party with votes under
/// Huntington-Hill, whatever their ranks.
proof fn lemma_no_votes_first(method: Method, votes: Seq<usize>, none: Candidate, some: Candidate)
    requires
        method == Method::HuntingtonHill,
        votes_of(votes, none.party) == 0,
        votes_of(votes, some.party) > 0,
    ensures
        !ranks_before(method, votes, some, none),
{
    let dn = divisor(method, none.rank);
    let ds = divisor(method, some.rank);
    lemma_divisor_sign(method, none.rank);
    lemma_divisor_sign(method, some.rank);
    let v = votes_of(votes, some.party);
    let qn = quotient(method, votes, none);
    let qs = quotient(method, votes, some);
    assert(qn.num == 0);
    assert(qs.num < 0);
    assert(qn.den > 0 && qs.den > 0);
    assert(qn.num * qs.den == 0 && qs.num * qn.den < 0) by (nonlinear_arith)
        requires
            qn.num == 0,
            qs.num < 0,
            qn.den > 0,
    ;
}

/// Unless the ranking never settles, it is settled at the rank that
/// equals the seat count, if not before.
pub proof fn lemma_settled_in_the_end(method: Method, votes: Seq<usize>, nb_seats: nat)
    requires
        !never_settles(method, votes, nb_seats),
    ensures
        settled(method, votes, nb_seats, nb_seats),
{
    let sorted = ranking(method, votes, nb_seats + 1);
    lemma_ranking(method, votes, nb_seats + 1);
    if nb_seats > 0 {
        assert((nb_seats + 1) * votes.len() >= nb_seats) by (nonlinear_arith)
            requires
                votes.len() >= 1,
        ;
        assert forall|i: int| 0 <= i < nb_seats implies (#[trigger] sorted[i]).rank
            != nb_seats by {
            let c = sorted[i];
            assert(sorted.contains(c));
            if c.rank == nb_seats {
                if falling(method, votes, c.party) {
                    lemma_place_at_least_rank(method, votes, nb_seats + 1, c.party, nb_seats, i);
                } else {
                    let z = choose|z: int| 0 <= z < votes.len() && votes[z] == 0;
                    let none = candidate(z as nat, nb_seats);
                    assert(sorted.contains(none));
                    let j = choose|j: int| 0 <= j < sorted.len() && sorted[j] == none;
                    lemma_place_at_least_rank(method, votes, nb_seats + 1, z as nat, nb_seats, j);
                    lemma_no_votes_first(method, votes, none, c);
                    if j > i {
                        assert(order(method, votes)(sorted[i], sorted[j]));
                    }
                }
            }
        }
    } else {
        assert((nb_seats + 1) * votes.len() >= 0) by (nonlinear_arith);
    }
}

/// Under Huntington-Hill, the quotients of a party with votes grow with the rank.
proof fn lemma_higher_rank_first(method: Method, votes: Seq<usize>, party: nat, low: nat, high: nat)
    requires
        method == Method::HuntingtonHill,
        votes_of(votes, party) > 0,
        low < high,
    ensures
        !ranks_before(method, votes, candidate(party, low), candidate(party, high)),
{
    let v = votes_of(votes, party);
    let dl = divisor(method, low);
    let dh = divisor(method, high);
    assert(0 < (low + 1) * (low + 2) < (high + 1) * (high + 2)) by (nonlinear_arith)
        requires
            0 <= low < high,
    ;
    let ql = quotient(method, votes, candidate(party, low));
    let qh = quotient(method, votes, candidate(party, high));
    assert(ql.num == -(v * 1) && ql.den == -(1 * dl.num));
    assert(qh.num == -(v * 1) && qh.den == -(1 * dh.num));
    assert(qh.num * ql.den > ql.num * qh.den) by (nonlinear_arith)
        requires
            qh.num == ql.num,
            ql.num < 0,
            0 < ql.den < qh.den,
    ;
}

/// Where the ranking never settles, it is settled at no rank at all.
pub proof fn lemma_never_settled(method: Method, votes: Seq<usize>, nb_seats: nat, rank: nat)
    requires
        never_settles(method, votes, nb_seats),
    ensures
        !settled(method, votes, nb_seats, rank),
{
    let sorted = ranking(method, votes, rank + 1);
    lemma_ranking(method, votes, rank + 1);
    if votes.len() == 0 {
        assert((rank + 1) * votes.len() == 0) by (nonlinear_arith)
            requires
                votes.len() == 0,
        ;
    } else {
        assert((rank + 1) * votes.len() >= 1) by (nonlinear_arith)
            requires
                votes.len() >= 1,
        ;
        let best = sorted[0];
        assert(sorted.contains(best));
        if best.rank < rank {
            let newest = candidate(best.party, rank);
            assert(sorted.contains(newest));
            let j = choose|j: int| 0 <= j < sorted.len() && sorted[j] == newest;
            assert(votes[best.party as int] > 0);
            lemma_higher_rank_first(method, votes, best.party, best.rank, rank);
            assert(best == candidate(best.party, best.rank));
            if j > 0 {
                assert(order(method, votes)(sorted[0], sorted[j]));
            }
        }
        assert(sorted[0].rank == rank);
    }
}

/// A settled rank from `from` on makes a first one.
pub proof fn lemma_some_settled(
    method: Method,
    votes: Seq<usize>,
    nb_seats: nat,
    from: nat,
    rank: nat,
)
    requires
        from <= rank <= nb_seats,
        settled(method, votes, nb_seats, rank),
    ensures
        first_settled(method, votes, nb_seats, from) is Some,
    decreases rank - from,
{
    if from < rank && !settled(method, votes, nb_seats, from) {
        lemma_some_settled(method, votes, nb_seats, from + 1, rank);
    }
}

/// Seats are allocated unless the ranking never settles, and then no
/// rank, however high, would settle it.
pub proof fn lemma_allocation_exists(method: Method, votes: Seq<usize>, nb_seats: nat)
    ensures
        allocation(method, votes, nb_seats) is None <==> never_settles(method, votes, nb_seats),
        never_settles(method, votes, nb_seats) ==> forall|rank: nat|
            !settled(method, votes, nb_seats, rank),
        in_range(votes, nb_seats) && votes.len() > 0 ==> (outcome(method, votes, nb_seats) is Ok
            <==> !never_settles(method, votes, nb_seats)),
{
    if never_settles(method, votes, nb_seats) {
        assert forall|rank: nat| !settled(method, votes, nb_seats, rank) by {
            lemma_never_settled(method, votes, nb_seats, rank);
        }
        lemma_none_settled(method, votes, nb_seats, 0);
    } else {
        lemma_settled_in_the_end(method, votes, nb_seats);
        lemma_some_settled(method, votes, nb_seats, 0, nb_seats);
    }
}

} // verus!
