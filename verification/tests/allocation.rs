use num_rational::Ratio;
use seat_allocation::highest_averages::{divisor_at, HighestAverages, Method, MAX_RANK, MAX_VOTES};
use seat_allocation::rational::Fraction;
use seat_allocation::{AllocateSeats, AllocationError};

fn take_n_divisors(method: Method, n: usize) -> Vec<Ratio<i64>> {
    let mut divisors = HighestAverages::new(method).divisors();
    let mut out = Vec::new();
    for _ in 0..n {
        let f = divisors.next().unwrap();
        out.push(Ratio::new(f.numer(), f.denom()));
    }
    out
}

fn make_rationals(vec: Vec<(i64, i64)>) -> Vec<Ratio<i64>> {
    vec.into_iter().map(|e| Ratio::new(e.0, e.1)).collect()
}

fn allocate(method: Method, nb_seats: usize, parties: Vec<usize>) -> Result<Vec<usize>, AllocationError> {
    HighestAverages::new(method).allocate_seats(nb_seats, parties)
}

#[test]
fn divisors() {
    // Testing the first 5 elements of all divisors.
    assert_eq!(
        make_rationals(vec![(1, 1), (2, 1), (3, 1), (4, 1), (5, 1)]),
        take_n_divisors(Method::DHondt, 5)
    );
    assert_eq!(
        make_rationals(vec![(1, 1), (3, 1), (5, 1), (7, 1), (9, 1)]),
        take_n_divisors(Method::SainteLague, 5)
    );
    assert_eq!(
        make_rationals(vec![(2, 2), (3, 2), (4, 2), (5, 2), (6, 2)]),
        take_n_divisors(Method::Imperiali, 5)
    );
    assert_eq!(
        make_rationals(vec![(1, 1), (4, 1), (7, 1), (10, 1), (13, 1)]),
        take_n_divisors(Method::Danish, 5)
    );
}

#[test]
fn example_verkiezingen2018() {
    let allocator = HighestAverages::new(Method::Imperiali);
    let seats = allocator.allocate_seats(13, vec![480, 310, 940, 270]).unwrap();
    assert_eq!(vec![3, 1, 8, 1], seats);
}

#[test]
fn huntington_hill_divisors_are_negative() {
    assert_eq!(
        make_rationals(vec![(-2, 1), (-6, 1), (-12, 1), (-20, 1), (-30, 1)]),
        take_n_divisors(Method::HuntingtonHill, 5)
    );
}

#[test]
fn divisors_come_in_lowest_terms() {
    let parts: Vec<(i64, i64)> = (0..5)
        .map(|rank| divisor_at(Method::Imperiali, rank))
        .map(|f| (f.numer(), f.denom()))
        .collect();
    assert_eq!(vec![(1, 1), (3, 2), (2, 1), (5, 2), (3, 1)], parts);
    let last = divisor_at(Method::Danish, MAX_RANK);
    assert_eq!((9_000_000_001, 1), (last.numer(), last.denom()));
    let hill = divisor_at(Method::HuntingtonHill, MAX_RANK);
    assert_eq!((-9_000_000_009_000_000_002, 1), (hill.numer(), hill.denom()));
}

#[test]
fn divisors_restart_at_rank_zero() {
    let allocator = HighestAverages::new(Method::SainteLague);
    let mut first = allocator.divisors();
    assert_eq!(0, first.next_rank());
    first.next();
    first.next();
    assert_eq!(2, first.next_rank());
    let mut second = allocator.divisors();
    assert_eq!(0, second.next_rank());
    assert_eq!(Some(Fraction { numer: 1, denom: 1 }), second.next());
    assert_eq!(Some(Fraction { numer: 3, denom: 1 }), second.next());
}

#[test]
fn fraction_from_integer() {
    let f = Fraction::from_integer(-7);
    assert_eq!((-7, 1), (f.numer(), f.denom()));
}

#[test]
fn no_seats_gives_all_zero() {
    assert_eq!(Ok(vec![0, 0]), allocate(Method::DHondt, 0, vec![100, 50]));
    assert_eq!(Ok(vec![]), allocate(Method::DHondt, 0, vec![]));
    assert_eq!(Ok(vec![0]), allocate(Method::HuntingtonHill, 0, vec![usize::MAX]));
}

#[test]
fn seats_without_parties_are_invalid() {
    assert_eq!(Err(AllocationError::InvalidInput), allocate(Method::DHondt, 1, vec![]));
    assert_eq!(Err(AllocationError::InvalidInput), allocate(Method::Danish, usize::MAX, vec![]));
}

#[test]
fn too_large_inputs_are_out_of_range() {
    let too_many_votes = MAX_VOTES as usize + 1;
    assert_eq!(Err(AllocationError::OutOfRange), allocate(Method::DHondt, 1, vec![3, too_many_votes]));
    let too_many_seats = MAX_RANK as usize + 1;
    assert_eq!(Err(AllocationError::OutOfRange), allocate(Method::DHondt, too_many_seats, vec![3, 4]));
}

#[test]
fn largest_vote_count_is_accepted() {
    let most = MAX_VOTES as usize;
    // Half of the odd `most`, rounded down, is just below `most / 2`.
    assert_eq!(Ok(vec![0, 3]), allocate(Method::Imperiali, 3, vec![most / 2, most]));
    assert_eq!(Ok(vec![2, 1]), allocate(Method::Imperiali, 3, vec![most, most]));
}

#[test]
fn huntington_hill_never_settles_on_positive_votes() {
    assert_eq!(Err(AllocationError::Unsettled), allocate(Method::HuntingtonHill, 1, vec![10]));
    assert_eq!(Err(AllocationError::Unsettled), allocate(Method::HuntingtonHill, 3, vec![10, 20, 5]));
}

#[test]
fn huntington_hill_seats_go_to_parties_without_votes() {
    assert_eq!(Ok(vec![2, 0]), allocate(Method::HuntingtonHill, 2, vec![0, 5]));
    assert_eq!(Ok(vec![2, 0, 1]), allocate(Method::HuntingtonHill, 3, vec![0, 7, 0]));
}

#[test]
fn dhondt_textbook_example() {
    // Quotients: 100000, 80000, 50000, 40000, 33333.3, 30000, 26666.7, 25000, ...
    assert_eq!(Ok(vec![4, 3, 1, 0]), allocate(Method::DHondt, 8, vec![100_000, 80_000, 30_000, 20_000]));
}

#[test]
fn sainte_lague_textbook_example() {
    assert_eq!(Ok(vec![3, 3, 1, 1]), allocate(Method::SainteLague, 8, vec![100_000, 80_000, 30_000, 20_000]));
}

#[test]
fn danish_example() {
    // 60/1, 40/1, 60/4 = 15, 40/4 = 10, 60/7, 40/7, ...
    assert_eq!(Ok(vec![2, 2]), allocate(Method::Danish, 4, vec![60, 40]));
    assert_eq!(Ok(vec![3, 2]), allocate(Method::Danish, 5, vec![60, 40]));
}

#[test]
fn equal_quotients_go_to_the_lower_rank_then_the_lower_party() {
    // 20/1, then 10/1 of the second party ties with 20/2 of the first.
    assert_eq!(Ok(vec![1, 1]), allocate(Method::DHondt, 2, vec![20, 10]));
    assert_eq!(Ok(vec![1, 0]), allocate(Method::DHondt, 1, vec![10, 10]));
    assert_eq!(Ok(vec![2, 1]), allocate(Method::DHondt, 3, vec![10, 10]));
}

#[test]
fn parties_without_votes_win_nothing_while_others_have_votes() {
    assert_eq!(Ok(vec![0, 5, 0]), allocate(Method::DHondt, 5, vec![0, 3, 0]));
    assert_eq!(Ok(vec![0, 2, 3]), allocate(Method::SainteLague, 5, vec![0, 2, 3]));
}

#[test]
fn all_zero_votes_are_shared_in_turn() {
    assert_eq!(Ok(vec![2, 1]), allocate(Method::DHondt, 3, vec![0, 0]));
    assert_eq!(Ok(vec![2, 2, 1]), allocate(Method::Imperiali, 5, vec![0, 0, 0]));
}

#[test]
fn output_has_one_entry_per_party_and_adds_up() {
    let methods = [Method::DHondt, Method::SainteLague, Method::Imperiali, Method::Danish];
    for method in methods {
        for nb_seats in 0..30usize {
            let parties = vec![1234, 0, 777, 15, 9000, 4321];
            let seats = allocate(method, nb_seats, parties.clone()).unwrap();
            assert_eq!(parties.len(), seats.len());
            assert_eq!(nb_seats, seats.iter().sum::<usize>());
        }
    }
}

#[test]
fn more_votes_never_cost_seats() {
    let methods = [Method::DHondt, Method::SainteLague, Method::Imperiali, Method::Danish];
    for method in methods {
        let mut previous = 0;
        for votes in 0..400usize {
            let seats = allocate(method, 11, vec![120, votes, 75, 310]).unwrap();
            assert!(seats[1] >= previous);
            previous = seats[1];
        }
    }
}

#[test]
fn scaling_all_votes_changes_nothing() {
    let methods = [Method::DHondt, Method::SainteLague, Method::Imperiali, Method::Danish];
    for method in methods {
        let base = allocate(method, 13, vec![480, 310, 940, 270]).unwrap();
        for factor in [2usize, 3, 10, 1000, 123_456] {
            let scaled = vec![480 * factor, 310 * factor, 940 * factor, 270 * factor];
            assert_eq!(base, allocate(method, 13, scaled).unwrap());
        }
    }
    assert_eq!(
        allocate(Method::HuntingtonHill, 4, vec![0, 3, 0]),
        allocate(Method::HuntingtonHill, 4, vec![0, 300, 0])
    );
}

#[test]
fn one_party_takes_every_seat() {
    assert_eq!(Ok(vec![7]), allocate(Method::DHondt, 7, vec![1]));
    assert_eq!(Ok(vec![7]), allocate(Method::Imperiali, 7, vec![5]));
}

#[test]
fn huntington_hill_votes_can_cost_seats() {
    assert_eq!(Ok(vec![1, 1]), allocate(Method::HuntingtonHill, 2, vec![0, 0]));
    assert_eq!(Ok(vec![0, 2]), allocate(Method::HuntingtonHill, 2, vec![5, 0]));
}

#[test]
fn unsettled_only_without_a_party_that_has_no_votes() {
    assert_eq!(Err(AllocationError::Unsettled), allocate(Method::HuntingtonHill, 2, vec![1, 1]));
    assert_eq!(Ok(vec![0, 2]), allocate(Method::HuntingtonHill, 2, vec![1, 0]));
    assert_eq!(Ok(vec![1, 1]), allocate(Method::DHondt, 2, vec![1, 1]));
}
