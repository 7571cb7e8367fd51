//! Seat allocation by the highest-averages (divisor) method, carried out in
//! exact rational arithmetic and verified against a mathematical model of the
//! ranking of quotients.

use vstd::prelude::*;

pub mod rational;
pub mod highest_averages;
pub mod table;
pub mod theorems;
pub mod counting;

use crate::highest_averages::total_seats;

verus! {

/// Why an allocation could not be made.
#[derive(Clone, Copy, Debug, PartialEq, Eq, Structural)]
pub enum AllocationError {
    /// Seats were requested but there is no party to give them to.
    InvalidInput,
    /// The seat count or a vote count is beyond what the machine arithmetic holds.
    OutOfRange,
    /// The newest row of quotients always holds a winner, so the ranking
    /// never settles. This happens with the negative divisors of
    /// Huntington-Hill when every party has votes.
    Unsettled,
}

/// A seat allocation algorithm.
pub trait AllocateSeats {
    /// Calculates the number of seats per party given the number of votes
    /// per party. The result has one entry per party, in the order of
    /// `parties`, and the entries add up to `nb_seats`. Asking for seats
    /// with no party at all is `InvalidInput`.
    fn allocate_seats(&self, nb_seats: usize, parties: Vec<usize>) -> (result: Result<
        Vec<usize>,
        AllocationError,
    >)
        ensures
            result matches Ok(seats) ==> seats@.len() == parties@.len() && total_seats(seats@)
                == nb_seats,
            nb_seats > 0 && parties@.len() == 0 ==> result == Err::<Vec<usize>, AllocationError>(
                AllocationError::InvalidInput,
            ),
    ;
}

} // verus!
