//! Reserving memory for an aggregation.

use crate::error::AggregateError;
use vstd::prelude::*;

verus! {

/// A share of a memory pool.
pub trait MemoryReservation: Sized {
    /// The sizes that were asked for, in order, each with the answer.
    closed spec fn requests(&self) -> Seq<(usize, Result<(), AggregateError>)> {
        arbitrary()
    }

    /// Asks for the reservation to be of the given size.
    fn try_resize(&mut self, capacity: usize) -> (result: Result<(), AggregateError>)
        ensures
            final(self).requests() == old(self).requests().push((capacity, result)),
    ;
}

/// A reservation without a pool behind it: every request is granted, and the size is kept.
pub struct UnboundedReservation {
    size: usize,
    requests: Ghost<Seq<(usize, Result<(), AggregateError>)>>,
}

impl UnboundedReservation {
    /// The size that was asked for last.
    pub closed spec fn reserved(&self) -> usize {
        self.size
    }

    /// An empty reservation.
    pub fn new() -> (reservation: Self)
        ensures
            reservation.reserved() == 0,
            reservation.requests() == Seq::<(usize, Result<(), AggregateError>)>::empty(),
    {
        UnboundedReservation { size: 0, requests: Ghost(Seq::empty()) }
    }

    /// The size that was asked for last.
    pub fn size(&self) -> (bytes: usize)
        ensures
            bytes == self.reserved(),
    {
        self.size
    }
}

/// A reservation without a pool grants every request, and is of the size that was asked for last.
pub proof fn law_unbounded(
    reservation: &mut UnboundedReservation,
    capacity: usize,
    result: Result<(), AggregateError>,
)
    requires
        call_ensures(UnboundedReservation::try_resize, (reservation, capacity), result),
    ensures
        result is Ok,
        final(reservation).reserved() == capacity,
        final(reservation).requests() == old(reservation).requests().push((capacity, result)),
{
}

impl MemoryReservation for UnboundedReservation {
    closed spec fn requests(&self) -> Seq<(usize, Result<(), AggregateError>)> {
        self.requests@
    }

    fn try_resize(&mut self, capacity: usize) -> (result: Result<(), AggregateError>)
        ensures
            result is Ok,
            final(self).reserved() == capacity,
    {
        self.requests = Ghost(self.requests@.push((capacity, Ok(()))));
        self.size = capacity;
        Ok(())
    }
}

} // verus!
