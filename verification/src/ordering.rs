//! What is known of the order of the input, and which groups can be emitted early because of it.

use crate::columns::Column;
use crate::error::AggregateError;
use crate::grouping::EmitTo;
use arrow::datatypes::Schema;
use vstd::prelude::*;

verus! {

/// A call that tells the ordering something, and what came of it.
pub enum OrderingCall {
    /// A call of `new_groups`.
    NewGroups {
        /// The columns of the group keys.
        group_values: Seq<Column>,
        /// The group of each row.
        group_indices: Seq<usize>,
        /// The number of groups so far.
        total_num_groups: usize,
        /// What the call returned.
        result: Result<(), AggregateError>,
    },
    /// A call of `remove_groups`.
    RemoveGroups(usize),
    /// A call of `input_done`.
    InputDone,
}

/// Follows the groups as they come and go, and says which are complete.
pub trait OrderedGroups: Sized {
    /// How the input is ordered.
    type Plan;

    /// What it has been told, in order.
    closed spec fn history(&self) -> Seq<OrderingCall> {
        arbitrary()
    }

    /// The groups that it says are complete.
    closed spec fn complete(&self) -> Option<EmitTo> {
        arbitrary()
    }

    /// The bytes that it says it takes up.
    closed spec fn memory(&self) -> usize {
        arbitrary()
    }

    /// Follows groups of the given schema in an input of the given order.
    fn try_new(group_schema: &Schema, plan: &Self::Plan) -> (result: Result<Self, AggregateError>)
        ensures
            result matches Ok(ordering) ==> ordering.history() == Seq::<OrderingCall>::empty(),
    ;

    /// Which groups can be emitted, if any.
    fn emit_to(&self) -> (emit_to: Option<EmitTo>)
        ensures
            emit_to == self.complete(),
    ;

    /// There are new groups. No group index reaches the number of groups.
    fn new_groups(
        &mut self,
        group_values: &Vec<Column>,
        group_indices: &Vec<usize>,
        total_num_groups: usize,
    ) -> (result: Result<(), AggregateError>)
        requires
            forall|i: int|
                0 <= i < group_indices@.len() ==> (#[trigger] group_indices@[i])
                    < total_num_groups,
        ensures
            final(self).history() == old(self).history().push(
                OrderingCall::NewGroups {
                    group_values: group_values@,
                    group_indices: group_indices@,
                    total_num_groups,
                    result,
                },
            ),
    ;

    /// The first `n` groups are gone.
    fn remove_groups(&mut self, n: usize)
        ensures
            final(self).history() == old(self).history().push(OrderingCall::RemoveGroups(n)),
    ;

    /// There is no more input.
    fn input_done(&mut self)
        ensures
            final(self).history() == old(self).history().push(OrderingCall::InputDone),
    ;

    /// The number of bytes that it takes up.
    fn size(&self) -> (bytes: usize)
        ensures
            bytes == self.memory(),
    ;
}

/// The ordering of the input, if it has one.
pub enum GroupOrdering<O: OrderedGroups> {
    /// The input has no order: no group is complete before its end.
    Unordered(Ghost<Seq<OrderingCall>>),
    /// The input is ordered.
    Ordered(O),
}

impl<O: OrderedGroups> OrderedGroups for GroupOrdering<O> {
    type Plan = Option<O::Plan>;

    open spec fn history(&self) -> Seq<OrderingCall> {
        match self {
            GroupOrdering::Unordered(calls) => calls@,
            GroupOrdering::Ordered(ordering) => ordering.history(),
        }
    }

    open spec fn complete(&self) -> Option<EmitTo> {
        match self {
            GroupOrdering::Unordered(_) => None,
            GroupOrdering::Ordered(ordering) => ordering.complete(),
        }
    }

    open spec fn memory(&self) -> usize {
        match self {
            GroupOrdering::Unordered(_) => 0,
            GroupOrdering::Ordered(ordering) => ordering.memory(),
        }
    }

    fn try_new(group_schema: &Schema, plan: &Option<O::Plan>) -> (result: Result<
        Self,
        AggregateError,
    >)
        ensures
            match plan {
                None => result is Ok && result->Ok_0 is Unordered,
                Some(plan) => match result {
                    Ok(ordering) => ordering matches GroupOrdering::Ordered(o) && call_ensures(
                        O::try_new,
                        (group_schema, plan),
                        Ok(o),
                    ),
                    Err(e) => call_ensures(O::try_new, (group_schema, plan), Err(e)),
                },
            },
    {
        match plan {
            None => Ok(GroupOrdering::Unordered(Ghost(Seq::empty()))),
            Some(plan) => match O::try_new(group_schema, plan) {
                Ok(ordering) => Ok(GroupOrdering::Ordered(ordering)),
                Err(e) => Err(e),
            },
        }
    }

    fn emit_to(&self) -> (emit_to: Option<EmitTo>) {
        match self {
            GroupOrdering::Unordered(_) => None,
            GroupOrdering::Ordered(ordering) => ordering.emit_to(),
        }
    }

    fn new_groups(
        &mut self,
        group_values: &Vec<Column>,
        group_indices: &Vec<usize>,
        total_num_groups: usize,
    ) -> (result: Result<(), AggregateError>)
        ensures
            *old(self) is Unordered ==> result is Ok,
            (*final(self) is Unordered) == (*old(self) is Unordered),
    {
        match self {
            GroupOrdering::Unordered(calls) => {
                *calls = Ghost(
                    calls@.push(
                        OrderingCall::NewGroups {
                            group_values: group_values@,
                            group_indices: group_indices@,
                            total_num_groups,
                            result: Ok(()),
                        },
                    ),
                );
                Ok(())
            },
            GroupOrdering::Ordered(ordering) => ordering.new_groups(
                group_values,
                group_indices,
                total_num_groups,
            ),
        }
    }

    fn remove_groups(&mut self, n: usize)
        ensures
            (*final(self) is Unordered) == (*old(self) is Unordered),
    {
        match self {
            GroupOrdering::Unordered(calls) => {
                *calls = Ghost(calls@.push(OrderingCall::RemoveGroups(n)));
            },
            GroupOrdering::Ordered(ordering) => ordering.remove_groups(n),
        }
    }

    fn input_done(&mut self)
        ensures
            (*final(self) is Unordered) == (*old(self) is Unordered),
    {
        match self {
            GroupOrdering::Unordered(calls) => {
                *calls = Ghost(calls@.push(OrderingCall::InputDone));
            },
            GroupOrdering::Ordered(ordering) => ordering.input_done(),
        }
    }

    fn size(&self) -> (bytes: usize) {
        match self {
            GroupOrdering::Unordered(_) => 0,
            GroupOrdering::Ordered(ordering) => ordering.size(),
        }
    }
}

} // verus!
