//! Aggregate expressions and the accumulators that they make.

use crate::columns::Column;
use crate::error::AggregateError;
use crate::grouping::EmitTo;
use arrow::array::BooleanArray;
use vstd::prelude::*;

verus! {

/// Which step of an aggregation is computed.
#[derive(Debug, Clone, Copy, PartialEq, Eq, Structural)]
pub enum AggregateMode {
    /// From rows to intermediate states.
    Partial,
    /// From the intermediate states of all partitions to values.
    Final,
    /// From the intermediate states of one partition by group to values.
    FinalPartitioned,
    /// From rows to values.
    Single,
    /// From the rows of one partition by group to values.
    SinglePartitioned,
}

impl AggregateMode {
    /// Whether the input holds intermediate states, which are merged, and not rows.
    pub open spec fn merges(self) -> bool {
        self is Final || self is FinalPartitioned
    }

    /// Whether the output holds intermediate states and not values.
    pub open spec fn outputs_state(self) -> bool {
        self is Partial
    }
}

/// What an accumulator is given of a batch.
pub struct BatchArgs {
    /// The arguments of the aggregate, a column each.
    pub values: Seq<Column>,
    /// The group of each row.
    pub group_indices: Seq<usize>,
    /// Which rows count, where not all do.
    pub filter: Option<BooleanArray>,
    /// The number of groups so far.
    pub total_num_groups: usize,
}

/// A call of a method of an accumulator, and what came of it.
pub enum AccumulatorCall {
    /// A call of `update_batch`.
    UpdateBatch(BatchArgs, Result<(), AggregateError>),
    /// A call of `merge_batch`.
    MergeBatch(BatchArgs, Result<(), AggregateError>),
    /// A call of `state`.
    State(EmitTo, Result<Seq<Column>, AggregateError>),
    /// A call of `evaluate`.
    Evaluate(EmitTo, Result<Column, AggregateError>),
}

/// Computes one aggregate for all groups at once. Each accumulator keeps the state of every
/// group, and is told by index which group a row belongs to. Contracts speak of the calls that it
/// has had, which it need not keep.
pub trait GroupsAccumulator: Sized {
    /// The calls that the accumulator has had, in order.
    closed spec fn history(&self) -> Seq<AccumulatorCall> {
        arbitrary()
    }

    /// The bytes that the accumulator says it takes up.
    closed spec fn memory(&self) -> usize {
        arbitrary()
    }

    /// Takes in rows. No group index reaches the number of groups.
    fn update_batch(
        &mut self,
        values: &Vec<Column>,
        group_indices: &Vec<usize>,
        opt_filter: &Option<BooleanArray>,
        total_num_groups: usize,
    ) -> (result: Result<(), AggregateError>)
        requires
            forall|i: int|
                0 <= i < group_indices@.len() ==> (#[trigger] group_indices@[i])
                    < total_num_groups,
        ensures
            final(self).history() == old(self).history().push(
                AccumulatorCall::UpdateBatch(
                    BatchArgs {
                        values: values@,
                        group_indices: group_indices@,
                        filter: *opt_filter,
                        total_num_groups,
                    },
                    result,
                ),
            ),
    ;

    /// Takes in intermediate states. No group index reaches the number of groups.
    fn merge_batch(
        &mut self,
        values: &Vec<Column>,
        group_indices: &Vec<usize>,
        opt_filter: &Option<BooleanArray>,
        total_num_groups: usize,
    ) -> (result: Result<(), AggregateError>)
        requires
            forall|i: int|
                0 <= i < group_indices@.len() ==> (#[trigger] group_indices@[i])
                    < total_num_groups,
        ensures
            final(self).history() == old(self).history().push(
                AccumulatorCall::MergeBatch(
                    BatchArgs {
                        values: values@,
                        group_indices: group_indices@,
                        filter: *opt_filter,
                        total_num_groups,
                    },
                    result,
                ),
            ),
    ;

    /// Hands out the intermediate states of the groups to emit.
    fn state(&mut self, emit_to: EmitTo) -> (result: Result<Vec<Column>, AggregateError>)
        ensures
            final(self).history() == old(self).history().push(
                AccumulatorCall::State(
                    emit_to,
                    match result {
                        Ok(columns) => Ok(columns@),
                        Err(e) => Err(e),
                    },
                ),
            ),
    ;

    /// Hands out the values of the groups to emit.
    fn evaluate(&mut self, emit_to: EmitTo) -> (result: Result<Column, AggregateError>)
        ensures
            final(self).history() == old(self).history().push(
                AccumulatorCall::Evaluate(emit_to, result),
            ),
    ;

    /// The number of bytes that the accumulator takes up.
    fn size(&self) -> (bytes: usize)
        ensures
            bytes == self.memory(),
    ;
}

/// An aggregate of a query, such as a sum over a column.
pub trait AggregateExpr {
    /// What computes the aggregate.
    type Accumulator: GroupsAccumulator;

    /// Whether the aggregate has an accumulator of its own for many groups.
    fn groups_accumulator_supported(&self) -> bool;

    /// An accumulator of its own for many groups.
    fn create_groups_accumulator(&self) -> Result<Self::Accumulator, AggregateError>;

    /// An accumulator for many groups that keeps one accumulator for each group.
    fn create_adapter(&self) -> Self::Accumulator;
}

/// Whether the result is one that the aggregate gives when asked for an accumulator: one of its
/// own where it has that, and the adapter otherwise.
pub open spec fn creates<E: AggregateExpr>(
    agg_expr: &E,
    result: Result<E::Accumulator, AggregateError>,
) -> bool {
    exists|supported: bool|
        #[trigger] call_ensures(E::groups_accumulator_supported, (agg_expr,), supported) && (
        if supported {
            call_ensures(E::create_groups_accumulator, (agg_expr,), result)
        } else {
            result is Ok && call_ensures(E::create_adapter, (agg_expr,), result->Ok_0)
        })
}

/// Creates an accumulator for an aggregate.
pub fn create_group_accumulator<E: AggregateExpr>(agg_expr: &E) -> (result: Result<
    E::Accumulator,
    AggregateError,
>)
    ensures
        creates(agg_expr, result),
{
    if agg_expr.groups_accumulator_supported() {
        agg_expr.create_groups_accumulator()
    } else {
        Ok(agg_expr.create_adapter())
    }
}

/// Whether the accumulators are those of the first aggregates.
pub open spec fn created<E: AggregateExpr>(aggr_expr: Seq<E>, made: Seq<E::Accumulator>) -> bool {
    &&& made.len() <= aggr_expr.len()
    &&& forall|i: int|
        0 <= i < made.len() ==> creates(&aggr_expr[i], Ok(#[trigger] made[i]))
}

/// Whether an aggregate gives the error when asked for an accumulator, and all before it gave one.
pub open spec fn creation_fails<E: AggregateExpr>(
    aggr_expr: Seq<E>,
    error: AggregateError,
) -> bool {
    exists|made: Seq<E::Accumulator>| #[trigger]
        created(aggr_expr, made) && made.len() < aggr_expr.len() && creates(
            &aggr_expr[made.len() as int],
            Err(error),
        )
}

/// Creates an accumulator for each aggregate, up to the first that fails.
pub fn create_accumulators<E: AggregateExpr>(aggr_expr: &Vec<E>) -> (result: Result<
    Vec<E::Accumulator>,
    AggregateError,
>)
    ensures
        match result {
            Ok(accumulators) => created(aggr_expr@, accumulators@) && accumulators@.len()
                == aggr_expr@.len(),
            Err(e) => creation_fails(aggr_expr@, e),
        },
{
    let mut accumulators: Vec<E::Accumulator> = Vec::new();
    let mut i: usize = 0;
    while i < aggr_expr.len()
        invariant
            i <= aggr_expr@.len(),
            accumulators@.len() == i,
            created(aggr_expr@, accumulators@),
        decreases aggr_expr@.len() - i,
    {
        match create_group_accumulator(&aggr_expr[i]) {
            Ok(accumulator) => accumulators.push(accumulator),
            Err(e) => return Err(e),
        }
        i += 1;
    }
    Ok(accumulators)
}

/// The filters of the aggregates: where intermediate states are merged, the rows have been
/// filtered before and nothing is filtered again.
pub fn filter_expressions<X>(mode: AggregateMode, filter_expr: Vec<Option<X>>, count: usize) -> (
    filters: Vec<Option<X>>)
    ensures
        !mode.merges() ==> filters == filter_expr,
        mode.merges() ==> filters@ == Seq::new(count as nat, |i: int| Option::<X>::None),
{
    match mode {
        AggregateMode::Partial | AggregateMode::Single | AggregateMode::SinglePartitioned => {
            filter_expr
        },
        AggregateMode::Final | AggregateMode::FinalPartitioned => {
            let mut filters: Vec<Option<X>> = Vec::new();
            let mut i: usize = 0;
            while i < count
                invariant
                    i <= count,
                    filters@ == Seq::new(i as nat, |k: int| Option::<X>::None),
                decreases count - i,
            {
                filters.push(None);
                assert(filters@ =~= Seq::new((i + 1) as nat, |k: int| Option::<X>::None));
                i += 1;
            }
            filters
        },
    }
}

} // verus!
