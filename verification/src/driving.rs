//! What the calls that drive an aggregation do, from the first batch to the last output.

use crate::accumulator::{
    create_accumulators, create_group_accumulator, created, creates, creation_fails,
    filter_expressions, AggregateExpr, AggregateMode, GroupsAccumulator,
};
use crate::calls::{
    in_step, law_emission_calls, law_emission_keeps_count, law_end_of_input, law_failed_emission,
    law_intake_keeps_count,
};
use crate::columns::{batch_rows, batch_schema, group_schema, Batch};
use crate::data_type::{schema_types, type_tree};
use crate::error::AggregateError;
use crate::grouping::EmitTo;
use crate::kinds::{common, law_common_types, law_store_for_common_types};
use crate::laws::law_one_row_per_group;
use crate::memory::sum;
use crate::ordering::{GroupOrdering, OrderedGroups, OrderingCall};
use crate::output::{chunk, rest};
use crate::reservation::MemoryReservation;
use crate::stream::{
    groups_by, memories, request, Action, AggregateExec, ExecutionState,
    GroupedHashAggregateStream,
};
use crate::trace::{
    emission_fails, emits, input_ended, intake_fails, takes_in, EvaluatedBatch, Trace,
};
use arrow::datatypes::Schema;
use arrow::error::ArrowError;
use vstd::prelude::*;

verus! {

/// Whether the plan of an aggregation is as before: the types of the group keys, the schema, the
/// mode, the most rows of an output batch, the arguments and the filters, the number of
/// accumulators, and whether the input has an order.
pub open spec fn plan_kept<X, A: GroupsAccumulator, O: OrderedGroups, M: MemoryReservation>(
    before: &GroupedHashAggregateStream<X, A, O, M>,
    after: &GroupedHashAggregateStream<X, A, O, M>,
) -> bool {
    &&& after.key_types() == before.key_types()
    &&& after.output_schema() == before.output_schema()
    &&& after.aggregate_mode() == before.aggregate_mode()
    &&& after.max_rows() == before.max_rows()
    &&& after.arguments() == before.arguments()
    &&& after.filters() == before.filters()
    &&& after.accs().len() == before.accs().len()
    &&& (after.order() is Unordered) == (before.order() is Unordered)
}

/// A batch is taken in, or fails; the phase, the plan and the end of the input stay.
pub proof fn law_group_aggregate_batch<
    X,
    A: GroupsAccumulator,
    O: OrderedGroups,
    M: MemoryReservation,
>(
    stream: &mut GroupedHashAggregateStream<X, A, O, M>,
    batch: &EvaluatedBatch,
    result: Result<(), AggregateError>,
)
    requires
        call_ensures(
            GroupedHashAggregateStream::<X, A, O, M>::group_aggregate_batch,
            (stream, batch),
            result,
        ),
    ensures
        final(stream).inv(),
        plan_kept(old(stream), final(stream)),
        final(stream).state() == old(stream).state(),
        final(stream).ended() == old(stream).ended(),
        match result {
            Ok(_) => takes_in(
                old(stream).trace(),
                old(stream).key_types(),
                old(stream).aggregate_mode(),
                batch,
                final(stream).trace(),
            ) && final(stream).takes_up(final(stream).trace().reservations.last().0),
            Err(e) => intake_fails(
                old(stream).trace(),
                old(stream).key_types(),
                old(stream).aggregate_mode(),
                old(stream).order() is Ordered,
                batch,
                final(stream).trace(),
                e,
            ),
        },
{
}

/// Groups are emitted, or the emission fails; the phase, the plan and the end of the input stay.
/// Where groups went out, memory was asked for last, for what the aggregation then takes up.
pub proof fn law_emit<X, A: GroupsAccumulator, O: OrderedGroups, M: MemoryReservation>(
    stream: &mut GroupedHashAggregateStream<X, A, O, M>,
    emit_to: EmitTo,
    result: Result<Batch, AggregateError>,
)
    requires
        call_ensures(
            GroupedHashAggregateStream::<X, A, O, M>::emit,
            (stream, emit_to),
            result,
        ),
    ensures
        final(stream).inv(),
        plan_kept(old(stream), final(stream)),
        final(stream).state() == old(stream).state(),
        final(stream).ended() == old(stream).ended(),
        match result {
            Ok(batch) => {
                &&& batch_schema(batch) == old(stream).output_schema()
                &&& emits(
                    old(stream).trace(),
                    old(stream).key_types(),
                    old(stream).output_schema(),
                    old(stream).aggregate_mode(),
                    emit_to,
                    final(stream).trace(),
                    batch,
                )
                &&& old(stream).trace().groups.len() > 0 ==> final(stream).takes_up(
                    final(stream).trace().reservations.last().0,
                )
            },
            Err(e) => emission_fails(
                old(stream).trace(),
                old(stream).key_types(),
                old(stream).output_schema(),
                old(stream).aggregate_mode(),
                emit_to,
                final(stream).trace(),
                e,
            ),
        },
{
    if let Ok(batch) = result {
        law_emission_calls(
            old(stream).trace(),
            old(stream).key_types(),
            old(stream).output_schema(),
            old(stream).aggregate_mode(),
            emit_to,
            final(stream).trace(),
            batch,
        );
    }
}

/// The first groups go out under their keys, and the rest stay, with the ordering told; all go out
/// and stay, with nothing told. In no case is anything called where there are no groups.
pub proof fn law_emitted_rows<X, A: GroupsAccumulator, O: OrderedGroups, M: MemoryReservation>(
    stream: &mut GroupedHashAggregateStream<X, A, O, M>,
    emit_to: EmitTo,
    batch: Batch,
    i: int,
)
    requires
        call_ensures(
            GroupedHashAggregateStream::<X, A, O, M>::emit,
            (stream, emit_to),
            Ok(batch),
        ),
        old(stream).key_types().len() > 0,
    ensures
        match emit_to {
            EmitTo::All => {
                &&& batch_rows(batch).len() == old(stream).trace().groups.len()
                &&& final(stream).trace().groups == old(stream).trace().groups
                &&& final(stream).trace().ordering == old(stream).trace().ordering
            },
            EmitTo::First(n) => {
                &&& batch_rows(batch).len() + final(stream).trace().groups.len()
                    == old(stream).trace().groups.len()
                &&& batch_rows(batch).len() <= n
                &&& batch_rows(batch).len() < n ==> final(stream).trace().groups.len() == 0
                &&& old(stream).trace().groups.len() > 0 ==> final(stream).trace().ordering
                    == old(stream).trace().ordering.push(OrderingCall::RemoveGroups(n))
            },
        },
        0 <= i < batch_rows(batch).len() ==> batch_rows(batch)[i].take(
            old(stream).key_types().len() as int,
        ) == old(stream).trace().groups[i],
        emit_to is First && 0 <= i < final(stream).trace().groups.len()
            ==> final(stream).trace().groups[i]
            == old(stream).trace().groups[batch_rows(batch).len() + i],
{
    let before = old(stream).trace();
    let after = final(stream).trace();
    let types = old(stream).key_types();
    let schema = old(stream).output_schema();
    let mode = old(stream).aggregate_mode();
    law_emission_calls(before, types, schema, mode, emit_to, after, batch);
    law_one_row_per_group(before, types, schema, mode, emit_to, after, batch);
}

/// At the end of the input the ordering is told so, and then all groups go out: there is one row
/// for each of them, under its key. Where that fails, the phase is what it was.
pub proof fn law_input_end<X, A: GroupsAccumulator, O: OrderedGroups, M: MemoryReservation>(
    stream: &mut GroupedHashAggregateStream<X, A, O, M>,
    result: Result<(), AggregateError>,
    i: int,
)
    requires
        call_ensures(
            GroupedHashAggregateStream::<X, A, O, M>::handle_input,
            (stream, None),
            result,
        ) || call_ensures(
            GroupedHashAggregateStream::<X, A, O, M>::finish_input,
            (stream,),
            result,
        ),
        old(stream).key_types().len() > 0,
    ensures
        final(stream).inv(),
        final(stream).ended(),
        plan_kept(old(stream), final(stream)),
        final(stream).trace().ordering == old(stream).trace().ordering.push(
            OrderingCall::InputDone,
        ),
        final(stream).trace().groups == old(stream).trace().groups,
        match result {
            Ok(_) => {
                &&& final(stream).state() matches ExecutionState::ProducingOutput(batch)
                &&& batch_schema(batch) == old(stream).output_schema()
                &&& batch_rows(batch).len() == old(stream).trace().groups.len()
                &&& 0 <= i < batch_rows(batch).len() ==> batch_rows(batch)[i].take(
                    old(stream).key_types().len() as int,
                ) == old(stream).trace().groups[i]
                &&& emits(
                    (Trace {
                        ordering: old(stream).trace().ordering.push(OrderingCall::InputDone),
                        ..old(stream).trace()
                    }),
                    old(stream).key_types(),
                    old(stream).output_schema(),
                    old(stream).aggregate_mode(),
                    EmitTo::All,
                    final(stream).trace(),
                    batch,
                )
            },
            Err(e) => {
                &&& final(stream).state() == old(stream).state()
                &&& emission_fails(
                    (Trace {
                        ordering: old(stream).trace().ordering.push(OrderingCall::InputDone),
                        ..old(stream).trace()
                    }),
                    old(stream).key_types(),
                    old(stream).output_schema(),
                    old(stream).aggregate_mode(),
                    EmitTo::All,
                    final(stream).trace(),
                    e,
                )
            },
        },
{
    let before = input_ended(old(stream).trace());
    let after = final(stream).trace();
    let types = old(stream).key_types();
    let schema = old(stream).output_schema();
    let mode = old(stream).aggregate_mode();
    match result {
        Ok(_) => {
            let batch = final(stream).state()->ProducingOutput_0;
            law_emission_calls(before, types, schema, mode, EmitTo::All, after, batch);
            law_one_row_per_group(before, types, schema, mode, EmitTo::All, after, batch);
        },
        Err(e) => {
            law_failed_emission(
                before,
                types,
                schema,
                mode,
                EmitTo::All,
                after,
                e,
            );
        },
    }
}

/// An error of the input is handed on as it is, and nothing changes.
pub proof fn law_input_error<X, A: GroupsAccumulator, O: OrderedGroups, M: MemoryReservation>(
    stream: &mut GroupedHashAggregateStream<X, A, O, M>,
    error: AggregateError,
    result: Result<(), AggregateError>,
)
    requires
        call_ensures(
            GroupedHashAggregateStream::<X, A, O, M>::handle_input,
            (stream, Some(Err(error))),
            result,
        ),
    ensures
        result == Err::<(), AggregateError>(error),
        *final(stream) == *old(stream),
{
}

/// Once a batch was given to an aggregation, more input is called for only if the ordering says of
/// no groups that they are complete; those that it says it of go out. Without an order that is
/// never so. The end of the input is not reached.
pub proof fn law_input_batch<X, A: GroupsAccumulator, O: OrderedGroups, M: MemoryReservation>(
    stream: &mut GroupedHashAggregateStream<X, A, O, M>,
    batch: EvaluatedBatch,
    result: Result<(), AggregateError>,
)
    requires
        call_ensures(
            GroupedHashAggregateStream::<X, A, O, M>::handle_input,
            (stream, Some(Ok(batch))),
            result,
        ),
        old(stream).state() is ReadingInput,
        !old(stream).ended(),
    ensures
        final(stream).inv(),
        !final(stream).ended(),
        plan_kept(old(stream), final(stream)),
        !(final(stream).state() is Done),
        result is Err ==> final(stream).state() is ReadingInput,
        result is Ok && final(stream).state() is ReadingInput ==> {
            &&& final(stream).order().complete() is None
            &&& takes_in(
                old(stream).trace(),
                old(stream).key_types(),
                old(stream).aggregate_mode(),
                &batch,
                final(stream).trace(),
            )
            &&& final(stream).takes_up(final(stream).trace().reservations.last().0)
        },
        result is Ok && final(stream).state() is ProducingOutput ==> exists|
            middle: GroupedHashAggregateStream<X, A, O, M>,
            emit_to: EmitTo,
        |
            {
                &&& #[trigger] takes_in(
                    old(stream).trace(),
                    old(stream).key_types(),
                    old(stream).aggregate_mode(),
                    &batch,
                    middle.trace(),
                )
                &&& middle.order().complete() == Some(emit_to)
                &&& #[trigger] emits(
                    middle.trace(),
                    old(stream).key_types(),
                    old(stream).output_schema(),
                    old(stream).aggregate_mode(),
                    emit_to,
                    final(stream).trace(),
                    final(stream).state()->ProducingOutput_0,
                )
            },
        old(stream).order() is Unordered ==> final(stream).state() is ReadingInput,
{
    if result is Ok {
        let middle = choose|middle: GroupedHashAggregateStream<X, A, O, M>| #[trigger]
            old(stream).reaches(&batch, &middle) && match middle.complete() {
                None => *final(stream) == middle,
                Some(emit_to) => old(stream).produces(
                    middle.trace(),
                    emit_to,
                    final(stream),
                    result,
                ),
            };
        assert(takes_in(
            old(stream).trace(),
            old(stream).key_types(),
            old(stream).aggregate_mode(),
            &batch,
            middle.trace(),
        ));
        if let Some(emit_to) = middle.complete() {
            assert(emits(
                middle.trace(),
                old(stream).key_types(),
                old(stream).output_schema(),
                old(stream).aggregate_mode(),
                emit_to,
                final(stream).trace(),
                final(stream).state()->ProducingOutput_0,
            ));
        }
    }
}

/// The ordering keeps count through all that an aggregation is given: it has always heard of as
/// many groups as there are, also where something fails.
pub proof fn law_ordering_keeps_count<
    X,
    A: GroupsAccumulator,
    O: OrderedGroups,
    M: MemoryReservation,
>(
    stream: &mut GroupedHashAggregateStream<X, A, O, M>,
    event: Option<Result<EvaluatedBatch, AggregateError>>,
    result: Result<(), AggregateError>,
)
    requires
        old(stream).inv(),
        call_ensures(
            GroupedHashAggregateStream::<X, A, O, M>::handle_input,
            (stream, event),
            result,
        ),
        in_step(old(stream).trace()),
    ensures
        in_step(final(stream).trace()),
{
    let before = old(stream).trace();
    let after = final(stream).trace();
    let types = old(stream).key_types();
    let schema = old(stream).output_schema();
    let mode = old(stream).aggregate_mode();
    old(stream).law_invariant();
    match event {
        Some(Ok(batch)) => {
            if result is Err && intake_fails(
                before,
                types,
                mode,
                !old(stream).unordered(),
                &batch,
                after,
                result->Err_0,
            ) {
                law_intake_keeps_count(
                    before,
                    types,
                    mode,
                    !old(stream).unordered(),
                    &batch,
                    after,
                );
            } else {
                let middle = choose|middle: GroupedHashAggregateStream<X, A, O, M>| #[trigger]
                    old(stream).reaches(&batch, &middle) && match middle.complete() {
                        None => *final(stream) == middle,
                        Some(emit_to) => old(stream).produces(
                            middle.trace(),
                            emit_to,
                            final(stream),
                            result,
                        ),
                    };
                law_intake_keeps_count(before, types, mode, true, &batch, middle.trace());
                if let Some(emit_to) = middle.complete() {
                    law_emission_keeps_count(middle.trace(), types, schema, mode, emit_to, after);
                }
            }
        },
        Some(Err(_)) => {},
        None => {
            law_end_of_input(before);
            law_emission_keeps_count(
                input_ended(before),
                types,
                schema,
                mode,
                EmitTo::All,
                after,
            );
        },
    }
}

/// What an aggregation calls for. While it reads its input, that is input; while it has output, it
/// hands out all rows that are left, or as many of the first as a batch may have, and keeps the
/// rest; once all is out, it calls for more input, or is done where the input has ended, and stays
/// done. Nothing else changes.
pub proof fn law_next_action<X, A: GroupsAccumulator, O: OrderedGroups, M: MemoryReservation>(
    stream: &mut GroupedHashAggregateStream<X, A, O, M>,
    action: Action,
)
    requires
        call_ensures(
            GroupedHashAggregateStream::<X, A, O, M>::next_action,
            (stream,),
            action,
        ),
    ensures
        final(stream).inv(),
        plan_kept(old(stream), final(stream)),
        final(stream).trace() == old(stream).trace(),
        final(stream).ended() == old(stream).ended(),
        match old(stream).state() {
            ExecutionState::ReadingInput => action is PollInput
                && final(stream).state() is ReadingInput,
            ExecutionState::Done => action is Finished && final(stream).state() is Done,
            ExecutionState::ProducingOutput(batch) => {
                &&& action matches Action::Output(output)
                &&& batch_schema(output) == old(stream).output_schema()
                &&& match final(stream).state() {
                    ExecutionState::ProducingOutput(more) => {
                        &&& batch_rows(output).len() == old(stream).max_rows()
                        &&& batch_rows(more).len() > 0
                        &&& batch_rows(output) + batch_rows(more) == batch_rows(batch)
                    },
                    ExecutionState::ReadingInput => {
                        &&& !old(stream).ended()
                        &&& batch_rows(output).len() <= old(stream).max_rows()
                        &&& batch_rows(output) == batch_rows(batch)
                    },
                    ExecutionState::Done => {
                        &&& old(stream).ended()
                        &&& batch_rows(output).len() <= old(stream).max_rows()
                        &&& batch_rows(output) == batch_rows(batch)
                    },
                }
            },
        },
{
    if let ExecutionState::ProducingOutput(batch) = old(stream).state() {
        let rows = batch_rows(batch);
        let max = old(stream).max_rows();
        assert(chunk(rows, max) + rest(rows, max) =~= rows);
        if rows.len() <= max {
            assert(chunk(rows, max) =~= rows);
        }
    }
}

/// Groups that the ordering says are complete go out, and where it says it of none, nothing
/// changes.
pub proof fn law_emit_complete<X, A: GroupsAccumulator, O: OrderedGroups, M: MemoryReservation>(
    stream: &mut GroupedHashAggregateStream<X, A, O, M>,
    result: Result<(), AggregateError>,
)
    requires
        call_ensures(
            GroupedHashAggregateStream::<X, A, O, M>::emit_complete,
            (stream,),
            result,
        ),
    ensures
        final(stream).inv(),
        plan_kept(old(stream), final(stream)),
        !final(stream).ended(),
        match old(stream).order().complete() {
            None => result is Ok && *final(stream) == *old(stream),
            Some(emit_to) => match result {
                Ok(_) => {
                    &&& final(stream).state() matches ExecutionState::ProducingOutput(batch)
                    &&& emits(
                        old(stream).trace(),
                        old(stream).key_types(),
                        old(stream).output_schema(),
                        old(stream).aggregate_mode(),
                        emit_to,
                        final(stream).trace(),
                        batch,
                    )
                },
                Err(e) => {
                    &&& final(stream).state() == old(stream).state()
                    &&& emission_fails(
                        old(stream).trace(),
                        old(stream).key_types(),
                        old(stream).output_schema(),
                        old(stream).aggregate_mode(),
                        emit_to,
                        final(stream).trace(),
                        e,
                    )
                },
            },
        },
{
}

/// An emission without groups gives an empty batch under the schema, where its fields are of types
/// in common use, and changes nothing.
pub proof fn law_emit_without_groups<
    X,
    A: GroupsAccumulator,
    O: OrderedGroups,
    M: MemoryReservation,
>(
    stream: &mut GroupedHashAggregateStream<X, A, O, M>,
    emit_to: EmitTo,
    result: Result<Batch, AggregateError>,
)
    requires
        call_ensures(
            GroupedHashAggregateStream::<X, A, O, M>::emit,
            (stream, emit_to),
            result,
        ),
        old(stream).trace().groups.len() == 0,
        forall|j: int|
            0 <= j < schema_types(old(stream).output_schema()).len() ==> common(
                type_tree(#[trigger] schema_types(old(stream).output_schema())[j]),
            ),
    ensures
        result matches Ok(batch) && batch_rows(batch).len() == 0 && batch_schema(batch)
            == old(stream).output_schema(),
        final(stream).trace() == old(stream).trace(),
{
    let types = schema_types(old(stream).output_schema());
    assert forall|j: int| 0 <= j < types.len() implies type_tree(
        #[trigger] types[j],
    ).in_arrow() by {
        law_common_types(type_tree(types[j]));
    }
}

/// An emission without groups fails under a schema with a time of a unit that its width does not go
/// with, of which arrow has no columns, and changes nothing.
pub proof fn law_emit_odd_times<
    X,
    A: GroupsAccumulator,
    O: OrderedGroups,
    M: MemoryReservation,
>(
    stream: &mut GroupedHashAggregateStream<X, A, O, M>,
    emit_to: EmitTo,
    result: Result<Batch, AggregateError>,
    j: int,
)
    requires
        call_ensures(
            GroupedHashAggregateStream::<X, A, O, M>::emit,
            (stream, emit_to),
            result,
        ),
        old(stream).trace().groups.len() == 0,
        0 <= j < schema_types(old(stream).output_schema()).len(),
        ({
            let kind = type_tree(schema_types(old(stream).output_schema())[j]).kind;
            kind is Time32Microsecond || kind is Time32Nanosecond || kind is Time64Second || kind
                is Time64Millisecond
        }),
    ensures
        result matches Err(e) && e is InvalidType,
        final(stream).trace() == old(stream).trace(),
{
    assert(!type_tree(schema_types(old(stream).output_schema())[j]).in_arrow());
}

/// Whether the accumulator can be the one that the aggregate gives: one of its own where it says
/// that it has that, and the adapter where it says that it has not.
pub open spec fn accumulator_of<E: AggregateExpr>(
    aggregate: &E,
    accumulator: E::Accumulator,
) -> bool {
    ||| call_ensures(E::groups_accumulator_supported, (aggregate,), true) && call_ensures(
        E::create_groups_accumulator,
        (aggregate,),
        Ok(accumulator),
    )
    ||| call_ensures(E::groups_accumulator_supported, (aggregate,), false) && call_ensures(
        E::create_adapter,
        (aggregate,),
        accumulator,
    )
}

/// Whether the aggregate can fail to give an accumulator, with the error: it says that it has one
/// of its own, and then reports the error.
pub open spec fn accumulator_fails<E: AggregateExpr>(aggregate: &E, error: AggregateError) -> bool {
    call_ensures(E::groups_accumulator_supported, (aggregate,), true) && call_ensures(
        E::create_groups_accumulator,
        (aggregate,),
        Err(error),
    )
}

/// An aggregate gives an accumulator of its own where it has that, and the adapter otherwise, which
/// cannot fail.
pub proof fn law_create_group_accumulator<E: AggregateExpr>(
    aggregate: &E,
    result: Result<E::Accumulator, AggregateError>,
)
    requires
        call_ensures(create_group_accumulator::<E>, (aggregate,), result),
    ensures
        match result {
            Ok(accumulator) => accumulator_of(aggregate, accumulator),
            Err(e) => accumulator_fails(aggregate, e),
        },
{
}

/// Each aggregate gives its own accumulator, in order, or one of them fails.
pub proof fn law_create_accumulators<E: AggregateExpr>(
    aggregates: &Vec<E>,
    result: Result<Vec<E::Accumulator>, AggregateError>,
)
    requires
        call_ensures(create_accumulators::<E>, (aggregates,), result),
    ensures
        match result {
            Ok(accumulators) => accumulators@.len() == aggregates@.len() && forall|k: int|
                0 <= k < aggregates@.len() ==> accumulator_of(
                    &#[trigger] aggregates@[k],
                    accumulators@[k],
                ),
            Err(e) => exists|k: int|
                0 <= k < aggregates@.len() && accumulator_fails(&#[trigger] aggregates@[k], e),
        },
{
    match result {
        Ok(accumulators) => {
            assert forall|k: int| 0 <= k < aggregates@.len() implies accumulator_of(
                &#[trigger] aggregates@[k],
                accumulators@[k],
            ) by {
                assert(creates(&aggregates@[k], Ok(accumulators@[k])));
            }
        },
        Err(e) => {
            let made = choose|made: Seq<E::Accumulator>| #[trigger]
                created(aggregates@, made) && made.len() < aggregates@.len() && creates(
                    &aggregates@[made.len() as int],
                    Err(e),
                );
            assert(accumulator_fails(&aggregates@[made.len() as int], e));
        },
    }
}

/// Rows are filtered as the plan says. States are not filtered: there is no filter for any of the
/// aggregates.
pub proof fn law_filter_expressions<X>(
    mode: AggregateMode,
    filters: Vec<Option<X>>,
    count: usize,
    result: Vec<Option<X>>,
)
    requires
        call_ensures(filter_expressions::<X>, (mode, filters, count), result),
    ensures
        match mode {
            AggregateMode::Partial
            | AggregateMode::Single
            | AggregateMode::SinglePartitioned => result@ == filters@,
            AggregateMode::Final
            | AggregateMode::FinalPartitioned => result@.len() == count && forall|k: int|
                0 <= k < count ==> #[trigger] result@[k] is None,
        },
{
}

/// An aggregation that is made has no groups, has called nothing and waits for input. It is of the
/// mode, the schema, the arguments and the size of output batches that the plan and the caller
/// say; its group keys are the first fields of the schema; it has the accumulator of each
/// aggregate, in order; it filters rows as the plan says and states not at all; and it follows an
/// order exactly where the plan has one.
pub proof fn law_new<
    E: AggregateExpr<Accumulator = A>,
    X,
    A: GroupsAccumulator,
    O: OrderedGroups,
    M: MemoryReservation,
>(
    agg: AggregateExec<E, X, O::Plan>,
    reservation: M,
    batch_size: usize,
    stream: GroupedHashAggregateStream<X, A, O, M>,
    k: int,
)
    requires
        call_ensures(
            GroupedHashAggregateStream::<X, A, O, M>::new::<E>,
            (agg, reservation, batch_size),
            Ok(stream),
        ),
    ensures
        stream.inv(),
        stream.trace().groups.len() == 0,
        stream.trace().ordering.len() == 0,
        stream.trace().reservations == reservation.requests(),
        in_step(stream.trace()),
        stream.state() is ReadingInput,
        !stream.ended(),
        stream.max_rows() == batch_size,
        stream.aggregate_mode() == agg.mode,
        stream.output_schema() == *agg.schema,
        stream.arguments() == agg.aggregate_arguments@,
        stream.key_types().len() == agg.num_group_exprs <= schema_types(*agg.schema).len(),
        0 <= k < agg.num_group_exprs ==> stream.key_types()[k] == schema_types(*agg.schema)[k],
        stream.accs().len() == agg.aggr_expr@.len(),
        0 <= k < agg.aggr_expr@.len() ==> accumulator_of(&agg.aggr_expr@[k], stream.accs()[k]),
        0 <= k < agg.aggr_expr@.len() ==> stream.trace().accumulators[k]
            == stream.accs()[k].history(),
        match agg.aggregation_ordering {
            None => stream.order() is Unordered,
            Some(plan) => stream.order() matches GroupOrdering::Ordered(ordering) && exists|
                keys: Schema,
            |
                {
                    &&& schema_types(keys) == schema_types(*agg.schema).take(
                        agg.num_group_exprs as int,
                    )
                    &&& #[trigger] call_ensures(O::try_new, (&keys, &plan), Ok(ordering))
                },
        },
        match agg.mode {
            AggregateMode::Partial
            | AggregateMode::Single
            | AggregateMode::SinglePartitioned => stream.filters() == agg.filter_expr@,
            AggregateMode::Final
            | AggregateMode::FinalPartitioned => stream.filters().len() == agg.aggr_expr@.len() && (
            0 <= k < agg.aggr_expr@.len() ==> stream.filters()[k] is None),
        },
{
    if 0 <= k < agg.aggr_expr@.len() {
        assert(creates(&agg.aggr_expr@[k], Ok(stream.accs()[k])));
    }
    if let Some(plan) = agg.aggregation_ordering {
        let ordering = stream.order()->Ordered_0;
        let keys = choose|keys: Schema|
            #[trigger] groups_by(agg, keys) && call_ensures(
                O::try_new,
                (&keys, &plan),
                Ok(ordering),
            );
        assert(call_ensures(O::try_new, (&keys, &plan), Ok(ordering)));
    }
}

/// The schema of the group keys has the first fields, as many as there are group keys. There is
/// none where the schema has fewer fields.
pub proof fn law_group_schema(
    schema: &Schema,
    n: usize,
    result: Result<Schema, ArrowError>,
    j: int,
)
    requires
        call_ensures(group_schema, (schema, n), result),
    ensures
        result is Err <==> n > schema_types(*schema).len(),
        result matches Ok(keys) ==> schema_types(keys).len() == n && (0 <= j < n ==> schema_types(
            keys,
        )[j] == schema_types(*schema)[j]),
{
}

/// Whether the schema of the plan has as many fields as there are group keys.
spec fn has_key_fields<E, X, P>(agg: AggregateExec<E, X, P>) -> bool {
    agg.num_group_exprs <= schema_types(*agg.schema).len()
}

/// An aggregation can be made wherever the schema has as many fields as there are group keys, the
/// keys are of types in common use, no aggregate fails to give an accumulator, and the ordering, if
/// there is one, does not turn the plan down.
pub proof fn law_new_succeeds<
    E: AggregateExpr<Accumulator = A>,
    X,
    A: GroupsAccumulator,
    O: OrderedGroups,
    M: MemoryReservation,
>(
    agg: AggregateExec<E, X, O::Plan>,
    reservation: M,
    batch_size: usize,
    error: AggregateError,
)
    requires
        call_ensures(
            GroupedHashAggregateStream::<X, A, O, M>::new::<E>,
            (agg, reservation, batch_size),
            Err(error),
        ),
        forall|j: int|
            0 <= j < agg.num_group_exprs && j < schema_types(*agg.schema).len() ==> common(
                type_tree(#[trigger] schema_types(*agg.schema)[j]),
            ),
    ensures
        ({
            ||| agg.num_group_exprs > schema_types(*agg.schema).len() && error is Arrow
            ||| exists|k: int|
                0 <= k < agg.aggr_expr@.len() && accumulator_fails(
                    &#[trigger] agg.aggr_expr@[k],
                    error,
                )
            ||| agg.aggregation_ordering matches Some(plan) && exists|keys: Schema|
                #[trigger] call_ensures(O::try_new, (&keys, &plan), Err(error))
        }),
{
    if creation_fails(agg.aggr_expr@, error) {
        let made = choose|made: Seq<E::Accumulator>| #[trigger]
            created(agg.aggr_expr@, made) && made.len() < agg.aggr_expr@.len() && creates(
                &agg.aggr_expr@[made.len() as int],
                Err(error),
            );
        assert(accumulator_fails(&agg.aggr_expr@[made.len() as int], error));
    } else if has_key_fields(agg) {
        let types = agg.group_types();
        assert forall|j: int| 0 <= j < types.len() implies common(
            type_tree(#[trigger] types[j]),
        ) by {
            assert(types[j] == schema_types(*agg.schema)[j]);
        }
        law_store_for_common_types(types, error);
        let plan = agg.aggregation_ordering->0;
        let keys = choose|keys: Schema|
            #[trigger] groups_by(agg, keys) && call_ensures(
                O::try_new,
                (&keys, &plan),
                Err(error),
            );
        assert(call_ensures(O::try_new, (&keys, &plan), Err(error)));
    }
}

/// The bytes that an aggregation asks for are those that the accumulators and the ordering say of
/// themselves, those of the store of group keys, and those of the group indices, added up, as far
/// as they can be counted: `sums` adds up those of the accumulators. Without an order nothing is
/// asked for it.
pub proof fn law_request<X, A: GroupsAccumulator, O: OrderedGroups, M: MemoryReservation>(
    stream: &GroupedHashAggregateStream<X, A, O, M>,
    bytes: usize,
    sums: Seq<int>,
) -> (parts: (usize, usize))
    requires
        stream.takes_up(bytes),
        sums.len() == stream.accs().len() + 1,
        sums[0] == 0,
        forall|k: int|
            0 <= k < stream.accs().len() ==> #[trigger] sums[k + 1] == sums[k]
                + stream.accs()[k].memory(),
    ensures
        stream.store_takes_up(parts.0),
        stream.indices_take_up(parts.1),
        ({
            let ordering = match stream.order() {
                GroupOrdering::Unordered(_) => 0,
                GroupOrdering::Ordered(ordering) => ordering.memory() as int,
            };
            let total = sums.last() + ordering + parts.0 + parts.1;
            &&& total <= usize::MAX ==> bytes == total
            &&& total > usize::MAX ==> bytes == usize::MAX
        }),
{
    let (store, group_indices) = choose|store: usize, group_indices: usize| #[trigger]
        stream.store_takes_up(store) && #[trigger] stream.indices_take_up(group_indices) && bytes
            == request(
            memories(stream.accs()),
            stream.order().memory(),
            store,
            group_indices,
        );
    lemma_sums(memories(stream.accs()), sums, stream.accs().len() as int);
    assert(memories(stream.accs()).take(stream.accs().len() as int) =~= memories(stream.accs()));
    (store, group_indices)
}

/// The sum of the first sizes.
proof fn lemma_sums(sizes: Seq<usize>, sums: Seq<int>, n: int)
    requires
        0 <= n <= sizes.len(),
        sums.len() == sizes.len() + 1,
        sums[0] == 0,
        forall|k: int|
            0 <= k < sizes.len() ==> #[trigger] sums[k + 1] == sums[k] + sizes[k],
    ensures
        sum(sizes.take(n)) == sums[n],
    decreases n,
{
    if n > 0 {
        lemma_sums(sizes, sums, n - 1);
        assert(sizes.take(n).drop_last() =~= sizes.take(n - 1));
        assert(sums[n - 1 + 1] == sums[n - 1] + sizes[n - 1]);
    }
}

} // verus!
