//! What an aggregation does, as the calls that it makes: which groups there are, what each
//! accumulator is given and asked for, what the ordering is told, and what memory is asked for.

use crate::accumulator::{AccumulatorCall, AggregateMode, BatchArgs};
use crate::columns::{
    batch_rows, batch_schema, column_rows, column_type, matches_schema, nulls_allowed, same_length,
    Batch, Column, Row,
};
use crate::data_type::{all_in_arrow, schema_types};
use crate::encoding::Noted;
use crate::error::AggregateError;
use crate::group_values::{intern_fails, internable, noted_by};
use crate::grouping::{emitted, indices, remaining, with_rows, EmitTo};
use crate::ordering::OrderingCall;
use crate::rows::{columns_fail, columns_made};
use arrow::array::BooleanArray;
use arrow::datatypes::{DataType, Schema};
use vstd::prelude::*;

verus! {

/// An input batch once its expressions have been evaluated.
pub struct EvaluatedBatch {
    /// The group key columns, for each grouping set.
    pub group_by_values: Vec<Vec<Column>>,
    /// The arguments of each aggregate.
    pub input_values: Vec<Vec<Column>>,
    /// The filter of each aggregate that has one.
    pub filter_values: Vec<Option<BooleanArray>>,
}

/// The groups of an aggregation, and the calls that it has made.
#[verifier::ext_equal]
pub struct Trace {
    /// The groups, in the order of their indices.
    pub groups: Seq<Row>,
    /// What can have been taken note of, going by what came with the group keys.
    pub noted: Noted,
    /// The calls that each accumulator has had.
    pub accumulators: Seq<Seq<AccumulatorCall>>,
    /// What the ordering has been told.
    pub ordering: Seq<OrderingCall>,
    /// The memory that was asked for, with the answers.
    pub reservations: Seq<(usize, Result<(), AggregateError>)>,
}

/// The call by which an accumulator takes in a batch.
pub open spec fn batch_call(
    mode: AggregateMode,
    args: BatchArgs,
    result: Result<(), AggregateError>,
) -> AccumulatorCall {
    if mode.merges() {
        AccumulatorCall::MergeBatch(args, result)
    } else {
        AccumulatorCall::UpdateBatch(args, result)
    }
}

/// The call by which an accumulator hands out the given columns.
pub open spec fn emit_call(
    mode: AggregateMode,
    emit_to: EmitTo,
    columns: Seq<Column>,
) -> AccumulatorCall {
    if mode.outputs_state() {
        AccumulatorCall::State(emit_to, Ok(columns))
    } else {
        AccumulatorCall::Evaluate(emit_to, Ok(columns[0]))
    }
}

/// The call by which an accumulator fails to hand out anything.
pub open spec fn emit_failure(
    mode: AggregateMode,
    emit_to: EmitTo,
    error: AggregateError,
) -> AccumulatorCall {
    if mode.outputs_state() {
        AccumulatorCall::State(emit_to, Err(error))
    } else {
        AccumulatorCall::Evaluate(emit_to, Err(error))
    }
}

/// The columns of all lists, one list after the other.
pub open spec fn concat(lists: Seq<Seq<Column>>) -> Seq<Column>
    decreases lists.len(),
{
    if lists.len() == 0 {
        Seq::empty()
    } else {
        concat(lists.drop_last()) + lists.last()
    }
}

impl EvaluatedBatch {
    /// The columns of a grouping set.
    pub open spec fn set_columns(&self, s: int) -> Seq<Column> {
        self.group_by_values@[s]@
    }

    /// The group keys of the rows, under a grouping set.
    pub open spec fn set_rows(&self, s: int) -> Seq<Row> {
        column_rows(self.set_columns(s))
    }

    /// The number of accumulators that take part: each needs its arguments and its filter.
    pub open spec fn fed_count(&self, accumulators: nat) -> nat {
        let inputs = if self.input_values@.len() < accumulators {
            self.input_values@.len()
        } else {
            accumulators
        };
        if self.filter_values@.len() < inputs {
            self.filter_values@.len()
        } else {
            inputs
        }
    }

    /// What accumulator `k` is given along with the group of each row.
    pub open spec fn args(
        &self,
        group_indices: Seq<usize>,
        total_num_groups: usize,
        k: int,
    ) -> BatchArgs {
        BatchArgs {
            values: self.input_values@[k]@,
            group_indices,
            filter: self.filter_values@[k],
            total_num_groups,
        }
    }
}

/// The calls of the accumulators once the first `made` of them have taken in a batch, of which
/// the last returned `last` and the others succeeded.
pub open spec fn fed(
    before: Seq<Seq<AccumulatorCall>>,
    mode: AggregateMode,
    batch: &EvaluatedBatch,
    group_indices: Seq<usize>,
    total_num_groups: usize,
    made: int,
    last: Result<(), AggregateError>,
) -> Seq<Seq<AccumulatorCall>> {
    Seq::new(
        before.len(),
        |k: int|
            if k < made {
                before[k].push(
                    batch_call(
                        mode,
                        batch.args(group_indices, total_num_groups, k),
                        if k == made - 1 {
                            last
                        } else {
                            Ok(())
                        },
                    ),
                )
            } else {
                before[k]
            },
    )
}

/// What the ordering has been told once grouping set `s` has been interned: it hears of the set
/// only if that brought new groups.
pub open spec fn told(
    before: Trace,
    batch: &EvaluatedBatch,
    s: int,
    groups: Seq<Row>,
    result: Result<(), AggregateError>,
) -> Seq<OrderingCall> {
    if groups.len() > before.groups.len() {
        before.ordering.push(
            OrderingCall::NewGroups {
                group_values: batch.set_columns(s),
                group_indices: indices(groups, batch.set_rows(s)),
                total_num_groups: groups.len() as usize,
                result,
            },
        )
    } else {
        before.ordering
    }
}

/// The aggregation after grouping set `s` of a batch, where nothing fails: the rows have been
/// added to the groups, and every accumulator has had one call.
pub open spec fn after_set(
    before: Trace,
    mode: AggregateMode,
    batch: &EvaluatedBatch,
    s: int,
) -> Trace {
    let groups = with_rows(before.groups, batch.set_rows(s));
    Trace {
        groups,
        noted: before.noted.after(batch.set_columns(s)),
        accumulators: fed(
            before.accumulators,
            mode,
            batch,
            indices(groups, batch.set_rows(s)),
            groups.len() as usize,
            batch.fed_count(before.accumulators.len()) as int,
            Ok(()),
        ),
        ordering: told(before, batch, s, groups, Ok(())),
        reservations: before.reservations,
    }
}

/// The aggregation after the first `sets` grouping sets of a batch, where nothing fails.
pub open spec fn after_sets(
    before: Trace,
    mode: AggregateMode,
    batch: &EvaluatedBatch,
    sets: int,
) -> Trace
    decreases sets,
{
    if sets <= 0 {
        before
    } else {
        after_set(after_sets(before, mode, batch, sets - 1), mode, batch, sets - 1)
    }
}

/// Whether `after` is where an aggregation can stand that failed in grouping set `s` with the
/// given error: the set was not interned, or the ordering, where there is one, turned the new
/// groups down, or an accumulator failed and those after it were not called.
pub open spec fn stopped_in_set(
    before: Trace,
    types: Seq<DataType>,
    mode: AggregateMode,
    ordered: bool,
    batch: &EvaluatedBatch,
    s: int,
    error: AggregateError,
    after: Trace,
) -> bool {
    let groups = with_rows(before.groups, batch.set_rows(s));
    let noted = before.noted.after(batch.set_columns(s));
    ||| {
        &&& intern_fails(types, before.groups, before.noted, batch.set_columns(s), error)
        &&& after == (Trace {
            noted: noted_by(before.noted, types, batch.set_columns(s), Err(error)),
            ..before
        })
    }
    ||| {
        &&& ordered
        &&& internable(types, before.groups, batch.set_columns(s))
        &&& groups.len() > before.groups.len()
        &&& after == (Trace {
            groups,
            noted,
            ordering: told(before, batch, s, groups, Err(error)),
            ..before
        })
    }
    ||| {
        &&& internable(types, before.groups, batch.set_columns(s))
        &&& exists|made: int|
            0 < made <= batch.fed_count(before.accumulators.len()) && after == (Trace {
                groups,
                noted,
                accumulators: #[trigger] fed(
                    before.accumulators,
                    mode,
                    batch,
                    indices(groups, batch.set_rows(s)),
                    groups.len() as usize,
                    made,
                    Err(error),
                ),
                ordering: told(before, batch, s, groups, Ok(())),
                ..before
            })
    }
}

/// Whether the first `sets` grouping sets of a batch can be interned one after the other.
pub open spec fn sets_internable(
    before: Trace,
    types: Seq<DataType>,
    mode: AggregateMode,
    batch: &EvaluatedBatch,
    sets: int,
) -> bool {
    forall|s: int|
        0 <= s < sets ==> internable(
            types,
            (#[trigger] after_sets(before, mode, batch, s)).groups,
            batch.set_columns(s),
        )
}

/// The aggregation after a request for memory.
pub open spec fn resized(before: Trace, bytes: usize, result: Result<(), AggregateError>) -> Trace {
    Trace { reservations: before.reservations.push((bytes, result)), ..before }
}

/// Whether an aggregation can have taken in a batch and stand at `after`: every grouping set was
/// taken in, and the memory that was then asked for was granted.
pub open spec fn takes_in(
    before: Trace,
    types: Seq<DataType>,
    mode: AggregateMode,
    batch: &EvaluatedBatch,
    after: Trace,
) -> bool {
    let sets = batch.group_by_values@.len() as int;
    &&& sets_internable(before, types, mode, batch, sets)
    &&& exists|bytes: usize|
        after == #[trigger] resized(after_sets(before, mode, batch, sets), bytes, Ok(()))
}

/// Whether an aggregation can have failed over a batch with the given error and stand at `after`:
/// it stopped in some grouping set after those before it were taken in, or the memory was denied
/// after all of them were.
pub open spec fn intake_fails(
    before: Trace,
    types: Seq<DataType>,
    mode: AggregateMode,
    ordered: bool,
    batch: &EvaluatedBatch,
    after: Trace,
    error: AggregateError,
) -> bool {
    let sets = batch.group_by_values@.len() as int;
    ||| exists|s: int|
        0 <= s < sets && sets_internable(before, types, mode, batch, s)
            && #[trigger] stopped_in_set(
            after_sets(before, mode, batch, s),
            types,
            mode,
            ordered,
            batch,
            s,
            error,
            after,
        )
    ||| sets_internable(before, types, mode, batch, sets) && exists|bytes: usize|
        after == #[trigger] resized(after_sets(before, mode, batch, sets), bytes, Err(error))
}

/// The aggregation once the ordering has been told that there is no more input.
pub open spec fn input_ended(before: Trace) -> Trace {
    Trace { ordering: before.ordering.push(OrderingCall::InputDone), ..before }
}

/// The groups that are left, and what the ordering has been told, once group keys were emitted.
pub open spec fn keys_emitted(before: Trace, emit_to: EmitTo) -> Trace {
    Trace {
        groups: remaining(before.groups, emit_to),
        ordering: match emit_to {
            EmitTo::All => before.ordering,
            EmitTo::First(n) => before.ordering.push(OrderingCall::RemoveGroups(n)),
        },
        ..before
    }
}

/// The calls of the accumulators once the first of them have handed out their columns.
pub open spec fn asked(
    before: Seq<Seq<AccumulatorCall>>,
    mode: AggregateMode,
    emit_to: EmitTo,
    outputs: Seq<Seq<Column>>,
) -> Seq<Seq<AccumulatorCall>> {
    Seq::new(
        before.len(),
        |k: int|
            if k < outputs.len() {
                before[k].push(emit_call(mode, emit_to, outputs[k]))
            } else {
                before[k]
            },
    )
}

/// The aggregation once group keys were emitted and the first accumulators have handed out their
/// columns.
pub open spec fn outputs_taken(
    before: Trace,
    mode: AggregateMode,
    emit_to: EmitTo,
    outputs: Seq<Seq<Column>>,
) -> Trace {
    Trace {
        accumulators: asked(before.accumulators, mode, emit_to, outputs),
        ..keys_emitted(before, emit_to)
    }
}

/// Whether the outputs are as many columns each as the mode calls for: one value column, or any
/// number of state columns.
pub open spec fn outputs_fit(mode: AggregateMode, outputs: Seq<Seq<Column>>) -> bool {
    mode.outputs_state() || forall|k: int|
        0 <= k < outputs.len() ==> (#[trigger] outputs[k]).len() == 1
}

/// The calls of the accumulators where the one after those that handed out `outputs` failed.
pub open spec fn asked_in_vain(
    before: Seq<Seq<AccumulatorCall>>,
    mode: AggregateMode,
    emit_to: EmitTo,
    outputs: Seq<Seq<Column>>,
    error: AggregateError,
) -> Seq<Seq<AccumulatorCall>> {
    asked(before, mode, emit_to, outputs).update(
        outputs.len() as int,
        before[outputs.len() as int].push(emit_failure(mode, emit_to, error)),
    )
}

/// Whether the columns are the keys of the groups to emit.
pub open spec fn are_keys(
    types: Seq<DataType>,
    groups: Seq<Row>,
    emit_to: EmitTo,
    columns: Seq<Column>,
) -> bool {
    &&& same_length(columns)
    &&& column_rows(columns) == emitted(groups, emit_to)
    &&& columns.len() == types.len()
    &&& forall|j: int| 0 <= j < columns.len() ==> column_type(#[trigger] columns[j]) == types[j]
}

/// Whether an emission can end with the given batch: without groups it is empty and nothing was
/// called; otherwise its columns are the group keys, and after them what each accumulator handed
/// out.
pub open spec fn emits(
    before: Trace,
    types: Seq<DataType>,
    schema: Schema,
    mode: AggregateMode,
    emit_to: EmitTo,
    after: Trace,
    batch: Batch,
) -> bool {
    &&& batch_schema(batch) == schema
    &&& if before.groups.len() == 0 {
        &&& after == before
        &&& batch_rows(batch) == Seq::<Row>::empty()
        &&& all_in_arrow(schema_types(schema))
    } else {
        exists|keys: Seq<Column>, outputs: Seq<Seq<Column>>, bytes: usize|
            {
                &&& columns_made(types, emitted(before.groups, emit_to))
                &&& are_keys(types, before.groups, emit_to, keys)
                &&& outputs.len() == before.accumulators.len()
                &&& outputs_fit(mode, outputs)
                &&& after == #[trigger] resized(
                    outputs_taken(before, mode, emit_to, outputs),
                    bytes,
                    Ok(()),
                )
                &&& matches_schema(schema, keys + concat(outputs))
                &&& batch_rows(batch) == #[trigger] column_rows(keys + concat(outputs))
            }
    }
}

/// Whether an emission can fail with the given error and leave `after`. Without groups, there is no
/// empty batch of the schema. With groups, the keys could not be turned into columns and nothing
/// was called, or an accumulator failed and those after it were not called, or the memory was
/// denied, or the columns make no batch under the schema.
pub open spec fn emission_fails(
    before: Trace,
    types: Seq<DataType>,
    schema: Schema,
    mode: AggregateMode,
    emit_to: EmitTo,
    after: Trace,
    error: AggregateError,
) -> bool {
    if before.groups.len() == 0 {
        after == before && error is InvalidType && !all_in_arrow(schema_types(schema))
    } else {
        ||| after == before && columns_fail(types, emitted(before.groups, emit_to), error)
        ||| exists|outputs: Seq<Seq<Column>>|
            {
                &&& columns_made(types, emitted(before.groups, emit_to))
                &&& outputs.len() < before.accumulators.len()
                &&& outputs_fit(mode, outputs)
                &&& after == (Trace {
                    accumulators: #[trigger] asked_in_vain(
                        before.accumulators,
                        mode,
                        emit_to,
                        outputs,
                        error,
                    ),
                    ..keys_emitted(before, emit_to)
                })
            }
        ||| exists|outputs: Seq<Seq<Column>>, bytes: usize|
            {
                &&& columns_made(types, emitted(before.groups, emit_to))
                &&& outputs.len() == before.accumulators.len()
                &&& outputs_fit(mode, outputs)
                &&& after == #[trigger] resized(
                    outputs_taken(before, mode, emit_to, outputs),
                    bytes,
                    Err(error),
                )
            }
        ||| exists|keys: Seq<Column>, outputs: Seq<Seq<Column>>, bytes: usize|
            {
                &&& columns_made(types, emitted(before.groups, emit_to))
                &&& are_keys(types, before.groups, emit_to, keys)
                &&& outputs.len() == before.accumulators.len()
                &&& outputs_fit(mode, outputs)
                &&& after == #[trigger] resized(
                    outputs_taken(before, mode, emit_to, outputs),
                    bytes,
                    Ok(()),
                )
                &&& error is Arrow
                &&& !(matches_schema(schema, #[trigger] (keys + concat(outputs)))
                    && nulls_allowed(schema, keys + concat(outputs)))
            }
    }
}

} // verus!
