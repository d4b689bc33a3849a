//! What each call of an aggregation is: which method of an accumulator is called for which mode,
//! with what, what the ordering is told, and when memory is asked for.

use crate::accumulator::{AccumulatorCall, AggregateMode, BatchArgs};
use crate::columns::{batch_rows, column_row, column_rows, column_values, Batch, Column, Row};
use crate::error::AggregateError;
use crate::grouping::{
    emitted, indices, law_no_other_groups, lemma_with_rows, with_rows, EmitTo,
};
use crate::laws::{
    calls_for_sets, law_groups_after_sets, law_index_is_group_of_row, law_one_call_per_set,
    lemma_rest_of_sets, rows_of_batch, rows_of_sets,
};
use crate::ordering::OrderingCall;
use crate::rows::columns_made;
use crate::table::MAX_GROUPS;
use crate::trace::{
    after_sets, are_keys, asked_in_vain, concat, emission_fails, emits, fed, input_ended,
    intake_fails, keys_emitted, outputs_fit, outputs_taken, resized, sets_internable,
    stopped_in_set, takes_in, EvaluatedBatch, Trace,
};
use arrow::datatypes::{DataType, Schema};
use vstd::prelude::*;

verus! {

/// Whether the call is the one by which an accumulator takes in a batch: rows are updated, and
/// states are merged.
pub open spec fn takes_rows(
    call: AccumulatorCall,
    mode: AggregateMode,
    args: BatchArgs,
    result: Result<(), AggregateError>,
) -> bool {
    match mode {
        AggregateMode::Partial | AggregateMode::Single | AggregateMode::SinglePartitioned => call
            == AccumulatorCall::UpdateBatch(args, result),
        AggregateMode::Final | AggregateMode::FinalPartitioned => call
            == AccumulatorCall::MergeBatch(args, result),
    }
}

/// Whether there is one group index for each row of the columns, and each is that of one of the
/// first `total` groups, the one whose key is the row.
pub open spec fn points_to(
    group_indices: Seq<usize>,
    columns: Seq<Column>,
    groups: Seq<Row>,
    total: usize,
) -> bool {
    &&& total <= groups.len()
    &&& group_indices.len() == column_rows(columns).len()
    &&& forall|row: int|
        0 <= row < group_indices.len() ==> (#[trigger] group_indices[row]) < total
            && groups[group_indices[row] as int] == column_rows(columns)[row]
}

/// A batch feeds every accumulator that it has arguments and a filter for, once for each grouping
/// set, and no other. What was called before stays.
pub proof fn law_each_accumulator_fed(
    before: Trace,
    types: Seq<DataType>,
    mode: AggregateMode,
    batch: &EvaluatedBatch,
    after: Trace,
    k: int,
)
    requires
        takes_in(before, types, mode, batch, after),
        0 <= k < before.accumulators.len(),
    ensures
        after.accumulators.len() == before.accumulators.len(),
        after.accumulators[k].len() == before.accumulators[k].len() + if k
            < batch.input_values@.len() && k < batch.filter_values@.len() {
            batch.group_by_values@.len()
        } else {
            0
        },
        after.accumulators[k].take(before.accumulators[k].len() as int) == before.accumulators[k],
{
    let sets = batch.group_by_values@.len() as int;
    law_one_call_per_set(before, mode, batch, sets, k);
    assert(after.accumulators[k].take(before.accumulators[k].len() as int)
        =~= before.accumulators[k]);
}

/// For each grouping set of a batch an accumulator is called to update rows where the mode is
/// partial or single, and to merge states where it is final. It is given its own arguments and its
/// own filter, for each row the index of the group whose key is the row, and as many groups as
/// there are once the set is in.
pub proof fn law_call_for_set(
    before: Trace,
    types: Seq<DataType>,
    mode: AggregateMode,
    batch: &EvaluatedBatch,
    after: Trace,
    k: int,
    s: int,
) -> (args: BatchArgs)
    requires
        takes_in(before, types, mode, batch, after),
        before.groups.no_duplicates(),
        0 <= k < before.accumulators.len(),
        k < batch.input_values@.len(),
        k < batch.filter_values@.len(),
        0 <= s < batch.group_by_values@.len(),
    ensures
        takes_rows(
            after.accumulators[k][before.accumulators[k].len() + s],
            mode,
            args,
            Ok(()),
        ),
        args.values == batch.input_values@[k]@,
        args.filter == batch.filter_values@[k],
        points_to(
            args.group_indices,
            batch.group_by_values@[s]@,
            after.groups,
            args.total_num_groups,
        ),
        before.groups.len() <= args.total_num_groups,
        forall|g: int|
            before.groups.len() <= g < args.total_num_groups ==> rows_of_sets(
                batch,
                s + 1,
            ).contains(#[trigger] after.groups[g]),
        s == batch.group_by_values@.len() - 1 ==> args.total_num_groups == after.groups.len(),
{
    let sets = batch.group_by_values@.len() as int;
    law_one_call_per_set(before, mode, batch, sets, k);
    let calls = calls_for_sets(before, mode, batch, sets, k);
    assert(after.accumulators[k][before.accumulators[k].len() + s] == calls[s]);
    let args = match calls[s] {
        AccumulatorCall::UpdateBatch(args, _) => args,
        AccumulatorCall::MergeBatch(args, _) => args,
        _ => arbitrary(),
    };
    lemma_groups_fit(before, types, mode, batch, s);
    law_groups_after_sets(before, mode, batch, s + 1);
    law_groups_after_sets(before, mode, batch, sets);
    lemma_with_rows(before.groups, rows_of_sets(batch, s + 1));
    lemma_rest_of_sets(before, mode, batch, s + 1, sets);
    let groups = after_sets(before, mode, batch, s + 1).groups;
    assert forall|row: int| 0 <= row < args.group_indices.len() implies (
    #[trigger] args.group_indices[row]) < args.total_num_groups
        && after.groups[args.group_indices[row] as int] == column_rows(
        batch.group_by_values@[s]@,
    )[row] by {
        law_index_is_group_of_row(before, mode, batch, s, row);
        assert(after.groups.take(groups.len() as int)[args.group_indices[row] as int]
            == groups[args.group_indices[row] as int]);
    }
    assert forall|g: int| before.groups.len() <= g < args.total_num_groups implies rows_of_sets(
        batch,
        s + 1,
    ).contains(#[trigger] after.groups[g]) by {
        assert(after.groups.take(groups.len() as int)[g] == groups[g]);
        lemma_new_group_is_row(before.groups, rows_of_sets(batch, s + 1), g);
    }
    args
}

/// The groups after each grouping set of a batch that is taken in are no more than a store holds.
proof fn lemma_groups_fit(
    before: Trace,
    types: Seq<DataType>,
    mode: AggregateMode,
    batch: &EvaluatedBatch,
    s: int,
)
    requires
        sets_internable(before, types, mode, batch, s + 1),
        0 <= s < batch.group_by_values@.len(),
    ensures
        after_sets(before, mode, batch, s + 1).groups.len() <= MAX_GROUPS,
{
    assert(after_sets(before, mode, batch, s).groups.len() >= 0);
}

/// A group that was not there before is one of the rows.
proof fn lemma_new_group_is_row(groups: Seq<Row>, rows: Seq<Row>, g: int)
    requires
        groups.no_duplicates(),
        groups.len() <= g < with_rows(groups, rows).len(),
    ensures
        rows.contains(with_rows(groups, rows)[g]),
{
    let after = with_rows(groups, rows);
    lemma_with_rows(groups, rows);
    law_no_other_groups(groups, rows, after[g]);
    assert(after.contains(after[g]));
    if groups.contains(after[g]) {
        let i = groups.index_of(after[g]);
        assert(after.take(groups.len() as int)[i] == after[i]);
    }
}

/// The groups after a batch: those from before, each where it was, and after them the rows of the
/// batch that were no groups, each of them once.
pub proof fn law_groups_of_batch(
    before: Trace,
    types: Seq<DataType>,
    mode: AggregateMode,
    batch: &EvaluatedBatch,
    after: Trace,
)
    requires
        takes_in(before, types, mode, batch, after),
        before.groups.no_duplicates(),
    ensures
        after.groups.no_duplicates(),
        before.groups.len() <= after.groups.len(),
        after.groups.take(before.groups.len() as int) == before.groups,
        forall|row: Row| #[trigger]
            after.groups.contains(row) <==> before.groups.contains(row) || rows_of_batch(
                batch,
            ).contains(row),
{
    let sets = batch.group_by_values@.len() as int;
    law_groups_after_sets(before, mode, batch, sets);
    lemma_with_rows(before.groups, rows_of_batch(batch));
    assert forall|row: Row| #[trigger]
        after.groups.contains(row) <==> before.groups.contains(row) || rows_of_batch(
            batch,
        ).contains(row) by {
        law_no_other_groups(before.groups, rows_of_batch(batch), row);
    }
}

/// New groups come in the order of their rows: where a batch brings a group, it does so on some
/// row of it, and all rows up to that one are groups that come no later.
pub proof fn law_groups_in_order(
    before: Trace,
    types: Seq<DataType>,
    mode: AggregateMode,
    batch: &EvaluatedBatch,
    after: Trace,
    g: int,
) -> (first: int)
    requires
        takes_in(before, types, mode, batch, after),
        before.groups.no_duplicates(),
        before.groups.len() <= g < after.groups.len(),
    ensures
        0 <= first < rows_of_batch(batch).len(),
        rows_of_batch(batch)[first] == after.groups[g],
        forall|i: int|
            0 <= i < first ==> after.groups.take(g).contains(#[trigger] rows_of_batch(batch)[i]),
{
    law_groups_after_sets(before, mode, batch, batch.group_by_values@.len() as int);
    lemma_first_row(before.groups, rows_of_batch(batch), g)
}

/// A new group has a first row, and all rows before it are groups that come earlier.
proof fn lemma_first_row(groups: Seq<Row>, rows: Seq<Row>, g: int) -> (first: int)
    requires
        groups.no_duplicates(),
        groups.len() <= g < with_rows(groups, rows).len(),
    ensures
        0 <= first < rows.len(),
        rows[first] == with_rows(groups, rows)[g],
        forall|i: int|
            0 <= i < first ==> with_rows(groups, rows).take(g).contains(#[trigger] rows[i]),
    decreases rows.len(),
{
    let after = with_rows(groups, rows);
    let earlier = with_rows(groups, rows.drop_last());
    lemma_with_rows(groups, rows.drop_last());
    if g < earlier.len() {
        let first = lemma_first_row(groups, rows.drop_last(), g);
        assert(after.take(g) =~= earlier.take(g));
        assert forall|i: int| 0 <= i < first implies after.take(g).contains(
            #[trigger] rows[i],
        ) by {
            assert(rows.drop_last()[i] == rows[i]);
        }
        first
    } else {
        assert(after.take(g) =~= earlier);
        assert forall|i: int| 0 <= i < rows.len() - 1 implies after.take(g).contains(
            #[trigger] rows[i],
        ) by {
            assert(rows.drop_last()[i] == rows[i]);
        }
        rows.len() - 1
    }
}

/// The number of groups that the ordering has last heard of: as many as it was told of when there
/// were new ones, less those that were removed since.
pub open spec fn heard(history: Seq<OrderingCall>) -> int
    decreases history.len(),
{
    if history.len() == 0 {
        0
    } else {
        let before = heard(history.drop_last());
        match history.last() {
            OrderingCall::NewGroups { total_num_groups, .. } => total_num_groups as int,
            OrderingCall::RemoveGroups(n) => if n <= before {
                before - n
            } else {
                0
            },
            OrderingCall::InputDone => before,
        }
    }
}

/// Whether the ordering has heard of as many groups as there are.
pub open spec fn in_step(trace: Trace) -> bool {
    heard(trace.ordering) == trace.groups.len()
}

/// What the ordering has heard of after one more call.
proof fn lemma_heard(history: Seq<OrderingCall>, call: OrderingCall)
    ensures
        heard(history.push(call)) == match call {
            OrderingCall::NewGroups { total_num_groups, .. } => total_num_groups as int,
            OrderingCall::RemoveGroups(n) => if n <= heard(history) {
                heard(history) - n
            } else {
                0
            },
            OrderingCall::InputDone => heard(history),
        },
{
    assert(history.push(call).drop_last() =~= history);
}

/// The ordering is told of a grouping set exactly where it brings groups, once, and then of the
/// columns of the set, of the group of each row, and of how many groups there are.
pub proof fn law_ordering_told_of_set(
    before: Trace,
    types: Seq<DataType>,
    mode: AggregateMode,
    batch: &EvaluatedBatch,
    s: int,
)
    requires
        sets_internable(before, types, mode, batch, s + 1),
        before.groups.no_duplicates(),
        0 <= s < batch.group_by_values@.len(),
    ensures
        ({
            let earlier = after_sets(before, mode, batch, s);
            let later = after_sets(before, mode, batch, s + 1);
            if later.groups.len() == earlier.groups.len() {
                later.ordering == earlier.ordering
            } else {
                &&& later.groups.len() > earlier.groups.len()
                &&& later.ordering.len() == earlier.ordering.len() + 1
                &&& later.ordering.drop_last() == earlier.ordering
                &&& later.ordering.last() matches OrderingCall::NewGroups {
                    group_values,
                    group_indices,
                    total_num_groups,
                    result,
                }
                &&& group_values == batch.group_by_values@[s]@
                &&& points_to(
                    group_indices,
                    batch.group_by_values@[s]@,
                    later.groups,
                    total_num_groups,
                )
                &&& total_num_groups == later.groups.len()
                &&& result is Ok
            }
        }),
{
    let earlier = after_sets(before, mode, batch, s);
    let later = after_sets(before, mode, batch, s + 1);
    lemma_groups_fit(before, types, mode, batch, s);
    lemma_rest_of_sets(before, mode, batch, s, s + 1);
    if later.groups.len() > earlier.groups.len() {
        let group_indices = indices(later.groups, batch.keys_under(s));
        assert(later.ordering.drop_last() =~= earlier.ordering);
        assert(later.ordering.last() == (OrderingCall::NewGroups {
            group_values: batch.group_by_values@[s]@,
            group_indices,
            total_num_groups: later.groups.len() as usize,
            result: Ok(()),
        }));
        assert forall|row: int| 0 <= row < group_indices.len() implies (
        #[trigger] group_indices[row]) < later.groups.len()
            && later.groups[group_indices[row] as int] == column_rows(
            batch.group_by_values@[s]@,
        )[row] by {
            law_index_is_group_of_row(before, mode, batch, s, row);
        }
    }
}

/// Every call that a batch adds to those of the ordering tells of new groups, under one of the
/// grouping sets: of the columns of the set, of the group of each row, and of more groups than it
/// has heard of.
pub proof fn law_ordering_told(
    before: Trace,
    types: Seq<DataType>,
    mode: AggregateMode,
    batch: &EvaluatedBatch,
    after: Trace,
    i: int,
) -> (s: int)
    requires
        takes_in(before, types, mode, batch, after),
        before.groups.no_duplicates(),
        in_step(before),
        before.ordering.len() <= i < after.ordering.len(),
    ensures
        after.ordering.take(before.ordering.len() as int) == before.ordering,
        0 <= s < batch.group_by_values@.len(),
        after.ordering[i] matches OrderingCall::NewGroups {
            group_values,
            group_indices,
            total_num_groups,
            result,
        } && group_values == batch.group_by_values@[s]@ && points_to(
            group_indices,
            batch.group_by_values@[s]@,
            after.groups,
            total_num_groups,
        ) && total_num_groups > heard(after.ordering.take(i)) && result is Ok,
{
    let sets = batch.group_by_values@.len() as int;
    let s = lemma_told(before, types, mode, batch, sets, i);
    lemma_rest_of_sets(before, mode, batch, s + 1, sets);
    s
}

/// What the ordering is told over some grouping sets.
proof fn lemma_told(
    before: Trace,
    types: Seq<DataType>,
    mode: AggregateMode,
    batch: &EvaluatedBatch,
    sets: int,
    i: int,
) -> (s: int)
    requires
        sets_internable(before, types, mode, batch, sets),
        before.groups.no_duplicates(),
        in_step(before),
        0 <= sets <= batch.group_by_values@.len(),
        before.ordering.len() <= i < after_sets(before, mode, batch, sets).ordering.len(),
    ensures
        ({
            let after = after_sets(before, mode, batch, sets);
            let groups = after_sets(before, mode, batch, s + 1).groups;
            &&& after.ordering.take(before.ordering.len() as int) == before.ordering
            &&& 0 <= s < sets
            &&& after.ordering[i] matches OrderingCall::NewGroups {
                group_values,
                group_indices,
                total_num_groups,
                result,
            }
            &&& group_values == batch.group_by_values@[s]@
            &&& points_to(group_indices, batch.group_by_values@[s]@, groups, total_num_groups)
            &&& total_num_groups == groups.len()
            &&& total_num_groups > heard(after.ordering.take(i))
            &&& result is Ok
        }),
    decreases sets,
{
    let earlier = after_sets(before, mode, batch, sets - 1);
    let after = after_sets(before, mode, batch, sets);
    if sets > 0 {
        law_ordering_told_of_set(before, types, mode, batch, sets - 1);
        lemma_kept(before, mode, batch, sets - 1);
        lemma_kept(before, mode, batch, sets);
        if i < earlier.ordering.len() {
            let s = lemma_told(before, types, mode, batch, sets - 1, i);
            assert(after.ordering.take(i) =~= earlier.ordering.take(i));
            if after.ordering.len() > earlier.ordering.len() {
                assert(after.ordering.drop_last()[i] == after.ordering[i]);
            }
            s
        } else {
            assert(after.ordering.take(i) =~= earlier.ordering);
            lemma_in_step_after_sets(before, types, mode, batch, sets - 1);
            sets - 1
        }
    } else {
        0
    }
}

/// What the ordering was told before, it stays told.
proof fn lemma_kept(before: Trace, mode: AggregateMode, batch: &EvaluatedBatch, sets: int)
    ensures
        before.ordering.len() <= after_sets(before, mode, batch, sets).ordering.len(),
        after_sets(before, mode, batch, sets).ordering.take(before.ordering.len() as int)
            == before.ordering,
    decreases sets,
{
    if sets > 0 {
        lemma_kept(before, mode, batch, sets - 1);
        let earlier = after_sets(before, mode, batch, sets - 1).ordering;
        let after = after_sets(before, mode, batch, sets).ordering;
        let n = before.ordering.len() as int;
        assert forall|i: int| 0 <= i < n implies after[i] == before.ordering[i] by {
            assert(earlier.take(n)[i] == earlier[i]);
        }
        assert(after.take(n) =~= before.ordering);
    } else {
        assert(before.ordering.take(before.ordering.len() as int) =~= before.ordering);
    }
}

/// The ordering keeps count over the grouping sets.
proof fn lemma_in_step_after_sets(
    before: Trace,
    types: Seq<DataType>,
    mode: AggregateMode,
    batch: &EvaluatedBatch,
    sets: int,
)
    requires
        0 <= sets <= batch.group_by_values@.len(),
        sets_internable(before, types, mode, batch, sets),
        before.groups.no_duplicates(),
        in_step(before),
    ensures
        in_step(after_sets(before, mode, batch, sets)),
    decreases sets,
{
    if sets > 0 {
        lemma_in_step_after_sets(before, types, mode, batch, sets - 1);
        lemma_rest_of_sets(before, mode, batch, sets - 1, sets);
        let earlier = after_sets(before, mode, batch, sets - 1);
        let later = after_sets(before, mode, batch, sets);
        if later.groups.len() > earlier.groups.len() {
            assert(later.ordering.drop_last() =~= earlier.ordering);
        }
    }
}

/// However a batch ends, the ordering keeps count: it has heard of as many groups as there are.
pub proof fn law_intake_keeps_count(
    before: Trace,
    types: Seq<DataType>,
    mode: AggregateMode,
    ordered: bool,
    batch: &EvaluatedBatch,
    after: Trace,
)
    requires
        takes_in(before, types, mode, batch, after) || exists|error: AggregateError| #[trigger]
            intake_fails(before, types, mode, ordered, batch, after, error),
        before.groups.no_duplicates(),
        in_step(before),
    ensures
        in_step(after),
{
    if takes_in(before, types, mode, batch, after) {
        lemma_in_step_after_sets(
            before,
            types,
            mode,
            batch,
            batch.group_by_values@.len() as int,
        );
    } else {
        let error = choose|error: AggregateError| #[trigger]
            intake_fails(before, types, mode, ordered, batch, after, error);
        let s = lemma_failed_intake(before, types, mode, ordered, batch, after, error);
        lemma_in_step_after_sets(before, types, mode, batch, s);
        if s < batch.group_by_values@.len() {
            law_groups_after_sets(before, mode, batch, s);
            lemma_with_rows(before.groups, rows_of_sets(batch, s));
            lemma_in_step_where_stopped(
                after_sets(before, mode, batch, s),
                types,
                mode,
                ordered,
                batch,
                s,
                error,
                after,
            );
        }
    }
}

/// The ordering keeps count also in the grouping set that fails.
proof fn lemma_in_step_where_stopped(
    before: Trace,
    types: Seq<DataType>,
    mode: AggregateMode,
    ordered: bool,
    batch: &EvaluatedBatch,
    s: int,
    error: AggregateError,
    after: Trace,
)
    requires
        stopped_in_set(before, types, mode, ordered, batch, s, error, after),
        before.groups.no_duplicates(),
        in_step(before),
    ensures
        in_step(after),
{
    lemma_with_rows(before.groups, batch.keys_under(s));
    if after.groups.len() > before.groups.len() {
        assert(after.ordering.drop_last() =~= before.ordering);
    }
}

/// The groups that are left after an emission: where the first are emitted, all but those.
pub open spec fn left(groups: Seq<Row>, emit_to: EmitTo) -> Seq<Row> {
    match emit_to {
        EmitTo::All => groups,
        EmitTo::First(n) => if n <= groups.len() {
            groups.skip(n as int)
        } else {
            Seq::empty()
        },
    }
}

/// The groups that go out on an emission: the first of them, or all.
pub open spec fn shown(groups: Seq<Row>, emit_to: EmitTo) -> Seq<Row> {
    match emit_to {
        EmitTo::All => groups,
        EmitTo::First(n) => if n <= groups.len() {
            groups.take(n as int)
        } else {
            groups
        },
    }
}

/// What the ordering has been told after an emission: where the first groups are emitted, that as
/// many are gone.
pub open spec fn told_of_emission(history: Seq<OrderingCall>, emit_to: EmitTo) -> Seq<
    OrderingCall,
> {
    match emit_to {
        EmitTo::All => history,
        EmitTo::First(n) => history.push(OrderingCall::RemoveGroups(n)),
    }
}

/// Whether the call asks an accumulator for the groups to emit: for states where the mode is
/// partial, and otherwise for values.
pub open spec fn asks(call: AccumulatorCall, mode: AggregateMode, emit_to: EmitTo) -> bool {
    match mode {
        AggregateMode::Partial => call matches AccumulatorCall::State(to, _) && to == emit_to,
        AggregateMode::Final
        | AggregateMode::FinalPartitioned
        | AggregateMode::Single
        | AggregateMode::SinglePartitioned => call matches AccumulatorCall::Evaluate(to, _) && to
            == emit_to,
    }
}

/// The columns that a call of an accumulator handed out.
pub open spec fn handed_out(call: AccumulatorCall) -> Option<Seq<Column>> {
    match call {
        AccumulatorCall::State(_, Ok(columns)) => Some(columns),
        AccumulatorCall::Evaluate(_, Ok(column)) => Some(seq![column]),
        _ => None,
    }
}

/// The error that a call of an accumulator reported.
pub open spec fn reported(call: AccumulatorCall) -> Option<AggregateError> {
    match call {
        AccumulatorCall::UpdateBatch(_, Err(e)) => Some(e),
        AccumulatorCall::MergeBatch(_, Err(e)) => Some(e),
        AccumulatorCall::State(_, Err(e)) => Some(e),
        AccumulatorCall::Evaluate(_, Err(e)) => Some(e),
        _ => None,
    }
}

/// The keys and the outputs that an emission goes by.
proof fn lemma_emission(
    before: Trace,
    types: Seq<DataType>,
    schema: Schema,
    mode: AggregateMode,
    emit_to: EmitTo,
    after: Trace,
    batch: Batch,
) -> (parts: (Seq<Column>, Seq<Seq<Column>>))
    requires
        emits(before, types, schema, mode, emit_to, after, batch),
        before.groups.len() > 0,
    ensures
        are_keys(types, before.groups, emit_to, parts.0),
        parts.1.len() == before.accumulators.len(),
        outputs_fit(mode, parts.1),
        exists|bytes: usize|
            after == #[trigger] resized(
                outputs_taken(before, mode, emit_to, parts.1),
                bytes,
                Ok(()),
            ),
        batch_rows(batch) == column_rows(parts.0 + concat(parts.1)),
{
    let (keys, outputs, bytes) = choose|
        keys: Seq<Column>,
        outputs: Seq<Seq<Column>>,
        bytes: usize,
    |
        {
            &&& are_keys(types, before.groups, emit_to, keys)
            &&& outputs.len() == before.accumulators.len()
            &&& outputs_fit(mode, outputs)
            &&& after == #[trigger] resized(
                outputs_taken(before, mode, emit_to, outputs),
                bytes,
                Ok(()),
            )
            &&& batch_rows(batch) == #[trigger] column_rows(keys + concat(outputs))
        };
    (keys, outputs)
}

/// An emission of the first groups removes as many and tells the ordering that as many are gone;
/// an emission of all removes none and tells it nothing. Memory is asked for once. Without groups
/// nothing is called and an empty batch goes out.
pub proof fn law_emission_calls(
    before: Trace,
    types: Seq<DataType>,
    schema: Schema,
    mode: AggregateMode,
    emit_to: EmitTo,
    after: Trace,
    batch: Batch,
)
    requires
        emits(before, types, schema, mode, emit_to, after, batch),
    ensures
        before.groups.len() > 0 ==> after.groups == left(before.groups, emit_to),
        before.groups.len() > 0 ==> after.ordering == told_of_emission(before.ordering, emit_to),
        before.groups.len() > 0 ==> after.reservations.len() == before.reservations.len() + 1,
        before.groups.len() > 0 ==> after.reservations.drop_last() == before.reservations,
        before.groups.len() > 0 ==> after.reservations.last().1 is Ok,
        before.groups.len() == 0 ==> after == before,
        before.groups.len() == 0 ==> batch_rows(batch).len() == 0,
{
    if before.groups.len() > 0 {
        let (keys, outputs) = lemma_emission(before, types, schema, mode, emit_to, after, batch);
        assert(after.reservations.drop_last() =~= before.reservations);
        assert(after.groups =~= left(before.groups, emit_to));
    }
}

/// After the key of its group, an output row holds what each accumulator has handed out for the
/// group, one accumulator after the other: `starts` says where the values of each begin.
pub proof fn law_output_values(
    before: Trace,
    types: Seq<DataType>,
    schema: Schema,
    mode: AggregateMode,
    emit_to: EmitTo,
    after: Trace,
    batch: Batch,
    starts: Seq<int>,
    i: int,
    k: int,
    j: int,
)
    requires
        emits(before, types, schema, mode, emit_to, after, batch),
        before.groups.len() > 0,
        types.len() > 0,
        starts.len() == before.accumulators.len() + 1,
        starts[0] == types.len(),
        forall|m: int|
            0 <= m < before.accumulators.len() ==> #[trigger] starts[m + 1] == starts[m]
                + handed_out(after.accumulators[m].last())->0.len(),
        0 <= i < batch_rows(batch).len(),
        0 <= k < before.accumulators.len(),
        0 <= j < handed_out(after.accumulators[k].last())->0.len(),
    ensures
        handed_out(after.accumulators[k].last()) is Some,
        batch_rows(batch)[i].len() == starts.last(),
        batch_rows(batch)[i][starts[k] + j] == column_values(
            handed_out(after.accumulators[k].last())->0[j],
        )[i],
{
    let (keys, outputs) = lemma_emission(before, types, schema, mode, emit_to, after, batch);
    assert forall|m: int| 0 <= m < outputs.len() implies handed_out(
        (#[trigger] after.accumulators[m]).last(),
    ) == Some(outputs[m]) by {
        if mode.outputs_state() {
        } else {
            assert(outputs[m].len() == 1);
            assert(outputs[m] =~= seq![outputs[m][0]]);
        }
    }
    assert forall|m: int| 0 <= m < outputs.len() implies #[trigger] starts[m + 1] == starts[m]
        + outputs[m].len() by {
        assert(handed_out(after.accumulators[m].last()) == Some(outputs[m]));
    }
    assert(handed_out(after.accumulators[k].last()) == Some(outputs[k]));
    lemma_concat_at(outputs, starts, outputs.len() as int, k, j);
    assert(outputs.take(outputs.len() as int) =~= outputs);
    let columns = keys + concat(outputs);
    assert(batch_rows(batch)[i] == column_row(columns, i));
    assert(columns[starts[k] + j] == outputs[k][j]);
}

/// Where a column of a list stands among the columns of all lists.
proof fn lemma_concat_at(lists: Seq<Seq<Column>>, starts: Seq<int>, n: int, k: int, j: int)
    requires
        0 <= n <= lists.len(),
        starts.len() == lists.len() + 1,
        forall|m: int|
            0 <= m < lists.len() ==> #[trigger] starts[m + 1] == starts[m] + lists[m].len(),
    ensures
        concat(lists.take(n)).len() == starts[n] - starts[0],
        0 <= k < n && 0 <= j < lists[k].len() ==> starts[0] <= starts[k] && starts[k] + j
            < starts[n] && concat(lists.take(n))[starts[k] - starts[0] + j] == lists[k][j],
    decreases n,
{
    let first = lists.take(n);
    if n > 0 {
        lemma_concat_at(lists, starts, n - 1, k, j);
        assert(first.drop_last() =~= lists.take(n - 1));
        assert(starts[n - 1 + 1] == starts[n - 1] + lists[n - 1].len());
        if k == n - 1 {
            lemma_concat_at(lists, starts, n - 1, 0, 0);
        }
    }
}

/// The outputs, the answer of the memory pool if it was asked, and the error of an accumulator if
/// one failed, that a failed emission goes by, unless nothing has changed.
proof fn lemma_failed_emission(
    before: Trace,
    types: Seq<DataType>,
    schema: Schema,
    mode: AggregateMode,
    emit_to: EmitTo,
    after: Trace,
    error: AggregateError,
) -> (outputs: Seq<Seq<Column>>)
    requires
        emission_fails(before, types, schema, mode, emit_to, after, error),
        after != before,
    ensures
        columns_made(types, emitted(before.groups, emit_to)),
        outputs_fit(mode, outputs),
        outputs.len() <= before.accumulators.len(),
        outputs.len() < before.accumulators.len() ==> after == (Trace {
            accumulators: asked_in_vain(before.accumulators, mode, emit_to, outputs, error),
            ..keys_emitted(before, emit_to)
        }),
        outputs.len() == before.accumulators.len() ==> exists|
            bytes: usize,
            result: Result<(), AggregateError>,
        |
            after == #[trigger] resized(
                outputs_taken(before, mode, emit_to, outputs),
                bytes,
                result,
            ) && (result == Err::<(), AggregateError>(error) || result is Ok && error is Arrow),
{
    if exists|outputs: Seq<Seq<Column>>|
        {
            &&& outputs.len() < before.accumulators.len()
            &&& outputs_fit(mode, outputs)
            &&& after == (Trace {
                accumulators: #[trigger] asked_in_vain(
                    before.accumulators,
                    mode,
                    emit_to,
                    outputs,
                    error,
                ),
                ..keys_emitted(before, emit_to)
            })
        } {
        choose|outputs: Seq<Seq<Column>>|
            {
                &&& outputs.len() < before.accumulators.len()
                &&& outputs_fit(mode, outputs)
                &&& after == (Trace {
                    accumulators: #[trigger] asked_in_vain(
                        before.accumulators,
                        mode,
                        emit_to,
                        outputs,
                        error,
                    ),
                    ..keys_emitted(before, emit_to)
                })
            }
    } else {
        let (outputs, bytes, result) = choose|
            outputs: Seq<Seq<Column>>,
            bytes: usize,
            result: Result<(), AggregateError>,
        |
            {
                &&& outputs.len() == before.accumulators.len()
                &&& outputs_fit(mode, outputs)
                &&& after == #[trigger] resized(
                    outputs_taken(before, mode, emit_to, outputs),
                    bytes,
                    result,
                )
                &&& result == Err::<(), AggregateError>(error) || result is Ok && error is Arrow
            };
        outputs
    }
}

/// Where an emission fails, either nothing has changed, or the keys of the groups that were to go
/// out could be handed out, the groups are gone, and the ordering was told so. Without groups
/// nothing changes.
pub proof fn law_failed_emission(
    before: Trace,
    types: Seq<DataType>,
    schema: Schema,
    mode: AggregateMode,
    emit_to: EmitTo,
    after: Trace,
    error: AggregateError,
)
    requires
        emission_fails(before, types, schema, mode, emit_to, after, error),
    ensures
        after == before || {
            &&& before.groups.len() > 0
            &&& columns_made(types, shown(before.groups, emit_to))
            &&& after.groups == left(before.groups, emit_to)
            &&& after.ordering == told_of_emission(before.ordering, emit_to)
            &&& after.accumulators.len() == before.accumulators.len()
            &&& after.reservations == before.reservations || {
                &&& after.reservations.drop_last() == before.reservations
                &&& after.reservations.last().1 == Err::<(), AggregateError>(error)
                    || after.reservations.last().1 is Ok && error is Arrow
            }
        },
{
    if after != before {
        let outputs = lemma_failed_emission(before, types, schema, mode, emit_to, after, error);
        assert(emitted(before.groups, emit_to) =~= shown(before.groups, emit_to));
        assert(after.groups =~= left(before.groups, emit_to));
        if outputs.len() == before.accumulators.len() {
            assert(after.reservations.drop_last() =~= before.reservations);
        }
    }
}

/// Where an emission fails, the accumulators were asked one after the other, for states or for
/// values as the mode says, up to the one that reported the error. If memory was asked for, all of
/// them were asked and none failed.
pub proof fn law_asked_up_to_failure(
    before: Trace,
    types: Seq<DataType>,
    schema: Schema,
    mode: AggregateMode,
    emit_to: EmitTo,
    after: Trace,
    error: AggregateError,
    k: int,
    other: int,
)
    requires
        emission_fails(before, types, schema, mode, emit_to, after, error),
        0 <= other <= k < before.accumulators.len(),
    ensures
        after.accumulators[k] == before.accumulators[k] || {
            &&& after.accumulators[k].drop_last() == before.accumulators[k]
            &&& asks(after.accumulators[k].last(), mode, emit_to)
            &&& handed_out(after.accumulators[k].last()) is Some || reported(
                after.accumulators[k].last(),
            ) == Some(error)
            &&& other < k ==> {
                &&& after.accumulators[other].drop_last() == before.accumulators[other]
                &&& asks(after.accumulators[other].last(), mode, emit_to)
                &&& handed_out(after.accumulators[other].last()) is Some
            }
        },
        after.reservations != before.reservations ==> {
            &&& after.accumulators[k].len() == before.accumulators[k].len() + 1
            &&& handed_out(after.accumulators[k].last()) is Some
        },
{
    if after != before {
        let outputs = lemma_failed_emission(before, types, schema, mode, emit_to, after, error);
        if k <= outputs.len() {
            assert(after.accumulators[k].drop_last() =~= before.accumulators[k]);
            assert(after.accumulators[other].drop_last() =~= before.accumulators[other]);
        }
    }
}

/// However an emission ends, the ordering keeps count: it has heard of as many groups as are left.
pub proof fn law_emission_keeps_count(
    before: Trace,
    types: Seq<DataType>,
    schema: Schema,
    mode: AggregateMode,
    emit_to: EmitTo,
    after: Trace,
)
    requires
        (exists|batch: Batch| #[trigger]
            emits(before, types, schema, mode, emit_to, after, batch)) || exists|
            error: AggregateError,
        | #[trigger] emission_fails(before, types, schema, mode, emit_to, after, error),
        in_step(before),
    ensures
        in_step(after),
{
    if exists|batch: Batch| #[trigger]
        emits(before, types, schema, mode, emit_to, after, batch) {
        let batch = choose|batch: Batch| #[trigger]
            emits(before, types, schema, mode, emit_to, after, batch);
        law_emission_calls(before, types, schema, mode, emit_to, after, batch);
    } else {
        let error = choose|error: AggregateError| #[trigger]
            emission_fails(before, types, schema, mode, emit_to, after, error);
        law_failed_emission(before, types, schema, mode, emit_to, after, error);
    }
    if let EmitTo::First(n) = emit_to {
        lemma_heard(before.ordering, OrderingCall::RemoveGroups(n));
    }
}

/// At the end of the input the ordering is told so, and nothing else changes.
pub proof fn law_end_of_input(before: Trace)
    ensures
        input_ended(before).ordering == before.ordering.push(OrderingCall::InputDone),
        input_ended(before).groups == before.groups,
        input_ended(before).accumulators == before.accumulators,
        input_ended(before).reservations == before.reservations,
        in_step(before) ==> in_step(input_ended(before)),
{
    lemma_heard(before.ordering, OrderingCall::InputDone);
}

/// Memory is asked for once over a batch, after all of it has been taken in.
pub proof fn law_memory_asked(
    before: Trace,
    types: Seq<DataType>,
    mode: AggregateMode,
    batch: &EvaluatedBatch,
    after: Trace,
)
    requires
        takes_in(before, types, mode, batch, after),
    ensures
        after.reservations.len() == before.reservations.len() + 1,
        after.reservations.drop_last() == before.reservations,
        after.reservations.last().1 is Ok,
{
    lemma_reservations_kept(before, mode, batch, batch.group_by_values@.len() as int);
    assert(after.reservations.drop_last() =~= before.reservations);
}

/// No memory is asked for over the grouping sets.
proof fn lemma_reservations_kept(
    before: Trace,
    mode: AggregateMode,
    batch: &EvaluatedBatch,
    sets: int,
)
    ensures
        after_sets(before, mode, batch, sets).reservations == before.reservations,
    decreases sets,
{
    if sets > 0 {
        lemma_reservations_kept(before, mode, batch, sets - 1);
    }
}

/// The number of grouping sets that were taken in whole before a batch failed.
proof fn lemma_failed_intake(
    before: Trace,
    types: Seq<DataType>,
    mode: AggregateMode,
    ordered: bool,
    batch: &EvaluatedBatch,
    after: Trace,
    error: AggregateError,
) -> (s: int)
    requires
        intake_fails(before, types, mode, ordered, batch, after, error),
    ensures
        0 <= s <= batch.group_by_values@.len(),
        sets_internable(before, types, mode, batch, s),
        s < batch.group_by_values@.len() ==> stopped_in_set(
            after_sets(before, mode, batch, s),
            types,
            mode,
            ordered,
            batch,
            s,
            error,
            after,
        ),
        s == batch.group_by_values@.len() ==> exists|bytes: usize|
            after == #[trigger] resized(after_sets(before, mode, batch, s), bytes, Err(error)),
{
    let sets = batch.group_by_values@.len() as int;
    if exists|s: int|
        0 <= s < sets && sets_internable(before, types, mode, batch, s)
            && #[trigger] stopped_in_set(
            after_sets(before, mode, batch, s),
            types,
            mode,
            ordered,
            batch,
            s,
            error,
            after,
        ) {
        choose|s: int|
            0 <= s < sets && sets_internable(before, types, mode, batch, s)
                && #[trigger] stopped_in_set(
                after_sets(before, mode, batch, s),
                types,
                mode,
                ordered,
                batch,
                s,
                error,
                after,
            )
    } else {
        sets
    }
}

/// Where a batch fails, the groups that there were stay in place, what was called before stays, and
/// memory was asked for only if all of the batch was taken in, and then denied.
pub proof fn law_failed_intake(
    before: Trace,
    types: Seq<DataType>,
    mode: AggregateMode,
    ordered: bool,
    batch: &EvaluatedBatch,
    after: Trace,
    error: AggregateError,
)
    requires
        intake_fails(before, types, mode, ordered, batch, after, error),
        before.groups.no_duplicates(),
    ensures
        after.groups.no_duplicates(),
        before.groups.len() <= after.groups.len(),
        after.groups.take(before.groups.len() as int) == before.groups,
        before.ordering.len() <= after.ordering.len(),
        after.ordering.take(before.ordering.len() as int) == before.ordering,
        after.reservations == before.reservations || {
            &&& after.reservations.drop_last() == before.reservations
            &&& after.reservations.last().1 == Err::<(), AggregateError>(error)
            &&& forall|row: Row| #[trigger]
                after.groups.contains(row) <==> before.groups.contains(row) || rows_of_batch(
                    batch,
                ).contains(row)
        },
{
    let s = lemma_failed_intake(before, types, mode, ordered, batch, after, error);
    let middle = after_sets(before, mode, batch, s);
    let sets = batch.group_by_values@.len() as int;
    lemma_reservations_kept(before, mode, batch, s);
    lemma_kept(before, mode, batch, s);
    law_groups_after_sets(before, mode, batch, s);
    lemma_with_rows(before.groups, rows_of_sets(batch, s));
    if s < sets {
        lemma_with_rows(middle.groups, batch.keys_under(s));
        assert forall|i: int| 0 <= i < before.groups.len() implies after.groups[i]
            == before.groups[i] by {
            assert(middle.groups.take(before.groups.len() as int)[i] == middle.groups[i]);
            let whole = with_rows(middle.groups, batch.keys_under(s));
            assert(whole.take(middle.groups.len() as int)[i] == whole[i]);
        }
        assert(after.groups.take(before.groups.len() as int) =~= before.groups);
        assert forall|i: int| 0 <= i < before.ordering.len() implies after.ordering[i]
            == before.ordering[i] by {
            assert(middle.ordering.take(before.ordering.len() as int)[i] == middle.ordering[i]);
        }
        assert(after.ordering.take(before.ordering.len() as int) =~= before.ordering);
    } else {
        assert(after.reservations.drop_last() =~= before.reservations);
        assert forall|row: Row| #[trigger]
            after.groups.contains(row) <==> before.groups.contains(row) || rows_of_batch(
                batch,
            ).contains(row) by {
            law_no_other_groups(before.groups, rows_of_batch(batch), row);
        }
    }
}

/// The calls of an accumulator over a batch that fails.
proof fn lemma_calls_up_to_failure(
    before: Trace,
    types: Seq<DataType>,
    mode: AggregateMode,
    ordered: bool,
    batch: &EvaluatedBatch,
    after: Trace,
    error: AggregateError,
    s: int,
    k: int,
) -> (made: int)
    requires
        0 <= s < batch.group_by_values@.len(),
        stopped_in_set(
            after_sets(before, mode, batch, s),
            types,
            mode,
            ordered,
            batch,
            s,
            error,
            after,
        ),
        0 <= k < before.accumulators.len(),
    ensures
        0 <= made <= before.accumulators.len(),
        made <= batch.input_values@.len(),
        made <= batch.filter_values@.len(),
        made > 0 ==> after.groups == after_sets(before, mode, batch, s + 1).groups
            && after.groups.len() <= MAX_GROUPS,
        after.accumulators.len() == before.accumulators.len(),
        after.accumulators == fed(
            after_sets(before, mode, batch, s).accumulators,
            mode,
            batch,
            indices(after_sets(before, mode, batch, s + 1).groups, batch.keys_under(s)),
            after_sets(before, mode, batch, s + 1).groups.len() as usize,
            made,
            Err(error),
        ),
{
    let middle = after_sets(before, mode, batch, s);
    let groups = after_sets(before, mode, batch, s + 1).groups;
    law_one_call_per_set(before, mode, batch, s, k);
    if exists|made: int|
        0 < made <= batch.fed_count(middle.accumulators.len()) && groups.len() <= MAX_GROUPS
            && after.groups == groups && after.accumulators == #[trigger] fed(
            middle.accumulators,
            mode,
            batch,
            indices(groups, batch.keys_under(s)),
            groups.len() as usize,
            made,
            Err(error),
        ) {
        choose|made: int|
            0 < made <= batch.fed_count(middle.accumulators.len()) && groups.len() <= MAX_GROUPS
                && after.groups == groups && after.accumulators == #[trigger] fed(
                middle.accumulators,
                mode,
                batch,
                indices(groups, batch.keys_under(s)),
                groups.len() as usize,
                made,
                Err(error),
            )
    } else {
        assert(after.accumulators =~= fed(
            middle.accumulators,
            mode,
            batch,
            indices(groups, batch.keys_under(s)),
            groups.len() as usize,
            0,
            Err(error),
        ));
        0
    }
}

/// Where a batch fails, each accumulator has had at most one call for each grouping set, no more
/// calls than an accumulator before it, and at most one fewer.
pub proof fn law_fed_up_to_failure(
    before: Trace,
    types: Seq<DataType>,
    mode: AggregateMode,
    ordered: bool,
    batch: &EvaluatedBatch,
    after: Trace,
    error: AggregateError,
    k: int,
    other: int,
)
    requires
        intake_fails(before, types, mode, ordered, batch, after, error),
        0 <= other <= k < before.accumulators.len(),
    ensures
        after.accumulators.len() == before.accumulators.len(),
        before.accumulators[k].len() <= after.accumulators[k].len(),
        after.accumulators[k].take(before.accumulators[k].len() as int) == before.accumulators[k],
        after.accumulators[k].len() <= before.accumulators[k].len()
            + batch.group_by_values@.len(),
        k >= batch.input_values@.len() || k >= batch.filter_values@.len() ==> after.accumulators[k]
            == before.accumulators[k],
        k < batch.input_values@.len() && k < batch.filter_values@.len() ==> {
            let calls = after.accumulators[k].len() - before.accumulators[k].len();
            let earlier = after.accumulators[other].len() - before.accumulators[other].len();
            calls <= earlier <= calls + 1
        },
{
    let s = lemma_failed_intake(before, types, mode, ordered, batch, after, error);
    law_one_call_per_set(before, mode, batch, s, k);
    law_one_call_per_set(before, mode, batch, s, other);
    if s < batch.group_by_values@.len() {
        let made = lemma_calls_up_to_failure(
            before,
            types,
            mode,
            ordered,
            batch,
            after,
            error,
            s,
            k,
        );
    }
    assert(after.accumulators[k].take(before.accumulators[k].len() as int)
        =~= before.accumulators[k]);
}

/// Every call of an accumulator over a batch that fails updates rows or merges states as the mode
/// says, with the arguments and the filter of the accumulator and the group of each row. All but
/// the last have succeeded; the last may be the one that reported the error.
pub proof fn law_call_before_failure(
    before: Trace,
    types: Seq<DataType>,
    mode: AggregateMode,
    ordered: bool,
    batch: &EvaluatedBatch,
    after: Trace,
    error: AggregateError,
    k: int,
    s: int,
) -> (call: (BatchArgs, Result<(), AggregateError>))
    requires
        intake_fails(before, types, mode, ordered, batch, after, error),
        before.groups.no_duplicates(),
        0 <= k < before.accumulators.len(),
        0 <= s < after.accumulators[k].len() - before.accumulators[k].len(),
    ensures
        takes_rows(
            after.accumulators[k][before.accumulators[k].len() + s],
            mode,
            call.0,
            call.1,
        ),
        call.0.values == batch.input_values@[k]@,
        call.0.filter == batch.filter_values@[k],
        points_to(
            call.0.group_indices,
            batch.group_by_values@[s]@,
            after.groups,
            call.0.total_num_groups,
        ),
        call.1 is Ok || call.1 == Err::<(), AggregateError>(error) && s
            == after.accumulators[k].len() - before.accumulators[k].len() - 1,
{
    let sets = lemma_failed_intake(before, types, mode, ordered, batch, after, error);
    law_one_call_per_set(before, mode, batch, sets, k);
    let made = if sets < batch.group_by_values@.len() {
        lemma_calls_up_to_failure(
            before,
            types,
            mode,
            ordered,
            batch,
            after,
            error,
            sets,
            k,
        )
    } else {
        0
    };
    law_groups_after_sets(before, mode, batch, sets);
    lemma_with_rows(before.groups, rows_of_sets(batch, sets));
    let groups = after_sets(before, mode, batch, s + 1).groups;
    let args = BatchArgs {
        values: batch.input_values@[k]@,
        group_indices: indices(groups, batch.keys_under(s)),
        filter: batch.filter_values@[k],
        total_num_groups: groups.len() as usize,
    };
    if s < sets {
        let calls = calls_for_sets(before, mode, batch, sets, k);
        assert(after.accumulators[k][before.accumulators[k].len() + s] == calls[s]);
        law_groups_after_sets(before, mode, batch, s + 1);
        assert(takes_rows(calls[s], mode, args, Ok(())));
        assert(after_sets(before, mode, batch, s).groups.len() >= 0);
        lemma_set_stays(before, types, mode, ordered, batch, after, error, sets, s);
        lemma_points_to(before, mode, batch, after.groups, s);
        (args, Ok(()))
    } else {
        assert(after.groups.take(groups.len() as int) =~= groups);
        lemma_points_to(before, mode, batch, after.groups, s);
        (
            args,
            if k == made - 1 {
                Err(error)
            } else {
                Ok(())
            },
        )
    }
}

/// The groups of a grouping set that was taken in whole stay where they are, also where a later one
/// fails.
proof fn lemma_set_stays(
    before: Trace,
    types: Seq<DataType>,
    mode: AggregateMode,
    ordered: bool,
    batch: &EvaluatedBatch,
    after: Trace,
    error: AggregateError,
    sets: int,
    s: int,
)
    requires
        before.groups.no_duplicates(),
        0 <= s < sets <= batch.group_by_values@.len(),
        sets < batch.group_by_values@.len() ==> stopped_in_set(
            after_sets(before, mode, batch, sets),
            types,
            mode,
            ordered,
            batch,
            sets,
            error,
            after,
        ),
        sets == batch.group_by_values@.len() ==> after.groups == after_sets(
            before,
            mode,
            batch,
            sets,
        ).groups,
    ensures
        ({
            let groups = after_sets(before, mode, batch, s + 1).groups;
            groups.len() <= after.groups.len() && after.groups.take(groups.len() as int) == groups
        }),
{
    let groups = after_sets(before, mode, batch, s + 1).groups;
    let middle = after_sets(before, mode, batch, sets).groups;
    lemma_rest_of_sets(before, mode, batch, s + 1, sets);
    law_groups_after_sets(before, mode, batch, sets);
    lemma_with_rows(before.groups, rows_of_sets(batch, sets));
    lemma_with_rows(middle, batch.keys_under(sets));
    let whole = with_rows(middle, batch.keys_under(sets));
    assert(after.groups == middle || after.groups == whole);
    assert forall|i: int| 0 <= i < groups.len() implies after.groups[i] == groups[i] by {
        assert(middle.take(groups.len() as int)[i] == middle[i]);
        assert(whole.take(middle.len() as int)[i] == whole[i]);
    }
    assert(after.groups.take(groups.len() as int) =~= groups);
}

/// The indices of the rows of a grouping set are those of their groups, as long as the groups stay
/// where they are.
proof fn lemma_points_to(
    before: Trace,
    mode: AggregateMode,
    batch: &EvaluatedBatch,
    groups: Seq<Row>,
    s: int,
)
    requires
        before.groups.no_duplicates(),
        0 <= s,
        after_sets(before, mode, batch, s + 1).groups.len() <= groups.len(),
        after_sets(before, mode, batch, s + 1).groups.len() <= usize::MAX,
        groups.take(after_sets(before, mode, batch, s + 1).groups.len() as int) == after_sets(
            before,
            mode,
            batch,
            s + 1,
        ).groups,
    ensures
        points_to(
            indices(after_sets(before, mode, batch, s + 1).groups, batch.keys_under(s)),
            batch.group_by_values@[s]@,
            groups,
            after_sets(before, mode, batch, s + 1).groups.len() as usize,
        ),
{
    let first = after_sets(before, mode, batch, s + 1).groups;
    let group_indices = indices(first, batch.keys_under(s));
    assert forall|row: int| 0 <= row < group_indices.len() implies (#[trigger] group_indices[row])
        < first.len() && groups[group_indices[row] as int] == column_rows(
        batch.group_by_values@[s]@,
    )[row] by {
        law_index_is_group_of_row(before, mode, batch, s, row);
        assert(groups.take(first.len() as int)[group_indices[row] as int]
            == first[group_indices[row] as int]);
    }
}

/// Every call that a batch adds to those of the ordering before it fails tells of new groups. All
/// but the last were accepted; the last may be the one that the ordering, if there is one, turned
/// down with the error.
pub proof fn law_told_before_failure(
    before: Trace,
    types: Seq<DataType>,
    mode: AggregateMode,
    ordered: bool,
    batch: &EvaluatedBatch,
    after: Trace,
    error: AggregateError,
    i: int,
)
    requires
        intake_fails(before, types, mode, ordered, batch, after, error),
        before.groups.no_duplicates(),
        in_step(before),
        before.ordering.len() <= i < after.ordering.len(),
    ensures
        after.ordering[i] matches OrderingCall::NewGroups { result, .. } && (result is Ok || {
            &&& ordered
            &&& i == after.ordering.len() - 1
            &&& result == Err::<(), AggregateError>(error)
        }),
{
    let s = lemma_failed_intake(before, types, mode, ordered, batch, after, error);
    let middle = after_sets(before, mode, batch, s);
    if i < middle.ordering.len() {
        let told = lemma_told(before, types, mode, batch, s, i);
        assert(after.ordering[i] == middle.ordering[i]);
    }
}

} // verus!
