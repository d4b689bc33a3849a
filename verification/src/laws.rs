//! What holds of every aggregation, over one batch, over an emission, and from the first batch to
//! the output.

use crate::accumulator::{AccumulatorCall, AggregateMode, BatchArgs};
use crate::columns::{batch_rows, column_row, column_rows, Batch, Column, Row};
use crate::grouping::{
    emitted, indices, law_emit_all, law_emit_first_partitions, law_emitted_apart,
    law_index_names_row, law_split, lemma_with_rows, with_rows, EmitTo,
};
use crate::output::{chunks, law_chunk_count};
use crate::trace::{
    after_sets, are_keys, concat, emit_call, emits, input_ended, outputs_fit,
    outputs_taken, resized, takes_in, EvaluatedBatch, Trace,
};
use arrow::datatypes::{DataType, Schema};
use vstd::prelude::*;

verus! {

impl EvaluatedBatch {
    /// The group keys that the columns of a grouping set make up, row by row.
    pub open spec fn keys_under(&self, s: int) -> Seq<Row> {
        column_rows(self.group_by_values@[s]@)
    }
}

/// The rows of the first `sets` grouping sets of a batch, one set after the other.
pub open spec fn rows_of_sets(batch: &EvaluatedBatch, sets: int) -> Seq<Row>
    decreases sets,
{
    if sets <= 0 {
        Seq::empty()
    } else {
        rows_of_sets(batch, sets - 1) + batch.keys_under(sets - 1)
    }
}

/// All rows of a batch.
pub open spec fn rows_of_batch(batch: &EvaluatedBatch) -> Seq<Row> {
    rows_of_sets(batch, batch.group_by_values@.len() as int)
}

/// All rows of the batches, one batch after the other.
pub open spec fn rows_of_batches(batches: Seq<EvaluatedBatch>) -> Seq<Row>
    decreases batches.len(),
{
    if batches.len() == 0 {
        Seq::empty()
    } else {
        rows_of_batches(batches.drop_last()) + rows_of_batch(&batches.last())
    }
}

/// The group keys of output rows: their first values.
pub open spec fn keys_of(rows: Seq<Row>, columns: nat) -> Seq<Row> {
    Seq::new(rows.len(), |i: int| rows[i].take(columns as int))
}

/// After some grouping sets the groups are those from before, with all rows of the sets added.
pub proof fn law_groups_after_sets(
    before: Trace,
    mode: AggregateMode,
    batch: &EvaluatedBatch,
    sets: int,
)
    requires
        0 <= sets,
    ensures
        after_sets(before, mode, batch, sets).groups == with_rows(
            before.groups,
            rows_of_sets(batch, sets),
        ),
    decreases sets,
{
    if sets > 0 {
        law_groups_after_sets(before, mode, batch, sets - 1);
        law_split(before.groups, rows_of_sets(batch, sets - 1), batch.keys_under(sets - 1));
    }
}

/// The calls that accumulator `k` gets for the first `sets` grouping sets of a batch: one for each
/// set, with its arguments and its filter, the group of each row and the number of groups so far.
/// Rows are updated, and states are merged.
pub open spec fn calls_for_sets(
    before: Trace,
    mode: AggregateMode,
    batch: &EvaluatedBatch,
    sets: int,
    k: int,
) -> Seq<AccumulatorCall> {
    Seq::new(
        sets as nat,
        |s: int|
            {
                let groups = with_rows(before.groups, rows_of_sets(batch, s + 1));
                let args = BatchArgs {
                    values: batch.input_values@[k]@,
                    group_indices: indices(groups, batch.keys_under(s)),
                    filter: batch.filter_values@[k],
                    total_num_groups: groups.len() as usize,
                };
                match mode {
                    AggregateMode::Partial
                    | AggregateMode::Single
                    | AggregateMode::SinglePartitioned => AccumulatorCall::UpdateBatch(
                        args,
                        Ok(()),
                    ),
                    AggregateMode::Final
                    | AggregateMode::FinalPartitioned => AccumulatorCall::MergeBatch(args, Ok(())),
                }
            },
    )
}

/// Every accumulator that has arguments and a filter in the batch gets one call for each grouping
/// set, and the others none.
pub proof fn law_one_call_per_set(
    before: Trace,
    mode: AggregateMode,
    batch: &EvaluatedBatch,
    sets: int,
    k: int,
)
    requires
        0 <= sets,
        0 <= k < before.accumulators.len(),
    ensures
        after_sets(before, mode, batch, sets).accumulators.len() == before.accumulators.len(),
        after_sets(before, mode, batch, sets).accumulators[k] == if k < batch.input_values@.len()
            && k < batch.filter_values@.len() {
            before.accumulators[k] + calls_for_sets(before, mode, batch, sets, k)
        } else {
            before.accumulators[k]
        },
    decreases sets,
{
    if sets <= 0 {
        assert(before.accumulators[k] + calls_for_sets(before, mode, batch, sets, k)
            =~= before.accumulators[k]);
    } else {
        law_one_call_per_set(before, mode, batch, sets - 1, k);
        law_groups_after_sets(before, mode, batch, sets);
        let earlier = calls_for_sets(before, mode, batch, sets - 1, k);
        let all = calls_for_sets(before, mode, batch, sets, k);
        assert(before.accumulators[k] + all =~= (before.accumulators[k] + earlier).push(
            all[sets - 1],
        ));
    }
}

/// The index that the accumulators are given for a row is that of a group, and the key of that
/// group is the row.
pub proof fn law_index_is_group_of_row(
    before: Trace,
    mode: AggregateMode,
    batch: &EvaluatedBatch,
    s: int,
    row: int,
)
    requires
        before.groups.no_duplicates(),
        0 <= s,
        after_sets(before, mode, batch, s + 1).groups.len() <= usize::MAX,
        0 <= row < batch.keys_under(s).len(),
    ensures
        ({
            let groups = after_sets(before, mode, batch, s + 1).groups;
            let index = indices(groups, batch.keys_under(s))[row];
            index < groups.len() && groups[index as int] == batch.keys_under(s)[row]
        }),
{
    law_groups_after_sets(before, mode, batch, s);
    lemma_with_rows(before.groups, rows_of_sets(batch, s));
    law_index_names_row(after_sets(before, mode, batch, s).groups, batch.keys_under(s), row);
}

/// The columns of lists of one column each are as many as the lists.
pub proof fn lemma_concat_ones(lists: Seq<Seq<Column>>)
    requires
        forall|k: int| 0 <= k < lists.len() ==> (#[trigger] lists[k]).len() == 1,
    ensures
        concat(lists).len() == lists.len(),
    decreases lists.len(),
{
    if lists.len() > 0 {
        assert forall|k: int| 0 <= k < lists.len() - 1 implies (
        #[trigger] lists.drop_last()[k]).len() == 1 by {
            assert(lists.drop_last()[k] == lists[k]);
        }
        lemma_concat_ones(lists.drop_last());
        assert(lists[lists.len() - 1].len() == 1);
    }
}

/// An emission gives one output row for each group that is asked for, as far as there are so many,
/// in the order of the groups, and the first values of the row are the key of the group. Unless
/// states are output, there is one more value for each accumulator.
pub proof fn law_one_row_per_group(
    before: Trace,
    types: Seq<DataType>,
    schema: Schema,
    mode: AggregateMode,
    emit_to: EmitTo,
    after: Trace,
    batch: Batch,
)
    requires
        emits(before, types, schema, mode, emit_to, after, batch),
        types.len() > 0,
    ensures
        keys_of(batch_rows(batch), types.len()) == emitted(before.groups, emit_to),
        match emit_to {
            EmitTo::All => batch_rows(batch).len() == before.groups.len(),
            EmitTo::First(n) => if n <= before.groups.len() {
                batch_rows(batch).len() == n
            } else {
                batch_rows(batch).len() == before.groups.len()
            },
        },
        forall|i: int|
            0 <= i < batch_rows(batch).len() ==> (#[trigger] batch_rows(batch)[i]).take(
                types.len() as int,
            ) == before.groups[i],
        !(mode is Partial) ==> forall|i: int|
            0 <= i < batch_rows(batch).len() ==> (#[trigger] batch_rows(batch)[i]).len()
                == types.len() + before.accumulators.len(),
{
    let rows = batch_rows(batch);
    if before.groups.len() == 0 {
        assert(keys_of(rows, types.len()) =~= emitted(before.groups, emit_to));
    } else {
        let (keys, outputs, bytes) = choose|
            keys: Seq<Column>,
            outputs: Seq<Seq<Column>>,
            bytes: usize,
        |
            {
                &&& are_keys(types, before.groups, emit_to, keys)
                &&& outputs.len() == before.accumulators.len()
                &&& outputs_fit(mode, outputs)
                &&& after == #[trigger] resized(
                    outputs_taken(before, mode, emit_to, outputs),
                    bytes,
                    Ok(()),
                )
                &&& rows == #[trigger] column_rows(keys + concat(outputs))
            };
        let columns = keys + concat(outputs);
        assert(columns[0] == keys[0]);
        assert forall|i: int| 0 <= i < rows.len() implies #[trigger] rows[i].take(
            types.len() as int,
        ) == emitted(before.groups, emit_to)[i] by {
            assert(rows[i] == column_row(columns, i));
            assert(column_rows(keys)[i] == column_row(keys, i));
            assert(rows[i].take(types.len() as int) =~= column_row(keys, i));
        }
        assert(keys_of(rows, types.len()) =~= emitted(before.groups, emit_to));
        if !mode.outputs_state() {
            lemma_concat_ones(outputs);
        }
    }
}

/// No two rows of an emission have the same key.
pub proof fn law_output_keys_distinct(
    before: Trace,
    types: Seq<DataType>,
    schema: Schema,
    mode: AggregateMode,
    emit_to: EmitTo,
    after: Trace,
    batch: Batch,
)
    requires
        before.groups.no_duplicates(),
        emits(before, types, schema, mode, emit_to, after, batch),
        types.len() > 0,
    ensures
        keys_of(batch_rows(batch), types.len()).no_duplicates(),
{
    law_one_row_per_group(before, types, schema, mode, emit_to, after, batch);
}

/// An emission loses no group and shows none that stays: the keys that go out, and after them the
/// groups that are left, are the groups that there were. Only where all groups are asked for do
/// they both go out and stay.
pub proof fn law_emission_partitions(
    before: Trace,
    types: Seq<DataType>,
    schema: Schema,
    mode: AggregateMode,
    emit_to: EmitTo,
    after: Trace,
    batch: Batch,
)
    requires
        emits(before, types, schema, mode, emit_to, after, batch),
        types.len() > 0,
    ensures
        match emit_to {
            EmitTo::All => keys_of(batch_rows(batch), types.len()) == before.groups && after.groups
                == before.groups,
            EmitTo::First(_) => keys_of(batch_rows(batch), types.len()) + after.groups
                == before.groups,
        },
{
    law_one_row_per_group(before, types, schema, mode, emit_to, after, batch);
    match emit_to {
        EmitTo::All => law_emit_all(before.groups),
        EmitTo::First(n) => {
            law_emit_first_partitions(before.groups, n);
            assert(before.groups.len() == 0 ==> keys_of(batch_rows(batch), types.len())
                + after.groups =~= before.groups);
        },
    }
}

/// An emission asks every accumulator once, for the same groups as those whose keys go out.
pub proof fn law_accumulators_emit_alike(
    before: Trace,
    types: Seq<DataType>,
    schema: Schema,
    mode: AggregateMode,
    emit_to: EmitTo,
    after: Trace,
    batch: Batch,
    k: int,
)
    requires
        emits(before, types, schema, mode, emit_to, after, batch),
        before.groups.len() > 0,
        0 <= k < before.accumulators.len(),
    ensures
        after.accumulators.len() == before.accumulators.len(),
        after.accumulators[k].drop_last() == before.accumulators[k],
        match after.accumulators[k].last() {
            AccumulatorCall::State(to, columns) => mode is Partial && to == emit_to
                && columns is Ok,
            AccumulatorCall::Evaluate(to, column) => (mode is Final || mode is FinalPartitioned
                || mode is Single || mode is SinglePartitioned) && to == emit_to && column is Ok,
            _ => false,
        },
{
    let (keys, outputs, bytes) = choose|
        keys: Seq<Column>,
        outputs: Seq<Seq<Column>>,
        bytes: usize,
    |
        {
            &&& outputs.len() == before.accumulators.len()
            &&& after == #[trigger] resized(
                outputs_taken(before, mode, emit_to, outputs),
                bytes,
                Ok(()),
            )
            &&& batch_rows(batch) == #[trigger] column_rows(keys + concat(outputs))
        };
    assert(after.accumulators[k] == before.accumulators[k].push(
        emit_call(mode, emit_to, outputs[k]),
    ));
    assert(after.accumulators[k].drop_last() =~= before.accumulators[k]);
}

/// After some batches the groups are the distinct rows of all of them, in the order in which they
/// first came.
pub proof fn law_groups_after_batches(
    traces: Seq<Trace>,
    batches: Seq<EvaluatedBatch>,
    types: Seq<DataType>,
    mode: AggregateMode,
)
    requires
        traces.len() == batches.len() + 1,
        forall|b: int|
            0 <= b < batches.len() ==> takes_in(
                traces[b],
                types,
                mode,
                &#[trigger] batches[b],
                traces[b + 1],
            ),
    ensures
        traces.last().groups == with_rows(traces[0].groups, rows_of_batches(batches)),
    decreases batches.len(),
{
    if batches.len() > 0 {
        let b = batches.len() - 1;
        assert forall|i: int| 0 <= i < b implies takes_in(
            traces.drop_last()[i],
            types,
            mode,
            &#[trigger] batches.drop_last()[i],
            traces.drop_last()[i + 1],
        ) by {
            assert(batches.drop_last()[i] == batches[i]);
        }
        law_groups_after_batches(traces.drop_last(), batches.drop_last(), types, mode);
        assert(takes_in(traces[b], types, mode, &batches[b], traces[b + 1]));
        law_groups_after_sets(
            traces[b],
            mode,
            &batches[b],
            batches[b].group_by_values@.len() as int,
        );
        law_split(
            traces[0].groups,
            rows_of_batches(batches.drop_last()),
            rows_of_batch(&batches[b]),
        );
    }
}

/// Where the input has no order, the output has one row for each distinct key of the input, in
/// the order in which the keys first came, and no others.
pub proof fn law_output_is_distinct_keys(
    traces: Seq<Trace>,
    batches: Seq<EvaluatedBatch>,
    types: Seq<DataType>,
    schema: Schema,
    mode: AggregateMode,
    after: Trace,
    output: Batch,
)
    requires
        traces.len() == batches.len() + 1,
        traces[0].groups == Seq::<Row>::empty(),
        forall|b: int|
            0 <= b < batches.len() ==> takes_in(
                traces[b],
                types,
                mode,
                &#[trigger] batches[b],
                traces[b + 1],
            ),
        emits(input_ended(traces.last()), types, schema, mode, EmitTo::All, after, output),
        types.len() > 0,
    ensures
        keys_of(batch_rows(output), types.len()) == with_rows(
            Seq::empty(),
            rows_of_batches(batches),
        ),
{
    law_groups_after_batches(traces, batches, types, mode);
    law_one_row_per_group(
        input_ended(traces.last()),
        types,
        schema,
        mode,
        EmitTo::All,
        after,
        output,
    );
    law_emit_all(traces.last().groups);
}

/// Where the input has no order, the output goes out in one batch at the least, and otherwise in as
/// few as the maximum allows for one row for each distinct key of the input.
pub proof fn law_output_batches(
    traces: Seq<Trace>,
    batches: Seq<EvaluatedBatch>,
    types: Seq<DataType>,
    schema: Schema,
    mode: AggregateMode,
    after: Trace,
    output: Batch,
    max_rows: usize,
)
    requires
        traces.len() == batches.len() + 1,
        traces[0].groups == Seq::<Row>::empty(),
        forall|b: int|
            0 <= b < batches.len() ==> takes_in(
                traces[b],
                types,
                mode,
                &#[trigger] batches[b],
                traces[b + 1],
            ),
        emits(input_ended(traces.last()), types, schema, mode, EmitTo::All, after, output),
        types.len() > 0,
        max_rows > 0,
    ensures
        ({
            let distinct = with_rows(Seq::empty(), rows_of_batches(batches)).len();
            chunks(batch_rows(output), max_rows).len() == if distinct == 0 {
                1
            } else {
                (distinct + max_rows - 1) / max_rows as int
            }
        }),
{
    law_output_is_distinct_keys(traces, batches, types, schema, mode, after, output);
    law_chunk_count(batch_rows(output), max_rows);
}

/// Where the input has no order, the index that the accumulators were given for an input row is
/// the position of the output row that has the same key.
pub proof fn law_index_is_output_row(
    traces: Seq<Trace>,
    batches: Seq<EvaluatedBatch>,
    types: Seq<DataType>,
    schema: Schema,
    mode: AggregateMode,
    after: Trace,
    output: Batch,
    b: int,
    s: int,
    row: int,
)
    requires
        traces.len() == batches.len() + 1,
        traces[0].groups == Seq::<Row>::empty(),
        forall|b: int|
            0 <= b < batches.len() ==> takes_in(
                traces[b],
                types,
                mode,
                &#[trigger] batches[b],
                traces[b + 1],
            ),
        emits(input_ended(traces.last()), types, schema, mode, EmitTo::All, after, output),
        types.len() > 0,
        traces.last().groups.len() <= usize::MAX,
        0 <= b < batches.len(),
        0 <= s < batches[b].group_by_values@.len(),
        0 <= row < batches[b].keys_under(s).len(),
    ensures
        ({
            let groups = after_sets(traces[b], mode, &batches[b], s + 1).groups;
            let index = indices(groups, batches[b].keys_under(s))[row];
            &&& index < batch_rows(output).len()
            &&& keys_of(batch_rows(output), types.len())[index as int] == batches[b].keys_under(
                s,
            )[row]
        }),
{
    let batch = &batches[b];
    let sets = batch.group_by_values@.len() as int;
    let first = batches.take(b);
    let later = batches.skip(b + 1);
    let start = traces.take(b + 1);
    let end = traces.skip(b + 1);
    let groups = after_sets(traces[b], mode, batch, s + 1).groups;
    let distinct = Seq::<Row>::empty();
    assert forall|i: int| 0 <= i < first.len() implies takes_in(
        start[i],
        types,
        mode,
        &#[trigger] first[i],
        start[i + 1],
    ) by {
        assert(first[i] == batches[i]);
    }
    law_groups_after_batches(start, first, types, mode);
    lemma_with_rows(distinct, rows_of_batches(first));
    assert(traces[b].groups.no_duplicates());
    law_groups_after_sets(traces[b], mode, batch, s + 1);
    lemma_with_rows(traces[b].groups, rows_of_sets(batch, s + 1));
    lemma_rest_of_sets(traces[b], mode, batch, s + 1, sets);
    assert(takes_in(traces[b], types, mode, batch, traces[b + 1]));
    let between = traces[b + 1].groups;
    law_groups_after_sets(traces[b], mode, batch, sets);
    lemma_with_rows(traces[b].groups, rows_of_sets(batch, sets));
    assert forall|i: int| 0 <= i < later.len() implies takes_in(
        end[i],
        types,
        mode,
        &#[trigger] later[i],
        end[i + 1],
    ) by {
        assert(later[i] == batches[b + 1 + i]);
    }
    law_groups_after_batches(end, later, types, mode);
    lemma_with_rows(between, rows_of_batches(later));
    let last = traces.last().groups;
    assert(end.last() == traces.last());
    law_index_is_group_of_row(traces[b], mode, batch, s, row);
    let index = indices(groups, batch.keys_under(s))[row];
    assert(between.take(groups.len() as int)[index as int] == groups[index as int]);
    assert(last.take(between.len() as int)[index as int] == between[index as int]);
    law_one_row_per_group(
        input_ended(traces.last()),
        types,
        schema,
        mode,
        EmitTo::All,
        after,
        output,
    );
    law_emit_all(last);
}

/// Later grouping sets keep the groups that are there in place.
pub proof fn lemma_rest_of_sets(
    before: Trace,
    mode: AggregateMode,
    batch: &EvaluatedBatch,
    from: int,
    to: int,
)
    requires
        before.groups.no_duplicates(),
        0 <= from <= to,
    ensures
        after_sets(before, mode, batch, from).groups.len() <= after_sets(
            before,
            mode,
            batch,
            to,
        ).groups.len(),
        after_sets(before, mode, batch, from).groups == after_sets(
            before,
            mode,
            batch,
            to,
        ).groups.take(after_sets(before, mode, batch, from).groups.len() as int),
    decreases to - from,
{
    let groups = after_sets(before, mode, batch, from).groups;
    if from == to {
        assert(groups =~= groups.take(groups.len() as int));
    } else {
        lemma_rest_of_sets(before, mode, batch, from, to - 1);
        let middle = after_sets(before, mode, batch, to - 1).groups;
        law_groups_after_sets(before, mode, batch, to - 1);
        lemma_with_rows(before.groups, rows_of_sets(batch, to - 1));
        lemma_with_rows(middle, batch.keys_under(to - 1));
        let after = after_sets(before, mode, batch, to).groups;
        assert forall|i: int| 0 <= i < groups.len() implies groups[i] == after[i] by {
            assert(middle.take(groups.len() as int)[i] == middle[i]);
            assert(after.take(middle.len() as int)[i] == after[i]);
        }
        assert(groups =~= after.take(groups.len() as int));
    }
}

/// A step of an aggregation over an ordered input.
pub enum Step {
    /// A batch is taken in.
    TakeIn(EvaluatedBatch),
    /// The first groups go out, as the batch says.
    EmitFirst(usize, Batch),
}

/// Whether a step leads from one trace to another.
pub open spec fn leads(
    before: Trace,
    step: Step,
    types: Seq<DataType>,
    schema: Schema,
    mode: AggregateMode,
    after: Trace,
) -> bool {
    match step {
        Step::TakeIn(batch) => takes_in(before, types, mode, &batch, after),
        Step::EmitFirst(n, batch) => emits(
            before,
            types,
            schema,
            mode,
            EmitTo::First(n),
            after,
            batch,
        ),
    }
}

/// The rows that the steps take in.
pub open spec fn rows_in(steps: Seq<Step>) -> Seq<Row>
    decreases steps.len(),
{
    if steps.len() == 0 {
        Seq::empty()
    } else {
        match steps.last() {
            Step::TakeIn(batch) => rows_in(steps.drop_last()) + rows_of_batch(&batch),
            Step::EmitFirst(_, _) => rows_in(steps.drop_last()),
        }
    }
}

/// The keys that go out on the steps.
pub open spec fn keys_out(steps: Seq<Step>, columns: nat) -> Seq<Row>
    decreases steps.len(),
{
    if steps.len() == 0 {
        Seq::empty()
    } else {
        match steps.last() {
            Step::TakeIn(_) => keys_out(steps.drop_last(), columns),
            Step::EmitFirst(_, batch) => keys_out(steps.drop_last(), columns) + keys_of(
                batch_rows(batch),
                columns,
            ),
        }
    }
}

/// Whether no step takes in a row whose key has gone out before.
pub open spec fn none_comes_back(steps: Seq<Step>, columns: nat) -> bool {
    forall|i: int, row: int|
        0 <= i < steps.len() && (#[trigger] steps[i] matches Step::TakeIn(batch) && 0 <= row
            < rows_of_batch(&batch).len()) ==> !keys_out(steps.take(i), columns).contains(
            #[trigger] rows_of_batch(&steps[i]->TakeIn_0)[row],
        )
}

/// Where groups go out early and none of them comes back, nothing is lost and nothing goes out
/// twice: what has gone out, and after it the groups that are left, are the distinct keys of the
/// input in the order in which they first came.
pub proof fn law_early_output(
    traces: Seq<Trace>,
    steps: Seq<Step>,
    types: Seq<DataType>,
    schema: Schema,
    mode: AggregateMode,
)
    requires
        traces.len() == steps.len() + 1,
        traces[0].groups == Seq::<Row>::empty(),
        forall|i: int|
            0 <= i < steps.len() ==> leads(
                traces[i],
                #[trigger] steps[i],
                types,
                schema,
                mode,
                traces[i + 1],
            ),
        none_comes_back(steps, types.len()),
        types.len() > 0,
    ensures
        keys_out(steps, types.len()) + traces.last().groups == with_rows(
            Seq::empty(),
            rows_in(steps),
        ),
    decreases steps.len(),
{
    let columns = types.len();
    if steps.len() == 0 {
        assert(keys_out(steps, columns) + traces.last().groups =~= Seq::<Row>::empty());
    } else {
        let last = steps.len() - 1;
        let earlier = steps.drop_last();
        let out = keys_out(earlier, columns);
        let before = traces[last];
        let after = traces[last + 1];
        assert(steps.take(last) =~= earlier);
        assert forall|i: int| 0 <= i < earlier.len() implies leads(
            traces.drop_last()[i],
            #[trigger] earlier[i],
            types,
            schema,
            mode,
            traces.drop_last()[i + 1],
        ) by {
            assert(earlier[i] == steps[i]);
        }
        assert forall|i: int, row: int|
            0 <= i < earlier.len() && (#[trigger] earlier[i] matches Step::TakeIn(batch) && 0 <= row
                < rows_of_batch(&batch).len()) implies !keys_out(
            earlier.take(i),
            columns,
        ).contains(#[trigger] rows_of_batch(&earlier[i]->TakeIn_0)[row]) by {
            assert(earlier.take(i) =~= steps.take(i));
            assert(earlier[i] == steps[i]);
            assert(!keys_out(steps.take(i), columns).contains(
                rows_of_batch(&steps[i]->TakeIn_0)[row],
            ));
        }
        law_early_output(traces.drop_last(), earlier, types, schema, mode);
        assert(leads(before, steps[last], types, schema, mode, after));
        match steps[last] {
            Step::TakeIn(batch) => {
                let rows = rows_of_batch(&batch);
                law_groups_after_sets(before, mode, &batch, batch.group_by_values@.len() as int);
                assert forall|i: int| 0 <= i < rows.len() implies !out.contains(
                    #[trigger] rows[i],
                ) by {
                    assert(rows_of_batch(&steps[last]->TakeIn_0)[i] == rows[i]);
                }
                law_emitted_apart(out, before.groups, rows);
                law_split(Seq::empty(), rows_in(earlier), rows);
            },
            Step::EmitFirst(n, batch) => {
                law_emission_partitions(
                    before,
                    types,
                    schema,
                    mode,
                    EmitTo::First(n),
                    after,
                    batch,
                );
                let keys = keys_of(batch_rows(batch), columns);
                assert(out + keys + after.groups =~= out + (keys + after.groups));
            },
        }
    }
}

} // verus!
