//! What goes out of an aggregation, row by row: the key of a group, and what the accumulators make
//! of all that they were given for that group.

use crate::accumulator::{AccumulatorCall, AggregateMode, BatchArgs};
use crate::columns::{batch_rows, column_row, column_rows, Batch, Column, Row};
use crate::group_values::internable;
use crate::grouping::{
    emit_count, emitted, indices, law_emit_all, law_index_names_row, law_no_other_groups,
    lemma_with_rows, remaining, with_rows, EmitTo,
};
use crate::laws::{
    calls_for_sets, keys_out, law_early_output, law_groups_after_sets, law_one_call_per_set,
    law_one_row_per_group, leads, none_comes_back, rows_in, rows_of_batch, rows_of_batches,
    rows_of_sets, Step,
};
use crate::trace::{
    after_set, after_sets, are_keys, batch_call, concat, emit_call, emits, input_ended,
    outputs_fit, outputs_taken, resized, sets_internable, EvaluatedBatch, Trace,
};
use arrow::array::BooleanArray;
use arrow::datatypes::{DataType, Schema};
use vstd::prelude::*;

verus! {

/// What an accumulator is given of one row: the arguments and the filter of the batch, and which of
/// its rows it is.
pub struct Item {
    /// The arguments of the aggregate, a column each.
    pub values: Seq<Column>,
    /// Which rows count, where not all do.
    pub filter: Option<BooleanArray>,
    /// The position of the row in the columns.
    pub row: int,
}

/// What an accumulator makes of all that it was given for a group: the values that it adds to the
/// output row.
pub type Answer = spec_fn(Seq<Item>) -> Row;

/// What an accumulator is given for a group among the first rows of a batch.
pub open spec fn given(args: BatchArgs, group: int, rows: int) -> Seq<Item>
    decreases rows,
{
    if rows <= 0 {
        Seq::empty()
    } else {
        let before = given(args, group, rows - 1);
        if args.group_indices[rows - 1] == group {
            before.push(Item { values: args.values, filter: args.filter, row: rows - 1 })
        } else {
            before
        }
    }
}

/// What an accumulator has been given for each group, once a batch has been taken in.
pub open spec fn with_given(before: Seq<Seq<Item>>, args: BatchArgs) -> Seq<Seq<Item>> {
    Seq::new(
        args.total_num_groups as nat,
        |g: int|
            (if g < before.len() {
                before[g]
            } else {
                Seq::empty()
            }) + given(args, g, args.group_indices.len() as int),
    )
}

/// What an accumulator has been given for each group that it still has, after the given calls.
pub open spec fn members(history: Seq<AccumulatorCall>) -> Seq<Seq<Item>>
    decreases history.len(),
{
    if history.len() == 0 {
        Seq::empty()
    } else {
        let before = members(history.drop_last());
        match history.last() {
            AccumulatorCall::UpdateBatch(args, Ok(_)) => with_given(before, args),
            AccumulatorCall::MergeBatch(args, Ok(_)) => with_given(before, args),
            AccumulatorCall::State(emit_to, Ok(_)) => remaining(before, emit_to),
            AccumulatorCall::Evaluate(emit_to, Ok(_)) => remaining(before, emit_to),
            _ => before,
        }
    }
}

/// Whether the columns hold the answers for the groups to emit.
pub open spec fn are_answers(
    before: Seq<Seq<Item>>,
    emit_to: EmitTo,
    columns: Seq<Column>,
    answer: Answer,
) -> bool {
    forall|g: int|
        0 <= g < emit_count(before, emit_to) ==> #[trigger] column_row(columns, g) == answer(
            before[g],
        )
}

/// Whether, in all the calls, the accumulator answers for each group by what it was given for that
/// group, and nothing else.
pub open spec fn answers(history: Seq<AccumulatorCall>, answer: Answer) -> bool
    decreases history.len(),
{
    history.len() == 0 || {
        let before = members(history.drop_last());
        &&& answers(history.drop_last(), answer)
        &&& match history.last() {
            AccumulatorCall::State(emit_to, Ok(columns)) => are_answers(
                before,
                emit_to,
                columns,
                answer,
            ),
            AccumulatorCall::Evaluate(emit_to, Ok(column)) => are_answers(
                before,
                emit_to,
                seq![column],
                answer,
            ),
            _ => true,
        }
    }
}

/// What accumulator `k` has to be given for a key among the first rows of a grouping set.
pub open spec fn set_items(batch: EvaluatedBatch, s: int, k: int, key: Row, rows: int) -> Seq<Item>
    decreases rows,
{
    if rows <= 0 {
        Seq::empty()
    } else {
        let before = set_items(batch, s, k, key, rows - 1);
        if batch.keys_under(s)[rows - 1] == key {
            before.push(
                Item {
                    values: batch.input_values@[k]@,
                    filter: batch.filter_values@[k],
                    row: rows - 1,
                },
            )
        } else {
            before
        }
    }
}

/// What accumulator `k` has to be given for a key in the first grouping sets of a batch.
pub open spec fn sets_items(batch: EvaluatedBatch, sets: int, k: int, key: Row) -> Seq<Item>
    decreases sets,
{
    if sets <= 0 {
        Seq::empty()
    } else {
        sets_items(batch, sets - 1, k, key) + set_items(
            batch,
            sets - 1,
            k,
            key,
            batch.keys_under(sets - 1).len() as int,
        )
    }
}

/// What accumulator `k` has to be given for a key in all batches.
pub open spec fn items(batches: Seq<EvaluatedBatch>, k: int, key: Row) -> Seq<Item>
    decreases batches.len(),
{
    if batches.len() == 0 {
        Seq::empty()
    } else {
        items(batches.drop_last(), k, key) + sets_items(
            batches.last(),
            batches.last().group_by_values@.len() as int,
            k,
            key,
        )
    }
}

/// The batches that the steps take in.
pub open spec fn batches_in(steps: Seq<Step>) -> Seq<EvaluatedBatch>
    decreases steps.len(),
{
    if steps.len() == 0 {
        Seq::empty()
    } else {
        match steps.last() {
            Step::TakeIn(batch) => batches_in(steps.drop_last()).push(batch),
            Step::EmitFirst(_, _) => batches_in(steps.drop_last()),
        }
    }
}

/// The rows that go out on the steps.
pub open spec fn rows_out(steps: Seq<Step>) -> Seq<Row>
    decreases steps.len(),
{
    if steps.len() == 0 {
        Seq::empty()
    } else {
        match steps.last() {
            Step::TakeIn(_) => rows_out(steps.drop_last()),
            Step::EmitFirst(_, batch) => rows_out(steps.drop_last()) + batch_rows(batch),
        }
    }
}

/// What the first accumulators make of all that the batches hold for a key.
pub open spec fn answers_for(
    batches: Seq<EvaluatedBatch>,
    answer: Seq<Answer>,
    key: Row,
    accumulators: int,
) -> Row
    decreases accumulators,
{
    if accumulators <= 0 {
        Seq::empty()
    } else {
        answers_for(batches, answer, key, accumulators - 1) + answer[accumulators - 1](
            items(batches, accumulators - 1, key),
        )
    }
}

/// The output rows for the keys: each key, and after it what the accumulators make of all that the
/// batches hold for it.
pub open spec fn rows_for(
    batches: Seq<EvaluatedBatch>,
    answer: Seq<Answer>,
    keys: Seq<Row>,
) -> Seq<Row> {
    keys.map_values(|key: Row| key + answers_for(batches, answer, key, answer.len() as int))
}

/// The output rows of an aggregation over the batches: one for each distinct key, in the order in
/// which the keys first come.
pub open spec fn outcome(batches: Seq<EvaluatedBatch>, answer: Seq<Answer>) -> Seq<Row> {
    rows_for(batches, answer, with_rows(Seq::empty(), rows_of_batches(batches)))
}

/// Whether the batch has the arguments and the filter of every accumulator.
pub open spec fn feeds(batch: EvaluatedBatch, accumulators: nat) -> bool {
    &&& accumulators <= batch.input_values@.len()
    &&& accumulators <= batch.filter_values@.len()
}

/// Whether every accumulator has its arguments and its filter in every batch.
pub open spec fn all_fed(batches: Seq<EvaluatedBatch>, accumulators: nat) -> bool {
    forall|b: int| 0 <= b < batches.len() ==> feeds(#[trigger] batches[b], accumulators)
}

/// The rows that the steps take in are those of the batches.
proof fn lemma_rows_in(steps: Seq<Step>)
    ensures
        rows_in(steps) == rows_of_batches(batches_in(steps)),
    decreases steps.len(),
{
    if steps.len() > 0 {
        lemma_rows_in(steps.drop_last());
        if let Step::TakeIn(batch) = steps.last() {
            let earlier = batches_in(steps.drop_last());
            assert(earlier.push(batch).drop_last() =~= earlier);
        }
    }
}

/// A grouping set holds nothing for a key that is not among its rows.
proof fn lemma_no_set_items(batch: EvaluatedBatch, s: int, k: int, key: Row, rows: int)
    requires
        rows <= batch.keys_under(s).len(),
        !batch.keys_under(s).contains(key),
    ensures
        set_items(batch, s, k, key, rows) == Seq::<Item>::empty(),
    decreases rows,
{
    if rows > 0 {
        lemma_no_set_items(batch, s, k, key, rows - 1);
    }
}

/// Grouping sets hold nothing for a key that is not among their rows.
proof fn lemma_no_sets_items(batch: EvaluatedBatch, sets: int, k: int, key: Row)
    requires
        !rows_of_sets(&batch, sets).contains(key),
    ensures
        sets_items(batch, sets, k, key) == Seq::<Item>::empty(),
    decreases sets,
{
    if sets > 0 {
        let first = rows_of_sets(&batch, sets - 1);
        let rows = batch.keys_under(sets - 1);
        let all = first + rows;
        if first.contains(key) {
            let i = first.index_of(key);
            assert(all[i] == key);
        }
        if rows.contains(key) {
            let i = rows.index_of(key);
            assert(all[first.len() + i] == key);
        }
        lemma_no_sets_items(batch, sets - 1, k, key);
        lemma_no_set_items(batch, sets - 1, k, key, rows.len() as int);
        assert(sets_items(batch, sets, k, key) =~= Seq::<Item>::empty());
    }
}

/// The batches hold nothing for a key that is not among their rows.
proof fn lemma_no_items(batches: Seq<EvaluatedBatch>, k: int, key: Row)
    requires
        !rows_of_batches(batches).contains(key),
    ensures
        items(batches, k, key) == Seq::<Item>::empty(),
    decreases batches.len(),
{
    if batches.len() > 0 {
        let first = rows_of_batches(batches.drop_last());
        let rows = rows_of_batch(&batches.last());
        let all = first + rows;
        if first.contains(key) {
            let i = first.index_of(key);
            assert(all[i] == key);
        }
        if rows.contains(key) {
            let i = rows.index_of(key);
            assert(all[first.len() + i] == key);
        }
        lemma_no_items(batches.drop_last(), k, key);
        lemma_no_sets_items(
            batches.last(),
            batches.last().group_by_values@.len() as int,
            k,
            key,
        );
        assert(items(batches, k, key) =~= Seq::<Item>::empty());
    }
}

/// What an accumulator is given for a group is what the grouping set holds for the key of the
/// group.
proof fn lemma_given(
    groups: Seq<Row>,
    batch: EvaluatedBatch,
    s: int,
    k: int,
    g: int,
    rows: int,
)
    requires
        groups.no_duplicates(),
        0 <= g < with_rows(groups, batch.keys_under(s)).len() <= usize::MAX,
        rows <= batch.keys_under(s).len(),
    ensures
        ({
            let after = with_rows(groups, batch.keys_under(s));
            given(
                batch.args(indices(after, batch.keys_under(s)), after.len() as usize, k),
                g,
                rows,
            ) == set_items(batch, s, k, after[g], rows)
        }),
    decreases rows,
{
    if rows > 0 {
        let after = with_rows(groups, batch.keys_under(s));
        lemma_given(groups, batch, s, k, g, rows - 1);
        law_index_names_row(groups, batch.keys_under(s), rows - 1);
        lemma_with_rows(groups, batch.keys_under(s));
    }
}

/// Whether an accumulator has been given, for each group, what the function says for its key.
spec fn holds(trace: Trace, k: int, f: spec_fn(Row) -> Seq<Item>) -> bool {
    let given = members(trace.accumulators[k]);
    &&& given.len() == trace.groups.len()
    &&& forall|g: int| 0 <= g < given.len() ==> #[trigger] given[g] == f(trace.groups[g])
}

/// Grouping sets add what they hold for each key to what was given for it before.
proof fn lemma_members_after_sets(
    before: Trace,
    types: Seq<DataType>,
    mode: AggregateMode,
    batch: EvaluatedBatch,
    sets: int,
    k: int,
    f: spec_fn(Row) -> Seq<Item>,
)
    requires
        0 <= sets,
        0 <= k < before.accumulators.len(),
        k < batch.input_values@.len(),
        k < batch.filter_values@.len(),
        before.groups.no_duplicates(),
        sets_internable(before, types, mode, &batch, sets),
        holds(before, k, f),
        forall|key: Row|
            #![trigger f(key)]
            rows_of_sets(&batch, sets).contains(key) && !before.groups.contains(key) ==> f(key)
                == Seq::<Item>::empty(),
    ensures
        holds(
            after_sets(before, mode, &batch, sets),
            k,
            |key: Row| f(key) + sets_items(batch, sets, k, key),
        ),
    decreases sets,
{
    let now = after_sets(before, mode, &batch, sets);
    let next = |key: Row| f(key) + sets_items(batch, sets, k, key);
    if sets == 0 {
        assert forall|g: int| 0 <= g < before.groups.len() implies #[trigger] members(
            now.accumulators[k],
        )[g] == next(now.groups[g]) by {
            assert(f(now.groups[g]) + Seq::<Item>::empty() =~= f(now.groups[g]));
        }
    } else {
        let s = sets - 1;
        let middle = after_sets(before, mode, &batch, s);
        let rows = batch.keys_under(s);
        let earlier = rows_of_sets(&batch, s);
        let all = rows_of_sets(&batch, sets);
        assert(all == earlier + rows);
        assert forall|key: Row|
            #![trigger f(key)]
            earlier.contains(key) && !before.groups.contains(key) implies f(key) == Seq::<
            Item,
        >::empty() by {
            let i = earlier.index_of(key);
            assert(all[i] == key);
        }
        lemma_members_after_sets(before, types, mode, batch, s, k, f);
        law_groups_after_sets(before, mode, &batch, s);
        lemma_with_rows(before.groups, earlier);
        law_one_call_per_set(before, mode, &batch, s, k);
        assert(internable(types, middle.groups, batch.set_columns(s)));
        let after = with_rows(middle.groups, rows);
        let args = batch.args(indices(after, rows), after.len() as usize, k);
        let given_before = members(middle.accumulators[k]);
        assert(now == after_set(middle, mode, &batch, s));
        assert(now.accumulators[k] == middle.accumulators[k].push(
            batch_call(mode, args, Ok(())),
        ));
        assert(now.accumulators[k].drop_last() =~= middle.accumulators[k]);
        assert(members(now.accumulators[k]) == with_given(given_before, args));
        lemma_with_rows(middle.groups, rows);
        assert forall|g: int| 0 <= g < after.len() implies #[trigger] members(
            now.accumulators[k],
        )[g] == next(after[g]) by {
            let key = after[g];
            lemma_given(middle.groups, batch, s, k, g, rows.len() as int);
            assert(args.group_indices.len() == rows.len());
            let added = set_items(batch, s, k, key, rows.len() as int);
            if g < given_before.len() {
                assert(after.take(middle.groups.len() as int)[g] == after[g]);
                assert(given_before[g] == f(key) + sets_items(batch, s, k, key));
                assert(f(key) + sets_items(batch, s, k, key) + added =~= f(key) + (sets_items(
                    batch,
                    s,
                    k,
                    key,
                ) + added));
            } else {
                if middle.groups.contains(key) {
                    let h = middle.groups.index_of(key);
                    assert(after.take(middle.groups.len() as int)[h] == after[h]);
                    assert(false);
                }
                assert(after.contains(key));
                law_no_other_groups(middle.groups, rows, key);
                law_no_other_groups(before.groups, earlier, key);
                let i = rows.index_of(key);
                assert(all[earlier.len() + i] == key);
                assert(all.contains(key));
                assert(f(key) == Seq::<Item>::empty());
                lemma_no_sets_items(batch, s, k, key);
                assert(Seq::<Item>::empty() + added =~= f(key) + (sets_items(batch, s, k, key)
                    + added));
            }
        }
    }
}

/// Whether the traces are those of an aggregation that takes the steps, one after the other, from a
/// start without groups where no accumulator has been given anything, and in which none of the
/// groups that went out comes back.
pub open spec fn runs(
    traces: Seq<Trace>,
    steps: Seq<Step>,
    types: Seq<DataType>,
    schema: Schema,
    mode: AggregateMode,
) -> bool {
    &&& traces.len() == steps.len() + 1
    &&& traces[0].groups == Seq::<Row>::empty()
    &&& forall|k: int|
        0 <= k < traces[0].accumulators.len() ==> members(#[trigger] traces[0].accumulators[k])
            == Seq::<Seq<Item>>::empty()
    &&& forall|i: int|
        0 <= i < steps.len() ==> leads(
            traces[i],
            #[trigger] steps[i],
            types,
            schema,
            mode,
            traces[i + 1],
        )
    &&& none_comes_back(steps, types.len())
    &&& all_fed(batches_in(steps), traces[0].accumulators.len())
}

/// What runs is a run up to the last step too.
proof fn lemma_runs_before(
    traces: Seq<Trace>,
    steps: Seq<Step>,
    types: Seq<DataType>,
    schema: Schema,
    mode: AggregateMode,
)
    requires
        runs(traces, steps, types, schema, mode),
        steps.len() > 0,
    ensures
        runs(traces.drop_last(), steps.drop_last(), types, schema, mode),
        leads(
            traces[steps.len() - 1],
            steps.last(),
            types,
            schema,
            mode,
            traces[steps.len() as int],
        ),
{
    let earlier = steps.drop_last();
    let columns = types.len();
    assert(leads(
        traces[steps.len() - 1],
        steps[steps.len() - 1],
        types,
        schema,
        mode,
        traces[steps.len() as int],
    ));
    assert forall|i: int| 0 <= i < earlier.len() implies leads(
        traces.drop_last()[i],
        #[trigger] earlier[i],
        types,
        schema,
        mode,
        traces.drop_last()[i + 1],
    ) by {
        assert(earlier[i] == steps[i]);
    }
    assert forall|i: int, row: int|
        0 <= i < earlier.len() && (#[trigger] earlier[i] matches Step::TakeIn(batch) && 0 <= row
            < rows_of_batch(&batch).len()) implies !keys_out(earlier.take(i), columns).contains(
        #[trigger] rows_of_batch(&earlier[i]->TakeIn_0)[row],
    ) by {
        assert(earlier.take(i) =~= steps.take(i));
        assert(earlier[i] == steps[i]);
        assert(!keys_out(steps.take(i), columns).contains(
            rows_of_batch(&steps[i]->TakeIn_0)[row],
        ));
    }
    let accumulators = traces[0].accumulators.len();
    assert forall|b: int| 0 <= b < batches_in(earlier).len() implies feeds(
        #[trigger] batches_in(earlier)[b],
        accumulators,
    ) by {
        assert(batches_in(steps)[b] == batches_in(earlier)[b]);
    }
}

/// The groups of a run are distinct.
proof fn lemma_runs_distinct(
    traces: Seq<Trace>,
    steps: Seq<Step>,
    types: Seq<DataType>,
    schema: Schema,
    mode: AggregateMode,
)
    requires
        runs(traces, steps, types, schema, mode),
        types.len() > 0,
    ensures
        traces.last().groups.no_duplicates(),
        keys_out(steps, types.len()) + traces.last().groups == with_rows(
            Seq::empty(),
            rows_of_batches(batches_in(steps)),
        ),
{
    law_early_output(traces, steps, types, schema, mode);
    lemma_rows_in(steps);
    let all = with_rows(Seq::<Row>::empty(), rows_in(steps));
    lemma_with_rows(Seq::<Row>::empty(), rows_in(steps));
    let out = keys_out(steps, types.len());
    let groups = traces.last().groups;
    assert forall|i: int, j: int| 0 <= i < groups.len() && 0 <= j < groups.len() && i != j
        implies groups[i] != groups[j] by {
        assert(all[out.len() + i] == groups[i]);
        assert(all[out.len() + j] == groups[j]);
    }
}

/// The calls of an emission, where there are groups.
proof fn lemma_emission_calls(
    before: Trace,
    types: Seq<DataType>,
    schema: Schema,
    mode: AggregateMode,
    emit_to: EmitTo,
    after: Trace,
    batch: Batch,
) -> (outputs: Seq<Seq<Column>>)
    requires
        emits(before, types, schema, mode, emit_to, after, batch),
        before.groups.len() > 0,
    ensures
        outputs.len() == before.accumulators.len() == after.accumulators.len(),
        outputs_fit(mode, outputs),
        forall|k: int|
            0 <= k < outputs.len() ==> after.accumulators[k] == before.accumulators[k].push(
                emit_call(mode, emit_to, #[trigger] outputs[k]),
            ),
        after.groups == remaining(before.groups, emit_to),
        exists|keys: Seq<Column>|
            are_keys(types, before.groups, emit_to, keys) && batch_rows(batch)
                == #[trigger] column_rows(keys + concat(outputs)),
{
    let (keys, outputs, bytes) = choose|
        keys: Seq<Column>,
        outputs: Seq<Seq<Column>>,
        bytes: usize,
    |
        {
            &&& are_keys(types, before.groups, emit_to, keys)
            &&& outputs.len() == before.accumulators.len()
            &&& outputs_fit(mode, outputs)
            &&& after == #[trigger] resized(
                outputs_taken(before, mode, emit_to, outputs),
                bytes,
                Ok(()),
            )
            &&& batch_rows(batch) == #[trigger] column_rows(keys + concat(outputs))
        };
    outputs
}

/// For each group that is left, each accumulator has been given all that the input holds for its
/// key.
pub proof fn law_all_is_given(
    traces: Seq<Trace>,
    steps: Seq<Step>,
    types: Seq<DataType>,
    schema: Schema,
    mode: AggregateMode,
    k: int,
)
    requires
        runs(traces, steps, types, schema, mode),
        types.len() > 0,
        0 <= k < traces[0].accumulators.len(),
    ensures
        traces.last().accumulators.len() == traces[0].accumulators.len(),
        members(traces.last().accumulators[k]) == traces.last().groups.map_values(
            |key: Row| items(batches_in(steps), k, key),
        ),
    decreases steps.len(),
{
    let last = traces.last();
    let f = |key: Row| items(batches_in(steps), k, key);
    if steps.len() == 0 {
        assert(members(last.accumulators[k]) =~= last.groups.map_values(f));
    } else {
        let earlier = steps.drop_last();
        let before = traces[steps.len() - 1];
        assert(traces.drop_last().last() == before);
        lemma_runs_before(traces, steps, types, schema, mode);
        law_all_is_given(traces.drop_last(), earlier, types, schema, mode, k);
        lemma_runs_distinct(traces.drop_last(), earlier, types, schema, mode);
        let e = |key: Row| items(batches_in(earlier), k, key);
        assert(holds(before, k, e));
        match steps.last() {
            Step::TakeIn(batch) => {
                let sets = batch.group_by_values@.len() as int;
                let rows = rows_of_batch(&batch);
                assert(batches_in(steps).last() == batch);
                assert(feeds(
                    batches_in(steps)[batches_in(steps).len() - 1],
                    before.accumulators.len(),
                ));
                assert forall|key: Row|
                    #![trigger e(key)]
                    rows.contains(key) && !before.groups.contains(key) implies e(key) == Seq::<
                    Item,
                >::empty() by {
                    let i = rows.index_of(key);
                    let out = keys_out(earlier, types.len());
                    assert(steps.take(steps.len() - 1) =~= earlier);
                    assert(rows_of_batch(&steps[steps.len() - 1]->TakeIn_0)[i] == key);
                    assert(!out.contains(key));
                    let all = out + before.groups;
                    if rows_of_batches(batches_in(earlier)).contains(key) {
                        law_no_other_groups(
                            Seq::<Row>::empty(),
                            rows_of_batches(batches_in(earlier)),
                            key,
                        );
                        let j = all.index_of(key);
                        if j < out.len() {
                            assert(out[j] == key);
                        } else {
                            assert(before.groups[j - out.len()] == key);
                        }
                    }
                    lemma_no_items(batches_in(earlier), k, key);
                }
                lemma_members_after_sets(before, types, mode, batch, sets, k, e);
                law_one_call_per_set(before, mode, &batch, sets, k);
                let middle = after_sets(before, mode, &batch, sets);
                assert(last.groups == middle.groups && last.accumulators == middle.accumulators);
                assert(batches_in(steps).drop_last() =~= batches_in(earlier));
                assert(members(last.accumulators[k]) =~= last.groups.map_values(f));
            },
            Step::EmitFirst(n, batch) => {
                let emit_to = EmitTo::First(n);
                if before.groups.len() > 0 {
                    let outputs = lemma_emission_calls(
                        before,
                        types,
                        schema,
                        mode,
                        emit_to,
                        last,
                        batch,
                    );
                    let call = emit_call(mode, emit_to, outputs[k]);
                    assert(last.accumulators[k] == before.accumulators[k].push(call));
                    assert(last.accumulators[k].drop_last() =~= before.accumulators[k]);
                    assert(members(last.accumulators[k]) == remaining(
                        members(before.accumulators[k]),
                        emit_to,
                    ));
                }
                assert(members(last.accumulators[k]) =~= last.groups.map_values(f));
            },
        }
    }
}

/// An accumulator that answers by what it was given does so from the start.
proof fn lemma_answers_before(
    history: Seq<AccumulatorCall>,
    later: Seq<AccumulatorCall>,
    answer: Answer,
)
    requires
        answers(history + later, answer),
    ensures
        answers(history, answer),
    decreases later.len(),
{
    if later.len() == 0 {
        assert(history + later =~= history);
    } else {
        assert((history + later).drop_last() =~= history + later.drop_last());
        lemma_answers_before(history, later.drop_last(), answer);
    }
}

/// What the first accumulators hand out for a group is what they make of all that the batches hold
/// for its key.
proof fn lemma_output_values(
    batches: Seq<EvaluatedBatch>,
    answer: Seq<Answer>,
    outputs: Seq<Seq<Column>>,
    key: Row,
    i: int,
    m: int,
)
    requires
        0 <= m <= outputs.len() == answer.len(),
        forall|k: int|
            0 <= k < outputs.len() ==> column_row(#[trigger] outputs[k], i) == answer[k](
                items(batches, k, key),
            ),
    ensures
        column_row(concat(outputs.take(m)), i) == answers_for(batches, answer, key, m),
    decreases m,
{
    if m == 0 {
        assert(column_row(concat(outputs.take(0)), i) =~= Seq::empty());
    } else {
        lemma_output_values(batches, answer, outputs, key, i, m - 1);
        assert(outputs.take(m).drop_last() =~= outputs.take(m - 1));
        let first = concat(outputs.take(m - 1));
        let next = outputs[m - 1];
        assert(column_row(first + next, i) =~= column_row(first, i) + column_row(next, i));
    }
}

/// The rows of an emission: the keys, and what the accumulators make of all that the batches hold
/// for them.
proof fn lemma_emitted_rows(
    before: Trace,
    types: Seq<DataType>,
    schema: Schema,
    mode: AggregateMode,
    emit_to: EmitTo,
    after: Trace,
    batch: Batch,
    batches: Seq<EvaluatedBatch>,
    answer: Seq<Answer>,
)
    requires
        emits(before, types, schema, mode, emit_to, after, batch),
        types.len() > 0,
        answer.len() == before.accumulators.len(),
        forall|k: int|
            0 <= k < answer.len() ==> members(#[trigger] before.accumulators[k])
                == before.groups.map_values(|key: Row| items(batches, k, key)),
        forall|k: int|
            0 <= k < answer.len() ==> answers(#[trigger] after.accumulators[k], answer[k]),
    ensures
        batch_rows(batch) == rows_for(batches, answer, emitted(before.groups, emit_to)),
{
    let rows = batch_rows(batch);
    let expected = rows_for(batches, answer, emitted(before.groups, emit_to));
    if before.groups.len() == 0 {
        assert(rows =~= expected);
    } else {
        let outputs = lemma_emission_calls(before, types, schema, mode, emit_to, after, batch);
        let keys = choose|keys: Seq<Column>|
            are_keys(types, before.groups, emit_to, keys) && rows == #[trigger] column_rows(
                keys + concat(outputs),
            );
        let columns = keys + concat(outputs);
        assert(columns[0] == keys[0]);
        assert(column_rows(keys).len() == rows.len());
        assert forall|i: int| 0 <= i < rows.len() implies #[trigger] rows[i] == expected[i] by {
            let key = emitted(before.groups, emit_to)[i];
            assert(key == before.groups[i]);
            assert(rows[i] == column_row(columns, i));
            assert(column_rows(keys)[i] == column_row(keys, i));
            assert forall|k: int| 0 <= k < outputs.len() implies column_row(
                #[trigger] outputs[k],
                i,
            ) == answer[k](items(batches, k, key)) by {
                let history = after.accumulators[k];
                let given = members(before.accumulators[k]);
                assert(history == before.accumulators[k].push(
                    emit_call(mode, emit_to, outputs[k]),
                ));
                assert(history.drop_last() =~= before.accumulators[k]);
                assert(answers(history, answer[k]));
                assert(given[i] == items(batches, k, key));
                if !mode.outputs_state() {
                    assert(outputs[k] =~= seq![outputs[k][0]]);
                }
                assert(are_answers(given, emit_to, outputs[k], answer[k]));
                assert(column_row(outputs[k], i) == answer[k](given[i]));
            }
            lemma_output_values(batches, answer, outputs, key, i, outputs.len() as int);
            assert(outputs.take(outputs.len() as int) =~= outputs);
            assert(column_row(columns, i) =~= column_row(keys, i) + column_row(
                concat(outputs),
                i,
            ));
        }
        assert(rows =~= expected);
    }
}

/// A batch that holds nothing for a key makes no difference to what the accumulators make of it.
proof fn lemma_answers_stay(
    batches: Seq<EvaluatedBatch>,
    batch: EvaluatedBatch,
    answer: Seq<Answer>,
    key: Row,
    m: int,
)
    requires
        !rows_of_batch(&batch).contains(key),
        0 <= m <= answer.len(),
    ensures
        answers_for(batches.push(batch), answer, key, m) == answers_for(batches, answer, key, m),
    decreases m,
{
    if m > 0 {
        lemma_answers_stay(batches, batch, answer, key, m - 1);
        let all = batches.push(batch);
        assert(all.drop_last() =~= batches);
        lemma_no_sets_items(batch, batch.group_by_values@.len() as int, m - 1, key);
        assert(items(all, m - 1, key) =~= items(batches, m - 1, key));
    }
}

/// Whether every accumulator answers for each group by what it was given for that group.
pub open spec fn all_answer(trace: Trace, answer: Seq<Answer>) -> bool {
    &&& trace.accumulators.len() == answer.len()
    &&& forall|k: int|
        0 <= k < answer.len() ==> answers(#[trigger] trace.accumulators[k], answer[k])
}

/// Accumulators that answer by what they were given did so before the step.
proof fn lemma_answer_before_step(
    before: Trace,
    step: Step,
    types: Seq<DataType>,
    schema: Schema,
    mode: AggregateMode,
    after: Trace,
    answer: Seq<Answer>,
)
    requires
        leads(before, step, types, schema, mode, after),
        all_answer(after, answer),
        before.accumulators.len() == after.accumulators.len(),
    ensures
        all_answer(before, answer),
{
    assert forall|k: int| 0 <= k < answer.len() implies answers(
        #[trigger] before.accumulators[k],
        answer[k],
    ) by {
        assert(answers(after.accumulators[k], answer[k]));
        match step {
            Step::TakeIn(batch) => {
                let sets = batch.group_by_values@.len() as int;
                law_one_call_per_set(before, mode, &batch, sets, k);
                assert(after.accumulators == after_sets(before, mode, &batch, sets).accumulators);
                if k < batch.input_values@.len() && k < batch.filter_values@.len() {
                    lemma_answers_before(
                        before.accumulators[k],
                        calls_for_sets(before, mode, &batch, sets, k),
                        answer[k],
                    );
                }
            },
            Step::EmitFirst(n, batch) => {
                if before.groups.len() > 0 {
                    let emit_to = EmitTo::First(n);
                    let outputs = lemma_emission_calls(
                        before,
                        types,
                        schema,
                        mode,
                        emit_to,
                        after,
                        batch,
                    );
                    let call = emit_call(mode, emit_to, outputs[k]);
                    assert(after.accumulators[k] == before.accumulators[k].push(call));
                    assert(before.accumulators[k].push(call) =~= before.accumulators[k] + seq![
                        call,
                    ]);
                    lemma_answers_before(before.accumulators[k], seq![call], answer[k]);
                }
            },
        }
    }
}

/// What goes out early is final: the rows that went out on the steps are the keys, each with what
/// the accumulators make of all that the whole input holds for it.
pub proof fn law_early_rows(
    traces: Seq<Trace>,
    steps: Seq<Step>,
    types: Seq<DataType>,
    schema: Schema,
    mode: AggregateMode,
    answer: Seq<Answer>,
)
    requires
        runs(traces, steps, types, schema, mode),
        types.len() > 0,
        traces[0].accumulators.len() == answer.len(),
        all_answer(traces.last(), answer),
    ensures
        rows_out(steps) == rows_for(batches_in(steps), answer, keys_out(steps, types.len())),
    decreases steps.len(),
{
    let columns = types.len();
    if steps.len() == 0 {
        assert(rows_out(steps) =~= rows_for(batches_in(steps), answer, keys_out(steps, columns)));
    } else {
        let earlier = steps.drop_last();
        let before = traces[steps.len() - 1];
        let after = traces.last();
        let batches = batches_in(earlier);
        let out = keys_out(earlier, columns);
        assert(traces.drop_last().last() == before);
        lemma_runs_before(traces, steps, types, schema, mode);
        lemma_accumulators_stay(traces.drop_last(), earlier, types, schema, mode);
        lemma_answer_before_step(before, steps.last(), types, schema, mode, after, answer);
        law_early_rows(traces.drop_last(), earlier, types, schema, mode, answer);
        match steps.last() {
            Step::TakeIn(batch) => {
                assert(batches_in(steps) == batches.push(batch));
                assert forall|i: int| 0 <= i < out.len() implies #[trigger] rows_for(
                    batches,
                    answer,
                    out,
                )[i] == rows_for(batches.push(batch), answer, out)[i] by {
                    let key = out[i];
                    let rows = rows_of_batch(&batch);
                    if rows.contains(key) {
                        let row = rows.index_of(key);
                        assert(steps.take(steps.len() - 1) =~= earlier);
                        assert(rows_of_batch(&steps[steps.len() - 1]->TakeIn_0)[row] == key);
                        assert(out.contains(key));
                        assert(false);
                    }
                    lemma_answers_stay(batches, batch, answer, key, answer.len() as int);
                }
                assert(rows_for(batches, answer, out) =~= rows_for(
                    batches.push(batch),
                    answer,
                    out,
                ));
            },
            Step::EmitFirst(n, batch) => {
                assert forall|k: int| 0 <= k < answer.len() implies members(
                    #[trigger] before.accumulators[k],
                ) == before.groups.map_values(|key: Row| items(batches, k, key)) by {
                    law_all_is_given(traces.drop_last(), earlier, types, schema, mode, k);
                }
                let emit_to = EmitTo::First(n);
                lemma_emitted_rows(
                    before,
                    types,
                    schema,
                    mode,
                    emit_to,
                    after,
                    batch,
                    batches,
                    answer,
                );
                law_one_row_per_group(before, types, schema, mode, emit_to, after, batch);
                let keys = emitted(before.groups, emit_to);
                assert(rows_for(batches, answer, out) + rows_for(batches, answer, keys)
                    =~= rows_for(batches, answer, out + keys));
            },
        }
    }
}

/// There are as many accumulators at the end of a run as at its start.
proof fn lemma_accumulators_stay(
    traces: Seq<Trace>,
    steps: Seq<Step>,
    types: Seq<DataType>,
    schema: Schema,
    mode: AggregateMode,
)
    requires
        runs(traces, steps, types, schema, mode),
        types.len() > 0,
    ensures
        traces.last().accumulators.len() == traces[0].accumulators.len(),
    decreases steps.len(),
{
    if steps.len() > 0 {
        let before = traces[steps.len() - 1];
        assert(traces.drop_last().last() == before);
        lemma_runs_before(traces, steps, types, schema, mode);
        lemma_accumulators_stay(traces.drop_last(), steps.drop_last(), types, schema, mode);
        match steps.last() {
            Step::TakeIn(batch) => lemma_sets_keep_accumulators(
                before,
                mode,
                &batch,
                batch.group_by_values@.len() as int,
            ),
            Step::EmitFirst(n, batch) => {
                if before.groups.len() > 0 {
                    let outputs = lemma_emission_calls(
                        before,
                        types,
                        schema,
                        mode,
                        EmitTo::First(n),
                        traces.last(),
                        batch,
                    );
                }
            },
        }
    }
}

/// Grouping sets bring no accumulators.
proof fn lemma_sets_keep_accumulators(
    before: Trace,
    mode: AggregateMode,
    batch: &EvaluatedBatch,
    sets: int,
)
    ensures
        after_sets(before, mode, batch, sets).accumulators.len() == before.accumulators.len(),
    decreases sets,
{
    if sets > 0 {
        lemma_sets_keep_accumulators(before, mode, batch, sets - 1);
    }
}

/// The output of an aggregation, from the first batch to the last row: one row for each distinct
/// key of the input, in the order in which the keys first came, with what the accumulators make of
/// all that the input holds for the key.
pub proof fn law_outcome(
    traces: Seq<Trace>,
    steps: Seq<Step>,
    types: Seq<DataType>,
    schema: Schema,
    mode: AggregateMode,
    after: Trace,
    output: Batch,
    answer: Seq<Answer>,
)
    requires
        runs(traces, steps, types, schema, mode),
        types.len() > 0,
        traces[0].accumulators.len() == answer.len(),
        emits(input_ended(traces.last()), types, schema, mode, EmitTo::All, after, output),
        all_answer(after, answer),
    ensures
        rows_out(steps) + batch_rows(output) == outcome(batches_in(steps), answer),
{
    let last = traces.last();
    let ended = input_ended(last);
    let batches = batches_in(steps);
    lemma_accumulators_stay(traces, steps, types, schema, mode);
    lemma_runs_distinct(traces, steps, types, schema, mode);
    assert forall|k: int| 0 <= k < answer.len() implies members(#[trigger] last.accumulators[k])
        == last.groups.map_values(|key: Row| items(batches, k, key)) by {
        law_all_is_given(traces, steps, types, schema, mode, k);
    }
    assert(all_answer(last, answer)) by {
        if last.groups.len() > 0 {
            let outputs = lemma_emission_calls(
                ended,
                types,
                schema,
                mode,
                EmitTo::All,
                after,
                output,
            );
            assert forall|k: int| 0 <= k < answer.len() implies answers(
                #[trigger] last.accumulators[k],
                answer[k],
            ) by {
                let call = emit_call(mode, EmitTo::All, outputs[k]);
                assert(after.accumulators[k] == last.accumulators[k].push(call));
                assert(answers(after.accumulators[k], answer[k]));
                assert(last.accumulators[k].push(call) =~= last.accumulators[k] + seq![call]);
                lemma_answers_before(last.accumulators[k], seq![call], answer[k]);
            }
        }
    }
    law_early_rows(traces, steps, types, schema, mode, answer);
    lemma_emitted_rows(
        ended,
        types,
        schema,
        mode,
        EmitTo::All,
        after,
        output,
        batches,
        answer,
    );
    law_emit_all(last.groups);
    let out = keys_out(steps, types.len());
    assert(rows_for(batches, answer, out) + rows_for(batches, answer, last.groups) =~= rows_for(
        batches,
        answer,
        out + last.groups,
    ));
}

/// Whether groups go out early, and when, makes no difference to the output: two runs over the same
/// batches give the same rows in the same order.
pub proof fn law_early_emission_changes_nothing(
    traces: Seq<Trace>,
    steps: Seq<Step>,
    after: Trace,
    output: Batch,
    other_traces: Seq<Trace>,
    other_steps: Seq<Step>,
    other_after: Trace,
    other_output: Batch,
    types: Seq<DataType>,
    schema: Schema,
    mode: AggregateMode,
    answer: Seq<Answer>,
)
    requires
        runs(traces, steps, types, schema, mode),
        runs(other_traces, other_steps, types, schema, mode),
        batches_in(steps) == batches_in(other_steps),
        types.len() > 0,
        traces[0].accumulators.len() == answer.len(),
        other_traces[0].accumulators.len() == answer.len(),
        emits(input_ended(traces.last()), types, schema, mode, EmitTo::All, after, output),
        emits(
            input_ended(other_traces.last()),
            types,
            schema,
            mode,
            EmitTo::All,
            other_after,
            other_output,
        ),
        all_answer(after, answer),
        all_answer(other_after, answer),
    ensures
        rows_out(steps) + batch_rows(output) == rows_out(other_steps) + batch_rows(other_output),
{
    law_outcome(traces, steps, types, schema, mode, after, output, answer);
    law_outcome(
        other_traces,
        other_steps,
        types,
        schema,
        mode,
        other_after,
        other_output,
        answer,
    );
}

} // verus!
