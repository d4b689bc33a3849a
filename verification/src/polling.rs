//! What comes out of an aggregation that is polled to its end.

use crate::accumulator::{AggregateMode, GroupsAccumulator};
use crate::answers::{
    all_answer, all_fed, batches_in, feeds, law_outcome, members, outcome, rows_out, runs, Answer,
    Item,
};
use crate::columns::{batch_rows, Batch, Row};
use crate::error::AggregateError;
use crate::grouping::EmitTo;
use crate::laws::{keys_of, keys_out, leads, none_comes_back, rows_of_batch, Step};
use crate::ordering::{GroupOrdering, OrderedGroups};
use crate::output::{chunk, rest};
use crate::reservation::MemoryReservation;
use crate::stream::{Action, ExecutionState, GroupedHashAggregateStream};
use crate::trace::{input_ended, EvaluatedBatch, Trace};
use arrow::datatypes::{DataType, Schema};
use vstd::prelude::*;

verus! {

/// The rows of the batches, one batch after the other.
pub open spec fn rows_of(outputs: Seq<Batch>) -> Seq<Row>
    decreases outputs.len(),
{
    if outputs.len() == 0 {
        Seq::empty()
    } else {
        batch_rows(outputs[0]) + rows_of(outputs.drop_first())
    }
}

/// The rows of the first lists of batches, one list after the other.
pub open spec fn rows_of_first(outputs: Seq<Seq<Batch>>, n: int) -> Seq<Row>
    decreases n,
{
    if n <= 0 {
        Seq::empty()
    } else {
        rows_of_first(outputs, n - 1) + rows_of(outputs[n - 1])
    }
}

/// Whether the aggregation hands out the batches, one after the other, and then has no more of them
/// to hand out.
pub open spec fn drains<X, A: GroupsAccumulator, O: OrderedGroups, M: MemoryReservation>(
    before: GroupedHashAggregateStream<X, A, O, M>,
    outputs: Seq<Batch>,
    after: GroupedHashAggregateStream<X, A, O, M>,
) -> bool
    decreases outputs.len(),
{
    if outputs.len() == 0 {
        !(before.state() is ProducingOutput) && after == before
    } else {
        before.state() is ProducingOutput && exists|
            middle: GroupedHashAggregateStream<X, A, O, M>,
        | #[trigger]
            before.acts(Action::Output(outputs[0]), &middle) && drains(
                middle,
                outputs.drop_first(),
                after,
            )
    }
}

/// Whether the aggregation takes the batch in, hands out the outputs, and is then at `after`.
pub open spec fn turns<X, A: GroupsAccumulator, O: OrderedGroups, M: MemoryReservation>(
    before: GroupedHashAggregateStream<X, A, O, M>,
    batch: EvaluatedBatch,
    outputs: Seq<Batch>,
    after: GroupedHashAggregateStream<X, A, O, M>,
) -> bool {
    before.state() is ReadingInput && !before.ended() && exists|
        handled: GroupedHashAggregateStream<X, A, O, M>,
    |
        {
            &&& #[trigger] handled.same_plan(&before)
            &&& !handled.ended()
            &&& before.takes_batch(&batch, &handled, Ok(()))
            &&& drains(handled, outputs, after)
        }
}

/// Whether the aggregation comes to the end of its input, hands out the outputs, and is then at
/// `after`.
pub open spec fn finishes<X, A: GroupsAccumulator, O: OrderedGroups, M: MemoryReservation>(
    before: GroupedHashAggregateStream<X, A, O, M>,
    outputs: Seq<Batch>,
    after: GroupedHashAggregateStream<X, A, O, M>,
) -> bool {
    before.state() is ReadingInput && exists|handled: GroupedHashAggregateStream<X, A, O, M>|
        {
            &&& #[trigger] handled.same_plan(&before)
            &&& handled.ended()
            &&& before.produces(input_ended(before.trace()), EmitTo::All, &handled, Ok(()))
            &&& drains(handled, outputs, after)
        }
}

/// Whether an aggregation that is polled to its end is at the given places, takes in the batches
/// one after the other, and hands out the outputs after each of them and after the end of the
/// input.
pub open spec fn polled<X, A: GroupsAccumulator, O: OrderedGroups, M: MemoryReservation>(
    streams: Seq<GroupedHashAggregateStream<X, A, O, M>>,
    batches: Seq<EvaluatedBatch>,
    outputs: Seq<Seq<Batch>>,
    end: GroupedHashAggregateStream<X, A, O, M>,
) -> bool {
    &&& streams.len() == batches.len() + 1
    &&& outputs.len() == batches.len() + 1
    &&& forall|b: int|
        0 <= b < batches.len() ==> turns(
            streams[b],
            #[trigger] batches[b],
            outputs[b],
            streams[b + 1],
        )
    &&& finishes(streams.last(), outputs.last(), end)
}

/// Whether the aggregation has no groups yet, and its accumulators have been given nothing.
pub open spec fn fresh(trace: Trace) -> bool {
    &&& trace.groups == Seq::<Row>::empty()
    &&& forall|k: int|
        0 <= k < trace.accumulators.len() ==> members(#[trigger] trace.accumulators[k]) == Seq::<
            Seq<Item>,
        >::empty()
}

/// Whether no batch has a row whose key has gone out before.
pub open spec fn none_returns(
    batches: Seq<EvaluatedBatch>,
    outputs: Seq<Seq<Batch>>,
    columns: nat,
) -> bool {
    forall|b: int, row: int|
        #![trigger rows_of_batch(&batches[b])[row]]
        0 <= b < batches.len() && 0 <= row < rows_of_batch(&batches[b]).len() ==> !keys_of(
            rows_of_first(outputs, b),
            columns,
        ).contains(rows_of_batch(&batches[b])[row])
}

/// Whether the ordering never says before the end of the input that all groups are complete.
pub open spec fn only_first<O: OrderedGroups>() -> bool {
    forall|order: GroupOrdering<O>| #[trigger] order.complete() != Some(EmitTo::All)
}

/// Handing out output hands out its rows and changes nothing else.
proof fn lemma_drains<X, A: GroupsAccumulator, O: OrderedGroups, M: MemoryReservation>(
    before: GroupedHashAggregateStream<X, A, O, M>,
    outputs: Seq<Batch>,
    after: GroupedHashAggregateStream<X, A, O, M>,
)
    requires
        drains(before, outputs, after),
        before.max_rows() > 0,
    ensures
        after.trace() == before.trace(),
        after.same_plan(&before),
        after.ended() == before.ended(),
        match before.state() {
            ExecutionState::ProducingOutput(batch) => rows_of(outputs) == batch_rows(batch),
            _ => outputs.len() == 0 && after == before,
        },
    decreases outputs.len(),
{
    if outputs.len() > 0 {
        let middle = choose|middle: GroupedHashAggregateStream<X, A, O, M>| #[trigger]
            before.acts(Action::Output(outputs[0]), &middle) && drains(
                middle,
                outputs.drop_first(),
                after,
            );
        lemma_drains(middle, outputs.drop_first(), after);
        let rows = batch_rows(before.state()->ProducingOutput_0);
        let first = chunk(rows, before.max_rows());
        assert(first + rest(rows, before.max_rows()) =~= rows);
        if rows.len() <= before.max_rows() {
            assert(rows_of(outputs.drop_first()) =~= Seq::<Row>::empty());
            assert(first + Seq::<Row>::empty() =~= rows);
        }
    }
}

/// The keys that go out are those of the rows that go out.
proof fn lemma_keys_out(steps: Seq<Step>, columns: nat)
    ensures
        keys_out(steps, columns) == keys_of(rows_out(steps), columns),
    decreases steps.len(),
{
    if steps.len() == 0 {
        assert(keys_out(steps, columns) =~= keys_of(rows_out(steps), columns));
    } else {
        lemma_keys_out(steps.drop_last(), columns);
        if let Step::EmitFirst(_, batch) = steps.last() {
            let before = rows_out(steps.drop_last());
            assert(keys_of(before + batch_rows(batch), columns) =~= keys_of(before, columns)
                + keys_of(batch_rows(batch), columns));
        }
    }
}

/// A run goes on by one more step.
proof fn lemma_runs_push(
    traces: Seq<Trace>,
    steps: Seq<Step>,
    types: Seq<DataType>,
    schema: Schema,
    mode: AggregateMode,
    step: Step,
    after: Trace,
)
    requires
        runs(traces, steps, types, schema, mode),
        leads(traces.last(), step, types, schema, mode, after),
        step matches Step::TakeIn(batch) ==> {
            &&& feeds(batch, traces[0].accumulators.len())
            &&& forall|row: int|
                0 <= row < rows_of_batch(&batch).len() ==> !keys_out(
                    steps,
                    types.len(),
                ).contains(#[trigger] rows_of_batch(&batch)[row])
        },
    ensures
        runs(traces.push(after), steps.push(step), types, schema, mode),
{
    let all = steps.push(step);
    let places = traces.push(after);
    let columns = types.len();
    assert(all.drop_last() =~= steps);
    assert forall|i: int| 0 <= i < all.len() implies leads(
        places[i],
        #[trigger] all[i],
        types,
        schema,
        mode,
        places[i + 1],
    ) by {
        if i < steps.len() {
            assert(all[i] == steps[i]);
        }
    }
    assert forall|i: int, row: int|
        0 <= i < all.len() && (#[trigger] all[i] matches Step::TakeIn(batch) && 0 <= row
            < rows_of_batch(&batch).len()) implies !keys_out(all.take(i), columns).contains(
        #[trigger] rows_of_batch(&all[i]->TakeIn_0)[row],
    ) by {
        if i < steps.len() {
            assert(all.take(i) =~= steps.take(i));
            assert(all[i] == steps[i]);
            assert(!keys_out(steps.take(i), columns).contains(
                rows_of_batch(&steps[i]->TakeIn_0)[row],
            ));
        } else {
            assert(all.take(i) =~= steps);
        }
    }
    let accumulators = traces[0].accumulators.len();
    assert forall|b: int| 0 <= b < batches_in(all).len() implies feeds(
        #[trigger] batches_in(all)[b],
        accumulators,
    ) by {
        if b < batches_in(steps).len() {
            assert(batches_in(all)[b] == batches_in(steps)[b]);
        }
    }
    assert(none_comes_back(all, columns));
}

/// The steps that an aggregation takes while it is polled.
proof fn lemma_steps<X, A: GroupsAccumulator, O: OrderedGroups, M: MemoryReservation>(
    streams: Seq<GroupedHashAggregateStream<X, A, O, M>>,
    batches: Seq<EvaluatedBatch>,
    outputs: Seq<Seq<Batch>>,
    end: GroupedHashAggregateStream<X, A, O, M>,
    n: nat,
) -> (run: (Seq<Trace>, Seq<Step>))
    requires
        polled(streams, batches, outputs, end),
        fresh(streams[0].trace()),
        streams[0].max_rows() > 0,
        none_returns(batches, outputs, streams[0].key_types().len()),
        all_fed(batches, streams[0].trace().accumulators.len()),
        only_first::<O>(),
        n <= batches.len(),
    ensures
        runs(
            run.0,
            run.1,
            streams[0].key_types(),
            streams[0].output_schema(),
            streams[0].aggregate_mode(),
        ),
        batches_in(run.1) == batches.take(n as int),
        rows_out(run.1) == rows_of_first(outputs, n as int),
        run.0[0] == streams[0].trace(),
        run.0.last() == streams[n as int].trace(),
        streams[n as int].same_plan(&streams[0]),
    decreases n,
{
    let types = streams[0].key_types();
    let schema = streams[0].output_schema();
    let mode = streams[0].aggregate_mode();
    if n == 0 {
        let run = (seq![streams[0].trace()], Seq::<Step>::empty());
        assert(batches_in(run.1) =~= batches.take(0));
        assert(all_fed(batches_in(run.1), run.0[0].accumulators.len()));
        run
    } else {
        let b = n - 1;
        let (traces, steps) = lemma_steps(streams, batches, outputs, end, b as nat);
        let before = streams[b];
        let batch = batches[b];
        let after = streams[b + 1];
        assert(turns(before, batch, outputs[b], after));
        let handled = choose|handled: GroupedHashAggregateStream<X, A, O, M>|
            {
                &&& #[trigger] handled.same_plan(&before)
                &&& !handled.ended()
                &&& before.takes_batch(&batch, &handled, Ok(()))
                &&& drains(handled, outputs[b], after)
            };
        let nothing: Result<(), AggregateError> = Ok(());
        let middle = choose|middle: GroupedHashAggregateStream<X, A, O, M>| #[trigger]
            before.reaches(&batch, &middle) && match middle.complete() {
                None => handled == middle,
                Some(emit_to) => before.produces(middle.trace(), emit_to, &handled, nothing),
            };
        lemma_drains(handled, outputs[b], after);
        lemma_keys_out(steps, types.len());
        assert forall|row: int| 0 <= row < rows_of_batch(&batch).len() implies !keys_out(
            steps,
            types.len(),
        ).contains(#[trigger] rows_of_batch(&batch)[row]) by {
            assert(rows_of_batch(&batches[b])[row] == rows_of_batch(&batch)[row]);
        }
        lemma_runs_push(traces, steps, types, schema, mode, Step::TakeIn(batch), middle.trace());
        let traces1 = traces.push(middle.trace());
        let steps1 = steps.push(Step::TakeIn(batch));
        assert(steps1.drop_last() =~= steps);
        assert(batches_in(steps1) =~= batches.take(n as int));
        assert(rows_out(steps1) == rows_of_first(outputs, b));
        match middle.complete() {
            None => {
                assert(rows_of(outputs[b]) =~= Seq::<Row>::empty());
                assert(rows_out(steps1) =~= rows_of_first(outputs, n as int));
                (traces1, steps1)
            },
            Some(EmitTo::All) => {
                assert(middle.order().complete() != Some(EmitTo::All));
                (traces1, steps1)
            },
            Some(EmitTo::First(first)) => {
                let output = handled.state()->ProducingOutput_0;
                let step = Step::EmitFirst(first, output);
                lemma_runs_push(traces1, steps1, types, schema, mode, step, handled.trace());
                let steps2 = steps1.push(step);
                assert(steps2.drop_last() =~= steps1);
                assert(rows_out(steps2) == rows_out(steps1) + batch_rows(output));
                (traces1.push(handled.trace()), steps2)
            },
        }
    }
}

/// What comes out of an aggregation that is polled to its end, from the first batch to the last
/// row: one row for each distinct key of the input, in the order in which the keys first came, with
/// what the accumulators make of all that the input holds for the key. That holds whether or not
/// groups go out early, as long as none of them comes back.
pub proof fn law_polled_rows<X, A: GroupsAccumulator, O: OrderedGroups, M: MemoryReservation>(
    streams: Seq<GroupedHashAggregateStream<X, A, O, M>>,
    batches: Seq<EvaluatedBatch>,
    outputs: Seq<Seq<Batch>>,
    end: GroupedHashAggregateStream<X, A, O, M>,
    answer: Seq<Answer>,
)
    requires
        polled(streams, batches, outputs, end),
        fresh(streams[0].trace()),
        streams[0].max_rows() > 0,
        streams[0].key_types().len() > 0,
        none_returns(batches, outputs, streams[0].key_types().len()),
        all_fed(batches, streams[0].trace().accumulators.len()),
        only_first::<O>(),
        streams[0].trace().accumulators.len() == answer.len(),
        all_answer(end.trace(), answer),
    ensures
        rows_of_first(outputs, outputs.len() as int) == outcome(batches, answer),
{
    let n = batches.len();
    let (traces, steps) = lemma_steps(streams, batches, outputs, end, n);
    let before = streams[n as int];
    let handled = choose|handled: GroupedHashAggregateStream<X, A, O, M>|
        {
            &&& #[trigger] handled.same_plan(&before)
            &&& handled.ended()
            &&& before.produces(input_ended(before.trace()), EmitTo::All, &handled, Ok(()))
            &&& drains(handled, outputs[n as int], end)
        };
    lemma_drains(handled, outputs[n as int], end);
    let output = handled.state()->ProducingOutput_0;
    law_outcome(
        traces,
        steps,
        streams[0].key_types(),
        streams[0].output_schema(),
        streams[0].aggregate_mode(),
        handled.trace(),
        output,
        answer,
    );
    assert(batches.take(n as int) =~= batches);
}

/// Two aggregations of the same batches, one of which may take them as ordered and the other not,
/// hand out the same rows in the same order, each of them polled to its end: only how the rows are
/// cut into batches may differ.
pub proof fn law_order_changes_nothing<
    X,
    A: GroupsAccumulator,
    O: OrderedGroups,
    M: MemoryReservation,
    Y,
    B: GroupsAccumulator,
    P: OrderedGroups,
    N: MemoryReservation,
>(
    streams: Seq<GroupedHashAggregateStream<X, A, O, M>>,
    outputs: Seq<Seq<Batch>>,
    end: GroupedHashAggregateStream<X, A, O, M>,
    other_streams: Seq<GroupedHashAggregateStream<Y, B, P, N>>,
    other_outputs: Seq<Seq<Batch>>,
    other_end: GroupedHashAggregateStream<Y, B, P, N>,
    batches: Seq<EvaluatedBatch>,
    answer: Seq<Answer>,
)
    requires
        polled(streams, batches, outputs, end),
        polled(other_streams, batches, other_outputs, other_end),
        fresh(streams[0].trace()),
        fresh(other_streams[0].trace()),
        streams[0].max_rows() > 0,
        other_streams[0].max_rows() > 0,
        streams[0].key_types().len() > 0,
        other_streams[0].key_types().len() > 0,
        none_returns(batches, outputs, streams[0].key_types().len()),
        none_returns(batches, other_outputs, other_streams[0].key_types().len()),
        all_fed(batches, answer.len()),
        only_first::<O>(),
        only_first::<P>(),
        streams[0].trace().accumulators.len() == answer.len(),
        other_streams[0].trace().accumulators.len() == answer.len(),
        all_answer(end.trace(), answer),
        all_answer(other_end.trace(), answer),
    ensures
        rows_of_first(outputs, outputs.len() as int) == rows_of_first(
            other_outputs,
            other_outputs.len() as int,
        ),
{
    law_polled_rows(streams, batches, outputs, end, answer);
    law_polled_rows(other_streams, batches, other_outputs, other_end, answer);
}

} // verus!
