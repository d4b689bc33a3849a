//! The aggregation as a whole: it takes in batches, groups their rows, feeds the accumulators,
//! and hands out the results in batches of a bounded size.

use crate::accumulator::{
    create_accumulators, created, creation_fails, filter_expressions, AccumulatorCall,
    AggregateExpr, AggregateMode, GroupsAccumulator,
};
use crate::columns::{batch_rows, batch_schema, group_schema, Batch, Column, Row};
use crate::data_type::schema_types;
use crate::encoding::Noted;
use crate::error::AggregateError;
use crate::group_values::{internable, noted_by, store_fails, GroupValues, GroupValuesRows};
use crate::grouping::{indices, law_index_names_row, EmitTo};
use crate::memory::{allocated_size, has_room, is_allocated, saturated, sum, total_size};
use crate::ordering::{GroupOrdering, OrderedGroups};
use crate::output::{chunk, chunks, rest};
use crate::reservation::MemoryReservation;
use crate::rows::lemma_leading;
use crate::table::MAX_GROUPS;
use crate::trace::{
    after_set, after_sets, asked, asked_in_vain, batch_call, concat, emission_fails, emit_call,
    emits, fed, input_ended, intake_fails, keys_emitted, outputs_fit, outputs_taken,
    resized, sets_internable, stopped_in_set, takes_in, told, EvaluatedBatch, Trace,
};
use arrow::datatypes::{DataType, Schema};
use std::sync::Arc;
use vstd::prelude::*;

verus! {

/// The phase that an aggregation is in.
pub enum ExecutionState {
    /// Input is taken in.
    ReadingInput,
    /// Output is handed out: these are the rows that are left of it.
    ProducingOutput(Batch),
    /// There is no more output.
    Done,
}

/// The plan of an aggregation: `E` is an aggregate, `X` an expression over the columns of the
/// input, and `P` an order of the input.
pub struct AggregateExec<E, X, P> {
    /// Whether the input is rows or states, and the output states or values.
    pub mode: AggregateMode,
    /// The schema of the output: the group keys, then the aggregates.
    pub schema: Arc<Schema>,
    /// The number of expressions that are grouped by.
    pub num_group_exprs: usize,
    /// The aggregates.
    pub aggr_expr: Vec<E>,
    /// The arguments of each aggregate.
    pub aggregate_arguments: Vec<Vec<X>>,
    /// The filter of each aggregate, where it has one.
    pub filter_expr: Vec<Option<X>>,
    /// The order of the input, if it has one.
    pub aggregation_ordering: Option<P>,
}

impl<E, X, P> AggregateExec<E, X, P> {
    /// The data types of the group keys.
    pub open spec fn group_types(&self) -> Seq<DataType> {
        schema_types(*self.schema).take(self.num_group_exprs as int)
    }
}

/// Whether the schema is that of the group keys of the plan.
pub open spec fn groups_by<E, X, P>(agg: AggregateExec<E, X, P>, keys: Schema) -> bool {
    call_ensures(group_schema, (&*agg.schema, agg.num_group_exprs), Ok(keys))
}

/// Whether the ordering can turn the plan down with the given error.
pub open spec fn ordering_fails<E, X, O: OrderedGroups>(
    agg: AggregateExec<E, X, O::Plan>,
    error: AggregateError,
) -> bool {
    agg.aggregation_ordering matches Some(plan) && exists|keys: Schema|
        #[trigger] groups_by(agg, keys) && call_ensures(O::try_new, (&keys, &plan), Err(error))
}

/// Whether the ordering is one that is made for the plan.
pub open spec fn ordering_made<E, X, O: OrderedGroups>(
    agg: AggregateExec<E, X, O::Plan>,
    order: GroupOrdering<O>,
) -> bool {
    match agg.aggregation_ordering {
        None => order is Unordered,
        Some(plan) => order matches GroupOrdering::Ordered(ordering) && exists|keys: Schema|
            #[trigger] groups_by(agg, keys) && call_ensures(
                O::try_new,
                (&keys, &plan),
                Ok(ordering),
            ),
    }
}

/// Whether all accumulators of the plan can be made.
pub open spec fn accumulators_made<E: AggregateExpr>(
    aggr_expr: Seq<E>,
    accumulators: Seq<E::Accumulator>,
) -> bool {
    created(aggr_expr, accumulators) && accumulators.len() == aggr_expr.len()
}

/// What an aggregation calls for next.
pub enum Action {
    /// The next batch of the input is needed.
    PollInput,
    /// This batch is output.
    Output(Batch),
    /// There is no more output.
    Finished,
}

/// The rows of each batch that is still to go out before more input is taken in.
pub open spec fn pending(state: ExecutionState, max_rows: usize) -> Seq<Seq<Row>> {
    match state {
        ExecutionState::ProducingOutput(batch) => chunks(batch_rows(batch), max_rows),
        _ => Seq::empty(),
    }
}

/// The calls of each accumulator.
pub open spec fn histories<A: GroupsAccumulator>(accumulators: Seq<A>) -> Seq<
    Seq<AccumulatorCall>,
> {
    Seq::new(accumulators.len(), |k: int| accumulators[k].history())
}

/// The sizes of the accumulators.
pub open spec fn memories<A: GroupsAccumulator>(accumulators: Seq<A>) -> Seq<usize> {
    Seq::new(accumulators.len(), |k: int| accumulators[k].memory())
}

/// The bytes that are asked for, as far as they can be counted: those of the accumulators, of the
/// ordering, of the store of group keys, and of the group indices of the last batch.
pub open spec fn request(
    accumulators: Seq<usize>,
    ordering: usize,
    store: usize,
    group_indices: usize,
) -> nat {
    saturated(sum(accumulators) + ordering as nat + store as nat + group_indices as nat)
}

/// Hash based grouping and aggregation.
///
/// The store of group keys gives each distinct key an index, and holds no aggregate state. The
/// accumulators, one for each aggregate, hold the state of all groups, found by the index.
pub struct GroupedHashAggregateStream<
    X,
    A: GroupsAccumulator,
    O: OrderedGroups,
    M: MemoryReservation,
> {
    /// The schema of the output: the group keys, then the aggregates.
    schema: Arc<Schema>,
    /// Whether the input is rows or states, and the output states or values.
    mode: AggregateMode,
    /// An accumulator for each aggregate.
    accumulators: Vec<A>,
    /// The arguments of each aggregate.
    aggregate_arguments: Vec<Vec<X>>,
    /// The filter of each aggregate, where it has one.
    filter_expressions: Vec<Option<X>>,
    /// The memory of the aggregation.
    reservation: M,
    /// The group keys.
    group_values: GroupValuesRows,
    /// The group of each row of the batch that is being taken in.
    current_group_indices: Vec<usize>,
    /// The phase.
    exec_state: ExecutionState,
    /// The most rows that an output batch has.
    batch_size: usize,
    /// What is known of the order of the input.
    group_ordering: GroupOrdering<O>,
    /// Whether the end of the input was seen.
    input_done: bool,
}

impl<X, A: GroupsAccumulator, O: OrderedGroups, M: MemoryReservation> GroupedHashAggregateStream<
    X,
    A,
    O,
    M,
> {
    /// What holds of every aggregation: there is an end to the output only once there was one to
    /// the input, and what is left of the output is under the schema.
    pub closed spec fn inv(&self) -> bool {
        &&& self.group_values.inv()
        &&& self.exec_state is Done ==> self.input_done
        &&& self.exec_state matches ExecutionState::ProducingOutput(batch) ==> batch_schema(batch)
            == *self.schema
    }

    /// The groups, and the calls that were made.
    pub closed spec fn trace(&self) -> Trace {
        Trace {
            groups: self.group_values.groups(),
            noted: self.group_values.noted(),
            accumulators: histories(self.accumulators@),
            ordering: self.group_ordering.history(),
            reservations: self.reservation.requests(),
        }
    }

    /// The data types of the group keys.
    pub closed spec fn key_types(&self) -> Seq<DataType> {
        self.group_values.key_types()
    }

    /// The schema of the output.
    pub closed spec fn output_schema(&self) -> Schema {
        *self.schema
    }

    /// The mode.
    pub closed spec fn aggregate_mode(&self) -> AggregateMode {
        self.mode
    }

    /// The phase.
    pub closed spec fn state(&self) -> ExecutionState {
        self.exec_state
    }

    /// Whether the end of the input was seen.
    pub closed spec fn ended(&self) -> bool {
        self.input_done
    }

    /// The most rows that an output batch has.
    pub closed spec fn max_rows(&self) -> usize {
        self.batch_size
    }

    /// What is known of the order of the input.
    pub closed spec fn order(&self) -> GroupOrdering<O> {
        self.group_ordering
    }

    /// The groups that the ordering says are complete.
    pub open spec fn complete(&self) -> Option<EmitTo> {
        self.order().complete()
    }

    /// Whether the input has no order.
    pub open spec fn unordered(&self) -> bool {
        self.order() is Unordered
    }

    /// The accumulators.
    pub closed spec fn accs(&self) -> Seq<A> {
        self.accumulators@
    }

    /// The arguments of each aggregate.
    pub closed spec fn arguments(&self) -> Seq<Vec<X>> {
        self.aggregate_arguments@
    }

    /// The filter of each aggregate, where it has one.
    pub closed spec fn filters(&self) -> Seq<Option<X>> {
        self.filter_expressions@
    }

    /// Whether the store of group keys can say that it takes up so many bytes.
    pub closed spec fn store_takes_up(&self, bytes: usize) -> bool {
        self.group_values.takes_up(bytes)
    }

    /// The group of each row of the batch that was taken in last.
    pub closed spec fn scratch(&self) -> Seq<usize> {
        self.current_group_indices@
    }

    /// Whether the group indices of the last batch have room for so many bytes.
    pub closed spec fn indices_take_up(&self, bytes: usize) -> bool {
        is_allocated(&self.current_group_indices, bytes)
    }

    /// Whether the number is that of the bytes that the aggregation takes up, as far as they can be
    /// counted: what the accumulators and the ordering say of themselves, the store of group keys,
    /// and the group indices of the last batch.
    pub open spec fn takes_up(&self, bytes: usize) -> bool {
        exists|store: usize, group_indices: usize| #[trigger]
            self.store_takes_up(store) && #[trigger] self.indices_take_up(group_indices) && bytes
                == request(
                memories(self.accs()),
                self.order().memory(),
                store,
                group_indices,
            )
    }

    /// Requests for memory are told apart by their parts: where the accumulators and the ordering
    /// say the same of themselves, and the store of group keys and the group indices are found to
    /// take up as much, the same number of bytes is asked for, however often.
    pub proof fn law_same_parts_same_request(
        &self,
        other: &Self,
        store: usize,
        group_indices: usize,
        bytes: usize,
        other_bytes: usize,
    )
        requires
            memories(self.accs()) == memories(other.accs()),
            self.order().memory() == other.order().memory(),
            bytes == request(
                memories(self.accs()),
                self.order().memory(),
                store,
                group_indices,
            ),
            other_bytes == request(
                memories(other.accs()),
                other.order().memory(),
                store,
                group_indices,
            ),
        ensures
            bytes == other_bytes,
    {
    }

    /// What is known of the calls is what each accumulator, the ordering and the reservation have
    /// had, and the groups are those of the store.
    pub proof fn law_trace(&self, k: int)
        requires
            0 <= k < self.accs().len(),
        ensures
            self.trace().accumulators.len() == self.accs().len(),
            self.trace().accumulators[k] == self.accs()[k].history(),
            self.trace().ordering == match self.order() {
                GroupOrdering::Unordered(calls) => calls@,
                GroupOrdering::Ordered(ordering) => ordering.history(),
            },
    {
    }

    /// The room for group indices is for those of the last batch at the least.
    pub proof fn law_indices_take_up(&self, bytes: usize)
        requires
            self.indices_take_up(bytes),
        ensures
            bytes == usize::MAX || bytes >= self.scratch().len() * vstd::layout::size_of::<usize>(),
    {
        let elements = choose|elements: usize| #[trigger]
            has_room(&self.current_group_indices, elements) && self.scratch().len() <= elements
                && bytes == saturated(elements as nat * vstd::layout::size_of::<usize>());
        let size = vstd::layout::size_of::<usize>();
        assert(self.scratch().len() * size <= elements * size) by (nonlinear_arith)
            requires
                self.scratch().len() <= elements,
        ;
    }

    /// Whether the last request for memory was for what the aggregation takes up.
    pub open spec fn asked_for_memory(&self) -> bool {
        self.takes_up(self.trace().reservations.last().0)
    }

    /// Whether memory was asked for since, and if so for what the aggregation takes up.
    pub open spec fn asked_since(&self, before: Trace) -> bool {
        self.trace().reservations.len() > before.reservations.len() ==> self.asked_for_memory()
    }

    /// Whether what was decided when the aggregation was made is as before.
    pub open spec fn same_plan(&self, before: &Self) -> bool {
        &&& self.key_types() == before.key_types()
        &&& self.output_schema() == before.output_schema()
        &&& self.aggregate_mode() == before.aggregate_mode()
        &&& self.max_rows() == before.max_rows()
        &&& self.unordered() == before.unordered()
        &&& self.accs().len() == before.accs().len()
        &&& self.arguments() == before.arguments()
        &&& self.filters() == before.filters()
    }

    /// Every group is there once, there is an end to the output only once there was one to the
    /// input, and what is left of the output is under the schema.
    pub proof fn law_invariant(&self)
        requires
            self.inv(),
        ensures
            self.trace().groups.no_duplicates(),
            self.trace().groups.len() <= MAX_GROUPS,
            self.state() is Done ==> self.ended(),
            self.state() matches ExecutionState::ProducingOutput(batch) ==> batch_schema(batch)
                == self.output_schema(),
    {
        self.group_values.law_distinct();
    }

    /// An aggregation of the given plan, whose output batches have at most `batch_size` rows.
    pub fn new<E: AggregateExpr<Accumulator = A>>(
        agg: AggregateExec<E, X, O::Plan>,
        reservation: M,
        batch_size: usize,
    ) -> (result: Result<Self, AggregateError>)
        ensures
            match result {
                Ok(stream) => {
                    &&& stream.inv()
                    &&& agg.num_group_exprs <= schema_types(*agg.schema).len()
                    &&& forall|e: AggregateError| !store_fails(agg.group_types(), e)
                    &&& accumulators_made(agg.aggr_expr@, stream.accs())
                    &&& stream.trace() == (Trace {
                        groups: Seq::empty(),
                        noted: Noted::nothing(),
                        accumulators: histories(stream.accs()),
                        ordering: Seq::empty(),
                        reservations: reservation.requests(),
                    })
                    &&& stream.key_types() == agg.group_types()
                    &&& stream.output_schema() == *agg.schema
                    &&& stream.aggregate_mode() == agg.mode
                    &&& stream.state() is ReadingInput
                    &&& !stream.ended()
                    &&& stream.scratch() == Seq::<usize>::empty()
                    &&& stream.max_rows() == batch_size
                    &&& ordering_made::<E, X, O>(agg, stream.order())
                    &&& stream.arguments() == agg.aggregate_arguments@
                    &&& stream.filters() == if agg.mode.merges() {
                        Seq::new(agg.aggr_expr@.len(), |i: int| Option::<X>::None)
                    } else {
                        agg.filter_expr@
                    }
                },
                Err(e) => {
                    ||| creation_fails(agg.aggr_expr@, e)
                    ||| exists|accumulators: Seq<A>|
                        {
                            &&& #[trigger] accumulators_made(agg.aggr_expr@, accumulators)
                            &&& agg.num_group_exprs > schema_types(*agg.schema).len()
                            &&& e is Arrow
                        }
                    ||| exists|accumulators: Seq<A>|
                        {
                            &&& #[trigger] accumulators_made(agg.aggr_expr@, accumulators)
                            &&& agg.num_group_exprs <= schema_types(*agg.schema).len()
                            &&& ordering_fails::<E, X, O>(agg, e)
                        }
                    ||| exists|accumulators: Seq<A>, order: GroupOrdering<O>|
                        {
                            &&& #[trigger] accumulators_made(agg.aggr_expr@, accumulators)
                            &&& agg.num_group_exprs <= schema_types(*agg.schema).len()
                            &&& #[trigger] ordering_made::<E, X, O>(agg, order)
                            &&& store_fails(agg.group_types(), e)
                        }
                },
            },
    {
        let filter_expressions = filter_expressions(
            agg.mode,
            agg.filter_expr,
            agg.aggr_expr.len(),
        );
        let accumulators = match create_accumulators(&agg.aggr_expr) {
            Ok(accumulators) => accumulators,
            Err(e) => return Err(e),
        };
        assert(accumulators_made(agg.aggr_expr@, accumulators@));
        let keys = match group_schema(&agg.schema, agg.num_group_exprs) {
            Ok(keys) => keys,
            Err(e) => return Err(AggregateError::Arrow(e)),
        };
        assert(groups_by(agg, keys));
        let group_ordering = match GroupOrdering::<O>::try_new(
            &keys,
            &agg.aggregation_ordering,
        ) {
            Ok(group_ordering) => group_ordering,
            Err(e) => return Err(e),
        };
        let group_values = match GroupValuesRows::try_new(&keys) {
            Ok(group_values) => group_values,
            Err(e) => {
                assert(accumulators_made(agg.aggr_expr@, accumulators@));
                assert(ordering_made::<E, X, O>(agg, group_ordering));
                return Err(e);
            },
        };
        Ok(
            GroupedHashAggregateStream {
                schema: agg.schema,
                mode: agg.mode,
                accumulators,
                aggregate_arguments: agg.aggregate_arguments,
                filter_expressions,
                reservation,
                group_values,
                current_group_indices: Vec::new(),
                exec_state: ExecutionState::ReadingInput,
                batch_size,
                group_ordering,
                input_done: false,
            },
        )
    }

    /// Whether the plan, the phase and the end of the input are as before.
    spec fn same_phase(&self, before: &Self) -> bool {
        &&& self.schema == before.schema
        &&& self.mode == before.mode
        &&& self.aggregate_arguments == before.aggregate_arguments
        &&& self.filter_expressions == before.filter_expressions
        &&& self.exec_state == before.exec_state
        &&& self.batch_size == before.batch_size
        &&& self.input_done == before.input_done
    }

    /// Hands the current group indices to each accumulator, up to the first that fails.
    fn update_accumulators(&mut self, batch: &EvaluatedBatch, total_num_groups: usize) -> (result:
        Result<(), AggregateError>)
        requires
            forall|i: int|
                0 <= i < old(self).current_group_indices@.len() ==> (#[trigger] old(
                    self,
                ).current_group_indices@[i]) < total_num_groups,
        ensures
            final(self).same_phase(old(self)),
            final(self).reservation == old(self).reservation,
            final(self).group_values == old(self).group_values,
            final(self).current_group_indices == old(self).current_group_indices,
            final(self).group_ordering == old(self).group_ordering,
            final(self).accumulators@.len() == old(self).accumulators@.len(),
            exists|made: int|
                0 <= made <= batch.fed_count(old(self).accumulators@.len()) && (result is Ok ==> made
                    == batch.fed_count(old(self).accumulators@.len())) && (result is Err ==> made
                    > 0) && histories(final(self).accumulators@) == #[trigger] fed(
                    histories(old(self).accumulators@),
                    old(self).mode,
                    batch,
                    old(self).current_group_indices@,
                    total_num_groups,
                    made,
                    result,
                ),
    {
        let mut k: usize = 0;
        let ghost before = histories(self.accumulators@);
        while k < self.accumulators.len() && k < batch.input_values.len() && k
            < batch.filter_values.len()
            invariant
                self.same_phase(old(self)),
                self.reservation == old(self).reservation,
                self.group_values == old(self).group_values,
                self.current_group_indices == old(self).current_group_indices,
                self.group_ordering == old(self).group_ordering,
                self.accumulators@.len() == old(self).accumulators@.len(),
                before == histories(old(self).accumulators@),
                0 <= k <= batch.fed_count(old(self).accumulators@.len()),
                forall|i: int|
                    0 <= i < self.current_group_indices@.len() ==> (
                    #[trigger] self.current_group_indices@[i]) < total_num_groups,
                histories(self.accumulators@) == fed(
                    before,
                    self.mode,
                    batch,
                    self.current_group_indices@,
                    total_num_groups,
                    k as int,
                    Ok(()),
                ),
            decreases self.accumulators@.len() - k,
        {
            let ghost accs = self.accumulators@;
            let result = match self.mode {
                AggregateMode::Partial | AggregateMode::Single | AggregateMode::SinglePartitioned =>
                self.accumulators[k].update_batch(
                    &batch.input_values[k],
                    &self.current_group_indices,
                    &batch.filter_values[k],
                    total_num_groups,
                ),
                AggregateMode::FinalPartitioned | AggregateMode::Final =>
                self.accumulators[k].merge_batch(
                    &batch.input_values[k],
                    &self.current_group_indices,
                    &batch.filter_values[k],
                    total_num_groups,
                ),
            };
            k += 1;
            proof {
                let i = k - 1;
                let call = batch_call(
                    self.mode,
                    batch.args(self.current_group_indices@, total_num_groups, i),
                    result,
                );
                assert(self.accumulators@[i].history() == accs[i].history().push(call));
                assert(histories(accs)[i] == before[i]);
                let next = fed(
                    before,
                    self.mode,
                    batch,
                    self.current_group_indices@,
                    total_num_groups,
                    k as int,
                    result,
                );
                assert forall|j: int| 0 <= j < accs.len() implies #[trigger] histories(
                    self.accumulators@,
                )[j] == next[j] by {
                    if j != i {
                        assert(self.accumulators@[j] == accs[j]);
                        assert(histories(accs)[j] == accs[j].history());
                    }
                }
                assert(histories(self.accumulators@) =~= next);
            }
            match result {
                Ok(u) => {
                    assert(u == ());
                },
                Err(e) => return Err(e),
            }
        }
        Ok(())
    }

    /// Interns the keys of one grouping set, tells the ordering of new groups, and feeds the
    /// accumulators.
    fn aggregate_set(&mut self, batch: &EvaluatedBatch, set: usize) -> (result: Result<
        (),
        AggregateError,
    >)
        requires
            old(self).inv(),
            set < batch.group_by_values@.len(),
        ensures
            final(self).inv(),
            final(self).same_plan(old(self)),
            final(self).same_phase(old(self)),
            final(self).reservation == old(self).reservation,
            match result {
                Ok(_) => internable(
                    old(self).key_types(),
                    old(self).trace().groups,
                    batch.set_columns(set as int),
                ) && final(self).trace() == after_set(
                    old(self).trace(),
                    old(self).mode,
                    batch,
                    set as int,
                ),
                Err(e) => stopped_in_set(
                    old(self).trace(),
                    old(self).key_types(),
                    old(self).mode,
                    !old(self).unordered(),
                    batch,
                    set as int,
                    e,
                    final(self).trace(),
                ),
            },
    {
        let ghost before = self.trace();
        proof {
            self.group_values.law_distinct();
        }
        let starting_num_groups = self.group_values.len();
        match self.group_values.intern(
            &batch.group_by_values[set],
            &mut self.current_group_indices,
        ) {
            Ok(_) => {},
            Err(e) => {
                assert(self.trace() =~= (Trace {
                    noted: noted_by(
                        before.noted,
                        self.key_types(),
                        batch.set_columns(set as int),
                        Err(e),
                    ),
                    ..before
                }));
                return Err(e);
            },
        }
        let total_num_groups = self.group_values.len();
        let ghost groups = self.group_values.groups();
        let ghost noted = before.noted.after(batch.set_columns(set as int));
        proof {
            lemma_leading(self.key_types(), batch.set_columns(set as int));
        }
        let ghost group_indices = self.current_group_indices@;
        proof {
            assert forall|i: int| 0 <= i < group_indices.len() implies (#[trigger] group_indices[i])
                < total_num_groups by {
                law_index_names_row(before.groups, batch.set_rows(set as int), i);
            }
        }
        if total_num_groups > starting_num_groups {
            match self.group_ordering.new_groups(
                &batch.group_by_values[set],
                &self.current_group_indices,
                total_num_groups,
            ) {
                Ok(u) => {
                    assert(u == ());
                },
                Err(e) => {
                    assert(self.trace() =~= (Trace {
                        groups,
                        noted,
                        ordering: told(before, batch, set as int, groups, Err(e)),
                        ..before
                    }));
                    return Err(e);
                },
            }
        }
        assert(self.group_ordering.history() == told(before, batch, set as int, groups, Ok(())));
        let result = self.update_accumulators(batch, total_num_groups);
        let ghost made = choose|made: int|
            0 <= made <= batch.fed_count(before.accumulators.len()) && (result is Ok ==> made
                == batch.fed_count(before.accumulators.len())) && (result is Err ==> made > 0)
                && histories(self.accumulators@) == #[trigger] fed(
                before.accumulators,
                self.mode,
                batch,
                group_indices,
                total_num_groups,
                made,
                result,
            );
        match result {
            Ok(u) => {
                assert(u == ());
                assert(self.trace() =~= after_set(before, self.mode, batch, set as int));
                Ok(())
            },
            Err(e) => {
                assert(self.trace() =~= (Trace {
                    groups,
                    noted,
                    accumulators: fed(
                        before.accumulators,
                        self.mode,
                        batch,
                        group_indices,
                        total_num_groups,
                        made,
                        Err(e),
                    ),
                    ordering: told(before, batch, set as int, groups, Ok(())),
                    ..before
                }));
                Err(e)
            },
        }
    }

    /// What an aggregation takes up does not depend on its phase.
    proof fn lemma_takes_up(&self, before: &Self, bytes: usize)
        requires
            before.takes_up(bytes),
            self.accumulators == before.accumulators,
            self.group_values == before.group_values,
            self.current_group_indices == before.current_group_indices,
            self.group_ordering == before.group_ordering,
        ensures
            self.takes_up(bytes),
    {
        let (store, group_indices) = choose|store: usize, group_indices: usize| #[trigger]
            before.store_takes_up(store) && #[trigger] before.indices_take_up(group_indices)
                && bytes == request(
                memories(before.accs()),
                before.order().memory(),
                store,
                group_indices,
            );
        assert(self.store_takes_up(store) && self.indices_take_up(group_indices));
    }

    /// Asks for the memory that the aggregation takes up.
    fn update_memory_reservation(&mut self) -> (result: Result<(), AggregateError>)
        requires
            old(self).inv(),
        ensures
            final(self).inv(),
            final(self).same_plan(old(self)),
            final(self).same_phase(old(self)),
            final(self).accumulators == old(self).accumulators,
            final(self).group_values == old(self).group_values,
            final(self).current_group_indices == old(self).current_group_indices,
            final(self).group_ordering == old(self).group_ordering,
            exists|bytes: usize|
                final(self).takes_up(bytes) && final(self).trace() == #[trigger] resized(
                    old(self).trace(),
                    bytes,
                    result,
                ),
    {
        let mut sizes: Vec<usize> = Vec::new();
        let mut k: usize = 0;
        while k < self.accumulators.len()
            invariant
                k <= self.accumulators@.len(),
                sizes@ == memories(self.accumulators@).take(k as int),
            decreases self.accumulators@.len() - k,
        {
            sizes.push(self.accumulators[k].size());
            k += 1;
            assert(sizes@ =~= memories(self.accumulators@).take(k as int));
        }
        let ghost accumulators = sizes@;
        assert(accumulators =~= memories(self.accumulators@));
        let group_values = self.group_values.size();
        let group_ordering = self.group_ordering.size();
        let group_indices = allocated_size(&self.current_group_indices);
        sizes.push(group_values);
        sizes.push(group_ordering);
        sizes.push(group_indices);
        let bytes = total_size(&sizes);
        proof {
            let all = sizes@;
            let two = accumulators.push(group_values).push(group_ordering);
            let one = accumulators.push(group_values);
            assert(all.drop_last() =~= two);
            assert(two.drop_last() =~= one);
            assert(one.drop_last() =~= accumulators);
            assert(sum(all) == sum(two) + group_indices);
            assert(sum(two) == sum(one) + group_ordering);
            assert(sum(one) == sum(accumulators) + group_values);
        }
        let result = self.reservation.try_resize(bytes);
        assert(self.store_takes_up(group_values) && self.indices_take_up(group_indices));
        assert(self.takes_up(bytes));
        assert(self.trace() =~= resized(old(self).trace(), bytes, result));
        result
    }

    /// Takes in a batch: finds the group of each row under each grouping set, making new groups
    /// where needed, and feeds the accumulators.
    pub fn group_aggregate_batch(&mut self, batch: &EvaluatedBatch) -> (result: Result<
        (),
        AggregateError,
    >)
        requires
            old(self).inv(),
        ensures
            final(self).inv(),
            final(self).same_plan(old(self)),
            final(self).state() == old(self).state(),
            final(self).ended() == old(self).ended(),
            final(self).asked_since(old(self).trace()),
            match result {
                Ok(_) => takes_in(
                    old(self).trace(),
                    old(self).key_types(),
                    old(self).aggregate_mode(),
                    batch,
                    final(self).trace(),
                ) && final(self).asked_for_memory(),
                Err(e) => intake_fails(
                    old(self).trace(),
                    old(self).key_types(),
                    old(self).aggregate_mode(),
                    !old(self).unordered(),
                    batch,
                    final(self).trace(),
                    e,
                ),
            },
    {
        let mut set: usize = 0;
        while set < batch.group_by_values.len()
            invariant
                set <= batch.group_by_values@.len(),
                self.inv(),
                self.same_plan(old(self)),
                self.same_phase(old(self)),
                self.reservation == old(self).reservation,
                self.trace() == after_sets(old(self).trace(), old(self).mode, batch, set as int),
                sets_internable(
                    old(self).trace(),
                    old(self).key_types(),
                    old(self).mode,
                    batch,
                    set as int,
                ),
            decreases batch.group_by_values@.len() - set,
        {
            match self.aggregate_set(batch, set) {
                Ok(_) => {},
                Err(e) => return Err(e),
            }
            set += 1;
        }
        match self.update_memory_reservation() {
            Ok(u) => {
                assert(u == ());
                Ok(())
            },
            Err(e) => Err(e),
        }
    }

    /// Appends what each accumulator hands out of the groups to emit, up to the first that fails.
    fn take_outputs(&mut self, emit_to: EmitTo, output: &mut Vec<Column>) -> (result: Result<
        (),
        AggregateError,
    >)
        ensures
            final(self).same_phase(old(self)),
            final(self).reservation == old(self).reservation,
            final(self).group_values == old(self).group_values,
            final(self).current_group_indices == old(self).current_group_indices,
            final(self).group_ordering == old(self).group_ordering,
            final(self).accumulators@.len() == old(self).accumulators@.len(),
            match result {
                Ok(_) => exists|outputs: Seq<Seq<Column>>|
                    {
                        &&& outputs.len() == old(self).accumulators@.len()
                        &&& outputs_fit(old(self).mode, outputs)
                        &&& histories(final(self).accumulators@) == #[trigger] asked(
                            histories(old(self).accumulators@),
                            old(self).mode,
                            emit_to,
                            outputs,
                        )
                        &&& final(output)@ == old(output)@ + concat(outputs)
                    },
                Err(e) => exists|outputs: Seq<Seq<Column>>|
                    {
                        &&& outputs.len() < old(self).accumulators@.len()
                        &&& outputs_fit(old(self).mode, outputs)
                        &&& histories(final(self).accumulators@) == #[trigger] asked_in_vain(
                            histories(old(self).accumulators@),
                            old(self).mode,
                            emit_to,
                            outputs,
                            e,
                        )
                    },
            },
    {
        let ghost before = histories(self.accumulators@);
        let ghost mut outputs = Seq::<Seq<Column>>::empty();
        let mut k: usize = 0;
        assert(histories(self.accumulators@) =~= asked(before, self.mode, emit_to, outputs));
        assert(output@ =~= old(output)@ + concat(outputs));
        while k < self.accumulators.len()
            invariant
                self.same_phase(old(self)),
                self.reservation == old(self).reservation,
                self.group_values == old(self).group_values,
                self.current_group_indices == old(self).current_group_indices,
                self.group_ordering == old(self).group_ordering,
                self.accumulators@.len() == old(self).accumulators@.len(),
                before == histories(old(self).accumulators@),
                k <= self.accumulators@.len(),
                outputs.len() == k,
                outputs_fit(self.mode, outputs),
                histories(self.accumulators@) == asked(before, self.mode, emit_to, outputs),
                output@ == old(output)@ + concat(outputs),
            decreases self.accumulators@.len() - k,
        {
            let ghost accs = self.accumulators@;
            let ghost taken = outputs;
            assert(histories(accs)[k as int] == before[k as int]);
            let result = match self.mode {
                AggregateMode::Partial => self.accumulators[k].state(emit_to),
                AggregateMode::Final
                | AggregateMode::FinalPartitioned
                | AggregateMode::Single
                | AggregateMode::SinglePartitioned => match self.accumulators[k].evaluate(emit_to) {
                    Ok(column) => {
                        let mut columns: Vec<Column> = Vec::new();
                        columns.push(column);
                        Ok(columns)
                    },
                    Err(e) => Err(e),
                },
            };
            assert forall|j: int| 0 <= j < accs.len() && j != k implies #[trigger] histories(
                self.accumulators@,
            )[j] == histories(accs)[j] by {
                assert(self.accumulators@[j] == accs[j]);
            }
            match result {
                Ok(mut columns) => {
                    proof {
                        outputs = taken.push(columns@);
                        assert(outputs.drop_last() =~= taken);
                        assert(histories(self.accumulators@)[k as int] == before[k as int].push(
                            emit_call(self.mode, emit_to, columns@),
                        ));
                        assert(histories(self.accumulators@) =~= asked(
                            before,
                            self.mode,
                            emit_to,
                            outputs,
                        ));
                    }
                    output.append(&mut columns);
                    assert(output@ =~= old(output)@ + concat(outputs));
                },
                Err(e) => {
                    assert(histories(self.accumulators@) =~= asked_in_vain(
                        before,
                        self.mode,
                        emit_to,
                        taken,
                        e,
                    ));
                    return Err(e);
                },
            }
            k += 1;
        }
        Ok(())
    }

    /// The batch of the groups to emit: their keys, and what each accumulator makes of them. If
    /// they are the first groups, they are removed; if they are all, they stay.
    pub fn emit(&mut self, emit_to: EmitTo) -> (result: Result<Batch, AggregateError>)
        requires
            old(self).inv(),
        ensures
            final(self).inv(),
            final(self).same_plan(old(self)),
            final(self).state() == old(self).state(),
            final(self).ended() == old(self).ended(),
            final(self).asked_since(old(self).trace()),
            match result {
                Ok(batch) => emits(
                    old(self).trace(),
                    old(self).key_types(),
                    old(self).output_schema(),
                    old(self).aggregate_mode(),
                    emit_to,
                    final(self).trace(),
                    batch,
                ),
                Err(e) => emission_fails(
                    old(self).trace(),
                    old(self).key_types(),
                    old(self).output_schema(),
                    old(self).aggregate_mode(),
                    emit_to,
                    final(self).trace(),
                    e,
                ),
            },
    {
        let ghost before = self.trace();
        if self.group_values.is_empty() {
            return Batch::new_empty(&self.schema);
        }
        let mut output = match self.group_values.emit(emit_to) {
            Ok(columns) => columns,
            Err(e) => {
                assert(self.trace() =~= before);
                return Err(e);
            },
        };
        let ghost keys = output@;
        match emit_to {
            EmitTo::All => {},
            EmitTo::First(n) => self.group_ordering.remove_groups(n),
        }
        assert(self.trace() =~= keys_emitted(before, emit_to));
        match self.take_outputs(emit_to, &mut output) {
            Ok(_) => {},
            Err(e) => {
                let ghost outputs = choose|outputs: Seq<Seq<Column>>|
                    {
                        &&& outputs.len() < before.accumulators.len()
                        &&& outputs_fit(self.mode, outputs)
                        &&& histories(self.accumulators@) == #[trigger] asked_in_vain(
                            before.accumulators,
                            self.mode,
                            emit_to,
                            outputs,
                            e,
                        )
                    };
                assert(self.trace() =~= (Trace {
                    accumulators: asked_in_vain(
                        before.accumulators,
                        self.mode,
                        emit_to,
                        outputs,
                        e,
                    ),
                    ..keys_emitted(before, emit_to)
                }));
                return Err(e);
            },
        }
        let ghost outputs = choose|outputs: Seq<Seq<Column>>|
            {
                &&& outputs.len() == before.accumulators.len()
                &&& outputs_fit(self.mode, outputs)
                &&& histories(self.accumulators@) == #[trigger] asked(
                    before.accumulators,
                    self.mode,
                    emit_to,
                    outputs,
                )
                &&& output@ == keys + concat(outputs)
            };
        assert(self.trace() =~= outputs_taken(before, self.mode, emit_to, outputs));
        match self.update_memory_reservation() {
            Ok(u) => {
                assert(u == ());
            },
            Err(e) => return Err(e),
        }
        match Batch::try_new(&self.schema, &output) {
            Ok(batch) => Ok(batch),
            Err(e) => Err(AggregateError::Arrow(e)),
        }
    }

    /// Whether an aggregation that stands at `from` can come out at `after` by emitting groups:
    /// with output to hand out, or with an error and in the phase that it was in.
    pub open spec fn produces(
        &self,
        from: Trace,
        emit_to: EmitTo,
        after: &Self,
        result: Result<(), AggregateError>,
    ) -> bool {
        after.asked_since(from) && match result {
            Ok(_) => after.state() matches ExecutionState::ProducingOutput(batch) && emits(
                from,
                self.key_types(),
                self.output_schema(),
                self.aggregate_mode(),
                emit_to,
                after.trace(),
                batch,
            ),
            Err(e) => after.state() == self.state() && emission_fails(
                from,
                self.key_types(),
                self.output_schema(),
                self.aggregate_mode(),
                emit_to,
                after.trace(),
                e,
            ),
        }
    }

    /// Emits the groups that the ordering says are complete, if there are any, and passes on to
    /// handing them out.
    pub fn emit_complete(&mut self) -> (result: Result<(), AggregateError>)
        requires
            old(self).inv(),
            old(self).state() is ReadingInput,
            !old(self).ended(),
        ensures
            final(self).inv(),
            final(self).same_plan(old(self)),
            !final(self).ended(),
            match old(self).complete() {
                None => result is Ok && *final(self) == *old(self),
                Some(emit_to) => old(self).produces(
                    old(self).trace(),
                    emit_to,
                    final(self),
                    result,
                ),
            },
    {
        match self.group_ordering.emit_to() {
            None => Ok(()),
            Some(emit_to) => match self.emit(emit_to) {
                Ok(batch) => {
                    let ghost emitted = *self;
                    self.exec_state = ExecutionState::ProducingOutput(batch);
                    proof {
                        if emitted.asked_for_memory() {
                            self.lemma_takes_up(&emitted, emitted.trace().reservations.last().0);
                        }
                    }
                    Ok(())
                },
                Err(e) => Err(e),
            },
        }
    }

    /// Takes note that there is no more input, emits all groups, and passes on to handing them
    /// out.
    pub fn finish_input(&mut self) -> (result: Result<(), AggregateError>)
        requires
            old(self).inv(),
            old(self).state() is ReadingInput,
        ensures
            final(self).inv(),
            final(self).same_plan(old(self)),
            final(self).ended(),
            old(self).produces(input_ended(old(self).trace()), EmitTo::All, final(self), result),
    {
        self.input_done = true;
        self.group_ordering.input_done();
        assert(self.trace() =~= input_ended(old(self).trace()));
        match self.emit(EmitTo::All) {
            Ok(batch) => {
                let ghost emitted = *self;
                self.exec_state = ExecutionState::ProducingOutput(batch);
                proof {
                    if emitted.asked_for_memory() {
                        self.lemma_takes_up(&emitted, emitted.trace().reservations.last().0);
                    }
                }
                Ok(())
            },
            Err(e) => Err(e),
        }
    }

    /// Whether the aggregation calls for the action and is then at `after`: while there is output,
    /// the next batch of it goes out; after the last one comes more input, or the end where the
    /// input has ended.
    pub open spec fn acts(&self, action: Action, after: &Self) -> bool {
        &&& after.same_plan(self)
        &&& after.trace() == self.trace()
        &&& after.ended() == self.ended()
        &&& match self.state() {
            ExecutionState::ReadingInput => action is PollInput && after.state() is ReadingInput,
            ExecutionState::ProducingOutput(batch) => {
                &&& action matches Action::Output(output)
                &&& batch_rows(output) == chunk(batch_rows(batch), self.max_rows())
                &&& batch_schema(output) == self.output_schema()
                &&& if batch_rows(batch).len() > self.max_rows() {
                    after.state() matches ExecutionState::ProducingOutput(left) && batch_rows(left)
                        == rest(batch_rows(batch), self.max_rows())
                } else if self.ended() {
                    after.state() is Done
                } else {
                    after.state() is ReadingInput
                }
                &&& self.max_rows() > 0 ==> pending(self.state(), self.max_rows()) == seq![
                    batch_rows(output),
                ] + pending(after.state(), self.max_rows())
            },
            ExecutionState::Done => action is Finished && after.state() is Done,
        }
    }

    /// What to do next. While there is output, the next batch of it is sliced off and handed out;
    /// after the last one comes more input, or the end where the input has ended.
    pub fn next_action(&mut self) -> (action: Action)
        requires
            old(self).inv(),
        ensures
            final(self).inv(),
            old(self).acts(action, final(self)),
    {
        let mut exec_state = ExecutionState::Done;
        std::mem::swap(&mut exec_state, &mut self.exec_state);
        match exec_state {
            ExecutionState::ReadingInput => {
                self.exec_state = ExecutionState::ReadingInput;
                Action::PollInput
            },
            ExecutionState::ProducingOutput(batch) => {
                let num_rows = batch.num_rows();
                let ghost rows = batch_rows(batch);
                let output_batch = if num_rows <= self.batch_size {
                    if self.input_done {
                        self.exec_state = ExecutionState::Done;
                    } else {
                        self.exec_state = ExecutionState::ReadingInput;
                    }
                    assert(chunk(rows, self.batch_size) =~= rows);
                    batch
                } else {
                    let num_remaining = num_rows - self.batch_size;
                    let remaining = batch.slice(self.batch_size, num_remaining);
                    assert(batch_rows(remaining) =~= rest(rows, self.batch_size));
                    self.exec_state = ExecutionState::ProducingOutput(remaining);
                    batch.slice(0, self.batch_size)
                };
                assert(batch_rows(output_batch) =~= chunk(rows, self.batch_size));
                Action::Output(output_batch)
            },
            ExecutionState::Done => Action::Finished,
        }
    }

    /// Takes in what the input gave: a batch, an error, or its end.
    pub fn handle_input(&mut self, event: Option<Result<EvaluatedBatch, AggregateError>>) -> (result:
        Result<(), AggregateError>)
        requires
            old(self).inv(),
            old(self).state() is ReadingInput,
            event matches Some(Ok(_)) ==> !old(self).ended(),
        ensures
            final(self).inv(),
            final(self).same_plan(old(self)),
            final(self).ended() == (old(self).ended() || event is None),
            match event {
                Some(Ok(batch)) => old(self).takes_batch(&batch, final(self), result),
                Some(Err(e)) => result == Err::<(), AggregateError>(e) && *final(self) == *old(
                    self,
                ),
                None => old(self).produces(
                    input_ended(old(self).trace()),
                    EmitTo::All,
                    final(self),
                    result,
                ),
            },
    {
        match event {
            Some(Ok(batch)) => {
                match self.group_aggregate_batch(&batch) {
                    Ok(_) => {},
                    Err(e) => return Err(e),
                }
                let ghost middle = *self;
                let result = self.emit_complete();
                assert(old(self).reaches(&batch, &middle));
                result
            },
            Some(Err(e)) => Err(e),
            None => self.finish_input(),
        }
    }

    /// Whether the aggregation can be at `after` once it has taken in a batch and nothing else.
    pub open spec fn reaches(&self, batch: &EvaluatedBatch, after: &Self) -> bool {
        &&& after.same_plan(self)
        &&& after.state() == self.state()
        &&& after.ended() == self.ended()
        &&& takes_in(self.trace(), self.key_types(), self.aggregate_mode(), batch, after.trace())
        &&& after.asked_for_memory()
    }

    /// Whether the aggregation can be at `after` with the given result once it was given a batch:
    /// it has failed to take it in, or has taken it in and then emitted the groups that are
    /// complete.
    pub open spec fn takes_batch(
        &self,
        batch: &EvaluatedBatch,
        after: &Self,
        result: Result<(), AggregateError>,
    ) -> bool {
        ||| {
            &&& result matches Err(e)
            &&& after.state() == self.state()
            &&& intake_fails(
                self.trace(),
                self.key_types(),
                self.aggregate_mode(),
                !self.unordered(),
                batch,
                after.trace(),
                e,
            )
        }
        ||| exists|middle: Self| #[trigger]
            self.reaches(batch, &middle) && match middle.complete() {
                None => result is Ok && *after == middle,
                Some(emit_to) => self.produces(middle.trace(), emit_to, after, result),
            }
    }

    /// The schema of the output.
    pub fn schema(&self) -> (schema: Arc<Schema>)
        ensures
            *schema == self.output_schema(),
    {
        self.schema.clone()
    }

    /// The arguments of each aggregate, to be evaluated over each batch.
    pub fn aggregate_arguments(&self) -> (arguments: &Vec<Vec<X>>)
        ensures
            arguments@ == self.arguments(),
    {
        &self.aggregate_arguments
    }

    /// The filter of each aggregate that has one, to be evaluated over each batch.
    pub fn filter_expressions(&self) -> (filters: &Vec<Option<X>>)
        ensures
            filters@ == self.filters(),
    {
        &self.filter_expressions
    }

    /// Whether the end of the input was seen.
    pub fn input_done(&self) -> (done: bool)
        ensures
            done == self.ended(),
    {
        self.input_done
    }
}

} // verus!
