use arrow::array::{Array, ArrayRef, BooleanArray, Int64Array, StringArray};
use arrow::datatypes::{DataType, Field, Schema, TimeUnit};
use group_hash::accumulator::{
    create_accumulators, create_group_accumulator, filter_expressions, AggregateExpr,
    AggregateMode, GroupsAccumulator,
};
use group_hash::columns::{Batch, Column};
use group_hash::error::AggregateError;
use group_hash::grouping::EmitTo;
use group_hash::ordering::OrderedGroups;
use group_hash::reservation::{MemoryReservation, UnboundedReservation};
use group_hash::stream::{Action, AggregateExec, GroupedHashAggregateStream};
use group_hash::trace::EvaluatedBatch;
use std::cell::RefCell;
use std::rc::Rc;
use std::sync::Arc;

type Log = Rc<RefCell<Vec<String>>>;

/// Adds up the values of each group, and notes its calls.
struct Sum {
    name: &'static str,
    sums: Vec<i64>,
    fails: &'static str,
    log: Log,
}

fn column(array: impl Array + 'static) -> Column {
    Column { array: Arc::new(array) }
}

fn failure(text: &str) -> AggregateError {
    AggregateError::Execution(text.to_string())
}

fn int_values(array: &ArrayRef) -> Vec<Option<i64>> {
    array.as_any().downcast_ref::<Int64Array>().unwrap().iter().collect()
}

impl Sum {
    fn note(&self, call: &str, detail: String) -> Result<(), AggregateError> {
        self.log.borrow_mut().push(format!("{} {call} {detail}", self.name));
        if self.fails == call {
            Err(failure(call))
        } else {
            Ok(())
        }
    }

    fn take_in(
        &mut self,
        values: &Vec<Column>,
        group_indices: &Vec<usize>,
        opt_filter: &Option<BooleanArray>,
        total_num_groups: usize,
    ) {
        self.sums.resize(total_num_groups, 0);
        for (row, value) in int_values(&values[0].array).into_iter().enumerate() {
            let counts = opt_filter.as_ref().map_or(true, |f| f.value(row));
            if counts {
                self.sums[group_indices[row]] += value.unwrap_or(0);
            }
        }
    }

    fn give_out(&mut self, emit_to: EmitTo) -> Column {
        let out: Vec<i64> = match emit_to {
            EmitTo::All => std::mem::take(&mut self.sums),
            EmitTo::First(n) => self.sums.drain(..n).collect(),
        };
        column(Int64Array::from(out))
    }
}

impl GroupsAccumulator for Sum {
    fn update_batch(
        &mut self,
        values: &Vec<Column>,
        group_indices: &Vec<usize>,
        opt_filter: &Option<BooleanArray>,
        total_num_groups: usize,
    ) -> Result<(), AggregateError> {
        self.note("update", format!("{group_indices:?} of {total_num_groups}"))?;
        self.take_in(values, group_indices, opt_filter, total_num_groups);
        Ok(())
    }

    fn merge_batch(
        &mut self,
        values: &Vec<Column>,
        group_indices: &Vec<usize>,
        opt_filter: &Option<BooleanArray>,
        total_num_groups: usize,
    ) -> Result<(), AggregateError> {
        self.note("merge", format!("{group_indices:?} of {total_num_groups}"))?;
        self.take_in(values, group_indices, opt_filter, total_num_groups);
        Ok(())
    }

    fn state(&mut self, emit_to: EmitTo) -> Result<Vec<Column>, AggregateError> {
        self.note("state", format!("{emit_to:?}"))?;
        let sums = self.give_out(emit_to);
        Ok(vec![Column { array: sums.array.clone() }, sums])
    }

    fn evaluate(&mut self, emit_to: EmitTo) -> Result<Column, AggregateError> {
        self.note("evaluate", format!("{emit_to:?}"))?;
        Ok(self.give_out(emit_to))
    }

    fn size(&self) -> usize {
        1000
    }
}

struct SumExpr {
    name: &'static str,
    supported: bool,
    created: bool,
    fails: &'static str,
    log: Log,
}

impl SumExpr {
    fn sum(&self, name: &'static str) -> Sum {
        Sum { name, sums: vec![], fails: self.fails, log: self.log.clone() }
    }
}

impl AggregateExpr for SumExpr {
    type Accumulator = Sum;

    fn groups_accumulator_supported(&self) -> bool {
        self.supported
    }

    fn create_groups_accumulator(&self) -> Result<Sum, AggregateError> {
        if self.created {
            Ok(self.sum(self.name))
        } else {
            Err(failure(self.name))
        }
    }

    fn create_adapter(&self) -> Sum {
        self.sum("adapter")
    }
}

/// Says which groups are complete once there are new ones, as it was told to beforehand.
struct Script {
    script: Vec<Option<EmitTo>>,
    complete: Option<EmitTo>,
    refuses: bool,
    log: Log,
}

struct ScriptPlan {
    complete: Vec<Option<EmitTo>>,
    refuses: bool,
    fails: bool,
    log: Log,
}

impl OrderedGroups for Script {
    type Plan = ScriptPlan;

    fn try_new(group_schema: &Schema, plan: &ScriptPlan) -> Result<Self, AggregateError> {
        if plan.fails {
            return Err(failure(group_schema.field(0).name()));
        }
        Ok(Script {
            script: plan.complete.clone(),
            complete: None,
            refuses: plan.refuses,
            log: plan.log.clone(),
        })
    }

    fn emit_to(&self) -> Option<EmitTo> {
        self.complete
    }

    fn new_groups(
        &mut self,
        group_values: &Vec<Column>,
        group_indices: &Vec<usize>,
        total_num_groups: usize,
    ) -> Result<(), AggregateError> {
        self.log.borrow_mut().push(format!(
            "new groups in {} columns {group_indices:?} of {total_num_groups}",
            group_values.len()
        ));
        self.complete = self.script.remove(0);
        if self.refuses {
            Err(failure("new groups"))
        } else {
            Ok(())
        }
    }

    fn remove_groups(&mut self, n: usize) {
        self.log.borrow_mut().push(format!("remove {n}"));
        self.complete = None;
    }

    fn input_done(&mut self) {
        self.log.borrow_mut().push("input done".to_string());
    }

    fn size(&self) -> usize {
        50
    }
}

/// A pool that grants so many requests.
struct Pool {
    grants: usize,
    asked: Rc<RefCell<Vec<usize>>>,
}

impl MemoryReservation for Pool {
    fn try_resize(&mut self, capacity: usize) -> Result<(), AggregateError> {
        self.asked.borrow_mut().push(capacity);
        if self.grants == 0 {
            return Err(AggregateError::ResourcesExhausted("no more".to_string()));
        }
        self.grants -= 1;
        Ok(())
    }
}

fn pool(grants: usize) -> Pool {
    Pool { grants, asked: Rc::new(RefCell::new(vec![])) }
}

type Stream<M> = GroupedHashAggregateStream<&'static str, Sum, Script, M>;

fn exprs(log: &Log, fails: &'static str) -> Vec<SumExpr> {
    vec![
        SumExpr { name: "first", supported: true, created: true, fails: "", log: log.clone() },
        SumExpr { name: "second", supported: true, created: true, fails, log: log.clone() },
    ]
}

fn output_schema() -> Arc<Schema> {
    Arc::new(Schema::new(vec![
        Field::new("key", DataType::Utf8, true),
        Field::new("first", DataType::Int64, true),
        Field::new("second", DataType::Int64, true),
    ]))
}

fn plan(
    log: &Log,
    mode: AggregateMode,
    fails: &'static str,
    ordering: Option<ScriptPlan>,
) -> AggregateExec<SumExpr, &'static str, ScriptPlan> {
    AggregateExec {
        mode,
        schema: output_schema(),
        num_group_exprs: 1,
        aggr_expr: exprs(log, fails),
        aggregate_arguments: vec![vec!["a"], vec!["b", "c"]],
        filter_expr: vec![None, Some("f")],
        aggregation_ordering: ordering,
    }
}

fn stream(log: &Log, batch_size: usize) -> Stream<UnboundedReservation> {
    let agg = plan(log, AggregateMode::Single, "", None);
    GroupedHashAggregateStream::new(agg, UnboundedReservation::new(), batch_size).unwrap()
}

fn keys(values: &[&str]) -> Column {
    column(StringArray::from(values.to_vec()))
}

fn ints(values: &[i64]) -> Column {
    column(Int64Array::from(values.to_vec()))
}

fn batch(key: &[&str], first: &[i64], second: &[i64]) -> EvaluatedBatch {
    EvaluatedBatch {
        group_by_values: vec![vec![keys(key)]],
        input_values: vec![vec![ints(first)], vec![ints(second)]],
        filter_values: vec![None, None],
    }
}

type OutputRow = (String, i64, i64);

fn rows(batch: &Batch) -> Vec<OutputRow> {
    let columns = batch.inner.columns();
    let key = columns[0].as_any().downcast_ref::<StringArray>().unwrap().clone();
    let first = int_values(&columns[1]);
    let second = int_values(&columns[2]);
    (0..batch.num_rows())
        .map(|i| (key.value(i).to_string(), first[i].unwrap(), second[i].unwrap()))
        .collect()
}

fn row(key: &str, first: i64, second: i64) -> OutputRow {
    (key.to_string(), first, second)
}

/// Hands the batches to the aggregation, and gathers the rows of each output batch.
fn run<M: MemoryReservation>(
    stream: &mut Stream<M>,
    batches: Vec<EvaluatedBatch>,
) -> Result<Vec<Vec<OutputRow>>, AggregateError> {
    let mut input = batches.into_iter();
    let mut output = vec![];
    loop {
        match stream.next_action() {
            Action::PollInput => stream.handle_input(input.next().map(Ok))?,
            Action::Output(batch) => output.push(rows(&batch)),
            Action::Finished => return Ok(output),
        }
    }
}

#[test]
fn each_key_has_one_row_in_order_of_first_appearance() {
    let log = Log::default();
    let mut stream = stream(&log, 100);
    let output = run(
        &mut stream,
        vec![
            batch(&["b", "a", "b"], &[1, 2, 3], &[10, 20, 30]),
            batch(&["c", "a"], &[4, 5], &[40, 50]),
        ],
    )
    .unwrap();
    assert_eq!(output, vec![vec![row("b", 4, 40), row("a", 7, 70), row("c", 4, 40)]]);
    assert_eq!(
        *log.borrow(),
        vec![
            "first update [0, 1, 0] of 2",
            "second update [0, 1, 0] of 2",
            "first update [2, 1] of 3",
            "second update [2, 1] of 3",
            "first evaluate All",
            "second evaluate All",
        ]
    );
}

#[test]
fn output_goes_out_in_batches_of_the_given_size() {
    let log = Log::default();
    let mut stream = stream(&log, 2);
    let output = run(
        &mut stream,
        vec![batch(&["a", "b", "c", "d", "e"], &[1, 2, 3, 4, 5], &[0, 0, 0, 0, 0])],
    )
    .unwrap();
    let sizes: Vec<usize> = output.iter().map(|b| b.len()).collect();
    assert_eq!(sizes, vec![2, 2, 1]);
    let all: Vec<OutputRow> = output.concat();
    assert_eq!(
        all,
        vec![row("a", 1, 0), row("b", 2, 0), row("c", 3, 0), row("d", 4, 0), row("e", 5, 0)]
    );
}

#[test]
fn a_full_last_batch_is_the_last() {
    let log = Log::default();
    let mut stream = stream(&log, 2);
    let input = vec![batch(&["a", "b", "c", "d"], &[1, 2, 3, 4], &[0, 0, 0, 0])];
    let output = run(&mut stream, input).unwrap();
    let sizes: Vec<usize> = output.iter().map(|b| b.len()).collect();
    assert_eq!(sizes, vec![2, 2]);
}

#[test]
fn the_end_stays_the_end() {
    let log = Log::default();
    let mut stream = stream(&log, 2);
    assert!(!stream.input_done());
    run(&mut stream, vec![batch(&["a"], &[1], &[2])]).unwrap();
    assert!(stream.input_done());
    assert!(matches!(stream.next_action(), Action::Finished));
    assert!(matches!(stream.next_action(), Action::Finished));
}

#[test]
fn without_input_the_output_is_one_empty_batch() {
    let log = Log::default();
    let mut stream = stream(&log, 2);
    let output = run(&mut stream, vec![]).unwrap();
    assert_eq!(output, vec![Vec::<OutputRow>::new()]);
    assert!(log.borrow().is_empty());
}

#[test]
fn with_no_rows_allowed_the_output_does_not_move() {
    let log = Log::default();
    let mut stream = stream(&log, 0);
    stream.handle_input(Some(Ok(batch(&["a"], &[1], &[2])))).unwrap();
    stream.handle_input(None).unwrap();
    for _ in 0..3 {
        match stream.next_action() {
            Action::Output(batch) => assert_eq!(batch.num_rows(), 0),
            _ => panic!("output expected"),
        }
    }
}

#[test]
fn every_output_batch_is_under_the_schema() {
    let log = Log::default();
    let mut stream = stream(&log, 1);
    assert_eq!(stream.schema(), output_schema());
    stream.handle_input(Some(Ok(batch(&["a", "b"], &[1, 2], &[3, 4])))).unwrap();
    stream.handle_input(None).unwrap();
    let mut batches = 0;
    while let Action::Output(batch) = stream.next_action() {
        assert_eq!(batch.inner.schema(), output_schema());
        batches += 1;
    }
    assert_eq!(batches, 2);
}

#[test]
fn grouping_sets_are_taken_in_one_after_the_other() {
    let log = Log::default();
    let mut stream = stream(&log, 100);
    let input = EvaluatedBatch {
        group_by_values: vec![vec![keys(&["a", "b"])], vec![keys(&["b", "c"])]],
        input_values: vec![vec![ints(&[1, 2])], vec![ints(&[10, 20])]],
        filter_values: vec![None, None],
    };
    let output = run(&mut stream, vec![input]).unwrap();
    assert_eq!(output, vec![vec![row("a", 1, 10), row("b", 3, 30), row("c", 2, 20)]]);
    assert_eq!(
        log.borrow()[..4],
        [
            "first update [0, 1] of 2",
            "second update [0, 1] of 2",
            "first update [1, 2] of 3",
            "second update [1, 2] of 3",
        ]
    );
}

#[test]
fn each_filter_goes_with_its_aggregate() {
    let log = Log::default();
    let mut stream = stream(&log, 100);
    let mut input = batch(&["a", "a", "b"], &[1, 2, 4], &[10, 20, 40]);
    input.filter_values[1] = Some(BooleanArray::from(vec![false, true, false]));
    let output = run(&mut stream, vec![input]).unwrap();
    assert_eq!(output, vec![vec![row("a", 3, 20), row("b", 4, 0)]]);
}

#[test]
fn final_modes_merge_and_evaluate() {
    for mode in [AggregateMode::Final, AggregateMode::FinalPartitioned] {
        let log = Log::default();
        let agg = plan(&log, mode, "", None);
        let mut stream: Stream<UnboundedReservation> =
            GroupedHashAggregateStream::new(agg, UnboundedReservation::new(), 10).unwrap();
        assert_eq!(stream.filter_expressions(), &vec![None, None]);
        run(&mut stream, vec![batch(&["a"], &[1], &[2])]).unwrap();
        assert_eq!(
            *log.borrow(),
            vec![
                "first merge [0] of 1",
                "second merge [0] of 1",
                "first evaluate All",
                "second evaluate All",
            ]
        );
    }
}

#[test]
fn single_modes_update_and_evaluate() {
    for mode in [AggregateMode::Single, AggregateMode::SinglePartitioned] {
        let log = Log::default();
        let agg = plan(&log, mode, "", None);
        let mut stream: Stream<UnboundedReservation> =
            GroupedHashAggregateStream::new(agg, UnboundedReservation::new(), 10).unwrap();
        assert_eq!(stream.filter_expressions(), &vec![None, Some("f")]);
        assert_eq!(stream.aggregate_arguments(), &vec![vec!["a"], vec!["b", "c"]]);
        run(&mut stream, vec![batch(&["a"], &[1], &[2])]).unwrap();
        assert_eq!(log.borrow()[0], "first update [0] of 1");
        assert_eq!(log.borrow()[2], "first evaluate All");
    }
}

#[test]
fn the_partial_mode_outputs_all_state_columns() {
    let log = Log::default();
    let mut agg = plan(&log, AggregateMode::Partial, "", None);
    let mut fields = vec![Field::new("key", DataType::Utf8, true)];
    for name in ["first 0", "first 1", "second 0", "second 1"] {
        fields.push(Field::new(name, DataType::Int64, true));
    }
    agg.schema = Arc::new(Schema::new(fields));
    let mut stream: Stream<UnboundedReservation> =
        GroupedHashAggregateStream::new(agg, UnboundedReservation::new(), 10).unwrap();
    stream.handle_input(Some(Ok(batch(&["a", "b"], &[1, 2], &[3, 4])))).unwrap();
    stream.handle_input(None).unwrap();
    match stream.next_action() {
        Action::Output(batch) => {
            let columns = batch.inner.columns();
            assert_eq!(columns.len(), 5);
            assert_eq!(int_values(&columns[2]), vec![Some(1), Some(2)]);
            assert_eq!(int_values(&columns[3]), vec![Some(3), Some(4)]);
        }
        _ => panic!("output expected"),
    }
    assert_eq!(log.borrow()[2..], ["first state All", "second state All"]);
}

#[test]
fn complete_groups_go_out_early() {
    let log = Log::default();
    let ordering = ScriptPlan {
        complete: vec![Some(EmitTo::First(1)), None],
        refuses: false,
        fails: false,
        log: log.clone(),
    };
    let agg = plan(&log, AggregateMode::Single, "", Some(ordering));
    let mut stream: Stream<UnboundedReservation> =
        GroupedHashAggregateStream::new(agg, UnboundedReservation::new(), 10).unwrap();
    let output = run(
        &mut stream,
        vec![
            batch(&["a", "b"], &[1, 2], &[10, 20]),
            batch(&["b", "c"], &[3, 4], &[30, 40]),
        ],
    )
    .unwrap();
    assert_eq!(output, vec![vec![row("a", 1, 10)], vec![row("b", 5, 50), row("c", 4, 40)]]);
    assert_eq!(
        *log.borrow(),
        vec![
            "new groups in 1 columns [0, 1] of 2",
            "first update [0, 1] of 2",
            "second update [0, 1] of 2",
            "remove 1",
            "first evaluate First(1)",
            "second evaluate First(1)",
            "new groups in 1 columns [0, 1] of 2",
            "first update [0, 1] of 2",
            "second update [0, 1] of 2",
            "input done",
            "first evaluate All",
            "second evaluate All",
        ]
    );
}

#[test]
fn early_output_makes_no_difference_to_the_rows() {
    let batches = || {
        vec![
            batch(&["a", "a", "b"], &[1, 2, 3], &[10, 20, 30]),
            batch(&["b", "c"], &[4, 5], &[40, 50]),
            batch(&["c", "d", "c"], &[6, 7, 8], &[60, 70, 80]),
        ]
    };
    let expected = vec![row("a", 3, 30), row("b", 7, 70), row("c", 19, 190), row("d", 7, 70)];
    let log = Log::default();
    let whole = run(&mut stream(&log, 100), batches()).unwrap();
    assert_eq!(whole, vec![expected.clone()]);
    for complete in [
        vec![Some(EmitTo::First(1)), Some(EmitTo::First(1)), None],
        vec![None, Some(EmitTo::First(2)), None],
        vec![Some(EmitTo::First(0)), None, None],
    ] {
        let ordering =
            ScriptPlan { complete, refuses: false, fails: false, log: log.clone() };
        let agg = plan(&log, AggregateMode::Single, "", Some(ordering));
        let mut early: Stream<UnboundedReservation> =
            GroupedHashAggregateStream::new(agg, UnboundedReservation::new(), 100).unwrap();
        let output = run(&mut early, batches()).unwrap();
        let together: Vec<OutputRow> = output.into_iter().flatten().collect();
        assert_eq!(together, expected);
    }
}

#[test]
fn as_few_batches_go_out_as_can_be() {
    let names: Vec<String> = (0..10).map(|i| format!("key {i}")).collect();
    let key: Vec<&str> = names.iter().map(|n| n.as_str()).collect();
    let numbers: Vec<i64> = (0..10).collect();
    for (batch_size, count) in [(1, 10), (3, 4), (5, 2), (9, 2), (10, 1), (11, 1)] {
        let log = Log::default();
        let input = vec![batch(&key, &numbers, &numbers), batch(&key, &numbers, &numbers)];
        let output = run(&mut stream(&log, batch_size), input).unwrap();
        assert_eq!(output.len(), count);
        assert!(output.iter().all(|rows| rows.len() <= batch_size));
    }
}

#[test]
fn the_ordering_hears_only_of_new_groups() {
    let log = Log::default();
    let ordering =
        ScriptPlan { complete: vec![None, None], refuses: false, fails: false, log: log.clone() };
    let agg = plan(&log, AggregateMode::Single, "", Some(ordering));
    let mut stream: Stream<UnboundedReservation> =
        GroupedHashAggregateStream::new(agg, UnboundedReservation::new(), 10).unwrap();
    stream.handle_input(Some(Ok(batch(&["a"], &[1], &[1])))).unwrap();
    stream.handle_input(Some(Ok(batch(&["a"], &[1], &[1])))).unwrap();
    let told = log.borrow().iter().filter(|line| line.starts_with("new groups")).count();
    assert_eq!(told, 1);
}

#[test]
fn an_error_of_the_input_changes_nothing() {
    let log = Log::default();
    let mut stream = stream(&log, 10);
    stream.handle_input(Some(Ok(batch(&["a"], &[1], &[2])))).unwrap();
    let calls = log.borrow().len();
    match stream.handle_input(Some(Err(failure("input")))) {
        Err(AggregateError::Execution(text)) => assert_eq!(text, "input"),
        _ => panic!("error expected"),
    }
    assert_eq!(log.borrow().len(), calls);
    assert!(!stream.input_done());
    assert_eq!(run(&mut stream, vec![]).unwrap(), vec![vec![row("a", 1, 2)]]);
}

#[test]
fn a_failing_accumulator_stops_the_batch() {
    let log = Log::default();
    let mut agg = plan(&log, AggregateMode::Single, "", None);
    agg.aggr_expr[0].fails = "update";
    let mut stream: Stream<UnboundedReservation> =
        GroupedHashAggregateStream::new(agg, UnboundedReservation::new(), 10).unwrap();
    match stream.handle_input(Some(Ok(batch(&["a"], &[1], &[2])))) {
        Err(AggregateError::Execution(text)) => assert_eq!(text, "update"),
        _ => panic!("error expected"),
    }
    assert_eq!(*log.borrow(), vec!["first update [0] of 1"]);
    assert!(matches!(stream.next_action(), Action::PollInput));
}

#[test]
fn an_accumulator_that_fails_to_evaluate_stops_the_output() {
    let log = Log::default();
    let agg = plan(&log, AggregateMode::Single, "evaluate", None);
    let mut stream: Stream<UnboundedReservation> =
        GroupedHashAggregateStream::new(agg, UnboundedReservation::new(), 10).unwrap();
    stream.handle_input(Some(Ok(batch(&["a"], &[1], &[2])))).unwrap();
    assert!(matches!(stream.handle_input(None), Err(AggregateError::Execution(_))));
    assert_eq!(log.borrow()[2..], ["first evaluate All", "second evaluate All"]);
    assert!(stream.input_done());
    assert!(matches!(stream.next_action(), Action::PollInput));
}

#[test]
fn an_ordering_that_turns_groups_down_stops_the_batch() {
    let log = Log::default();
    let ordering =
        ScriptPlan { complete: vec![None], refuses: true, fails: false, log: log.clone() };
    let agg = plan(&log, AggregateMode::Single, "", Some(ordering));
    let mut stream: Stream<UnboundedReservation> =
        GroupedHashAggregateStream::new(agg, UnboundedReservation::new(), 10).unwrap();
    let result = stream.handle_input(Some(Ok(batch(&["a"], &[1], &[2]))));
    assert!(matches!(result, Err(AggregateError::Execution(_))));
    assert_eq!(*log.borrow(), vec!["new groups in 1 columns [0] of 1"]);
}

#[test]
fn keys_of_another_type_are_refused() {
    let log = Log::default();
    let mut stream = stream(&log, 10);
    let mut input = batch(&["a"], &[1], &[2]);
    input.group_by_values = vec![vec![ints(&[1])]];
    assert!(matches!(stream.group_aggregate_batch(&input), Err(AggregateError::Arrow(_))));
    assert!(log.borrow().is_empty());
}

#[test]
fn memory_is_asked_for_after_each_batch_and_each_emission() {
    let log = Log::default();
    let agg = plan(&log, AggregateMode::Single, "", None);
    let reservation = pool(2);
    let asked = reservation.asked.clone();
    let mut stream: Stream<Pool> =
        GroupedHashAggregateStream::new(agg, reservation, 10).unwrap();
    stream.handle_input(Some(Ok(batch(&["a"], &[1], &[2])))).unwrap();
    stream.handle_input(None).unwrap();
    assert_eq!(asked.borrow().len(), 2);
    // Two accumulators of 1000 bytes, room for 16 table entries, and a group index.
    assert!(asked.borrow().iter().all(|bytes| *bytes >= 2000 + 16 * 16 + 8));
}

#[test]
fn memory_that_is_denied_is_an_error() {
    let log = Log::default();
    let agg = plan(&log, AggregateMode::Single, "", None);
    let mut stream: Stream<Pool> = GroupedHashAggregateStream::new(agg, pool(0), 10).unwrap();
    let result = stream.handle_input(Some(Ok(batch(&["a"], &[1], &[2]))));
    assert!(matches!(result, Err(AggregateError::ResourcesExhausted(_))));
    let agg = plan(&log, AggregateMode::Single, "", None);
    let mut stream: Stream<Pool> = GroupedHashAggregateStream::new(agg, pool(1), 10).unwrap();
    stream.handle_input(Some(Ok(batch(&["a"], &[1], &[2])))).unwrap();
    assert!(matches!(stream.handle_input(None), Err(AggregateError::ResourcesExhausted(_))));
}

#[test]
fn the_size_of_the_ordering_counts() {
    let log = Log::default();
    let ordering =
        ScriptPlan { complete: vec![None], refuses: false, fails: false, log: log.clone() };
    let reservation = pool(1);
    let asked = reservation.asked.clone();
    let agg = plan(&log, AggregateMode::Single, "", Some(ordering));
    let mut stream: Stream<Pool> = GroupedHashAggregateStream::new(agg, reservation, 10).unwrap();
    stream.group_aggregate_batch(&batch(&["a"], &[1], &[2])).unwrap();
    assert!(asked.borrow()[0] >= 2000 + 50 + 16 * 16 + 8);
}

#[test]
fn outputs_that_do_not_fit_the_schema_are_an_error() {
    let log = Log::default();
    let mut agg = plan(&log, AggregateMode::Single, "", None);
    agg.schema = Arc::new(Schema::new(vec![
        Field::new("key", DataType::Utf8, true),
        Field::new("first", DataType::Int64, true),
    ]));
    let mut stream: Stream<UnboundedReservation> =
        GroupedHashAggregateStream::new(agg, UnboundedReservation::new(), 10).unwrap();
    stream.handle_input(Some(Ok(batch(&["a"], &[1], &[2])))).unwrap();
    assert!(matches!(stream.handle_input(None), Err(AggregateError::Arrow(_))));
}

#[test]
fn a_plan_can_be_turned_down() {
    let log = Log::default();
    let new = |agg| Stream::<UnboundedReservation>::new(agg, UnboundedReservation::new(), 10);
    let mut agg = plan(&log, AggregateMode::Single, "", None);
    agg.aggr_expr[1].created = false;
    match new(agg) {
        Err(AggregateError::Execution(text)) => assert_eq!(text, "second"),
        _ => panic!("error expected"),
    }
    let mut agg = plan(&log, AggregateMode::Single, "", None);
    agg.num_group_exprs = 4;
    assert!(matches!(new(agg), Err(AggregateError::Arrow(_))));
    let ordering =
        ScriptPlan { complete: vec![], refuses: false, fails: true, log: log.clone() };
    let agg = plan(&log, AggregateMode::Single, "", Some(ordering));
    match new(agg) {
        Err(AggregateError::Execution(text)) => assert_eq!(text, "key"),
        _ => panic!("error expected"),
    }
    let mut agg = plan(&log, AggregateMode::Single, "", None);
    let run_ends = DataType::RunEndEncoded(
        Arc::new(Field::new("run_ends", DataType::Int32, false)),
        Arc::new(Field::new("values", DataType::Utf8, true)),
    );
    let inside = DataType::Struct(vec![Field::new("x", run_ends, true)].into());
    agg.schema = Arc::new(Schema::new(vec![Field::new("key", inside, true)]));
    assert!(matches!(new(agg), Err(AggregateError::UnsupportedKeyType)));
}

#[test]
fn an_aggregate_without_its_own_accumulator_gets_the_adapter() {
    let log = Log::default();
    let mut expr = exprs(&log, "").remove(0);
    assert_eq!(create_group_accumulator(&expr).unwrap().name, "first");
    expr.supported = false;
    expr.created = false;
    assert_eq!(create_group_accumulator(&expr).unwrap().name, "adapter");
}

#[test]
fn accumulators_are_made_up_to_the_first_that_fails() {
    let log = Log::default();
    let mut all = exprs(&log, "");
    let made = create_accumulators(&all).unwrap();
    assert_eq!(made.len(), 2);
    assert_eq!(made[1].name, "second");
    all[0].created = false;
    all[1].created = false;
    match create_accumulators(&all) {
        Err(AggregateError::Execution(text)) => assert_eq!(text, "first"),
        _ => panic!("error expected"),
    }
}

#[test]
fn merged_states_are_not_filtered_again() {
    let filters = vec![Some("x"), None];
    for mode in
        [AggregateMode::Partial, AggregateMode::Single, AggregateMode::SinglePartitioned]
    {
        assert_eq!(filter_expressions(mode, filters.clone(), 3), filters);
    }
    for mode in [AggregateMode::Final, AggregateMode::FinalPartitioned] {
        assert_eq!(filter_expressions(mode, filters.clone(), 3), vec![None, None, None]);
    }
}

#[test]
fn keys_without_an_encoding_do_no_harm_without_input() {
    let log = Log::default();
    let mut agg = plan(&log, AggregateMode::Single, "", None);
    let run_ends = DataType::RunEndEncoded(
        Arc::new(Field::new("run_ends", DataType::Int32, false)),
        Arc::new(Field::new("values", DataType::Utf8, true)),
    );
    agg.schema = Arc::new(Schema::new(vec![Field::new("key", run_ends, true)]));
    let mut stream: Stream<UnboundedReservation> =
        GroupedHashAggregateStream::new(agg, UnboundedReservation::new(), 10).unwrap();
    assert!(matches!(stream.next_action(), Action::PollInput));
    stream.handle_input(None).unwrap();
    match stream.next_action() {
        Action::Output(batch) => assert_eq!(batch.num_rows(), 0),
        _ => panic!("a batch expected"),
    }
    assert!(matches!(stream.next_action(), Action::Finished));
}

#[test]
fn there_is_no_empty_output_of_a_type_without_columns() {
    let log = Log::default();
    let mut agg = plan(&log, AggregateMode::Single, "", None);
    agg.schema = Arc::new(Schema::new(vec![
        Field::new("key", DataType::Utf8, true),
        Field::new("first", DataType::Time32(TimeUnit::Nanosecond), true),
    ]));
    let mut stream: Stream<UnboundedReservation> =
        GroupedHashAggregateStream::new(agg, UnboundedReservation::new(), 10).unwrap();
    assert!(matches!(stream.handle_input(None), Err(AggregateError::InvalidType)));
    assert!(log.borrow().is_empty());
}

#[test]
fn emitting_by_hand_takes_the_first_groups_off() {
    let log = Log::default();
    let mut stream = stream(&log, 10);
    stream.group_aggregate_batch(&batch(&["a", "b", "c"], &[1, 2, 3], &[4, 5, 6])).unwrap();
    assert_eq!(rows(&stream.emit(EmitTo::First(2)).unwrap()), vec![row("a", 1, 4), row("b", 2, 5)]);
    stream.group_aggregate_batch(&batch(&["c", "a"], &[10, 20], &[30, 40])).unwrap();
    assert_eq!(
        rows(&stream.emit(EmitTo::All).unwrap()),
        vec![row("c", 13, 36), row("a", 20, 40)]
    );
}
