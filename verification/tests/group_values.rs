use arrow::array::{
    make_array, new_null_array, Array, ArrayData, ArrayRef, BinaryArray, DictionaryArray,
    Float64Array, Int32Array, Int32Builder, LargeBinaryArray, LargeListArray, ListArray,
    ListBuilder, StringArray, StringBuilder, StructArray, UInt64Array,
};
use arrow::buffer::{MutableBuffer, NullBuffer, OffsetBuffer, ScalarBuffer};
use arrow::datatypes::{DataType, Field, Fields, Int8Type, Schema, TimeUnit, UInt64Type};
use group_hash::columns::Column;
use group_hash::error::AggregateError;
use group_hash::group_values::{GroupValues, GroupValuesRows};
use group_hash::grouping::EmitTo;
use std::sync::Arc;

fn column(array: impl Array + 'static) -> Column {
    Column { array: Arc::new(array) }
}

fn share(column: &Column) -> Column {
    Column { array: column.array.clone() }
}

fn schema() -> Schema {
    Schema::new(vec![
        Field::new("a", DataType::Int32, true),
        Field::new("b", DataType::Utf8, true),
    ])
}

fn columns(a: Vec<Option<i32>>, b: Vec<Option<&str>>) -> Vec<Column> {
    vec![column(Int32Array::from(a)), column(StringArray::from(b))]
}

fn keys(cols: &[Column]) -> Vec<(Option<i32>, Option<String>)> {
    let a = cols[0].array.as_any().downcast_ref::<Int32Array>().unwrap().clone();
    let b = cols[1].array.as_any().downcast_ref::<StringArray>().unwrap().clone();
    a.iter().zip(b.iter()).map(|(x, y)| (x, y.map(|y| y.to_string()))).collect()
}

#[test]
fn distinct_rows_get_consecutive_indices() {
    let mut store = GroupValuesRows::try_new(&schema()).unwrap();
    let mut groups = vec![7, 7, 7];
    assert!(store.is_empty());
    let cols = columns(
        vec![Some(1), Some(2), Some(1), None, Some(1)],
        vec![Some("x"), Some("x"), Some("x"), None, Some("y")],
    );
    store.intern(&cols, &mut groups).unwrap();
    assert_eq!(groups, vec![0, 1, 0, 2, 3]);
    assert_eq!(store.len(), 4);
    assert!(!store.is_empty());
}

#[test]
fn emit_first_removes_and_shifts() {
    let mut store = GroupValuesRows::try_new(&schema()).unwrap();
    let mut groups = vec![];
    let cols = columns(
        vec![Some(1), Some(2), Some(3)],
        vec![Some("x"), Some("y"), Some("z")],
    );
    store.intern(&cols, &mut groups).unwrap();
    let out = store.emit(EmitTo::First(2)).unwrap();
    assert_eq!(
        keys(&out),
        vec![(Some(1), Some("x".to_string())), (Some(2), Some("y".to_string()))]
    );
    assert_eq!(store.len(), 1);
    store.intern(&cols, &mut groups).unwrap();
    assert_eq!(groups, vec![1, 2, 0]);
}

#[test]
fn columns_of_unequal_length_are_refused() {
    let mut store = GroupValuesRows::try_new(&schema()).unwrap();
    let mut groups = vec![5];
    let cols = columns(vec![Some(1), Some(2)], vec![Some("x")]);
    assert!(matches!(store.intern(&cols, &mut groups), Err(AggregateError::ColumnLengths)));
    assert_eq!(groups, vec![5]);
}

fn one_column(data_type: DataType) -> Schema {
    Schema::new(vec![Field::new("k", data_type, true)])
}

fn texts(column: &Column) -> Vec<Option<String>> {
    let array = column.array.as_any().downcast_ref::<StringArray>().unwrap();
    array.iter().map(|v| v.map(|v| v.to_string())).collect()
}

fn dictionary(values: Vec<Option<&str>>) -> Column {
    let array: DictionaryArray<Int8Type> = values.into_iter().collect();
    column(array)
}

fn dictionary_type() -> DataType {
    DataType::Dictionary(Box::new(DataType::Int8), Box::new(DataType::Utf8))
}

#[test]
fn nulls_make_one_group_apart_from_empty_text() {
    let mut store = GroupValuesRows::try_new(&one_column(DataType::Utf8)).unwrap();
    let mut groups = vec![];
    let column = column(StringArray::from(vec![None, Some(""), None, Some("")]));
    store.intern(&vec![column], &mut groups).unwrap();
    assert_eq!(groups, vec![0, 1, 0, 1]);
    let out = store.emit(EmitTo::All).unwrap();
    assert_eq!(texts(&out[0]), vec![None, Some(String::new())]);
}

#[test]
fn floats_are_grouped_by_their_bits() {
    let mut store = GroupValuesRows::try_new(&one_column(DataType::Float64)).unwrap();
    let mut groups = vec![];
    let column = column(Float64Array::from(vec![0.0, -0.0, f64::NAN, f64::NAN, 0.0]));
    store.intern(&vec![column], &mut groups).unwrap();
    assert_eq!(groups, vec![0, 1, 2, 2, 0]);
}

#[test]
fn dictionaries_are_grouped_by_what_they_stand_for() {
    let mut store = GroupValuesRows::try_new(&one_column(dictionary_type())).unwrap();
    let mut groups = vec![];
    store.intern(&vec![dictionary(vec![Some("b"), Some("a"), Some("b")])], &mut groups).unwrap();
    assert_eq!(groups, vec![0, 1, 0]);
    store.intern(&vec![dictionary(vec![Some("a"), None, Some("c")])], &mut groups).unwrap();
    assert_eq!(groups, vec![1, 2, 3]);
    let out = store.emit(EmitTo::All).unwrap();
    assert_eq!(out[0].array.data_type(), &dictionary_type());
    let array = out[0].array.as_any().downcast_ref::<DictionaryArray<Int8Type>>().unwrap();
    let typed = array.downcast_dict::<StringArray>().unwrap();
    let values: Vec<Option<&str>> = typed.into_iter().collect();
    assert_eq!(values, vec![Some("b"), Some("a"), None, Some("c")]);
}

#[test]
fn dictionary_keys_that_run_out_leave_the_groups() {
    let mut store = GroupValuesRows::try_new(&one_column(dictionary_type())).unwrap();
    let mut groups = vec![];
    let names: Vec<String> = (0..129).map(|i| format!("name {i}")).collect();
    for part in names.chunks(64) {
        let column = dictionary(part.iter().map(|n| Some(n.as_str())).collect());
        store.intern(&vec![column], &mut groups).unwrap();
    }
    assert_eq!(store.len(), 129);
    assert!(matches!(store.emit(EmitTo::All), Err(AggregateError::Arrow(_))));
    assert_eq!(store.len(), 129);
    assert_eq!(store.emit(EmitTo::First(128)).unwrap()[0].array.len(), 128);
    assert_eq!(store.len(), 1);
}

#[test]
fn emitting_all_keeps_the_groups() {
    let mut store = GroupValuesRows::try_new(&schema()).unwrap();
    let mut groups = vec![];
    let cols = columns(vec![Some(1), Some(2)], vec![Some("x"), Some("y")]);
    store.intern(&cols, &mut groups).unwrap();
    let first = keys(&store.emit(EmitTo::All).unwrap());
    assert_eq!(store.len(), 2);
    assert_eq!(keys(&store.emit(EmitTo::All).unwrap()), first);
    store.intern(&cols, &mut groups).unwrap();
    assert_eq!(groups, vec![0, 1]);
}

#[test]
fn emitting_more_than_there_is_empties_the_store() {
    let mut store = GroupValuesRows::try_new(&schema()).unwrap();
    let mut groups = vec![];
    let cols = columns(vec![Some(1), Some(2)], vec![Some("x"), Some("y")]);
    store.intern(&cols, &mut groups).unwrap();
    assert_eq!(store.emit(EmitTo::First(9)).unwrap()[0].array.len(), 2);
    assert!(store.is_empty());
    store.intern(&cols, &mut groups).unwrap();
    assert_eq!(groups, vec![0, 1]);
}

#[test]
fn emitting_none_changes_nothing() {
    let mut store = GroupValuesRows::try_new(&schema()).unwrap();
    let mut groups = vec![];
    let cols = columns(vec![Some(1), Some(2)], vec![Some("x"), Some("y")]);
    store.intern(&cols, &mut groups).unwrap();
    let out = store.emit(EmitTo::First(0)).unwrap();
    assert_eq!(out.len(), 2);
    assert_eq!(out[0].array.len(), 0);
    assert_eq!(store.len(), 2);
}

#[test]
fn emitting_twice_is_emitting_the_sum() {
    let mut parts = GroupValuesRows::try_new(&schema()).unwrap();
    let mut whole = GroupValuesRows::try_new(&schema()).unwrap();
    let mut groups = vec![];
    let cols = columns(
        vec![Some(1), Some(2), Some(3), Some(4)],
        vec![Some("a"), Some("b"), Some("c"), Some("d")],
    );
    parts.intern(&cols, &mut groups).unwrap();
    whole.intern(&cols, &mut groups).unwrap();
    let mut out = keys(&parts.emit(EmitTo::First(1)).unwrap());
    out.extend(keys(&parts.emit(EmitTo::First(2)).unwrap()));
    assert_eq!(out, keys(&whole.emit(EmitTo::First(3)).unwrap()));
    assert_eq!(
        keys(&parts.emit(EmitTo::All).unwrap()),
        keys(&whole.emit(EmitTo::All).unwrap())
    );
}

#[test]
fn a_row_whose_group_is_gone_comes_back_last() {
    let mut store = GroupValuesRows::try_new(&schema()).unwrap();
    let mut groups = vec![];
    let cols = columns(
        vec![Some(1), Some(2), Some(3)],
        vec![Some("x"), Some("y"), Some("z")],
    );
    store.intern(&cols, &mut groups).unwrap();
    store.emit(EmitTo::First(1)).unwrap();
    store.intern(&columns(vec![Some(1)], vec![Some("x")]), &mut groups).unwrap();
    assert_eq!(groups, vec![2]);
}

#[test]
fn cutting_a_batch_makes_no_difference() {
    let mut cut = GroupValuesRows::try_new(&one_column(DataType::Int32)).unwrap();
    let mut whole = GroupValuesRows::try_new(&one_column(DataType::Int32)).unwrap();
    let values = vec![3, 1, 3, 2, 1, 4];
    let mut groups = vec![];
    let mut together = vec![];
    for part in values.chunks(4) {
        cut.intern(&vec![column(Int32Array::from(part.to_vec()))], &mut groups).unwrap();
        together.extend(groups.iter().copied());
    }
    whole.intern(&vec![column(Int32Array::from(values))], &mut groups).unwrap();
    assert_eq!(groups, vec![0, 1, 0, 2, 1, 3]);
    assert_eq!(together, groups);
    assert_eq!(cut.len(), whole.len());
}

#[test]
fn known_rows_bring_no_groups() {
    let mut store = GroupValuesRows::try_new(&one_column(DataType::Int32)).unwrap();
    let mut groups = vec![];
    let column = column(Int32Array::from(vec![5, 6, 5]));
    store.intern(&vec![share(&column)], &mut groups).unwrap();
    assert_eq!(store.len(), 2);
    store.intern(&vec![column], &mut groups).unwrap();
    assert_eq!(store.len(), 2);
    assert_eq!(groups, vec![0, 1, 0]);
}

#[test]
fn many_rows_find_their_groups_again() {
    let mut store = GroupValuesRows::try_new(&one_column(DataType::Int32)).unwrap();
    let mut groups = vec![];
    let values: Vec<i32> = (0..5000).collect();
    let expected: Vec<usize> = (0..5000).collect();
    let numbers = column(Int32Array::from(values));
    store.intern(&vec![share(&numbers)], &mut groups).unwrap();
    assert_eq!(groups, expected);
    store.intern(&vec![numbers], &mut groups).unwrap();
    assert_eq!(groups, expected);
    store.emit(EmitTo::First(4000)).unwrap();
    let left = column(Int32Array::from(vec![4999, 4000, 3999]));
    store.intern(&vec![left], &mut groups).unwrap();
    assert_eq!(groups, vec![999, 0, 1000]);
}

#[test]
fn no_rows_are_no_groups() {
    let mut store = GroupValuesRows::try_new(&schema()).unwrap();
    let mut groups = vec![1, 2];
    store.intern(&columns(vec![], vec![]), &mut groups).unwrap();
    assert!(groups.is_empty());
    assert!(store.is_empty());
}

#[test]
fn without_columns_there_are_no_groups() {
    let mut store = GroupValuesRows::try_new(&Schema::empty()).unwrap();
    let mut groups = vec![1];
    store.intern(&vec![], &mut groups).unwrap();
    assert!(groups.is_empty());
    assert!(store.is_empty());
    assert!(store.emit(EmitTo::All).unwrap().is_empty());
}

#[test]
fn columns_of_other_types_are_refused() {
    let mut store = GroupValuesRows::try_new(&schema()).unwrap();
    let mut groups = vec![5];
    let swapped: Vec<Column> =
        columns(vec![Some(1)], vec![Some("x")]).into_iter().rev().collect();
    assert!(matches!(store.intern(&swapped, &mut groups), Err(AggregateError::Arrow(_))));
    let one = vec![column(Int32Array::from(vec![1]))];
    assert!(matches!(store.intern(&one, &mut groups), Err(AggregateError::Arrow(_))));
    assert_eq!(groups, vec![5]);
    assert!(store.is_empty());
}

fn run_ends() -> DataType {
    DataType::RunEndEncoded(
        Arc::new(Field::new("run_ends", DataType::Int32, false)),
        Arc::new(Field::new("values", DataType::Utf8, true)),
    )
}

#[test]
fn columns_without_an_encoding_are_refused() {
    let flags = DataType::Dictionary(Box::new(DataType::Int8), Box::new(DataType::Boolean));
    for (data_type, readable) in [(run_ends(), false), (flags, true)] {
        let mut store = GroupValuesRows::try_new(&one_column(data_type.clone())).unwrap();
        assert!(store.is_empty());
        let mut groups = vec![3];
        let cols = vec![Column { array: new_null_array(&data_type, 1) }];
        assert!(matches!(
            store.intern(&cols, &mut groups),
            Err(AggregateError::UnsupportedKeyType)
        ));
        assert_eq!(groups, vec![3]);
        match store.emit(EmitTo::All) {
            Ok(columns) => {
                assert!(readable);
                assert_eq!(columns[0].array.len(), 0);
                assert_eq!(columns[0].array.data_type(), &data_type);
            }
            Err(e) => {
                assert!(!readable);
                assert!(matches!(e, AggregateError::UnsupportedKeyType));
            }
        }
        assert!(store.is_empty());
    }
}

#[test]
fn an_empty_store_gives_empty_columns() {
    let dictionary = |values| DataType::Dictionary(Box::new(DataType::Int8), Box::new(values));
    let list = |item| DataType::LargeList(Arc::new(Field::new("item", item, true)));
    for data_type in [
        DataType::FixedSizeBinary(-2),
        DataType::FixedSizeBinary(3),
        DataType::Null,
        DataType::Utf8,
        dictionary(DataType::Binary),
        dictionary(DataType::Null),
        dictionary(DataType::LargeUtf8),
        list(dictionary(DataType::Boolean)),
        list(DataType::Struct(Fields::empty())),
    ] {
        let mut store = GroupValuesRows::try_new(&one_column(data_type.clone())).unwrap();
        for emit_to in [EmitTo::All, EmitTo::First(0), EmitTo::First(5)] {
            let columns = store.emit(emit_to).unwrap();
            assert_eq!(columns[0].array.len(), 0);
            assert_eq!(columns[0].array.data_type(), &data_type);
        }
    }
    for data_type in [run_ends(), DataType::Time64(TimeUnit::Second), list(run_ends())] {
        let mut store = GroupValuesRows::try_new(&one_column(data_type)).unwrap();
        assert!(matches!(store.emit(EmitTo::All), Err(AggregateError::UnsupportedKeyType)));
    }
}

#[test]
fn structs_without_fields_are_grouped_where_they_are_nulls() {
    let nothing = DataType::Struct(Fields::empty());
    let mut store = GroupValuesRows::try_new(&one_column(nothing.clone())).unwrap();
    let mut groups = vec![];
    let cols = vec![Column { array: new_null_array(&nothing, 2) }];
    store.intern(&cols, &mut groups).unwrap();
    assert_eq!(groups, vec![0, 0]);
    let data = ArrayData::builder(nothing).len(1).build().unwrap();
    let there = Column { array: make_array(data) };
    assert!(matches!(
        store.intern(&vec![there], &mut groups),
        Err(AggregateError::UnsupportedKeyType)
    ));
    assert_eq!(store.len(), 1);
    let out = store.emit(EmitTo::All).unwrap();
    assert_eq!(out[0].array.len(), 1);
    assert!(out[0].array.is_null(0));
}

#[test]
fn types_whose_nulls_have_no_encoding_are_refused_in_structs() {
    let inside = DataType::Struct(vec![Field::new("x", run_ends(), true)].into());
    assert!(matches!(
        GroupValuesRows::try_new(&one_column(inside.clone())),
        Err(AggregateError::UnsupportedKeyType)
    ));
    let item = Arc::new(Field::new("item", DataType::Int32, true));
    let with_another = Schema::new(vec![
        Field::new("s", inside, true),
        Field::new("l", DataType::FixedSizeList(item, 2), true),
    ]);
    assert!(matches!(GroupValuesRows::try_new(&with_another), Err(AggregateError::Arrow(_))));
}

#[test]
fn types_that_no_converter_takes_are_refused() {
    let item = Arc::new(Field::new("item", DataType::Int32, true));
    assert!(matches!(
        GroupValuesRows::try_new(&one_column(DataType::FixedSizeList(item, 2))),
        Err(AggregateError::Arrow(_))
    ));
}

#[test]
fn lists_and_structs_are_grouped() {
    let mut builder = ListBuilder::new(Int32Builder::new());
    for list in [Some(vec![1, 2]), None, Some(vec![]), Some(vec![1, 2])] {
        match list {
            Some(values) => {
                builder.values().append_slice(&values);
                builder.append(true);
            }
            None => builder.append(false),
        }
    }
    let lists = column(builder.finish());
    let item = Arc::new(Field::new("x", DataType::Utf8, true));
    let texts: ArrayRef = Arc::new(StringArray::from(vec!["a", "b", "b", "a"]));
    let structs = column(StructArray::from(vec![(item, texts)]));
    let schema = Schema::new(vec![
        Field::new("l", lists.array.data_type().clone(), true),
        Field::new("s", structs.array.data_type().clone(), true),
    ]);
    let mut store = GroupValuesRows::try_new(&schema).unwrap();
    let mut groups = vec![];
    store.intern(&vec![share(&lists), share(&structs)], &mut groups).unwrap();
    assert_eq!(groups, vec![0, 1, 2, 0]);
    let out = store.emit(EmitTo::All).unwrap();
    assert_eq!(&out[0].array, &lists.array.slice(0, 3));
    assert_eq!(&out[1].array, &structs.array.slice(0, 3));
}

#[test]
fn text_is_counted_for_each_column() {
    let mut store = GroupValuesRows::try_new(&schema()).unwrap();
    let mut groups = vec![];
    let cols = columns(
        vec![Some(1), Some(2), Some(3)],
        vec![Some("four"), None, Some("seven..")],
    );
    store.intern(&cols, &mut groups).unwrap();
    assert!(store.within(3, 11).unwrap());
    assert!(!store.within(3, 10).unwrap());
    assert!(store.within(2, 4).unwrap());
    assert!(!store.within(1, 3).unwrap());
    assert!(store.within(0, 0).unwrap());
}

#[test]
fn text_of_dictionaries_is_counted_once() {
    let schema = Schema::new(vec![
        Field::new("d", dictionary_type(), true),
        Field::new("b", DataType::Binary, true),
    ]);
    let mut store = GroupValuesRows::try_new(&schema).unwrap();
    let mut groups = vec![];
    let bytes = column(BinaryArray::from_vec(vec![b"a", b"b", b"c", b"d"]));
    let names = dictionary(vec![Some("long text"), None, Some("long text"), Some("more")]);
    store.intern(&vec![names, bytes], &mut groups).unwrap();
    assert_eq!(groups, vec![0, 1, 2, 3]);
    assert!(store.within(4, 13).unwrap());
    assert!(!store.within(4, 12).unwrap());
    assert!(store.within(3, 9).unwrap());
    assert!(!store.within(3, 8).unwrap());
}

#[test]
fn text_and_elements_inside_are_counted() {
    let item = Arc::new(Field::new("x", DataType::Utf8, true));
    let texts: ArrayRef = Arc::new(StringArray::from(vec!["abc", "hidden", "de"]));
    let valid = Some(NullBuffer::from(vec![true, false, true]));
    let structs = column(StructArray::new(vec![item].into(), vec![texts], valid));
    let mut lists = ListBuilder::new(StringBuilder::new());
    for list in [vec!["q"; 7], vec![], vec!["rst"]] {
        for text in list {
            lists.values().append_value(text);
        }
        lists.append(true);
    }
    let lists = column(lists.finish());
    let mut store = GroupValuesRows::try_new(&Schema::new(vec![
        Field::new("s", structs.array.data_type().clone(), true),
        Field::new("l", lists.array.data_type().clone(), true),
    ]))
    .unwrap();
    let mut groups = vec![];
    store.intern(&vec![structs, lists], &mut groups).unwrap();
    assert_eq!(store.len(), 3);
    // Ten bytes and eight elements in the lists, five bytes in the structs.
    assert!(store.within(3, 10).unwrap());
    assert!(!store.within(3, 9).unwrap());
    assert!(store.within(2, 7).unwrap());
    assert!(!store.within(2, 6).unwrap());
    assert_eq!(store.emit(EmitTo::All).unwrap()[0].array.len(), 3);
}

#[test]
fn text_of_dictionaries_inside_of_lists_is_counted_once() {
    let values: ArrayRef = Arc::new(StringArray::from(vec![Some("abc"), None, Some("de"), Some("")]));
    let keys = UInt64Array::from(vec![Some(0), Some(1), Some(2), Some(0), None, Some(3), Some(2)]);
    let names = DictionaryArray::<UInt64Type>::new(keys, values);
    let lists = column(LargeListArray::new(
        Arc::new(Field::new("item", names.data_type().clone(), true)),
        OffsetBuffer::from_lengths([3, 4]),
        Arc::new(names),
        None,
    ));
    let schema = one_column(lists.array.data_type().clone());
    let mut store = GroupValuesRows::try_new(&schema).unwrap();
    let mut groups = vec![];
    store.intern(&vec![lists], &mut groups).unwrap();
    assert_eq!(store.len(), 2);
    assert!(store.within(2, 5).unwrap());
    assert!(!store.within(2, 4).unwrap());
}

#[test]
fn elements_are_counted_where_they_have_no_text() {
    let mut lists = ListBuilder::new(Int32Builder::new());
    lists.values().append_slice(&[1, 2, 3]);
    lists.append(true);
    lists.append(false);
    let lists = column(lists.finish());
    let schema = one_column(lists.array.data_type().clone());
    let mut store = GroupValuesRows::try_new(&schema).unwrap();
    let mut groups = vec![];
    store.intern(&vec![lists], &mut groups).unwrap();
    assert!(store.within(2, 3).unwrap());
    assert!(!store.within(2, 2).unwrap());
}

#[test]
fn numbers_need_no_offsets() {
    let mut store = GroupValuesRows::try_new(&one_column(DataType::Int32)).unwrap();
    let mut groups = vec![];
    store.intern(&vec![column(Int32Array::from(vec![1, 2, 3]))], &mut groups).unwrap();
    assert!(store.within(3, 0).unwrap());
}

#[test]
fn keys_too_large_to_be_counted_are_refused() {
    // One struct that holds the same half a gigabyte nine times.
    let len: usize = 1 << 29;
    let offsets = OffsetBuffer::new(ScalarBuffer::from(vec![0i64, len as i64]));
    let bytes: ArrayRef = Arc::new(LargeBinaryArray::new(
        offsets,
        MutableBuffer::from_len_zeroed(len).into(),
        None,
    ));
    let fields: Fields =
        (0..9).map(|i| Field::new(format!("f{i}"), DataType::LargeBinary, true)).collect();
    let structs = StructArray::new(fields, vec![bytes; 9], None);
    let lists = column(ListArray::new(
        Arc::new(Field::new("item", structs.data_type().clone(), true)),
        OffsetBuffer::from_lengths([1]),
        Arc::new(structs),
        None,
    ));
    let schema = one_column(lists.array.data_type().clone());
    let mut store = GroupValuesRows::try_new(&schema).unwrap();
    let mut groups = vec![1];
    assert!(matches!(
        store.intern(&vec![lists], &mut groups),
        Err(AggregateError::KeyTooLarge)
    ));
    assert_eq!(groups, vec![1]);
    assert!(store.is_empty());
}

#[test]
fn the_same_calls_give_the_same_indices() {
    let mut one = GroupValuesRows::try_new(&schema()).unwrap();
    let mut other = GroupValuesRows::try_new(&schema()).unwrap();
    let first = columns(vec![Some(1), Some(2), Some(1)], vec![Some("x"), None, Some("x")]);
    let second = columns(vec![Some(2), Some(3), Some(1)], vec![None, Some("y"), Some("x")]);
    let mut seen = vec![];
    for store in [&mut one, &mut other] {
        let mut groups = vec![];
        let mut all = vec![];
        store.intern(&first, &mut groups).unwrap();
        all.push((groups.clone(), store.len()));
        store.emit(EmitTo::First(1)).unwrap();
        store.intern(&second, &mut groups).unwrap();
        all.push((groups.clone(), store.len()));
        seen.push(all);
    }
    assert_eq!(seen[0], vec![(vec![0, 1, 0], 2), (vec![0, 1, 2], 3)]);
    assert_eq!(seen[0], seen[1]);
}

#[test]
fn the_account_of_the_table_grows_with_the_groups_only() {
    let mut store = GroupValuesRows::try_new(&one_column(DataType::Int32)).unwrap();
    let mut groups = vec![];
    let numbers = column(Int32Array::from((0..100).collect::<Vec<i32>>()));
    store.intern(&vec![share(&numbers)], &mut groups).unwrap();
    let size = store.size();
    store.intern(&vec![numbers], &mut groups).unwrap();
    assert_eq!(store.size(), size);
    store.emit(EmitTo::All).unwrap();
    assert_eq!(store.size(), size);
}

#[test]
fn the_size_counts_the_table_and_the_text() {
    let mut store = GroupValuesRows::try_new(&one_column(DataType::Utf8)).unwrap();
    let empty = store.size();
    let mut groups = vec![];
    let text = "x".repeat(1000);
    let column = column(StringArray::from(vec![text.as_str()]));
    store.intern(&vec![column], &mut groups).unwrap();
    // Room for 16 entries of 16 bytes, a hash, and the text.
    assert!(store.size() >= empty + 16 * 16 + 8 + 1000);
}
