use arrow::array::{Array, DictionaryArray, Int32Array, ListArray, StringArray};
use arrow::buffer::OffsetBuffer;
use arrow::datatypes::{
    DataType, Field, Fields, Int16Type, Int8Type, IntervalUnit, Schema, TimeUnit, UnionFields, UnionMode,
};
use group_hash::columns::{equal_lengths, group_schema, Batch, Column};
use group_hash::data_type::{
    has_short_offsets, is_admitted, is_in_arrow, is_internable, is_nested, is_null_made,
    is_readable, is_restorable, is_writable, kind, making, Kind, Making,
};
use group_hash::encoding::is_encodable;
use group_hash::error::AggregateError;
use group_hash::memory::{allocated_size, total_size};
use group_hash::reservation::{MemoryReservation, UnboundedReservation};
use group_hash::table::{accounted, growth, GroupTable};
use std::sync::Arc;

fn column(array: impl Array + 'static) -> Column {
    Column { array: Arc::new(array) }
}

fn part(column: &Column, length: usize) -> Column {
    Column { array: column.array.slice(0, length) }
}

fn schema() -> Arc<Schema> {
    Arc::new(Schema::new(vec![
        Field::new("a", DataType::Int32, false),
        Field::new("b", DataType::Utf8, true),
    ]))
}

fn columns() -> Vec<Column> {
    vec![
        column(Int32Array::from(vec![1, 2, 3])),
        column(StringArray::from(vec![Some("x"), None, Some("z")])),
    ]
}

fn ints(batch: &Batch, column: usize) -> Vec<Option<i32>> {
    batch.inner.column(column).as_any().downcast_ref::<Int32Array>().unwrap().iter().collect()
}

#[test]
fn a_batch_holds_its_columns() {
    let batch = Batch::try_new(&schema(), &columns()).unwrap();
    assert_eq!(batch.num_rows(), 3);
    assert_eq!(batch.inner.schema(), schema());
    assert_eq!(batch.inner.num_columns(), 2);
    assert_eq!(ints(&batch, 0), vec![Some(1), Some(2), Some(3)]);
    assert_eq!(batch.inner.column(1), &columns()[1].array);
}

#[test]
fn a_batch_must_fit_the_schema() {
    assert!(Batch::try_new(&schema(), &columns().into_iter().take(1).collect()).is_err());
    let swapped: Vec<Column> = columns().into_iter().rev().collect();
    assert!(Batch::try_new(&schema(), &swapped).is_err());
    let unequal = vec![part(&columns()[0], 3), part(&columns()[1], 2)];
    assert!(Batch::try_new(&schema(), &unequal).is_err());
    let with_null = vec![
        column(Int32Array::from(vec![Some(1), None, Some(3)])),
        columns().remove(1),
    ];
    assert!(Batch::try_new(&schema(), &with_null).is_err());
}

#[test]
fn a_slice_has_the_rows_from_the_offset_on() {
    let batch = Batch::try_new(&schema(), &columns()).unwrap();
    let part = batch.slice(1, 2);
    assert_eq!(part.num_rows(), 2);
    assert_eq!(part.inner.schema(), schema());
    assert_eq!(ints(&part, 0), vec![Some(2), Some(3)]);
    assert_eq!(batch.slice(3, 0).num_rows(), 0);
}

#[test]
fn an_empty_batch_has_the_schema() {
    let batch = Batch::new_empty(&schema()).unwrap();
    assert_eq!(batch.num_rows(), 0);
    assert_eq!(batch.inner.schema(), schema());
    assert_eq!(batch.inner.num_columns(), 2);
}

#[test]
fn the_group_fields_stand_first() {
    let group = group_schema(&schema(), 1).unwrap();
    assert_eq!(group.fields().len(), 1);
    assert_eq!(group.field(0), schema().field(0));
    assert_eq!(group_schema(&schema(), 0).unwrap().fields().len(), 0);
    assert_eq!(group_schema(&schema(), 2).unwrap().fields(), schema().fields());
    assert!(group_schema(&schema(), 3).is_err());
}

#[test]
fn columns_can_differ_in_length() {
    assert!(equal_lengths(&columns()));
    assert!(equal_lengths(&vec![]));
    assert!(!equal_lengths(&vec![part(&columns()[0], 3), part(&columns()[1], 1)]));
}

#[test]
fn a_full_table_asks_for_twice_its_room() {
    assert_eq!(growth(0, 16), 256);
    assert_eq!(growth(7, 16), 256);
    assert_eq!(growth(8, 16), 256);
    assert_eq!(growth(28, 16), 896);
    assert_eq!(growth(usize::MAX, 1), usize::MAX);
    assert_eq!(growth(usize::MAX, 0), 0);
    assert_eq!(growth(usize::MAX / 2, 16), usize::MAX);
}

#[test]
fn only_a_full_table_adds_to_the_account() {
    assert_eq!(accounted(100, 28, 28, 16), 996);
    assert_eq!(accounted(100, 27, 28, 16), 100);
    assert_eq!(accounted(usize::MAX - 1, 0, 0, 16), usize::MAX);
}

#[test]
fn entries_are_found_by_hash_and_test() {
    let mut table = GroupTable::new();
    let mut account: usize = 0;
    table.insert_accounted((7, 0), &mut account);
    table.insert_accounted((7, 1), &mut account);
    table.insert_accounted((9, 2), &mut account);
    assert_eq!(table.len(), 3);
    assert_eq!(account, 256);
    assert_eq!(table.find(7, |e| e.1 == 1), Some((7, 1)));
    assert_eq!(table.find(7, |e| e.1 == 0), Some((7, 0)));
    assert_eq!(table.find(7, |_| false), None);
    assert_eq!(table.find(8, |e| e.0 == 8), None);
    assert_eq!(table.find(9, |e| e.0 == 9), Some((9, 2)));
}

#[test]
fn the_account_follows_the_growth_of_the_table() {
    let mut table = GroupTable::new();
    let mut account: usize = 0;
    let mut grown: Vec<usize> = vec![];
    for i in 0..100 {
        let before = account;
        table.insert_accounted((i as u64, i), &mut account);
        if account != before {
            grown.push(account - before);
        }
    }
    assert_eq!(table.len(), 100);
    assert_eq!(grown[0], 256);
    assert!(grown.iter().all(|bytes| *bytes >= 256 && bytes % 16 == 0));
    assert!(grown.len() >= 2);
}

#[test]
fn shifting_drops_the_first_groups() {
    let mut table = GroupTable::new();
    let mut account: usize = 0;
    for g in 0..5 {
        table.insert_accounted((g as u64, g), &mut account);
    }
    table.shift(2);
    assert_eq!(table.len(), 3);
    assert_eq!(table.find(1, |e| e.0 == 1), None);
    assert_eq!(table.find(2, |e| e.0 == 2), Some((2, 0)));
    assert_eq!(table.find(4, |e| e.0 == 4), Some((4, 2)));
    table.truncate(2);
    assert_eq!(table.len(), 2);
    assert_eq!(table.find(3, |e| e.0 == 3), Some((3, 1)));
    assert_eq!(table.find(4, |e| e.0 == 4), None);
    table.shift(2);
    assert_eq!(table.len(), 0);
}

#[test]
fn sizes_add_up_as_far_as_they_can() {
    assert_eq!(total_size(&vec![]), 0);
    assert_eq!(total_size(&vec![1, 20, 300]), 321);
    assert_eq!(total_size(&vec![usize::MAX, 1]), usize::MAX);
}

#[test]
fn room_is_counted_and_not_only_what_is_in_it() {
    let mut v: Vec<u64> = Vec::with_capacity(10);
    v.push(1);
    assert_eq!(allocated_size(&v), v.capacity() * 8);
    assert!(allocated_size(&v) >= 80);
    assert_eq!(allocated_size(&Vec::<u64>::new()), 0);
}

#[test]
fn a_reservation_without_a_pool_keeps_the_last_size() {
    let mut reservation = UnboundedReservation::new();
    assert_eq!(reservation.size(), 0);
    assert!(reservation.try_resize(70).is_ok());
    assert!(reservation.try_resize(7).is_ok());
    assert_eq!(reservation.size(), 7);
}

fn field(data_type: DataType) -> Arc<Field> {
    Arc::new(Field::new("f", data_type, true))
}

fn list(data_type: DataType) -> DataType {
    DataType::List(field(data_type))
}

fn large_list(data_type: DataType) -> DataType {
    DataType::LargeList(field(data_type))
}

fn structure(types: Vec<DataType>) -> DataType {
    DataType::Struct(types.into_iter().map(|t| Field::new("x", t, true)).collect())
}

fn union(ids: Vec<i8>, types: Vec<DataType>) -> DataType {
    let fields: Vec<Field> = types.into_iter().map(|t| Field::new("x", t, true)).collect();
    DataType::Union(UnionFields::new(ids, fields), UnionMode::Sparse)
}

fn runs(run_ends: DataType, values: DataType) -> DataType {
    DataType::RunEndEncoded(field(run_ends), field(values))
}

fn numbered(keys: DataType, values: DataType) -> DataType {
    DataType::Dictionary(Box::new(keys), Box::new(values))
}

#[test]
fn nested_types_are_told_from_flat_ones() {
    let flat = [DataType::Utf8, numbered(DataType::Int8, DataType::Utf8), DataType::Null];
    let entries = structure(vec![DataType::Utf8, DataType::Utf8]);
    let nested = [
        list(DataType::Utf8),
        large_list(DataType::Utf8),
        DataType::FixedSizeList(field(DataType::Utf8), 2),
        structure(vec![]),
        union(vec![0], vec![DataType::Utf8]),
        DataType::Map(field(entries), false),
        numbered(DataType::Int8, list(DataType::Utf8)),
    ];
    assert!(flat.iter().all(|t| is_nested(t) == t.is_nested() && !is_nested(t)));
    assert!(nested.iter().all(|t| is_nested(t) == t.is_nested() && is_nested(t)));
}

#[test]
fn some_types_have_no_encoding() {
    for data_type in [
        DataType::Int32,
        DataType::Null,
        DataType::FixedSizeBinary(0),
        DataType::Time32(TimeUnit::Second),
        structure(vec![]),
        list(structure(vec![])),
        structure(vec![DataType::Boolean, DataType::LargeUtf8]),
        list(structure(vec![DataType::Utf8])),
        numbered(DataType::Int8, DataType::Utf8),
        numbered(DataType::UInt64, DataType::Date32),
        numbered(DataType::Int32, DataType::Decimal128(5, 2)),
    ] {
        assert!(is_writable(&data_type), "{data_type:?}");
        assert!(is_readable(&data_type), "{data_type:?}");
        assert_eq!(making(&data_type), Making::Done, "{data_type:?}");
    }
    for (data_type, readable) in [
        (runs(DataType::Int32, DataType::Utf8), false),
        (list(runs(DataType::Int32, DataType::Utf8)), false),
        (numbered(DataType::Utf8, DataType::Utf8), false),
        (numbered(DataType::Int8, DataType::FixedSizeBinary(2)), false),
        (numbered(DataType::Int8, DataType::Binary), true),
        (numbered(DataType::Int8, DataType::Boolean), true),
        (list(numbered(DataType::Int8, DataType::Null)), true),
        (DataType::FixedSizeBinary(-1), false),
        (DataType::FixedSizeBinary(-2), true),
        (DataType::Time64(TimeUnit::Second), false),
    ] {
        assert!(!is_writable(&data_type), "{data_type:?}");
        assert_eq!(is_readable(&data_type), readable, "{data_type:?}");
        assert_eq!(making(&data_type), Making::Done, "{data_type:?}");
    }
}

#[test]
fn a_converter_for_structs_writes_nulls_of_their_fields() {
    let odd = runs(DataType::Int32, DataType::Utf8);
    let map = DataType::Map(field(structure(vec![DataType::Utf8, DataType::Utf8])), false);
    for (data_type, admitted, end) in [
        (structure(vec![DataType::Int8, odd.clone()]), true, Making::Stuck),
        (list(structure(vec![odd.clone()])), true, Making::Stuck),
        (structure(vec![numbered(DataType::Int8, DataType::Boolean)]), true, Making::Stuck),
        (structure(vec![structure(vec![])]), true, Making::Done),
        (list(odd.clone()), true, Making::Done),
        (map.clone(), true, Making::Refused),
        (structure(vec![structure(vec![odd.clone()]), map.clone()]), true, Making::Stuck),
        (structure(vec![odd, map]), true, Making::Refused),
        (union(vec![0], vec![DataType::Utf8]), false, Making::Refused),
    ] {
        assert_eq!(is_admitted(&data_type), admitted, "{data_type:?}");
        assert_eq!(making(&data_type), end, "{data_type:?}");
    }
}

#[test]
fn short_offsets_are_found_inside() {
    assert!(has_short_offsets(&DataType::Binary));
    assert!(has_short_offsets(&list(DataType::Boolean)));
    assert!(!has_short_offsets(&large_list(DataType::Boolean)));
    assert!(has_short_offsets(&large_list(DataType::Utf8)));
    assert!(has_short_offsets(&structure(vec![DataType::Boolean, DataType::Utf8])));
    assert!(!has_short_offsets(&structure(vec![DataType::LargeUtf8])));
    assert!(has_short_offsets(&numbered(DataType::Int8, DataType::Utf8)));
    assert!(!has_short_offsets(&DataType::Int64));
}

#[test]
fn some_dictionaries_are_taken_note_of() {
    assert!(is_internable(&numbered(DataType::Int8, DataType::LargeBinary)));
    assert!(is_internable(&numbered(DataType::UInt16, DataType::Float64)));
    assert!(!is_internable(&numbered(DataType::Float64, DataType::Utf8)));
    assert!(!is_internable(&numbered(DataType::Int8, DataType::FixedSizeBinary(2))));
    assert!(!is_internable(&DataType::Utf8));
    assert!(!is_internable(&numbered(DataType::Int8, DataType::Boolean)));
    assert!(is_restorable(&numbered(DataType::Int8, DataType::Boolean)));
    assert!(!is_restorable(&numbered(DataType::Float64, DataType::Boolean)));
}

#[test]
fn some_types_have_no_columns() {
    let map = |types| DataType::Map(field(structure(types)), false);
    for data_type in [
        map(vec![DataType::Utf8, DataType::Int8]),
        union(vec![0, 5], vec![DataType::Utf8, DataType::Boolean]),
        runs(DataType::Int16, DataType::Utf8),
        runs(DataType::Int64, list(DataType::FixedSizeBinary(-1))),
        numbered(DataType::Int8, DataType::Boolean),
        structure(vec![]),
        DataType::FixedSizeBinary(-1),
    ] {
        assert!(is_in_arrow(&data_type), "{data_type:?}");
    }
    for data_type in [
        map(vec![DataType::Utf8]),
        DataType::Map(field(DataType::Utf8), false),
        union(vec![-1], vec![DataType::Utf8]),
        union(vec![], vec![]),
        runs(DataType::UInt8, DataType::Utf8),
        runs(DataType::Int16, DataType::FixedSizeBinary(-1)),
        numbered(DataType::Float64, DataType::Boolean),
        structure(vec![DataType::Boolean, DataType::Time32(TimeUnit::Nanosecond)]),
        DataType::FixedSizeList(field(DataType::Time64(TimeUnit::Second)), 1),
    ] {
        assert!(!is_in_arrow(&data_type), "{data_type:?}");
    }
}

#[test]
fn some_types_have_no_nulls() {
    assert!(is_null_made(&DataType::FixedSizeList(field(DataType::FixedSizeBinary(3)), 0)));
    assert!(!is_null_made(&DataType::FixedSizeList(field(DataType::Boolean), -2)));
    assert!(is_null_made(&list(DataType::FixedSizeBinary(-1))));
    assert!(!is_null_made(&structure(vec![DataType::Boolean, DataType::FixedSizeBinary(-1)])));
    assert!(!is_null_made(&union(vec![0], vec![DataType::FixedSizeBinary(-1)])));
    assert!(is_null_made(&numbered(DataType::Int8, DataType::Utf8)));
}

#[test]
fn each_data_type_is_of_its_own_kind() {
    let day = DataType::Interval(IntervalUnit::DayTime);
    let stamp = DataType::Timestamp(TimeUnit::Second, None);
    assert!(matches!(kind(&DataType::Null), Kind::Nothing));
    assert!(matches!(kind(&DataType::Boolean), Kind::Boolean));
    assert!(matches!(kind(&DataType::Int8), Kind::Int8));
    assert!(matches!(kind(&DataType::Int16), Kind::Int16));
    assert!(matches!(kind(&DataType::Int32), Kind::Int32));
    assert!(matches!(kind(&DataType::Int64), Kind::Int64));
    assert!(matches!(kind(&DataType::UInt8), Kind::UInt8));
    assert!(matches!(kind(&DataType::UInt16), Kind::UInt16));
    assert!(matches!(kind(&DataType::UInt32), Kind::UInt32));
    assert!(matches!(kind(&DataType::UInt64), Kind::UInt64));
    assert!(matches!(kind(&DataType::Float16), Kind::Float16));
    assert!(matches!(kind(&DataType::Float32), Kind::Float32));
    assert!(matches!(kind(&DataType::Float64), Kind::Float64));
    assert!(matches!(kind(&DataType::Decimal128(5, 2)), Kind::Decimal128));
    assert!(matches!(kind(&DataType::Decimal256(5, 2)), Kind::Decimal256));
    assert!(matches!(kind(&DataType::Date32), Kind::Date32));
    assert!(matches!(kind(&DataType::Date64), Kind::Date64));
    assert!(matches!(kind(&DataType::Time32(TimeUnit::Second)), Kind::Time32Second));
    assert!(matches!(kind(&DataType::Time32(TimeUnit::Millisecond)), Kind::Time32Millisecond));
    assert!(matches!(kind(&DataType::Time32(TimeUnit::Microsecond)), Kind::Time32Microsecond));
    assert!(matches!(kind(&DataType::Time32(TimeUnit::Nanosecond)), Kind::Time32Nanosecond));
    assert!(matches!(kind(&DataType::Time64(TimeUnit::Second)), Kind::Time64Second));
    assert!(matches!(kind(&DataType::Time64(TimeUnit::Millisecond)), Kind::Time64Millisecond));
    assert!(matches!(kind(&DataType::Time64(TimeUnit::Microsecond)), Kind::Time64Microsecond));
    assert!(matches!(kind(&DataType::Time64(TimeUnit::Nanosecond)), Kind::Time64Nanosecond));
    assert!(matches!(kind(&stamp), Kind::Timestamp));
    assert!(matches!(kind(&DataType::Duration(TimeUnit::Second)), Kind::Duration));
    assert!(matches!(kind(&day), Kind::Interval));
    assert!(matches!(kind(&DataType::Binary), Kind::Binary));
    assert!(matches!(kind(&DataType::LargeBinary), Kind::LargeBinary));
    assert!(matches!(kind(&DataType::Utf8), Kind::Utf8));
    assert!(matches!(kind(&DataType::LargeUtf8), Kind::LargeUtf8));
    assert!(matches!(kind(&DataType::FixedSizeBinary(7)), Kind::FixedSizeBinary(7)));
    assert!(matches!(kind(&list(DataType::Utf8)), Kind::List));
    assert!(matches!(kind(&large_list(DataType::Utf8)), Kind::LargeList));
    let four = DataType::FixedSizeList(field(DataType::Utf8), 4);
    assert!(matches!(kind(&four), Kind::FixedSizeList(4)));
    assert!(matches!(kind(&structure(vec![])), Kind::Struct));
    assert!(matches!(kind(&DataType::Map(field(DataType::Utf8), false)), Kind::Entries));
    assert!(matches!(kind(&union(vec![3], vec![DataType::Utf8])), Kind::Union));
    assert!(matches!(kind(&numbered(DataType::Int8, DataType::Utf8)), Kind::Dictionary));
    assert!(matches!(kind(&runs(DataType::Int16, DataType::Utf8)), Kind::RunEndEncoded));
}

#[test]
fn keys_that_cannot_be_counted_are_found() {
    let most = u32::MAX as u64;
    let names: DictionaryArray<Int8Type> = vec!["a", "b", "a"].into_iter().collect();
    let lists = ListArray::new(
        field(names.data_type().clone()),
        OffsetBuffer::from_lengths([2, 1]),
        Arc::new(names.clone()),
        None,
    );
    let names = vec![column(names)];
    assert!(is_encodable(&names, 1, 0, 0));
    assert!(is_encodable(&names, 1, most - 2, u64::MAX));
    assert!(!is_encodable(&names, 1, most - 1, 0));
    assert!(is_encodable(&names, 0, u64::MAX, u64::MAX));
    let lists = vec![column(lists)];
    assert!(is_encodable(&lists, 1, 0, 0));
    // An element is a byte, and a key that can be one byte longer than the longest, with its end.
    assert!(is_encodable(&lists, 1, 0, most - 3));
    assert!(!is_encodable(&lists, 1, 0, most - 2));
    assert!(!is_encodable(&lists, 1, most - 1, 0));
    assert!(is_encodable(&columns(), 2, u64::MAX, u64::MAX));
}

#[test]
fn many_dictionary_values_make_keys_little_longer() {
    let names: Vec<String> = (0..2540).map(|i| format!("name {i}")).collect();
    let values: DictionaryArray<Int16Type> = names.iter().map(|n| n.as_str()).collect();
    let lists = vec![column(ListArray::new(
        field(values.data_type().clone()),
        OffsetBuffer::from_lengths([2540]),
        Arc::new(values),
        None,
    ))];
    let most = u32::MAX as u64;
    assert!(is_encodable(&lists, 1, 0, most - 13));
    assert!(!is_encodable(&lists, 1, 0, most - 12));
}

#[test]
fn empty_batches_are_made_of_all_types_that_arrow_has() {
    let entries = DataType::Struct(Fields::from(vec![
        Field::new("k", DataType::Utf8, false),
        Field::new("v", DataType::Int32, true),
    ]));
    let union = UnionFields::new(vec![0], vec![Field::new("x", DataType::Utf8, true)]);
    let types = vec![
        DataType::Map(Arc::new(Field::new("entries", entries, false)), false),
        DataType::Union(union, UnionMode::Dense),
        DataType::RunEndEncoded(field(DataType::Int16), field(DataType::Utf8)),
        DataType::FixedSizeList(field(DataType::Int8), 3),
        DataType::FixedSizeBinary(-1),
        DataType::Struct(Fields::empty()),
        DataType::Null,
    ];
    let fields: Vec<Field> = types
        .into_iter()
        .enumerate()
        .map(|(i, data_type)| Field::new(format!("c{i}"), data_type, true))
        .collect();
    let batch = Batch::new_empty(&Arc::new(Schema::new(fields))).unwrap();
    assert_eq!(batch.num_rows(), 0);
    assert_eq!(batch.inner.num_columns(), 7);
}

#[test]
fn empty_batches_of_other_types_are_refused() {
    for data_type in [
        DataType::Time32(TimeUnit::Microsecond),
        DataType::Dictionary(Box::new(DataType::Utf8), Box::new(DataType::Utf8)),
        DataType::Union(UnionFields::empty(), UnionMode::Sparse),
        DataType::RunEndEncoded(field(DataType::UInt8), field(DataType::Utf8)),
        DataType::Map(field(DataType::Utf8), false),
    ] {
        let schema = Arc::new(Schema::new(vec![Field::new("k", data_type, true)]));
        assert!(matches!(Batch::new_empty(&schema), Err(AggregateError::InvalidType)));
    }
}
