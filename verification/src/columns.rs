//! Arrow columns and record batches, and what they hold.

use crate::data_type::{all_in_arrow, field_types, is_in_arrow, schema_types, type_tree};
use crate::error::AggregateError;
use arrow::array::{make_array, Array, ArrayRef, AsArray, BooleanArray};
use arrow::compute::cast;
use arrow::compute::kernels::length::length;
use arrow::datatypes::{DataType, Schema, UInt64Type};
use arrow::error::ArrowError;
use arrow::record_batch::RecordBatch;
use std::sync::Arc;
use vstd::prelude::*;

verus! {

/// One value of a column: a null, the bytes of a flat value, or the elements of a list or the
/// fields of a struct. Two values of one data type are equal exactly if they are the same value;
/// floating point numbers are told apart by their bits, dictionary values are taken as what their
/// keys stand for, and the bytes of text are the text itself.
pub enum Value {
    /// A null.
    Nothing,
    /// The bytes of a flat value.
    Bytes(Seq<u8>),
    /// The elements of a list, or the fields of a struct.
    Items(Seq<Value>),
}

/// One row across several columns: a value for each of them.
pub type Row = Seq<Value>;

/// A column of arrow: a data type, and the values.
#[verifier::external_body]
#[derive(Debug)]
pub struct Column {
    /// The column as arrow has it.
    pub array: ArrayRef,
}

/// A column of booleans, as aggregate filters use it.
#[verifier::external_type_specification]
#[verifier::external_body]
pub struct ExBooleanArray(BooleanArray);

/// A record batch of arrow: rows under a schema.
#[verifier::external_body]
#[derive(Debug)]
pub struct Batch {
    /// The batch as arrow has it.
    pub inner: RecordBatch,
}

/// The values of a column, from first to last.
pub uninterp spec fn column_values(column: Column) -> Seq<Value>;

/// The data type of a column.
pub uninterp spec fn column_type(column: Column) -> DataType;

/// Which fields of a schema may hold nulls.
pub uninterp spec fn schema_nullable(schema: Schema) -> Seq<bool>;

/// The rows of a record batch, from first to last.
pub uninterp spec fn batch_rows(batch: Batch) -> Seq<Row>;

/// The schema that a record batch carries.
pub uninterp spec fn batch_schema(batch: Batch) -> Schema;

/// Whether all columns have the same number of values.
pub open spec fn same_length(columns: Seq<Column>) -> bool {
    forall|i: int, j: int|
        #![trigger column_values(columns[i]), column_values(columns[j])]
        0 <= i < columns.len() && 0 <= j < columns.len() ==> column_values(columns[i]).len()
            == column_values(columns[j]).len()
}

/// The number of rows that the columns make up.
pub open spec fn row_count(columns: Seq<Column>) -> nat {
    if columns.len() == 0 {
        0
    } else {
        column_values(columns[0]).len()
    }
}

/// The row at position `i` of the columns.
pub open spec fn column_row(columns: Seq<Column>, i: int) -> Row {
    Seq::new(columns.len(), |j: int| column_values(columns[j])[i])
}

/// The rows that the columns make up.
pub open spec fn column_rows(columns: Seq<Column>) -> Seq<Row> {
    Seq::new(row_count(columns), |i: int| column_row(columns, i))
}

/// The number of bytes that a flat value has.
pub open spec fn value_len(value: Value) -> nat {
    match value {
        Value::Bytes(bytes) => bytes.len(),
        _ => 0,
    }
}

/// Whether the columns have the shape of the schema: as many as it has fields and at least one,
/// of the same length, and of the data types that the fields name.
pub open spec fn matches_schema(schema: Schema, columns: Seq<Column>) -> bool {
    &&& 0 < columns.len() == schema_types(schema).len()
    &&& same_length(columns)
    &&& forall|j: int|
        0 <= j < columns.len() ==> column_type(#[trigger] columns[j]) == schema_types(schema)[j]
}

/// Whether nulls occur only in columns that the schema declares nullable.
pub open spec fn nulls_allowed(schema: Schema, columns: Seq<Column>) -> bool {
    forall|i: int, j: int|
        0 <= j < columns.len() && 0 <= i < column_values(columns[j]).len()
            && !schema_nullable(schema)[j] ==> !(#[trigger] column_values(columns[j])[i] is Nothing)
}

/// The values array of a list column, whatever part of it the lists use.
pub uninterp spec fn list_child(column: Column) -> Column;

/// Where in the values array the elements of each list begin, and where those of the last end.
pub uninterp spec fn list_starts(column: Column) -> Seq<usize>;

/// The column of a field of a struct column.
pub uninterp spec fn struct_child(column: Column, field: int) -> Column;

/// The values array of a dictionary column, whatever part of it the keys use.
pub uninterp spec fn dictionary_child(column: Column) -> Column;

/// Whether the data type is a list.
pub open spec fn is_list(data_type: DataType) -> bool {
    &&& type_tree(data_type).kind is List || type_tree(data_type).kind is LargeList
    &&& type_tree(data_type).children.len() == 1
}

/// `Array::len`: the number of values in the column.
#[verifier::external_body]
pub(crate) fn column_len(column: &Column) -> (n: usize)
    ensures
        n == column_values(*column).len(),
{
    column.array.len()
}

/// `Array::data_type`: the data type of the column.
#[verifier::external_body]
pub(crate) fn data_type(column: &Column) -> (data_type: DataType)
    ensures
        data_type == column_type(*column),
{
    column.array.data_type().clone()
}

/// `Array::slice`: the `length` values from `offset` on.
#[verifier::external_body]
pub(crate) fn column_slice(column: &Column, offset: usize, length: usize) -> (part: Column)
    requires
        offset + length <= column_values(*column).len(),
    ensures
        column_values(part) == column_values(*column).subrange(offset as int, offset + length),
        column_type(part) == column_type(*column),
{
    Column { array: column.array.slice(offset, length) }
}

/// `Array::is_null`, of a list, a struct or text: whether the value is a null.
#[verifier::external_body]
pub(crate) fn is_null(column: &Column, i: usize) -> (b: bool)
    requires
        i < column_values(*column).len(),
        is_list(column_type(*column)) || type_tree(column_type(*column)).kind is Struct
            || type_tree(column_type(*column)).text(),
    ensures
        b == (column_values(*column)[i as int] is Nothing),
{
    column.array.is_null(i)
}

/// `GenericListArray::values`: the values array, of the type of the elements.
#[verifier::external_body]
pub(crate) fn list_values(column: &Column) -> (child: Column)
    requires
        is_list(column_type(*column)),
    ensures
        child == list_child(*column),
        type_tree(column_type(child)) == type_tree(column_type(*column)).children[0],
{
    match column.array.as_list_opt::<i32>() {
        Some(lists) => Column { array: lists.values().clone() },
        None => Column { array: column.array.as_list::<i64>().values().clone() },
    }
}

/// `GenericListArray::value_offsets`: where the elements of each list stand in the values array.
#[verifier::external_body]
pub(crate) fn list_offsets(column: &Column) -> (starts: Vec<usize>)
    requires
        is_list(column_type(*column)),
    ensures
        starts@ == list_starts(*column),
        starts@.len() == column_values(*column).len() + 1,
        forall|i: int|
            0 <= i < column_values(*column).len() ==> (#[trigger] starts@[i]) <= starts@[i + 1]
                <= column_values(list_child(*column)).len(),
        forall|i: int|
            0 <= i < column_values(*column).len() ==> match #[trigger] column_values(*column)[i] {
                Value::Nothing => true,
                Value::Bytes(_) => false,
                Value::Items(items) => items == column_values(list_child(*column)).subrange(
                    starts@[i] as int,
                    starts@[i + 1] as int,
                ),
            },
{
    match column.array.as_list_opt::<i32>() {
        Some(lists) => lists.value_offsets().iter().map(|o| *o as usize).collect(),
        None => column.array.as_list::<i64>().value_offsets().iter().map(|o| *o as usize).collect(),
    }
}

/// `StructArray::columns`: a column for each field, with a value for each struct.
#[verifier::external_body]
pub(crate) fn struct_columns(column: &Column) -> (fields: Vec<Column>)
    requires
        type_tree(column_type(*column)).kind is Struct,
    ensures
        fields@.len() == type_tree(column_type(*column)).children.len(),
        forall|k: int|
            0 <= k < fields@.len() ==> #[trigger] fields@[k] == struct_child(*column, k)
                && column_values(fields@[k]).len() >= column_values(*column).len() && type_tree(
                column_type(fields@[k]),
            ) == type_tree(column_type(*column)).children[k],
        forall|i: int|
            0 <= i < column_values(*column).len() ==> match #[trigger] column_values(*column)[i] {
                Value::Nothing => true,
                Value::Bytes(_) => false,
                Value::Items(items) => items == Seq::new(
                    fields@.len(),
                    |k: int| column_values(fields@[k])[i],
                ),
            },
{
    column.array.as_struct().columns().iter().map(|c| Column { array: c.clone() }).collect()
}

/// `ArrayData::child_data`, of a dictionary column: its values array.
#[verifier::external_body]
pub(crate) fn dictionary_array(column: &Column) -> (child: Column)
    requires
        type_tree(column_type(*column)).kind is Dictionary,
    ensures
        child == dictionary_child(*column),
        type_tree(column_type(child)) == type_tree(column_type(*column)).children[1],
{
    Column { array: make_array(column.array.to_data().child_data()[0].clone()) }
}

/// `ArrayDataBuilder::build`, of the data of a dictionary column without its values, and the `cast`
/// kernel: the keys as numbers, that is, which of the values each of them stands for, and nothing
/// for a null.
#[verifier::external_body]
pub(crate) fn dictionary_keys(column: &Column, keys: &DataType) -> (numbers: Result<
    Vec<Option<usize>>,
    ArrowError,
>)
    requires
        type_tree(column_type(*column)).internable(),
        type_tree(*keys) == type_tree(column_type(*column)).children[0],
    ensures
        numbers matches Ok(n) && n@.len() == column_values(*column).len() && forall|i: int|
            0 <= i < n@.len() ==> match #[trigger] n@[i] {
                None => column_values(*column)[i] is Nothing,
                Some(k) => k < column_values(dictionary_child(*column)).len() && column_values(
                    *column,
                )[i] == column_values(dictionary_child(*column))[k as int],
            },
{
    let data = column.array.to_data().into_builder();
    let keys = make_array(data.data_type(keys.clone()).child_data(vec![]).build()?);
    let numbers = cast(&keys, &DataType::UInt64)?;
    Ok(numbers.as_primitive::<UInt64Type>().iter().map(|k| k.map(|k| k as usize)).collect())
}

/// The `length` kernel: the number of bytes of each value of a column of text, and of a null none.
#[verifier::external_body]
pub(crate) fn text_lengths(column: &Column) -> (lengths: Result<Vec<usize>, ArrowError>)
    requires
        type_tree(column_type(*column)).text(),
    ensures
        lengths matches Ok(n) && n@.len() == column_values(*column).len() && forall|i: int|
            0 <= i < n@.len() ==> #[trigger] n@[i] == value_len(column_values(*column)[i])
                && !(column_values(*column)[i] is Items),
{
    let lengths = cast(&length(column.array.as_ref())?, &DataType::UInt64)?;
    Ok(lengths.as_primitive::<UInt64Type>().iter().map(|n| n.unwrap_or(0) as usize).collect())
}

/// `Schema::project`: the schema of the fields at the given positions, which fails exactly where
/// one of them is past the last field.
#[verifier::external_body]
fn project(schema: &Schema, indices: &Vec<usize>) -> (projected: Result<Schema, ArrowError>)
    ensures
        projected is Ok ==> schema_nullable(*schema).len() == schema_types(*schema).len(),
        projected is Ok <==> forall|k: int|
            0 <= k < indices@.len() ==> (#[trigger] indices@[k]) < schema_types(*schema).len(),
        projected matches Ok(s) ==> schema_types(s) == indices@.map_values(
            |i: usize| schema_types(*schema)[i as int],
        ),
        projected matches Ok(s) ==> schema_nullable(s) == indices@.map_values(
            |i: usize| schema_nullable(*schema)[i as int],
        ),
{
    schema.project(indices)
}

/// `RecordBatch::num_rows`: the number of rows in the batch.
#[verifier::external_body]
fn batch_num_rows(batch: &Batch) -> (n: usize)
    ensures
        n == batch_rows(*batch).len(),
{
    batch.inner.num_rows()
}

/// `RecordBatch::slice`: the `length` rows from `offset` on, under the same schema.
#[verifier::external_body]
fn batch_slice(batch: &Batch, offset: usize, length: usize) -> (part: Batch)
    requires
        offset + length <= batch_rows(*batch).len(),
    ensures
        batch_rows(part) == batch_rows(*batch).subrange(offset as int, offset + length),
        batch_schema(part) == batch_schema(*batch),
{
    Batch { inner: batch.inner.slice(offset, length) }
}

/// `RecordBatch::new_empty`: a batch without rows.
#[verifier::external_body]
fn batch_new_empty(schema: &Arc<Schema>) -> (batch: Batch)
    requires
        all_in_arrow(schema_types(**schema)),
    ensures
        batch_rows(batch) == Seq::<Row>::empty(),
        batch_schema(batch) == **schema,
{
    Batch { inner: RecordBatch::new_empty(schema.clone()) }
}

/// `RecordBatch::try_new`: the batch of the given columns. It fails where the columns do not have
/// the shape of the schema, and succeeds where they do and no null stands in a column declared
/// without nulls. What arrow counts as a null where the column is of the null type, or where a
/// dictionary holds a null among its values, is left open.
#[verifier::external_body]
fn batch_try_new(schema: &Arc<Schema>, columns: &Vec<Column>) -> (batch: Result<
    Batch,
    ArrowError,
>)
    ensures
        batch is Ok ==> matches_schema(**schema, columns@),
        matches_schema(**schema, columns@) && nulls_allowed(**schema, columns@) ==> batch is Ok,
        batch matches Ok(b) ==> batch_rows(b) == column_rows(columns@) && batch_schema(b)
            == **schema,
{
    let arrays: Vec<ArrayRef> = columns.iter().map(|c| c.array.clone()).collect();
    Ok(Batch { inner: RecordBatch::try_new(schema.clone(), arrays)? })
}

impl Batch {
    /// The batch of the given columns.
    pub fn try_new(schema: &Arc<Schema>, columns: &Vec<Column>) -> (batch: Result<
        Batch,
        ArrowError,
    >)
        ensures
            batch is Ok ==> matches_schema(**schema, columns@),
            matches_schema(**schema, columns@) && nulls_allowed(**schema, columns@) ==> batch is Ok,
            batch matches Ok(b) ==> batch_rows(b) == column_rows(columns@) && batch_schema(b)
                == **schema,
    {
        batch_try_new(schema, columns)
    }

    /// A batch without rows. Fails where arrow has no columns of a type of the schema.
    pub fn new_empty(schema: &Arc<Schema>) -> (batch: Result<Batch, AggregateError>)
        ensures
            match batch {
                Ok(b) => all_in_arrow(schema_types(**schema)) && batch_rows(b) == Seq::<
                    Row,
                >::empty() && batch_schema(b) == **schema,
                Err(e) => e is InvalidType && !all_in_arrow(schema_types(**schema)),
            },
    {
        let types = field_types(schema);
        let mut j: usize = 0;
        while j < types.len()
            invariant
                j <= types@.len(),
                types@ == schema_types(**schema),
                forall|k: int| 0 <= k < j ==> type_tree(#[trigger] types@[k]).in_arrow(),
            decreases types@.len() - j,
        {
            if !is_in_arrow(&types[j]) {
                assert(!type_tree(types@[j as int]).in_arrow());
                return Err(AggregateError::InvalidType);
            }
            j += 1;
        }
        Ok(batch_new_empty(schema))
    }

    /// The number of rows.
    pub fn num_rows(&self) -> (n: usize)
        ensures
            n == batch_rows(*self).len(),
    {
        batch_num_rows(self)
    }

    /// The `length` rows from `offset` on.
    pub fn slice(&self, offset: usize, length: usize) -> (part: Batch)
        requires
            offset + length <= batch_rows(*self).len(),
        ensures
            batch_rows(part) == batch_rows(*self).subrange(offset as int, offset + length),
            batch_schema(part) == batch_schema(*self),
    {
        batch_slice(self, offset, length)
    }
}

/// Whether all columns have the same number of values.
pub fn equal_lengths(columns: &Vec<Column>) -> (b: bool)
    ensures
        b == same_length(columns@),
{
    let mut i: usize = 1;
    while i < columns.len()
        invariant
            forall|k: int|
                0 <= k < i && k < columns.len() ==> (#[trigger] column_values(columns@[k])).len()
                    == column_values(columns@[0]).len(),
        decreases columns.len() - i,
    {
        if column_len(&columns[i]) != column_len(&columns[0]) {
            return false;
        }
        i += 1;
    }
    true
}

/// The schema of the first `n` fields: those that an aggregation groups by stand first in its
/// output. Fails where the schema has fewer fields.
pub fn group_schema(schema: &Schema, n: usize) -> (group: Result<Schema, ArrowError>)
    ensures
        group is Ok <==> n <= schema_types(*schema).len(),
        group matches Ok(s) ==> schema_types(s) == schema_types(*schema).take(n as int)
            && schema_nullable(s) == schema_nullable(*schema).take(n as int),
{
    let fields = field_types(schema).len();
    if n > fields {
        let mut past: Vec<usize> = Vec::new();
        past.push(fields);
        let group = project(schema, &past);
        assert(past@[0] >= schema_types(*schema).len());
        return group;
    }
    let mut indices: Vec<usize> = Vec::new();
    let mut i: usize = 0;
    while i < n
        invariant
            i <= n,
            indices@.len() == i,
            forall|k: int| 0 <= k < i ==> indices@[k] == k,
        decreases n - i,
    {
        indices.push(i);
        i += 1;
    }
    let group = project(schema, &indices);
    assert(group matches Ok(s) ==> schema_types(s) =~= schema_types(*schema).take(n as int));
    assert(group matches Ok(s) ==> schema_nullable(s) =~= schema_nullable(*schema).take(n as int));
    group
}

} // verus!
