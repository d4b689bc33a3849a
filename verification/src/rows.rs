//! The row format of arrow: rows written as bytes, so that they can be compared, hashed and
//! stored one by one.

use crate::columns::{column_rows, column_type, same_length, Column, Row};
use crate::data_type::{type_tree, Making};
use crate::encoding::{all_written, encodable, longest_after, new_values, Noted};
use crate::error::AggregateError;
use crate::limits::{rows_crowded, rows_fit, rows_numbered, rows_within};
use crate::table::MAX_GROUPS;
use ahash::RandomState;
use arrow::array::ArrayRef;
use arrow::datatypes::DataType;
use arrow::error::ArrowError;
use arrow::row::{RowConverter, Rows, SortField};
use vstd::prelude::*;

verus! {

/// Turns columns into rows and back.
#[verifier::external_type_specification]
#[verifier::external_body]
pub struct ExRowConverter(RowConverter);

/// A sequence of rows in row format.
#[verifier::external_type_specification]
#[verifier::external_body]
pub struct ExRows(Rows);

/// The keys of a hash function.
#[verifier::external_type_specification]
#[verifier::external_body]
pub struct ExRandomState(RandomState);

/// The rows that a row store holds, in order, each as the values that it encodes.
pub uninterp spec fn stored_rows(rows: Rows) -> Seq<Row>;

/// The converter that the rows of a store belong to.
pub uninterp spec fn rows_origin(rows: Rows) -> nat;

/// The number of bytes that a row of the given converter takes up.
pub uninterp spec fn row_len(origin: nat, row: Row) -> nat;

/// What tells one converter from another.
pub uninterp spec fn converter_origin(converter: RowConverter) -> nat;

/// The data types that a converter was made for, a column each.
pub uninterp spec fn converter_types(converter: RowConverter) -> Seq<DataType>;

/// The number of dictionary values that a converter has taken note of.
pub uninterp spec fn interned_count(converter: RowConverter) -> nat;

/// The number of bytes of the longest dictionary key of a converter, but for the one that ends it.
pub uninterp spec fn longest_key(converter: RowConverter) -> nat;

/// `DataType::equals_datatype`: whether two data types are the same but for the names and the
/// metadata of the fields inside of them.
pub uninterp spec fn equal_types(left: DataType, right: DataType) -> bool;

/// The hash of a row of the given converter under the given keys.
pub uninterp spec fn row_hash(keys: RandomState, origin: nat, row: Row) -> u64;

/// How it ends to make what encodes the first types, one after the other.
pub open spec fn codecs_making(types: Seq<DataType>, made: int) -> Making
    decreases made,
{
    if made <= 0 {
        Making::Done
    } else {
        match codecs_making(types, made - 1) {
            Making::Done => type_tree(types[made - 1]).making(),
            other => other,
        }
    }
}

/// How it ends to make a converter for the types: all of them must be admitted before any of them
/// is looked at more closely.
pub open spec fn converter_making(types: Seq<DataType>) -> Making {
    if forall|j: int| 0 <= j < types.len() ==> type_tree(#[trigger] types[j]).admitted() {
        codecs_making(types, types.len() as int)
    } else {
        Making::Refused
    }
}

/// Whether the row format turns no rows into empty columns of the types.
pub open spec fn all_readable(types: Seq<DataType>) -> bool {
    forall|j: int| 0 <= j < types.len() ==> type_tree(#[trigger] types[j]).readable()
}

/// Whether every type is one that the row format writes.
pub open spec fn all_writable(types: Seq<DataType>) -> bool {
    forall|j: int| 0 <= j < types.len() ==> type_tree(#[trigger] types[j]).writable()
}

/// Whether the row alone can be turned into columns of the types.
pub open spec fn row_decodes(types: Seq<DataType>, row: Row) -> bool {
    rows_fit(types, seq![row]) && rows_numbered(types, seq![row])
}

/// Whether the rows cannot be turned into columns of the types for the given reason: the row
/// format has no columns of one of the types, or there is more than 32-bit offsets can address, or
/// a dictionary has more values than its keys can number. On a machine where a store holds fewer
/// groups than 32-bit offsets address bytes, it may not be possible to tell of a dictionary with
/// more values than that.
pub open spec fn columns_fail(types: Seq<DataType>, rows: Seq<Row>, error: AggregateError) -> bool {
    ||| error is UnsupportedKeyType && !all_readable(types)
    ||| error is OffsetOverflow && all_readable(types) && !rows_fit(types, rows)
    ||| error is Arrow && all_readable(types) && rows_fit(types, rows) && !rows_numbered(
        types,
        rows,
    )
    ||| error is TooManyGroups && all_readable(types) && rows_crowded(types, rows) && MAX_GROUPS
        <= i32::MAX + 1
}

/// Whether the rows can be turned into columns of the types.
pub open spec fn columns_made(types: Seq<DataType>, rows: Seq<Row>) -> bool {
    all_readable(types) && rows_fit(types, rows) && rows_numbered(types, rows)
}

/// The bytes that rows of the given converter take up.
pub open spec fn rows_len(lengths: Seq<nat>) -> nat
    decreases lengths.len(),
{
    if lengths.len() == 0 {
        0
    } else {
        rows_len(lengths.drop_last()) + lengths.last()
    }
}

/// Whether the columns are those that a converter for the given types takes.
pub open spec fn columns_fit(types: Seq<DataType>, columns: Seq<Column>) -> bool {
    &&& columns.len() == types.len()
    &&& forall|j: int|
        0 <= j < columns.len() ==> equal_types(column_type(#[trigger] columns[j]), types[j])
}

/// How many of the first `n` columns are of the types, up to the first that is not.
pub open spec fn fit_count(types: Seq<DataType>, columns: Seq<Column>, n: nat) -> nat
    decreases n,
{
    if n == 0 {
        0
    } else {
        let before = fit_count(types, columns, (n - 1) as nat);
        if before == n - 1 && equal_types(column_type(columns[n - 1]), types[n - 1]) {
            n
        } else {
            before
        }
    }
}

/// The columns that a converter for the types looks into: those up to the first that is not of its
/// type, and none where there are more or fewer columns than types.
pub open spec fn leading(types: Seq<DataType>, columns: Seq<Column>) -> Seq<Column> {
    if columns.len() == types.len() {
        columns.take(fit_count(types, columns, columns.len()) as int)
    } else {
        Seq::empty()
    }
}

/// Where all columns are of the types, all of them are looked into.
pub proof fn lemma_leading(types: Seq<DataType>, columns: Seq<Column>)
    requires
        columns_fit(types, columns),
    ensures
        leading(types, columns) == columns,
{
    lemma_fit_count(types, columns, columns.len());
    assert(columns.take(columns.len() as int) =~= columns);
}

/// Where all columns are of the types, so are the first.
proof fn lemma_fit_count(types: Seq<DataType>, columns: Seq<Column>, n: nat)
    requires
        columns_fit(types, columns),
        n <= columns.len(),
    ensures
        fit_count(types, columns, n) == n,
    decreases n,
{
    if n > 0 {
        lemma_fit_count(types, columns, (n - 1) as nat);
        assert(equal_types(column_type(columns[n - 1]), types[n - 1]));
    }
}

/// The row at position `i` of a store.
pub open spec fn row_at(rows: &Rows, i: usize) -> Row {
    stored_rows(*rows)[i as int]
}

/// Whether there are rows at the two positions, and they belong to one converter.
pub open spec fn comparable(left: &Rows, i: usize, right: &Rows, j: usize) -> bool {
    &&& i < stored_rows(*left).len()
    &&& j < stored_rows(*right).len()
    &&& rows_origin(*left) == rows_origin(*right)
}

/// `DataType::equals_datatype`: whether two data types are the same but for the names and the
/// metadata of the fields inside of them. Text without anything more to it is the same type.
#[verifier::external_body]
pub(crate) fn same_type(left: &DataType, right: &DataType) -> (b: bool)
    ensures
        b == equal_types(*left, *right),
        type_tree(*left).kind is Utf8 && type_tree(*right).kind is Utf8 ==> b,
{
    left.equals_datatype(right)
}

/// `RowConverter::new`: a converter for columns of the given types, each sorted in the default
/// order, which fails exactly where one of the types is refused, and has taken note of no
/// dictionary values. It must not get stuck over a field of a struct whose nulls have no encoding.
#[verifier::external_body]
pub(crate) fn new_converter(types: &Vec<DataType>) -> (converter: Result<RowConverter, ArrowError>)
    requires
        !(converter_making(types@) is Stuck),
    ensures
        converter is Ok <==> converter_making(types@) is Done,
        converter matches Ok(c) ==> converter_types(c) == types@ && interned_count(c) == 0
            && longest_key(c) == 0,
{
    RowConverter::new(types.iter().map(|t| SortField::new(t.clone())).collect())
}

/// `RowConverter::convert_columns`: the rows that the columns make up, which fails exactly where
/// the columns are not of the types of the converter. As what the columns hold is addressed by
/// their offsets and numbered by their keys, so can each row be turned into columns again. The
/// converter may take note of the dictionary values, and is otherwise what it was. The row format
/// counts the elements of a list, the bytes of an element and the dictionary values in 32 bits, so
/// there must be no more of them, and it does not write structs without fields unless they are
/// nulls. Of the columns after one that is not of its type nothing is asked.
#[verifier::external_body]
pub(crate) fn to_rows(converter: &mut RowConverter, columns: &Vec<Column>) -> (rows: Result<
    Rows,
    ArrowError,
>)
    requires
        same_length(columns@),
        all_writable(converter_types(*old(converter))),
        all_written(leading(converter_types(*old(converter)), columns@)),
        encodable(
            leading(converter_types(*old(converter)), columns@),
            (Noted {
                values: interned_count(*old(converter)),
                longest: longest_key(*old(converter)),
            }),
        ),
    ensures
        rows is Ok <==> columns@.len() == converter_types(*old(converter)).len() && forall|j: int|
            0 <= j < columns@.len() ==> equal_types(
                column_type(#[trigger] columns@[j]),
                converter_types(*old(converter))[j],
            ),
        rows matches Ok(r) ==> stored_rows(r) == column_rows(columns@) && rows_origin(r)
            == converter_origin(*old(converter)),
        rows matches Ok(r) ==> forall|i: int|
            0 <= i < stored_rows(r).len() ==> row_decodes(
                converter_types(*old(converter)),
                #[trigger] stored_rows(r)[i],
            ),
        converter_types(*final(converter)) == converter_types(*old(converter)),
        converter_origin(*final(converter)) == converter_origin(*old(converter)),
        interned_count(*final(converter)) <= interned_count(*old(converter)) + new_values(
            leading(converter_types(*old(converter)), columns@),
        ),
        longest_key(*final(converter)) <= longest_after(
            longest_key(*old(converter)),
            new_values(leading(converter_types(*old(converter)), columns@)),
        ),
{
    let arrays: Vec<ArrayRef> = columns.iter().map(|c| c.array.clone()).collect();
    converter.convert_columns(&arrays)
}

/// `RowConverter::convert_rows`: the columns that the rows make up, of the types of the converter.
/// It fails exactly where the keys of a dictionary cannot number its distinct values. All that
/// 32-bit offsets have to address, they must be able to.
#[verifier::external_body]
pub(crate) fn to_columns(converter: &RowConverter, rows: &Rows) -> (columns: Result<
    Vec<Column>,
    ArrowError,
>)
    requires
        rows_origin(*rows) == converter_origin(*converter),
        all_readable(converter_types(*converter)),
        stored_rows(*rows).len() > 0 ==> all_writable(converter_types(*converter)),
        rows_fit(converter_types(*converter), stored_rows(*rows)),
    ensures
        columns is Ok <==> rows_numbered(converter_types(*converter), stored_rows(*rows)),
        columns matches Ok(c) ==> {
            &&& same_length(c@)
            &&& column_rows(c@) == stored_rows(*rows)
            &&& c@.len() == converter_types(*converter).len()
            &&& forall|j: int|
                0 <= j < c@.len() ==> column_type(#[trigger] c@[j]) == converter_types(*converter)[j]
        },
{
    Ok(converter.convert_rows(rows)?.into_iter().map(|array| Column { array }).collect())
}

/// `RowConverter::empty_rows`: a store without rows, for rows of the converter.
#[verifier::external_body]
pub(crate) fn empty_rows(converter: &RowConverter) -> (rows: Rows)
    ensures
        stored_rows(rows) == Seq::<Row>::empty(),
        rows_origin(rows) == converter_origin(*converter),
{
    converter.empty_rows(0, 0)
}

/// `Rows::num_rows`: the number of rows in the store.
#[verifier::external_body]
pub(crate) fn num_rows(rows: &Rows) -> (n: usize)
    ensures
        n == stored_rows(*rows).len(),
{
    rows.num_rows()
}

/// `Rows::push`: appends the row at position `i` of `from`, which must belong to the same
/// converter.
#[verifier::external_body]
pub(crate) fn push_row(rows: &mut Rows, from: &Rows, i: usize)
    requires
        i < stored_rows(*from).len(),
        rows_origin(*from) == rows_origin(*old(rows)),
    ensures
        stored_rows(*final(rows)) == stored_rows(*old(rows)).push(stored_rows(*from)[i as int]),
        rows_origin(*final(rows)) == rows_origin(*old(rows)),
{
    rows.push(from.row(i))
}

/// `Row::eq`: whether two rows of one converter are equal, which they are exactly if all their
/// values are.
#[verifier::external_body]
pub(crate) fn same_row(left: &Rows, i: usize, right: &Rows, j: usize) -> (b: bool)
    requires
        comparable(left, i, right, j),
    ensures
        b == (row_at(left, i) == row_at(right, j)),
{
    left.row(i) == right.row(j)
}

/// `RandomState::hash_one`: the hash of a row. Under the same keys, equal rows of one converter
/// have equal hashes; nothing is said of what a hash is.
#[verifier::external_body]
pub(crate) fn hash_row(keys: &RandomState, rows: &Rows, i: usize) -> (hash: u64)
    requires
        i < stored_rows(*rows).len(),
    ensures
        hash == row_hash(*keys, rows_origin(*rows), stored_rows(*rows)[i as int]),
{
    keys.hash_one(rows.row(i))
}

/// `RandomState::default`: fresh random keys.
#[verifier::external_body]
pub(crate) fn new_keys() -> (keys: RandomState) {
    RandomState::default()
}

/// `Rows::size`: the memory that the store takes up: the store itself, the bytes of its rows, and
/// where each row starts.
#[verifier::external_body]
pub(crate) fn rows_size(rows: &Rows) -> (n: usize)
    ensures
        n == vstd::layout::size_of::<Rows>() + rows_len(
            stored_rows(*rows).map_values(|row: Row| row_len(rows_origin(*rows), row)),
        ) + (stored_rows(*rows).len() + 1) * vstd::layout::size_of::<usize>(),
{
    rows.size()
}

/// `RowConverter::size`: the memory that the converter takes up. For each dictionary value that it
/// has taken note of it holds 16 bytes, the key and the value itself, so that no text, list or
/// dictionary among the rows has more bytes or elements than the rows and the converter together.
#[allow(unused_variables)]
#[verifier::external_body]
pub(crate) fn converter_size(converter: &RowConverter, rows: &Rows) -> (n: usize)
    requires
        rows_origin(*rows) == converter_origin(*converter),
    ensures
        n >= 16 * interned_count(*converter),
        n >= longest_key(*converter),
        rows_within(
            converter_types(*converter),
            stored_rows(*rows),
            n + rows_len(
                stored_rows(*rows).map_values(|row: Row| row_len(rows_origin(*rows), row)),
            ),
        ),
{
    converter.size()
}

/// A store of the rows from position `from` up to position `to`.
pub(crate) fn copy_rows(converter: &RowConverter, rows: &Rows, from: usize, to: usize) -> (part: Rows)
    requires
        from <= to <= stored_rows(*rows).len(),
        rows_origin(*rows) == converter_origin(*converter),
    ensures
        stored_rows(part) == stored_rows(*rows).subrange(from as int, to as int),
        rows_origin(part) == converter_origin(*converter),
{
    let mut part = empty_rows(converter);
    let mut i: usize = from;
    while i < to
        invariant
            from <= i <= to <= stored_rows(*rows).len(),
            rows_origin(*rows) == converter_origin(*converter),
            rows_origin(part) == converter_origin(*converter),
            stored_rows(part) == stored_rows(*rows).subrange(from as int, i as int),
        decreases to - i,
    {
        push_row(&mut part, rows, i);
        assert(stored_rows(*rows).subrange(from as int, i + 1) =~= stored_rows(*rows).subrange(
            from as int,
            i as int,
        ).push(stored_rows(*rows)[i as int]));
        i += 1;
    }
    part
}

} // verus!
