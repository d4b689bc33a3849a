//! What the store of group keys does with the rows that it is given, and which it turns down.

use crate::columns::{
    column_row, column_rows, column_type, column_values, struct_child, Column, Row, Value,
};
use crate::data_type::{lemma_child_smaller, schema_types, type_tree, Kind, TypeTree};
use crate::encoding::{law_flat_keys_encodable, structs_written, Noted};
use crate::error::AggregateError;
use crate::group_values::{
    intern_fails, internable, store_fails, GroupValues, GroupValuesRows,
};
use crate::grouping::{
    law_index_names_row, law_no_other_groups, lemma_with_rows, with_rows, EmitTo,
};
use crate::kinds::{common, law_common_types, law_plain_types, law_store_for_common_types, plain};
use crate::limits::{
    column_of, crowded, field_values, fits, numbered, rows_within, total_bytes,
};
use crate::rows::{columns_fail, columns_made, equal_types, fit_count, leading};
use crate::table::MAX_GROUPS;
use arrow::datatypes::{DataType, Schema};
use arrow::error::ArrowError;
use vstd::prelude::*;

verus! {

/// Whether the type is flat: a plain one, bytes of a fixed number, or a struct of such fields.
pub open spec fn flat(tree: TypeTree) -> bool
    decreases tree,
{
    match tree.kind {
        Kind::Struct => tree.children.len() > 0 && forall|i: int|
            0 <= i < tree.children.len() ==> flat(#[trigger] tree.children[i]),
        Kind::FixedSizeBinary(size) => size >= 0 && tree.children.len() == 0,
        kind => plain(kind) && tree.children.len() == 0,
    }
}

/// Flat types are among those in common use; they hold no lists and no dictionaries, and all their
/// values are written.
pub proof fn law_flat_types(tree: TypeTree, column: Column)
    requires
        flat(tree),
    ensures
        common(tree),
        tree.writable(),
        tree.readable(),
        !tree.counted(),
        structs_written(tree, column),
    decreases tree,
{
    if tree.kind is Struct {
        assert forall|i: int| 0 <= i < tree.children.len() implies {
            &&& common(#[trigger] tree.children[i])
            &&& !tree.children[i].counted()
            &&& structs_written(
                tree.children[i],
                struct_child(column, i),
            )
        } by {
            lemma_child_smaller(tree, i);
            law_flat_types(tree.children[i], struct_child(column, i));
        }
    }
    law_common_types(tree);
}

/// Whether two of the columns differ in length.
pub open spec fn lengths_differ(columns: Seq<Column>) -> bool {
    exists|i: int, j: int|
        0 <= i < columns.len() && 0 <= j < columns.len() && #[trigger] column_values(
            columns[i],
        ).len() != #[trigger] column_values(columns[j]).len()
}

/// Whether the columns are as many as the types, and each is of its type.
pub open spec fn of_types(types: Seq<DataType>, columns: Seq<Column>) -> bool {
    &&& columns.len() == types.len()
    &&& forall|j: int|
        0 <= j < columns.len() ==> equal_types(column_type(#[trigger] columns[j]), types[j])
}

/// Group keys of flat types are turned down only where the columns differ in length, are not of the
/// types of the store, or could bring more groups than the address space has room for.
pub proof fn law_flat_keys_taken(
    types: Seq<DataType>,
    groups: Seq<Row>,
    noted: Noted,
    columns: Seq<Column>,
    error: AggregateError,
)
    requires
        intern_fails(types, groups, noted, columns, error),
        groups.no_duplicates(),
        forall|j: int| 0 <= j < types.len() ==> flat(type_tree(#[trigger] types[j])),
        forall|j: int|
            0 <= j < columns.len() ==> flat(type_tree(column_type(#[trigger] columns[j]))),
    ensures
        lengths_differ(columns) ==> error is ColumnLengths,
        !lengths_differ(columns) && !of_types(types, columns) ==> error is Arrow,
        !lengths_differ(columns) && of_types(types, columns) ==> {
            &&& error is TooManyGroups
            &&& (groups.len() + column_rows(columns).len()) * 161 > usize::MAX - 161
        },
{
    let lead = leading(types, columns);
    assert forall|j: int| 0 <= j < types.len() implies type_tree(
        #[trigger] types[j],
    ).writable() by {
        law_flat_types(type_tree(types[j]), arbitrary());
    }
    assert forall|j: int| 0 <= j < lead.len() implies {
        &&& structs_written(type_tree(column_type(#[trigger] lead[j])), lead[j])
        &&& !type_tree(column_type(lead[j])).counted()
    } by {
        lemma_leading_part(types, columns, columns.len());
        assert(lead[j] == columns[j]);
        law_flat_types(type_tree(column_type(columns[j])), columns[j]);
    }
    law_flat_keys_encodable(lead, noted);
    law_flat_keys_encodable(lead, Noted::nothing());
    if !lengths_differ(columns) {
        assert forall|i: int, j: int|
            #![trigger column_values(columns[i]), column_values(columns[j])]
            0 <= i < columns.len() && 0 <= j < columns.len() implies column_values(
            columns[i],
        ).len() == column_values(columns[j]).len() by {
        }
    }
    lemma_with_rows(groups, column_rows(columns));
}

/// The columns that are looked into are no more than there are.
proof fn lemma_leading_part(types: Seq<DataType>, columns: Seq<Column>, n: nat)
    ensures
        fit_count(types, columns, n) <= n,
    decreases n,
{
    if n > 0 {
        lemma_leading_part(types, columns, (n - 1) as nat);
    }
}

/// Interning rows keeps the groups that there were in place, adds each row that is none of them
/// once, and gives for each row the index of the group that it is. Where it fails the groups and
/// the indices stay as they were.
pub proof fn law_intern(
    store: &mut GroupValuesRows,
    columns: &Vec<Column>,
    group_indices: &mut Vec<usize>,
    result: Result<(), AggregateError>,
    i: int,
)
    requires
        old(store).inv(),
        call_ensures(GroupValuesRows::intern, (store, columns, group_indices), result),
    ensures
        final(store).inv(),
        final(store).key_types() == old(store).key_types(),
        result is Ok ==> {
            let before = old(store).groups();
            let after = final(store).groups();
            let rows = column_rows(columns@);
            &&& after.no_duplicates()
            &&& before.len() <= after.len() <= before.len() + rows.len()
            &&& after.take(before.len() as int) == before
            &&& forall|row: Row| #[trigger]
                after.contains(row) <==> before.contains(row) || rows.contains(row)
            &&& final(group_indices)@.len() == rows.len()
            &&& 0 <= i < rows.len() ==> final(group_indices)@[i] < after.len()
                && after[final(group_indices)@[i] as int] == rows[i]
            &&& of_types(old(store).key_types(), columns@)
            &&& !lengths_differ(columns@)
        },
        result is Err ==> {
            &&& final(store).groups() == old(store).groups()
            &&& final(group_indices)@ == old(group_indices)@
        },
{
    let before = old(store).groups();
    let rows = column_rows(columns@);
    old(store).law_distinct();
    lemma_with_rows(before, rows);
    if result is Ok {
        assert forall|row: Row| #[trigger]
            with_rows(before, rows).contains(row) <==> before.contains(row) || rows.contains(
                row,
            ) by {
            law_no_other_groups(before, rows, row);
        }
        if 0 <= i < rows.len() {
            law_index_names_row(before, rows, i);
        }
    }
}

/// Rows of flat types are interned wherever the columns are of one length and of the types of the
/// store, and there is room for as many groups.
pub proof fn law_intern_flat_keys(
    store: &mut GroupValuesRows,
    columns: &Vec<Column>,
    group_indices: &mut Vec<usize>,
    result: Result<(), AggregateError>,
)
    requires
        old(store).inv(),
        call_ensures(GroupValuesRows::intern, (store, columns, group_indices), result),
        forall|j: int|
            0 <= j < old(store).key_types().len() ==> flat(
                type_tree(#[trigger] old(store).key_types()[j]),
            ),
        forall|j: int|
            0 <= j < columns@.len() ==> flat(type_tree(column_type(#[trigger] columns@[j]))),
    ensures
        lengths_differ(columns@) ==> result is Err,
        !of_types(old(store).key_types(), columns@) ==> result is Err,
        !lengths_differ(columns@) && of_types(old(store).key_types(), columns@) && (
        old(store).groups().len() + column_rows(columns@).len()) * 161 <= usize::MAX - 161
            ==> result is Ok,
        result matches Err(e) ==> !(e is UnsupportedKeyType) && !(e is KeyTooLarge),
{
    old(store).law_distinct();
    if let Err(e) = result {
        law_flat_keys_taken(
            old(store).key_types(),
            old(store).groups(),
            old(store).noted(),
            columns@,
            e,
        );
    }
}

/// A store can be made for flat keys, and for all types in common use, and has no groups then.
pub proof fn law_store_made(schema: &Schema, result: Result<GroupValuesRows, AggregateError>)
    requires
        call_ensures(GroupValuesRows::try_new, (schema,), result),
        forall|j: int|
            0 <= j < schema_types(*schema).len() ==> common(
                type_tree(#[trigger] schema_types(*schema)[j]),
            ),
    ensures
        result matches Ok(store) && store.inv() && store.groups().len() == 0 && store.key_types()
            == schema_types(*schema) && store.table_size() == 0,
{
    if let Err(e) = result {
        law_store_for_common_types(schema_types(*schema), e);
    }
}

/// The groups of a store are counted.
pub proof fn law_len(store: &GroupValuesRows, n: usize, empty: bool)
    requires
        call_ensures(GroupValuesRows::len, (store,), n),
        call_ensures(GroupValuesRows::is_empty, (store,), empty),
    ensures
        n == store.groups().len(),
        empty <==> store.groups().len() == 0,
{
}

/// The columns of an emission hold the keys of the first groups, as many as are asked for, or of
/// all. The first groups are then gone, and the others stay in order; where all are asked for, all
/// stay. Where it fails nothing changes.
pub proof fn law_emit_keys(
    store: &mut GroupValuesRows,
    emit_to: EmitTo,
    result: Result<Vec<Column>, AggregateError>,
    i: int,
    j: int,
)
    requires
        call_ensures(GroupValuesRows::emit, (store, emit_to), result),
        old(store).key_types().len() > 0,
    ensures
        final(store).inv(),
        final(store).key_types() == old(store).key_types(),
        final(store).table_size() == old(store).table_size(),
        result is Err ==> final(store).groups() == old(store).groups(),
        result matches Ok(columns) ==> {
            let before = old(store).groups();
            let count = column_values(columns@[0]).len();
            &&& columns@.len() == old(store).key_types().len()
            &&& 0 <= j < columns@.len() ==> {
                &&& column_type(columns@[j]) == old(store).key_types()[j]
                &&& column_values(columns@[j]).len() == count
                &&& 0 <= i < count ==> column_values(columns@[j])[i] == before[i][j]
            }
            &&& match emit_to {
                EmitTo::All => count == before.len() && final(store).groups() == before,
                EmitTo::First(n) => {
                    &&& count <= n
                    &&& count + final(store).groups().len() == before.len()
                    &&& count < n ==> final(store).groups().len() == 0
                    &&& 0 <= i < final(store).groups().len() ==> final(store).groups()[i]
                        == before[count + i]
                },
            }
        },
{
    if let Ok(columns) = result {
        if 0 <= j < columns@.len() && 0 <= i < column_values(columns@[0]).len() {
            assert(column_rows(columns@)[i] == column_row(columns@, i));
        }
        assert(column_values(columns@[0]).len() == column_rows(columns@).len());
    }
}

/// Whether the type is flat and nothing in it is addressed by 32-bit offsets.
pub open spec fn unlimited(tree: TypeTree) -> bool
    decreases tree,
{
    match tree.kind {
        Kind::Struct => tree.children.len() > 0 && forall|i: int|
            0 <= i < tree.children.len() ==> unlimited(#[trigger] tree.children[i]),
        Kind::FixedSizeBinary(size) => size >= 0 && tree.children.len() == 0,
        Kind::Binary | Kind::Utf8 => false,
        kind => plain(kind) && tree.children.len() == 0,
    }
}

/// Values of such a type can always be turned into a column.
proof fn lemma_unlimited(tree: TypeTree, values: Seq<Value>, limit: int)
    requires
        unlimited(tree),
    ensures
        flat(tree),
        fits(tree, values, limit),
        numbered(tree, values),
        !crowded(tree, values),
    decreases tree,
{
    if tree.kind is Struct {
        assert forall|k: int| 0 <= k < tree.children.len() implies {
            &&& flat(#[trigger] tree.children[k])
            &&& fits(tree.children[k], field_values(values, k), limit)
            &&& numbered(tree.children[k], field_values(values, k))
            &&& !crowded(tree.children[k], field_values(values, k))
        } by {
            lemma_child_smaller(tree, k);
            lemma_unlimited(tree.children[k], field_values(values, k), limit);
        }
    }
}

/// Group keys without text or bytes under 32-bit offsets can always be handed out again.
pub proof fn law_keys_handed_out(
    types: Seq<DataType>,
    rows: Seq<Row>,
    error: AggregateError,
)
    requires
        forall|j: int| 0 <= j < types.len() ==> unlimited(type_tree(#[trigger] types[j])),
    ensures
        !columns_fail(types, rows, error),
{
    assert forall|j: int| 0 <= j < types.len() implies {
        &&& type_tree(#[trigger] types[j]).readable()
        &&& fits(type_tree(types[j]), column_of(rows, j), i32::MAX as int)
        &&& numbered(type_tree(types[j]), column_of(rows, j))
        &&& !crowded(type_tree(types[j]), column_of(rows, j))
    } by {
        lemma_unlimited(type_tree(types[j]), column_of(rows, j), i32::MAX as int);
        law_flat_types(type_tree(types[j]), arbitrary());
    }
}

/// Group keys of plain types are handed out again unless the text or the bytes of a column are more
/// than 32-bit offsets address; with no more than 2 gibibytes less one in all of the rows, they
/// always are.
pub proof fn law_text_handed_out(types: Seq<DataType>, rows: Seq<Row>, error: AggregateError)
    requires
        columns_fail(types, rows, error),
        forall|j: int|
            0 <= j < types.len() ==> plain(type_tree(#[trigger] types[j]).kind) && type_tree(
                types[j],
            ).children.len() == 0,
    ensures
        error is OffsetOverflow,
        exists|j: int|
            {
                &&& 0 <= j < types.len()
                &&& type_tree(types[j]).kind is Utf8 || type_tree(types[j]).kind is Binary
                &&& total_bytes(#[trigger] column_of(rows, j)) >= 0x8000_0000
            },
{
    assert forall|j: int| 0 <= j < types.len() implies {
        &&& type_tree(#[trigger] types[j]).readable()
        &&& numbered(type_tree(types[j]), column_of(rows, j))
        &&& !crowded(type_tree(types[j]), column_of(rows, j))
    } by {
        law_plain_types(type_tree(types[j]));
    }
    let j = choose|j: int|
        0 <= j < types.len() && !fits(
            type_tree(#[trigger] types[j]),
            column_of(rows, j),
            i32::MAX as int,
        );
    assert(total_bytes(column_of(rows, j)) >= 0x8000_0000);
}

/// Where the text or the bytes of a column are more than 32-bit offsets address, the keys are not
/// handed out.
pub proof fn law_too_much_text(types: Seq<DataType>, rows: Seq<Row>, j: int)
    requires
        0 <= j < types.len(),
        type_tree(types[j]).kind is Utf8 || type_tree(types[j]).kind is Binary,
        total_bytes(column_of(rows, j)) >= 0x8000_0000,
    ensures
        !columns_made(types, rows),
{
    assert(!fits(type_tree(types[j]), column_of(rows, j), i32::MAX as int));
}

/// Each reason that keys are not handed out has its own error: types that cannot be read come first,
/// then what 32-bit offsets cannot address, and then dictionaries with more values than their keys
/// number, which arrow reports. Where a store holds more groups than 32-bit offsets address, there
/// are no others.
pub proof fn law_reasons_against_columns(
    types: Seq<DataType>,
    rows: Seq<Row>,
    error: AggregateError,
    j: int,
)
    requires
        columns_fail(types, rows, error),
        0 <= j < types.len(),
        MAX_GROUPS > 0x8000_0000,
    ensures
        !columns_made(types, rows),
        error is UnsupportedKeyType || error is OffsetOverflow || error is Arrow,
        type_tree(types[j]).kind is RunEndEncoded ==> error is UnsupportedKeyType,
        error is OffsetOverflow || error is Arrow ==> type_tree(types[j]).readable(),
        error is OffsetOverflow ==> !rows_within(types, rows, 0x7fff_ffff),
        error is Arrow ==> rows_within(types, rows, 0x7fff_ffff),
{
    if type_tree(types[j]).kind is RunEndEncoded {
        assert(!type_tree(types[j]).readable());
    }
}

/// Rows that can be handed out are, whatever the reason to the contrary might be.
pub proof fn law_columns_or_reason(types: Seq<DataType>, rows: Seq<Row>)
    requires
        forall|error: AggregateError| !columns_fail(types, rows, error),
    ensures
        columns_made(types, rows),
{
    assert(!columns_fail(types, rows, AggregateError::UnsupportedKeyType));
    assert(!columns_fail(types, rows, AggregateError::OffsetOverflow));
    let report: ArrowError = arbitrary();
    assert(!columns_fail(types, rows, AggregateError::Arrow(report)));
}

/// Group keys are turned down for one reason at a time. Columns that differ in length come first;
/// then types that are not written, run-end encoded values for one.
pub proof fn law_reasons_against_keys(
    types: Seq<DataType>,
    groups: Seq<Row>,
    noted: Noted,
    columns: Seq<Column>,
    error: AggregateError,
    j: int,
)
    requires
        intern_fails(types, groups, noted, columns, error),
    ensures
        !internable(types, groups, columns) || error is KeyTooLarge,
        lengths_differ(columns) <==> error is ColumnLengths,
        !lengths_differ(columns) && 0 <= j < types.len() && type_tree(types[j]).kind
            is RunEndEncoded ==> error is UnsupportedKeyType,
        error is ColumnLengths || error is UnsupportedKeyType || error is KeyTooLarge || error
            is TooManyGroups || error is Arrow,
        error is TooManyGroups ==> {
            &&& of_types(types, columns)
            &&& with_rows(groups, column_rows(columns)).len() * 161 > usize::MAX - 161
        },
        error is Arrow ==> !of_types(types, columns),
{
    if 0 <= j < types.len() && type_tree(types[j]).kind is RunEndEncoded {
        assert(!type_tree(types[j]).writable());
    }
    if !lengths_differ(columns) {
        assert forall|a: int, b: int|
            #![trigger column_values(columns[a]), column_values(columns[b])]
            0 <= a < columns.len() && 0 <= b < columns.len() implies column_values(
            columns[a],
        ).len() == column_values(columns[b]).len() by {
        }
    }
}

/// No store is made where one of the types is a list of a fixed number of elements or a union;
/// arrow reports that.
pub proof fn law_store_refused(types: Seq<DataType>, error: AggregateError, j: int)
    requires
        0 <= j < types.len(),
        type_tree(types[j]).kind is FixedSizeList || type_tree(types[j]).kind is Union,
    ensures
        store_fails(types, error) <==> error is Arrow,
{
    assert(!type_tree(types[j]).admitted());
}

/// The keys of the first groups are within a limit exactly where the text and the bytes of each
/// column are, if all columns are plain.
pub proof fn law_within(
    store: &GroupValuesRows,
    n: usize,
    limit: usize,
    result: Result<bool, AggregateError>,
)
    requires
        call_ensures(GroupValuesRows::within, (store, n, limit), result),
        n <= store.groups().len(),
        forall|j: int|
            0 <= j < store.key_types().len() ==> plain(
                type_tree(#[trigger] store.key_types()[j]).kind,
            ),
    ensures
        result matches Ok(within) && within == forall|j: int|
            0 <= j < store.key_types().len() && (type_tree(
                #[trigger] store.key_types()[j],
            ).kind is Utf8 || type_tree(store.key_types()[j]).kind is Binary) ==> total_bytes(
                Seq::new(n as nat, |i: int| store.groups()[i][j]),
            ) <= limit,
{
    let types = store.key_types();
    let rows = store.groups().take(n as int);
    assert forall|j: int| 0 <= j < types.len() implies {
        &&& type_tree(#[trigger] types[j]).readable()
        &&& !crowded(type_tree(types[j]), column_of(rows, j))
        &&& column_of(rows, j) == Seq::new(n as nat, |i: int| store.groups()[i][j])
        &&& fits(type_tree(types[j]), column_of(rows, j), limit as int) == (!(type_tree(
            types[j],
        ).kind is Utf8 || type_tree(types[j]).kind is Binary) || total_bytes(column_of(rows, j))
            <= limit)
    } by {
        law_plain_types(type_tree(types[j]));
        assert(column_of(rows, j) =~= Seq::new(n as nat, |i: int| store.groups()[i][j]));
    }
}

} // verus!
