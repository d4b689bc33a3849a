//! How much room there is and how it is counted: bytes in row format, 32-bit offsets, dictionary
//! keys, the hash table, and memory.

use crate::columns::{
    column_type, column_values, dictionary_child, list_child, struct_child, value_len, Column, Row,
    Value,
};
use crate::data_type::{type_tree, Kind, TypeTree};
use crate::encoding::{
    bound_len, dictionary_fields, dictionary_values, elements_counted, encodable, fields_len,
    items_len, key_len, lists_counted, new_values, padded, structs_written, Noted,
};
use crate::kinds::plain;
use crate::limits::{
    column_of, crowded, distinct, elements, field_values, fits, numbered, rows_fit, total_bytes,
};
use crate::memory::{allocated_size, has_room, saturated, sum, total_size};
use crate::table::{accounted, growth, MAX_ENTRIES, MAX_GROUPS};
use arrow::datatypes::DataType;
use vstd::prelude::*;

verus! {

/// A store has room for as many groups as 161 bytes each fit in the address space, and a table for
/// a few more entries than that.
pub proof fn law_room_for_groups()
    ensures
        usize::MAX - 161 < MAX_GROUPS * 161 <= usize::MAX,
        MAX_GROUPS > 20_000_000,
        MAX_GROUPS <= MAX_ENTRIES,
{
}

/// Sizes add up, as far as the sum can be counted.
pub proof fn law_total_size(sizes: &Vec<usize>, total: usize, sums: Seq<int>)
    requires
        call_ensures(total_size, (sizes,), total),
        sums.len() == sizes@.len() + 1,
        sums[0] == 0,
        forall|k: int|
            0 <= k < sizes@.len() ==> #[trigger] sums[k + 1] == sums[k] + sizes@[k],
    ensures
        sums.last() <= usize::MAX ==> total == sums.last(),
        sums.last() > usize::MAX ==> total == usize::MAX,
{
    lemma_sum(sizes@, sums, sizes@.len() as int);
    assert(sizes@.take(sizes@.len() as int) =~= sizes@);
}

/// The sum of the first sizes.
proof fn lemma_sum(sizes: Seq<usize>, sums: Seq<int>, n: int)
    requires
        0 <= n <= sizes.len(),
        sums.len() == sizes.len() + 1,
        sums[0] == 0,
        forall|k: int| 0 <= k < sizes.len() ==> #[trigger] sums[k + 1] == sums[k] + sizes[k],
    ensures
        sum(sizes.take(n)) == sums[n],
    decreases n,
{
    if n > 0 {
        lemma_sum(sizes, sums, n - 1);
        assert(sizes.take(n).drop_last() =~= sizes.take(n - 1));
        assert(sums[n - 1 + 1] == sums[n - 1] + sizes[n - 1]);
    }
}

/// A vector has room for its elements, and what it takes up is the bytes of as many elements as it
/// has room for.
pub proof fn law_allocated_size<T>(v: &Vec<T>, bytes: usize) -> (elements: usize)
    requires
        call_ensures(allocated_size::<T>, (v,), bytes),
    ensures
        elements >= v@.len(),
        elements * vstd::layout::size_of::<T>() <= usize::MAX ==> bytes == elements
            * vstd::layout::size_of::<T>(),
        elements * vstd::layout::size_of::<T>() > usize::MAX ==> bytes == usize::MAX,
{
    choose|elements: usize| #[trigger]
        has_room(v, elements) && v@.len() <= elements && bytes == saturated(
            elements as nat * vstd::layout::size_of::<T>(),
        )
}

/// A full table asks for room for twice as many entries, and for 16 at the least.
pub proof fn law_growth(capacity: usize, entry_size: usize, bytes: usize)
    requires
        call_ensures(growth, (capacity, entry_size), bytes),
    ensures
        capacity <= 8 && 16 * entry_size <= usize::MAX ==> bytes == 16 * entry_size,
        capacity >= 8 && 2 * capacity * entry_size <= usize::MAX ==> bytes == 2 * capacity
            * entry_size,
        capacity <= 8 && 16 * entry_size > usize::MAX ==> bytes == usize::MAX,
        capacity >= 8 && 2 * capacity * entry_size > usize::MAX ==> bytes == usize::MAX,
{
    if capacity == 8 {
        assert(2 * capacity * entry_size == 16 * entry_size) by (nonlinear_arith)
            requires
                capacity == 8,
        ;
    }
}

/// The account of a table grows only where the table is full, and then by what the table asks for;
/// it never shrinks.
pub proof fn law_accounted(
    accounting: usize,
    len: usize,
    capacity: usize,
    entry_size: usize,
    more: usize,
    bytes: usize,
)
    requires
        call_ensures(accounted, (accounting, len, capacity, entry_size), bytes),
        call_ensures(growth, (capacity, entry_size), more),
    ensures
        len != capacity ==> bytes == accounting,
        len == capacity && accounting + more <= usize::MAX ==> bytes == accounting + more,
        len == capacity && accounting + more > usize::MAX ==> bytes == usize::MAX,
        bytes >= accounting,
{
}

/// Text is written in blocks of 32 bytes with one more byte each, and one byte in front.
pub proof fn law_padded(bytes: nat)
    ensures
        padded(0) == 1,
        1 <= bytes <= 32 ==> padded(bytes) == 34,
        padded(bytes + 32) == padded(bytes) + 33,
{
}

/// As many bytes as the values of a flat type take up in row format.
pub proof fn law_width(tree: TypeTree, value: Value, len: nat)
    ensures
        tree.kind is Nothing ==> bound_len(tree, value, len) == 0,
        tree.kind is Boolean || tree.kind is Int8 || tree.kind is UInt8 ==> bound_len(
            tree,
            value,
            len,
        ) == 1 + 1,
        tree.kind is Int16 || tree.kind is UInt16 || tree.kind is Float16 ==> bound_len(
            tree,
            value,
            len,
        ) == 1 + 2,
        tree.kind is Int32 || tree.kind is UInt32 || tree.kind is Float32 || tree.kind is Date32
            || tree.kind is Time32Second || tree.kind is Time32Millisecond ==> bound_len(
            tree,
            value,
            len,
        ) == 1 + 4,
        tree.kind is Int64 || tree.kind is UInt64 || tree.kind is Float64 || tree.kind is Date64
            || tree.kind is Time64Microsecond || tree.kind is Time64Nanosecond || tree.kind
            is Timestamp || tree.kind is Duration ==> bound_len(tree, value, len) == 1 + 8,
        tree.kind is Decimal128 || tree.kind is Interval ==> bound_len(tree, value, len) == 1 + 16,
        tree.kind is Decimal256 ==> bound_len(tree, value, len) == 1 + 32,
        tree.kind matches Kind::FixedSizeBinary(size) ==> size >= 0 ==> bound_len(tree, value, len)
            == 1 + size,
        tree.kind is Binary || tree.kind is Utf8 || tree.kind is LargeBinary || tree.kind
            is LargeUtf8 ==> bound_len(tree, value, len) == 1 + (value_len(value) + 31) / 32 * 33,
        tree.kind is Dictionary ==> bound_len(tree, value, len) == 1 + len,
{
}

/// A list takes up one byte where it is empty or a null. Otherwise it is written as text is, of four
/// bytes, and for each element of four more and of those that the element takes up.
pub proof fn law_list_bound(tree: TypeTree, value: Value, len: nat, sums: Seq<int>)
    requires
        tree.kind is List || tree.kind is LargeList,
        tree.children.len() == 1,
        value is Items ==> {
            let items = value->Items_0;
            &&& sums.len() == items.len() + 1
            &&& sums[0] == 4
            &&& forall|e: int|
                0 <= e < items.len() ==> #[trigger] sums[e + 1] == sums[e] + 4 + bound_len(
                    tree.children[0],
                    items[e],
                    len,
                )
        },
    ensures
        value is Items && value->Items_0.len() > 0 ==> bound_len(tree, value, len) == 1 + (
        sums.last() + 31) / 32 * 33,
        !(value is Items && value->Items_0.len() > 0) ==> bound_len(tree, value, len) == 1,
{
    if value is Items {
        let items = value->Items_0;
        lemma_items_sum(tree.children[0], items, len, sums, items.len() as int);
        assert(items.take(items.len() as int) =~= items);
    }
}

/// What the first elements of a list take up.
proof fn lemma_items_sum(tree: TypeTree, items: Seq<Value>, len: nat, sums: Seq<int>, n: int)
    requires
        0 <= n <= items.len(),
        sums.len() == items.len() + 1,
        sums[0] == 4,
        forall|e: int|
            0 <= e < items.len() ==> #[trigger] sums[e + 1] == sums[e] + 4 + bound_len(
                tree,
                items[e],
                len,
            ),
    ensures
        sums[n] == 4 * (1 + n) + items_len(tree, items.take(n), len),
    decreases n,
{
    if n > 0 {
        lemma_items_sum(tree, items, len, sums, n - 1);
        assert(items.take(n).drop_last() =~= items.take(n - 1));
        assert(sums[n - 1 + 1] == sums[n - 1] + 4 + bound_len(tree, items[n - 1], len));
    }
}

/// A struct takes up one byte, and what its fields take up; in a null all of them are nulls.
pub proof fn law_struct_bound(tree: TypeTree, value: Value, len: nat, sums: Seq<int>)
    requires
        tree.kind is Struct,
        sums.len() == tree.children.len() + 1,
        sums[0] == 1,
        forall|k: int|
            0 <= k < tree.children.len() ==> #[trigger] sums[k + 1] == sums[k] + bound_len(
                tree.children[k],
                match value {
                    Value::Items(fields) => fields[k],
                    _ => Value::Nothing,
                },
                len,
            ),
    ensures
        bound_len(tree, value, len) == sums.last(),
{
    lemma_fields_sum(tree, value, len, sums, tree.children.len() as int);
}

/// What the first fields of a struct take up.
proof fn lemma_fields_sum(tree: TypeTree, value: Value, len: nat, sums: Seq<int>, n: int)
    requires
        0 <= n <= tree.children.len(),
        sums.len() == tree.children.len() + 1,
        sums[0] == 1,
        forall|k: int|
            0 <= k < tree.children.len() ==> #[trigger] sums[k + 1] == sums[k] + bound_len(
                tree.children[k],
                match value {
                    Value::Items(fields) => fields[k],
                    _ => Value::Nothing,
                },
                len,
            ),
    ensures
        sums[n] == 1 + fields_len(tree, value, len, n as nat),
    decreases n,
{
    if n > 0 {
        lemma_fields_sum(tree, value, len, sums, n - 1);
        assert(sums[n - 1 + 1] == sums[n - 1] + bound_len(
            tree.children[n - 1],
            match value {
                Value::Items(fields) => fields[n - 1],
                _ => Value::Nothing,
            },
            len,
        ));
    }
}

/// The lists of a column are counted exactly where none has more elements than 32 bits count, no
/// element can take up more bytes than that, and the same holds inside of the elements.
pub proof fn law_lists_counted(tree: TypeTree, column: Column, len: nat)
    requires
        tree.kind is List || tree.kind is LargeList,
        tree.children.len() == 1,
    ensures
        lists_counted(tree, column, len) == {
            &&& forall|i: int|
                0 <= i < column_values(column).len() ==> (#[trigger] column_values(
                    column,
                )[i] matches Value::Items(items) ==> {
                    &&& items.len() <= 0xffff_ffff
                    &&& forall|e: int|
                        0 <= e < items.len() ==> bound_len(
                            tree.children[0],
                            #[trigger] items[e],
                            len,
                        ) <= 0xffff_ffff
                })
            &&& lists_counted(tree.children[0], list_child(column), len)
        },
{
    if lists_counted(tree, column, len) {
        assert forall|i: int| 0 <= i < column_values(column).len() implies (
        #[trigger] column_values(column)[i] matches Value::Items(items) ==> {
            &&& items.len() <= 0xffff_ffff
            &&& forall|e: int|
                0 <= e < items.len() ==> bound_len(tree.children[0], #[trigger] items[e], len)
                    <= 0xffff_ffff
        }) by {
            assert(elements_counted(tree.children[0], column_values(column)[i], len));
        }
    }
}

/// A struct is counted where all its fields are, and other values always are.
pub proof fn law_others_counted(tree: TypeTree, column: Column, len: nat)
    ensures
        tree.kind is Struct ==> lists_counted(tree, column, len) == forall|k: int|
            0 <= k < tree.children.len() ==> lists_counted(
                #[trigger] tree.children[k],
                struct_child(column, k),
                len,
            ),
        !(tree.kind is Struct) && !(tree.kind is List) && !(tree.kind is LargeList)
            ==> lists_counted(tree, column, len),
{
}

/// Keys that are lists of flat values can be written wherever no list has more elements than 32
/// bits count: of numbers always, and of text where none has more than four gigabytes.
pub proof fn law_small_lists(tree: TypeTree, column: Column, len: nat)
    requires
        tree.kind is List || tree.kind is LargeList,
        tree.children.len() == 1,
        plain(tree.children[0].kind),
        forall|i: int|
            0 <= i < column_values(column).len() ==> (#[trigger] column_values(
                column,
            )[i] matches Value::Items(items) ==> {
                &&& items.len() <= 0xffff_ffff
                &&& forall|e: int|
                    0 <= e < items.len() ==> value_len(#[trigger] items[e]) <= 4_000_000_000
            }),
    ensures
        lists_counted(tree, column, len),
{
    assert forall|i: int| 0 <= i < column_values(column).len() implies (#[trigger] column_values(
        column,
    )[i] matches Value::Items(items) ==> {
        &&& items.len() <= 0xffff_ffff
        &&& forall|e: int|
            0 <= e < items.len() ==> bound_len(tree.children[0], #[trigger] items[e], len)
                <= 0xffff_ffff
    }) by {
        if let Value::Items(items) = column_values(column)[i] {
            assert forall|e: int| 0 <= e < items.len() implies bound_len(
                tree.children[0],
                #[trigger] items[e],
                len,
            ) <= 0xffff_ffff by {
                law_width(tree.children[0], items[e], len);
                assert(value_len(items[e]) <= 4_000_000_000);
            }
        }
    }
    law_lists_counted(tree, column, len);
}

/// The dictionary values that columns come with add up: those of a dictionary are the values that
/// it holds, used or not, those of a list are those of its elements, and flat values have none.
pub proof fn law_dictionary_values(tree: TypeTree, column: Column)
    ensures
        tree.kind is Dictionary ==> dictionary_values(tree, column) == column_values(
            dictionary_child(column),
        ).len(),
        (tree.kind is List || tree.kind is LargeList) && tree.children.len() == 1
            ==> dictionary_values(tree, column) == dictionary_values(
            tree.children[0],
            list_child(column),
        ),
        plain(tree.kind) || tree.kind is FixedSizeBinary ==> dictionary_values(
            tree,
            column,
        ) == 0,
{
}

/// The dictionary values of the fields of structs add up.
pub proof fn law_struct_dictionaries(tree: TypeTree, column: Column, sums: Seq<int>)
    requires
        tree.kind is Struct,
        sums.len() == tree.children.len() + 1,
        sums[0] == 0,
        forall|k: int|
            0 <= k < tree.children.len() ==> #[trigger] sums[k + 1] == sums[k] + dictionary_values(
                tree.children[k],
                struct_child(column, k),
            ),
    ensures
        dictionary_values(tree, column) == sums.last(),
{
    lemma_dictionaries_sum(tree, column, sums, tree.children.len() as int);
}

/// The dictionary values of the first fields.
proof fn lemma_dictionaries_sum(tree: TypeTree, column: Column, sums: Seq<int>, n: int)
    requires
        0 <= n <= tree.children.len(),
        sums.len() == tree.children.len() + 1,
        sums[0] == 0,
        forall|k: int|
            0 <= k < tree.children.len() ==> #[trigger] sums[k + 1] == sums[k] + dictionary_values(
                tree.children[k],
                struct_child(column, k),
            ),
    ensures
        sums[n] == dictionary_fields(tree, column, n as nat),
    decreases n,
{
    if n > 0 {
        lemma_dictionaries_sum(tree, column, sums, n - 1);
        assert(sums[n - 1 + 1] == sums[n - 1] + dictionary_values(
            tree.children[n - 1],
            struct_child(column, n - 1),
        ));
    }
}

/// The dictionary values of columns add up.
pub proof fn law_new_values(columns: Seq<Column>, column: Column)
    ensures
        new_values(Seq::empty()) == 0,
        new_values(columns.push(column)) == new_values(columns) + dictionary_values(
            type_tree(column_type(column)),
            column,
        ),
{
    assert(columns.push(column).drop_last() =~= columns);
}

/// What a store takes note of adds up, as far as 64 bits count it; where there are no dictionary
/// values, nothing changes. The longest key becomes longer by one byte for every 254 values that
/// come at once, and by one more.
pub proof fn law_noted(noted: Noted, columns: Seq<Column>)
    requires
        noted.values <= u64::MAX,
        noted.longest <= u64::MAX,
    ensures
        new_values(columns) == 0 ==> noted.after(columns) == noted,
        noted.values + new_values(columns) <= u64::MAX ==> noted.after(columns).values
            == noted.values + new_values(columns),
        noted.values + new_values(columns) > u64::MAX ==> noted.after(columns).values == u64::MAX,
        ({
            let longest = noted.longest + new_values(columns) / 254 + 1;
            &&& new_values(columns) > 0 && longest <= u64::MAX ==> noted.after(columns).longest
                == longest
            &&& new_values(columns) > 0 && longest > u64::MAX ==> noted.after(columns).longest
                == u64::MAX
        }),
        Noted::nothing().values == 0,
        Noted::nothing().longest == 0,
{
}

/// Of what a store has taken note, no more is there than has room in what it holds: 16 bytes for
/// each value, and one for each byte of a key.
pub proof fn law_noted_within(noted: Noted, bytes: usize)
    ensures
        noted.within(bytes).values <= noted.values,
        noted.within(bytes).longest <= noted.longest,
        noted.within(bytes).values * 16 <= bytes,
        noted.within(bytes).longest <= bytes,
        noted.values * 16 <= bytes ==> noted.within(bytes).values == noted.values,
        noted.values * 16 > bytes ==> (noted.within(bytes).values + 1) * 16 > bytes,
        noted.longest <= bytes ==> noted.within(bytes).longest == noted.longest,
        noted.longest > bytes ==> noted.within(bytes).longest == bytes,
{
}

/// Keys can be written exactly where the dictionary values that come with them and those before are
/// no more than 32 bits count, if any come, and so are the lists, where a dictionary key takes up
/// as much as the longest can then, and one byte more.
pub proof fn law_encodable_columns(columns: Seq<Column>, noted: Noted)
    requires
        noted.longest + new_values(columns) < u64::MAX - 2,
    ensures
        encodable(columns, noted) == {
            let new = new_values(columns);
            &&& new == 0 || noted.values + new <= 0xffff_ffff
            &&& forall|j: int|
                0 <= j < columns.len() ==> lists_counted(
                    type_tree(column_type(#[trigger] columns[j])),
                    columns[j],
                    if new == 0 {
                        0
                    } else {
                        (noted.longest + new / 254 + 2) as nat
                    },
                )
        },
{
    let new = new_values(columns);
    assert(key_len(noted.longest, new) == if new == 0 {
        0
    } else {
        (noted.longest + new / 254 + 2) as nat
    });
}

/// All values are written but structs without fields that are no nulls, and what holds them.
pub proof fn law_values_written(tree: TypeTree, column: Column)
    ensures
        (tree.kind is List || tree.kind is LargeList) && tree.children.len() == 1
            ==> structs_written(tree, column) == structs_written(
            tree.children[0],
            list_child(column),
        ),
        tree.kind is Struct && tree.children.len() > 0 ==> structs_written(tree, column) == forall|
            k: int,
        |
            0 <= k < tree.children.len() ==> structs_written(
                #[trigger] tree.children[k],
                struct_child(column, k),
            ),
        tree.kind is Struct && tree.children.len() == 0 ==> structs_written(tree, column)
            == forall|i: int|
            0 <= i < column_values(column).len() ==> #[trigger] column_values(column)[i]
                is Nothing,
        !(tree.kind is Struct) && !(tree.kind is List) && !(tree.kind is LargeList)
            ==> structs_written(tree, column),
{
}

/// The bytes of text add up.
pub proof fn law_total_bytes(values: Seq<Value>, value: Value)
    ensures
        total_bytes(Seq::empty()) == 0,
        total_bytes(values.push(value)) == total_bytes(values) + match value {
            Value::Bytes(bytes) => bytes.len(),
            _ => 0,
        },
{
    assert(values.push(value).drop_last() =~= values);
}

/// The elements of lists stand one list after the other, and those of structs that are no nulls one
/// struct after the other.
pub proof fn law_elements(values: Seq<Value>, value: Value, field: int)
    ensures
        elements(Seq::empty()).len() == 0,
        elements(values.push(value)) == elements(values) + match value {
            Value::Items(items) => items,
            _ => Seq::empty(),
        },
        field_values(Seq::empty(), field).len() == 0,
        field_values(values.push(value), field) == match value {
            Value::Items(items) => field_values(values, field).push(items[field]),
            _ => field_values(values, field),
        },
{
    assert(values.push(value).drop_last() =~= values);
}

/// The distinct values are those that are no nulls, each of them once.
pub proof fn law_distinct_values(values: Seq<Value>, value: Value)
    ensures
        distinct(values).no_duplicates(),
        distinct(values).contains(value) <==> values.contains(value) && !(value is Nothing),
    decreases values.len(),
{
    if values.len() > 0 {
        let before = values.drop_last();
        let last = values.last();
        law_distinct_values(before, value);
        law_distinct_values(before, last);
        assert(values == before.push(last));
        if before.contains(value) {
            let i = before.index_of(value);
            assert(values[i] == value);
        }
        if values.contains(value) && value != last {
            let i = values.index_of(value);
            assert(before[i] == value);
        }
        assert(values[values.len() - 1] == last);
        let after = distinct(values);
        if after == distinct(before).push(last) {
            if distinct(before).contains(value) {
                let i = distinct(before).index_of(value);
                assert(after[i] == value);
            }
            assert(after[after.len() - 1] == last);
        }
    }
}

/// What 32-bit offsets have to address: the bytes of text and the elements of lists must be no more
/// than the limit, and so must be what is inside of lists, of structs, and of the distinct values of
/// a dictionary. There is no limit to anything else.
pub proof fn law_fits(tree: TypeTree, values: Seq<Value>, limit: int)
    ensures
        tree.kind is Utf8 || tree.kind is Binary ==> fits(tree, values, limit) == (total_bytes(
            values,
        ) <= limit),
        tree.kind is List && tree.children.len() == 1 ==> fits(tree, values, limit) == (elements(
            values,
        ).len() <= limit && fits(tree.children[0], elements(values), limit)),
        tree.kind is LargeList && tree.children.len() == 1 ==> fits(tree, values, limit) == fits(
            tree.children[0],
            elements(values),
            limit,
        ),
        tree.kind is Struct ==> fits(tree, values, limit) == forall|k: int|
            0 <= k < tree.children.len() ==> fits(
                #[trigger] tree.children[k],
                field_values(values, k),
                limit,
            ),
        tree.kind is Dictionary && tree.children.len() == 2 ==> fits(tree, values, limit) == fits(
            tree.children[1],
            distinct(values),
            limit,
        ),
        plain(tree.kind) && !(tree.kind is Utf8) && !(tree.kind is Binary) ==> fits(
            tree,
            values,
            limit,
        ),
        tree.kind is FixedSizeBinary ==> fits(tree, values, limit),
{
}

/// The limit of 32-bit offsets is the largest of their numbers.
pub proof fn law_offset_limit(
    types: Seq<DataType>,
    rows: Seq<Row>,
)
    ensures
        rows_fit(types, rows) == forall|j: int|
            0 <= j < types.len() ==> fits(
                type_tree(#[trigger] types[j]),
                Seq::new(rows.len(), |i: int| rows[i][j]),
                0x7fff_ffff,
            ),
{
    assert forall|j: int| 0 <= j < types.len() implies column_of(rows, j) == Seq::new(
        rows.len(),
        |i: int| rows[i][j],
    ) by {
    }
    if rows_fit(types, rows) {
        assert forall|j: int| 0 <= j < types.len() implies fits(
            type_tree(#[trigger] types[j]),
            Seq::new(rows.len(), |i: int| rows[i][j]),
            0x7fff_ffff,
        ) by {
            assert(column_of(rows, j) =~= Seq::new(
                rows.len(),
                |i: int| rows[i][j],
            ));
        }
    }
}

/// A dictionary is numbered where its keys can number its distinct values.
pub proof fn law_numbered(tree: TypeTree, values: Seq<Value>)
    ensures
        tree.kind is Dictionary && tree.children.len() == 2 ==> numbered(tree, values) == (distinct(
            values,
        ).len() <= tree.children[0].kind.capacity()),
        (tree.kind is List || tree.kind is LargeList) && tree.children.len() == 1 ==> numbered(
            tree,
            values,
        ) == numbered(tree.children[0], elements(values)),
        tree.kind is Struct ==> numbered(tree, values) == forall|k: int|
            0 <= k < tree.children.len() ==> numbered(
                #[trigger] tree.children[k],
                field_values(values, k),
            ),
        plain(tree.kind) || tree.kind is FixedSizeBinary ==> numbered(tree, values),
        tree.kind is Dictionary ==> crowded(tree, values) == (distinct(values).len() > MAX_GROUPS),
        plain(tree.kind) || tree.kind is FixedSizeBinary ==> !crowded(tree, values),
{
}

} // verus!
