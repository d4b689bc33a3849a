//! What 32-bit offsets can address, and how many values dictionary keys can number.

use crate::columns::{
    column_len, column_rows, column_slice, column_type, column_values, data_type, dictionary_array,
    dictionary_keys, is_list, is_null, list_child, list_offsets, list_values, struct_child,
    struct_columns,
    text_lengths, value_len, Column, Row, Value,
};
use crate::data_type::{child_types, kind, lemma_child_smaller, type_tree, Kind, TypeTree};
use crate::encoding::{law_flat_keys_encodable, Noted};
use crate::error::AggregateError;
use crate::group_values::{GroupValues, GroupValuesRows};
use crate::grouping::with_rows;
use crate::memory::saturated;
use crate::rows::{codecs_making, lemma_leading, same_type};
use crate::table::MAX_GROUPS;
use arrow::datatypes::DataType;
use vstd::prelude::*;

verus! {

/// The elements of a list, or the fields of a struct.
pub open spec fn items_of(value: Value) -> Seq<Value> {
    match value {
        Value::Items(items) => items,
        _ => Seq::empty(),
    }
}

/// The elements of all lists, one list after the other.
pub open spec fn elements(values: Seq<Value>) -> Seq<Value>
    decreases values.len(),
{
    if values.len() == 0 {
        Seq::empty()
    } else {
        elements(values.drop_last()) + items_of(values.last())
    }
}

/// One field of all structs that are no null, one after the other.
pub open spec fn field_values(values: Seq<Value>, field: int) -> Seq<Value>
    decreases values.len(),
{
    if values.len() == 0 {
        Seq::empty()
    } else {
        let before = field_values(values.drop_last(), field);
        match values.last() {
            Value::Items(items) => before.push(items[field]),
            _ => before,
        }
    }
}

/// The number of bytes of all flat values.
pub open spec fn total_bytes(values: Seq<Value>) -> nat
    decreases values.len(),
{
    if values.len() == 0 {
        0
    } else {
        total_bytes(values.drop_last()) + value_len(values.last())
    }
}

/// The values that are no null, each of them once.
pub open spec fn distinct(values: Seq<Value>) -> Seq<Value>
    decreases values.len(),
{
    if values.len() == 0 {
        Seq::empty()
    } else {
        let before = distinct(values.drop_last());
        if values.last() is Nothing || before.contains(values.last()) {
            before
        } else {
            before.push(values.last())
        }
    }
}

/// Whether nothing that is addressed by 32-bit offsets in a column of the values is more than the
/// limit: the bytes of text, the elements of lists, and the same inside of lists, structs and
/// dictionaries, which hold each value once.
pub open spec fn fits(tree: TypeTree, values: Seq<Value>, limit: int) -> bool
    decreases tree,
{
    match tree.kind {
        Kind::Binary | Kind::Utf8 => total_bytes(values) <= limit,
        Kind::List => tree.children.len() == 1 ==> elements(values).len() <= limit && fits(
            tree.children[0],
            elements(values),
            limit,
        ),
        Kind::LargeList => tree.children.len() == 1 ==> fits(
            tree.children[0],
            elements(values),
            limit,
        ),
        Kind::Struct => forall|k: int|
            0 <= k < tree.children.len() ==> fits(
                #[trigger] tree.children[k],
                field_values(values, k),
                limit,
            ),
        Kind::Dictionary => tree.children.len() == 2 ==> fits(
            tree.children[1],
            distinct(values),
            limit,
        ),
        _ => true,
    }
}

/// Whether the keys of every dictionary in a column of the values can number its values.
pub open spec fn numbered(tree: TypeTree, values: Seq<Value>) -> bool
    decreases tree,
{
    match tree.kind {
        Kind::List | Kind::LargeList => tree.children.len() == 1 ==> numbered(
            tree.children[0],
            elements(values),
        ),
        Kind::Struct => forall|k: int|
            0 <= k < tree.children.len() ==> numbered(
                #[trigger] tree.children[k],
                field_values(values, k),
            ),
        Kind::Dictionary => tree.children.len() == 2 ==> distinct(values).len()
            <= tree.children[0].kind.capacity(),
        _ => true,
    }
}

/// Whether a dictionary in a column of the values has more values than a store can hold groups.
pub open spec fn crowded(tree: TypeTree, values: Seq<Value>) -> bool
    decreases tree,
{
    match tree.kind {
        Kind::List | Kind::LargeList => tree.children.len() == 1 && crowded(
            tree.children[0],
            elements(values),
        ),
        Kind::Struct => exists|k: int|
            0 <= k < tree.children.len() && crowded(
                #[trigger] tree.children[k],
                field_values(values, k),
            ),
        Kind::Dictionary => distinct(values).len() > MAX_GROUPS,
        _ => false,
    }
}

/// The values of one column of the rows.
pub open spec fn column_of(rows: Seq<Row>, column: int) -> Seq<Value> {
    Seq::new(rows.len(), |i: int| rows[i][column])
}

/// Whether nothing that is addressed by 32-bit offsets in columns of the rows is more than the
/// limit.
pub open spec fn rows_within(types: Seq<DataType>, rows: Seq<Row>, limit: int) -> bool {
    forall|j: int|
        0 <= j < types.len() ==> fits(type_tree(#[trigger] types[j]), column_of(rows, j), limit)
}

/// Whether 32-bit offsets can address all that they have to in columns of the rows.
pub open spec fn rows_fit(types: Seq<DataType>, rows: Seq<Row>) -> bool {
    rows_within(types, rows, i32::MAX as int)
}

/// Whether the keys of every dictionary in columns of the rows can number its values.
pub open spec fn rows_numbered(types: Seq<DataType>, rows: Seq<Row>) -> bool {
    forall|j: int|
        0 <= j < types.len() ==> numbered(type_tree(#[trigger] types[j]), column_of(rows, j))
}

/// Whether a dictionary in columns of the rows has more values than a store can hold groups.
pub open spec fn rows_crowded(types: Seq<DataType>, rows: Seq<Row>) -> bool {
    exists|j: int|
        0 <= j < types.len() && crowded(type_tree(#[trigger] types[j]), column_of(rows, j))
}

/// The values of all columns, one column after the other.
pub open spec fn all_values(parts: Seq<Column>) -> Seq<Value>
    decreases parts.len(),
{
    if parts.len() == 0 {
        Seq::empty()
    } else {
        all_values(parts.drop_last()) + column_values(parts.last())
    }
}

/// Whether every column is of the type.
pub open spec fn all_of_type(parts: Seq<Column>, tree: TypeTree) -> bool {
    forall|p: int| 0 <= p < parts.len() ==> type_tree(column_type(#[trigger] parts[p])) == tree
}

/// More of what is addressed asks for more.
pub proof fn lemma_fits_more(tree: TypeTree, values: Seq<Value>, limit: int, more: int)
    requires
        limit <= more,
        fits(tree, values, limit),
    ensures
        fits(tree, values, more),
    decreases tree,
{
    match tree.kind {
        Kind::List | Kind::LargeList => {
            if tree.children.len() == 1 {
                lemma_child_smaller(tree, 0);
                lemma_fits_more(tree.children[0], elements(values), limit, more);
            }
        },
        Kind::Struct => {
            assert forall|k: int| 0 <= k < tree.children.len() implies fits(
                #[trigger] tree.children[k],
                field_values(values, k),
                more,
            ) by {
                lemma_child_smaller(tree, k);
                lemma_fits_more(tree.children[k], field_values(values, k), limit, more);
            }
        },
        Kind::Dictionary => {
            if tree.children.len() == 2 {
                lemma_child_smaller(tree, 1);
                lemma_fits_more(tree.children[1], distinct(values), limit, more);
            }
        },
        _ => {},
    }
}

/// Without values there is nothing to address.
proof fn lemma_no_values_fit(tree: TypeTree, limit: int)
    requires
        0 <= limit,
    ensures
        fits(tree, Seq::empty(), limit),
    decreases tree,
{
    match tree.kind {
        Kind::List | Kind::LargeList => {
            if tree.children.len() == 1 {
                lemma_child_smaller(tree, 0);
                lemma_no_values_fit(tree.children[0], limit);
            }
        },
        Kind::Struct => {
            assert forall|k: int| 0 <= k < tree.children.len() implies fits(
                #[trigger] tree.children[k],
                field_values(Seq::empty(), k),
                limit,
            ) by {
                lemma_child_smaller(tree, k);
                lemma_no_values_fit(tree.children[k], limit);
            }
        },
        Kind::Dictionary => {
            if tree.children.len() == 2 {
                lemma_child_smaller(tree, 1);
                lemma_no_values_fit(tree.children[1], limit);
            }
        },
        _ => {},
    }
}

/// Without rows there is nothing to address.
pub proof fn lemma_nothing_fits(types: Seq<DataType>, rows: Seq<Row>, limit: int)
    requires
        0 <= limit,
        rows.len() == 0,
    ensures
        rows_within(types, rows, limit),
{
    assert forall|j: int| 0 <= j < types.len() implies fits(
        type_tree(#[trigger] types[j]),
        column_of(rows, j),
        limit,
    ) by {
        assert(column_of(rows, j) =~= Seq::empty());
        lemma_no_values_fit(type_tree(types[j]), limit);
    }
}

/// Where nothing is addressed by 32-bit offsets, there is no limit.
pub proof fn lemma_no_short_offsets(tree: TypeTree, values: Seq<Value>, limit: int)
    requires
        !tree.short_offsets(),
    ensures
        fits(tree, values, limit),
    decreases tree,
{
    match tree.kind {
        Kind::LargeList => {
            if tree.children.len() == 1 {
                lemma_child_smaller(tree, 0);
                assert(!tree.children[0].short_offsets());
                lemma_no_short_offsets(tree.children[0], elements(values), limit);
            }
        },
        Kind::Struct => {
            assert forall|k: int| 0 <= k < tree.children.len() implies fits(
                #[trigger] tree.children[k],
                field_values(values, k),
                limit,
            ) by {
                lemma_child_smaller(tree, k);
                assert(!tree.children[k].short_offsets());
                lemma_no_short_offsets(tree.children[k], field_values(values, k), limit);
            }
        },
        Kind::Dictionary => {
            if tree.children.len() == 2 {
                lemma_child_smaller(tree, 1);
                assert(!tree.children[1].short_offsets());
                lemma_no_short_offsets(tree.children[1], distinct(values), limit);
            }
        },
        _ => {},
    }
}

/// The rows of a single column that holds the values.
spec fn singles(values: Seq<Value>) -> Seq<Row> {
    Seq::new(values.len(), |k: int| seq![values[k]])
}

/// Whether all values are text.
spec fn all_text(values: Seq<Value>) -> bool {
    forall|k: int| 0 <= k < values.len() ==> #[trigger] values[k] is Bytes
}

/// The values are distinct where the rows of a single column are.
proof fn lemma_singles_distinct(values: Seq<Value>)
    requires
        singles(values).no_duplicates(),
    ensures
        values.no_duplicates(),
{
    assert forall|i: int, j: int| 0 <= i < values.len() && 0 <= j < values.len() && i != j
        implies values[i] != values[j] by {
        assert(singles(values)[i] == seq![values[i]] && singles(values)[j] == seq![values[j]]);
    }
}

/// A row of a single column is among the rows exactly if its value is among the values.
proof fn lemma_singles(values: Seq<Value>, value: Value)
    ensures
        singles(values).contains(seq![value]) == values.contains(value),
{
    if values.contains(value) {
        let k = values.index_of(value);
        assert(singles(values)[k] == seq![value]);
    }
    if singles(values).contains(seq![value]) {
        let k = singles(values).index_of(seq![value]);
        assert(singles(values)[k][0] == value);
        assert(values[k] == value);
    }
}

/// The distinct values of more values have more bytes.
proof fn lemma_distinct_more(values: Seq<Value>, more: Seq<Value>)
    ensures
        total_bytes(distinct(values)) <= total_bytes(distinct(values + more)),
        distinct(values).len() <= distinct(values + more).len(),
    decreases more.len(),
{
    if more.len() == 0 {
        assert(values + more =~= values);
    } else {
        lemma_distinct_more(values, more.drop_last());
        let all = values + more;
        assert(all.drop_last() =~= values + more.drop_last());
        let before = distinct(all.drop_last());
        if !(all.last() is Nothing) && !before.contains(all.last()) {
            assert(before.push(all.last()).drop_last() =~= before);
        }
    }
}

/// Among distinct texts only one is empty, so that there are hardly more of them than bytes.
proof fn lemma_texts_counted(texts: Seq<Value>)
    requires
        texts.no_duplicates(),
        forall|k: int| 0 <= k < texts.len() ==> #[trigger] texts[k] is Bytes,
    ensures
        texts.len() <= total_bytes(texts) + if texts.contains(Value::Bytes(Seq::empty())) {
            1int
        } else {
            0
        },
    decreases texts.len(),
{
    if texts.len() > 0 {
        let before = texts.drop_last();
        let empty = Value::Bytes(Seq::empty());
        assert forall|k: int| 0 <= k < before.len() implies #[trigger] before[k] is Bytes by {
            assert(before[k] == texts[k]);
        }
        lemma_texts_counted(before);
        let last = texts[texts.len() - 1];
        assert(last is Bytes);
        if before.contains(empty) {
            let k = before.index_of(empty);
            assert(texts[k] == empty);
        }
        if value_len(last) == 0 {
            assert(last->Bytes_0 =~= Seq::empty());
            assert(last == empty);
            assert(!before.contains(empty));
        }
    }
}

/// The values of the columns begin with those of the first columns.
proof fn lemma_all_values(parts: Seq<Column>, p: int) -> (rest: Seq<Value>)
    requires
        0 <= p <= parts.len(),
    ensures
        all_values(parts) == all_values(parts.take(p)) + rest,
    decreases parts.len() - p,
{
    if p == parts.len() {
        assert(parts.take(p) =~= parts);
        assert(all_values(parts) =~= all_values(parts) + Seq::<Value>::empty());
        Seq::empty()
    } else {
        let rest = lemma_all_values(parts, p + 1);
        assert(parts.take(p + 1).drop_last() =~= parts.take(p));
        let all = column_values(parts[p]) + rest;
        assert(all_values(parts) =~= all_values(parts.take(p)) + all);
        all
    }
}

/// The number of bytes of text in the columns, as far as it can be counted.
fn text_total(parts: &Vec<Column>) -> (total: usize)
    requires
        forall|p: int|
            0 <= p < parts@.len() ==> type_tree(column_type(#[trigger] parts@[p])).text(),
    ensures
        total == saturated(total_bytes(all_values(parts@))),
{
    let mut total: usize = 0;
    let mut p: usize = 0;
    assert(parts@.take(0) =~= Seq::<Column>::empty());
    while p < parts.len()
        invariant
            p <= parts@.len(),
            forall|p: int|
                0 <= p < parts@.len() ==> type_tree(column_type(#[trigger] parts@[p])).text(),
            total == saturated(total_bytes(all_values(parts@.take(p as int)))),
        decreases parts@.len() - p,
    {
        let ghost values = column_values(parts@[p as int]);
        let ghost before = all_values(parts@.take(p as int));
        let mut i: usize = 0;
        proof {
            assert(parts@.take(p + 1).drop_last() =~= parts@.take(p as int));
            assert(before + values.take(0) =~= before);
        }
        if let Ok(lengths) = text_lengths(&parts[p]) {
            while i < lengths.len()
                invariant
                    i <= lengths@.len() == values.len(),
                    forall|k: int|
                        0 <= k < lengths@.len() ==> #[trigger] lengths@[k] == value_len(values[k]),
                    total == saturated(total_bytes(before + values.take(i as int))),
                decreases lengths@.len() - i,
            {
                total = total.saturating_add(lengths[i]);
                proof {
                    let next = before + values.take(i + 1);
                    assert(next.drop_last() =~= before + values.take(i as int));
                    assert(next.last() == values[i as int]);
                }
                i += 1;
            }
        }
        assert(values.take(i as int) =~= values);
        p += 1;
    }
    assert(parts@.take(p as int) =~= parts@);
    total
}

/// The elements of the lists in the columns, a column for each list that is no null.
fn element_parts(parts: &Vec<Column>, Ghost(tree): Ghost<TypeTree>) -> (sub: Vec<Column>)
    requires
        all_of_type(parts@, tree),
        tree.kind is List || tree.kind is LargeList,
        tree.children.len() == 1,
    ensures
        all_of_type(sub@, tree.children[0]),
        all_values(sub@) == elements(all_values(parts@)),
{
    let mut sub: Vec<Column> = Vec::new();
    let mut p: usize = 0;
    assert(parts@.take(0) =~= Seq::<Column>::empty());
    while p < parts.len()
        invariant
            p <= parts@.len(),
            all_of_type(parts@, tree),
            tree.kind is List || tree.kind is LargeList,
            tree.children.len() == 1,
            all_of_type(sub@, tree.children[0]),
            all_values(sub@) == elements(all_values(parts@.take(p as int))),
        decreases parts@.len() - p,
    {
        let part = &parts[p];
        let ghost values = column_values(*part);
        let ghost before = all_values(parts@.take(p as int));
        let n = column_len(part);
        let child = list_values(part);
        let starts = list_offsets(part);
        let mut i: usize = 0;
        proof {
            assert(parts@.take(p + 1).drop_last() =~= parts@.take(p as int));
            assert(before + values.take(0) =~= before);
        }
        while i < n
            invariant
                i <= n == values.len(),
                values == column_values(*part),
                is_list(column_type(*part)),
                tree.children.len() == 1,
                child == list_child(*part),
                type_tree(column_type(child)) == tree.children[0],
                starts@.len() == n + 1,
                forall|i: int|
                    0 <= i < n ==> (#[trigger] starts@[i]) <= starts@[i + 1] <= column_values(
                        child,
                    ).len(),
                forall|i: int|
                    0 <= i < n ==> match #[trigger] values[i] {
                        Value::Nothing => true,
                        Value::Bytes(_) => false,
                        Value::Items(items) => items == column_values(child).subrange(
                            starts@[i] as int,
                            starts@[i + 1] as int,
                        ),
                    },
                all_of_type(sub@, tree.children[0]),
                all_values(sub@) == elements(before + values.take(i as int)),
            decreases n - i,
        {
            proof {
                let next = before + values.take(i + 1);
                assert(next.drop_last() =~= before + values.take(i as int));
                assert(next.last() == values[i as int]);
                assert(starts@[i as int] <= starts@[i + 1]);
            }
            if !is_null(part, i) {
                let ghost old_sub = sub@;
                let list = column_slice(&child, starts[i], starts[i + 1] - starts[i]);
                sub.push(list);
                assert(sub@.drop_last() =~= old_sub);
                assert(all_of_type(sub@, tree.children[0])) by {
                    assert forall|q: int| 0 <= q < sub@.len() implies type_tree(
                        column_type(#[trigger] sub@[q]),
                    ) == tree.children[0] by {
                        if q < old_sub.len() {
                            assert(sub@[q] == old_sub[q]);
                        }
                    }
                }
            } else {
                assert(elements(before + values.take(i + 1)) =~= elements(
                    before + values.take(i as int),
                ));
            }
            i += 1;
        }
        assert(values.take(i as int) =~= values);
        p += 1;
    }
    assert(parts@.take(p as int) =~= parts@);
    sub
}

/// One field of the structs in the columns, a column for each struct that is no null.
fn field_parts(parts: &Vec<Column>, field: usize, Ghost(tree): Ghost<TypeTree>) -> (sub: Vec<
    Column,
>)
    requires
        all_of_type(parts@, tree),
        tree.kind is Struct,
        field < tree.children.len(),
    ensures
        all_of_type(sub@, tree.children[field as int]),
        all_values(sub@) == field_values(all_values(parts@), field as int),
{
    let mut sub: Vec<Column> = Vec::new();
    let mut p: usize = 0;
    assert(parts@.take(0) =~= Seq::<Column>::empty());
    while p < parts.len()
        invariant
            p <= parts@.len(),
            all_of_type(parts@, tree),
            tree.kind is Struct,
            field < tree.children.len(),
            all_of_type(sub@, tree.children[field as int]),
            all_values(sub@) == field_values(all_values(parts@.take(p as int)), field as int),
        decreases parts@.len() - p,
    {
        let part = &parts[p];
        let ghost values = column_values(*part);
        let ghost before = all_values(parts@.take(p as int));
        let n = column_len(part);
        let fields = struct_columns(part);
        let child = &fields[field];
        let mut i: usize = 0;
        proof {
            assert(parts@.take(p + 1).drop_last() =~= parts@.take(p as int));
            assert(before + values.take(0) =~= before);
            assert(fields@[field as int] == struct_child(*part, field as int));
        }
        while i < n
            invariant
                i <= n == values.len(),
                values == column_values(*part),
                type_tree(column_type(*part)).kind is Struct,
                field < fields@.len() == tree.children.len(),
                *child == fields@[field as int],
                column_values(*child).len() >= n,
                type_tree(column_type(*child)) == tree.children[field as int],
                forall|i: int|
                    0 <= i < n ==> match #[trigger] values[i] {
                        Value::Nothing => true,
                        Value::Bytes(_) => false,
                        Value::Items(items) => items == Seq::new(
                            fields@.len(),
                            |k: int| column_values(fields@[k])[i],
                        ),
                    },
                all_of_type(sub@, tree.children[field as int]),
                all_values(sub@) == field_values(before + values.take(i as int), field as int),
            decreases n - i,
        {
            proof {
                let next = before + values.take(i + 1);
                assert(next.drop_last() =~= before + values.take(i as int));
                assert(next.last() == values[i as int]);
            }
            if !is_null(part, i) {
                let ghost old_sub = sub@;
                let one = column_slice(child, i, 1);
                sub.push(one);
                proof {
                    assert(sub@.drop_last() =~= old_sub);
                    assert(column_values(one) =~= seq![column_values(*child)[i as int]]);
                    assert(all_values(sub@) =~= field_values(
                        before + values.take(i + 1),
                        field as int,
                    ));
                    assert forall|q: int| 0 <= q < sub@.len() implies type_tree(
                        column_type(#[trigger] sub@[q]),
                    ) == tree.children[field as int] by {
                        if q < old_sub.len() {
                            assert(sub@[q] == old_sub[q]);
                        }
                    }
                }
            }
            i += 1;
        }
        assert(values.take(i as int) =~= values);
        p += 1;
    }
    assert(parts@.take(p as int) =~= parts@);
    sub
}

/// The number of values in the columns, as far as it can be counted.
fn value_total(parts: &Vec<Column>) -> (total: usize)
    ensures
        total == saturated(all_values(parts@).len()),
{
    let mut total: usize = 0;
    let mut p: usize = 0;
    assert(parts@.take(0) =~= Seq::<Column>::empty());
    while p < parts.len()
        invariant
            p <= parts@.len(),
            total == saturated(all_values(parts@.take(p as int)).len()),
        decreases parts@.len() - p,
    {
        total = total.saturating_add(column_len(&parts[p]));
        assert(parts@.take(p + 1).drop_last() =~= parts@.take(p as int));
        p += 1;
    }
    assert(parts@.take(p as int) =~= parts@);
    total
}

/// Whether the distinct values of dictionary columns have no more bytes than the limit. That cannot
/// be said where there are more of them than a store can hold groups.
fn distinct_within(dictionary: &DataType, parts: &Vec<Column>, limit: usize) -> (within: Result<
    bool,
    AggregateError,
>)
    requires
        all_of_type(parts@, type_tree(*dictionary)),
        type_tree(*dictionary).internable(),
        type_tree(*dictionary).children[1].kind is Utf8,
        limit < usize::MAX,
    ensures
        match within {
            Ok(b) => b == (total_bytes(distinct(all_values(parts@))) <= limit),
            Err(e) => e is TooManyGroups && distinct(all_values(parts@)).len() > MAX_GROUPS
                && MAX_GROUPS <= limit + 1,
        },
{
    let ghost tree = type_tree(*dictionary);
    let children = child_types(dictionary);
    let mut types = child_types(dictionary);
    types.remove(0);
    proof {
        reveal_with_fuel(codecs_making, 2);
        assert(types@.len() == 1);
        assert(type_tree(types@[0]) == tree.children[1]);
    }
    let mut store = match GroupValuesRows::from_types(types) {
        Ok(store) => store,
        Err(e) => return Err(e),
    };
    let mut found: Vec<usize> = Vec::new();
    let mut total: usize = 0;
    let mut p: usize = 0;
    assert(parts@.take(0) =~= Seq::<Column>::empty());
    assert(store.groups() =~= singles(distinct(all_values(parts@.take(0)))));
    while p < parts.len()
        invariant
            p <= parts@.len(),
            all_of_type(parts@, tree),
            tree.internable(),
            children@.len() == 2,
            type_tree(children@[0]) == tree.children[0],
            tree.children[1].kind is Utf8,
            limit < usize::MAX,
            store.inv(),
            store.key_types().len() == 1,
            type_tree(store.key_types()[0]) == tree.children[1],
            store.groups() == singles(distinct(all_values(parts@.take(p as int)))),
            total == total_bytes(distinct(all_values(parts@.take(p as int)))),
            all_text(distinct(all_values(parts@.take(p as int)))),
            total <= limit,
        decreases parts@.len() - p,
    {
        let part = &parts[p];
        let ghost values = column_values(*part);
        let ghost before = all_values(parts@.take(p as int));
        let child = dictionary_array(part);
        let keys = match dictionary_keys(part, &children[0]) {
            Ok(keys) => keys,
            Err(e) => return Err(AggregateError::Arrow(e)),
        };
        let mut i: usize = 0;
        proof {
            assert(parts@.take(p + 1).drop_last() =~= parts@.take(p as int));
            assert(before + values.take(0) =~= before);
        }
        while i < keys.len()
            invariant
                i <= keys@.len() == values.len(),
                values == column_values(*part),
                *part == parts@[p as int],
                p < parts@.len(),
                before == all_values(parts@.take(p as int)),
                all_values(parts@.take(p + 1)) == before + values,
                type_tree(column_type(child)) == tree.children[1],
                forall|i: int|
                    0 <= i < keys@.len() ==> match #[trigger] keys@[i] {
                        None => values[i] is Nothing,
                        Some(k) => k < column_values(child).len() && values[i] == column_values(
                            child,
                        )[k as int],
                    },
                tree.children[1].kind is Utf8,
                limit < usize::MAX,
                store.inv(),
                store.key_types().len() == 1,
                type_tree(store.key_types()[0]) == tree.children[1],
                store.groups() == singles(distinct(before + values.take(i as int))),
                total == total_bytes(distinct(before + values.take(i as int))),
                all_text(distinct(before + values.take(i as int))),
                total <= limit,
            decreases keys@.len() - i,
        {
            let ghost value = values[i as int];
            let ghost seen = before + values.take(i as int);
            let ghost next = before + values.take(i + 1);
            let ghost rest = values.skip(i + 1);
            proof {
                assert(next.drop_last() =~= seen);
                assert(next.last() == value);
            }
            let key = match keys[i] {
                Some(key) => key,
                None => {
                    i += 1;
                    continue;
                },
            };
            if is_null(&child, key) {
                i += 1;
                continue;
            }
            let plain = column_slice(&child, key, 1);
            assert(column_values(plain) =~= seq![value]);
            let same = same_type(&data_type(&plain), &store.types()[0]);
            let mut columns: Vec<Column> = Vec::new();
            columns.push(plain);
            let known = store.len();
            proof {
                let rows = column_rows(columns@);
                assert(rows =~= seq![seq![value]]) by {
                    assert(rows[0] =~= seq![value]);
                }
                assert(rows.drop_last() =~= Seq::<Row>::empty());
                reveal_with_fuel(with_rows, 2);
                lemma_singles(distinct(seen), value);
                if !distinct(seen).contains(value) {
                    assert(singles(distinct(seen)).push(seq![value]) =~= singles(distinct(next)));
                    assert(distinct(next).drop_last() =~= distinct(seen));
                }
                assert(with_rows(store.groups(), rows) =~= singles(distinct(next)));
                let later = lemma_all_values(parts@, p + 1);
                assert(before + values =~= next + rest);
                assert(all_values(parts@) =~= next + (rest + later));
                lemma_distinct_more(next, rest + later);
                lemma_leading(store.key_types(), columns@);
                law_flat_keys_encodable(columns@, store.noted());
                law_flat_keys_encodable(columns@, Noted::nothing());
            }
            proof {
                store.law_distinct();
                lemma_singles_distinct(distinct(seen));
                lemma_texts_counted(distinct(seen));
            }
            match store.intern(&columns, &mut found) {
                Ok(_) => {},
                Err(e) => return Err(e),
            }
            if store.len() > known {
                let len = match text_lengths(&columns[0]) {
                    Ok(lengths) => lengths[0],
                    Err(e) => return Err(AggregateError::Arrow(e)),
                };
                if len > limit - total {
                    return Ok(false);
                }
                total += len;
            }
            i += 1;
        }
        assert(values.take(i as int) =~= values);
        p += 1;
    }
    assert(parts@.take(p as int) =~= parts@);
    Ok(total <= limit)
}

/// Whether nothing that is addressed by 32-bit offsets in the columns, taken as one, is more than
/// the limit. That cannot be said where a dictionary has more values than a store can hold groups.
pub(crate) fn fits_within(own: &DataType, parts: &Vec<Column>, limit: usize) -> (within: Result<
    bool,
    AggregateError,
>)
    requires
        all_of_type(parts@, type_tree(*own)),
        type_tree(*own).writable(),
        type_tree(*own).supported(),
        limit < usize::MAX,
    ensures
        match within {
            Ok(b) => b == fits(type_tree(*own), all_values(parts@), limit as int),
            Err(e) => e is TooManyGroups && crowded(type_tree(*own), all_values(parts@))
                && MAX_GROUPS <= limit + 1,
        },
    decreases type_tree(*own),
{
    let ghost tree = type_tree(*own);
    match kind(own) {
        Kind::Binary | Kind::Utf8 => Ok(text_total(parts) <= limit),
        Kind::List => {
            let children = child_types(own);
            if children.len() != 1 {
                return Ok(true);
            }
            let sub = element_parts(parts, Ghost(tree));
            if value_total(&sub) > limit {
                return Ok(false);
            }
            proof {
                lemma_child_smaller(tree, 0);
            }
            fits_within(&children[0], &sub, limit)
        },
        Kind::LargeList => {
            let children = child_types(own);
            if children.len() != 1 {
                return Ok(true);
            }
            let sub = element_parts(parts, Ghost(tree));
            proof {
                lemma_child_smaller(tree, 0);
            }
            fits_within(&children[0], &sub, limit)
        },
        Kind::Struct => {
            let children = child_types(own);
            let mut k: usize = 0;
            while k < children.len()
                invariant
                    tree == type_tree(*own),
                    tree.kind is Struct,
                    all_of_type(parts@, tree),
                    tree.writable(),
                    tree.supported(),
                    limit < usize::MAX,
                    k <= children@.len() == tree.children.len(),
                    forall|i: int|
                        0 <= i < children@.len() ==> type_tree(#[trigger] children@[i])
                            == tree.children[i],
                    forall|i: int|
                        0 <= i < k ==> fits(
                            #[trigger] tree.children[i],
                            field_values(all_values(parts@), i),
                            limit as int,
                        ),
                decreases children@.len() - k,
            {
                let sub = field_parts(parts, k, Ghost(tree));
                proof {
                    lemma_child_smaller(tree, k as int);
                    assert(type_tree(children@[k as int]) == tree.children[k as int]);
                }
                match fits_within(&children[k], &sub, limit) {
                    Ok(true) => {},
                    Ok(false) => return Ok(false),
                    Err(e) => return Err(e),
                }
                k += 1;
            }
            Ok(true)
        },
        Kind::Dictionary => {
            let children = child_types(own);
            proof {
                reveal_with_fuel(fits, 2);
            }
            if children.len() == 2 && matches!(kind(&children[1]), Kind::Utf8) {
                distinct_within(own, parts, limit)
            } else {
                Ok(true)
            }
        },
        _ => Ok(true),
    }
}

} // verus!
