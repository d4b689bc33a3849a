//! How long keys can become in row format, which counts the elements of a list, the bytes of an
//! element and the distinct values of a dictionary in 32 bits.

use crate::columns::{
    column_len, column_type, column_values, data_type, dictionary_array, dictionary_child, is_list,
    is_null, list_child, list_offsets, list_values, struct_child, struct_columns, text_lengths,
    value_len, Column, Value,
};
use crate::data_type::{child_types, kind, lemma_child_smaller, type_tree, Kind, TypeTree};
use crate::limits::items_of;
use arrow::datatypes::DataType;
use vstd::prelude::*;

verus! {

/// A number of bytes, as far as it can be counted in 64 bits.
pub open spec fn clamped(bytes: nat) -> nat {
    if bytes <= u64::MAX {
        bytes
    } else {
        u64::MAX as nat
    }
}

/// The number of bytes of a value of fixed size.
pub open spec fn fixed_len(size: i32) -> nat {
    if size >= 0 {
        1 + size as nat
    } else {
        1
    }
}

/// The number of bytes that text or a list of so many bytes takes up in row format: blocks of 32
/// bytes with one more byte each, and one byte in front.
pub open spec fn padded(bytes: nat) -> nat {
    1 + (bytes + 31) / 32 * 33
}

/// The number of bytes that a value of the kind takes up in row format, where that is the same for
/// all of its values: its own bytes, and one in front.
pub open spec fn width(kind: Kind) -> nat {
    match kind {
        Kind::Nothing => 0,
        Kind::Boolean | Kind::Int8 | Kind::UInt8 => 2,
        Kind::Int16 | Kind::UInt16 | Kind::Float16 => 3,
        Kind::Int32
        | Kind::UInt32
        | Kind::Float32
        | Kind::Date32
        | Kind::Time32Second
        | Kind::Time32Millisecond => 5,
        Kind::Decimal128 | Kind::Interval => 17,
        Kind::Decimal256 => 33,
        _ => 9,
    }
}

/// As many bytes as the value can take up in row format at the most, where a dictionary key takes
/// up `key_len`.
pub open spec fn bound_len(tree: TypeTree, value: Value, key_len: nat) -> nat
    decreases tree, tree.children.len() + 1,
{
    match tree.kind {
        Kind::Binary | Kind::Utf8 | Kind::LargeBinary | Kind::LargeUtf8 => padded(value_len(value)),
        Kind::FixedSizeBinary(size) => fixed_len(size),
        Kind::List | Kind::LargeList => if tree.children.len() == 1 && items_of(value).len() > 0 {
            padded(
                4 * (1 + items_of(value).len()) + items_len(
                    tree.children[0],
                    items_of(value),
                    key_len,
                ),
            )
        } else {
            1
        },
        Kind::Struct => 1 + fields_len(tree, value, key_len, tree.children.len()),
        Kind::Dictionary => 1 + key_len,
        kind => width(kind),
    }
}

/// As many bytes as the values can take up in row format at the most.
pub open spec fn items_len(tree: TypeTree, values: Seq<Value>, key_len: nat) -> nat
    decreases tree, tree.children.len() + 1 + values.len(),
{
    if values.len() == 0 {
        0
    } else {
        items_len(tree, values.drop_last(), key_len) + bound_len(tree, values.last(), key_len)
    }
}

/// A field of a struct. In a null, all fields are nulls.
pub open spec fn field_of(value: Value, field: int) -> Value {
    match value {
        Value::Items(fields) => fields[field],
        _ => Value::Nothing,
    }
}

/// As many bytes as the first fields of a struct can take up in row format at the most.
pub open spec fn fields_len(tree: TypeTree, value: Value, key_len: nat, fields: nat) -> nat
    decreases tree, fields,
{
    if 0 < fields <= tree.children.len() {
        fields_len(tree, value, key_len, (fields - 1) as nat) + bound_len(
            tree.children[fields - 1],
            field_of(value, fields - 1),
            key_len,
        )
    } else {
        0
    }
}

/// Whether 32 bits are sure to count the elements of a list, and the bytes of each of them.
pub open spec fn elements_counted(tree: TypeTree, list: Value, key_len: nat) -> bool {
    &&& items_of(list).len() <= u32::MAX
    &&& forall|e: int|
        0 <= e < items_of(list).len() ==> bound_len(tree, #[trigger] items_of(list)[e], key_len)
            <= u32::MAX
}

/// Whether 32 bits are sure to count the elements of every list in the column, and the bytes of
/// every element. The values array of a list column counts as a whole.
pub open spec fn lists_counted(tree: TypeTree, column: Column, key_len: nat) -> bool
    decreases tree,
{
    match tree.kind {
        Kind::List | Kind::LargeList => tree.children.len() == 1 ==> {
            &&& forall|i: int|
                0 <= i < column_values(column).len() ==> elements_counted(
                    tree.children[0],
                    #[trigger] column_values(column)[i],
                    key_len,
                )
            &&& lists_counted(tree.children[0], list_child(column), key_len)
        },
        Kind::Struct => forall|k: int|
            0 <= k < tree.children.len() ==> lists_counted(
                #[trigger] tree.children[k],
                struct_child(column, k),
                key_len,
            ),
        _ => true,
    }
}

/// The number of values that the dictionaries in the column come with.
pub open spec fn dictionary_values(tree: TypeTree, column: Column) -> nat
    decreases tree, tree.children.len() + 1,
{
    match tree.kind {
        Kind::List | Kind::LargeList => if tree.children.len() == 1 {
            dictionary_values(tree.children[0], list_child(column))
        } else {
            0
        },
        Kind::Struct => dictionary_fields(tree, column, tree.children.len()),
        Kind::Dictionary => column_values(dictionary_child(column)).len(),
        _ => 0,
    }
}

/// The number of values that the dictionaries in the first fields of the structs come with.
pub open spec fn dictionary_fields(tree: TypeTree, column: Column, fields: nat) -> nat
    decreases tree, fields,
{
    if 0 < fields <= tree.children.len() {
        dictionary_fields(tree, column, (fields - 1) as nat) + dictionary_values(
            tree.children[fields - 1],
            struct_child(column, fields - 1),
        )
    } else {
        0
    }
}

/// The product, as far as it can be counted.
fn product(a: u64, b: u64) -> (c: u64)
    ensures
        c == clamped(a as nat * b as nat),
{
    match a.checked_mul(b) {
        Some(c) => c,
        None => u64::MAX,
    }
}

/// The number of bytes that text or a list of so many bytes takes up in row format, as far as it
/// can be counted.
fn padded_len(bytes: u64) -> (len: u64)
    ensures
        len == clamped(padded(bytes as nat)),
        forall|more: nat| bytes == clamped(more) ==> len == clamped(#[trigger] padded(more)),
{
    let blocks: u64 = if bytes % 32 == 0 {
        bytes / 32
    } else {
        bytes / 32 + 1
    };
    product(33, blocks).saturating_add(1)
}

/// The number of bytes that a value of the kind takes up in row format.
fn width_of(kind: Kind) -> (len: u64)
    ensures
        len == width(kind),
{
    match kind {
        Kind::Nothing => 0,
        Kind::Boolean | Kind::Int8 | Kind::UInt8 => 2,
        Kind::Int16 | Kind::UInt16 | Kind::Float16 => 3,
        Kind::Int32
        | Kind::UInt32
        | Kind::Float32
        | Kind::Date32
        | Kind::Time32Second
        | Kind::Time32Millisecond => 5,
        Kind::Decimal128 | Kind::Interval => 17,
        Kind::Decimal256 => 33,
        _ => 9,
    }
}

/// The number of bytes of a value of fixed size.
fn fixed_len_of(size: i32) -> (len: u64)
    ensures
        len == fixed_len(size),
{
    if size >= 0 {
        1 + size as u64
    } else {
        1
    }
}

/// Whether there is one type inside of the data type.
fn has_one_child(own: &DataType) -> (b: bool)
    ensures
        b == (type_tree(*own).children.len() == 1),
{
    child_types(own).len() == 1
}

/// As many bytes as a null of the type can take up in row format at the most, as far as they can
/// be counted.
fn null_bound(own: &DataType, key_len: u64) -> (bytes: u64)
    ensures
        bytes == clamped(bound_len(type_tree(*own), Value::Nothing, key_len as nat)),
    decreases type_tree(*own),
{
    let ghost tree = type_tree(*own);
    match kind(own) {
        Kind::Binary
        | Kind::Utf8
        | Kind::LargeBinary
        | Kind::LargeUtf8
        | Kind::List
        | Kind::LargeList => 1,
        Kind::FixedSizeBinary(size) => fixed_len_of(size),
        Kind::Struct => {
            let children = child_types(own);
            let mut total: u64 = 0;
            let mut k: usize = 0;
            while k < children.len()
                invariant
                    tree == type_tree(*own),
                    k <= children@.len() == tree.children.len(),
                    forall|i: int|
                        0 <= i < children@.len() ==> type_tree(#[trigger] children@[i])
                            == tree.children[i],
                    total == clamped(
                        fields_len(tree, Value::Nothing, key_len as nat, k as nat),
                    ),
                decreases children@.len() - k,
            {
                proof {
                    lemma_child_smaller(tree, k as int);
                    assert(type_tree(children@[k as int]) == tree.children[k as int]);
                }
                total = total.saturating_add(null_bound(&children[k], key_len));
                k += 1;
            }
            total.saturating_add(1)
        },
        Kind::Dictionary => key_len.saturating_add(1),
        kind => width_of(kind),
    }
}

/// Whether the numbers are as many bytes as the values can take up in row format at the most, as
/// far as they can be counted.
spec fn are_bounds(bounds: Seq<u64>, tree: TypeTree, values: Seq<Value>, key_len: nat) -> bool {
    &&& bounds.len() == values.len()
    &&& forall|i: int|
        0 <= i < values.len() ==> #[trigger] bounds[i] == clamped(
            bound_len(tree, values[i], key_len),
        )
}

/// As many bytes as each value of the column can take up in row format at the most, as far as they
/// can be counted.
fn bounds(column: &Column, key_len: u64) -> (bounds: Vec<u64>)
    ensures
        are_bounds(
            bounds@,
            type_tree(column_type(*column)),
            column_values(*column),
            key_len as nat,
        ),
    decreases type_tree(column_type(*column)), 1nat,
{
    let own = data_type(column);
    let n = column_len(column);
    match kind(&own) {
        Kind::Binary | Kind::Utf8 | Kind::LargeBinary | Kind::LargeUtf8 => text_bounds(column),
        Kind::FixedSizeBinary(size) => repeated(fixed_len_of(size), n),
        Kind::List | Kind::LargeList => if has_one_child(&own) {
            list_bounds(column, key_len)
        } else {
            repeated(1, n)
        },
        Kind::Struct => struct_bounds(column, key_len),
        Kind::Dictionary => repeated(key_len.saturating_add(1), n),
        kind => repeated(width_of(kind), n),
    }
}

/// The number, so many times.
fn repeated(len: u64, n: usize) -> (all: Vec<u64>)
    ensures
        all@ == Seq::new(n as nat, |i: int| len),
{
    let mut all: Vec<u64> = Vec::new();
    while all.len() < n
        invariant
            all@.len() <= n,
            forall|i: int| 0 <= i < all@.len() ==> all@[i] == len,
        decreases n - all@.len(),
    {
        all.push(len);
    }
    assert(all@ =~= Seq::new(n as nat, |i: int| len));
    all
}

/// The number of bytes that each text of the column takes up in row format.
fn text_bounds(column: &Column) -> (all: Vec<u64>)
    requires
        type_tree(column_type(*column)).text(),
    ensures
        forall|key_len: nat| #[trigger]
            are_bounds(all@, type_tree(column_type(*column)), column_values(*column), key_len),
{
    let mut all: Vec<u64> = Vec::new();
    if let Ok(lengths) = text_lengths(column) {
        while all.len() < lengths.len()
            invariant
                all@.len() <= lengths@.len() == column_values(*column).len(),
                forall|i: int|
                    0 <= i < lengths@.len() ==> #[trigger] lengths@[i] == value_len(
                        column_values(*column)[i],
                    ),
                forall|i: int|
                    0 <= i < all@.len() ==> #[trigger] all@[i] == clamped(
                        padded(value_len(column_values(*column)[i])),
                    ),
            decreases lengths@.len() - all@.len(),
        {
            all.push(padded_len(lengths[all.len()] as u64));
        }
    }
    all
}

/// As many bytes as each list of the column can take up in row format at the most.
fn list_bounds(column: &Column, key_len: u64) -> (all: Vec<u64>)
    requires
        is_list(column_type(*column)),
    ensures
        are_bounds(all@, type_tree(column_type(*column)), column_values(*column), key_len as nat),
    decreases type_tree(column_type(*column)), 0nat,
{
    let ghost tree = type_tree(column_type(*column));
    let ghost values = column_values(*column);
    let n = column_len(column);
    let child = list_values(column);
    let starts = list_offsets(column);
    proof {
        lemma_child_smaller(tree, 0);
    }
    let inner = bounds(&child, key_len);
    let mut all: Vec<u64> = Vec::new();
    while all.len() < n
        invariant
            all@.len() <= n == values.len(),
            values == column_values(*column),
            tree == type_tree(column_type(*column)),
            is_list(column_type(*column)),
            child == list_child(*column),
            starts@.len() == n + 1,
            forall|i: int|
                0 <= i < n ==> (#[trigger] starts@[i]) <= starts@[i + 1] <= column_values(
                    child,
                ).len(),
            forall|i: int|
                0 <= i < n ==> match #[trigger] values[i] {
                    Value::Nothing => true,
                    Value::Bytes(_) => false,
                    Value::Items(items) => items == column_values(child).subrange(
                        starts@[i] as int,
                        starts@[i + 1] as int,
                    ),
                },
            are_bounds(inner@, tree.children[0], column_values(child), key_len as nat),
            forall|i: int|
                0 <= i < all@.len() ==> #[trigger] all@[i] == clamped(
                    bound_len(tree, values[i], key_len as nat),
                ),
        decreases n - all@.len(),
    {
        let i = all.len();
        assert(starts@[i as int] <= starts@[i + 1]);
        if is_null(column, i) || starts[i] == starts[i + 1] {
            all.push(1);
        } else {
            let ghost items = items_of(values[i as int]);
            let from = starts[i];
            let count = starts[i + 1] - from;
            let mut total: u64 = 0;
            let mut e: usize = 0;
            assert(items.take(0) =~= Seq::<Value>::empty());
            while e < count
                invariant
                    e <= count == items.len(),
                    from + count <= usize::MAX,
                    from + count <= column_values(child).len(),
                    items == column_values(child).subrange(from as int, from + count),
                    are_bounds(inner@, tree.children[0], column_values(child), key_len as nat),
                    total == clamped(
                        items_len(tree.children[0], items.take(e as int), key_len as nat),
                    ),
                decreases count - e,
            {
                proof {
                    let next = items.take(e + 1);
                    assert(next.drop_last() =~= items.take(e as int));
                    assert(next.last() == column_values(child)[from + e]);
                    assert(inner@[from + e] == clamped(
                        bound_len(
                            tree.children[0],
                            column_values(child)[from + e],
                            key_len as nat,
                        ),
                    ));
                }
                total = total.saturating_add(inner[from + e]);
                e += 1;
            }
            assert(items.take(e as int) =~= items);
            let sum = product(4, (count as u64).saturating_add(1)).saturating_add(total);
            proof {
                assert(sum == clamped(
                    4 * (1 + items.len()) + items_len(tree.children[0], items, key_len as nat),
                ));
            }
            all.push(padded_len(sum));
        }
    }
    all
}

/// As many bytes as each struct of the column can take up in row format at the most.
fn struct_bounds(column: &Column, key_len: u64) -> (all: Vec<u64>)
    requires
        type_tree(column_type(*column)).kind is Struct,
    ensures
        are_bounds(all@, type_tree(column_type(*column)), column_values(*column), key_len as nat),
    decreases type_tree(column_type(*column)), 0nat,
{
    let ghost tree = type_tree(column_type(*column));
    let ghost values = column_values(*column);
    let own = data_type(column);
    let n = column_len(column);
    let null = null_bound(&own, key_len);
    let fields = struct_columns(column);
    let mut inner: Vec<Vec<u64>> = Vec::new();
    while inner.len() < fields.len()
        invariant
            inner@.len() <= fields@.len() == tree.children.len(),
            tree == type_tree(column_type(*column)),
            forall|k: int|
                0 <= k < fields@.len() ==> type_tree(column_type(#[trigger] fields@[k]))
                    == tree.children[k],
            forall|k: int|
                0 <= k < inner@.len() ==> are_bounds(
                    #[trigger] inner@[k]@,
                    tree.children[k],
                    column_values(fields@[k]),
                    key_len as nat,
                ),
        decreases fields@.len() - inner@.len(),
    {
        let k = inner.len();
        proof {
            lemma_child_smaller(tree, k as int);
            assert(type_tree(column_type(fields@[k as int])) == tree.children[k as int]);
        }
        inner.push(bounds(&fields[k], key_len));
    }
    let mut all: Vec<u64> = Vec::new();
    while all.len() < n
        invariant
            all@.len() <= n == values.len(),
            values == column_values(*column),
            tree == type_tree(column_type(*column)),
            tree.kind is Struct,
            null == clamped(bound_len(tree, Value::Nothing, key_len as nat)),
            inner@.len() == fields@.len() == tree.children.len(),
            forall|k: int|
                0 <= k < fields@.len() ==> column_values(#[trigger] fields@[k]).len() >= n,
            forall|k: int|
                0 <= k < inner@.len() ==> are_bounds(
                    #[trigger] inner@[k]@,
                    tree.children[k],
                    column_values(fields@[k]),
                    key_len as nat,
                ),
            forall|i: int|
                0 <= i < n ==> match #[trigger] values[i] {
                    Value::Nothing => true,
                    Value::Bytes(_) => false,
                    Value::Items(items) => items == Seq::new(
                        fields@.len(),
                        |k: int| column_values(fields@[k])[i],
                    ),
                },
            forall|i: int|
                0 <= i < all@.len() ==> #[trigger] all@[i] == clamped(
                    bound_len(tree, values[i], key_len as nat),
                ),
        decreases n - all@.len(),
    {
        let i = all.len();
        if is_null(column, i) {
            all.push(null);
        } else {
            let ghost value = values[i as int];
            let mut total: u64 = 0;
            let mut k: usize = 0;
            while k < inner.len()
                invariant
                    k <= inner@.len() == fields@.len() == tree.children.len(),
                    i < n,
                    value is Items,
                    value->Items_0 == Seq::new(
                        fields@.len(),
                        |k: int| column_values(fields@[k])[i as int],
                    ),
                    forall|k: int|
                        0 <= k < fields@.len() ==> column_values(#[trigger] fields@[k]).len() >= n,
                    forall|k: int|
                        0 <= k < inner@.len() ==> are_bounds(
                            #[trigger] inner@[k]@,
                            tree.children[k],
                            column_values(fields@[k]),
                            key_len as nat,
                        ),
                    total == clamped(fields_len(tree, value, key_len as nat, k as nat)),
                decreases inner@.len() - k,
            {
                proof {
                    assert(are_bounds(
                        inner@[k as int]@,
                        tree.children[k as int],
                        column_values(fields@[k as int]),
                        key_len as nat,
                    ));
                    assert(column_values(fields@[k as int]).len() >= n);
                    assert(inner@[k as int]@[i as int] == clamped(
                        bound_len(
                            tree.children[k as int],
                            field_of(value, k as int),
                            key_len as nat,
                        ),
                    ));
                }
                total = total.saturating_add(inner[k][i]);
                k += 1;
            }
            all.push(total.saturating_add(1));
        }
    }
    all
}

/// Whether 32 bits are sure to count the elements of every list in the column, and the bytes of
/// every element.
fn are_lists_counted(column: &Column, key_len: u64) -> (b: bool)
    ensures
        b == lists_counted(type_tree(column_type(*column)), *column, key_len as nat),
    decreases type_tree(column_type(*column)),
{
    let own = data_type(column);
    let ghost tree = type_tree(own);
    match kind(&own) {
        Kind::List | Kind::LargeList => if has_one_child(&own) {
            proof {
                lemma_child_smaller(tree, 0);
            }
            are_elements_counted(column, key_len) && are_lists_counted(
                &list_values(column),
                key_len,
            )
        } else {
            true
        },
        Kind::Struct => {
            let fields = struct_columns(column);
            let mut k: usize = 0;
            while k < fields.len()
                invariant
                    k <= fields@.len() == tree.children.len(),
                    tree == type_tree(column_type(*column)),
                    tree.kind is Struct,
                    forall|i: int|
                        0 <= i < fields@.len() ==> #[trigger] fields@[i] == struct_child(*column, i)
                            && type_tree(column_type(fields@[i])) == tree.children[i],
                    forall|i: int|
                        0 <= i < k ==> lists_counted(
                            #[trigger] tree.children[i],
                            struct_child(*column, i),
                            key_len as nat,
                        ),
                decreases fields@.len() - k,
            {
                assert(fields@[k as int] == struct_child(*column, k as int));
                proof {
                    lemma_child_smaller(tree, k as int);
                }
                if !are_lists_counted(&fields[k], key_len) {
                    assert(!lists_counted(
                        tree.children[k as int],
                        struct_child(*column, k as int),
                        key_len as nat,
                    ));
                    return false;
                }
                k += 1;
            }
            true
        },
        _ => true,
    }
}

/// Whether 32 bits are sure to count the elements of the lists in the column, and the bytes of each
/// element.
fn are_elements_counted(column: &Column, key_len: u64) -> (b: bool)
    requires
        is_list(column_type(*column)),
    ensures
        b == forall|i: int|
            0 <= i < column_values(*column).len() ==> elements_counted(
                type_tree(column_type(*column)).children[0],
                #[trigger] column_values(*column)[i],
                key_len as nat,
            ),
{
    let ghost tree = type_tree(column_type(*column)).children[0];
    let ghost values = column_values(*column);
    let n = column_len(column);
    let child = list_values(column);
    let starts = list_offsets(column);
    let inner = bounds(&child, key_len);
    let most = u32::MAX as u64;
    let mut i: usize = 0;
    while i < n
        invariant
            i <= n == values.len(),
            values == column_values(*column),
            tree == type_tree(column_type(*column)).children[0],
            is_list(column_type(*column)),
            child == list_child(*column),
            most == u32::MAX,
            starts@.len() == n + 1,
            forall|i: int|
                0 <= i < n ==> (#[trigger] starts@[i]) <= starts@[i + 1] <= column_values(
                    child,
                ).len(),
            forall|i: int|
                0 <= i < n ==> match #[trigger] values[i] {
                    Value::Nothing => true,
                    Value::Bytes(_) => false,
                    Value::Items(items) => items == column_values(child).subrange(
                        starts@[i] as int,
                        starts@[i + 1] as int,
                    ),
                },
            are_bounds(inner@, tree, column_values(child), key_len as nat),
            forall|k: int|
                0 <= k < i ==> elements_counted(tree, #[trigger] values[k], key_len as nat),
        decreases n - i,
    {
        assert(starts@[i as int] <= starts@[i + 1]);
        if !is_null(column, i) {
            let ghost items = items_of(values[i as int]);
            let from = starts[i];
            let count = starts[i + 1] - from;
            if count as u64 > most {
                assert(!elements_counted(tree, values[i as int], key_len as nat));
                return false;
            }
            let mut e: usize = 0;
            while e < count
                invariant
                    e <= count == items.len(),
                    i < n == values.len(),
                    values == column_values(*column),
                    tree == type_tree(column_type(*column)).children[0],
                    items == items_of(values[i as int]),
                    most == u32::MAX,
                    from + count <= usize::MAX,
                    from + count <= column_values(child).len(),
                    items == column_values(child).subrange(from as int, from + count),
                    are_bounds(inner@, tree, column_values(child), key_len as nat),
                    forall|k: int|
                        0 <= k < e ==> bound_len(tree, #[trigger] items[k], key_len as nat)
                            <= u32::MAX,
                decreases count - e,
            {
                assert(inner@[from + e] == clamped(
                    bound_len(tree, column_values(child)[from + e], key_len as nat),
                ));
                if inner[from + e] > most {
                    assert(bound_len(tree, items[e as int], key_len as nat) > u32::MAX);
                    assert(!elements_counted(tree, values[i as int], key_len as nat));
                    return false;
                }
                e += 1;
            }
        }
        i += 1;
    }
    true
}

/// The number of values that the dictionaries in the column come with, as far as it can be
/// counted.
fn count_dictionary_values(column: &Column) -> (n: u64)
    ensures
        n == clamped(dictionary_values(type_tree(column_type(*column)), *column)),
    decreases type_tree(column_type(*column)),
{
    let own = data_type(column);
    let ghost tree = type_tree(own);
    match kind(&own) {
        Kind::List | Kind::LargeList => if has_one_child(&own) {
            let child = list_values(column);
            proof {
                lemma_child_smaller(tree, 0);
            }
            count_dictionary_values(&child)
        } else {
            0
        },
        Kind::Struct => {
            let fields = struct_columns(column);
            let mut total: u64 = 0;
            let mut k: usize = 0;
            while k < fields.len()
                invariant
                    k <= fields@.len() == tree.children.len(),
                    tree == type_tree(column_type(*column)),
                    forall|i: int|
                        0 <= i < fields@.len() ==> #[trigger] fields@[i] == struct_child(*column, i)
                            && type_tree(column_type(fields@[i])) == tree.children[i],
                    total == clamped(dictionary_fields(tree, *column, k as nat)),
                decreases fields@.len() - k,
            {
                assert(fields@[k as int] == struct_child(*column, k as int));
                proof {
                    lemma_child_smaller(tree, k as int);
                }
                total = total.saturating_add(count_dictionary_values(&fields[k]));
                k += 1;
            }
            total
        },
        Kind::Dictionary => column_len(&dictionary_array(column)) as u64,
        _ => 0,
    }
}

/// The number of values that the dictionaries in the columns come with.
pub open spec fn new_values(columns: Seq<Column>) -> nat
    decreases columns.len(),
{
    if columns.len() == 0 {
        0
    } else {
        new_values(columns.drop_last()) + dictionary_values(
            type_tree(column_type(columns.last())),
            columns.last(),
        )
    }
}

/// What a converter has taken note of, as far as it is known.
pub struct Noted {
    /// As many dictionary values as there can be at the most.
    pub values: nat,
    /// As many bytes as the longest dictionary key can have at the most, but for the one that ends
    /// it.
    pub longest: nat,
}

/// As many bytes as the longest dictionary key can have at the most, once so many more values have
/// been taken note of. A key becomes longer where its place among the others is taken, and then by
/// one byte for every 254 values that come at once.
pub open spec fn longest_after(longest: nat, new: nat) -> nat {
    if new == 0 {
        longest
    } else {
        longest + new / 254 + 1
    }
}

impl Noted {
    /// Nothing has been taken note of.
    pub open spec fn nothing() -> Noted {
        Noted { values: 0, longest: 0 }
    }

    /// Whether there is no more of anything.
    pub open spec fn at_most(self, other: Noted) -> bool {
        self.values <= other.values && self.longest <= other.longest
    }

    /// What there can be, where all of it takes up no more than so many bytes: 16 for each value
    /// besides its key.
    pub open spec fn within(self, bytes: usize) -> Noted {
        Noted {
            values: if self.values <= bytes / 16 {
                self.values
            } else {
                (bytes / 16) as nat
            },
            longest: if self.longest <= bytes {
                self.longest
            } else {
                bytes as nat
            },
        }
    }

    /// What there can be once the dictionaries in the columns have been taken note of.
    pub open spec fn after(self, columns: Seq<Column>) -> Noted {
        Noted {
            values: clamped(self.values + new_values(columns)),
            longest: clamped(longest_after(self.longest, new_values(columns))),
        }
    }
}

/// As many bytes as a dictionary key can take up at the most, once so many more values have been
/// taken note of.
pub open spec fn key_len(longest: nat, new: nat) -> nat {
    if new == 0 {
        0
    } else {
        clamped(longest_after(longest, new) + 1)
    }
}

/// Whether 32 bits are sure to count what the row format counts in the columns, where the
/// converter has taken note of so much before.
pub open spec fn encodable(columns: Seq<Column>, noted: Noted) -> bool {
    let new = new_values(columns);
    &&& new > 0 ==> noted.values + new <= u32::MAX
    &&& forall|j: int|
        0 <= j < columns.len() ==> lists_counted(
            type_tree(column_type(#[trigger] columns[j])),
            columns[j],
            key_len(noted.longest, new),
        )
}

/// Whether all values in the column have an encoding: a struct without fields has none unless it
/// is a null. What stands behind a null counts too.
pub open spec fn structs_written(tree: TypeTree, column: Column) -> bool
    decreases tree,
{
    match tree.kind {
        Kind::List | Kind::LargeList => tree.children.len() == 1 ==> structs_written(
            tree.children[0],
            list_child(column),
        ),
        Kind::Struct => {
            &&& tree.children.len() == 0 ==> forall|i: int|
                0 <= i < column_values(column).len() ==> #[trigger] column_values(column)[i]
                    is Nothing
            &&& forall|k: int|
                0 <= k < tree.children.len() ==> structs_written(
                    #[trigger] tree.children[k],
                    struct_child(column, k),
                )
        },
        _ => true,
    }
}

/// Whether all values in the columns have an encoding.
pub open spec fn all_written(columns: Seq<Column>) -> bool {
    forall|j: int|
        0 <= j < columns.len() ==> structs_written(
            type_tree(column_type(#[trigger] columns[j])),
            columns[j],
        )
}

/// Shorter dictionary keys take up less.
proof fn lemma_bound_more(tree: TypeTree, value: Value, less: nat, more: nat)
    requires
        less <= more,
    ensures
        bound_len(tree, value, less) <= bound_len(tree, value, more),
    decreases tree, tree.children.len() + 1,
{
    match tree.kind {
        Kind::List | Kind::LargeList => {
            if tree.children.len() == 1 {
                lemma_child_smaller(tree, 0);
                lemma_items_more(tree.children[0], items_of(value), less, more);
            }
        },
        Kind::Struct => lemma_fields_more(tree, value, less, more, tree.children.len()),
        _ => {},
    }
}

/// Shorter dictionary keys take up less in the elements of lists.
proof fn lemma_items_more(tree: TypeTree, values: Seq<Value>, less: nat, more: nat)
    requires
        less <= more,
    ensures
        items_len(tree, values, less) <= items_len(tree, values, more),
    decreases tree, tree.children.len() + 1 + values.len(),
{
    if values.len() > 0 {
        lemma_items_more(tree, values.drop_last(), less, more);
        lemma_bound_more(tree, values.last(), less, more);
    }
}

/// Shorter dictionary keys take up less in the fields of structs.
proof fn lemma_fields_more(tree: TypeTree, value: Value, less: nat, more: nat, fields: nat)
    requires
        less <= more,
        fields <= tree.children.len(),
    ensures
        fields_len(tree, value, less, fields) <= fields_len(tree, value, more, fields),
    decreases tree, fields,
{
    if fields > 0 {
        lemma_child_smaller(tree, fields - 1);
        lemma_fields_more(tree, value, less, more, (fields - 1) as nat);
        lemma_bound_more(tree.children[fields - 1], field_of(value, fields - 1), less, more);
    }
}

/// What can be counted with longer dictionary keys can be with shorter ones.
proof fn lemma_lists_counted(tree: TypeTree, column: Column, less: nat, more: nat)
    requires
        less <= more,
        lists_counted(tree, column, more),
    ensures
        lists_counted(tree, column, less),
    decreases tree,
{
    match tree.kind {
        Kind::List | Kind::LargeList => {
            if tree.children.len() == 1 {
                lemma_child_smaller(tree, 0);
                assert forall|i: int| 0 <= i < column_values(column).len() implies elements_counted(
                    tree.children[0],
                    #[trigger] column_values(column)[i],
                    less,
                ) by {
                    let list = column_values(column)[i];
                    assert(elements_counted(tree.children[0], list, more));
                    assert forall|e: int| 0 <= e < items_of(list).len() implies bound_len(
                        tree.children[0],
                        #[trigger] items_of(list)[e],
                        less,
                    ) <= u32::MAX by {
                        lemma_bound_more(tree.children[0], items_of(list)[e], less, more);
                    }
                }
                lemma_lists_counted(tree.children[0], list_child(column), less, more);
            }
        },
        Kind::Struct => {
            assert forall|k: int| 0 <= k < tree.children.len() implies lists_counted(
                #[trigger] tree.children[k],
                struct_child(column, k),
                less,
            ) by {
                lemma_child_smaller(tree, k);
                lemma_lists_counted(tree.children[k], struct_child(column, k), less, more);
            }
        },
        _ => {},
    }
}

/// What can be counted where more has been taken note of can be where less has.
pub proof fn law_encodable(columns: Seq<Column>, less: Noted, more: Noted)
    requires
        less.at_most(more),
        encodable(columns, more),
    ensures
        encodable(columns, less),
{
    let new = new_values(columns);
    assert forall|j: int| 0 <= j < columns.len() implies lists_counted(
        type_tree(column_type(#[trigger] columns[j])),
        columns[j],
        key_len(less.longest, new),
    ) by {
        lemma_lists_counted(
            type_tree(column_type(columns[j])),
            columns[j],
            key_len(less.longest, new),
            key_len(more.longest, new),
        );
    }
}

/// Where there are neither lists nor dictionaries, there is nothing to count.
proof fn lemma_not_counted(tree: TypeTree, column: Column, len: nat)
    requires
        !tree.counted(),
    ensures
        lists_counted(tree, column, len),
        dictionary_values(tree, column) == 0,
    decreases tree,
{
    if tree.kind is Struct {
        assert forall|k: int| 0 <= k < tree.children.len() implies lists_counted(
            #[trigger] tree.children[k],
            struct_child(column, k),
            len,
        ) && dictionary_values(tree.children[k], struct_child(column, k)) == 0 by {
            lemma_child_smaller(tree, k);
            assert(!tree.children[k].counted());
            lemma_not_counted(tree.children[k], struct_child(column, k), len);
        }
        lemma_no_dictionaries(tree, column, tree.children.len());
    }
}

/// Fields without dictionaries come with no dictionary values.
proof fn lemma_no_dictionaries(tree: TypeTree, column: Column, fields: nat)
    requires
        forall|k: int|
            #![trigger tree.children[k]]
            0 <= k < tree.children.len() ==> dictionary_values(
                tree.children[k],
                struct_child(column, k),
            ) == 0,
    ensures
        dictionary_fields(tree, column, fields) == 0,
    decreases fields,
{
    if 0 < fields <= tree.children.len() {
        lemma_no_dictionaries(tree, column, (fields - 1) as nat);
        assert(dictionary_values(
            tree.children[fields - 1],
            struct_child(column, fields - 1),
        ) == 0);
    }
}

/// Keys without lists and dictionaries can always be written, whatever has been written before.
pub proof fn law_flat_keys_encodable(columns: Seq<Column>, noted: Noted)
    requires
        forall|j: int|
            0 <= j < columns.len() ==> !type_tree(column_type(#[trigger] columns[j])).counted(),
    ensures
        encodable(columns, noted),
        new_values(columns) == 0,
    decreases columns.len(),
{
    if columns.len() > 0 {
        let tree = type_tree(column_type(columns.last()));
        assert(!type_tree(column_type(columns[columns.len() - 1])).counted());
        assert forall|j: int| 0 <= j < columns.len() - 1 implies !type_tree(
            column_type(#[trigger] columns.drop_last()[j]),
        ).counted() by {
            assert(columns.drop_last()[j] == columns[j]);
        }
        law_flat_keys_encodable(columns.drop_last(), noted);
        lemma_not_counted(tree, columns.last(), 0);
        assert forall|j: int| 0 <= j < columns.len() implies lists_counted(
            type_tree(column_type(#[trigger] columns[j])),
            columns[j],
            0,
        ) by {
            lemma_not_counted(type_tree(column_type(columns[j])), columns[j], 0);
        }
    }
}

/// The number of values that the dictionaries in the first columns come with, as far as it can be
/// counted.
pub(crate) fn count_new_values(columns: &Vec<Column>, first: usize) -> (n: u64)
    requires
        first <= columns@.len(),
    ensures
        n == clamped(new_values(columns@.take(first as int))),
{
    let mut total: u64 = 0;
    let mut j: usize = 0;
    assert(columns@.take(0) =~= Seq::<Column>::empty());
    while j < first
        invariant
            j <= first <= columns@.len(),
            total == clamped(new_values(columns@.take(j as int))),
        decreases first - j,
    {
        total = total.saturating_add(count_dictionary_values(&columns[j]));
        assert(columns@.take(j + 1).drop_last() =~= columns@.take(j as int));
        j += 1;
    }
    total
}

/// Whether 32 bits are sure to count what the row format counts in the first columns, where the
/// converter has taken note of so many dictionary values before, and the longest key has so many
/// bytes.
pub fn is_encodable(columns: &Vec<Column>, first: usize, values: u64, longest: u64) -> (b: bool)
    requires
        first <= columns@.len(),
    ensures
        b == encodable(
            columns@.take(first as int),
            (Noted { values: values as nat, longest: longest as nat }),
        ),
{
    let ghost leading = columns@.take(first as int);
    let new = count_new_values(columns, first);
    let len: u64 = if new == 0 {
        0
    } else {
        if values.saturating_add(new) > u32::MAX as u64 {
            return false;
        }
        longest.saturating_add(new / 254 + 2)
    };
    let mut j: usize = 0;
    while j < first
        invariant
            j <= first <= columns@.len(),
            leading == columns@.take(first as int),
            len == key_len(longest as nat, new_values(leading)),
            forall|k: int|
                0 <= k < j ==> lists_counted(
                    type_tree(column_type(#[trigger] leading[k])),
                    leading[k],
                    key_len(longest as nat, new_values(leading)),
                ),
        decreases first - j,
    {
        assert(leading[j as int] == columns@[j as int]);
        if !are_lists_counted(&columns[j], len) {
            return false;
        }
        j += 1;
    }
    true
}

/// Whether all values in the column have an encoding.
fn is_written(column: &Column) -> (b: bool)
    ensures
        b == structs_written(type_tree(column_type(*column)), *column),
    decreases type_tree(column_type(*column)),
{
    let own = data_type(column);
    let ghost tree = type_tree(own);
    match kind(&own) {
        Kind::List | Kind::LargeList => if has_one_child(&own) {
            proof {
                lemma_child_smaller(tree, 0);
            }
            is_written(&list_values(column))
        } else {
            true
        },
        Kind::Struct => {
            let fields = struct_columns(column);
            if fields.len() == 0 {
                let n = column_len(column);
                let mut i: usize = 0;
                while i < n
                    invariant
                        i <= n == column_values(*column).len(),
                        tree == type_tree(column_type(*column)),
                        tree.kind is Struct,
                        tree.children.len() == 0,
                        forall|k: int|
                            0 <= k < i ==> #[trigger] column_values(*column)[k] is Nothing,
                    decreases n - i,
                {
                    if !is_null(column, i) {
                        return false;
                    }
                    i += 1;
                }
            }
            let mut k: usize = 0;
            while k < fields.len()
                invariant
                    k <= fields@.len() == tree.children.len(),
                    tree == type_tree(column_type(*column)),
                    tree.kind is Struct,
                    forall|i: int|
                        0 <= i < fields@.len() ==> #[trigger] fields@[i] == struct_child(*column, i)
                            && type_tree(column_type(fields@[i])) == tree.children[i],
                    forall|i: int|
                        0 <= i < k ==> structs_written(
                            #[trigger] tree.children[i],
                            struct_child(*column, i),
                        ),
                decreases fields@.len() - k,
            {
                assert(fields@[k as int] == struct_child(*column, k as int));
                proof {
                    lemma_child_smaller(tree, k as int);
                }
                if !is_written(&fields[k]) {
                    assert(!structs_written(
                        tree.children[k as int],
                        struct_child(*column, k as int),
                    ));
                    return false;
                }
                k += 1;
            }
            true
        },
        _ => true,
    }
}

/// Whether all values in the first columns have an encoding.
pub(crate) fn are_written(columns: &Vec<Column>, first: usize) -> (b: bool)
    requires
        first <= columns@.len(),
    ensures
        b == all_written(columns@.take(first as int)),
{
    let ghost leading = columns@.take(first as int);
    let mut j: usize = 0;
    while j < first
        invariant
            j <= first <= columns@.len(),
            leading == columns@.take(first as int),
            forall|k: int|
                0 <= k < j ==> structs_written(
                    type_tree(column_type(#[trigger] leading[k])),
                    leading[k],
                ),
        decreases first - j,
    {
        assert(leading[j as int] == columns@[j as int]);
        if !is_written(&columns[j]) {
            return false;
        }
        j += 1;
    }
    true
}

} // verus!
