//! Which types of columns an aggregation takes, variant by variant: which can be group keys, which
//! can be handed out again, and of which there can be an empty output.

use crate::columns::{batch_rows, batch_schema, Batch};
use crate::data_type::{
    lemma_child_smaller, schema_types, type_tree, Kind, Making, TypeTree,
};
use crate::error::AggregateError;
use crate::group_values::store_fails;
use crate::rows::codecs_making;
use arrow::datatypes::{DataType, Schema};
use std::sync::Arc;
use vstd::prelude::*;

verus! {

/// Whether the variant is a flat one that arrow has columns of: a null, a truth value, a number, a
/// date, a time of a unit that goes with its width, a span of time, text or bytes.
pub open spec fn plain(kind: Kind) -> bool {
    match kind {
        Kind::Nothing => true,
        Kind::Boolean => true,
        Kind::Int8 => true,
        Kind::Int16 => true,
        Kind::Int32 => true,
        Kind::Int64 => true,
        Kind::UInt8 => true,
        Kind::UInt16 => true,
        Kind::UInt32 => true,
        Kind::UInt64 => true,
        Kind::Float16 => true,
        Kind::Float32 => true,
        Kind::Float64 => true,
        Kind::Decimal128 => true,
        Kind::Decimal256 => true,
        Kind::Date32 => true,
        Kind::Date64 => true,
        Kind::Time32Second => true,
        Kind::Time32Millisecond => true,
        Kind::Time32Microsecond => false,
        Kind::Time32Nanosecond => false,
        Kind::Time64Second => false,
        Kind::Time64Millisecond => false,
        Kind::Time64Microsecond => true,
        Kind::Time64Nanosecond => true,
        Kind::Timestamp => true,
        Kind::Duration => true,
        Kind::Interval => true,
        Kind::Binary => true,
        Kind::LargeBinary => true,
        Kind::Utf8 => true,
        Kind::LargeUtf8 => true,
        Kind::FixedSizeBinary(_) => false,
        Kind::List => false,
        Kind::LargeList => false,
        Kind::FixedSizeList(_) => false,
        Kind::Struct => false,
        Kind::Entries => false,
        Kind::Union => false,
        Kind::Dictionary => false,
        Kind::RunEndEncoded => false,
    }
}

/// Whether the variant is a whole number, as the keys of a dictionary are.
pub open spec fn whole_number(kind: Kind) -> bool {
    match kind {
        Kind::Int8 | Kind::Int16 | Kind::Int32 | Kind::Int64 => true,
        Kind::UInt8 | Kind::UInt16 | Kind::UInt32 | Kind::UInt64 => true,
        _ => false,
    }
}

/// Whether a column of flat values can be the values of a dictionary among group keys: numbers,
/// dates, times, spans of time, text, and bytes under 64-bit offsets.
pub open spec fn key_values(kind: Kind) -> bool {
    plain(kind) && !(kind is Nothing) && !(kind is Boolean) && !(kind is Binary)
}

/// Plain types can be group keys: a store can be made for them, it writes them, and it turns them
/// into columns again. There are nulls of them.
pub proof fn law_plain_types(tree: TypeTree)
    requires
        plain(tree.kind),
    ensures
        tree.writable(),
        tree.readable(),
        tree.admitted(),
        tree.making() is Done,
        tree.supported(),
        tree.null_made(),
        !tree.nested(),
        !tree.counted(),
        tree.short_offsets() == (tree.kind is Binary || tree.kind is Utf8),
        tree.plain_text() == (tree.kind is Binary || tree.kind is Utf8),
        tree.text() == (tree.kind is Binary || tree.kind is Utf8 || tree.kind is LargeBinary
            || tree.kind is LargeUtf8),
        tree.children.len() == 0 ==> tree.in_arrow(),
{
}

/// There are no columns of times of a unit that their width does not go with. They are admitted as
/// group keys, and then can be neither written nor read.
pub proof fn law_odd_times(tree: TypeTree)
    requires
        tree.kind is Time32Microsecond || tree.kind is Time32Nanosecond || tree.kind
            is Time64Second || tree.kind is Time64Millisecond,
    ensures
        !tree.writable(),
        !tree.readable(),
        !tree.in_arrow(),
        tree.admitted(),
        tree.making() is Done,
        tree.null_made(),
{
}

/// Bytes of a fixed number can be group keys where the number is one.
pub proof fn law_fixed_size(tree: TypeTree, size: i32)
    requires
        tree.kind == Kind::FixedSizeBinary(size),
    ensures
        tree.writable() == (size >= 0),
        tree.readable() == (size != -1),
        tree.null_made() == (size >= 0),
        tree.admitted(),
        tree.making() is Done,
        tree.children.len() == 0 ==> tree.in_arrow(),
        !tree.short_offsets(),
        !tree.counted(),
        !tree.nested(),
{
}

/// A list can be a group key exactly where its elements can.
pub proof fn law_lists(tree: TypeTree)
    requires
        tree.kind is List || tree.kind is LargeList,
        tree.children.len() == 1,
    ensures
        tree.writable() == tree.children[0].writable(),
        tree.readable() == tree.children[0].readable(),
        tree.admitted() == tree.children[0].admitted(),
        tree.making() == tree.children[0].making(),
        tree.supported() == tree.children[0].supported(),
        tree.in_arrow() == tree.children[0].in_arrow(),
        tree.null_made(),
        tree.nested(),
        tree.counted(),
        tree.kind is List ==> tree.short_offsets(),
        tree.kind is LargeList ==> tree.short_offsets() == tree.children[0].short_offsets(),
{
    assert(tree.fields_making(0) is Done);
    assert(tree.fields_making(1) == tree.children[0].making());
}

/// A struct can be a group key exactly where its fields can.
pub proof fn law_structs(tree: TypeTree)
    requires
        tree.kind is Struct,
    ensures
        tree.writable() == forall|i: int|
            0 <= i < tree.children.len() ==> (#[trigger] tree.children[i]).writable(),
        tree.readable() == forall|i: int|
            0 <= i < tree.children.len() ==> (#[trigger] tree.children[i]).readable(),
        tree.admitted() == forall|i: int|
            0 <= i < tree.children.len() ==> (#[trigger] tree.children[i]).admitted(),
        tree.null_made() == forall|i: int|
            0 <= i < tree.children.len() ==> (#[trigger] tree.children[i]).null_made(),
        tree.in_arrow() == forall|i: int|
            0 <= i < tree.children.len() ==> (#[trigger] tree.children[i]).in_arrow(),
        tree.short_offsets() == exists|i: int|
            0 <= i < tree.children.len() && (#[trigger] tree.children[i]).short_offsets(),
        tree.counted() == exists|i: int|
            0 <= i < tree.children.len() && (#[trigger] tree.children[i]).counted(),
        tree.nested(),
{
}

/// A store can be made for a struct exactly where it can for all its fields, and the fields can be
/// written. Where it can for the fields alone, it never comes to an end; otherwise it ends as it
/// does for the first field for which it cannot.
pub proof fn law_making_structs(tree: TypeTree, first: int)
    requires
        tree.kind is Struct,
        0 <= first <= tree.children.len(),
        forall|i: int| 0 <= i < first ==> (#[trigger] tree.children[i]).making() is Done,
        first < tree.children.len() ==> !(tree.children[first].making() is Done),
    ensures
        tree.making() == if first < tree.children.len() {
            tree.children[first].making()
        } else if forall|i: int|
            0 <= i < tree.children.len() ==> (#[trigger] tree.children[i]).writable() {
            Making::Done
        } else {
            Making::Stuck
        },
{
    lemma_fields_making(tree, first, tree.children.len() as int);
}

/// Making what encodes some fields ends as it does for the first field for which it fails.
proof fn lemma_fields_making(tree: TypeTree, first: int, fields: int)
    requires
        0 <= first <= tree.children.len(),
        0 <= fields <= tree.children.len(),
        forall|i: int| 0 <= i < first ==> (#[trigger] tree.children[i]).making() is Done,
        first < tree.children.len() ==> !(tree.children[first].making() is Done),
    ensures
        tree.fields_making(fields as nat) == if first < fields {
            tree.children[first].making()
        } else {
            Making::Done
        },
    decreases fields,
{
    if fields > 0 {
        lemma_fields_making(tree, first, fields - 1);
    }
}

/// A dictionary of flat values can be a group key where its keys are whole numbers and its values
/// are numbers, dates, times, text, or bytes under 64-bit offsets. It is handed out again also
/// where its values are nulls, truth values or other bytes.
pub proof fn law_dictionaries(tree: TypeTree)
    requires
        tree.kind is Dictionary,
        tree.children.len() == 2,
    ensures
        !tree.children[1].nested() ==> tree.writable() == (whole_number(tree.children[0].kind)
            && key_values(tree.children[1].kind)),
        !tree.children[1].nested() ==> tree.readable() == (whole_number(tree.children[0].kind)
            && plain(tree.children[1].kind)),
        tree.admitted() == !tree.children[1].nested(),
        (tree.making() is Done) == !tree.children[1].nested(),
        (tree.making() is Refused) == tree.children[1].nested(),
        tree.nested() == tree.children[1].nested(),
        tree.in_arrow() == (tree.children[0].in_arrow() && tree.children[1].in_arrow()
            && whole_number(tree.children[0].kind)),
        tree.internable() == (whole_number(tree.children[0].kind) && key_values(
            tree.children[1].kind,
        )),
        tree.restorable() == (whole_number(tree.children[0].kind) && plain(tree.children[1].kind)),
        tree.null_made(),
        tree.counted(),
        tree.short_offsets() == (tree.children[0].short_offsets()
            || tree.children[1].short_offsets()),
{
    reveal_with_fuel(TypeTree::nested, 2);
}

/// Lists of a fixed number of elements, maps and unions cannot be group keys: no store can be made
/// for them. There are columns of them where there are of what they hold; a map holds entries of
/// two fields, and a union at least one field under numbers that are not negative.
pub proof fn law_refused_types(tree: TypeTree)
    requires
        tree.kind is FixedSizeList || tree.kind is Entries || tree.kind is Union,
    ensures
        tree.making() is Refused,
        tree.nested(),
        !(tree.kind is Entries) ==> !tree.admitted(),
        tree.kind is Entries ==> tree.admitted() == forall|i: int|
            0 <= i < tree.children.len() ==> (#[trigger] tree.children[i]).admitted(),
        !tree.supported(),
        tree.kind is FixedSizeList ==> tree.in_arrow() == forall|i: int|
            0 <= i < tree.children.len() ==> (#[trigger] tree.children[i]).in_arrow(),
        tree.kind is Entries && tree.children.len() == 1 && tree.children[0].kind is Struct
            && tree.children[0].children.len() == 2 ==> tree.in_arrow()
            == tree.children[0].in_arrow(),
        tree.kind is Entries && (tree.children.len() != 1 || !(tree.children[0].kind is Struct)
            || tree.children[0].children.len() != 2) ==> !tree.in_arrow(),
        tree.kind is Union ==> tree.in_arrow() == {
            &&& tree.children.len() > 0
            &&& forall|i: int|
                0 <= i < tree.children.len() ==> (#[trigger] tree.children[i]).in_arrow()
            &&& forall|i: int| 0 <= i < tree.ids.len() ==> #[trigger] tree.ids[i] >= 0
        },
        tree.kind is Entries ==> tree.null_made(),
        tree.kind is Union ==> tree.null_made() == (tree.children.len() > 0
            && tree.children[0].null_made()),
        tree.kind matches Kind::FixedSizeList(size) ==> tree.null_made() == (size >= 0 && forall|
            i: int,
        |
            0 <= i < tree.children.len() ==> (#[trigger] tree.children[i]).null_made()),
{
}

/// Run-end encoded values can be neither written nor read. There are columns of them under 16, 32
/// or 64 bits of run ends, where there are nulls of the values.
pub proof fn law_run_ends(tree: TypeTree)
    requires
        tree.kind is RunEndEncoded,
        tree.children.len() == 2,
    ensures
        !tree.writable(),
        !tree.readable(),
        tree.admitted(),
        tree.making() is Done,
        tree.null_made() == tree.children[1].null_made(),
        tree.in_arrow() == (tree.children[0].in_arrow() && tree.children[1].in_arrow()
            && tree.children[1].null_made() && (tree.children[0].kind is Int16
            || tree.children[0].kind is Int32 || tree.children[0].kind is Int64)),
        !tree.short_offsets(),
        !tree.counted(),
        !tree.nested(),
{
}

/// As many values can be told apart by dictionary keys as there are numbers from zero on.
pub proof fn law_capacity(kind: Kind)
    ensures
        kind is Int8 ==> kind.capacity() == i8::MAX + 1,
        kind is Int16 ==> kind.capacity() == i16::MAX + 1,
        kind is Int32 ==> kind.capacity() == i32::MAX + 1,
        kind is Int64 ==> kind.capacity() == i64::MAX + 1,
        kind is UInt8 ==> kind.capacity() == u8::MAX + 1,
        kind is UInt16 ==> kind.capacity() == u16::MAX + 1,
        kind is UInt32 ==> kind.capacity() == u32::MAX + 1,
        kind is UInt64 ==> kind.capacity() == u64::MAX + 1,
{
}

/// Whether the type is one of those that are in common use: a plain one, a list of such types, a
/// struct of such types, or a dictionary of flat values under whole numbers.
pub open spec fn common(tree: TypeTree) -> bool
    decreases tree,
{
    match tree.kind {
        Kind::List | Kind::LargeList => tree.children.len() == 1 && common(tree.children[0]),
        Kind::Struct => forall|i: int|
            0 <= i < tree.children.len() ==> common(#[trigger] tree.children[i]),
        Kind::Dictionary => {
            &&& tree.children.len() == 2
            &&& whole_number(tree.children[0].kind)
            &&& tree.children[0].children.len() == 0
            &&& key_values(tree.children[1].kind)
            &&& tree.children[1].children.len() == 0
        },
        Kind::FixedSizeBinary(size) => size >= 0 && tree.children.len() == 0,
        kind => plain(kind) && tree.children.len() == 0,
    }
}

/// The types in common use can be group keys, are handed out again, and can be output.
pub proof fn law_common_types(tree: TypeTree)
    requires
        common(tree),
    ensures
        tree.writable(),
        tree.readable(),
        tree.admitted(),
        tree.making() is Done,
        tree.in_arrow(),
        tree.null_made(),
    decreases tree,
{
    match tree.kind {
        Kind::List | Kind::LargeList => {
            lemma_child_smaller(tree, 0);
            law_common_types(tree.children[0]);
            law_lists(tree);
        },
        Kind::Struct => {
            assert forall|i: int| 0 <= i < tree.children.len() implies {
                &&& (#[trigger] tree.children[i]).writable()
                &&& tree.children[i].readable()
                &&& tree.children[i].admitted()
                &&& tree.children[i].making() is Done
                &&& tree.children[i].in_arrow()
                &&& tree.children[i].null_made()
            } by {
                lemma_child_smaller(tree, i);
                law_common_types(tree.children[i]);
            }
            law_structs(tree);
            law_making_structs(tree, tree.children.len() as int);
        },
        Kind::Dictionary => {
            law_plain_types(tree.children[0]);
            law_plain_types(tree.children[1]);
            law_dictionaries(tree);
        },
        Kind::FixedSizeBinary(size) => law_fixed_size(tree, size),
        _ => law_plain_types(tree),
    }
}

/// A store of group keys can be made for any types in common use.
pub proof fn law_store_for_common_types(types: Seq<DataType>, error: AggregateError)
    requires
        forall|j: int| 0 <= j < types.len() ==> common(type_tree(#[trigger] types[j])),
    ensures
        !store_fails(types, error),
{
    assert forall|j: int| 0 <= j < types.len() implies {
        &&& type_tree(#[trigger] types[j]).admitted()
        &&& type_tree(types[j]).making() is Done
    } by {
        law_common_types(type_tree(types[j]));
    }
    lemma_all_made(types, types.len() as int);
}

/// Where each of the types is made, all are.
proof fn lemma_all_made(types: Seq<DataType>, made: int)
    requires
        0 <= made <= types.len(),
        forall|j: int| 0 <= j < types.len() ==> type_tree(#[trigger] types[j]).making() is Done,
    ensures
        codecs_making(types, made) is Done,
    decreases made,
{
    if made > 0 {
        lemma_all_made(types, made - 1);
        assert(type_tree(types[made - 1]).making() is Done);
    }
}

/// Under a schema of types in common use there is an empty batch.
pub proof fn law_empty_batch(schema: &Arc<Schema>, batch: Result<Batch, AggregateError>)
    requires
        call_ensures(Batch::new_empty, (schema,), batch),
        forall|j: int|
            0 <= j < schema_types(**schema).len() ==> common(
                type_tree(#[trigger] schema_types(**schema)[j]),
            ),
    ensures
        batch matches Ok(b) && batch_rows(b).len() == 0 && batch_schema(b) == **schema,
{
    assert forall|j: int| 0 <= j < schema_types(**schema).len() implies type_tree(
        #[trigger] schema_types(**schema)[j],
    ).in_arrow() by {
        law_common_types(type_tree(schema_types(**schema)[j]));
    }
}

} // verus!
