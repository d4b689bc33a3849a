//! The data types of arrow, and what arrow can do with columns of them.

use arrow::datatypes::{DataType, Schema, TimeUnit};
use vstd::prelude::*;

verus! {

/// A data type of arrow. Two of them are the same where arrow says that they are equal.
#[verifier::external_type_specification]
#[verifier::external_body]
pub struct ExDataType(DataType);

/// The fields of a batch.
#[verifier::external_type_specification]
#[verifier::external_body]
pub struct ExSchema(Schema);

/// The variant of a data type.
#[derive(Debug, Clone, Copy, PartialEq, Eq, Structural)]
pub enum Kind {
    /// `Null`.
    Nothing,
    /// `Boolean`.
    Boolean,
    /// `Int8`.
    Int8,
    /// `Int16`.
    Int16,
    /// `Int32`.
    Int32,
    /// `Int64`.
    Int64,
    /// `UInt8`.
    UInt8,
    /// `UInt16`.
    UInt16,
    /// `UInt32`.
    UInt32,
    /// `UInt64`.
    UInt64,
    /// `Float16`.
    Float16,
    /// `Float32`.
    Float32,
    /// `Float64`.
    Float64,
    /// `Decimal128`.
    Decimal128,
    /// `Decimal256`.
    Decimal256,
    /// `Date32`.
    Date32,
    /// `Date64`.
    Date64,
    /// `Time32` in seconds.
    Time32Second,
    /// `Time32` in milliseconds.
    Time32Millisecond,
    /// `Time32` in microseconds.
    Time32Microsecond,
    /// `Time32` in nanoseconds.
    Time32Nanosecond,
    /// `Time64` in seconds.
    Time64Second,
    /// `Time64` in milliseconds.
    Time64Millisecond,
    /// `Time64` in microseconds.
    Time64Microsecond,
    /// `Time64` in nanoseconds.
    Time64Nanosecond,
    /// `Timestamp`.
    Timestamp,
    /// `Duration`.
    Duration,
    /// `Interval`.
    Interval,
    /// `Binary`.
    Binary,
    /// `LargeBinary`.
    LargeBinary,
    /// `Utf8`.
    Utf8,
    /// `LargeUtf8`.
    LargeUtf8,
    /// `FixedSizeBinary`, with the number of bytes.
    FixedSizeBinary(i32),
    /// `List`.
    List,
    /// `LargeList`.
    LargeList,
    /// `FixedSizeList`, with the number of elements.
    FixedSizeList(i32),
    /// `Struct`.
    Struct,
    /// `Map`.
    Entries,
    /// `Union`.
    Union,
    /// `Dictionary`.
    Dictionary,
    /// `RunEndEncoded`.
    RunEndEncoded,
}

/// How it ends to make what encodes a type in row format.
#[derive(Debug, Clone, Copy, PartialEq, Eq, Structural)]
pub enum Making {
    /// It is made.
    Done,
    /// It is refused with an error.
    Refused,
    /// It never comes to an end, as a null of a field has no encoding.
    Stuck,
}

/// A data type as the tree of the variants inside of it: the elements of a list, the fields of a
/// struct or a union, the entries of a map, the keys and the values of a dictionary, the run ends
/// and the values of run-end encoded values.
pub struct TypeTree {
    /// The variant.
    pub kind: Kind,
    /// The numbers of the fields of a union.
    pub ids: Seq<i8>,
    /// The types inside.
    pub children: Seq<TypeTree>,
}

/// The tree of a data type.
pub uninterp spec fn type_tree(data_type: DataType) -> TypeTree;

/// The data types of the fields of a schema, in order.
pub uninterp spec fn schema_types(schema: Schema) -> Seq<DataType>;

impl Kind {
    /// Whether there is a pair of types inside.
    pub open spec fn paired(self) -> bool {
        self is Dictionary || self is RunEndEncoded
    }

    /// Whether the variant is a number of a fixed width.
    pub open spec fn number(self) -> bool {
        ||| self.integer()
        ||| self is Float16
        ||| self is Float32
        ||| self is Float64
        ||| self is Decimal128
        ||| self is Decimal256
    }

    /// Whether the variant is an integer, as the keys of a dictionary are.
    pub open spec fn integer(self) -> bool {
        ||| self is Int8
        ||| self is Int16
        ||| self is Int32
        ||| self is Int64
        ||| self is UInt8
        ||| self is UInt16
        ||| self is UInt32
        ||| self is UInt64
    }

    /// Whether the variant is a time of a unit that its width does not go with.
    pub open spec fn odd_time(self) -> bool {
        ||| self is Time32Microsecond
        ||| self is Time32Nanosecond
        ||| self is Time64Second
        ||| self is Time64Millisecond
    }

    /// Whether the variant is a date, a time or a span of time.
    pub open spec fn temporal(self) -> bool {
        ||| self.odd_time()
        ||| self is Date32
        ||| self is Date64
        ||| self is Time32Second
        ||| self is Time32Millisecond
        ||| self is Time64Microsecond
        ||| self is Time64Nanosecond
        ||| self is Timestamp
        ||| self is Duration
        ||| self is Interval
    }

    /// How many values keys of the variant can number.
    pub open spec fn capacity(self) -> nat {
        match self {
            Kind::Int8 => 0x80,
            Kind::Int16 => 0x8000,
            Kind::Int32 => 0x8000_0000,
            Kind::Int64 => 0x8000_0000_0000_0000,
            Kind::UInt8 => 0x100,
            Kind::UInt16 => 0x1_0000,
            Kind::UInt32 => 0x1_0000_0000,
            Kind::UInt64 => 0x1_0000_0000_0000_0000,
            _ => 0,
        }
    }

    /// Whether the variant is an integer, as the keys of a dictionary are.
    pub fn is_integer(self) -> (b: bool)
        ensures
            b == self.integer(),
    {
        matches!(
            self,
            Kind::Int8
            | Kind::Int16
            | Kind::Int32
            | Kind::Int64
            | Kind::UInt8
            | Kind::UInt16
            | Kind::UInt32
            | Kind::UInt64
        )
    }

    /// Whether the variant is a time of a unit that its width does not go with.
    pub fn is_odd_time(self) -> (b: bool)
        ensures
            b == self.odd_time(),
    {
        matches!(
            self,
            Kind::Time32Microsecond
            | Kind::Time32Nanosecond
            | Kind::Time64Second
            | Kind::Time64Millisecond
        )
    }

    /// Whether the variant is a date, a time or a span of time.
    pub fn is_temporal(self) -> (b: bool)
        ensures
            b == self.temporal(),
    {
        self.is_odd_time() || matches!(
            self,
            Kind::Date32
            | Kind::Date64
            | Kind::Time32Second
            | Kind::Time32Millisecond
            | Kind::Time64Microsecond
            | Kind::Time64Nanosecond
            | Kind::Timestamp
            | Kind::Duration
            | Kind::Interval
        )
    }

    /// Whether the variant is a number of a fixed width.
    pub fn is_number(self) -> (b: bool)
        ensures
            b == self.number(),
    {
        self.is_integer() || matches!(
            self,
            Kind::Float16 | Kind::Float32 | Kind::Float64 | Kind::Decimal128 | Kind::Decimal256
        )
    }
}

impl TypeTree {
    /// Whether the type holds values of other types inside of its own.
    pub open spec fn nested(self) -> bool
        decreases self,
    {
        match self.kind {
            Kind::List
            | Kind::LargeList
            | Kind::FixedSizeList(_)
            | Kind::Struct
            | Kind::Entries
            | Kind::Union => true,
            Kind::Dictionary => self.children.len() == 2 && self.children[1].nested(),
            _ => false,
        }
    }

    /// Whether a row converter can be made for the type.
    pub open spec fn supported(self) -> bool
        decreases self,
    {
        match self.kind {
            Kind::List | Kind::LargeList | Kind::Struct => forall|i: int|
                0 <= i < self.children.len() ==> (#[trigger] self.children[i]).supported(),
            Kind::FixedSizeList(_) | Kind::Entries | Kind::Union => false,
            Kind::Dictionary => !self.nested(),
            _ => true,
        }
    }

    /// Whether the row format writes values of the type, in a struct without fields only nulls.
    /// Run-end encoded values, dictionaries of some flat values, and types that arrow has no
    /// columns of, are accepted by the converter and then turn out to have no encoding.
    pub open spec fn writable(self) -> bool
        decreases self,
    {
        match self.kind {
            Kind::FixedSizeBinary(size) => size >= 0,
            Kind::List | Kind::LargeList | Kind::Struct => forall|i: int|
                0 <= i < self.children.len() ==> (#[trigger] self.children[i]).writable(),
            Kind::Dictionary => self.nested() || self.internable(),
            Kind::RunEndEncoded => false,
            kind => !kind.odd_time(),
        }
    }

    /// Whether the row format turns no rows into an empty column of the type. That takes less than
    /// to write values of it.
    pub open spec fn readable(self) -> bool
        decreases self,
    {
        match self.kind {
            Kind::FixedSizeBinary(size) => size != -1,
            Kind::List | Kind::LargeList | Kind::Struct => forall|i: int|
                0 <= i < self.children.len() ==> (#[trigger] self.children[i]).readable(),
            Kind::Dictionary => self.nested() || self.restorable(),
            Kind::RunEndEncoded => false,
            kind => !kind.odd_time(),
        }
    }

    /// Whether the dictionary codec of the row format makes an empty column of the type.
    pub open spec fn restorable(self) -> bool {
        &&& self.kind is Dictionary
        &&& self.children.len() == 2
        &&& self.children[0].kind.integer()
        &&& {
            let values = self.children[1].kind;
            ||| values.number()
            ||| values.temporal() && !values.odd_time()
            ||| values is Nothing
            ||| values is Boolean
            ||| self.children[1].text()
        }
    }

    /// Whether the dictionary codec of the row format writes the type.
    pub open spec fn internable(self) -> bool {
        &&& self.kind is Dictionary
        &&& self.children.len() == 2
        &&& self.children[0].kind.integer()
        &&& {
            let values = self.children[1].kind;
            ||| values.number()
            ||| values.temporal() && !values.odd_time()
            ||| values is Utf8
            ||| values is LargeUtf8
            ||| values is LargeBinary
        }
    }

    /// Whether the row format takes the type at first sight. It then still refuses maps.
    pub open spec fn admitted(self) -> bool
        decreases self,
    {
        match self.kind {
            Kind::List | Kind::LargeList | Kind::Entries | Kind::Struct => forall|i: int|
                0 <= i < self.children.len() ==> (#[trigger] self.children[i]).admitted(),
            Kind::FixedSizeList(_) | Kind::Union => false,
            Kind::Dictionary => !self.nested(),
            _ => true,
        }
    }

    /// How it ends to make what encodes the type, once it is admitted: for a struct a null of each
    /// field is written, after what encodes the fields is made, one field after the other.
    pub open spec fn making(self) -> Making
        decreases self, self.children.len() + 1,
    {
        match self.kind {
            Kind::List | Kind::LargeList => self.fields_making(self.children.len()),
            Kind::Struct => match self.fields_making(self.children.len()) {
                Making::Done => if forall|i: int|
                    0 <= i < self.children.len() ==> (#[trigger] self.children[i]).writable() {
                    Making::Done
                } else {
                    Making::Stuck
                },
                other => other,
            },
            Kind::FixedSizeList(_) | Kind::Entries | Kind::Union => Making::Refused,
            Kind::Dictionary => if self.nested() {
                Making::Refused
            } else {
                Making::Done
            },
            _ => Making::Done,
        }
    }

    /// How it ends to make what encodes the first types inside.
    pub open spec fn fields_making(self, fields: nat) -> Making
        decreases self, fields,
    {
        if 0 < fields <= self.children.len() {
            match self.fields_making((fields - 1) as nat) {
                Making::Done => self.children[fields - 1].making(),
                other => other,
            }
        } else {
            Making::Done
        }
    }

    /// Whether arrow can make a null of the type, and not only an empty column.
    pub open spec fn null_made(self) -> bool
        decreases self,
    {
        match self.kind {
            Kind::FixedSizeBinary(size) => size >= 0,
            Kind::FixedSizeList(size) => size >= 0 && forall|i: int|
                0 <= i < self.children.len() ==> (#[trigger] self.children[i]).null_made(),
            Kind::Struct => forall|i: int|
                0 <= i < self.children.len() ==> (#[trigger] self.children[i]).null_made(),
            Kind::Union => self.children.len() > 0 && self.children[0].null_made(),
            Kind::RunEndEncoded => self.children.len() == 2 && self.children[1].null_made(),
            _ => true,
        }
    }

    /// Whether arrow has columns of the type.
    pub open spec fn in_arrow(self) -> bool
        decreases self,
    {
        &&& forall|i: int| 0 <= i < self.children.len() ==> (#[trigger] self.children[i]).in_arrow()
        &&& match self.kind {
            Kind::Entries => self.children.len() == 1 && self.children[0].kind is Struct
                && self.children[0].children.len() == 2,
            Kind::Union => self.children.len() > 0 && forall|i: int|
                0 <= i < self.ids.len() ==> #[trigger] self.ids[i] >= 0,
            Kind::Dictionary => self.children.len() == 2 && self.children[0].kind.integer(),
            Kind::RunEndEncoded => self.children.len() == 2 && self.children[1].null_made() && (
            self.children[0].kind is Int16 || self.children[0].kind is Int32
                || self.children[0].kind is Int64),
            kind => !kind.odd_time(),
        }
    }

    /// Whether the type is text or bytes, addressed by 32-bit offsets.
    pub open spec fn plain_text(self) -> bool {
        self.kind is Binary || self.kind is Utf8
    }

    /// Whether the type is text or bytes.
    pub open spec fn text(self) -> bool {
        self.plain_text() || self.kind is LargeBinary || self.kind is LargeUtf8
    }

    /// Whether the type, or a type inside of it, addresses values by 32-bit offsets.
    pub open spec fn short_offsets(self) -> bool
        decreases self,
    {
        match self.kind {
            Kind::Binary | Kind::Utf8 | Kind::List => true,
            Kind::LargeList | Kind::Struct | Kind::Dictionary => exists|i: int|
                0 <= i < self.children.len() && (#[trigger] self.children[i]).short_offsets(),
            _ => false,
        }
    }

    /// Whether the type has lists or dictionaries, in which the row format counts in 32 bits.
    pub open spec fn counted(self) -> bool
        decreases self,
    {
        match self.kind {
            Kind::List | Kind::LargeList | Kind::Dictionary => true,
            Kind::Struct => exists|i: int|
                0 <= i < self.children.len() && (#[trigger] self.children[i]).counted(),
            _ => false,
        }
    }
}

/// `DataType`, where it is a whole number: its variant.
#[verifier::external_body]
fn integer_kind(data_type: &DataType) -> (kind: Option<Kind>)
    ensures
        kind == if type_tree(*data_type).kind.integer() {
            Some(type_tree(*data_type).kind)
        } else {
            None
        },
{
    Some(match data_type {
        DataType::Int8 => Kind::Int8,
        DataType::Int16 => Kind::Int16,
        DataType::Int32 => Kind::Int32,
        DataType::Int64 => Kind::Int64,
        DataType::UInt8 => Kind::UInt8,
        DataType::UInt16 => Kind::UInt16,
        DataType::UInt32 => Kind::UInt32,
        DataType::UInt64 => Kind::UInt64,
        _ => return None,
    })
}

/// `DataType`, where it is a number with a fraction: its variant.
#[verifier::external_body]
fn fraction_kind(data_type: &DataType) -> (kind: Option<Kind>)
    ensures
        kind == match type_tree(*data_type).kind {
            Kind::Float16
            | Kind::Float32
            | Kind::Float64
            | Kind::Decimal128
            | Kind::Decimal256 => Some(type_tree(*data_type).kind),
            _ => None,
        },
{
    Some(match data_type {
        DataType::Float16 => Kind::Float16,
        DataType::Float32 => Kind::Float32,
        DataType::Float64 => Kind::Float64,
        DataType::Decimal128(_, _) => Kind::Decimal128,
        DataType::Decimal256(_, _) => Kind::Decimal256,
        _ => return None,
    })
}

/// `DataType`, where it is of a fixed unit of time: its variant, with the unit.
#[verifier::external_body]
fn time_kind(data_type: &DataType) -> (kind: Option<Kind>)
    ensures
        kind == match type_tree(*data_type).kind {
            Kind::Time32Second
            | Kind::Time32Millisecond
            | Kind::Time32Microsecond
            | Kind::Time32Nanosecond
            | Kind::Time64Second
            | Kind::Time64Millisecond
            | Kind::Time64Microsecond
            | Kind::Time64Nanosecond => Some(type_tree(*data_type).kind),
            _ => None,
        },
{
    Some(match data_type {
        DataType::Time32(TimeUnit::Second) => Kind::Time32Second,
        DataType::Time32(TimeUnit::Millisecond) => Kind::Time32Millisecond,
        DataType::Time32(TimeUnit::Microsecond) => Kind::Time32Microsecond,
        DataType::Time32(TimeUnit::Nanosecond) => Kind::Time32Nanosecond,
        DataType::Time64(TimeUnit::Second) => Kind::Time64Second,
        DataType::Time64(TimeUnit::Millisecond) => Kind::Time64Millisecond,
        DataType::Time64(TimeUnit::Microsecond) => Kind::Time64Microsecond,
        DataType::Time64(TimeUnit::Nanosecond) => Kind::Time64Nanosecond,
        _ => return None,
    })
}

/// `DataType`, where it is a date, a point or a span of time, a flag, text or bytes: its variant.
#[verifier::external_body]
fn plain_kind(data_type: &DataType) -> (kind: Option<Kind>)
    ensures
        kind == match type_tree(*data_type).kind {
            Kind::Nothing
            | Kind::Boolean
            | Kind::Date32
            | Kind::Date64
            | Kind::Timestamp
            | Kind::Duration
            | Kind::Interval
            | Kind::Binary
            | Kind::LargeBinary
            | Kind::Utf8
            | Kind::LargeUtf8
            | Kind::FixedSizeBinary(_) => Some(type_tree(*data_type).kind),
            _ => None,
        },
{
    Some(match data_type {
        DataType::Null => Kind::Nothing,
        DataType::Boolean => Kind::Boolean,
        DataType::Date32 => Kind::Date32,
        DataType::Date64 => Kind::Date64,
        DataType::Timestamp(_, _) => Kind::Timestamp,
        DataType::Duration(_) => Kind::Duration,
        DataType::Interval(_) => Kind::Interval,
        DataType::Binary => Kind::Binary,
        DataType::LargeBinary => Kind::LargeBinary,
        DataType::Utf8 => Kind::Utf8,
        DataType::LargeUtf8 => Kind::LargeUtf8,
        DataType::FixedSizeBinary(size) => Kind::FixedSizeBinary(*size),
        _ => return None,
    })
}

/// `DataType`, where it has types inside of it: its variant.
#[verifier::external_body]
fn composed_kind(data_type: &DataType) -> (kind: Option<Kind>)
    ensures
        kind == match type_tree(*data_type).kind {
            Kind::List
            | Kind::LargeList
            | Kind::FixedSizeList(_)
            | Kind::Struct
            | Kind::Entries
            | Kind::Union
            | Kind::Dictionary
            | Kind::RunEndEncoded => Some(type_tree(*data_type).kind),
            _ => None,
        },
{
    Some(match data_type {
        DataType::List(_) => Kind::List,
        DataType::LargeList(_) => Kind::LargeList,
        DataType::FixedSizeList(_, size) => Kind::FixedSizeList(*size),
        DataType::Struct(_) => Kind::Struct,
        DataType::Map(_, _) => Kind::Entries,
        DataType::Union(_, _) => Kind::Union,
        DataType::Dictionary(_, _) => Kind::Dictionary,
        DataType::RunEndEncoded(_, _) => Kind::RunEndEncoded,
        _ => return None,
    })
}

/// `DataType`: the types inside of it, unless they are a pair of types.
#[verifier::external_body]
fn inner_types(data_type: &DataType) -> (children: Vec<DataType>)
    requires
        !type_tree(*data_type).kind.paired(),
    ensures
        children@.len() == type_tree(*data_type).children.len(),
        forall|i: int|
            0 <= i < children@.len() ==> type_tree(#[trigger] children@[i]) == type_tree(
                *data_type,
            ).children[i],
{
    match data_type {
        DataType::List(f) | DataType::LargeList(f) => vec![f.data_type().clone()],
        DataType::FixedSizeList(f, _) | DataType::Map(f, _) => vec![f.data_type().clone()],
        DataType::Struct(f) => f.iter().map(|f| f.data_type().clone()).collect(),
        DataType::Union(f, _) => f.iter().map(|(_, f)| f.data_type().clone()).collect(),
        _ => vec![],
    }
}

/// `DataType::Dictionary` and `DataType::RunEndEncoded`: the pair of types inside.
#[verifier::external_body]
fn pair_types(data_type: &DataType) -> (children: Vec<DataType>)
    requires
        type_tree(*data_type).kind.paired(),
    ensures
        children@.len() == type_tree(*data_type).children.len() == 2,
        forall|i: int|
            0 <= i < children@.len() ==> type_tree(#[trigger] children@[i]) == type_tree(
                *data_type,
            ).children[i],
{
    match data_type {
        DataType::Dictionary(k, v) => vec![(**k).clone(), (**v).clone()],
        DataType::RunEndEncoded(r, v) => vec![r.data_type().clone(), v.data_type().clone()],
        _ => vec![],
    }
}

/// `DataType::Union`: the numbers of its fields.
#[verifier::external_body]
fn union_ids(data_type: &DataType) -> (ids: Vec<i8>)
    ensures
        ids@ == type_tree(*data_type).ids,
{
    match data_type {
        DataType::Union(f, _) => f.iter().map(|(id, _)| id).collect(),
        _ => vec![],
    }
}

/// `Schema::fields`: the data types of the fields, in order.
#[verifier::external_body]
pub(crate) fn field_types(schema: &Schema) -> (types: Vec<DataType>)
    ensures
        types@ == schema_types(*schema),
{
    schema.fields().iter().map(|f| f.data_type().clone()).collect()
}

/// The variant of a data type.
pub fn kind(data_type: &DataType) -> (kind: Kind)
    ensures
        kind == type_tree(*data_type).kind,
{
    if let Some(integer) = integer_kind(data_type) {
        return integer;
    }
    if let Some(fraction) = fraction_kind(data_type) {
        return fraction;
    }
    if let Some(time) = time_kind(data_type) {
        return time;
    }
    if let Some(plain) = plain_kind(data_type) {
        return plain;
    }
    match composed_kind(data_type) {
        Some(composed) => composed,
        None => Kind::Nothing,
    }
}

/// The types inside of a data type.
pub(crate) fn child_types(data_type: &DataType) -> (children: Vec<DataType>)
    ensures
        children@.len() == type_tree(*data_type).children.len(),
        forall|i: int|
            0 <= i < children@.len() ==> type_tree(#[trigger] children@[i]) == type_tree(
                *data_type,
            ).children[i],
{
    match kind(data_type) {
        Kind::Dictionary | Kind::RunEndEncoded => pair_types(data_type),
        _ => inner_types(data_type),
    }
}

/// A type inside of another is the smaller one.
pub proof fn lemma_child_smaller(tree: TypeTree, i: int)
    requires
        0 <= i < tree.children.len(),
    ensures
        decreases_to!(tree => tree.children[i]),
{
    assert(decreases_to!(tree => tree.children));
    assert(decreases_to!(tree.children => tree.children[i]));
}

/// Whether the type holds values of other types inside of its own.
pub fn is_nested(data_type: &DataType) -> (b: bool)
    ensures
        b == type_tree(*data_type).nested(),
    decreases type_tree(*data_type),
{
    let ghost tree = type_tree(*data_type);
    let children = child_types(data_type);
    match kind(data_type) {
        Kind::List
        | Kind::LargeList
        | Kind::FixedSizeList(_)
        | Kind::Struct
        | Kind::Entries
        | Kind::Union => true,
        Kind::Dictionary => {
            assert(children@.len() == 2 ==> type_tree(children@[1]) == tree.children[1]);
            proof {
                if children@.len() == 2 {
                    lemma_child_smaller(tree, 1);
                }
            }
            children.len() == 2 && is_nested(&children[1])
        },
        _ => false,
    }
}

/// Whether the dictionary codec of the row format writes the type.
pub fn is_internable(data_type: &DataType) -> (b: bool)
    ensures
        b == type_tree(*data_type).internable(),
{
    let children = child_types(data_type);
    if !matches!(kind(data_type), Kind::Dictionary) || children.len() != 2 {
        return false;
    }
    assert(type_tree(children@[0]) == type_tree(*data_type).children[0]);
    assert(type_tree(children@[1]) == type_tree(*data_type).children[1]);
    let values = kind(&children[1]);
    kind(&children[0]).is_integer() && (values.is_number() || (values.is_temporal()
        && !values.is_odd_time()) || matches!(
        values,
        Kind::Utf8 | Kind::LargeUtf8 | Kind::LargeBinary
    ))
}

/// Whether the row format writes values of the type, in a struct without fields only nulls.
#[verifier::loop_isolation(false)]
pub fn is_writable(data_type: &DataType) -> (b: bool)
    ensures
        b == type_tree(*data_type).writable(),
    decreases type_tree(*data_type),
{
    let ghost tree = type_tree(*data_type);
    let children = child_types(data_type);
    match kind(data_type) {
        Kind::FixedSizeBinary(size) => size >= 0,
        Kind::List | Kind::LargeList | Kind::Struct => {
            let mut i: usize = 0;
            while i < children.len()
                invariant
                    i <= children@.len() == tree.children.len(),
                    tree == type_tree(*data_type),
                    forall|k: int|
                        0 <= k < children@.len() ==> type_tree(#[trigger] children@[k])
                            == tree.children[k],
                    forall|k: int| 0 <= k < i ==> (#[trigger] tree.children[k]).writable(),
                decreases children@.len() - i,
            {
                assert(type_tree(children@[i as int]) == tree.children[i as int]);
                proof {
                    lemma_child_smaller(tree, i as int);
                }
                if !is_writable(&children[i]) {
                    return false;
                }
                i += 1;
            }
            true
        },
        Kind::Dictionary => is_nested(data_type) || is_internable(data_type),
        Kind::RunEndEncoded => false,
        other => !other.is_odd_time(),
    }
}

/// Whether the dictionary codec of the row format makes an empty column of the type.
pub fn is_restorable(data_type: &DataType) -> (b: bool)
    ensures
        b == type_tree(*data_type).restorable(),
{
    let children = child_types(data_type);
    if !matches!(kind(data_type), Kind::Dictionary) || children.len() != 2 {
        return false;
    }
    assert(type_tree(children@[0]) == type_tree(*data_type).children[0]);
    assert(type_tree(children@[1]) == type_tree(*data_type).children[1]);
    let values = kind(&children[1]);
    kind(&children[0]).is_integer() && (values.is_number() || (values.is_temporal()
        && !values.is_odd_time()) || matches!(
        values,
        Kind::Nothing
        | Kind::Boolean
        | Kind::Binary
        | Kind::LargeBinary
        | Kind::Utf8
        | Kind::LargeUtf8
    ))
}

/// Whether the row format turns no rows into an empty column of the type.
#[verifier::loop_isolation(false)]
pub fn is_readable(data_type: &DataType) -> (b: bool)
    ensures
        b == type_tree(*data_type).readable(),
    decreases type_tree(*data_type),
{
    let ghost tree = type_tree(*data_type);
    let children = child_types(data_type);
    match kind(data_type) {
        Kind::FixedSizeBinary(size) => size != -1,
        Kind::List | Kind::LargeList | Kind::Struct => {
            let mut i: usize = 0;
            while i < children.len()
                invariant
                    i <= children@.len() == tree.children.len(),
                    tree == type_tree(*data_type),
                    forall|k: int|
                        0 <= k < children@.len() ==> type_tree(#[trigger] children@[k])
                            == tree.children[k],
                    forall|k: int| 0 <= k < i ==> (#[trigger] tree.children[k]).readable(),
                decreases children@.len() - i,
            {
                assert(type_tree(children@[i as int]) == tree.children[i as int]);
                proof {
                    lemma_child_smaller(tree, i as int);
                }
                if !is_readable(&children[i]) {
                    return false;
                }
                i += 1;
            }
            true
        },
        Kind::Dictionary => is_nested(data_type) || is_restorable(data_type),
        Kind::RunEndEncoded => false,
        other => !other.is_odd_time(),
    }
}

/// What can be written can be read.
pub proof fn lemma_writable_readable(tree: TypeTree)
    requires
        tree.writable(),
    ensures
        tree.readable(),
    decreases tree,
{
    match tree.kind {
        Kind::List | Kind::LargeList | Kind::Struct => {
            assert forall|i: int| 0 <= i < tree.children.len() implies (
            #[trigger] tree.children[i]).readable() by {
                lemma_child_smaller(tree, i);
                lemma_writable_readable(tree.children[i]);
            }
        },
        _ => {},
    }
}

/// Whether the row format takes the type at first sight.
#[verifier::loop_isolation(false)]
pub fn is_admitted(data_type: &DataType) -> (b: bool)
    ensures
        b == type_tree(*data_type).admitted(),
    decreases type_tree(*data_type),
{
    let ghost tree = type_tree(*data_type);
    let children = child_types(data_type);
    match kind(data_type) {
        Kind::List | Kind::LargeList | Kind::Entries | Kind::Struct => {
            let mut i: usize = 0;
            while i < children.len()
                invariant
                    i <= children@.len() == tree.children.len(),
                    tree == type_tree(*data_type),
                    forall|k: int|
                        0 <= k < children@.len() ==> type_tree(#[trigger] children@[k])
                            == tree.children[k],
                    forall|k: int| 0 <= k < i ==> (#[trigger] tree.children[k]).admitted(),
                decreases children@.len() - i,
            {
                assert(type_tree(children@[i as int]) == tree.children[i as int]);
                proof {
                    lemma_child_smaller(tree, i as int);
                }
                if !is_admitted(&children[i]) {
                    return false;
                }
                i += 1;
            }
            true
        },
        Kind::FixedSizeList(_) | Kind::Union => false,
        Kind::Dictionary => !is_nested(data_type),
        _ => true,
    }
}

/// How it ends to make what encodes the type, once it is admitted.
#[verifier::loop_isolation(false)]
pub fn making(data_type: &DataType) -> (end: Making)
    ensures
        end == type_tree(*data_type).making(),
    decreases type_tree(*data_type),
{
    let ghost tree = type_tree(*data_type);
    let children = child_types(data_type);
    match kind(data_type) {
        Kind::List | Kind::LargeList | Kind::Struct => {
            let mut i: usize = 0;
            let mut written = true;
            while i < children.len()
                invariant
                    i <= children@.len() == tree.children.len(),
                    tree == type_tree(*data_type),
                    forall|k: int|
                        0 <= k < children@.len() ==> type_tree(#[trigger] children@[k])
                            == tree.children[k],
                    tree.fields_making(i as nat) is Done,
                    written == forall|k: int|
                        0 <= k < i ==> (#[trigger] tree.children[k]).writable(),
                decreases children@.len() - i,
            {
                assert(type_tree(children@[i as int]) == tree.children[i as int]);
                proof {
                    lemma_child_smaller(tree, i as int);
                }
                match making(&children[i]) {
                    Making::Done => {},
                    other => {
                        proof {
                            lemma_fields_end(tree, i as nat + 1, tree.children.len());
                        }
                        return other;
                    },
                }
                let next = is_writable(&children[i]);
                assert(next == tree.children[i as int].writable());
                written = written && next;
                i += 1;
            }
            if written || !matches!(kind(data_type), Kind::Struct) {
                Making::Done
            } else {
                Making::Stuck
            }
        },
        Kind::FixedSizeList(_) | Kind::Entries | Kind::Union => Making::Refused,
        Kind::Dictionary => if is_nested(data_type) {
            Making::Refused
        } else {
            Making::Done
        },
        _ => Making::Done,
    }
}

/// The first type inside that is not made is the end of it.
proof fn lemma_fields_end(tree: TypeTree, fields: nat, all: nat)
    requires
        fields <= all <= tree.children.len(),
        !(tree.fields_making(fields) is Done),
    ensures
        tree.fields_making(all) == tree.fields_making(fields),
    decreases all,
{
    if fields < all {
        lemma_fields_end(tree, fields, (all - 1) as nat);
    }
}

/// Where the first types inside are made, each of them is.
proof fn lemma_fields_done(tree: TypeTree, fields: nat, i: int)
    requires
        0 <= i < fields <= tree.children.len(),
        tree.fields_making(fields) is Done,
    ensures
        tree.children[i].making() is Done,
    decreases fields,
{
    if i < fields - 1 {
        lemma_fields_done(tree, (fields - 1) as nat, i);
    }
}

/// Types for which an encoding is made are supported.
pub proof fn lemma_made_supported(tree: TypeTree)
    requires
        tree.admitted(),
        tree.making() is Done,
    ensures
        tree.supported(),
    decreases tree,
{
    match tree.kind {
        Kind::List | Kind::LargeList | Kind::Struct => {
            assert forall|i: int| 0 <= i < tree.children.len() implies (
            #[trigger] tree.children[i]).supported() by {
                lemma_child_smaller(tree, i);
                lemma_fields_done(tree, tree.children.len(), i);
                lemma_made_supported(tree.children[i]);
            }
        },
        _ => {},
    }
}

/// Whether arrow can make a null of the type, and not only an empty column.
#[verifier::loop_isolation(false)]
pub fn is_null_made(data_type: &DataType) -> (b: bool)
    ensures
        b == type_tree(*data_type).null_made(),
    decreases type_tree(*data_type),
{
    let ghost tree = type_tree(*data_type);
    let children = child_types(data_type);
    match kind(data_type) {
        Kind::FixedSizeBinary(size) => size >= 0,
        Kind::FixedSizeList(_) | Kind::Struct => {
            let mut i: usize = 0;
            while i < children.len()
                invariant
                    i <= children@.len() == tree.children.len(),
                    tree == type_tree(*data_type),
                    forall|k: int|
                        0 <= k < children@.len() ==> type_tree(#[trigger] children@[k])
                            == tree.children[k],
                    forall|k: int| 0 <= k < i ==> (#[trigger] tree.children[k]).null_made(),
                decreases children@.len() - i,
            {
                assert(type_tree(children@[i as int]) == tree.children[i as int]);
                proof {
                    lemma_child_smaller(tree, i as int);
                }
                if !is_null_made(&children[i]) {
                    return false;
                }
                i += 1;
            }
            match kind(data_type) {
                Kind::FixedSizeList(size) => size >= 0,
                _ => true,
            }
        },
        Kind::Union => {
            assert(children@.len() > 0 ==> type_tree(children@[0]) == tree.children[0]);
            proof {
                if children@.len() > 0 {
                    lemma_child_smaller(tree, 0);
                }
            }
            children.len() > 0 && is_null_made(&children[0])
        },
        Kind::RunEndEncoded => {
            assert(children@.len() == 2 ==> type_tree(children@[1]) == tree.children[1]);
            proof {
                if children@.len() == 2 {
                    lemma_child_smaller(tree, 1);
                }
            }
            children.len() == 2 && is_null_made(&children[1])
        },
        _ => true,
    }
}

/// Whether arrow has columns of the type.
#[verifier::loop_isolation(false)]
pub fn is_in_arrow(data_type: &DataType) -> (b: bool)
    ensures
        b == type_tree(*data_type).in_arrow(),
    decreases type_tree(*data_type),
{
    let ghost tree = type_tree(*data_type);
    let children = child_types(data_type);
    let mut i: usize = 0;
    while i < children.len()
        invariant
            i <= children@.len() == tree.children.len(),
            tree == type_tree(*data_type),
            forall|k: int|
                0 <= k < children@.len() ==> type_tree(#[trigger] children@[k])
                    == tree.children[k],
            forall|k: int| 0 <= k < i ==> (#[trigger] tree.children[k]).in_arrow(),
        decreases children@.len() - i,
    {
        assert(type_tree(children@[i as int]) == tree.children[i as int]);
        proof {
            lemma_child_smaller(tree, i as int);
        }
        if !is_in_arrow(&children[i]) {
            return false;
        }
        i += 1;
    }
    assert(children@.len() > 0 ==> type_tree(children@[0]) == tree.children[0]);
    assert(children@.len() == 2 ==> type_tree(children@[1]) == tree.children[1]);
    match kind(data_type) {
        Kind::Entries => children.len() == 1 && matches!(kind(&children[0]), Kind::Struct)
            && child_types(&children[0]).len() == 2,
        Kind::Union => {
            let ids = union_ids(data_type);
            let mut i: usize = 0;
            while i < ids.len()
                invariant
                    i <= ids@.len(),
                    ids@ == tree.ids,
                    forall|k: int| 0 <= k < i ==> #[trigger] tree.ids[k] >= 0,
                decreases ids@.len() - i,
            {
                if ids[i] < 0 {
                    assert(tree.ids[i as int] < 0);
                    return false;
                }
                i += 1;
            }
            children.len() > 0
        },
        Kind::Dictionary => children.len() == 2 && kind(&children[0]).is_integer(),
        Kind::RunEndEncoded => children.len() == 2 && is_null_made(&children[1]) && matches!(
            kind(&children[0]),
            Kind::Int16 | Kind::Int32 | Kind::Int64
        ),
        other => !other.is_odd_time(),
    }
}

/// Whether the type, or a type inside of it, addresses values by 32-bit offsets.
#[verifier::loop_isolation(false)]
pub fn has_short_offsets(data_type: &DataType) -> (b: bool)
    ensures
        b == type_tree(*data_type).short_offsets(),
    decreases type_tree(*data_type),
{
    let ghost tree = type_tree(*data_type);
    let children = child_types(data_type);
    match kind(data_type) {
        Kind::Binary | Kind::Utf8 | Kind::List => true,
        Kind::LargeList | Kind::Struct | Kind::Dictionary => {
            let mut i: usize = 0;
            while i < children.len()
                invariant
                    i <= children@.len() == tree.children.len(),
                    tree == type_tree(*data_type),
                    forall|k: int|
                        0 <= k < children@.len() ==> type_tree(#[trigger] children@[k])
                            == tree.children[k],
                    forall|k: int| 0 <= k < i ==> !(#[trigger] tree.children[k]).short_offsets(),
                decreases children@.len() - i,
            {
                assert(type_tree(children@[i as int]) == tree.children[i as int]);
                proof {
                    lemma_child_smaller(tree, i as int);
                }
                if has_short_offsets(&children[i]) {
                    return true;
                }
                i += 1;
            }
            false
        },
        _ => false,
    }
}

/// Whether arrow has columns of every type.
pub open spec fn all_in_arrow(types: Seq<DataType>) -> bool {
    forall|j: int| 0 <= j < types.len() ==> type_tree(#[trigger] types[j]).in_arrow()
}

} // verus!
