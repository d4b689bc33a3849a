//! The store of group keys: it gives each distinct row a group index, and hands the rows out
//! again as columns.

use crate::columns::{
    column_row, column_rows, column_type, column_values, data_type, equal_lengths, same_length,
    Column, Row,
};
use crate::data_type::{
    field_types, has_short_offsets, is_admitted, is_readable, is_writable, lemma_made_supported,
    lemma_writable_readable, making, schema_types, type_tree, Making,
};
use crate::encoding::{
    all_written, are_written, count_new_values, encodable, is_encodable, law_encodable, Noted,
};
use crate::error::AggregateError;
use crate::grouping::{
    emitted, indices, law_split, lemma_index_of, lemma_with_rows, remaining, with_rows, EmitTo,
};
use crate::limits::{
    all_of_type, all_values, column_of, fits, fits_within, lemma_fits_more,
    lemma_no_short_offsets, lemma_nothing_fits, rows_crowded, rows_within,
};
use crate::memory::{allocated_size, is_allocated, lemma_sum_of_four, saturated, total_size};
use crate::rows::{
    all_readable, all_writable, codecs_making, columns_fail, columns_fit, columns_made, comparable,
    converter_making, converter_origin, converter_size, converter_types, copy_rows, empty_rows,
    equal_types, fit_count, hash_row, interned_count, leading, longest_key, new_converter,
    new_keys, num_rows, push_row, row_at, row_decodes, row_hash, row_len, rows_len, rows_origin,
    rows_size, same_row, same_type, stored_rows, to_columns, to_rows,
};
use crate::table::{account_grows, account_step, table_entries, GroupTable, MAX_GROUPS};
use ahash::RandomState;
use arrow::datatypes::{DataType, Schema};
use arrow::row::{RowConverter, Rows};
use vstd::multiset::Multiset;
use vstd::prelude::*;

verus! {

/// Whether the columns can be interned into a store of the given types that has the given groups.
pub open spec fn internable(types: Seq<DataType>, groups: Seq<Row>, columns: Seq<Column>) -> bool {
    &&& same_length(columns)
    &&& writes(types, columns)
    &&& encodable(leading(types, columns), Noted::nothing())
    &&& columns_fit(types, columns)
    &&& with_rows(groups, column_rows(columns)).len() <= MAX_GROUPS
}

/// Whether the row format writes the types, and all that it looks into of the columns.
pub open spec fn writes(types: Seq<DataType>, columns: Seq<Column>) -> bool {
    all_writable(types) && all_written(leading(types, columns))
}

/// Whether interning the columns can fail with the given error, where the store has taken note of
/// no more than is given. All but the size of the keys is decided by the columns and the groups
/// alone.
pub open spec fn intern_fails(
    types: Seq<DataType>,
    groups: Seq<Row>,
    noted: Noted,
    columns: Seq<Column>,
    error: AggregateError,
) -> bool {
    ||| error is ColumnLengths && !same_length(columns)
    ||| error is UnsupportedKeyType && same_length(columns) && !writes(types, columns)
    ||| error is KeyTooLarge && same_length(columns) && writes(types, columns) && !encodable(
        leading(types, columns),
        noted,
    )
    ||| {
        &&& same_length(columns) && writes(types, columns)
        &&& encodable(leading(types, columns), Noted::nothing())
        &&& if columns_fit(types, columns) {
            error is TooManyGroups && with_rows(groups, column_rows(columns)).len() > MAX_GROUPS
        } else {
            error is Arrow
        }
    }
}

/// What a store can have taken note of once it has been asked to intern the columns: what comes
/// with them counts where they reach the converter.
pub open spec fn noted_by(
    noted: Noted,
    types: Seq<DataType>,
    columns: Seq<Column>,
    result: Result<(), AggregateError>,
) -> Noted {
    match result {
        Err(AggregateError::ColumnLengths)
        | Err(AggregateError::UnsupportedKeyType)
        | Err(AggregateError::KeyTooLarge) => noted,
        _ => noted.after(leading(types, columns)),
    }
}

/// An interning store for group keys.
pub trait GroupValues: Sized {
    /// What holds of every store.
    spec fn inv(&self) -> bool;

    /// The groups, in the order of their indices.
    spec fn groups(&self) -> Seq<Row>;

    /// The data types of the columns of a group key.
    spec fn key_types(&self) -> Seq<DataType>;

    /// As much as the store can have taken note of, going by what it has been handed.
    spec fn noted(&self) -> Noted;

    /// Whether the store can say that what it has taken note of takes up no more than so many
    /// bytes.
    spec fn holds(&self, bytes: usize) -> bool;

    /// Whether the store can say that it takes up so many bytes.
    spec fn takes_up(&self, bytes: usize) -> bool;

    /// Every group is there once, and there are no more of them than a store can hold.
    proof fn law_distinct(&self)
        requires
            self.inv(),
        ensures
            self.groups().no_duplicates(),
            self.groups().len() <= MAX_GROUPS,
    ;

    /// Finds the group of each row that the columns make up, making new groups of those that
    /// have none, and sets `groups` to the indices. Where it fails the groups and the indices are
    /// what they were.
    fn intern(&mut self, cols: &Vec<Column>, groups: &mut Vec<usize>) -> (result: Result<
        (),
        AggregateError,
    >)
        requires
            old(self).inv(),
        ensures
            final(self).inv(),
            final(self).key_types() == old(self).key_types(),
            final(self).noted() == noted_by(
                old(self).noted(),
                old(self).key_types(),
                cols@,
                result,
            ),
            result matches Err(AggregateError::KeyTooLarge) ==> exists|bytes: usize| #[trigger]
                old(self).holds(bytes) && !encodable(
                    leading(old(self).key_types(), cols@),
                    old(self).noted().within(bytes),
                ),
            match result {
                Ok(_) => {
                    &&& internable(old(self).key_types(), old(self).groups(), cols@)
                    &&& final(self).groups() == with_rows(old(self).groups(), column_rows(cols@))
                    &&& final(groups)@ == indices(final(self).groups(), column_rows(cols@))
                },
                Err(e) => {
                    &&& intern_fails(
                        old(self).key_types(),
                        old(self).groups(),
                        old(self).noted(),
                        cols@,
                        e,
                    )
                    &&& final(self).groups() == old(self).groups()
                    &&& final(groups)@ == old(groups)@
                },
            },
    ;

    /// The number of bytes that the store takes up, as far as they can be counted.
    fn size(&self) -> (n: usize)
        requires
            self.inv(),
        ensures
            self.takes_up(n),
    ;

    /// Whether there are no groups.
    fn is_empty(&self) -> (b: bool)
        requires
            self.inv(),
        ensures
            b == (self.groups().len() == 0),
    ;

    /// The number of groups.
    fn len(&self) -> (n: usize)
        requires
            self.inv(),
        ensures
            n == self.groups().len(),
    ;

    /// Hands out group keys as columns. If they are the first ones, they are removed from the
    /// store; if they are all, they stay. Where it fails nothing has changed.
    fn emit(&mut self, emit_to: EmitTo) -> (columns: Result<Vec<Column>, AggregateError>)
        requires
            old(self).inv(),
        ensures
            final(self).inv(),
            final(self).key_types() == old(self).key_types(),
            final(self).noted() == old(self).noted(),
            match columns {
                Ok(c) => {
                    &&& columns_made(
                        old(self).key_types(),
                        emitted(old(self).groups(), emit_to),
                    )
                    &&& same_length(c@)
                    &&& column_rows(c@) == emitted(old(self).groups(), emit_to)
                    &&& c@.len() == old(self).key_types().len()
                    &&& forall|j: int|
                        0 <= j < c@.len() ==> column_type(#[trigger] c@[j])
                            == old(self).key_types()[j]
                    &&& final(self).groups() == remaining(old(self).groups(), emit_to)
                },
                Err(e) => {
                    &&& columns_fail(
                        old(self).key_types(),
                        emitted(old(self).groups(), emit_to),
                        e,
                    )
                    &&& final(self).groups() == old(self).groups()
                },
            },
    ;
}

/// The table entries for the given groups: for each its hash and its index.
pub open spec fn group_entries(groups: Seq<Row>, keys: RandomState, origin: nat) -> Seq<
    (u64, usize),
> {
    Seq::new(groups.len(), |g: int| (row_hash(keys, origin, groups[g]), g as usize))
}

/// A store of group keys in row format.
pub struct GroupValuesRows {
    /// Turns group keys into rows and back.
    row_converter: RowConverter,
    /// Finds the index of a group by the hash of its key. The keys themselves stand in
    /// `group_values` alone.
    map: GroupTable,
    /// The size of `map` in bytes.
    map_size: usize,
    /// The group keys: that of group `i` is the row at position `i`.
    group_values: Rows,
    /// A buffer for the hashes of a batch.
    hashes_buffer: Vec<u64>,
    /// The keys of the hash function.
    random_state: RandomState,
    /// The data types of the group columns.
    types: Vec<DataType>,
    /// Whether the row format writes all of them.
    writable: bool,
    /// Whether the row format turns no rows into empty columns of them.
    readable: bool,
    /// The number of dictionary values that the converter has been handed.
    noted: u64,
    /// As many bytes as its longest dictionary key can have.
    longest: u64,
}

/// The entries for groups are found again, and there are no others.
proof fn lemma_group_entries(groups: Seq<Row>, keys: RandomState, origin: nat)
    requires
        groups.len() <= MAX_GROUPS,
    ensures
        group_entries(groups, keys, origin).to_multiset().len() == groups.len(),
        forall|h: u64, g: usize| #[trigger]
            group_entries(groups, keys, origin).to_multiset().count((h, g)) == if g < groups.len()
                && h == row_hash(keys, origin, groups[g as int]) {
                1nat
            } else {
                0
            },
{
    let entries = group_entries(groups, keys, origin);
    entries.to_multiset_ensures();
    assert(entries.no_duplicates());
    entries.lemma_multiset_has_no_duplicates();
    assert forall|h: u64, g: usize| #[trigger]
        entries.to_multiset().count((h, g)) == if g < groups.len() && h == row_hash(
            keys,
            origin,
            groups[g as int],
        ) {
            1nat
        } else {
            0
        } by {
        if g < groups.len() && h == row_hash(keys, origin, groups[g as int]) {
            assert(entries[g as int] == (h, g));
            assert(entries.contains((h, g)));
        } else {
            if entries.contains((h, g)) {
                let i = choose|i: int| 0 <= i < entries.len() && entries[i] == (h, g);
                assert(i == g);
            }
        }
    }
}

/// A new group brings one new entry.
proof fn lemma_entries_push(groups: Seq<Row>, row: Row, keys: RandomState, origin: nat)
    requires
        groups.len() < MAX_GROUPS,
    ensures
        group_entries(groups.push(row), keys, origin).to_multiset() == group_entries(
            groups,
            keys,
            origin,
        ).to_multiset().insert((row_hash(keys, origin, row), groups.len() as usize)),
{
    let entries = group_entries(groups, keys, origin);
    let entry = (row_hash(keys, origin, row), groups.len() as usize);
    assert(group_entries(groups.push(row), keys, origin) =~= entries.push(entry));
    entries.to_multiset_ensures();
}

/// Shifting the entries by `n` gives those of the groups from position `n` on.
proof fn lemma_entries_shift(
    groups: Seq<Row>,
    n: usize,
    shifted: Multiset<(u64, usize)>,
    keys: RandomState,
    origin: nat,
)
    requires
        n <= groups.len() <= MAX_GROUPS,
        forall|h: u64, g: usize| #[trigger]
            shifted.count((h, g)) == if g + n <= usize::MAX {
                group_entries(groups, keys, origin).to_multiset().count((h, (g + n) as usize))
            } else {
                0
            },
    ensures
        shifted == group_entries(groups.skip(n as int), keys, origin).to_multiset(),
{
    lemma_group_entries(groups, keys, origin);
    lemma_group_entries(groups.skip(n as int), keys, origin);
    let expected = group_entries(groups.skip(n as int), keys, origin).to_multiset();
    assert forall|e: (u64, usize)| shifted.count(e) == expected.count(e) by {
        let (h, g) = e;
        assert(shifted.count((h, g)) == expected.count((h, g)));
    }
    assert(shifted =~= expected);
}

/// Truncating the entries to the first `n` groups gives those of these groups.
proof fn lemma_entries_truncate(
    groups: Seq<Row>,
    n: usize,
    truncated: Multiset<(u64, usize)>,
    keys: RandomState,
    origin: nat,
)
    requires
        n <= groups.len() <= MAX_GROUPS,
        forall|h: u64, g: usize| #[trigger]
            truncated.count((h, g)) == if g < n {
                group_entries(groups, keys, origin).to_multiset().count((h, g))
            } else {
                0
            },
    ensures
        truncated == group_entries(groups.take(n as int), keys, origin).to_multiset(),
{
    lemma_group_entries(groups, keys, origin);
    lemma_group_entries(groups.take(n as int), keys, origin);
    let expected = group_entries(groups.take(n as int), keys, origin).to_multiset();
    assert forall|e: (u64, usize)| truncated.count(e) == expected.count(e) by {
        let (h, g) = e;
        assert(truncated.count((h, g)) == expected.count((h, g)));
    }
    assert(truncated =~= expected);
}

/// Whether no store can be made for the types, for the given reason.
pub open spec fn store_fails(types: Seq<DataType>, error: AggregateError) -> bool {
    ||| error is UnsupportedKeyType && converter_making(types) is Stuck
    ||| error is Arrow && converter_making(types) is Refused
}

/// The first type that is not made is the end of it.
proof fn lemma_codecs_end(types: Seq<DataType>, made: int, all: int)
    requires
        made <= all <= types.len(),
        !(codecs_making(types, made) is Done),
    ensures
        codecs_making(types, all) == codecs_making(types, made),
    decreases all - made,
{
    if made < all {
        lemma_codecs_end(types, made, all - 1);
    }
}

/// Where the first types are made, each of them is.
proof fn lemma_codecs_done(types: Seq<DataType>, made: int, j: int)
    requires
        0 <= j < made <= types.len(),
        codecs_making(types, made) is Done,
    ensures
        type_tree(types[j]).making() is Done,
    decreases made,
{
    if j < made - 1 {
        lemma_codecs_done(types, made - 1, j);
    }
}

/// The smaller of two numbers.
fn at_most(a: u64, b: u64) -> (c: u64)
    ensures
        c == if a <= b {
            a
        } else {
            b
        },
{
    if a <= b {
        a
    } else {
        b
    }
}

/// Whether making a converter for the types gets stuck.
fn is_stuck(types: &Vec<DataType>) -> (b: bool)
    ensures
        b == converter_making(types@) is Stuck,
{
    let mut j: usize = 0;
    while j < types.len()
        invariant
            j <= types@.len(),
            forall|k: int| 0 <= k < j ==> type_tree(#[trigger] types@[k]).admitted(),
        decreases types@.len() - j,
    {
        if !is_admitted(&types[j]) {
            assert(!type_tree(types@[j as int]).admitted());
            return false;
        }
        j += 1;
    }
    let mut made: usize = 0;
    while made < types.len()
        invariant
            made <= types@.len(),
            forall|k: int| 0 <= k < types@.len() ==> type_tree(#[trigger] types@[k]).admitted(),
            codecs_making(types@, made as int) is Done,
        decreases types@.len() - made,
    {
        match making(&types[made]) {
            Making::Done => {},
            end => {
                proof {
                    lemma_codecs_end(types@, made + 1, types@.len() as int);
                }
                return matches!(end, Making::Stuck);
            },
        }
        made += 1;
    }
    false
}

/// Whether every type is one that the row format writes.
fn are_writable(types: &Vec<DataType>) -> (b: bool)
    ensures
        b == all_writable(types@),
{
    let mut j: usize = 0;
    while j < types.len()
        invariant
            j <= types@.len(),
            forall|k: int| 0 <= k < j ==> type_tree(#[trigger] types@[k]).writable(),
        decreases types@.len() - j,
    {
        if !is_writable(&types[j]) {
            assert(!type_tree(types@[j as int]).writable());
            return false;
        }
        j += 1;
    }
    true
}

/// Whether the row format turns no rows into empty columns of the types.
fn are_readable(types: &Vec<DataType>) -> (b: bool)
    ensures
        b == all_readable(types@),
{
    let mut j: usize = 0;
    while j < types.len()
        invariant
            j <= types@.len(),
            forall|k: int| 0 <= k < j ==> type_tree(#[trigger] types@[k]).readable(),
        decreases types@.len() - j,
    {
        if !is_readable(&types[j]) {
            assert(!type_tree(types@[j as int]).readable());
            return false;
        }
        j += 1;
    }
    true
}

/// Types that can be written can be read.
proof fn lemma_all_readable(types: Seq<DataType>)
    requires
        all_writable(types),
    ensures
        all_readable(types),
{
    assert forall|j: int| 0 <= j < types.len() implies type_tree(
        #[trigger] types[j],
    ).readable() by {
        lemma_writable_readable(type_tree(types[j]));
    }
}

/// Where a column is not of its type, those after it make no difference.
proof fn lemma_fit_stops(types: Seq<DataType>, columns: Seq<Column>, n: nat, all: nat)
    requires
        n < all,
        fit_count(types, columns, n) == n,
        !equal_types(column_type(columns[n as int]), types[n as int]),
    ensures
        fit_count(types, columns, all) == n,
    decreases all,
{
    if n + 1 < all {
        lemma_fit_stops(types, columns, n, (all - 1) as nat);
    }
}

impl GroupValuesRows {
    /// The bytes that the hash table has asked for so far.
    pub closed spec fn table_size(&self) -> usize {
        self.map_size
    }

    /// A store without groups, for keys with the fields of the schema.
    pub fn try_new(schema: &Schema) -> (result: Result<GroupValuesRows, AggregateError>)
        ensures
            result matches Err(e) ==> store_fails(schema_types(*schema), e),
            result matches Ok(store) ==> {
                &&& forall|e: AggregateError| !store_fails(schema_types(*schema), e)
                &&& store.inv()
                &&& store.groups() == Seq::<Row>::empty()
                &&& store.key_types() == schema_types(*schema)
                &&& store.noted() == Noted::nothing()
                &&& store.table_size() == 0
            },
    {
        Self::from_types(field_types(schema))
    }

    /// A store without groups, for keys of the given types.
    pub(crate) fn from_types(types: Vec<DataType>) -> (result: Result<
        GroupValuesRows,
        AggregateError,
    >)
        ensures
            result matches Err(e) ==> store_fails(types@, e),
            result matches Ok(store) ==> {
                &&& forall|e: AggregateError| !store_fails(types@, e)
                &&& store.inv()
                &&& store.groups() == Seq::<Row>::empty()
                &&& store.key_types() == types@
                &&& store.noted() == Noted::nothing()
                &&& store.table_size() == 0
            },
    {
        if is_stuck(&types) {
            return Err(AggregateError::UnsupportedKeyType);
        }
        let writable = are_writable(&types);
        let readable = are_readable(&types);
        match new_converter(&types) {
            Err(e) => Err(AggregateError::Arrow(e)),
            Ok(row_converter) => {
                let group_values = empty_rows(&row_converter);
                let store = GroupValuesRows {
                    row_converter,
                    map: GroupTable::new(),
                    map_size: 0,
                    group_values,
                    hashes_buffer: Vec::new(),
                    random_state: new_keys(),
                    types,
                    writable,
                    readable,
                    noted: 0,
                    longest: 0,
                };
                proof {
                    lemma_group_entries(
                        Seq::<Row>::empty(),
                        store.random_state,
                        converter_origin(store.row_converter),
                    );
                    assert(table_entries(store.map) =~= group_entries(
                        Seq::<Row>::empty(),
                        store.random_state,
                        converter_origin(store.row_converter),
                    ).to_multiset());
                }
                Ok(store)
            },
        }
    }

    /// The data types of the group columns.
    pub(crate) fn types(&self) -> (types: &Vec<DataType>)
        requires
            self.inv(),
        ensures
            types@ == self.key_types(),
    {
        &self.types
    }

    /// What stays the same where groups are added or removed.
    spec fn same_keys(&self, before: &GroupValuesRows) -> bool {
        &&& self.row_converter == before.row_converter
        &&& self.random_state == before.random_state
        &&& self.types == before.types
        &&& self.writable == before.writable
        &&& self.readable == before.readable
        &&& self.noted == before.noted
        &&& self.longest == before.longest
    }

    /// How many of the columns the converter looks into.
    fn leading_count(&self, cols: &Vec<Column>) -> (n: usize)
        requires
            self.inv(),
        ensures
            n <= cols@.len(),
            cols@.take(n as int) == leading(self.key_types(), cols@),
    {
        if cols.len() != self.types.len() {
            assert(cols@.take(0) =~= Seq::<Column>::empty());
            return 0;
        }
        let mut n: usize = 0;
        while n < cols.len()
            invariant
                n <= cols@.len() == self.types@.len(),
                self.types@ == self.key_types(),
                fit_count(self.types@, cols@, n as nat) == n,
            decreases cols@.len() - n,
        {
            if !same_type(&data_type(&cols[n]), &self.types[n]) {
                proof {
                    lemma_fit_stops(self.types@, cols@, n as nat, cols@.len());
                }
                return n;
            }
            n += 1;
        }
        n
    }

    /// Sets the buffer to the hashes of the rows.
    fn hash_rows(&mut self, rows: &Rows)
        ensures
            final(self).hashes_buffer@ == Seq::new(
                stored_rows(*rows).len(),
                |i: int| row_hash(
                    old(self).random_state,
                    rows_origin(*rows),
                    stored_rows(*rows)[i],
                ),
            ),
            final(self).same_keys(old(self)),
            final(self).map == old(self).map,
            final(self).map_size == old(self).map_size,
            final(self).group_values == old(self).group_values,
    {
        self.hashes_buffer.clear();
        let n = num_rows(rows);
        let mut i: usize = 0;
        while i < n
            invariant
                i <= n == stored_rows(*rows).len(),
                self.hashes_buffer@.len() == i,
                forall|k: int|
                    0 <= k < i ==> self.hashes_buffer@[k] == row_hash(
                        old(self).random_state,
                        rows_origin(*rows),
                        stored_rows(*rows)[k],
                    ),
                self.same_keys(old(self)),
                self.map == old(self).map,
                self.map_size == old(self).map_size,
                self.group_values == old(self).group_values,
            decreases n - i,
        {
            let hash = hash_row(&self.random_state, rows, i);
            self.hashes_buffer.push(hash);
            i += 1;
        }
    }

    /// The index of the group of one row, which becomes a new group if it has none. There is no
    /// index where the store is full.
    fn intern_row(&mut self, rows: &Rows, row: usize, hash: u64) -> (group: Option<usize>)
        requires
            old(self).inv(),
            old(self).writable,
            row < stored_rows(*rows).len(),
            row_decodes(old(self).key_types(), stored_rows(*rows)[row as int]),
            rows_origin(*rows) == converter_origin(old(self).row_converter),
            hash == row_hash(
                old(self).random_state,
                rows_origin(*rows),
                stored_rows(*rows)[row as int],
            ),
        ensures
            final(self).inv(),
            match group {
                Some(g) => {
                    &&& final(self).groups() == (if old(self).groups().contains(
                        stored_rows(*rows)[row as int],
                    ) {
                        old(self).groups()
                    } else {
                        old(self).groups().push(stored_rows(*rows)[row as int])
                    })
                    &&& g == final(self).groups().index_of(stored_rows(*rows)[row as int])
                    &&& if final(self).groups() == old(self).groups() {
                        final(self).map_size == old(self).map_size
                    } else {
                        account_step(
                            old(self).map_size,
                            old(self).groups().len(),
                            final(self).map_size,
                        )
                    }
                },
                None => {
                    &&& final(self).groups() == old(self).groups()
                    &&& final(self).map_size == old(self).map_size
                    &&& old(self).groups().len() == MAX_GROUPS
                    &&& !old(self).groups().contains(stored_rows(*rows)[row as int])
                },
            },
            final(self).same_keys(old(self)),
            final(self).hashes_buffer == old(self).hashes_buffer,
    {
        let ghost groups = self.groups();
        let ghost key = stored_rows(*rows)[row as int];
        let ghost origin = converter_origin(self.row_converter);
        proof {
            lemma_group_entries(groups, self.random_state, origin);
            assert forall|e: (u64, usize)| table_entries(self.map).contains(e) implies e.1
                < groups.len() && e.0 == row_hash(
                self.random_state,
                origin,
                groups[e.1 as int],
            ) by {
                assert(table_entries(self.map).count((e.0, e.1)) > 0);
            }
        }
        let group_values = &self.group_values;
        let is_group = |entry: &(u64, usize)| -> (b: bool)
            requires
                comparable(rows, row, group_values, entry.1),
            ensures
                b == (row_at(rows, row) == row_at(group_values, entry.1)),
            { same_row(rows, row, group_values, entry.1) };
        let found = self.map.find(hash, is_group);
        match found {
            Some(entry) => {
                proof {
                    assert(groups[entry.1 as int] == key);
                    lemma_index_of(groups, entry.1 as int);
                }
                Some(entry.1)
            },
            None => {
                proof {
                    if groups.contains(key) {
                        let g = groups.index_of(key);
                        let e = (hash, g as usize);
                        assert(table_entries(self.map).count((hash, g as usize)) == 1);
                        assert(table_entries(self.map).contains(e));
                        assert(false);
                    }
                }
                let group = num_rows(&self.group_values);
                if group == MAX_GROUPS {
                    return None;
                }
                push_row(&mut self.group_values, rows, row);
                self.map.insert_accounted((hash, group), &mut self.map_size);
                proof {
                    lemma_entries_push(groups, key, self.random_state, origin);
                    assert(self.groups().no_duplicates());
                    lemma_index_of(self.groups(), group as int);
                }
                Some(group)
            },
        }
    }

    /// Finds the group of each row, whose hashes stand in the buffer, and says whether the store
    /// had room for all of them. Where it had not, some of the groups may have been added.
    fn intern_rows(&mut self, rows: &Rows, groups: &mut Vec<usize>) -> (all: bool)
        requires
            old(self).inv(),
            old(self).writable,
            forall|i: int|
                0 <= i < stored_rows(*rows).len() ==> row_decodes(
                    old(self).key_types(),
                    #[trigger] stored_rows(*rows)[i],
                ),
            rows_origin(*rows) == converter_origin(old(self).row_converter),
            old(self).hashes_buffer@ == Seq::new(
                stored_rows(*rows).len(),
                |i: int| row_hash(
                    old(self).random_state,
                    rows_origin(*rows),
                    stored_rows(*rows)[i],
                ),
            ),
        ensures
            final(self).inv(),
            final(self).same_keys(old(self)),
            all == (with_rows(old(self).groups(), stored_rows(*rows)).len() <= MAX_GROUPS),
            all ==> final(self).groups() == with_rows(old(self).groups(), stored_rows(*rows)),
            all ==> final(groups)@ == indices(final(self).groups(), stored_rows(*rows)),
            !all ==> final(self).groups().len() == MAX_GROUPS,
            account_grows(
                old(self).map_size,
                old(self).groups().len(),
                (final(self).groups().len() - old(self).groups().len()) as nat,
                final(self).map_size,
            ),
            old(self).groups().len() <= final(self).groups().len(),
            final(self).groups().take(old(self).groups().len() as int) == old(self).groups(),
    {
        groups.clear();
        let n = num_rows(rows);
        let ghost all = stored_rows(*rows);
        let mut row: usize = 0;
        proof {
            assert(all.take(0) =~= Seq::<Row>::empty());
        }
        while row < n
            invariant
                row <= n == all.len(),
                all == stored_rows(*rows),
                self.inv(),
                old(self).inv(),
                self.writable,
                forall|i: int|
                    0 <= i < all.len() ==> row_decodes(self.key_types(), #[trigger] all[i]),
                self.same_keys(old(self)),
                self.hashes_buffer == old(self).hashes_buffer,
                rows_origin(*rows) == converter_origin(self.row_converter),
                self.hashes_buffer@ == Seq::new(
                    all.len(),
                    |i: int| row_hash(self.random_state, rows_origin(*rows), all[i]),
                ),
                self.groups() == with_rows(old(self).groups(), all.take(row as int)),
                old(self).groups().len() <= self.groups().len() <= MAX_GROUPS,
                self.groups().take(old(self).groups().len() as int) == old(self).groups(),
                account_grows(
                    old(self).map_size,
                    old(self).groups().len(),
                    (self.groups().len() - old(self).groups().len()) as nat,
                    self.map_size,
                ),
                groups@ == indices(self.groups(), all.take(row as int)),
            decreases n - row,
        {
            let ghost before = self.groups();
            let ghost size = self.map_size;
            let hash = self.hashes_buffer[row];
            let group = match self.intern_row(rows, row, hash) {
                Some(group) => group,
                None => {
                    proof {
                        let next = all.take(row + 1);
                        assert(next.drop_last() =~= all.take(row as int));
                        assert(next.last() == all[row as int]);
                        assert(all =~= next + all.skip(row + 1));
                        law_split(old(self).groups(), next, all.skip(row + 1));
                        lemma_with_rows(old(self).groups(), next);
                        lemma_with_rows(
                            with_rows(old(self).groups(), next),
                            all.skip(row + 1),
                        );
                    }
                    return false;
                },
            };
            groups.push(group);
            proof {
                let next = all.take(row + 1);
                assert(next.drop_last() =~= all.take(row as int));
                assert(next.last() == all[row as int]);
                if self.groups().len() > before.len() {
                    let start = old(self).groups().len();
                    let new = (self.groups().len() - start) as nat;
                    assert(account_step(size, (start + new - 1) as nat, self.map_size));
                    assert(account_grows(old(self).map_size, start, new, self.map_size));
                } else {
                    assert(self.groups() == before);
                }
                lemma_with_rows(old(self).groups(), all.take(row as int));
                assert forall|i: int| 0 <= i < row implies self.groups().index_of(
                    #[trigger] all.take(row as int)[i],
                ) == before.index_of(all.take(row as int)[i]) by {
                    assert(before.contains(all.take(row as int)[i]));
                    let k = before.index_of(all.take(row as int)[i]);
                    assert(self.groups()[k] == before[k]);
                    lemma_index_of(self.groups(), k);
                }
                assert(groups@ =~= indices(self.groups(), next)) by {
                    assert forall|i: int| 0 <= i < row implies groups@[i] == indices(
                        self.groups(),
                        next,
                    )[i] by {
                        assert(next[i] == all.take(row as int)[i]);
                    }
                }
            }
            row += 1;
        }
        assert(all.take(n as int) =~= all);
        true
    }

    /// One column of the first `n` groups, a column of its own for each group.
    fn column_parts(&self, n: usize, column: usize) -> (result: Result<Vec<Column>, AggregateError>)
        requires
            self.inv(),
            n <= self.groups().len(),
            column < self.key_types().len(),
        ensures
            result is Ok,
            result matches Ok(parts) ==> all_of_type(
                parts@,
                type_tree(self.key_types()[column as int]),
            ) && all_values(parts@) == column_of(self.groups().take(n as int), column as int),
    {
        let ghost tree = type_tree(self.key_types()[column as int]);
        let ghost all = self.groups();
        let mut parts: Vec<Column> = Vec::new();
        let mut group: usize = 0;
        assert(column_of(all.take(0), column as int) =~= all_values(parts@));
        while group < n
            invariant
                self.inv(),
                all == self.groups(),
                group <= n <= all.len(),
                column < self.key_types().len(),
                tree == type_tree(self.key_types()[column as int]),
                all_of_type(parts@, tree),
                all_values(parts@) == column_of(all.take(group as int), column as int),
            decreases n - group,
        {
            let one = copy_rows(&self.row_converter, &self.group_values, group, group + 1);
            let ghost row = all[group as int];
            proof {
                assert(stored_rows(one) =~= seq![row]);
                assert(row_decodes(self.key_types(), row));
                lemma_all_readable(self.key_types());
            }
            let mut columns = match to_columns(&self.row_converter, &one) {
                Ok(columns) => columns,
                Err(e) => return Err(AggregateError::Arrow(e)),
            };
            let ghost made = columns@;
            let ghost before = parts@;
            let part = columns.remove(column);
            proof {
                assert(part == made[column as int]);
                assert(column_values(made[0]).len() == column_rows(made).len());
                assert(column_values(part).len() == 1);
                assert(column_rows(made)[0] == column_row(made, 0));
                assert(row[column as int] == column_values(part)[0]);
                assert(column_values(part) =~= seq![row[column as int]]);
            }
            parts.push(part);
            proof {
                assert(parts@.drop_last() =~= before);
                assert(all_values(parts@) =~= column_of(all.take(group + 1), column as int));
                assert forall|q: int| 0 <= q < parts@.len() implies type_tree(
                    column_type(#[trigger] parts@[q]),
                ) == tree by {
                    if q < before.len() {
                        assert(parts@[q] == before[q]);
                    }
                }
            }
            group += 1;
        }
        Ok(parts)
    }

    /// Whether nothing that is addressed by 32-bit offsets in columns of the first `n` groups is
    /// more than `limit`. That cannot be said where the row format has no columns of the keys, or
    /// where a dictionary inside of them has more values than a store can hold groups.
    pub fn within(&self, n: usize, limit: usize) -> (within: Result<bool, AggregateError>)
        requires
            self.inv(),
            n <= self.groups().len(),
            limit < usize::MAX,
        ensures
            match within {
                Ok(b) => all_readable(self.key_types()) && b == rows_within(
                    self.key_types(),
                    self.groups().take(n as int),
                    limit as int,
                ),
                Err(e) => {
                    ||| e is UnsupportedKeyType && !all_readable(self.key_types())
                    ||| e is TooManyGroups && all_readable(self.key_types()) && rows_crowded(
                        self.key_types(),
                        self.groups().take(n as int),
                    ) && MAX_GROUPS <= limit + 1
                },
            },
    {
        if !self.readable {
            return Err(AggregateError::UnsupportedKeyType);
        }
        let ghost rows = self.groups().take(n as int);
        if n == 0 {
            proof {
                lemma_nothing_fits(self.key_types(), rows, limit as int);
            }
            return Ok(true);
        }
        let mut j: usize = 0;
        while j < self.types.len()
            invariant
                self.inv(),
                self.readable,
                0 < n <= self.groups().len(),
                rows == self.groups().take(n as int),
                limit < usize::MAX,
                j <= self.types@.len(),
                forall|k: int|
                    0 <= k < j ==> fits(
                        type_tree(#[trigger] self.key_types()[k]),
                        column_of(rows, k),
                        limit as int,
                    ),
            decreases self.types@.len() - j,
        {
            let ghost tree = type_tree(self.key_types()[j as int]);
            if has_short_offsets(&self.types[j]) {
                let parts = match self.column_parts(n, j) {
                    Ok(parts) => parts,
                    Err(e) => return Err(e),
                };
                proof {
                    lemma_codecs_done(self.key_types(), self.key_types().len() as int, j as int);
                    lemma_made_supported(tree);
                }
                match fits_within(&self.types[j], &parts, limit) {
                    Ok(true) => {},
                    Ok(false) => return Ok(false),
                    Err(e) => return Err(e),
                }
            } else {
                proof {
                    lemma_no_short_offsets(tree, column_of(rows, j as int), limit as int);
                }
            }
            j += 1;
        }
        Ok(true)
    }

    /// The columns that the first groups make up, given as rows.
    fn columns_of(&self, rows: &Rows) -> (columns: Result<Vec<Column>, AggregateError>)
        requires
            self.inv(),
            rows_origin(*rows) == converter_origin(self.row_converter),
            stored_rows(*rows).len() <= self.groups().len(),
            stored_rows(*rows) == self.groups().take(stored_rows(*rows).len() as int),
        ensures
            match columns {
                Ok(c) => {
                    &&& columns_made(self.key_types(), stored_rows(*rows))
                    &&& same_length(c@)
                    &&& column_rows(c@) == stored_rows(*rows)
                    &&& c@.len() == self.key_types().len()
                    &&& forall|j: int|
                        0 <= j < c@.len() ==> column_type(#[trigger] c@[j]) == self.key_types()[j]
                },
                Err(e) => columns_fail(self.key_types(), stored_rows(*rows), e),
            },
    {
        if !self.readable {
            return Err(AggregateError::UnsupportedKeyType);
        }
        let limit: usize = i32::MAX as usize;
        let size = rows_size(rows);
        let held = converter_size(&self.row_converter, rows);
        if size <= limit && held <= limit - size {
            proof {
                let types = self.key_types();
                let all = stored_rows(*rows);
                assert forall|j: int| 0 <= j < types.len() implies fits(
                    type_tree(#[trigger] types[j]),
                    column_of(all, j),
                    i32::MAX as int,
                ) by {
                    lemma_fits_more(
                        type_tree(types[j]),
                        column_of(all, j),
                        held + rows_len(
                            all.map_values(|row: Row| row_len(rows_origin(*rows), row)),
                        ),
                        i32::MAX as int,
                    );
                }
            }
        } else {
            match self.within(num_rows(rows), limit) {
                Ok(true) => {},
                Ok(false) => return Err(AggregateError::OffsetOverflow),
                Err(e) => return Err(e),
            }
        }
        match to_columns(&self.row_converter, rows) {
            Ok(columns) => Ok(columns),
            Err(e) => Err(AggregateError::Arrow(e)),
        }
    }

    /// Removes all but the first `n` groups.
    fn keep_first(&mut self, n: usize)
        requires
            old(self).inv(),
            n <= old(self).groups().len(),
        ensures
            final(self).inv(),
            final(self).same_keys(old(self)),
            final(self).map_size == old(self).map_size,
            final(self).groups() == old(self).groups().take(n as int),
    {
        let ghost groups = self.groups();
        let ghost origin = converter_origin(self.row_converter);
        let first = copy_rows(&self.row_converter, &self.group_values, 0, n);
        assert(stored_rows(first) =~= groups.take(n as int));
        self.group_values = first;
        self.map.truncate(n);
        proof {
            lemma_entries_truncate(groups, n, table_entries(self.map), self.random_state, origin);
            assert(self.groups().no_duplicates());
        }
    }

    /// Removes the first `n` groups, or all where there are fewer.
    fn remove_first(&mut self, n: usize)
        requires
            old(self).inv(),
        ensures
            final(self).inv(),
            final(self).same_keys(old(self)),
            final(self).map_size == old(self).map_size,
            final(self).groups() == remaining(old(self).groups(), EmitTo::First(n)),
    {
        let total = num_rows(&self.group_values);
        let first = if n < total {
            n
        } else {
            total
        };
        let ghost groups = self.groups();
        let ghost origin = converter_origin(self.row_converter);
        let rest = copy_rows(&self.row_converter, &self.group_values, first, total);
        assert(stored_rows(rest) =~= groups.skip(first as int));
        self.group_values = rest;
        self.map.shift(first);
        proof {
            lemma_entries_shift(
                groups,
                first,
                table_entries(self.map),
                self.random_state,
                origin,
            );
            assert(self.groups().no_duplicates());
        }
    }
}

impl GroupValuesRows {
    /// The size of a store is what the converter and the rows say of themselves, what the hash
    /// table has asked for, and the room for hashes, added up as far as that can be counted. It is
    /// never less than what the hash table has asked for.
    pub proof fn law_size(&self, bytes: usize)
        requires
            call_ensures(GroupValuesRows::size, (self,), bytes),
        ensures
            bytes >= self.table_size(),
            bytes < usize::MAX ==> bytes >= self.table_size() + vstd::layout::size_of::<Rows>() + (
            self.groups().len() + 1) * vstd::layout::size_of::<usize>(),
    {
        let parts = self.lemma_size(bytes);
    }

    /// The parts that a store adds up: the converter, the rows, and the room for hashes.
    proof fn lemma_size(&self, bytes: usize) -> (parts: (usize, usize, usize))
        requires
            call_ensures(GroupValuesRows::size, (self,), bytes),
        ensures
            call_ensures(
                converter_size,
                (&self.row_converter, &self.group_values),
                parts.0,
            ),
            call_ensures(rows_size, (&self.group_values,), parts.1),
            is_allocated(&self.hashes_buffer, parts.2),
            ({
                let total = parts.0 + parts.1 + self.map_size + parts.2;
                &&& total <= usize::MAX ==> bytes == total
                &&& total > usize::MAX ==> bytes == usize::MAX
            }),
    {
        let (converter, rows, hashes) = choose|converter: usize, rows: usize, hashes: usize|
            {
                &&& #[trigger] call_ensures(
                    converter_size,
                    (&self.row_converter, &self.group_values),
                    converter,
                )
                &&& #[trigger] call_ensures(rows_size, (&self.group_values,), rows)
                &&& #[trigger] is_allocated(&self.hashes_buffer, hashes)
                &&& bytes == saturated((converter + rows + self.map_size + hashes) as nat)
            };
        (converter, rows, hashes)
    }
}

impl GroupValues for GroupValuesRows {
    closed spec fn inv(&self) -> bool {
        &&& converter_making(converter_types(self.row_converter)) is Done
        &&& self.types@ == converter_types(self.row_converter)
        &&& self.writable == all_writable(self.types@)
        &&& self.readable == all_readable(self.types@)
        &&& stored_rows(self.group_values).len() > 0 ==> self.writable
        &&& self.noted < u64::MAX ==> interned_count(self.row_converter) <= self.noted
        &&& self.longest < u64::MAX ==> longest_key(self.row_converter) <= self.longest
        &&& rows_origin(self.group_values) == converter_origin(self.row_converter)
        &&& stored_rows(self.group_values).no_duplicates()
        &&& stored_rows(self.group_values).len() <= MAX_GROUPS
        &&& table_entries(self.map) == group_entries(
            stored_rows(self.group_values),
            self.random_state,
            converter_origin(self.row_converter),
        ).to_multiset()
        &&& forall|g: int|
            0 <= g < stored_rows(self.group_values).len() ==> row_decodes(
                converter_types(self.row_converter),
                #[trigger] stored_rows(self.group_values)[g],
            )
    }

    closed spec fn groups(&self) -> Seq<Row> {
        stored_rows(self.group_values)
    }

    closed spec fn key_types(&self) -> Seq<DataType> {
        converter_types(self.row_converter)
    }

    closed spec fn noted(&self) -> Noted {
        Noted { values: self.noted as nat, longest: self.longest as nat }
    }

    /// What the converter says of itself.
    closed spec fn holds(&self, bytes: usize) -> bool {
        call_ensures(converter_size, (&self.row_converter, &self.group_values), bytes)
    }

    /// What the converter says of itself, the rows, what the hash table has asked for, and the
    /// room for hashes, together.
    closed spec fn takes_up(&self, bytes: usize) -> bool {
        exists|converter: usize, rows: usize, hashes: usize| #[trigger]
            call_ensures(converter_size, (&self.row_converter, &self.group_values), converter)
                && #[trigger] call_ensures(rows_size, (&self.group_values,), rows)
                && #[trigger] is_allocated(&self.hashes_buffer, hashes) && bytes == saturated(
                (converter + rows + self.map_size + hashes) as nat,
            )
    }

    proof fn law_distinct(&self) {
    }

    fn intern(&mut self, cols: &Vec<Column>, groups: &mut Vec<usize>) -> (result: Result<
        (),
        AggregateError,
    >)
        ensures
            match result {
                Ok(_) => account_grows(
                    old(self).table_size(),
                    old(self).groups().len(),
                    (final(self).groups().len() - old(self).groups().len()) as nat,
                    final(self).table_size(),
                ),
                Err(AggregateError::TooManyGroups) => account_grows(
                    old(self).table_size(),
                    old(self).groups().len(),
                    (MAX_GROUPS - old(self).groups().len()) as nat,
                    final(self).table_size(),
                ),
                Err(_) => final(self).table_size() == old(self).table_size(),
            },
    {
        if !equal_lengths(cols) {
            return Err(AggregateError::ColumnLengths);
        }
        let first = self.leading_count(cols);
        if !self.writable || !are_written(cols, first) {
            return Err(AggregateError::UnsupportedKeyType);
        }
        let held = converter_size(&self.row_converter, &self.group_values);
        let values = at_most(self.noted, held as u64 / 16);
        let longest = at_most(self.longest, held as u64);
        let ghost lead = leading(self.key_types(), cols@);
        let ghost within = self.noted().within(held);
        if !is_encodable(cols, first, values, longest) {
            proof {
                assert(self.holds(held));
                if encodable(lead, self.noted()) {
                    law_encodable(lead, within, self.noted());
                }
            }
            return Err(AggregateError::KeyTooLarge);
        }
        proof {
            let actual = Noted {
                values: interned_count(self.row_converter),
                longest: longest_key(self.row_converter),
            };
            law_encodable(lead, actual, within);
            law_encodable(lead, Noted::nothing(), within);
        }
        let new = count_new_values(cols, first);
        let converted = to_rows(&mut self.row_converter, cols);
        self.noted = self.noted.saturating_add(new);
        if new > 0 {
            self.longest = self.longest.saturating_add(new / 254 + 1);
        }
        let rows = match converted {
            Ok(rows) => rows,
            Err(e) => return Err(AggregateError::Arrow(e)),
        };
        self.hash_rows(&rows);
        let before = num_rows(&self.group_values);
        if num_rows(&rows) <= MAX_GROUPS - before {
            proof {
                lemma_with_rows(self.groups(), stored_rows(rows));
            }
            self.intern_rows(&rows, groups);
            return Ok(());
        }
        let mut found: Vec<usize> = Vec::new();
        if self.intern_rows(&rows, &mut found) {
            *groups = found;
            Ok(())
        } else {
            self.keep_first(before);
            Err(AggregateError::TooManyGroups)
        }
    }

    fn size(&self) -> (n: usize) {
        let converter = converter_size(&self.row_converter, &self.group_values);
        let rows = rows_size(&self.group_values);
        let hashes = allocated_size(&self.hashes_buffer);
        let sizes: Vec<usize> = vec![converter, rows, self.map_size, hashes];
        proof {
            assert(sizes@ =~= seq![converter, rows, self.map_size, hashes]);
            lemma_sum_of_four(converter, rows, self.map_size, hashes);
        }
        total_size(&sizes)
    }

    fn is_empty(&self) -> (b: bool) {
        self.len() == 0
    }

    fn len(&self) -> (n: usize) {
        num_rows(&self.group_values)
    }

    fn emit(&mut self, emit_to: EmitTo) -> (columns: Result<Vec<Column>, AggregateError>)
        ensures
            final(self).table_size() == old(self).table_size(),
    {
        let total = num_rows(&self.group_values);
        let n = match emit_to {
            EmitTo::All => total,
            EmitTo::First(n) => if n < total {
                n
            } else {
                total
            },
        };
        assert(self.groups().take(total as int) =~= self.groups());
        let output = match emit_to {
            EmitTo::All => self.columns_of(&self.group_values),
            EmitTo::First(_) => {
                let first = copy_rows(&self.row_converter, &self.group_values, 0, n);
                assert(stored_rows(first) =~= self.groups().take(n as int));
                self.columns_of(&first)
            },
        };
        let columns = match output {
            Ok(columns) => columns,
            Err(e) => return Err(e),
        };
        match emit_to {
            EmitTo::All => {},
            EmitTo::First(n) => self.remove_first(n),
        }
        Ok(columns)
    }
}

} // verus!
