//! The hash table that finds the group of a row.

use crate::memory::saturated;
use hashbrown::HashTable;
use vstd::multiset::Multiset;
use vstd::prelude::*;

verus! {

/// The number of groups that a store can hold: a table of one entry more may not fit in the address
/// space.
pub const MAX_GROUPS: usize = usize::MAX / 161;

/// The number of entries that a table is sure to find room for in the address space.
pub const MAX_ENTRIES: usize = usize::MAX / 160 - 4;

/// A hash table whose entries are pairs of a hash and a group index, each stored under the hash
/// that it names. The keys themselves are not in the table: whoever looks a key up says which
/// entries stand for it.
#[verifier::external_body]
pub struct GroupTable {
    table: HashTable<(u64, usize)>,
}

/// The entries of a table.
pub uninterp spec fn table_entries(table: GroupTable) -> Multiset<(u64, usize)>;

/// The entry once the first `n` groups are gone.
pub open spec fn shifted(entry: (u64, usize), n: usize) -> (u64, usize) {
    (entry.0, (entry.1 - n) as usize)
}

/// The bytes added to the account of a table that was full at the given capacity: room for twice
/// as many entries, and for 16 at the least.
pub open spec fn growth_bytes(capacity: nat, entry_size: nat) -> nat {
    (if 2 * capacity < 16 {
        16
    } else {
        2 * capacity
    }) * entry_size
}

/// The account of a table once an entry is added: the table asks for memory where it is full.
pub open spec fn account(accounting: nat, len: nat, capacity: nat, entry_size: nat) -> nat {
    if len == capacity {
        saturated(accounting + growth_bytes(capacity, entry_size))
    } else {
        accounting
    }
}

/// `HashTable::with_capacity`, with no capacity: a table without entries.
#[verifier::external_body]
fn table_new() -> (table: GroupTable)
    ensures
        table_entries(table) == Multiset::<(u64, usize)>::empty(),
{
    GroupTable { table: HashTable::with_capacity(0) }
}

/// `HashTable::len`: the number of entries.
#[verifier::external_body]
fn table_len(table: &GroupTable) -> (n: usize)
    ensures
        n == table_entries(*table).len(),
{
    table.table.len()
}

/// `HashTable::capacity`: the number of entries that the table holds before it grows.
#[verifier::external_body]
fn table_capacity(table: &GroupTable) -> (n: usize)
    ensures
        n >= table_entries(*table).len(),
{
    table.table.capacity()
}

/// Whether the table can say that it holds so many entries before it grows.
pub closed spec fn has_capacity(table: &GroupTable, entries: usize) -> bool {
    call_ensures(table_capacity, (table,), entries)
}

/// Whether the account of a table of so many entries can go from one number to the other as an
/// entry is added.
pub open spec fn account_step(before: usize, len: nat, after: usize) -> bool {
    exists|table: GroupTable, capacity: usize| #[trigger]
        has_capacity(&table, capacity) && table_entries(table).len() == len && after == account(
            before as nat,
            len,
            capacity as nat,
            vstd::layout::size_of::<(u64, usize)>(),
        )
}

/// Whether the account of a table of so many entries can go from one number to the other as some
/// are added, by a step for each of them.
pub open spec fn account_grows(before: usize, len: nat, new: nat, after: usize) -> bool
    decreases new,
{
    if new == 0 {
        after == before
    } else {
        exists|middle: usize|
            account_grows(before, len, (new - 1) as nat, middle) && #[trigger] account_step(
                middle,
                (len + new - 1) as nat,
                after,
            )
    }
}

/// `HashTable::reserve`: makes room and keeps the entries.
#[verifier::external_body]
fn table_reserve(table: &mut GroupTable, additional: usize)
    requires
        (table_entries(*old(table)).len() + additional) * 80 + 256 <= isize::MAX,
    ensures
        table_entries(*final(table)) == table_entries(*old(table)),
{
    table.table.reserve(additional, |entry| entry.0)
}

/// `HashTable::insert_unique`: adds an entry, stored under the hash that it names.
#[verifier::external_body]
fn table_insert(table: &mut GroupTable, entry: (u64, usize))
    requires
        (table_entries(*old(table)).len() + 1) * 80 + 256 <= isize::MAX,
    ensures
        table_entries(*final(table)) == table_entries(*old(table)).insert(entry),
{
    table.table.insert_unique(entry.0, entry, |entry| entry.0);
}

/// `HashTable::find`: an entry that `eq` says yes to. Only if `eq` says no to every entry with the
/// given hash is there none; `eq` may be asked of entries with another hash too.
#[verifier::external_body]
fn table_find<F: Fn(&(u64, usize)) -> bool>(table: &GroupTable, hash: u64, eq: F) -> (found: Option<
    (u64, usize),
>)
    requires
        forall|e: (u64, usize)| table_entries(*table).contains(e) ==> eq.requires((&e,)),
    ensures
        match found {
            Some(e) => table_entries(*table).contains(e) && eq.ensures((&e,), true),
            None => forall|e: (u64, usize)|
                #[trigger] table_entries(*table).contains(e) && e.0 == hash ==> eq.ensures(
                    (&e,),
                    false,
                ),
        },
{
    table.table.find(hash, |e| eq(e)).copied()
}

/// `HashTable::retain`, with `shift_entry` deciding: entries of the first `n` groups go, and the
/// others count their groups from there.
#[verifier::external_body]
fn table_shift(table: &mut GroupTable, n: usize)
    ensures
        forall|h: u64, g: usize| #[trigger]
            table_entries(*final(table)).count((h, g)) == if g + n <= usize::MAX {
                table_entries(*old(table)).count((h, (g + n) as usize))
            } else {
                0
            },
{
    table.table.retain(|entry| shift_entry(entry, n))
}

/// Moves the group index of an entry down by `n`, and says whether the entry stays: it does
/// unless its group is one of the first `n`.
fn shift_entry(entry: &mut (u64, usize), n: usize) -> (keep: bool)
    ensures
        keep == (n <= old(entry).1),
        keep ==> *final(entry) == shifted(*old(entry), n),
        !keep ==> *final(entry) == *old(entry),
{
    match entry.1.checked_sub(n) {
        Some(group) => {
            entry.1 = group;
            true
        },
        None => false,
    }
}

/// Where the first `n` groups go, an entry goes with them exactly if its group is one of them, and
/// otherwise keeps its hash and names a group that is `n` places further to the front.
proof fn law_shift_entry(entry: &mut (u64, usize), n: usize, keep: bool)
    requires
        call_ensures(shift_entry, (entry, n), keep),
    ensures
        keep <==> old(entry).1 >= n,
        keep ==> final(entry).1 + n == old(entry).1,
        final(entry).0 == old(entry).0,
{
}

/// `HashTable::retain`, with `is_early` deciding: entries of all but the first `n` groups go.
#[verifier::external_body]
fn table_truncate(table: &mut GroupTable, n: usize)
    ensures
        forall|h: u64, g: usize| #[trigger]
            table_entries(*final(table)).count((h, g)) == if g < n {
                table_entries(*old(table)).count((h, g))
            } else {
                0
            },
{
    table.table.retain(|entry| is_early(entry, n))
}

/// Whether the entry is one of the first `n` groups.
fn is_early(entry: &(u64, usize), n: usize) -> (b: bool)
    ensures
        b == (entry.1 < n),
{
    entry.1 < n
}

/// Where all but the first `n` groups go, an entry stays exactly if its group is one of these.
proof fn law_is_early(entry: &(u64, usize), n: usize, b: bool)
    requires
        call_ensures(is_early, (entry, n), b),
    ensures
        b <==> entry.1 < n,
{
}

/// The bytes added to the account of a table that was full at the given capacity, as far as they
/// can be counted.
pub fn growth(capacity: usize, entry_size: usize) -> (bytes: usize)
    ensures
        bytes == saturated(growth_bytes(capacity as nat, entry_size as nat)),
{
    let elements: usize = if capacity < 8 {
        16
    } else {
        match capacity.checked_mul(2) {
            Some(n) => n,
            None => {
                proof {
                    assert(entry_size > 0 ==> 2 * capacity * entry_size > usize::MAX)
                        by (nonlinear_arith)
                        requires
                            2 * capacity > usize::MAX,
                    ;
                    assert(entry_size == 0 ==> 2 * capacity * entry_size == 0)
                        by (nonlinear_arith);
                }
                return if entry_size == 0 {
                    0
                } else {
                    usize::MAX
                };
            },
        }
    };
    match elements.checked_mul(entry_size) {
        Some(bytes) => bytes,
        None => usize::MAX,
    }
}

/// The account of a table once an entry is added: the table asks for memory where it is full.
pub fn accounted(accounting: usize, len: usize, capacity: usize, entry_size: usize) -> (bytes: usize)
    ensures
        bytes == account(accounting as nat, len as nat, capacity as nat, entry_size as nat),
{
    if len == capacity {
        accounting.saturating_add(growth(capacity, entry_size))
    } else {
        accounting
    }
}

impl GroupTable {
    /// A table without entries.
    pub fn new() -> (table: GroupTable)
        ensures
            table_entries(table) == Multiset::<(u64, usize)>::empty(),
    {
        table_new()
    }

    /// The number of entries.
    pub fn len(&self) -> (n: usize)
        ensures
            n == table_entries(*self).len(),
    {
        table_len(self)
    }

    /// An entry that `eq` says yes to. Only if `eq` says no to every entry with the given hash is
    /// there none.
    pub fn find<F: Fn(&(u64, usize)) -> bool>(&self, hash: u64, eq: F) -> (found: Option<
        (u64, usize),
    >)
        requires
            forall|e: (u64, usize)| table_entries(*self).contains(e) ==> eq.requires((&e,)),
        ensures
            match found {
                Some(e) => table_entries(*self).contains(e) && eq.ensures((&e,), true),
                None => forall|e: (u64, usize)|
                    #[trigger] table_entries(*self).contains(e) && e.0 == hash ==> eq.ensures(
                        (&e,),
                        false,
                    ),
            },
    {
        table_find(self, hash, eq)
    }

    /// Adds an entry. Where the table is full it first grows, as far as the address space allows,
    /// and the memory that it asks for is added to the account.
    pub fn insert_accounted(&mut self, entry: (u64, usize), accounting: &mut usize)
        requires
            table_entries(*old(self)).len() < MAX_GROUPS,
        ensures
            table_entries(*final(self)) == table_entries(*old(self)).insert(entry),
            account_step(
                *old(accounting),
                table_entries(*old(self)).len(),
                *final(accounting),
            ),
            exists|capacity: usize| #[trigger]
                has_capacity(old(self), capacity) && *final(accounting) == account(
                    *old(accounting) as nat,
                    table_entries(*old(self)).len(),
                    capacity as nat,
                    vstd::layout::size_of::<(u64, usize)>(),
                ),
    {
        let capacity = table_capacity(self);
        let len = table_len(self);
        assert(has_capacity(old(self), capacity));
        *accounting = accounted(
            *accounting,
            len,
            capacity,
            std::mem::size_of::<(u64, usize)>(),
        );
        if len == capacity {
            let elements: usize = if capacity < 8 {
                16
            } else {
                2 * capacity
            };
            let room: usize = MAX_ENTRIES - len;
            table_reserve(
                self,
                if elements <= room {
                    elements
                } else {
                    room
                },
            );
        }
        table_insert(self, entry);
    }

    /// Drops the entries of all but the first `n` groups.
    pub fn truncate(&mut self, n: usize)
        ensures
            forall|h: u64, g: usize| #[trigger]
                table_entries(*final(self)).count((h, g)) == if g < n {
                    table_entries(*old(self)).count((h, g))
                } else {
                    0
                },
    {
        table_truncate(self, n)
    }

    /// Drops the entries of the first `n` groups, and counts the others from there.
    pub fn shift(&mut self, n: usize)
        ensures
            forall|h: u64, g: usize| #[trigger]
                table_entries(*final(self)).count((h, g)) == if g + n <= usize::MAX {
                    table_entries(*old(self)).count((h, (g + n) as usize))
                } else {
                    0
                },
    {
        table_shift(self, n)
    }
}

} // verus!
