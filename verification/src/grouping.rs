//! What it means to group rows: the groups are the distinct rows in the order in which they first
//! came, and the index of a group is its position among them.

use crate::columns::Row;
use vstd::prelude::*;

verus! {

/// Which groups to emit.
#[derive(Debug, Clone, Copy, PartialEq, Eq, Structural)]
pub enum EmitTo {
    /// All groups.
    All,
    /// The first `n` groups, which are then removed; the indices of the others move down by `n`.
    First(usize),
}

/// The groups once the rows have been added to them: each row that is not a group yet becomes
/// the next one.
pub open spec fn with_rows(groups: Seq<Row>, rows: Seq<Row>) -> Seq<Row>
    decreases rows.len(),
{
    if rows.len() == 0 {
        groups
    } else {
        let before = with_rows(groups, rows.drop_last());
        if before.contains(rows.last()) {
            before
        } else {
            before.push(rows.last())
        }
    }
}

/// The group index of each row.
pub open spec fn indices(groups: Seq<Row>, rows: Seq<Row>) -> Seq<usize> {
    Seq::new(rows.len(), |i: int| groups.index_of(rows[i]) as usize)
}

/// The number of groups that are emitted.
pub open spec fn emit_count<T>(groups: Seq<T>, emit_to: EmitTo) -> int {
    match emit_to {
        EmitTo::All => groups.len() as int,
        EmitTo::First(n) => if n <= groups.len() {
            n as int
        } else {
            groups.len() as int
        },
    }
}

/// The groups that are emitted.
pub open spec fn emitted<T>(groups: Seq<T>, emit_to: EmitTo) -> Seq<T> {
    groups.take(emit_count(groups, emit_to))
}

/// The groups that are there after the emission: where all are emitted, they stay.
pub open spec fn remaining<T>(groups: Seq<T>, emit_to: EmitTo) -> Seq<T> {
    match emit_to {
        EmitTo::All => groups,
        EmitTo::First(_) => groups.skip(emit_count(groups, emit_to)),
    }
}

/// In a sequence without duplicates, the index of the element at position `i` is `i`.
pub proof fn lemma_index_of(groups: Seq<Row>, i: int)
    requires
        groups.no_duplicates(),
        0 <= i < groups.len(),
    ensures
        groups.index_of(groups[i]) == i,
{
    assert(groups.contains(groups[i]));
}

/// Adding rows keeps the groups distinct and in place, makes every row a group, and adds at most
/// one group for each row.
pub proof fn lemma_with_rows(groups: Seq<Row>, rows: Seq<Row>)
    requires
        groups.no_duplicates(),
    ensures
        with_rows(groups, rows).no_duplicates(),
        groups.len() <= with_rows(groups, rows).len() <= groups.len() + rows.len(),
        groups == with_rows(groups, rows).take(groups.len() as int),
        forall|i: int|
            0 <= i < rows.len() ==> with_rows(groups, rows).contains(#[trigger] rows[i]),
    decreases rows.len(),
{
    let after = with_rows(groups, rows);
    if rows.len() > 0 {
        let before = with_rows(groups, rows.drop_last());
        lemma_with_rows(groups, rows.drop_last());
        assert(forall|k: int| 0 <= k < before.len() ==> after[k] == before[k]);
        assert forall|i: int| 0 <= i < rows.len() implies after.contains(#[trigger] rows[i]) by {
            if i < rows.len() - 1 {
                assert(rows.drop_last()[i] == rows[i]);
                let k = choose|k: int| 0 <= k < before.len() && before[k] == rows[i];
                assert(after[k] == rows[i]);
            } else if !before.contains(rows.last()) {
                assert(after[before.len() as int] == rows[i]);
            }
        }
    }
    assert(groups =~= after.take(groups.len() as int));
}

/// Two rows of a batch get the same group index exactly if they are equal.
pub proof fn law_same_row_same_group(groups: Seq<Row>, rows: Seq<Row>, i: int, j: int)
    requires
        groups.no_duplicates(),
        with_rows(groups, rows).len() <= usize::MAX,
        0 <= i < rows.len(),
        0 <= j < rows.len(),
    ensures
        indices(with_rows(groups, rows), rows)[i] == indices(with_rows(groups, rows), rows)[j]
            <==> rows[i] == rows[j],
{
    lemma_with_rows(groups, rows);
    let after = with_rows(groups, rows);
    assert(after.contains(rows[i]) && after.contains(rows[j]));
    let ki = after.index_of(rows[i]);
    let kj = after.index_of(rows[j]);
    assert(after[ki] == rows[i] && after[kj] == rows[j]);
}

/// The index of a row names the group that holds it.
pub proof fn law_index_names_row(groups: Seq<Row>, rows: Seq<Row>, i: int)
    requires
        groups.no_duplicates(),
        with_rows(groups, rows).len() <= usize::MAX,
        0 <= i < rows.len(),
    ensures
        indices(with_rows(groups, rows), rows)[i] < with_rows(groups, rows).len(),
        with_rows(groups, rows)[indices(with_rows(groups, rows), rows)[i] as int] == rows[i],
{
    lemma_with_rows(groups, rows);
    assert(with_rows(groups, rows).contains(rows[i]));
}

/// A group keeps its index, whatever rows come later.
pub proof fn law_indices_stay(groups: Seq<Row>, rows: Seq<Row>, g: int)
    requires
        groups.no_duplicates(),
        0 <= g < groups.len(),
    ensures
        with_rows(groups, rows).index_of(groups[g]) == g,
{
    lemma_with_rows(groups, rows);
    let after = with_rows(groups, rows);
    assert(after.take(groups.len() as int)[g] == after[g]);
    lemma_index_of(after, g);
}

/// Group indices are consecutive and given out in order of first appearance: each new index is
/// that of some row of the batch, and all rows before the first such row have lower indices.
pub proof fn law_consecutive(groups: Seq<Row>, rows: Seq<Row>, g: int) -> (first: int)
    requires
        groups.no_duplicates(),
        with_rows(groups, rows).len() <= usize::MAX,
        groups.len() <= g < with_rows(groups, rows).len(),
    ensures
        0 <= first < rows.len(),
        indices(with_rows(groups, rows), rows)[first] == g,
        forall|i: int| 0 <= i < first ==> indices(with_rows(groups, rows), rows)[i] < g,
    decreases rows.len(),
{
    let after = with_rows(groups, rows);
    let before = with_rows(groups, rows.drop_last());
    let last = rows.len() - 1;
    lemma_with_rows(groups, rows);
    lemma_with_rows(groups, rows.drop_last());
    law_split(groups, rows.drop_last(), seq![rows.last()]);
    assert(rows.drop_last() + seq![rows.last()] =~= rows);
    assert forall|i: int| 0 <= i < last implies indices(after, rows)[i] == indices(
        before,
        rows.drop_last(),
    )[i] && indices(after, rows)[i] < before.len() by {
        assert(rows.drop_last()[i] == rows[i]);
        let k = before.index_of(rows[i]);
        assert(before.contains(rows[i]));
        assert(before[k] == rows[i]);
        law_indices_stay(before, seq![rows.last()], k);
    }
    if g < before.len() {
        law_consecutive(groups, rows.drop_last(), g)
    } else {
        lemma_index_of(after, before.len() as int);
        last
    }
}

/// Where a batch is cut in two makes no difference to the groups.
pub proof fn law_split(groups: Seq<Row>, first: Seq<Row>, second: Seq<Row>)
    ensures
        with_rows(groups, first + second) == with_rows(with_rows(groups, first), second),
    decreases second.len(),
{
    if second.len() == 0 {
        assert(first + second =~= first);
    } else {
        law_split(groups, first, second.drop_last());
        assert((first + second).drop_last() =~= first + second.drop_last());
        assert((first + second).last() == second.last());
    }
}

/// Where a batch is cut in two makes no difference to the indices that its rows get.
pub proof fn law_split_indices(groups: Seq<Row>, first: Seq<Row>, second: Seq<Row>)
    requires
        groups.no_duplicates(),
    ensures
        indices(with_rows(groups, first + second), first + second) == indices(
            with_rows(groups, first),
            first,
        ) + indices(with_rows(with_rows(groups, first), second), second),
{
    law_split(groups, first, second);
    lemma_with_rows(groups, first);
    let middle = with_rows(groups, first);
    let after = with_rows(middle, second);
    assert forall|i: int| 0 <= i < first.len() implies after.index_of(first[i])
        == middle.index_of(first[i]) by {
        assert(middle.contains(first[i]));
        law_indices_stay(middle, second, middle.index_of(first[i]));
    }
    assert(indices(after, first + second) =~= indices(middle, first) + indices(after, second));
}

/// Rows that are groups already change nothing.
pub proof fn law_known_rows(groups: Seq<Row>, rows: Seq<Row>)
    requires
        forall|i: int| 0 <= i < rows.len() ==> groups.contains(#[trigger] rows[i]),
    ensures
        with_rows(groups, rows) == groups,
    decreases rows.len(),
{
    if rows.len() > 0 {
        assert forall|i: int| 0 <= i < rows.len() - 1 implies groups.contains(
            #[trigger] rows.drop_last()[i],
        ) by {
            assert(rows.drop_last()[i] == rows[i]);
        }
        law_known_rows(groups, rows.drop_last());
        assert(groups.contains(rows[rows.len() - 1]));
    }
}

/// Adding the same rows twice is the same as adding them once.
pub proof fn law_idempotent(groups: Seq<Row>, rows: Seq<Row>)
    requires
        groups.no_duplicates(),
    ensures
        with_rows(with_rows(groups, rows), rows) == with_rows(groups, rows),
{
    lemma_with_rows(groups, rows);
    law_known_rows(with_rows(groups, rows), rows);
}

/// Every group is one of those that were there or one of the rows.
pub proof fn law_no_other_groups(groups: Seq<Row>, rows: Seq<Row>, row: Row)
    requires
        groups.no_duplicates(),
    ensures
        with_rows(groups, rows).contains(row) <==> groups.contains(row) || rows.contains(row),
    decreases rows.len(),
{
    lemma_with_rows(groups, rows);
    let after = with_rows(groups, rows);
    if groups.contains(row) {
        let k = groups.index_of(row);
        assert(after.take(groups.len() as int)[k] == after[k]);
    }
    if rows.len() > 0 {
        let before = with_rows(groups, rows.drop_last());
        law_no_other_groups(groups, rows.drop_last(), row);
        if after.contains(row) && !before.contains(row) {
            let k = after.index_of(row);
            assert(k == before.len());
            assert(rows[rows.len() - 1] == row);
        }
        if before.contains(row) && !groups.contains(row) {
            let k = rows.drop_last().index_of(row);
            assert(rows[k] == row);
        }
        if rows.contains(row) {
            let k = rows.index_of(row);
            assert(after.contains(rows[k]));
        }
    }
}

/// Emitting the first groups takes them off the front: what is emitted and what is left make up
/// the groups.
pub proof fn law_emit_first_partitions(groups: Seq<Row>, n: usize)
    ensures
        emitted(groups, EmitTo::First(n)) + remaining(groups, EmitTo::First(n)) == groups,
{
    assert(emitted(groups, EmitTo::First(n)) + remaining(groups, EmitTo::First(n)) =~= groups);
}

/// Emitting the first `n` groups and then the first `m` emits the same as the first `n + m` at
/// once, and leaves the same.
pub proof fn law_emit_first_twice(groups: Seq<Row>, n: usize, m: usize)
    requires
        n + m <= usize::MAX,
    ensures
        emitted(groups, EmitTo::First(n)) + emitted(
            remaining(groups, EmitTo::First(n)),
            EmitTo::First(m),
        ) == emitted(groups, EmitTo::First((n + m) as usize)),
        remaining(remaining(groups, EmitTo::First(n)), EmitTo::First(m)) == remaining(
            groups,
            EmitTo::First((n + m) as usize),
        ),
{
    let rest = remaining(groups, EmitTo::First(n));
    assert(emitted(groups, EmitTo::First(n)) + emitted(rest, EmitTo::First(m)) =~= emitted(
        groups,
        EmitTo::First((n + m) as usize),
    ));
    assert(remaining(rest, EmitTo::First(m)) =~= remaining(
        groups,
        EmitTo::First((n + m) as usize),
    ));
}

/// A group that is left after the first `n` were emitted has moved down by `n`.
pub proof fn law_emit_first_shifts(groups: Seq<Row>, n: usize, g: int)
    requires
        groups.no_duplicates(),
        n <= g < groups.len(),
    ensures
        remaining(groups, EmitTo::First(n)).index_of(groups[g]) == g - n,
{
    let rest = remaining(groups, EmitTo::First(n));
    assert(rest[g - n] == groups[g]);
    assert(rest.no_duplicates());
    lemma_index_of(rest, g - n);
}

/// A row whose group was emitted is a new group when it comes again, after those that are left.
pub proof fn law_emitted_row_returns(groups: Seq<Row>, n: usize, g: int)
    requires
        groups.no_duplicates(),
        0 <= g < n,
        g < groups.len(),
    ensures
        with_rows(remaining(groups, EmitTo::First(n)), seq![groups[g]]) == remaining(
            groups,
            EmitTo::First(n),
        ).push(groups[g]),
{
    let rest = remaining(groups, EmitTo::First(n));
    let rows = seq![groups[g]];
    assert(rows.drop_last() =~= Seq::<Row>::empty());
    assert(with_rows(rest, rows.drop_last()) == rest);
    if rest.contains(groups[g]) {
        let k = rest.index_of(groups[g]);
        assert(rest[k] == groups[k + emit_count(groups, EmitTo::First(n))]);
    }
}

/// Rows of which none has been emitted before are grouped as if nothing had been emitted.
pub proof fn law_emitted_apart(out: Seq<Row>, groups: Seq<Row>, rows: Seq<Row>)
    requires
        forall|i: int| 0 <= i < rows.len() ==> !out.contains(#[trigger] rows[i]),
    ensures
        with_rows(out + groups, rows) == out + with_rows(groups, rows),
    decreases rows.len(),
{
    if rows.len() > 0 {
        let row = rows.last();
        assert forall|i: int| 0 <= i < rows.len() - 1 implies !out.contains(
            #[trigger] rows.drop_last()[i],
        ) by {
            assert(rows.drop_last()[i] == rows[i]);
        }
        law_emitted_apart(out, groups, rows.drop_last());
        let before = with_rows(groups, rows.drop_last());
        assert(!out.contains(rows[rows.len() - 1]));
        if before.contains(row) {
            let k = before.index_of(row);
            assert((out + before)[out.len() + k] == row);
        }
        if (out + before).contains(row) {
            let k = (out + before).index_of(row);
            assert(k >= out.len()) by {
                if k < out.len() {
                    assert(out[k] == row);
                }
            }
            assert(before[k - out.len()] == row);
        }
        assert(out + before.push(row) =~= (out + before).push(row));
    }
}

/// Emitting everything shows all groups and leaves them in place.
pub proof fn law_emit_all(groups: Seq<Row>)
    ensures
        emitted(groups, EmitTo::All) == groups,
        remaining(groups, EmitTo::All) == groups,
{
    assert(emitted(groups, EmitTo::All) =~= groups);
}

/// A call of a store of group keys that succeeds.
pub enum StoreCall {
    /// The rows are interned.
    Intern(Seq<Row>),
    /// Groups are emitted.
    Emit(EmitTo),
}

/// The groups of a store after a call.
pub open spec fn after_call(groups: Seq<Row>, call: StoreCall) -> Seq<Row> {
    match call {
        StoreCall::Intern(rows) => with_rows(groups, rows),
        StoreCall::Emit(emit_to) => remaining(groups, emit_to),
    }
}

/// Whether the groups follow from the calls, one after the other, and the indices are those that
/// the calls that intern rows give back.
pub open spec fn follows(
    states: Seq<Seq<Row>>,
    calls: Seq<StoreCall>,
    given: Seq<Seq<usize>>,
) -> bool {
    &&& states.len() == calls.len() + 1
    &&& given.len() == calls.len()
    &&& forall|i: int|
        0 <= i < calls.len() ==> states[i + 1] == after_call(states[i], #[trigger] calls[i])
    &&& forall|i: int|
        0 <= i < calls.len() ==> (#[trigger] calls[i] matches StoreCall::Intern(rows) ==> given[i]
            == indices(states[i + 1], rows))
}

/// Two stores that start with the same groups and get the same calls have the same groups all
/// along, and give the same indices to the same rows.
pub proof fn law_same_calls_same_indices(
    states: Seq<Seq<Row>>,
    given: Seq<Seq<usize>>,
    other_states: Seq<Seq<Row>>,
    other_given: Seq<Seq<usize>>,
    calls: Seq<StoreCall>,
    i: int,
)
    requires
        follows(states, calls, given),
        follows(other_states, calls, other_given),
        states[0] == other_states[0],
        0 <= i <= calls.len(),
    ensures
        states[i] == other_states[i],
        i < calls.len() && calls[i] is Intern ==> given[i] == other_given[i],
    decreases i,
{
    if i > 0 {
        law_same_calls_same_indices(states, given, other_states, other_given, calls, i - 1);
        assert(states[i] == after_call(states[i - 1], calls[i - 1]));
        assert(other_states[i] == after_call(other_states[i - 1], calls[i - 1]));
    }
    if i < calls.len() {
        assert(states[i + 1] == after_call(states[i], calls[i]));
        assert(other_states[i + 1] == after_call(other_states[i], calls[i]));
    }
}

/// The number of rows that were no group before them.
pub open spec fn new_count(groups: Seq<Row>, rows: Seq<Row>) -> nat
    decreases rows.len(),
{
    if rows.len() == 0 {
        0
    } else {
        let earlier = rows.drop_last();
        new_count(groups, earlier) + if groups.contains(rows.last()) || earlier.contains(
            rows.last(),
        ) {
            0nat
        } else {
            1
        }
    }
}

/// The number of groups changes by a call as follows: each row that is neither a group nor equal
/// to an earlier row adds one, and emitting the first `n` takes off `n`, or all there are.
pub proof fn law_len_after_call(groups: Seq<Row>, call: StoreCall)
    requires
        groups.no_duplicates(),
    ensures
        after_call(groups, call).no_duplicates(),
        after_call(groups, call).len() == match call {
            StoreCall::Intern(rows) => (groups.len() + new_count(groups, rows)) as int,
            StoreCall::Emit(EmitTo::All) => groups.len() as int,
            StoreCall::Emit(EmitTo::First(n)) => groups.len() - emit_count(
                groups,
                EmitTo::First(n),
            ),
        },
{
    match call {
        StoreCall::Intern(rows) => {
            lemma_with_rows(groups, rows);
            lemma_new_count(groups, rows);
        },
        StoreCall::Emit(_) => {},
    }
}

/// Adding rows adds as many groups as there are new ones among them.
proof fn lemma_new_count(groups: Seq<Row>, rows: Seq<Row>)
    requires
        groups.no_duplicates(),
    ensures
        with_rows(groups, rows).len() == groups.len() + new_count(groups, rows),
    decreases rows.len(),
{
    if rows.len() > 0 {
        lemma_new_count(groups, rows.drop_last());
        law_no_other_groups(groups, rows.drop_last(), rows.last());
    }
}

/// The number of groups after some calls, by what each of them adds and takes off.
pub open spec fn len_after(groups: Seq<Row>, calls: Seq<StoreCall>) -> int
    decreases calls.len(),
{
    if calls.len() == 0 {
        groups.len() as int
    } else {
        let before = after_calls(groups, calls.drop_last());
        let len = len_after(groups, calls.drop_last());
        match calls.last() {
            StoreCall::Intern(rows) => len + new_count(before, rows),
            StoreCall::Emit(EmitTo::All) => len,
            StoreCall::Emit(EmitTo::First(n)) => if n <= len {
                len - n
            } else {
                0
            },
        }
    }
}

/// The groups after some calls.
pub open spec fn after_calls(groups: Seq<Row>, calls: Seq<StoreCall>) -> Seq<Row>
    decreases calls.len(),
{
    if calls.len() == 0 {
        groups
    } else {
        after_call(after_calls(groups, calls.drop_last()), calls.last())
    }
}

/// The number of groups after any calls is what each call added and took off, and the groups stay
/// distinct.
pub proof fn law_len_after_calls(groups: Seq<Row>, calls: Seq<StoreCall>)
    requires
        groups.no_duplicates(),
    ensures
        after_calls(groups, calls).no_duplicates(),
        after_calls(groups, calls).len() == len_after(groups, calls),
    decreases calls.len(),
{
    if calls.len() > 0 {
        law_len_after_calls(groups, calls.drop_last());
        law_len_after_call(after_calls(groups, calls.drop_last()), calls.last());
    }
}

} // verus!
