//! How output is handed out: in batches of a bounded number of rows.

use crate::columns::Row;
use vstd::prelude::*;

verus! {

/// The number of rows that go out next: all that there are, but no more than the maximum.
pub open spec fn chunk_len(rows: Seq<Row>, max_rows: usize) -> int {
    if rows.len() <= max_rows {
        rows.len() as int
    } else {
        max_rows as int
    }
}

/// The rows that go out next.
pub open spec fn chunk(rows: Seq<Row>, max_rows: usize) -> Seq<Row> {
    rows.take(chunk_len(rows, max_rows))
}

/// The rows that are left then.
pub open spec fn rest(rows: Seq<Row>, max_rows: usize) -> Seq<Row> {
    rows.skip(chunk_len(rows, max_rows))
}

/// All that goes out of the rows, one batch after the other, where a batch may have rows.
pub open spec fn chunks(rows: Seq<Row>, max_rows: usize) -> Seq<Seq<Row>>
    decreases rows.len(),
{
    if max_rows == 0 || rows.len() <= max_rows {
        seq![rows]
    } else {
        seq![chunk(rows, max_rows)] + chunks(rest(rows, max_rows), max_rows)
    }
}

/// What goes out is the rows, each of them once and in order.
pub proof fn law_chunks_are_the_rows(rows: Seq<Row>, max_rows: usize)
    requires
        max_rows > 0,
    ensures
        chunks(rows, max_rows).flatten() == rows,
    decreases rows.len(),
{
    let all = chunks(rows, max_rows);
    if rows.len() <= max_rows {
        assert(all.drop_first() =~= Seq::<Seq<Row>>::empty());
        assert(all.drop_first().flatten() =~= Seq::<Row>::empty());
        assert(all.flatten() =~= rows);
    } else {
        law_chunks_are_the_rows(rest(rows, max_rows), max_rows);
        assert(all.first() == chunk(rows, max_rows));
        assert(all.drop_first() =~= chunks(rest(rows, max_rows), max_rows));
        assert(chunk(rows, max_rows) + rest(rows, max_rows) =~= rows);
    }
}

/// Every batch but the last is full, and the last one is not empty unless there are no rows.
pub proof fn law_chunk_sizes(rows: Seq<Row>, max_rows: usize)
    requires
        max_rows > 0,
    ensures
        chunks(rows, max_rows).len() > 0,
        forall|i: int|
            0 <= i < chunks(rows, max_rows).len() - 1 ==> (#[trigger] chunks(
                rows,
                max_rows,
            )[i]).len() == max_rows,
        chunks(rows, max_rows).last().len() <= max_rows,
        rows.len() > 0 ==> chunks(rows, max_rows).last().len() > 0,
        rows.len() == 0 ==> chunks(rows, max_rows) == seq![Seq::<Row>::empty()],
    decreases rows.len(),
{
    let all = chunks(rows, max_rows);
    if rows.len() > max_rows {
        let left = chunks(rest(rows, max_rows), max_rows);
        law_chunk_sizes(rest(rows, max_rows), max_rows);
        assert(all.last() == left.last());
        assert forall|i: int| 0 <= i < all.len() - 1 implies (#[trigger] all[i]).len()
            == max_rows by {
            if i > 0 {
                assert(all[i] == left[i - 1]);
            }
        }
    } else if rows.len() == 0 {
        assert(rows =~= Seq::<Row>::empty());
    }
}

/// The number of batches that the rows go out in: one at the least, and otherwise as few as the
/// maximum allows.
pub proof fn law_chunk_count(rows: Seq<Row>, max_rows: usize)
    requires
        max_rows > 0,
    ensures
        chunks(rows, max_rows).len() == if rows.len() == 0 {
            1
        } else {
            (rows.len() + max_rows - 1) / max_rows as int
        },
    decreases rows.len(),
{
    let m = max_rows as int;
    let n = rows.len() as int;
    if n > m {
        law_chunk_count(rest(rows, max_rows), max_rows);
        assert((n + m - 1) / m == 1 + (n - m + m - 1) / m) by (nonlinear_arith)
            requires
                n > m,
                m > 0,
        ;
    } else if n > 0 {
        assert((n + m - 1) / m == 1) by (nonlinear_arith)
            requires
                0 < n <= m,
        ;
    }
}

} // verus!
