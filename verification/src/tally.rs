//! Counting the cells of a table that hold a given value.

use vstd::prelude::*;

verus! {

/// Number of cells of a row that hold `want`.
pub open spec fn count_in_row<T>(row: Seq<T>, want: T) -> nat
    decreases row.len(),
{
    if row.len() == 0 {
        0
    } else {
        count_in_row(row.drop_last(), want) + if row.last() == want {
            1nat
        } else {
            0nat
        }
    }
}

/// Number of cells in a sequence of rows that hold `want`.
pub open spec fn count_in_rows<T>(rows: Seq<Seq<T>>, want: T) -> nat
    decreases rows.len(),
{
    if rows.len() == 0 {
        0
    } else {
        count_in_rows(rows.drop_last(), want) + count_in_row(rows.last(), want)
    }
}

/// A row holds a value at most as often as it has cells, and not at all if no
/// cell holds it.
pub proof fn lemma_count_row_bound<T>(row: Seq<T>, want: T)
    ensures
        count_in_row(row, want) <= row.len(),
        (forall|c: int| 0 <= c < row.len() ==> row[c] != want) ==> count_in_row(row, want) == 0,
        (forall|c: int| 0 <= c < row.len() ==> row[c] == want) ==> count_in_row(row, want)
            == row.len(),
    decreases row.len(),
{
    if row.len() > 0 {
        lemma_count_row_bound(row.drop_last(), want);
    }
}

/// Rows of `width` cells each hold a value at most as often as they have cells
/// between them.
pub proof fn lemma_count_rows_bound<T>(rows: Seq<Seq<T>>, want: T, width: nat)
    requires
        forall|r: int| 0 <= r < rows.len() ==> (#[trigger] rows[r]).len() == width,
    ensures
        count_in_rows(rows, want) <= rows.len() * width,
    decreases rows.len(),
{
    if rows.len() > 0 {
        lemma_count_rows_bound(rows.drop_last(), want, width);
        lemma_count_row_bound(rows.last(), want);
        assert(rows.len() * width == (rows.len() - 1) * width + width) by (nonlinear_arith);
    } else {
        assert(rows.len() * width == 0) by (nonlinear_arith)
            requires
                rows.len() == 0,
        ;
    }
}

/// The first cells of a row hold a value at most as often as the whole row.
pub proof fn lemma_count_row_prefix<T>(row: Seq<T>, want: T, n: int)
    requires
        0 <= n <= row.len(),
    ensures
        count_in_row(row.take(n), want) <= count_in_row(row, want),
    decreases row.len(),
{
    if n < row.len() {
        assert(row.drop_last().take(n) =~= row.take(n));
        lemma_count_row_prefix(row.drop_last(), want, n);
    } else {
        assert(row.take(n) =~= row);
    }
}

/// The first rows hold a value at most as often as all the rows.
pub proof fn lemma_count_rows_prefix<T>(rows: Seq<Seq<T>>, want: T, n: int)
    requires
        0 <= n <= rows.len(),
    ensures
        count_in_rows(rows.take(n), want) <= count_in_rows(rows, want),
    decreases rows.len(),
{
    if n < rows.len() {
        assert(rows.drop_last().take(n) =~= rows.take(n));
        lemma_count_rows_prefix(rows.drop_last(), want, n);
    } else {
        assert(rows.take(n) =~= rows);
    }
}

/// Overwriting one cell of a row changes the count of a value by what the
/// cell held and what it holds now.
pub proof fn lemma_count_row_set<T>(row: Seq<T>, c: int, value: T, want: T)
    requires
        0 <= c < row.len(),
    ensures
        count_in_row(row.update(c, value), want) + (if row[c] == want {
            1nat
        } else {
            0nat
        }) == count_in_row(row, want) + (if value == want {
            1nat
        } else {
            0nat
        }),
    decreases row.len(),
{
    let after = row.update(c, value);
    if c == row.len() - 1 {
        assert(after.drop_last() =~= row.drop_last());
    } else {
        assert(after.drop_last() =~= row.drop_last().update(c, value));
        lemma_count_row_set(row.drop_last(), c, value, want);
    }
}

/// Replacing one row changes the count of a value by what the old row held of
/// it and what the new one holds.
pub proof fn lemma_count_rows_set<T>(rows: Seq<Seq<T>>, r: int, row: Seq<T>, want: T)
    requires
        0 <= r < rows.len(),
    ensures
        count_in_rows(rows.update(r, row), want) + count_in_row(rows[r], want) == count_in_rows(
            rows,
            want,
        ) + count_in_row(row, want),
    decreases rows.len(),
{
    let after = rows.update(r, row);
    if r == rows.len() - 1 {
        assert(after.drop_last() =~= rows.drop_last());
    } else {
        assert(after.drop_last() =~= rows.drop_last().update(r, row));
        lemma_count_rows_set(rows.drop_last(), r, row, want);
    }
}

/// Overwriting one cell of a table changes the count of a value by what the
/// cell held and what it holds now.
pub proof fn lemma_count_cell_set<T>(rows: Seq<Seq<T>>, r: int, c: int, value: T, want: T)
    requires
        0 <= r < rows.len(),
        0 <= c < rows[r].len(),
    ensures
        count_in_rows(rows.update(r, rows[r].update(c, value)), want) + (if rows[r][c] == want {
            1nat
        } else {
            0nat
        }) == count_in_rows(rows, want) + (if value == want {
            1nat
        } else {
            0nat
        }),
{
    lemma_count_row_set(rows[r], c, value, want);
    lemma_count_rows_set(rows, r, rows[r].update(c, value), want);
}

/// Two rows of equal length in which a cell of the one holds `a` exactly where
/// the cell of the other holds `b` hold them equally often.
pub proof fn lemma_count_row_same<A, B>(left: Seq<A>, a: A, right: Seq<B>, b: B)
    requires
        left.len() == right.len(),
        forall|c: int| 0 <= c < left.len() ==> (left[c] == a <==> right[c] == b),
    ensures
        count_in_row(left, a) == count_in_row(right, b),
    decreases left.len(),
{
    if left.len() > 0 {
        lemma_count_row_same(left.drop_last(), a, right.drop_last(), b);
    }
}

/// Two tables of equal shape in which a cell of the one holds `a` exactly
/// where the cell of the other holds `b` hold them equally often.
pub proof fn lemma_count_rows_same<A, B>(left: Seq<Seq<A>>, a: A, right: Seq<Seq<B>>, b: B)
    requires
        left.len() == right.len(),
        forall|r: int| 0 <= r < left.len() ==> (#[trigger] left[r]).len() == right[r].len(),
        forall|r: int, c: int|
            0 <= r < left.len() && 0 <= c < left[r].len() ==> (left[r][c] == a <==> right[r][c]
                == b),
    ensures
        count_in_rows(left, a) == count_in_rows(right, b),
    decreases left.len(),
{
    if left.len() > 0 {
        lemma_count_rows_same(left.drop_last(), a, right.drop_last(), b);
        assert(left.last().len() == right.last().len());
        lemma_count_row_same(left.last(), a, right.last(), b);
    }
}

} // verus!
