//! Integer helpers for the statistics: transposing a table of rows.

use vstd::prelude::*;

verus! {

/// The rows of a table of vectors, each taken by its view.
pub open spec fn rows_of<T>(rows: Seq<Vec<T>>) -> Seq<Seq<T>> {
    rows.map_values(|r: Vec<T>| r@)
}

/// Column `i` of a table whose rows may differ in length: the `i`-th entry of
/// every row that has one, in the order of the rows.
pub open spec fn column<T>(rows: Seq<Seq<T>>, i: int) -> Seq<T>
    decreases rows.len(),
{
    if rows.len() == 0 {
        Seq::empty()
    } else {
        let last = rows.last();
        column(rows.drop_last(), i) + if 0 <= i < last.len() {
            seq![last[i]]
        } else {
            Seq::empty()
        }
    }
}

/// No row is longer than the first one.
pub open spec fn first_row_widest<T>(rows: Seq<Seq<T>>) -> bool {
    &&& rows.len() > 0
    &&& forall|j: int| 0 <= j < rows.len() ==> #[trigger] rows[j].len() <= rows[0].len()
}

/// The transpose of a table: `width` columns of `rows`.
pub open spec fn transposed<T>(rows: Seq<Seq<T>>, width: nat) -> Seq<Seq<T>> {
    Seq::new(width, |i: int| column(rows, i))
}

/// Every row has `width` entries.
pub open spec fn rectangular<T>(rows: Seq<Seq<T>>, width: nat) -> bool {
    forall|j: int| 0 <= j < rows.len() ==> #[trigger] rows[j].len() == width
}

/// In a rectangular table a column holds one entry of every row.
pub proof fn lemma_column_of_rectangular<T>(rows: Seq<Seq<T>>, width: nat, i: int)
    requires
        rectangular(rows, width),
        0 <= i < width,
    ensures
        column(rows, i) == Seq::new(rows.len(), |j: int| rows[j][i]),
    decreases rows.len(),
{
    if rows.len() > 0 {
        lemma_column_of_rectangular(rows.drop_last(), width, i);
        assert(column(rows, i) =~= Seq::new(rows.len(), |j: int| rows[j][i]));
    } else {
        assert(column(rows, i) =~= Seq::new(rows.len(), |j: int| rows[j][i]));
    }
}

/// Transposing a rectangular table of positive width twice gives the table back.
pub proof fn lemma_transpose_twice<T>(rows: Seq<Seq<T>>, width: nat)
    requires
        rectangular(rows, width),
        width > 0,
    ensures
        rectangular(transposed(rows, width), rows.len()),
        transposed(transposed(rows, width), rows.len()) == rows,
{
    let t = transposed(rows, width);
    assert forall|i: int| 0 <= i < width implies #[trigger] t[i] == Seq::new(
        rows.len(),
        |j: int| rows[j][i],
    ) by {
        lemma_column_of_rectangular(rows, width, i);
    }
    assert forall|j: int| 0 <= j < rows.len() implies #[trigger] transposed(t, rows.len())[j]
        == rows[j] by {
        lemma_column_of_rectangular(t, rows.len(), j);
        assert(transposed(t, rows.len())[j] =~= rows[j]);
    }
    assert(transposed(t, rows.len()) =~= rows);
}

/// Turns the rows of a table into its columns. The first row gives the number
/// of columns; a shorter row contributes to the columns it reaches.
pub fn transpose<T: Clone>(input: Vec<Vec<T>>) -> (output: Vec<Vec<T>>)
    requires
        first_row_widest(rows_of(input@)),
    ensures
        rows_of(output@) == transposed(rows_of(input@), input@[0]@.len()),
{
    let ghost rows = rows_of(input@);
    let length = input[0].len();
    let mut output: Vec<Vec<T>> = Vec::new();
    let mut k: usize = 0;
    while k < length
        invariant
            k <= length,
            output@.len() == k,
            forall|i: int| 0 <= i < k ==> (#[trigger] output@[i])@ == Seq::<T>::empty(),
        decreases length - k,
    {
        output.push(Vec::new());
        k = k + 1;
    }
    let ghost n = input@.len();
    let ghost mut j: int = 0;
    for inner in iter: input
        invariant
            j == iter.index(),
            iter.seq() == input@,
            rows == rows_of(input@),
            first_row_widest(rows),
            length == rows[0].len(),
            output@.len() == length,
            forall|i: int|
                0 <= i < length ==> (#[trigger] output@[i])@ == column(rows.take(j), i),
    {
        let ghost row = inner@;
        assert(row == rows[j]);
        let ghost before = output@;
        let mut k: usize = 0;
        for value in it: inner
            invariant
                k == it.index(),
                it.seq() == row,
                row.len() <= length,
                output@.len() == length,
                forall|i: int|
                    0 <= i < k ==> (#[trigger] output@[i])@ == before[i]@ + seq![row[i]],
                forall|i: int| k <= i < length ==> #[trigger] output@[i] == before[i],
        {
            let mut column_k: Vec<T> = Vec::new();
            output.set_and_swap(k, &mut column_k);
            column_k.push(value);
            output.set_and_swap(k, &mut column_k);
            k = k + 1;
        }
        proof {
            assert forall|i: int| 0 <= i < length implies (#[trigger] output@[i])@ == column(
                rows.take(j + 1),
                i,
            ) by {
                assert(rows.take(j + 1).drop_last() =~= rows.take(j));
            }
        }
        proof {
            j = j + 1;
        }
    }
    assert(rows.take(n as int) =~= rows);
    assert(rows_of(output@) =~= transposed(rows, length as nat));
    output
}

} // verus!
