//! Choosing the feature vector of an entity from the cells of its row.
use vstd::prelude::*;

verus! {

/// The value of column `c` of `row`, if the row has that column and its cell
/// holds a value.
pub open spec fn cell_at<T>(row: Seq<Option<T>>, c: usize) -> Option<T> {
    if c < row.len() {
        row[c as int]
    } else {
        None
    }
}

/// The values of the requested columns, in the order of `columns`; columns
/// that are missing or hold no value are left out, not filled in.
pub open spec fn selected_values<T>(row: Seq<Option<T>>, columns: Seq<usize>) -> Seq<T> {
    columns.filter_map(|c: usize| cell_at(row, c))
}

/// Builds the feature vector of one row: the values of `columns`, in that
/// order, skipping each column whose cell is missing or could not be read as a
/// value. Rows can therefore end up with vectors of different lengths.
pub fn select_features<T: Copy>(row: &Vec<Option<T>>, columns: &Vec<usize>) -> (r: Vec<T>)
    ensures
        r@ == selected_values(row@, columns@),
{
    let ghost f = |c: usize| cell_at(row@, c);
    let mut r: Vec<T> = Vec::new();
    let mut k: usize = 0;
    while k < columns.len()
        invariant
            0 <= k <= columns@.len(),
            f == (|c: usize| cell_at(row@, c)),
            r@ == columns@.take(k as int).filter_map(f),
        decreases columns@.len() - k,
    {
        proof {
            columns@.lemma_filter_map_take_succ(f, k as int);
        }
        let c = columns[k];
        if c < row.len() {
            match row[c] {
                Some(v) => r.push(v),
                None => {},
            }
        }
        k = k + 1;
    }
    assert(columns@.take(k as int) == columns@);
    r
}

/// Why a feature table cannot be built.
#[derive(Clone, Copy, Debug, PartialEq, Eq, Structural)]
pub enum TableError {
    /// There are no data rows, or no feature columns were requested.
    EmptyInput,
}

/// Builds the feature vector of every row, in row order, with
/// `select_features`. Fails with `EmptyInput` exactly when there is no row or
/// no column to select.
pub fn select_table<T: Copy>(rows: &Vec<Vec<Option<T>>>, columns: &Vec<usize>) -> (r: Result<
    Vec<Vec<T>>,
    TableError,
>)
    ensures
        r is Err <==> rows@.len() == 0 || columns@.len() == 0,
        r matches Err(e) ==> e == TableError::EmptyInput,
        r matches Ok(t) ==> {
            &&& t@.len() == rows@.len()
            &&& forall|i: int| 0 <= i < rows@.len() ==> #[trigger] t@[i]@ == selected_values(rows@[i]@, columns@)
        },
{
    if rows.len() == 0 || columns.len() == 0 {
        return Err(TableError::EmptyInput);
    }
    let mut table: Vec<Vec<T>> = Vec::new();
    let mut i: usize = 0;
    while i < rows.len()
        invariant
            0 <= i <= rows@.len(),
            table@.len() == i,
            forall|t: int| 0 <= t < i ==> #[trigger] table@[t]@ == selected_values(rows@[t]@, columns@),
        decreases rows@.len() - i,
    {
        let v = select_features(&rows[i], columns);
        table.push(v);
        i = i + 1;
    }
    Ok(table)
}

} // verus!
