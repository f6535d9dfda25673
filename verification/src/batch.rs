//! A strided view over a flat, row-major buffer that holds one fixed-width
//! row per batch entry.
use vstd::prelude::*;

verus! {

/// Row `row` of a flat buffer whose rows are `width` entries wide.
pub open spec fn row_of<T>(data: Seq<T>, width: int, row: int) -> Seq<T> {
    data.subrange(row * width, row * width + width)
}

/// Rows `0 .. rows` of `width` entries each fill a buffer of `rows * width`
/// entries: row `row` starts and ends inside it.
pub proof fn lemma_row_bounds(rows: int, width: int, row: int)
    requires
        0 <= row < rows,
        0 <= width,
    ensures
        0 <= row * width,
        row * width + width <= rows * width,
{
    assert(0 <= row * width) by (nonlinear_arith)
        requires
            0 <= row,
            0 <= width,
    ;
    assert(row * width + width <= rows * width) by (nonlinear_arith)
        requires
            row + 1 <= rows,
            0 <= width,
    ;
}

/// A read-only window over `rows` rows of `width` entries that lie one after
/// the other in `data`. The shape is checked once, when the view is made.
pub struct BatchView<'a, T> {
    pub batch_offset: usize,
    pub batch_size: usize,
    pub data: &'a [T],
}

impl<'a, T> BatchView<'a, T> {
    /// The view holds exactly `batch_size` rows of `batch_offset` entries.
    pub open spec fn wf(&self) -> bool {
        self.data@.len() == self.batch_size * self.batch_offset
    }

    /// Row `index` of the view.
    pub open spec fn row(&self, index: int) -> Seq<T> {
        row_of(self.data@, self.batch_offset as int, index)
    }

    /// Views `data` as `batch_size` rows of `batch_offset` entries each.
    pub fn new(data: &'a [T], batch_offset: usize, batch_size: usize) -> (view: Self)
        requires
            data@.len() == batch_size * batch_offset,
        ensures
            view.wf(),
            view.data@ == data@,
            view.batch_offset == batch_offset,
            view.batch_size == batch_size,
    {
        BatchView { batch_offset, batch_size, data }
    }

    /// Row `index` as a slice.
    pub fn batch(&self, index: usize) -> (row: &'a [T])
        requires
            self.wf(),
            index < self.batch_size,
        ensures
            row@ == self.row(index as int),
            row@.len() == self.batch_offset,
    {
        let row = self.prefix(index, self.batch_offset);
        proof {
            lemma_row_bounds(self.batch_size as int, self.batch_offset as int, index as int);
        }
        assert(row@ =~= self.row(index as int));
        row
    }

    /// The first `len` entries of row `index` as a slice.
    pub fn prefix(&self, index: usize, len: usize) -> (head: &'a [T])
        requires
            self.wf(),
            index < self.batch_size,
            len <= self.batch_offset,
        ensures
            head@ == self.row(index as int).take(len as int),
            head@.len() == len,
    {
        let total: usize = self.data.len();
        proof {
            lemma_row_bounds(self.batch_size as int, self.batch_offset as int, index as int);
        }
        let start: usize = index * self.batch_offset;
        let head = &self.data[start..start + len];
        assert(head@ =~= self.row(index as int).take(len as int));
        head
    }
}

/// Positions read from a buffer of signed integers.
pub open spec fn positions(values: Seq<i32>) -> Seq<usize> {
    Seq::new(values.len(), |i: int| values[i] as usize)
}

/// Whether every entry of `values` is a position: none is negative.
pub open spec fn non_negative(values: Seq<i32>) -> bool {
    forall|i: int| 0 <= i < values.len() ==> 0 <= #[trigger] values[i]
}

/// Positions read from a row of a buffer are the entries of the row, and as
/// many.
pub proof fn lemma_positions_of_row(values: Seq<i32>, rows: int, width: int, row: int, w: int)
    requires
        values.len() == rows * width,
        non_negative(values),
        0 <= row < rows,
        0 <= w < width,
    ensures
        positions(row_of(values, width, row)).len() == width,
        0 <= row * width + w < values.len(),
        positions(row_of(values, width, row))[w] == values[row * width + w],
        positions(row_of(values, width, row))[w] <= i32::MAX,
{
    lemma_row_bounds(rows, width, row);
}

/// Reads the positions of one row out of a buffer of signed integers.
pub fn to_positions(values: &[i32]) -> (out: Vec<usize>)
    requires
        forall|i: int| 0 <= i < values@.len() ==> 0 <= #[trigger] values@[i],
    ensures
        out@ == positions(values@),
{
    let mut out: Vec<usize> = Vec::with_capacity(values.len());
    let mut i: usize = 0;
    while i < values.len()
        invariant
            i <= values.len(),
            out.len() == i,
            forall|j: int| 0 <= j < values@.len() ==> 0 <= #[trigger] values@[j],
            forall|j: int| 0 <= j < i ==> out[j] == values@[j] as usize,
        decreases values.len() - i,
    {
        out.push(values[i] as usize);
        i += 1;
    }
    assert(out@ =~= positions(values@));
    out
}

/// Overwrites the whole of `out` with `values`.
pub fn copy_into<T: Copy>(out: &mut [T], values: &Vec<T>)
    requires
        old(out)@.len() == values@.len(),
    ensures
        final(out)@ == values@,
{
    let mut k: usize = 0;
    while k < values.len()
        invariant
            k <= values.len(),
            out@.len() == values@.len(),
            forall|j: int| 0 <= j < k ==> out@[j] == values@[j],
        decreases values.len() - k,
    {
        out[k] = values[k];
        k += 1;
    }
    assert(out@ =~= values@);
}

} // verus!
