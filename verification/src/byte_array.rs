//! A two-dimensional array of bytes.

use vstd::prelude::*;

verus! {

/// Bytes in rows and columns, held row by row.
#[derive(Clone, Debug, PartialEq, Eq)]
pub struct ByteArray2d {
    inner_array: Vec<u8>,
    row: usize,
    col: usize,
}

/// The view of a byte array: its bytes, row by row.
impl View for ByteArray2d {
    type V = Seq<u8>;

    closed spec fn view(&self) -> Seq<u8> {
        self.inner_array@
    }
}

impl ByteArray2d {
    /// The number of rows.
    pub closed spec fn rows(&self) -> nat {
        self.row as nat
    }

    /// The number of columns.
    pub closed spec fn cols(&self) -> nat {
        self.col as nat
    }

    /// The array holds as many bytes as its rows and columns ask for.
    pub open spec fn wf(&self) -> bool {
        self@.len() == self.rows() * self.cols()
    }

    /// Where the byte of a row and column stands in the view.
    pub open spec fn place(&self, row: int, col: int) -> int {
        row * self.cols() + col
    }

    /// The byte of a row and column.
    pub open spec fn at(&self, row: int, col: int) -> u8 {
        self@[self.place(row, col)]
    }

    /// An array of zeros.
    pub fn zeros(row: usize, col: usize) -> (array: Self)
        requires
            row * col <= isize::MAX,
        ensures
            array.wf(),
            array.rows() == row,
            array.cols() == col,
            forall|i: int| 0 <= i < array@.len() ==> array@[i] == 0,
    {
        ByteArray2d { inner_array: vec![0;row * col], row, col }
    }

    /// All bytes, row by row.
    pub fn as_slice(&self) -> (bytes: &[u8])
        ensures
            bytes@ == self@,
    {
        self.inner_array.as_slice()
    }

    /// Where the byte of a row and column stands in the slice.
    pub fn get_vec_index(&self, row: usize, col: usize) -> (place: usize)
        requires
            self.wf(),
            row < self.rows(),
            col < self.cols(),
        ensures
            place == self.place(row as int, col as int),
            place < self@.len(),
    {
        assert(row * self.col + col < self.row * self.col) by (nonlinear_arith)
            requires
                row < self.row,
                col < self.col,
        ;
        assert(0 <= row * self.col) by (nonlinear_arith);
        assert(self.row * self.col == self.inner_array.len());
        row * self.col + col
    }

    /// The byte of a row and column, for writing. No other byte changes.
    pub fn index_mut(&mut self, index: (usize, usize)) -> (byte: &mut u8)
        requires
            old(self).wf(),
            index.0 < old(self).rows(),
            index.1 < old(self).cols(),
        ensures
            *byte == old(self).at(index.0 as int, index.1 as int),
            final(self)@ == old(self)@.update(
                old(self).place(index.0 as int, index.1 as int),
                *final(byte),
            ),
            final(self).rows() == old(self).rows(),
            final(self).cols() == old(self).cols(),
            final(self).wf(),
    {
        let place: usize = self.get_vec_index(index.0, index.1);
        &mut self.inner_array[place]
    }
}

impl std::ops::Index<(usize, usize)> for ByteArray2d {
    type Output = u8;

    fn index(&self, index: (usize, usize)) -> (byte: &u8)
        ensures
            *byte == self.at(index.0 as int, index.1 as int),
    {
        let place: usize = self.get_vec_index(index.0, index.1);
        &self.inner_array[place]
    }
}

impl vstd::std_specs::core::IndexSpecImpl<(usize, usize)> for ByteArray2d {
    open spec fn index_req(&self, index: &(usize, usize)) -> bool {
        &&& self.wf()
        &&& index.0 < self.rows()
        &&& index.1 < self.cols()
    }
}

} // verus!
