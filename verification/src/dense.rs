//! Dense integer matrices and vectors.
//!
//! Storage and element access are `nalgebra`'s. The two types below hold a
//! `nalgebra::DMatrix<i64>` and a `nalgebra::DVector<i64>`; what they contain
//! is named by uninterpreted functions, and the private functions marked
//! `external_body` say, without proof, how each `nalgebra` call relates to
//! those names. Everything public is verified against these statements.

use vstd::prelude::*;

verus! {

/// A heap-allocated matrix of 64-bit integers with a dynamic shape.
#[verifier::external_body]
pub struct DMatrix {
    inner: nalgebra::DMatrix<i64>,
}

/// A heap-allocated column vector of 64-bit integers with a dynamic length.
#[verifier::external_body]
pub struct DVector {
    inner: nalgebra::DVector<i64>,
}

/// The shape of a matrix: the pair (number of rows, number of columns).
pub uninterp spec fn matrix_shape(m: DMatrix) -> (nat, nat);

/// The entries of a matrix, keyed by (row, column).
pub uninterp spec fn matrix_entries(m: DMatrix) -> Map<(int, int), i64>;

/// The entries of a vector, in order.
pub uninterp spec fn vector_entries(v: DVector) -> Seq<i64>;

/// `nalgebra::DMatrix::zeros`: a matrix of the given shape whose entries are
/// all zero. The call multiplies the two dimensions to size its buffer, so
/// the product, in bytes, has to stay within what one allocation can hold.
#[verifier::external_body]
fn matrix_zeros(nrows: usize, ncols: usize) -> (m: DMatrix)
    requires
        nrows * ncols * 8 <= isize::MAX,
    ensures
        matrix_shape(m) == (nrows as nat, ncols as nat),
        forall|i: int, j: int|
            0 <= i < nrows && 0 <= j < ncols ==> #[trigger] matrix_entries(m)[(i, j)] == 0,
{
    DMatrix { inner: nalgebra::DMatrix::zeros(nrows, ncols) }
}

/// `nalgebra::DMatrix::from_vec`: a matrix of the given shape filled column
/// by column from `data`. The call panics unless `data` holds exactly
/// `nrows * ncols` elements.
#[verifier::external_body]
fn matrix_from_vec(nrows: usize, ncols: usize, data: Vec<i64>) -> (m: DMatrix)
    requires
        data@.len() == nrows * ncols,
    ensures
        matrix_shape(m) == (nrows as nat, ncols as nat),
        forall|i: int, j: int|
            0 <= i < nrows && 0 <= j < ncols ==> #[trigger] matrix_entries(m)[(i, j)] == data@[j
                * nrows + i],
{
    DMatrix { inner: nalgebra::DMatrix::from_vec(nrows, ncols, data) }
}

/// `nalgebra::Matrix::shape`: the number of rows and of columns.
#[verifier::external_body]
fn matrix_shape_of(m: &DMatrix) -> (shape: (usize, usize))
    ensures
        shape.0 == matrix_shape(*m).0,
        shape.1 == matrix_shape(*m).1,
{
    m.inner.shape()
}

/// Indexing a `nalgebra` matrix by `(row, column)`: the entry at that place.
/// The call panics when the place lies outside the shape.
#[verifier::external_body]
fn matrix_get(m: &DMatrix, i: usize, j: usize) -> (value: i64)
    requires
        i < matrix_shape(*m).0,
        j < matrix_shape(*m).1,
    ensures
        value == matrix_entries(*m)[(i as int, j as int)],
{
    m.inner[(i, j)]
}

/// Assigning through the `(row, column)` index of a `nalgebra` matrix: that
/// entry becomes `value`, the shape and every other entry stay. The call
/// panics when the place lies outside the shape.
#[verifier::external_body]
fn matrix_set(m: &mut DMatrix, i: usize, j: usize, value: i64)
    requires
        i < matrix_shape(*old(m)).0,
        j < matrix_shape(*old(m)).1,
    ensures
        matrix_shape(*final(m)) == matrix_shape(*old(m)),
        matrix_entries(*final(m)) == matrix_entries(*old(m)).insert((i as int, j as int), value),
{
    m.inner[(i, j)] = value;
}

/// `nalgebra::DVector::zeros`: a vector of `len` zeros. The buffer, in
/// bytes, has to stay within what one allocation can hold.
#[verifier::external_body]
fn vector_zeros(len: usize) -> (v: DVector)
    requires
        len * 8 <= isize::MAX,
    ensures
        vector_entries(v).len() == len,
        forall|i: int| 0 <= i < len ==> #[trigger] vector_entries(v)[i] == 0,
{
    DVector { inner: nalgebra::DVector::zeros(len) }
}

/// `nalgebra::DVector::from_vec`: the vector that holds the elements of
/// `data`, in order.
#[verifier::external_body]
fn vector_from_vec(data: Vec<i64>) -> (v: DVector)
    ensures
        vector_entries(v) == data@,
{
    DVector { inner: nalgebra::DVector::from_vec(data) }
}

/// `nalgebra::Matrix::nrows` on a column vector: its length. The elements
/// lie in one `Vec<i64>`, whose size in bytes std keeps within `isize::MAX`.
#[verifier::external_body]
fn vector_nrows(v: &DVector) -> (len: usize)
    ensures
        len == vector_entries(*v).len(),
        len * 8 <= isize::MAX,
{
    v.inner.nrows()
}

/// Indexing a `nalgebra` column vector by position: the element there. The
/// call panics when the position is not below the length.
#[verifier::external_body]
fn vector_get(v: &DVector, i: usize) -> (value: i64)
    requires
        i < vector_entries(*v).len(),
    ensures
        value == vector_entries(*v)[i as int],
{
    v.inner[i]
}

/// Assigning through the index of a `nalgebra` column vector: that element
/// becomes `value`, the others and the length stay. The call panics when
/// the position is not below the length.
#[verifier::external_body]
fn vector_set(v: &mut DVector, i: usize, value: i64)
    requires
        i < vector_entries(*old(v)).len(),
    ensures
        vector_entries(*final(v)) == vector_entries(*old(v)).update(i as int, value),
{
    v.inner[i] = value;
}

impl View for DMatrix {
    type V = Seq<Seq<i64>>;

    /// The rows of the matrix, each a sequence of `ncols` entries.
    open spec fn view(&self) -> Seq<Seq<i64>> {
        Seq::new(
            matrix_shape(*self).0,
            |i: int| Seq::new(matrix_shape(*self).1, |j: int| matrix_entries(*self)[(i, j)]),
        )
    }
}

impl View for DVector {
    type V = Seq<i64>;

    /// The entries of the vector, in order.
    open spec fn view(&self) -> Seq<i64> {
        vector_entries(*self)
    }
}

impl DMatrix {
    /// The number of rows.
    pub open spec fn spec_nrows(&self) -> nat {
        matrix_shape(*self).0
    }

    /// The number of columns.
    pub open spec fn spec_ncols(&self) -> nat {
        matrix_shape(*self).1
    }

    /// Whether the matrix has as many rows as columns.
    pub open spec fn spec_is_square(&self) -> bool {
        self.spec_nrows() == self.spec_ncols()
    }

    /// The entry in row `i` and column `j`.
    pub open spec fn at(&self, i: int, j: int) -> i64 {
        matrix_entries(*self)[(i, j)]
    }

    /// The view lists exactly the entries inside the shape.
    pub proof fn lemma_view(&self)
        ensures
            self@.len() == self.spec_nrows(),
            forall|i: int|
                0 <= i < self.spec_nrows() ==> (#[trigger] self@[i]).len() == self.spec_ncols(),
            forall|i: int, j: int|
                0 <= i < self.spec_nrows() && 0 <= j < self.spec_ncols() ==> #[trigger] self@[i][j]
                    == self.at(i, j),
    {
    }

    /// A matrix with `nrows` rows and `ncols` columns, all entries zero.
    pub fn zeros(nrows: usize, ncols: usize) -> (m: DMatrix)
        requires
            nrows * ncols * 8 <= isize::MAX,
        ensures
            m.spec_nrows() == nrows,
            m.spec_ncols() == ncols,
            forall|i: int, j: int| 0 <= i < nrows && 0 <= j < ncols ==> m.at(i, j) == 0,
    {
        matrix_zeros(nrows, ncols)
    }

    /// The matrix with the given shape whose columns, one after the other,
    /// are the elements of `data`; `None` when `data` does not hold exactly
    /// `nrows * ncols` elements.
    pub fn from_vec(nrows: usize, ncols: usize, data: Vec<i64>) -> (m: Option<DMatrix>)
        ensures
            m is Some <==> data@.len() == nrows * ncols,
            m matches Some(m) ==> {
                &&& m.spec_nrows() == nrows
                &&& m.spec_ncols() == ncols
                &&& forall|i: int, j: int|
                    0 <= i < nrows && 0 <= j < ncols ==> m.at(i, j) == data@[j * nrows + i]
            },
    {
        let len = data.len();
        match nrows.checked_mul(ncols) {
            Some(count) => {
                if len == count {
                    Some(matrix_from_vec(nrows, ncols, data))
                } else {
                    None
                }
            },
            None => None,
        }
    }

    /// The number of rows.
    pub fn nrows(&self) -> (n: usize)
        ensures
            n == self.spec_nrows(),
    {
        matrix_shape_of(self).0
    }

    /// The number of columns.
    pub fn ncols(&self) -> (n: usize)
        ensures
            n == self.spec_ncols(),
    {
        matrix_shape_of(self).1
    }

    /// The shape: number of rows, number of columns.
    pub fn shape(&self) -> (shape: (usize, usize))
        ensures
            shape.0 == self.spec_nrows(),
            shape.1 == self.spec_ncols(),
    {
        matrix_shape_of(self)
    }

    /// Whether the matrix has as many rows as columns.
    pub fn is_square(&self) -> (square: bool)
        ensures
            square == self.spec_is_square(),
    {
        let shape = matrix_shape_of(self);
        shape.0 == shape.1
    }

    /// The entry in row `i` and column `j`.
    pub fn get(&self, i: usize, j: usize) -> (value: i64)
        requires
            i < self.spec_nrows(),
            j < self.spec_ncols(),
        ensures
            value == self.at(i as int, j as int),
    {
        matrix_get(self, i, j)
    }

    /// The entry in row `i` and column `j`, or `None` outside the shape.
    pub fn try_get(&self, i: usize, j: usize) -> (value: Option<i64>)
        ensures
            value == if i < self.spec_nrows() && j < self.spec_ncols() {
                Some(self.at(i as int, j as int))
            } else {
                None
            },
    {
        let shape = matrix_shape_of(self);
        if i < shape.0 && j < shape.1 {
            Some(matrix_get(self, i, j))
        } else {
            None
        }
    }

    /// Overwrites the entry in row `i` and column `j`.
    pub fn set(&mut self, i: usize, j: usize, value: i64)
        requires
            i < old(self).spec_nrows(),
            j < old(self).spec_ncols(),
        ensures
            final(self).spec_nrows() == old(self).spec_nrows(),
            final(self).spec_ncols() == old(self).spec_ncols(),
            forall|a: int, b: int|
                final(self).at(a, b) == if a == i && b == j {
                    value
                } else {
                    old(self).at(a, b)
                },
    {
        matrix_set(self, i, j, value);
    }
}

impl DVector {
    /// A vector of `len` zeros.
    pub fn zeros(len: usize) -> (v: DVector)
        requires
            len * 8 <= isize::MAX,
        ensures
            v@.len() == len,
            forall|i: int| 0 <= i < len ==> v@[i] == 0,
    {
        vector_zeros(len)
    }

    /// The vector that holds the elements of `data`, in order.
    pub fn from_vec(data: Vec<i64>) -> (v: DVector)
        ensures
            v@ == data@,
    {
        vector_from_vec(data)
    }

    /// The number of elements.
    pub fn nrows(&self) -> (len: usize)
        ensures
            len == self@.len(),
            len * 8 <= isize::MAX,
    {
        vector_nrows(self)
    }

    /// The element at position `i`.
    pub fn get(&self, i: usize) -> (value: i64)
        requires
            i < self@.len(),
        ensures
            value == self@[i as int],
    {
        vector_get(self, i)
    }

    /// Overwrites the element at position `i`.
    pub fn set(&mut self, i: usize, value: i64)
        requires
            i < old(self)@.len(),
        ensures
            final(self)@ == old(self)@.update(i as int, value),
    {
        vector_set(self, i, value);
    }

    /// The elements, in order, as a `Vec`.
    pub fn to_vec(&self) -> (data: Vec<i64>)
        ensures
            data@ == self@,
    {
        let len = vector_nrows(self);
        let mut data: Vec<i64> = Vec::new();
        let mut i: usize = 0;
        while i < len
            invariant
                i <= len,
                len == self@.len(),
                data@ == self@.take(i as int),
            decreases len - i,
        {
            data.push(vector_get(self, i));
            assert(self@.take(i + 1) == self@.take(i as int).push(self@[i as int]));
            i += 1;
        }
        assert(self@.take(len as int) == self@);
        data
    }
}

} // verus!
