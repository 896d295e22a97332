use crate::node::Node;
use nalgebra::DMatrix;
use vstd::prelude::*;

verus! {

/// The table of search records, one for each cell of the grid, held in a
/// `nalgebra::DMatrix`. Nothing of the matrix is verified: what is known of a
/// table is what the functions of this file state of it.
#[verifier::external_body]
#[derive(Debug)]
pub struct NodeMatrix {
    inner: DMatrix<Node>,
}

/// The records that the table holds, in the order in which the matrix stores
/// them: column after column, each column from its first row on.
pub uninterp spec fn matrix_cells(m: NodeMatrix) -> Seq<Node>;

/// The shape that the table was made with: rows first, then columns.
pub uninterp spec fn matrix_shape(m: NodeMatrix) -> (nat, nat);

/// `nalgebra::DMatrix::from_vec`: a matrix of `nrows` rows and `ncols` columns
/// that holds the elements of `data` in their order, which it takes as column
/// after column. The call panics unless `data` has one element for each cell,
/// so other lengths are left out.
#[verifier::external_body]
pub(crate) fn matrix_from_vec(nrows: usize, ncols: usize, data: Vec<Node>) -> (m: NodeMatrix)
    requires
        nrows * ncols == data@.len(),
    ensures
        matrix_cells(m) == data@,
        matrix_shape(m) == (nrows as nat, ncols as nat),
{
    NodeMatrix { inner: DMatrix::from_vec(nrows, ncols, data) }
}

/// `nalgebra::Matrix::get` with a pair of indices: the element in row `row`
/// and column `col`, which the storage keeps at place `row + col * rows`;
/// nothing where the row or the column lies outside the matrix.
#[verifier::external_body]
pub(crate) fn matrix_get(m: &NodeMatrix, row: usize, col: usize) -> (cell: Option<&Node>)
    ensures
        match cell {
            Some(node) => row < matrix_shape(*m).0 && col < matrix_shape(*m).1 && *node
                == matrix_cells(*m)[row + col * matrix_shape(*m).0],
            None => !(row < matrix_shape(*m).0 && col < matrix_shape(*m).1),
        },
{
    m.inner.get((row, col))
}

/// `nalgebra::Matrix::get_mut` with a pair of indices: the same element as
/// `get` gives, to be written to. What is written takes its place; every other
/// element and the shape stay as they are.
#[verifier::external_body]
pub(crate) fn matrix_get_mut(m: &mut NodeMatrix, row: usize, col: usize) -> (cell: Option<
    &mut Node,
>)
    ensures
        matrix_shape(*final(m)) == matrix_shape(*old(m)),
        match cell {
            Some(node) => row < matrix_shape(*old(m)).0 && col < matrix_shape(*old(m)).1 && *node
                == matrix_cells(*old(m))[row + col * matrix_shape(*old(m)).0] && matrix_cells(
                *final(m),
            ) == matrix_cells(*old(m)).update(
                row + col * matrix_shape(*old(m)).0,
                *final(node),
            ),
            None => !(row < matrix_shape(*old(m)).0 && col < matrix_shape(*old(m)).1)
                && matrix_cells(*final(m)) == matrix_cells(*old(m)),
        },
{
    m.inner.get_mut((row, col))
}

} // verus!
