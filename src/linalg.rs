use vstd::prelude::*;

use crate::error::NetError;
use crate::mat::{
    argmax, diagonal, difference, dot_sum, filled, gemm, grid, hadamard, identity_mat, lane,
    lemma_gemm_shapes, lemma_grid_ext, lemma_update_at, one_hot_mat, product, product_t1,
    product_t2, scaled, sum, transposed, Mat,
};
use crate::num::Num;

verus! {

/// `i·cols + j` stays below `rows·cols` for an entry inside the grid.
proof fn lemma_flat_bound(i: int, j: int, rows: int, cols: int)
    requires
        0 <= i < rows,
        0 <= j < cols,
    ensures
        0 <= i * cols + j < rows * cols,
{
    assert(0 <= i * cols) by (nonlinear_arith)
        requires
            0 <= i,
            0 <= cols,
    ;
    assert(i * cols + cols <= rows * cols) by (nonlinear_arith)
        requires
            i + 1 <= rows,
            0 <= cols,
    ;
}

/// `a·b = b·a`.
proof fn lemma_mul_commutes(a: int, b: int)
    ensures
        a * b == b * a,
{
    assert(a * b == b * a) by (nonlinear_arith);
}

/// Distinct entries of a grid have distinct row-major offsets.
proof fn lemma_flat_distinct(i: int, j: int, r: int, c: int, cols: int)
    requires
        0 <= i,
        0 <= r,
        0 <= j < cols,
        0 <= c < cols,
        i != r || j != c,
    ensures
        i * cols + j != r * cols + c,
{
    if i < r {
        assert(i * cols + j < r * cols + c) by (nonlinear_arith)
            requires
                i + 1 <= r,
                0 <= j < cols,
                0 <= c,
        ;
    } else if r < i {
        assert(r * cols + c < i * cols + j) by (nonlinear_arith)
            requires
                r + 1 <= i,
                0 <= c < cols,
                0 <= j,
        ;
    }
}

/// A dense grid of scalars: a matrix, or a column vector seen as one.
pub trait LinAlgGen<N: Num>: Sized {
    /// The representation agrees with the shape.
    spec fn wf(&self) -> bool;

    /// The grid this value holds.
    spec fn mat(&self) -> Mat<N>;

    /// Whether a value of this type can have the shape `rows` by `cols`.
    spec fn fits(rows: nat, cols: nat) -> bool;

    proof fn lemma_wf(&self)
        requires
            self.wf(),
        ensures
            self.mat().wf(),
            Self::fits(self.mat().rows, self.mat().cols),
            self.mat().rows <= usize::MAX,
            self.mat().cols <= usize::MAX,
            self.mat().rows * self.mat().cols <= usize::MAX,
    ;

    /// Whether a value of this type can have the shape `rows` by `cols`.
    fn can_hold(rows: usize, cols: usize) -> (r: bool)
        ensures
            r == Self::fits(rows as nat, cols as nat),
    ;

    /// Number of rows.
    fn row(&self) -> (r: usize)
        requires
            self.wf(),
        ensures
            r == self.mat().rows,
    ;

    /// Number of columns.
    fn col(&self) -> (r: usize)
        requires
            self.wf(),
        ensures
            r == self.mat().cols,
    ;

    /// The entry at row `r`, column `c`.
    fn at(&self, r: usize, c: usize) -> (v: N)
        requires
            self.wf(),
            r < self.mat().rows,
            c < self.mat().cols,
        ensures
            v == self.mat().at(r as int, c as int),
    ;

    /// Replaces the entry at row `r`, column `c`.
    fn set(&mut self, r: usize, c: usize, v: N)
        requires
            old(self).wf(),
            r < old(self).mat().rows,
            c < old(self).mat().cols,
        ensures
            final(self).wf(),
            final(self).mat() == old(self).mat().update(r as int, c as int, v),
    ;

    /// A grid of zeros of the given shape.
    fn from_zeros(rows: usize, cols: usize) -> (m: Self)
        requires
            Self::fits(rows as nat, cols as nat),
        ensures
            m.wf(),
            m.mat() == filled(rows as nat, cols as nat, N::zero_spec()),
    ;

    /// A copy holding the same grid.
    fn duplicate(&self) -> (m: Self)
        requires
            self.wf(),
        ensures
            m.wf(),
            m.mat() == self.mat(),
    ;
}

/// The operations of a dense grid: element-wise arithmetic, products and
/// conversions.
pub trait LinAlg<N: Num>: LinAlgGen<N> {
    /// `(rows, cols)`.
    fn shape(&self) -> (r: (usize, usize))
        requires
            self.wf(),
        ensures
            r.0 == self.mat().rows,
            r.1 == self.mat().cols,
    ;

    /// `(cols, rows)`: the shape of the transpose.
    fn shape_t(&self) -> (r: (usize, usize))
        requires
            self.wf(),
        ensures
            r.0 == self.mat().cols,
            r.1 == self.mat().rows,
    ;

    /// Sets every entry to `value`.
    fn fill_eq(&mut self, value: N)
        requires
            old(self).wf(),
        ensures
            final(self).wf(),
            final(self).mat() == filled(old(self).mat().rows, old(self).mat().cols, value),
    ;

    /// Sets every entry to zero.
    fn fill_zero(&mut self)
        requires
            old(self).wf(),
        ensures
            final(self).wf(),
            final(self).mat() == filled(old(self).mat().rows, old(self).mat().cols, N::zero_spec()),
    ;

    /// Multiplies every entry by `scalar`.
    fn scale_eq(&mut self, scalar: N)
        requires
            old(self).wf(),
        ensures
            final(self).wf(),
            final(self).mat() == scaled(old(self).mat(), scalar),
    ;

    /// A copy with every entry multiplied by `scalar`.
    fn scale(&self, scalar: N) -> (r: Self)
        requires
            self.wf(),
        ensures
            r.wf(),
            r.mat() == scaled(self.mat(), scalar),
    ;

    /// Replaces every entry `x` by `map(x)`.
    fn map_eq<F: Fn(N) -> N>(&mut self, map: F)
        requires
            old(self).wf(),
            forall|x: N| map.requires((x,)),
        ensures
            final(self).wf(),
            final(self).mat().same_shape(old(self).mat()),
            forall|i: int, j: int|
                0 <= i < old(self).mat().rows && 0 <= j < old(self).mat().cols ==> map.ensures(
                    (old(self).mat().at(i, j),),
                    #[trigger] final(self).mat().at(i, j),
                ),
    ;

    /// A copy with every entry `x` replaced by `map(x)`.
    fn map<F: Fn(N) -> N>(&self, map: F) -> (r: Self)
        requires
            self.wf(),
            forall|x: N| map.requires((x,)),
        ensures
            r.wf(),
            r.mat().same_shape(self.mat()),
            forall|i: int, j: int|
                0 <= i < self.mat().rows && 0 <= j < self.mat().cols ==> map.ensures(
                    (self.mat().at(i, j),),
                    #[trigger] r.mat().at(i, j),
                ),
    ;

    /// Replaces each entry `x` by `map(x, y)`, `y` the entry of `rhs` at the
    /// same place; the shapes must agree.
    fn zip_eq<M: LinAlgGen<N>, F: Fn(N, N) -> N>(&mut self, rhs: &M, map: F) -> (r: Result<(), NetError>)
        requires
            old(self).wf(),
            rhs.wf(),
            forall|x: N, y: N| map.requires((x, y)),
        ensures
            final(self).wf(),
            r == (if old(self).mat().same_shape(rhs.mat()) {
                Ok::<(), NetError>(())
            } else {
                Err(NetError::ShapeMismatch)
            }),
            final(self).mat().same_shape(old(self).mat()),
            r is Ok ==> forall|i: int, j: int|
                0 <= i < old(self).mat().rows && 0 <= j < old(self).mat().cols ==> map.ensures(
                    (old(self).mat().at(i, j), rhs.mat().at(i, j)),
                    #[trigger] final(self).mat().at(i, j),
                ),
            r is Err ==> final(self).mat() == old(self).mat(),
    ;

    /// Adds `rhs` entry by entry; the shapes must agree.
    fn add_eq<M: LinAlgGen<N>>(&mut self, rhs: &M) -> (r: Result<(), NetError>)
        requires
            old(self).wf(),
            rhs.wf(),
        ensures
            final(self).wf(),
            r == (if old(self).mat().same_shape(rhs.mat()) {
                Ok::<(), NetError>(())
            } else {
                Err(NetError::ShapeMismatch)
            }),
            r is Ok ==> final(self).mat() == sum(old(self).mat(), rhs.mat()),
            r is Err ==> final(self).mat() == old(self).mat(),
    ;

    /// The entry-by-entry sum; the shapes must agree.
    fn add<M: LinAlgGen<N>>(&self, rhs: &M) -> (r: Result<Self, NetError>)
        requires
            self.wf(),
            rhs.wf(),
        ensures
            r is Ok <==> self.mat().same_shape(rhs.mat()),
            r is Err ==> r == Err::<Self, NetError>(NetError::ShapeMismatch),
            r matches Ok(m) ==> m.wf() && m.mat() == sum(self.mat(), rhs.mat()),
    ;

    /// Subtracts `rhs` entry by entry; the shapes must agree.
    fn sub_eq<M: LinAlgGen<N>>(&mut self, rhs: &M) -> (r: Result<(), NetError>)
        requires
            old(self).wf(),
            rhs.wf(),
        ensures
            final(self).wf(),
            r == (if old(self).mat().same_shape(rhs.mat()) {
                Ok::<(), NetError>(())
            } else {
                Err(NetError::ShapeMismatch)
            }),
            r is Ok ==> final(self).mat() == difference(old(self).mat(), rhs.mat()),
            r is Err ==> final(self).mat() == old(self).mat(),
    ;

    /// The entry-by-entry difference; the shapes must agree.
    fn sub<M: LinAlgGen<N>>(&self, rhs: &M) -> (r: Result<Self, NetError>)
        requires
            self.wf(),
            rhs.wf(),
        ensures
            r is Ok <==> self.mat().same_shape(rhs.mat()),
            r is Err ==> r == Err::<Self, NetError>(NetError::ShapeMismatch),
            r matches Ok(m) ==> m.wf() && m.mat() == difference(self.mat(), rhs.mat()),
    ;

    /// Multiplies by `rhs` entry by entry (the Hadamard product); the shapes must agree.
    fn dot_eq<M: LinAlgGen<N>>(&mut self, rhs: &M) -> (r: Result<(), NetError>)
        requires
            old(self).wf(),
            rhs.wf(),
        ensures
            final(self).wf(),
            r == (if old(self).mat().same_shape(rhs.mat()) {
                Ok::<(), NetError>(())
            } else {
                Err(NetError::ShapeMismatch)
            }),
            r is Ok ==> final(self).mat() == hadamard(old(self).mat(), rhs.mat()),
            r is Err ==> final(self).mat() == old(self).mat(),
    ;

    /// The transpose, as a new matrix of shape `(col, row)`.
    fn transpose(&self) -> (r: Matrix<N>)
        requires
            self.wf(),
        ensures
            r.wf(),
            r.mat() == transposed(self.mat()),
    ;

    /// The square matrix with this column on its diagonal; the value must have
    /// one column.
    fn to_diagonal(&self) -> (r: Result<Matrix<N>, NetError>)
        requires
            self.wf(),
            self.mat().rows * self.mat().rows <= usize::MAX,
        ensures
            r is Ok <==> self.mat().cols == 1,
            r is Err ==> r == Err::<Matrix<N>, NetError>(NetError::ShapeMismatch),
            r matches Ok(m) ==> m.wf() && m.mat() == diagonal(self.mat()),
    ;

    /// The same column as a vector; the value must have one column.
    fn to_vector(&self) -> (r: Result<Vector<N>, NetError>)
        requires
            self.wf(),
        ensures
            r is Ok <==> self.mat().cols == 1,
            r is Err ==> r == Err::<Vector<N>, NetError>(NetError::ShapeMismatch),
            r matches Ok(v) ==> v.wf() && v.mat() == self.mat(),
    ;

    /// The same grid as a matrix.
    fn to_matrix(&self) -> (r: Matrix<N>)
        requires
            self.wf(),
        ensures
            r.wf(),
            r.mat() == self.mat(),
    ;

    /// The Hadamard product; the shapes must agree.
    fn dot<M: LinAlgGen<N>>(&self, rhs: &M) -> (r: Result<Self, NetError>)
        requires
            self.wf(),
            rhs.wf(),
        ensures
            r is Ok <==> self.mat().same_shape(rhs.mat()),
            r is Err ==> r == Err::<Self, NetError>(NetError::ShapeMismatch),
            r matches Ok(m) ==> m.wf() && m.mat() == hadamard(self.mat(), rhs.mat()),
    ;
}

impl<N: Num, T: LinAlgGen<N>> LinAlg<N> for T {
    fn shape(&self) -> (r: (usize, usize)) {
        (self.row(), self.col())
    }

    fn shape_t(&self) -> (r: (usize, usize)) {
        (self.col(), self.row())
    }

    fn fill_eq(&mut self, value: N) {
        let f = |x: N| -> (r: N)
            ensures
                r == value,
            { value };
        map_assign(self, &f);
        proof {
            self.lemma_wf();
            lemma_grid_ext(self.mat(), old(self).mat().rows, old(self).mat().cols, |i: int, j: int| value);
        }
    }

    fn fill_zero(&mut self) {
        self.fill_eq(N::zero());
    }

    fn scale_eq(&mut self, scalar: N) {
        let f = |x: N| -> (r: N)
            ensures
                r == N::times_spec(x, scalar),
            { x.times(scalar) };
        let ghost m0 = self.mat();
        map_assign(self, &f);
        proof {
            self.lemma_wf();
            lemma_grid_ext(self.mat(), m0.rows, m0.cols, |i: int, j: int| N::times_spec(m0.at(i, j), scalar));
        }
    }

    fn scale(&self, scalar: N) -> (r: Self) {
        let mut r = self.duplicate();
        r.scale_eq(scalar);
        r
    }

    fn map_eq<F: Fn(N) -> N>(&mut self, map: F) {
        map_assign(self, &map);
    }

    fn map<F: Fn(N) -> N>(&self, map: F) -> (r: Self) {
        let mut r = self.duplicate();
        map_assign(&mut r, &map);
        r
    }

    fn zip_eq<M: LinAlgGen<N>, F: Fn(N, N) -> N>(&mut self, rhs: &M, map: F) -> (r: Result<(), NetError>) {
        if self.row() != rhs.row() || self.col() != rhs.col() {
            return Err(NetError::ShapeMismatch);
        }
        zip_assign(self, rhs, &map);
        Ok(())
    }

    fn add_eq<M: LinAlgGen<N>>(&mut self, rhs: &M) -> (r: Result<(), NetError>) {
        if self.row() != rhs.row() || self.col() != rhs.col() {
            return Err(NetError::ShapeMismatch);
        }
        let f = |x: N, y: N| -> (r: N)
            ensures
                r == N::plus_spec(x, y),
            { x.plus(y) };
        let ghost m0 = self.mat();
        zip_assign(self, rhs, &f);
        proof {
            self.lemma_wf();
            lemma_grid_ext(
                self.mat(),
                m0.rows,
                m0.cols,
                |i: int, j: int| N::plus_spec(m0.at(i, j), rhs.mat().at(i, j)),
            );
        }
        Ok(())
    }

    fn add<M: LinAlgGen<N>>(&self, rhs: &M) -> (r: Result<Self, NetError>) {
        let mut m = self.duplicate();
        match m.add_eq(rhs) {
            Ok(()) => Ok(m),
            Err(e) => Err(e),
        }
    }

    fn sub_eq<M: LinAlgGen<N>>(&mut self, rhs: &M) -> (r: Result<(), NetError>) {
        if self.row() != rhs.row() || self.col() != rhs.col() {
            return Err(NetError::ShapeMismatch);
        }
        let f = |x: N, y: N| -> (r: N)
            ensures
                r == N::minus_spec(x, y),
            { x.minus(y) };
        let ghost m0 = self.mat();
        zip_assign(self, rhs, &f);
        proof {
            self.lemma_wf();
            lemma_grid_ext(
                self.mat(),
                m0.rows,
                m0.cols,
                |i: int, j: int| N::minus_spec(m0.at(i, j), rhs.mat().at(i, j)),
            );
        }
        Ok(())
    }

    fn sub<M: LinAlgGen<N>>(&self, rhs: &M) -> (r: Result<Self, NetError>) {
        let mut m = self.duplicate();
        match m.sub_eq(rhs) {
            Ok(()) => Ok(m),
            Err(e) => Err(e),
        }
    }

    fn dot_eq<M: LinAlgGen<N>>(&mut self, rhs: &M) -> (r: Result<(), NetError>) {
        if self.row() != rhs.row() || self.col() != rhs.col() {
            return Err(NetError::ShapeMismatch);
        }
        let f = |x: N, y: N| -> (r: N)
            ensures
                r == N::times_spec(x, y),
            { x.times(y) };
        let ghost m0 = self.mat();
        zip_assign(self, rhs, &f);
        proof {
            self.lemma_wf();
            lemma_grid_ext(
                self.mat(),
                m0.rows,
                m0.cols,
                |i: int, j: int| N::times_spec(m0.at(i, j), rhs.mat().at(i, j)),
            );
        }
        Ok(())
    }

    fn dot<M: LinAlgGen<N>>(&self, rhs: &M) -> (r: Result<Self, NetError>) {
        let mut m = self.duplicate();
        match m.dot_eq(rhs) {
            Ok(()) => Ok(m),
            Err(e) => Err(e),
        }
    }

    fn transpose(&self) -> (r: Matrix<N>) {
        proof {
            self.lemma_wf();
            lemma_mul_commutes(self.mat().rows as int, self.mat().cols as int);
        }
        let rows = self.row();
        let cols = self.col();
        let mut out: Matrix<N> = Matrix::from_zeros(cols, rows);
        let f = |i: usize, j: usize| -> (v: N)
            requires
                self.wf(),
                i < self.mat().cols,
                j < self.mat().rows,
            ensures
                v == self.mat().at(j as int, i as int),
            { self.at(j, i) };
        fill_with(&mut out, &f);
        proof {
            out.lemma_wf();
            let t = transposed(self.mat());
            assert forall|i: int, j: int| 0 <= i < cols && 0 <= j < rows implies #[trigger] out.mat().at(i, j)
                == self.mat().at(j, i) by {
                assert(f.ensures((i as usize, j as usize), out.mat().at(i, j)));
            }
            lemma_grid_ext(out.mat(), cols as nat, rows as nat, |i: int, j: int| self.mat().at(j, i));
        }
        out
    }

    fn to_diagonal(&self) -> (r: Result<Matrix<N>, NetError>) {
        if self.col() != 1 {
            return Err(NetError::ShapeMismatch);
        }
        let rows = self.row();
        let mut out: Matrix<N> = Matrix::from_zeros(rows, rows);
        let z = N::zero();
        let f = |i: usize, j: usize| -> (v: N)
            requires
                self.wf(),
                self.mat().cols == 1,
                i < self.mat().rows,
                j < self.mat().rows,
            ensures
                v == (if i == j { self.mat().at(i as int, 0) } else { N::zero_spec() }),
            {
                if i == j {
                    self.at(i, 0)
                } else {
                    z
                }
            };
        fill_with(&mut out, &f);
        proof {
            out.lemma_wf();
            assert forall|i: int, j: int| 0 <= i < rows && 0 <= j < rows implies #[trigger] out.mat().at(i, j)
                == (if i == j { self.mat().at(i, 0) } else { N::zero_spec() }) by {
                assert(f.ensures((i as usize, j as usize), out.mat().at(i, j)));
            }
            lemma_grid_ext(
                out.mat(),
                rows as nat,
                rows as nat,
                |i: int, j: int| if i == j { self.mat().at(i, 0) } else { N::zero_spec() },
            );
        }
        Ok(out)
    }

    fn to_vector(&self) -> (r: Result<Vector<N>, NetError>) {
        if self.col() != 1 {
            return Err(NetError::ShapeMismatch);
        }
        proof {
            self.lemma_wf();
        }
        let rows = self.row();
        let mut out: Vector<N> = Vector::from_zeros(rows, 1);
        let f = |i: usize, j: usize| -> (v: N)
            requires
                self.wf(),
                self.mat().cols == 1,
                i < self.mat().rows,
                j < 1,
            ensures
                v == self.mat().at(i as int, j as int),
            { self.at(i, j) };
        fill_with(&mut out, &f);
        proof {
            out.lemma_wf();
            assert forall|i: int, j: int| 0 <= i < rows && 0 <= j < 1 implies #[trigger] out.mat().at(i, j)
                == self.mat().at(i, j) by {
                assert(f.ensures((i as usize, j as usize), out.mat().at(i, j)));
            }
            lemma_grid_ext(out.mat(), rows as nat, 1, |i: int, j: int| self.mat().at(i, j));
            lemma_grid_ext(self.mat(), rows as nat, 1, |i: int, j: int| self.mat().at(i, j));
        }
        Ok(out)
    }

    fn to_matrix(&self) -> (r: Matrix<N>) {
        proof {
            self.lemma_wf();
        }
        let rows = self.row();
        let cols = self.col();
        let mut out: Matrix<N> = Matrix::from_zeros(rows, cols);
        let f = |i: usize, j: usize| -> (v: N)
            requires
                self.wf(),
                i < self.mat().rows,
                j < self.mat().cols,
            ensures
                v == self.mat().at(i as int, j as int),
            { self.at(i, j) };
        fill_with(&mut out, &f);
        proof {
            out.lemma_wf();
            assert forall|i: int, j: int| 0 <= i < rows && 0 <= j < cols implies #[trigger] out.mat().at(i, j)
                == self.mat().at(i, j) by {
                assert(f.ensures((i as usize, j as usize), out.mat().at(i, j)));
            }
            lemma_grid_ext(out.mat(), rows as nat, cols as nat, |i: int, j: int| self.mat().at(i, j));
            lemma_grid_ext(self.mat(), rows as nat, cols as nat, |i: int, j: int| self.mat().at(i, j));
        }
        out
    }
}

/// Products of dense grids, into a given destination or a new value.
pub trait LinAlgMul<N: Num>: LinAlgGen<N> {
    /// Writes `self · rhs` into `buf`, which must have shape `(self.row, rhs.col)`.
    fn mul_to<M: LinAlgGen<N>, K: LinAlgGen<N>>(&self, rhs: &M, buf: &mut K) -> (r: Result<(), NetError>)
        requires
            self.wf(),
            rhs.wf(),
            old(buf).wf(),
        ensures
            final(buf).wf(),
            r == (if self.mat().cols == rhs.mat().rows && old(buf).mat().rows == self.mat().rows
                && old(buf).mat().cols == rhs.mat().cols {
                Ok::<(), NetError>(())
            } else {
                Err(NetError::ShapeMismatch)
            }),
            r is Ok ==> final(buf).mat() == product(self.mat(), rhs.mat()),
            r is Err ==> final(buf).mat() == old(buf).mat(),
    ;

    /// Writes `selfᵀ · rhs` into `buf`, which must have shape `(self.col, rhs.col)`.
    fn mul_t1_to<M: LinAlgGen<N>, K: LinAlgGen<N>>(&self, rhs: &M, buf: &mut K) -> (r: Result<(), NetError>)
        requires
            self.wf(),
            rhs.wf(),
            old(buf).wf(),
        ensures
            final(buf).wf(),
            r == (if self.mat().rows == rhs.mat().rows && old(buf).mat().rows == self.mat().cols
                && old(buf).mat().cols == rhs.mat().cols {
                Ok::<(), NetError>(())
            } else {
                Err(NetError::ShapeMismatch)
            }),
            r is Ok ==> final(buf).mat() == product_t1(self.mat(), rhs.mat()),
            r is Err ==> final(buf).mat() == old(buf).mat(),
    ;

    /// Writes `self · rhsᵀ` into `buf`, which must have shape `(self.row, rhs.row)`.
    fn mul_t2_to<M: LinAlgGen<N>, K: LinAlgGen<N>>(&self, rhs: &M, buf: &mut K) -> (r: Result<(), NetError>)
        requires
            self.wf(),
            rhs.wf(),
            old(buf).wf(),
        ensures
            final(buf).wf(),
            r == (if self.mat().cols == rhs.mat().cols && old(buf).mat().rows == self.mat().rows
                && old(buf).mat().cols == rhs.mat().rows {
                Ok::<(), NetError>(())
            } else {
                Err(NetError::ShapeMismatch)
            }),
            r is Ok ==> final(buf).mat() == product_t2(self.mat(), rhs.mat()),
            r is Err ==> final(buf).mat() == old(buf).mat(),
    ;

    /// The product `self · rhs`, in a new value of type `K`.
    fn mul<M: LinAlgGen<N>, K: LinAlgGen<N>>(&self, rhs: &M) -> (r: Result<K, NetError>)
        requires
            self.wf(),
            rhs.wf(),
        ensures
            r is Ok <==> self.mat().cols == rhs.mat().rows && K::fits(self.mat().rows, rhs.mat().cols),
            r is Err ==> r == Err::<K, NetError>(NetError::ShapeMismatch),
            r matches Ok(m) ==> m.wf() && m.mat() == product(self.mat(), rhs.mat()),
    ;

    /// The product `selfᵀ · rhs`, in a new value of type `K`.
    fn mul_t1<M: LinAlgGen<N>, K: LinAlgGen<N>>(&self, rhs: &M) -> (r: Result<K, NetError>)
        requires
            self.wf(),
            rhs.wf(),
        ensures
            r is Ok <==> self.mat().rows == rhs.mat().rows && K::fits(self.mat().cols, rhs.mat().cols),
            r is Err ==> r == Err::<K, NetError>(NetError::ShapeMismatch),
            r matches Ok(m) ==> m.wf() && m.mat() == product_t1(self.mat(), rhs.mat()),
    ;

    /// The product `self · rhsᵀ`, in a new value of type `K`.
    fn mul_t2<M: LinAlgGen<N>, K: LinAlgGen<N>>(&self, rhs: &M) -> (r: Result<K, NetError>)
        requires
            self.wf(),
            rhs.wf(),
        ensures
            r is Ok <==> self.mat().cols == rhs.mat().cols && K::fits(self.mat().rows, rhs.mat().rows),
            r is Err ==> r == Err::<K, NetError>(NetError::ShapeMismatch),
            r matches Ok(m) ==> m.wf() && m.mat() == product_t2(self.mat(), rhs.mat()),
    ;
}

impl<N: Num, T: LinAlgGen<N>> LinAlgMul<N> for T {
    fn mul_to<M: LinAlgGen<N>, K: LinAlgGen<N>>(&self, rhs: &M, buf: &mut K) -> (r: Result<(), NetError>) {
        if self.col() != rhs.row() || buf.row() != self.row() || buf.col() != rhs.col() {
            return Err(NetError::ShapeMismatch);
        }
        gemm_into(self, rhs, buf, false, false);
        proof {
            lemma_gemm_shapes(self.mat(), rhs.mat());
        }
        Ok(())
    }

    fn mul_t1_to<M: LinAlgGen<N>, K: LinAlgGen<N>>(&self, rhs: &M, buf: &mut K) -> (r: Result<(), NetError>) {
        if self.row() != rhs.row() || buf.row() != self.col() || buf.col() != rhs.col() {
            return Err(NetError::ShapeMismatch);
        }
        gemm_into(self, rhs, buf, true, false);
        proof {
            lemma_gemm_shapes(self.mat(), rhs.mat());
        }
        Ok(())
    }

    fn mul_t2_to<M: LinAlgGen<N>, K: LinAlgGen<N>>(&self, rhs: &M, buf: &mut K) -> (r: Result<(), NetError>) {
        if self.col() != rhs.col() || buf.row() != self.row() || buf.col() != rhs.row() {
            return Err(NetError::ShapeMismatch);
        }
        gemm_into(self, rhs, buf, false, true);
        proof {
            lemma_gemm_shapes(self.mat(), rhs.mat());
        }
        Ok(())
    }

    fn mul<M: LinAlgGen<N>, K: LinAlgGen<N>>(&self, rhs: &M) -> (r: Result<K, NetError>) {
        if self.col() != rhs.row() || !K::can_hold(self.row(), rhs.col()) {
            return Err(NetError::ShapeMismatch);
        }
        let mut buf = K::from_zeros(self.row(), rhs.col());
        match self.mul_to(rhs, &mut buf) {
            Ok(()) => Ok(buf),
            Err(e) => Err(e),
        }
    }

    fn mul_t1<M: LinAlgGen<N>, K: LinAlgGen<N>>(&self, rhs: &M) -> (r: Result<K, NetError>) {
        if self.row() != rhs.row() || !K::can_hold(self.col(), rhs.col()) {
            return Err(NetError::ShapeMismatch);
        }
        let mut buf = K::from_zeros(self.col(), rhs.col());
        match self.mul_t1_to(rhs, &mut buf) {
            Ok(()) => Ok(buf),
            Err(e) => Err(e),
        }
    }

    fn mul_t2<M: LinAlgGen<N>, K: LinAlgGen<N>>(&self, rhs: &M) -> (r: Result<K, NetError>) {
        if self.col() != rhs.col() || !K::can_hold(self.row(), rhs.row()) {
            return Err(NetError::ShapeMismatch);
        }
        let mut buf = K::from_zeros(self.row(), rhs.row());
        match self.mul_t2_to(rhs, &mut buf) {
            Ok(()) => Ok(buf),
            Err(e) => Err(e),
        }
    }
}

/// A row-major matrix of `row` rows and `col` columns.
pub struct Matrix<N> {
    buf: Vec<N>,
    row: usize,
    col: usize,
}

/// A column vector of `row` entries.
pub struct Vector<N> {
    buf: Vec<N>,
    row: usize,
}

impl<N: Num> LinAlgGen<N> for Matrix<N> {
    closed spec fn wf(&self) -> bool {
        &&& self.buf@.len() == self.row as int * self.col as int
        &&& self.row as int * self.col as int <= usize::MAX
    }

    closed spec fn mat(&self) -> Mat<N> {
        grid(self.row as nat, self.col as nat, |i: int, j: int| self.buf@[i * self.col + j])
    }

    open spec fn fits(rows: nat, cols: nat) -> bool {
        rows * cols <= usize::MAX
    }

    proof fn lemma_wf(&self) {
    }

    fn can_hold(rows: usize, cols: usize) -> (r: bool) {
        rows.checked_mul(cols).is_some()
    }

    fn row(&self) -> (r: usize) {
        self.row
    }

    fn col(&self) -> (r: usize) {
        self.col
    }

    fn at(&self, r: usize, c: usize) -> (v: N) {
        proof {
            lemma_flat_bound(r as int, c as int, self.row as int, self.col as int);
        }
        self.buf[r * self.col + c]
    }

    fn set(&mut self, r: usize, c: usize, v: N) {
        proof {
            lemma_flat_bound(r as int, c as int, self.row as int, self.col as int);
        }
        let k = r * self.col + c;
        self.buf[k] = v;
        proof {
            let o = old(self).mat().update(r as int, c as int, v);
            assert forall|i: int, j: int|
                0 <= i < self.row && 0 <= j < self.col implies #[trigger] self.mat().at(i, j)
                == o.at(i, j) by {
                lemma_flat_bound(i, j, self.row as int, self.col as int);
                if i != r || j != c {
                    lemma_flat_distinct(i, j, r as int, c as int, self.col as int);
                }
            }
            lemma_grid_ext(self.mat(), o.rows, o.cols, |i: int, j: int| o.at(i, j));
            lemma_grid_ext(o, o.rows, o.cols, |i: int, j: int| o.at(i, j));
        }
    }

    fn from_zeros(rows: usize, cols: usize) -> (m: Self) {
        let n = rows * cols;
        let mut buf: Vec<N> = Vec::with_capacity(n);
        let z = N::zero();
        let mut k: usize = 0;
        while k < n
            invariant
                k <= n,
                buf@.len() == k,
                forall|t: int| 0 <= t < k ==> buf@[t] == z,
            decreases n - k,
        {
            buf.push(z);
            k = k + 1;
        }
        let m = Matrix { buf, row: rows, col: cols };
        proof {
            assert forall|i: int, j: int| 0 <= i < rows && 0 <= j < cols implies #[trigger] m.mat().at(
                i,
                j,
            ) == N::zero_spec() by {
                lemma_flat_bound(i, j, rows as int, cols as int);
            }
            lemma_grid_ext(m.mat(), rows as nat, cols as nat, |i: int, j: int| N::zero_spec());
        }
        m
    }

    fn duplicate(&self) -> (m: Self) {
        let n = self.buf.len();
        let mut buf: Vec<N> = Vec::with_capacity(n);
        let mut k: usize = 0;
        while k < n
            invariant
                k <= n,
                n == self.buf@.len(),
                buf@ == self.buf@.subrange(0, k as int),
            decreases n - k,
        {
            buf.push(self.buf[k]);
            k = k + 1;
            proof {
                assert(buf@ =~= self.buf@.subrange(0, k as int));
            }
        }
        proof {
            assert(buf@ =~= self.buf@);
        }
        Matrix { buf, row: self.row, col: self.col }
    }
}

impl<N: Num> LinAlgGen<N> for Vector<N> {
    closed spec fn wf(&self) -> bool {
        self.buf@.len() == self.row
    }

    closed spec fn mat(&self) -> Mat<N> {
        grid(self.row as nat, 1, |i: int, j: int| self.buf@[i])
    }

    open spec fn fits(rows: nat, cols: nat) -> bool {
        cols == 1 && rows <= usize::MAX
    }

    proof fn lemma_wf(&self) {
    }

    fn can_hold(rows: usize, cols: usize) -> (r: bool) {
        cols == 1
    }

    fn row(&self) -> (r: usize) {
        self.row
    }

    fn col(&self) -> (r: usize) {
        1
    }

    fn at(&self, r: usize, c: usize) -> (v: N) {
        self.buf[r]
    }

    fn set(&mut self, r: usize, c: usize, v: N) {
        self.buf[r] = v;
        proof {
            let o = old(self).mat().update(r as int, c as int, v);
            assert forall|i: int, j: int|
                0 <= i < self.row && 0 <= j < 1 implies #[trigger] self.mat().at(i, j) == o.at(
                i,
                j,
            ) by {}
            lemma_grid_ext(self.mat(), o.rows, o.cols, |i: int, j: int| o.at(i, j));
            lemma_grid_ext(o, o.rows, o.cols, |i: int, j: int| o.at(i, j));
        }
    }

    fn from_zeros(rows: usize, cols: usize) -> (m: Self) {
        let mut buf: Vec<N> = Vec::with_capacity(rows);
        let z = N::zero();
        let mut k: usize = 0;
        while k < rows
            invariant
                k <= rows,
                buf@.len() == k,
                forall|t: int| 0 <= t < k ==> buf@[t] == z,
            decreases rows - k,
        {
            buf.push(z);
            k = k + 1;
        }
        let m = Vector { buf, row: rows };
        proof {
            lemma_grid_ext(m.mat(), rows as nat, cols as nat, |i: int, j: int| N::zero_spec());
        }
        m
    }

    fn duplicate(&self) -> (m: Self) {
        let n = self.buf.len();
        let mut buf: Vec<N> = Vec::with_capacity(n);
        let mut k: usize = 0;
        while k < n
            invariant
                k <= n,
                n == self.buf@.len(),
                buf@ == self.buf@.subrange(0, k as int),
            decreases n - k,
        {
            buf.push(self.buf[k]);
            k = k + 1;
            proof {
                assert(buf@ =~= self.buf@.subrange(0, k as int));
            }
        }
        proof {
            assert(buf@ =~= self.buf@);
        }
        Vector { buf, row: self.row }
    }
}

impl<N: Num> Matrix<N> {
    /// The matrix of shape `dim` over the row-major buffer `buf`, whose length
    /// must be `dim.0 · dim.1`.
    pub fn from_buf(dim: (usize, usize), buf: Vec<N>) -> (r: Result<Self, NetError>)
        ensures
            r is Ok <==> buf@.len() == dim.0 as int * dim.1 as int,
            r is Err ==> r == Err::<Self, NetError>(NetError::BadBufferLength),
            r matches Ok(m) ==> m.wf() && m.mat() == grid(
                dim.0 as nat,
                dim.1 as nat,
                |i: int, j: int| buf@[i * dim.1 + j],
            ),
    {
        let (row, col) = dim;
        let len = buf.len();
        match row.checked_mul(col) {
            Some(n) => {
                if len != n {
                    return Err(NetError::BadBufferLength);
                }
            },
            None => {
                return Err(NetError::BadBufferLength);
            },
        }
        Ok(Matrix { buf, row, col })
    }

    /// The row-major buffer.
    pub fn buf(&self) -> (r: &Vec<N>)
        requires
            self.wf(),
        ensures
            r@.len() == self.mat().rows * self.mat().cols,
            forall|i: int, j: int|
                0 <= i < self.mat().rows && 0 <= j < self.mat().cols ==> r@[i * self.mat().cols + j]
                    == #[trigger] self.mat().at(i, j),
    {
        &self.buf
    }

    /// The matrix whose rows are the rows of `arr`.
    pub fn from_arr<const R: usize, const C: usize>(arr: [[N; C]; R]) -> (r: Self)
        requires
            R * C <= usize::MAX,
        ensures
            r.wf(),
            r.mat() == grid(R as nat, C as nat, |i: int, j: int| arr@[i]@[j]),
    {
        let mut out = Self::from_zeros(R, C);
        let a = &arr;
        let f = |i: usize, j: usize| -> (v: N)
            requires
                i < R,
                j < C,
            ensures
                v == a@[i as int]@[j as int],
            { a[i][j] };
        fill_with(&mut out, &f);
        proof {
            out.lemma_wf();
            assert forall|i: int, j: int| 0 <= i < R && 0 <= j < C implies #[trigger] out.mat().at(i, j)
                == arr@[i]@[j] by {
                assert(f.ensures((i as usize, j as usize), out.mat().at(i, j)));
            }
            lemma_grid_ext(out.mat(), R as nat, C as nat, |i: int, j: int| arr@[i]@[j]);
        }
        out
    }

    /// The matrix whose entry `(i, j)` is `map(i, j)`.
    pub fn from_map<F: Fn(usize, usize) -> N>(dim: (usize, usize), map: F) -> (r: Self)
        requires
            dim.0 * dim.1 <= usize::MAX,
            forall|i: usize, j: usize| i < dim.0 && j < dim.1 ==> #[trigger] map.requires((i, j)),
        ensures
            r.wf(),
            r.mat().rows == dim.0,
            r.mat().cols == dim.1,
            forall|i: usize, j: usize|
                i < dim.0 && j < dim.1 ==> map.ensures((i, j), #[trigger] r.mat().at(i as int, j as int)),
    {
        let mut out = Self::from_zeros(dim.0, dim.1);
        fill_with(&mut out, &map);
        out
    }

    /// The matrix of shape `dim` with every entry zero.
    pub fn zeros(dim: (usize, usize)) -> (r: Self)
        requires
            dim.0 * dim.1 <= usize::MAX,
        ensures
            r.wf(),
            r.mat() == filled(dim.0 as nat, dim.1 as nat, N::zero_spec()),
    {
        Self::from_zeros(dim.0, dim.1)
    }

    /// The matrix of shape `dim` with every entry `value`.
    pub fn filled(dim: (usize, usize), value: N) -> (r: Self)
        requires
            dim.0 * dim.1 <= usize::MAX,
        ensures
            r.wf(),
            r.mat() == filled(dim.0 as nat, dim.1 as nat, value),
    {
        let mut out = Self::from_zeros(dim.0, dim.1);
        out.fill_eq(value);
        out
    }

    /// The `n` by `n` identity matrix.
    pub fn identity(n: usize) -> (r: Self)
        requires
            n * n <= usize::MAX,
        ensures
            r.wf(),
            r.mat() == identity_mat::<N>(n as nat),
    {
        let mut out = Self::from_zeros(n, n);
        let z = N::zero();
        let o = N::one();
        let f = |i: usize, j: usize| -> (v: N)
            ensures
                v == (if i == j { N::one_spec() } else { N::zero_spec() }),
            {
                if i == j {
                    o
                } else {
                    z
                }
            };
        fill_with(&mut out, &f);
        proof {
            out.lemma_wf();
            assert forall|i: int, j: int| 0 <= i < n && 0 <= j < n implies #[trigger] out.mat().at(i, j)
                == (if i == j { N::one_spec() } else { N::zero_spec() }) by {
                assert(f.ensures((i as usize, j as usize), out.mat().at(i, j)));
            }
            lemma_grid_ext(
                out.mat(),
                n as nat,
                n as nat,
                |i: int, j: int| if i == j { N::one_spec() } else { N::zero_spec() },
            );
        }
        out
    }
}

impl<N: Num> Vector<N> {
    /// The vector over `buf`, whose length must be `row`.
    pub fn from_buf(row: usize, buf: Vec<N>) -> (r: Result<Self, NetError>)
        ensures
            r is Ok <==> buf@.len() == row,
            r is Err ==> r == Err::<Self, NetError>(NetError::BadBufferLength),
            r matches Ok(v) ==> v.wf() && v.mat() == grid(row as nat, 1, |i: int, j: int| buf@[i]),
    {
        if buf.len() != row {
            return Err(NetError::BadBufferLength);
        }
        Ok(Vector { buf, row })
    }

    /// The entries, top to bottom.
    pub fn buf(&self) -> (r: &Vec<N>)
        requires
            self.wf(),
        ensures
            r@ == self.mat().column(0),
    {
        proof {
            assert(self.buf@ =~= self.mat().column(0));
        }
        &self.buf
    }

    /// The vector holding the entries of `arr`.
    pub fn from_arr<const R: usize>(arr: [N; R]) -> (r: Self)
        ensures
            r.wf(),
            r.mat() == grid(R as nat, 1, |i: int, j: int| arr@[i]),
    {
        let mut out = Self::from_zeros(R, 1);
        let a = &arr;
        let f = |i: usize, j: usize| -> (v: N)
            requires
                i < R,
            ensures
                v == a@[i as int],
            { a[i] };
        fill_with(&mut out, &f);
        proof {
            out.lemma_wf();
            assert forall|i: int, j: int| 0 <= i < R && 0 <= j < 1 implies #[trigger] out.mat().at(i, j)
                == arr@[i] by {
                assert(f.ensures((i as usize, j as usize), out.mat().at(i, j)));
            }
            lemma_grid_ext(out.mat(), R as nat, 1, |i: int, j: int| arr@[i]);
        }
        out
    }

    /// The vector of `row` entries that is one at `hot` and zero elsewhere.
    pub fn one_hot(row: usize, hot: usize) -> (r: Self)
        requires
            hot < row,
        ensures
            r.wf(),
            r.mat() == one_hot_mat::<N>(row as nat, hot as int),
    {
        let mut out = Self::from_zeros(row, 1);
        let o = N::one();
        let ghost m0 = out.mat();
        out.set(hot, 0, o);
        proof {
            lemma_update_at(m0, hot as int, 0, o);
            out.lemma_wf();
            assert forall|i: int, j: int| 0 <= i < row && 0 <= j < 1 implies #[trigger] out.mat().at(i, j)
                == (if i == hot { N::one_spec() } else { N::zero_spec() }) by {
                assert(m0.at(i, j) == N::zero_spec());
            }
            let t = one_hot_mat::<N>(row as nat, hot as int);
            lemma_grid_ext(out.mat(), row as nat, 1, |i: int, j: int| t.at(i, j));
            lemma_grid_ext(t, row as nat, 1, |i: int, j: int| t.at(i, j));
        }
        out
    }

    /// The index of the first largest entry (zero for an empty vector).
    pub fn hot(&self) -> (r: usize)
        requires
            self.wf(),
        ensures
            r == argmax(self.mat().column(0), self.mat().rows),
    {
        let n = self.buf.len();
        let ghost s = self.mat().column(0);
        proof {
            assert(self.buf@ =~= s);
        }
        let mut max: usize = 0;
        if n == 0 {
            return 0;
        }
        let mut i: usize = 1;
        while i < n
            invariant
                1 <= i <= n,
                n == self.buf@.len(),
                self.buf@ == s,
                s.len() == n,
                max < i,
                max == argmax(s, i as nat),
            decreases n - i,
        {
            if self.buf[i].greater(self.buf[max]) {
                max = i;
            }
            i = i + 1;
        }
        max
    }
}

/// Replaces each entry `x` of `m` by `f(x)`, row by row.
fn map_assign<N: Num, T: LinAlgGen<N>, F: Fn(N) -> N>(m: &mut T, f: &F)
    requires
        old(m).wf(),
        forall|x: N| f.requires((x,)),
    ensures
        final(m).wf(),
        final(m).mat().same_shape(old(m).mat()),
        forall|i: int, j: int|
            0 <= i < old(m).mat().rows && 0 <= j < old(m).mat().cols ==> f.ensures(
                (old(m).mat().at(i, j),),
                #[trigger] final(m).mat().at(i, j),
            ),
{
    proof {
        m.lemma_wf();
    }
    let ghost m0 = m.mat();
    let rows = m.row();
    let cols = m.col();
    let mut i: usize = 0;
    while i < rows
        invariant
            m.wf(),
            m.mat().wf(),
            m0.wf(),
            i <= rows,
            m.mat().rows == rows,
            m.mat().cols == cols,
            m0.rows == rows,
            m0.cols == cols,
            forall|x: N| f.requires((x,)),
            forall|a: int, b: int|
                0 <= a < i && 0 <= b < cols ==> f.ensures((m0.at(a, b),), #[trigger] m.mat().at(a, b)),
            forall|a: int, b: int|
                i <= a < rows && 0 <= b < cols ==> #[trigger] m.mat().at(a, b) == m0.at(a, b),
        decreases rows - i,
    {
        let mut j: usize = 0;
        while j < cols
            invariant
                m.wf(),
                m.mat().wf(),
                m0.wf(),
                i < rows,
                j <= cols,
                m.mat().rows == rows,
                m.mat().cols == cols,
                m0.rows == rows,
                m0.cols == cols,
                forall|x: N| f.requires((x,)),
                forall|a: int, b: int|
                    0 <= a < i && 0 <= b < cols ==> f.ensures((m0.at(a, b),), #[trigger] m.mat().at(a, b)),
                forall|b: int| 0 <= b < j ==> f.ensures((m0.at(i as int, b),), #[trigger] m.mat().at(i as int, b)),
                forall|b: int| j <= b < cols ==> #[trigger] m.mat().at(i as int, b) == m0.at(i as int, b),
                forall|a: int, b: int|
                    i < a < rows && 0 <= b < cols ==> #[trigger] m.mat().at(a, b) == m0.at(a, b),
            decreases cols - j,
        {
            let v = f(m.at(i, j));
            let ghost prev = m.mat();
            m.set(i, j, v);
            proof {
                lemma_update_at(prev, i as int, j as int, v);
                m.lemma_wf();
            }
            j = j + 1;
        }
        i = i + 1;
    }
}

/// Replaces each entry `x` of `m` by `f(x, y)`, `y` the entry of `r` at the same place.
fn zip_assign<N: Num, T: LinAlgGen<N>, M: LinAlgGen<N>, F: Fn(N, N) -> N>(m: &mut T, r: &M, f: &F)
    requires
        old(m).wf(),
        r.wf(),
        old(m).mat().same_shape(r.mat()),
        forall|x: N, y: N| f.requires((x, y)),
    ensures
        final(m).wf(),
        final(m).mat().same_shape(old(m).mat()),
        forall|i: int, j: int|
            0 <= i < old(m).mat().rows && 0 <= j < old(m).mat().cols ==> f.ensures(
                (old(m).mat().at(i, j), r.mat().at(i, j)),
                #[trigger] final(m).mat().at(i, j),
            ),
{
    proof {
        m.lemma_wf();
    }
    let ghost m0 = m.mat();
    let rows = m.row();
    let cols = m.col();
    let mut i: usize = 0;
    while i < rows
        invariant
            m.wf(),
            r.wf(),
            m.mat().wf(),
            m0.wf(),
            i <= rows,
            m.mat().rows == rows,
            m.mat().cols == cols,
            m0.rows == rows,
            m0.cols == cols,
            r.mat().rows == rows,
            r.mat().cols == cols,
            forall|x: N, y: N| f.requires((x, y)),
            forall|a: int, b: int|
                0 <= a < i && 0 <= b < cols ==> f.ensures(
                    (m0.at(a, b), r.mat().at(a, b)),
                    #[trigger] m.mat().at(a, b),
                ),
            forall|a: int, b: int|
                i <= a < rows && 0 <= b < cols ==> #[trigger] m.mat().at(a, b) == m0.at(a, b),
        decreases rows - i,
    {
        let mut j: usize = 0;
        while j < cols
            invariant
                m.wf(),
                r.wf(),
                m.mat().wf(),
                m0.wf(),
                i < rows,
                j <= cols,
                m.mat().rows == rows,
                m.mat().cols == cols,
                m0.rows == rows,
                m0.cols == cols,
                r.mat().rows == rows,
                r.mat().cols == cols,
                forall|x: N, y: N| f.requires((x, y)),
                forall|a: int, b: int|
                    0 <= a < i && 0 <= b < cols ==> f.ensures(
                        (m0.at(a, b), r.mat().at(a, b)),
                        #[trigger] m.mat().at(a, b),
                    ),
                forall|b: int|
                    0 <= b < j ==> f.ensures(
                        (m0.at(i as int, b), r.mat().at(i as int, b)),
                        #[trigger] m.mat().at(i as int, b),
                    ),
                forall|b: int| j <= b < cols ==> #[trigger] m.mat().at(i as int, b) == m0.at(i as int, b),
                forall|a: int, b: int|
                    i < a < rows && 0 <= b < cols ==> #[trigger] m.mat().at(a, b) == m0.at(a, b),
            decreases cols - j,
        {
            let v = f(m.at(i, j), r.at(i, j));
            let ghost prev = m.mat();
            m.set(i, j, v);
            proof {
                lemma_update_at(prev, i as int, j as int, v);
                m.lemma_wf();
            }
            j = j + 1;
        }
        i = i + 1;
    }
}

/// Writes into `c` the product of `a` (transposed when `ta`) and `b`
/// (transposed when `tb`); each entry is summed from zero in index order.
fn gemm_into<N: Num, A: LinAlgGen<N>, B: LinAlgGen<N>, C: LinAlgGen<N>>(
    a: &A,
    b: &B,
    c: &mut C,
    ta: bool,
    tb: bool,
)
    requires
        a.wf(),
        b.wf(),
        old(c).wf(),
        old(c).mat().rows == (if ta { a.mat().cols } else { a.mat().rows }),
        old(c).mat().cols == (if tb { b.mat().rows } else { b.mat().cols }),
        (if ta { a.mat().rows } else { a.mat().cols }) == (if tb { b.mat().cols } else { b.mat().rows }),
    ensures
        final(c).wf(),
        final(c).mat() == gemm(a.mat(), b.mat(), ta, tb),
{
    proof {
        a.lemma_wf();
        b.lemma_wf();
        c.lemma_wf();
    }
    let ghost am = a.mat();
    let ghost bm = b.mat();
    let ghost g = gemm(am, bm, ta, tb);
    let rows = c.row();
    let cols = c.col();
    let n = if ta { a.row() } else { a.col() };
    let mut i: usize = 0;
    while i < rows
        invariant
            a.wf(),
            b.wf(),
            c.wf(),
            c.mat().wf(),
            am == a.mat(),
            bm == b.mat(),
            am.wf(),
            bm.wf(),
            g == gemm(am, bm, ta, tb),
            i <= rows,
            c.mat().rows == rows,
            c.mat().cols == cols,
            rows == (if ta { am.cols } else { am.rows }),
            cols == (if tb { bm.rows } else { bm.cols }),
            n == (if ta { am.rows } else { am.cols }),
            n == (if tb { bm.cols } else { bm.rows }),
            forall|p: int, q: int| 0 <= p < i && 0 <= q < cols ==> #[trigger] c.mat().at(p, q) == g.at(p, q),
        decreases rows - i,
    {
        let mut j: usize = 0;
        while j < cols
            invariant
                a.wf(),
                b.wf(),
                c.wf(),
                c.mat().wf(),
                am == a.mat(),
                bm == b.mat(),
                am.wf(),
                bm.wf(),
                g == gemm(am, bm, ta, tb),
                i < rows,
                j <= cols,
                c.mat().rows == rows,
                c.mat().cols == cols,
                rows == (if ta { am.cols } else { am.rows }),
                cols == (if tb { bm.rows } else { bm.cols }),
                n == (if ta { am.rows } else { am.cols }),
                n == (if tb { bm.cols } else { bm.rows }),
                forall|p: int, q: int|
                    0 <= p < i && 0 <= q < cols ==> #[trigger] c.mat().at(p, q) == g.at(p, q),
                forall|q: int| 0 <= q < j ==> #[trigger] c.mat().at(i as int, q) == g.at(i as int, q),
            decreases cols - j,
        {
            let mut acc = N::zero();
            let mut k: usize = 0;
            while k < n
                invariant
                    a.wf(),
                    b.wf(),
                    am == a.mat(),
                    bm == b.mat(),
                    am.wf(),
                    bm.wf(),
                    i < rows,
                    j < cols,
                    k <= n,
                    rows == (if ta { am.cols } else { am.rows }),
                    cols == (if tb { bm.rows } else { bm.cols }),
                    n == (if ta { am.rows } else { am.cols }),
                    n == (if tb { bm.cols } else { bm.rows }),
                    acc == dot_sum(lane(am, i as int, ta), lane(bm, j as int, !tb), k as nat),
                decreases n - k,
            {
                let x = if ta { a.at(k, i) } else { a.at(i, k) };
                let y = if tb { b.at(j, k) } else { b.at(k, j) };
                acc = acc.plus(x.times(y));
                k = k + 1;
            }
            let ghost prev = c.mat();
            c.set(i, j, acc);
            proof {
                lemma_update_at(prev, i as int, j as int, acc);
                c.lemma_wf();
            }
            j = j + 1;
        }
        i = i + 1;
    }
    proof {
        lemma_grid_ext(c.mat(), g.rows, g.cols, |p: int, q: int| g.at(p, q));
        lemma_grid_ext(g, g.rows, g.cols, |p: int, q: int| g.at(p, q));
    }
}

/// Sets each entry `(i, j)` of `m` to `f(i, j)`, row by row.
fn fill_with<N: Num, T: LinAlgGen<N>, F: Fn(usize, usize) -> N>(m: &mut T, f: &F)
    requires
        old(m).wf(),
        forall|i: usize, j: usize|
            i < old(m).mat().rows && j < old(m).mat().cols ==> #[trigger] f.requires((i, j)),
    ensures
        final(m).wf(),
        final(m).mat().same_shape(old(m).mat()),
        forall|i: usize, j: usize|
            i < old(m).mat().rows && j < old(m).mat().cols ==> f.ensures(
                (i, j),
                #[trigger] final(m).mat().at(i as int, j as int),
            ),
{
    proof {
        m.lemma_wf();
    }
    let rows = m.row();
    let cols = m.col();
    let mut i: usize = 0;
    while i < rows
        invariant
            m.wf(),
            m.mat().wf(),
            i <= rows,
            m.mat().rows == rows,
            m.mat().cols == cols,
            forall|p: usize, q: usize| p < rows && q < cols ==> #[trigger] f.requires((p, q)),
            forall|p: usize, q: usize|
                p < i && q < cols ==> f.ensures((p, q), #[trigger] m.mat().at(p as int, q as int)),
        decreases rows - i,
    {
        let mut j: usize = 0;
        while j < cols
            invariant
                m.wf(),
                m.mat().wf(),
                i < rows,
                j <= cols,
                m.mat().rows == rows,
                m.mat().cols == cols,
                forall|p: usize, q: usize| p < rows && q < cols ==> #[trigger] f.requires((p, q)),
                forall|p: usize, q: usize|
                    p < i && q < cols ==> f.ensures((p, q), #[trigger] m.mat().at(p as int, q as int)),
                forall|q: usize| q < j ==> f.ensures((i, q), #[trigger] m.mat().at(i as int, q as int)),
            decreases cols - j,
        {
            let v = f(i, j);
            let ghost prev = m.mat();
            m.set(i, j, v);
            proof {
                lemma_update_at(prev, i as int, j as int, v);
                m.lemma_wf();
            }
            j = j + 1;
        }
        i = i + 1;
    }
}

} // verus!
