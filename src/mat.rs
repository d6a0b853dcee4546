use vstd::prelude::*;

use crate::num::Num;

verus! {

/// The value of a matrix: `rows` rows of `cols` scalars each.
pub struct Mat<N> {
    pub rows: nat,
    pub cols: nat,
    pub data: Seq<Seq<N>>,
}

impl<N> Mat<N> {
    /// Every row has `cols` entries and there are `rows` of them.
    pub open spec fn wf(self) -> bool {
        &&& self.data.len() == self.rows
        &&& forall|i: int| 0 <= i < self.rows ==> #[trigger] self.data[i].len() == self.cols
    }

    pub open spec fn at(self, i: int, j: int) -> N {
        self.data[i][j]
    }

    pub open spec fn same_shape<M>(self, o: Mat<M>) -> bool {
        self.rows == o.rows && self.cols == o.cols
    }

    /// The same grid with entry `(i, j)` replaced by `v`.
    pub open spec fn update(self, i: int, j: int, v: N) -> Mat<N> {
        Mat { data: self.data.update(i, self.data[i].update(j, v)), ..self }
    }

    /// Column `j`, top to bottom.
    pub open spec fn column(self, j: int) -> Seq<N> {
        Seq::new(self.rows, |k: int| self.data[k][j])
    }
}

/// The `rows` by `cols` grid whose entry `(i, j)` is `f(i, j)`.
pub open spec fn grid<N>(rows: nat, cols: nat, f: spec_fn(int, int) -> N) -> Mat<N> {
    Mat { rows, cols, data: Seq::new(rows, |i: int| Seq::new(cols, |j: int| f(i, j))) }
}

/// A grid with every entry equal to `v`.
pub open spec fn filled<N>(rows: nat, cols: nat, v: N) -> Mat<N> {
    grid(rows, cols, |i: int, j: int| v)
}

pub open spec fn transposed<N>(m: Mat<N>) -> Mat<N> {
    grid(m.cols, m.rows, |i: int, j: int| m.at(j, i))
}

pub open spec fn sum<N: Num>(a: Mat<N>, b: Mat<N>) -> Mat<N> {
    grid(a.rows, a.cols, |i: int, j: int| N::plus_spec(a.at(i, j), b.at(i, j)))
}

pub open spec fn difference<N: Num>(a: Mat<N>, b: Mat<N>) -> Mat<N> {
    grid(a.rows, a.cols, |i: int, j: int| N::minus_spec(a.at(i, j), b.at(i, j)))
}

/// Element-wise (Hadamard) product.
pub open spec fn hadamard<N: Num>(a: Mat<N>, b: Mat<N>) -> Mat<N> {
    grid(a.rows, a.cols, |i: int, j: int| N::times_spec(a.at(i, j), b.at(i, j)))
}

/// Every entry multiplied, on the right, by `s`.
pub open spec fn scaled<N: Num>(a: Mat<N>, s: N) -> Mat<N> {
    grid(a.rows, a.cols, |i: int, j: int| N::times_spec(a.at(i, j), s))
}

pub open spec fn mapped<N>(a: Mat<N>, f: spec_fn(N) -> N) -> Mat<N> {
    grid(a.rows, a.cols, |i: int, j: int| f(a.at(i, j)))
}

/// `a[0]·b[0] + a[1]·b[1] + ... + a[n-1]·b[n-1]`, added from the left onto zero.
pub open spec fn dot_sum<N: Num>(a: Seq<N>, b: Seq<N>, n: nat) -> N
    decreases n,
{
    if n == 0 {
        N::zero_spec()
    } else {
        N::plus_spec(dot_sum(a, b, (n - 1) as nat), N::times_spec(a[n - 1], b[n - 1]))
    }
}

/// Row `i` of `a`, or column `i` of it when `t` holds.
pub open spec fn lane<N>(a: Mat<N>, i: int, t: bool) -> Seq<N> {
    if t {
        a.column(i)
    } else {
        a.data[i]
    }
}

/// The product of `a` (transposed when `ta`) and `b` (transposed when `tb`).
pub open spec fn gemm<N: Num>(a: Mat<N>, b: Mat<N>, ta: bool, tb: bool) -> Mat<N> {
    grid(
        if ta { a.cols } else { a.rows },
        if tb { b.rows } else { b.cols },
        |i: int, j: int| dot_sum(lane(a, i, ta), lane(b, j, !tb), if ta { a.rows } else { a.cols }),
    )
}

/// The matrix product `a · b`.
pub open spec fn product<N: Num>(a: Mat<N>, b: Mat<N>) -> Mat<N> {
    grid(a.rows, b.cols, |i: int, j: int| dot_sum(a.data[i], b.column(j), a.cols))
}

/// The product `aᵀ · b`.
pub open spec fn product_t1<N: Num>(a: Mat<N>, b: Mat<N>) -> Mat<N> {
    grid(a.cols, b.cols, |i: int, j: int| dot_sum(a.column(i), b.column(j), a.rows))
}

/// The product `a · bᵀ`.
pub open spec fn product_t2<N: Num>(a: Mat<N>, b: Mat<N>) -> Mat<N> {
    grid(a.rows, b.rows, |i: int, j: int| dot_sum(a.data[i], b.data[j], a.cols))
}

/// The `n` by `n` identity.
pub open spec fn identity_mat<N: Num>(n: nat) -> Mat<N> {
    grid(n, n, |i: int, j: int| if i == j { N::one_spec() } else { N::zero_spec() })
}

/// The square grid with the column `v` on its diagonal and zero elsewhere.
pub open spec fn diagonal<N: Num>(v: Mat<N>) -> Mat<N> {
    grid(v.rows, v.rows, |i: int, j: int| if i == j { v.at(i, 0) } else { N::zero_spec() })
}

/// The column of `n` entries that is one at `hot` and zero elsewhere.
pub open spec fn one_hot_mat<N: Num>(n: nat, hot: int) -> Mat<N> {
    grid(n, 1, |i: int, j: int| if i == hot { N::one_spec() } else { N::zero_spec() })
}

/// Index of the first largest of `s[0..n]`: a later entry replaces the current
/// one only when it compares strictly greater.
pub open spec fn argmax<N: Num>(s: Seq<N>, n: nat) -> nat
    decreases n,
{
    if n <= 1 {
        0
    } else {
        let m = argmax(s, (n - 1) as nat);
        if N::greater_spec(s[n - 1], s[m as int]) {
            (n - 1) as nat
        } else {
            m
        }
    }
}

/// A well-formed grid whose entries are `f`'s is the grid of `f`.
pub proof fn lemma_grid_ext<N>(m: Mat<N>, rows: nat, cols: nat, f: spec_fn(int, int) -> N)
    requires
        m.wf(),
        m.rows == rows,
        m.cols == cols,
        forall|i: int, j: int| 0 <= i < rows && 0 <= j < cols ==> #[trigger] m.at(i, j) == f(i, j),
    ensures
        m == grid(rows, cols, f),
{
    let g = grid(rows, cols, f);
    assert forall|i: int| 0 <= i < rows implies #[trigger] m.data[i] =~= g.data[i] by {
        assert forall|j: int| 0 <= j < cols implies m.data[i][j] == g.data[i][j] by {
            assert(m.at(i, j) == f(i, j));
        }
    }
    assert(m.data =~= g.data);
}

/// Reading a grid after one entry was replaced.
pub proof fn lemma_update_at<N>(m: Mat<N>, i: int, j: int, v: N)
    requires
        m.wf(),
        0 <= i < m.rows,
        0 <= j < m.cols,
    ensures
        m.update(i, j, v).wf(),
        m.update(i, j, v).same_shape(m),
        forall|a: int, b: int|
            0 <= a < m.rows && 0 <= b < m.cols ==> #[trigger] m.update(i, j, v).at(a, b) == if a == i
                && b == j {
                v
            } else {
                m.at(a, b)
            },
{
}

/// The three product forms are `gemm` with the matching transpose flags.
pub proof fn lemma_gemm_shapes<N: Num>(a: Mat<N>, b: Mat<N>)
    ensures
        gemm(a, b, false, false) == product(a, b),
        gemm(a, b, true, false) == product_t1(a, b),
        gemm(a, b, false, true) == product_t2(a, b),
{
    let g0 = gemm(a, b, false, false);
    let g1 = gemm(a, b, true, false);
    let g2 = gemm(a, b, false, true);
    lemma_grid_ext(g0, a.rows, b.cols, |i: int, j: int| dot_sum(a.data[i], b.column(j), a.cols));
    lemma_grid_ext(g1, a.cols, b.cols, |i: int, j: int| dot_sum(a.column(i), b.column(j), a.rows));
    lemma_grid_ext(g2, a.rows, b.rows, |i: int, j: int| dot_sum(a.data[i], b.data[j], a.cols));
}

/// Two well-formed grids of one shape that agree at every entry are equal.
pub proof fn lemma_same_grid<N>(m: Mat<N>, t: Mat<N>)
    requires
        m.wf(),
        t.wf(),
        m.same_shape(t),
        forall|i: int, j: int| 0 <= i < m.rows && 0 <= j < m.cols ==> #[trigger] m.at(i, j) == t.at(i, j),
    ensures
        m == t,
{
    lemma_grid_ext(m, t.rows, t.cols, |i: int, j: int| t.at(i, j));
    lemma_grid_ext(t, t.rows, t.cols, |i: int, j: int| t.at(i, j));
}

/// Zero and one are the identities of addition and multiplication, and zero
/// annihilates: true of the integers, and of the floats away from NaN,
/// infinities and negative zero.
pub open spec fn unit_laws<N: Num>() -> bool {
    &&& forall|x: N| #[trigger] N::plus_spec(N::zero_spec(), x) == x
    &&& forall|x: N| #[trigger] N::plus_spec(x, N::zero_spec()) == x
    &&& forall|x: N| #[trigger] N::times_spec(x, N::one_spec()) == x
    &&& forall|x: N| #[trigger] N::times_spec(N::one_spec(), x) == x
    &&& forall|x: N| #[trigger] N::times_spec(x, N::zero_spec()) == N::zero_spec()
    &&& forall|x: N| #[trigger] N::times_spec(N::zero_spec(), x) == N::zero_spec()
}

/// One compares greater than zero, and neither zero nor one is greater
/// than one or zero otherwise.
pub open spec fn order_laws<N: Num>() -> bool {
    &&& N::greater_spec(N::one_spec(), N::zero_spec())
    &&& !N::greater_spec(N::zero_spec(), N::one_spec())
    &&& !N::greater_spec(N::zero_spec(), N::zero_spec())
}

/// `s[0] + s[1] + ... + s[n-1]`, added from the left onto zero.
pub open spec fn total<N: Num>(s: Seq<N>, n: nat) -> N
    decreases n,
{
    if n == 0 {
        N::zero_spec()
    } else {
        N::plus_spec(total(s, (n - 1) as nat), s[n - 1])
    }
}

/// The 64-bit integers meet both sets of laws.
pub proof fn lemma_i64_laws()
    ensures
        unit_laws::<i64>(),
        order_laws::<i64>(),
{
}

/// So do the 32-bit integers.
pub proof fn lemma_i32_laws()
    ensures
        unit_laws::<i32>(),
        order_laws::<i32>(),
{
}

/// Multiplying by the unit column `e` (one at `j`, zero elsewhere) picks
/// entry `j`: the partial sums are zero up to `j` and `a[j]` after.
proof fn lemma_dot_unit_right<N: Num>(a: Seq<N>, e: Seq<N>, m: nat, j: int)
    requires
        unit_laws::<N>(),
        0 <= j,
        forall|k: int| 0 <= k < m ==> #[trigger] e[k] == (if k == j { N::one_spec() } else { N::zero_spec() }),
    ensures
        dot_sum(a, e, m) == (if m <= j { N::zero_spec() } else { a[j] }),
    decreases m,
{
    if m > 0 {
        lemma_dot_unit_right(a, e, (m - 1) as nat, j);
    }
}

/// The same with the unit column on the left.
proof fn lemma_dot_unit_left<N: Num>(e: Seq<N>, a: Seq<N>, m: nat, j: int)
    requires
        unit_laws::<N>(),
        0 <= j,
        forall|k: int| 0 <= k < m ==> #[trigger] e[k] == (if k == j { N::one_spec() } else { N::zero_spec() }),
    ensures
        dot_sum(e, a, m) == (if m <= j { N::zero_spec() } else { a[j] }),
    decreases m,
{
    if m > 0 {
        lemma_dot_unit_left(e, a, (m - 1) as nat, j);
    }
}

/// Multiplying by the identity, on either side, gives the matrix back
/// (exactly, for a scalar that meets the unit laws).
pub proof fn lemma_identity_neutral<N: Num>(m: Mat<N>)
    requires
        unit_laws::<N>(),
        m.wf(),
    ensures
        product(m, identity_mat::<N>(m.cols)) == m,
        product(identity_mat::<N>(m.rows), m) == m,
{
    let i_r = identity_mat::<N>(m.rows);
    let i_c = identity_mat::<N>(m.cols);
    let p = product(m, i_c);
    let q = product(i_r, m);
    assert forall|i: int, j: int| 0 <= i < m.rows && 0 <= j < m.cols implies #[trigger] p.at(i, j) == m.at(i, j) by {
        lemma_dot_unit_right(m.data[i], i_c.column(j), m.cols, j);
    }
    assert forall|i: int, j: int| 0 <= i < m.rows && 0 <= j < m.cols implies #[trigger] q.at(i, j) == m.at(i, j) by {
        lemma_dot_unit_left(i_r.data[i], m.column(j), m.rows, i);
    }
    lemma_same_grid(p, m);
    lemma_same_grid(q, m);
}

/// Transposing twice gives the matrix back.
pub proof fn lemma_transpose_involutive<N>(m: Mat<N>)
    requires
        m.wf(),
    ensures
        transposed(transposed(m)) == m,
{
    lemma_same_grid(transposed(transposed(m)), m);
}

/// The transpose-aware products agree with transposing first and then
/// multiplying, entry for entry and with the same order of summation.
pub proof fn lemma_transposed_products<N: Num>(a: Mat<N>, b: Mat<N>)
    requires
        a.wf(),
        b.wf(),
    ensures
        product_t1(a, b) == product(transposed(a), b),
        a.cols == b.cols ==> product_t2(a, b) == product(a, transposed(b)),
{
    let ta = transposed(a);
    assert forall|i: int| 0 <= i < a.cols implies #[trigger] ta.data[i] =~= a.column(i) by {}
    lemma_same_grid(product_t1(a, b), product(ta, b));
    if a.cols == b.cols {
        let tb = transposed(b);
        assert forall|j: int| 0 <= j < b.rows implies #[trigger] tb.column(j) =~= b.data[j] by {}
        lemma_same_grid(product_t2(a, b), product(a, tb));
    }
}

/// The entries of a one-hot column add up to one, and its largest entry is
/// at the hot index.
pub proof fn lemma_one_hot<N: Num>(n: nat, k: int)
    requires
        unit_laws::<N>(),
        order_laws::<N>(),
        0 <= k < n,
    ensures
        one_hot_mat::<N>(n, k).at(k, 0) == N::one_spec(),
        total(one_hot_mat::<N>(n, k).column(0), n) == N::one_spec(),
        argmax(one_hot_mat::<N>(n, k).column(0), n) == k,
{
    let c = one_hot_mat::<N>(n, k).column(0);
    lemma_one_hot_prefix(c, n, k);
}

proof fn lemma_one_hot_prefix<N: Num>(c: Seq<N>, m: nat, k: int)
    requires
        unit_laws::<N>(),
        order_laws::<N>(),
        0 <= k,
        forall|i: int| 0 <= i < m ==> #[trigger] c[i] == (if i == k { N::one_spec() } else { N::zero_spec() }),
    ensures
        total(c, m) == (if m <= k { N::zero_spec() } else { N::one_spec() }),
        argmax(c, m) == (if m <= k { 0 } else { k }),
    decreases m,
{
    if m > 0 {
        lemma_one_hot_prefix(c, (m - 1) as nat, k);
        if m >= 2 {
            let p = argmax(c, (m - 1) as nat);
            assert(0 <= p < m - 1);
        }
    }
}

} // verus!
